//! The reachable part of a table: the states that some input leads to from
//! the start state, renumbered in order.

use vstd::prelude::*;
use vstd::set_lib::set_int_range;
use super::{TransitionTable, TableView, dims_ok};
use super::minimize::{entry, targets_in_range};
use crate::machine::{accept_of, chain, chain_matches, link_of, lemma_pattern_of_state_push, next_raw, next_state,
    pattern_of_state, run, scan_matches, table_program, NO_PATTERN};

verus! {

/// `rs` holds the start state and every in-range target of its states.
pub open spec fn reach_closed(t: TableView, rs: Set<int>) -> bool {
    &&& rs.contains(0)
    &&& forall|s: int, b: int| rs.contains(s) && 0 <= s < t.state_count && 0 <= b < t.class_count
        && (entry(t, s, b) as nat) < t.state_count ==> #[trigger] rs.contains(entry(t, s, b) as int)
}

/// State `s` is reachable from the start state: it lies in every set that
/// holds the start state and the targets of its states.
pub open spec fn reachable(t: TableView, s: int) -> bool {
    &&& 0 <= s < t.state_count
    &&& forall|rs: Set<int>| #[trigger] reach_closed(t, rs) ==> rs.contains(s)
}

/// The number of reachable states below `s`: the number a reachable state
/// gets in the reachable part.
pub open spec fn reach_rank(t: TableView, s: int) -> nat
    decreases s,
{
    if s <= 0 {
        0
    } else {
        reach_rank(t, s - 1) + if reachable(t, s - 1) { 1nat } else { 0nat }
    }
}

/// A transition target renumbered for the reachable part: a state by its
/// rank, anything else unchanged.
pub open spec fn reach_target(t: TableView, target: u32) -> u32 {
    if (target as nat) < t.state_count { reach_rank(t, target as int) as u32 } else { target }
}

/// The accept entries of reachable states, renumbered, in order.
pub open spec fn reach_accepts(t: TableView, a: Seq<(u32, u32)>) -> Seq<(u32, u32)>
    decreases a.len(),
{
    if a.len() == 0 {
        Seq::empty()
    } else {
        let prev = reach_accepts(t, a.drop_last());
        if reachable(t, a.last().0 as int) {
            prev.push((reach_rank(t, a.last().0 as int) as u32, a.last().1))
        } else {
            prev
        }
    }
}

/// `r` is the reachable part of `t`: its states are the reachable states of
/// `t` numbered in order, with their transitions and accept entries
/// renumbered, and the pattern lengths of `t`.
pub open spec fn is_reachable_part(t: TableView, r: TableView) -> bool {
    &&& r.state_count == reach_rank(t, t.state_count as int)
    &&& r.class_count == t.class_count
    &&& r.transitions.len() == r.state_count * r.class_count
    &&& forall|s: int, b: int| reachable(t, s) && 0 <= b < t.class_count
        ==> #[trigger] r.transitions[reach_rank(t, s) * t.class_count + b] == reach_target(t, entry(t, s, b))
    &&& r.accept_states == reach_accepts(t, t.accept_states)
    &&& r.pattern_lengths == t.pattern_lengths
}

/// There are no more reachable states below `k` than states.
pub proof fn lemma_rank_le(t: TableView, k: int)
    requires
        0 <= k,
    ensures
        reach_rank(t, k) <= k,
    decreases k,
{
    if k > 0 {
        lemma_rank_le(t, k - 1);
    }
}

/// The accept entries of the reachable part name its states and keep the
/// patterns of the table.
pub proof fn lemma_reach_accepts_ok(t: TableView, a: Seq<(u32, u32)>, k: int)
    requires
        dims_ok(t),
        forall|j: int| 0 <= j < a.len() ==> #[trigger] a[j].1 < usize::MAX,
        0 <= k < reach_accepts(t, a).len(),
    ensures
        (reach_accepts(t, a)[k].0 as nat) < reach_rank(t, t.state_count as int),
        reach_accepts(t, a)[k].1 < usize::MAX,
    decreases a.len(),
{
    let prev = reach_accepts(t, a.drop_last());
    assert forall|j: int| 0 <= j < a.drop_last().len() implies #[trigger] a.drop_last()[j].1 < usize::MAX by {
        assert(a.drop_last()[j] == a[j]);
    }
    if k < prev.len() {
        lemma_reach_accepts_ok(t, a.drop_last(), k);
    } else {
        let x = a.last().0 as int;
        lemma_rank_bound(t, x);
        lemma_rank_le(t, t.state_count as int);
        assert(a.last() == a[a.len() - 1]);
    }
}

/// Ranks grow with the state.
pub proof fn lemma_rank_mono(t: TableView, a: int, b: int)
    requires
        0 <= a <= b,
    ensures
        reach_rank(t, a) <= reach_rank(t, b),
        a < b && reachable(t, a) ==> reach_rank(t, a) < reach_rank(t, b),
    decreases b - a,
{
    if a < b {
        lemma_rank_mono(t, a, b - 1);
        if a == b - 1 {
        }
    }
}

/// A reachable state's rank is below the number of reachable states.
pub proof fn lemma_rank_bound(t: TableView, s: int)
    requires
        reachable(t, s),
    ensures
        reach_rank(t, s) < reach_rank(t, t.state_count as int),
{
    lemma_rank_mono(t, s, t.state_count as int);
}

/// Every rank below the number of reachable states is some reachable state's.
pub proof fn lemma_rank_onto(t: TableView, k: int, j: int)
    requires
        0 <= k,
        0 <= j < reach_rank(t, k),
    ensures
        exists|s: int| 0 <= s < k && reachable(t, s) && #[trigger] reach_rank(t, s) == j,
    decreases k,
{
    if j < reach_rank(t, k - 1) {
        lemma_rank_onto(t, k - 1, j);
        let s = choose|s: int| 0 <= s < k - 1 && reachable(t, s) && #[trigger] reach_rank(t, s) == j;
        assert(0 <= s < k);
    } else {
        assert(reach_rank(t, k - 1) == j);
    }
}

/// The start state is reachable, and so is every in-range target of a
/// reachable state.
pub proof fn lemma_reachable_step(t: TableView, s: int, b: int)
    requires
        t.state_count > 0,
        reachable(t, s) || s == 0,
        0 <= s < t.state_count,
        0 <= b < t.class_count,
    ensures
        reachable(t, 0),
        (entry(t, s, b) as nat) < t.state_count ==> reachable(t, entry(t, s, b) as int),
{
    assert forall|rs: Set<int>| #[trigger] reach_closed(t, rs) implies rs.contains(0) by {}
    if (entry(t, s, b) as nat) < t.state_count {
        assert forall|rs: Set<int>| #[trigger] reach_closed(t, rs) implies rs.contains(entry(t, s, b) as int) by {
            assert(rs.contains(s));
        }
    }
}

impl TransitionTable {
    /// The reachable part of the table: the states that some input leads to
    /// from state 0, renumbered in order, with their transitions and accept
    /// entries.
    pub(crate) fn reachable_part(&self) -> (r: TransitionTable)
        requires
            dims_ok(self@),
            self@.state_count > 0,
            self@.state_count * self@.class_count <= self@.transitions.len(),
        ensures
            is_reachable_part(self@, r@),
    {
        let n = self.state_count;
        let c = self.class_count;
        let tlen = self.transitions.len();
        // breadth-first search from state 0
        let mut keep: Vec<bool> = vec![false; n];
        let mut queue: Vec<u32> = Vec::new();
        let ghost mut seen: Set<int> = Set::empty();
        keep.set(0, true);
        queue.push(0);
        proof {
            seen = seen.insert(0);
            lemma_reachable_step(self@, 0, 0);
            vstd::set_lib::lemma_int_range(0, n as int);
            assert(queue@[0] == 0);
        }
        let mut head: usize = 0;
        while head < queue.len()
            invariant
                n == self@.state_count,
                c == self@.class_count,
                n > 0,
                c > 0,
                dims_ok(self@),
                tlen == self@.transitions.len(),
                n * c <= tlen,
                keep@.len() == n,
                keep@[0],
                head <= queue@.len(),
                seen.finite(),
                seen.len() == queue@.len(),
                seen.subset_of(set_int_range(0, n as int)),
                set_int_range(0, n as int).len() == n,
                set_int_range(0, n as int).finite(),
                forall|i: int| 0 <= i < queue@.len() ==> (#[trigger] queue@[i] as nat) < n,
                forall|i: int| 0 <= i < queue@.len() ==> seen.contains(#[trigger] queue@[i] as int),
                forall|x: int| 0 <= x < n ==> (#[trigger] keep@[x] <==> seen.contains(x)),
                forall|x: int| #[trigger] seen.contains(x) ==> exists|i: int| 0 <= i < queue@.len() && queue@[i] as int == x,
                forall|x: int| 0 <= x < n && #[trigger] keep@[x] ==> reachable(self@, x),
                forall|i: int, b: int| 0 <= i < head && 0 <= b < c ==> (#[trigger] entry(self@, queue@[i] as int, b) as nat) >= n
                    || keep@[entry(self@, queue@[i] as int, b) as int],
            decreases n - head,
        {
            proof {
                vstd::set_lib::lemma_len_subset(seen, set_int_range(0, n as int));
            }
            let s = queue[head];
            let mut b: usize = 0;
            while b < c
                invariant
                    n == self@.state_count,
                    c == self@.class_count,
                    n > 0,
                    tlen == self@.transitions.len(),
                    n * c <= tlen,
                    keep@.len() == n,
                    keep@[0],
                    head < queue@.len(),
                    s == queue@[head as int],
                    (s as nat) < n,
                    b <= c,
                    seen.finite(),
                    seen.len() == queue@.len(),
                    seen.subset_of(set_int_range(0, n as int)),
                    set_int_range(0, n as int).len() == n,
                    set_int_range(0, n as int).finite(),
                    forall|i: int| 0 <= i < queue@.len() ==> (#[trigger] queue@[i] as nat) < n,
                    forall|i: int| 0 <= i < queue@.len() ==> seen.contains(#[trigger] queue@[i] as int),
                    forall|x: int| 0 <= x < n ==> (#[trigger] keep@[x] <==> seen.contains(x)),
                    forall|x: int| #[trigger] seen.contains(x) ==> exists|i: int| 0 <= i < queue@.len() && queue@[i] as int == x,
                    forall|x: int| 0 <= x < n && #[trigger] keep@[x] ==> reachable(self@, x),
                    forall|i: int, b2: int| 0 <= i < head && 0 <= b2 < c ==> (#[trigger] entry(self@, queue@[i] as int, b2) as nat) >= n
                        || keep@[entry(self@, queue@[i] as int, b2) as int],
                    forall|b2: int| 0 <= b2 < b ==> (#[trigger] entry(self@, s as int, b2) as nat) >= n
                        || keep@[entry(self@, s as int, b2) as int],
                decreases c - b,
            {
                proof {
                    assert(s * c + b < n * c) by (nonlinear_arith)
                        requires s < n, b < c;
                }
                let target = self.transitions[s as usize * c + b];
                if (target as usize) < n && !keep[target as usize] {
                    let ghost old_queue = queue@;
                    let ghost old_keep = keep@;
                    proof {
                        assert(keep@[s as int]);
                        lemma_reachable_step(self@, s as int, b as int);
                        assert(!seen.contains(target as int));
                    }
                    keep.set(target as usize, true);
                    queue.push(target);
                    proof {
                        seen = seen.insert(target as int);
                        assert forall|x: int| #[trigger] seen.contains(x) implies exists|i: int| 0 <= i < queue@.len() && queue@[i] as int == x by {
                            if x == target {
                                assert(queue@[old_queue.len() as int] == target);
                            } else {
                                let i = choose|i: int| 0 <= i < old_queue.len() && old_queue[i] as int == x;
                                assert(queue@[i] == old_queue[i]);
                            }
                        }
                        assert forall|i: int| 0 <= i < queue@.len() implies seen.contains(#[trigger] queue@[i] as int) by {
                            if i < old_queue.len() {
                                assert(queue@[i] == old_queue[i]);
                            }
                        }
                        assert forall|i: int, b2: int| 0 <= i < head && 0 <= b2 < c implies (#[trigger] entry(self@, queue@[i] as int, b2) as nat) >= n
                            || keep@[entry(self@, queue@[i] as int, b2) as int] by {
                            assert(queue@[i] == old_queue[i]);
                        }
                    }
                }
                b += 1;
            }
            head += 1;
            proof {
                assert forall|i: int, b2: int| 0 <= i < head && 0 <= b2 < c implies (#[trigger] entry(self@, queue@[i] as int, b2) as nat) >= n
                    || keep@[entry(self@, queue@[i] as int, b2) as int] by {
                    if i == head - 1 {
                        assert(entry(self@, s as int, b2) == entry(self@, queue@[i] as int, b2));
                    }
                }
            }
        }
        // the kept states are exactly the reachable ones
        proof {
            let rs = Set::new(|x: int| 0 <= x < n && keep@[x]);
            assert(reach_closed(self@, rs)) by {
                assert(keep@[0]);
                assert forall|x: int, b2: int| rs.contains(x) && 0 <= x < n && 0 <= b2 < c
                    && (entry(self@, x, b2) as nat) < n implies #[trigger] rs.contains(entry(self@, x, b2) as int) by {
                    assert(seen.contains(x));
                    let i = choose|i: int| 0 <= i < queue@.len() && queue@[i] as int == x;
                    assert(entry(self@, queue@[i] as int, b2) == entry(self@, x, b2));
                }
            }
            assert forall|x: int| 0 <= x < n implies (#[trigger] keep@[x] <==> reachable(self@, x)) by {
                if reachable(self@, x) {
                    assert(rs.contains(x));
                }
            }
        }
        // the rank of each state
        let mut rank: Vec<u32> = Vec::new();
        let mut count: u32 = 0;
        let mut s: usize = 0;
        while s < n
            invariant
                n == self@.state_count,
                dims_ok(self@),
                keep@.len() == n,
                forall|x: int| 0 <= x < n ==> (#[trigger] keep@[x] <==> reachable(self@, x)),
                s <= n,
                rank@.len() == s,
                count == reach_rank(self@, s as int),
                count <= s,
                forall|x: int| 0 <= x < s ==> #[trigger] rank@[x] == reach_rank(self@, x),
            decreases n - s,
        {
            rank.push(count);
            if keep[s] {
                count += 1;
            }
            s += 1;
        }
        // the rows of the reachable states
        let mut transitions: Vec<u32> = Vec::new();
        let mut s: usize = 0;
        while s < n
            invariant
                n == self@.state_count,
                c == self@.class_count,
                c > 0,
                dims_ok(self@),
                tlen == self@.transitions.len(),
                n * c <= tlen,
                keep@.len() == n,
                rank@.len() == n,
                forall|x: int| 0 <= x < n ==> (#[trigger] keep@[x] <==> reachable(self@, x)),
                forall|x: int| 0 <= x < n ==> #[trigger] rank@[x] == reach_rank(self@, x),
                count == reach_rank(self@, n as int),
                s <= n,
                transitions@.len() == reach_rank(self@, s as int) * c,
                forall|x: int, b2: int| 0 <= x < s && reachable(self@, x) && 0 <= b2 < c
                    ==> #[trigger] transitions@[reach_rank(self@, x) * c + b2] == reach_target(self@, entry(self@, x, b2)),
            decreases n - s,
        {
            if keep[s] {
                let ghost base = transitions@.len();
                let mut b: usize = 0;
                while b < c
                    invariant
                        n == self@.state_count,
                        c == self@.class_count,
                        c > 0,
                        tlen == self@.transitions.len(),
                        n * c <= tlen,
                        s < n,
                        rank@.len() == n,
                        forall|x: int| 0 <= x < n ==> #[trigger] rank@[x] == reach_rank(self@, x),
                        base == reach_rank(self@, s as int) * c,
                        b <= c,
                        transitions@.len() == base + b,
                        forall|x: int, b2: int| 0 <= x < s && reachable(self@, x) && 0 <= b2 < c
                            ==> #[trigger] transitions@[reach_rank(self@, x) * c + b2] == reach_target(self@, entry(self@, x, b2)),
                        forall|b2: int| 0 <= b2 < b ==> #[trigger] transitions@[base + b2] == reach_target(self@, entry(self@, s as int, b2)),
                    decreases c - b,
                {
                    proof {
                        assert(s * c + b < n * c) by (nonlinear_arith)
                            requires s < n, b < c;
                    }
                    let target = self.transitions[s * c + b];
                    let v = if (target as usize) < n { rank[target as usize] } else { target };
                    let ghost old_t = transitions@;
                    transitions.push(v);
                    proof {
                        assert forall|x: int, b2: int| 0 <= x < s && reachable(self@, x) && 0 <= b2 < c
                            implies #[trigger] transitions@[reach_rank(self@, x) * c + b2] == reach_target(self@, entry(self@, x, b2)) by {
                            lemma_rank_mono(self@, x, s as int);
                            assert(reach_rank(self@, x) + 1 <= reach_rank(self@, s as int));
                            assert(reach_rank(self@, x) * c + b2 < base) by (nonlinear_arith)
                                requires reach_rank(self@, x) + 1 <= reach_rank(self@, s as int), 0 <= b2 < c,
                                    base == reach_rank(self@, s as int) * c;
                            assert(transitions@[reach_rank(self@, x) * c + b2] == old_t[reach_rank(self@, x) * c + b2]);
                        }
                        assert forall|b2: int| 0 <= b2 < b + 1 implies #[trigger] transitions@[base + b2]
                            == reach_target(self@, entry(self@, s as int, b2)) by {
                            if b2 < b {
                                assert(transitions@[base + b2] == old_t[base + b2]);
                            }
                        }
                    }
                    b += 1;
                }
                proof {
                    assert(reach_rank(self@, s as int + 1) == reach_rank(self@, s as int) + 1);
                    assert(transitions@.len() == reach_rank(self@, s as int + 1) * c) by (nonlinear_arith)
                        requires transitions@.len() == base + c, base == reach_rank(self@, s as int) * c,
                            reach_rank(self@, s as int + 1) == reach_rank(self@, s as int) + 1;
                    assert forall|x: int, b2: int| 0 <= x < s + 1 && reachable(self@, x) && 0 <= b2 < c
                        implies #[trigger] transitions@[reach_rank(self@, x) * c + b2] == reach_target(self@, entry(self@, x, b2)) by {
                        if x == s {
                            assert(transitions@[base + b2] == reach_target(self@, entry(self@, s as int, b2)));
                        }
                    }
                }
            } else {
                proof {
                    assert(reach_rank(self@, s as int + 1) == reach_rank(self@, s as int));
                }
            }
            s += 1;
        }
        // the accept entries of the reachable states
        let mut accepts: Vec<(u32, u32)> = Vec::new();
        let mut i: usize = 0;
        while i < self.accept_states.len()
            invariant
                n == self@.state_count,
                keep@.len() == n,
                rank@.len() == n,
                forall|x: int| 0 <= x < n ==> (#[trigger] keep@[x] <==> reachable(self@, x)),
                forall|x: int| 0 <= x < n ==> #[trigger] rank@[x] == reach_rank(self@, x),
                i <= self@.accept_states.len(),
                accepts@ == reach_accepts(self@, self@.accept_states.take(i as int)),
            decreases self@.accept_states.len() - i,
        {
            let (st, pid) = self.accept_states[i];
            proof {
                assert(self@.accept_states.take(i + 1).drop_last() =~= self@.accept_states.take(i as int));
                assert(self@.accept_states.take(i + 1).last() == (st, pid));
            }
            if (st as usize) < n && keep[st as usize] {
                accepts.push((rank[st as usize], pid));
            }
            i += 1;
        }
        proof {
            assert(self@.accept_states.take(i as int) =~= self@.accept_states);
        }
        let lengths = self.pattern_lengths.clone();
        proof {
            assert(lengths@ =~= self@.pattern_lengths);
        }
        TransitionTable {
            state_count: count as usize,
            class_count: c,
            transitions,
            accept_states: accepts,
            pattern_lengths: lengths,
        }
    }
}

/// Rank tells reachable states apart.
pub proof fn lemma_rank_injective(t: TableView, x: int, y: int)
    requires
        reachable(t, x),
        reachable(t, y),
        x != y,
    ensures
        reach_rank(t, x) != reach_rank(t, y),
{
    if x < y {
        lemma_rank_mono(t, x, y);
    } else {
        lemma_rank_mono(t, y, x);
    }
}

/// A rank fits a state number.
pub proof fn lemma_rank_fits(t: TableView, x: int)
    requires
        dims_ok(t),
        reachable(t, x),
    ensures
        (reach_rank(t, x) as u32) as int == reach_rank(t, x),
        reach_rank(t, x) < 0x8000_0000,
{
    lemma_rank_bound(t, x);
    lemma_rank_le(t, t.state_count as int);
}

/// Every accept entry of the reachable part is an entry of the table, with
/// a reachable state renumbered.
pub proof fn lemma_reach_accepts_from(t: TableView, a: Seq<(u32, u32)>, k: int)
    requires
        0 <= k < reach_accepts(t, a).len(),
    ensures
        exists|j: int| 0 <= j < a.len() && reachable(t, a[j].0 as int)
            && #[trigger] reach_accepts(t, a)[k] == (reach_rank(t, a[j].0 as int) as u32, a[j].1),
    decreases a.len(),
{
    let prev = reach_accepts(t, a.drop_last());
    if k < prev.len() {
        lemma_reach_accepts_from(t, a.drop_last(), k);
        let j = choose|j: int| 0 <= j < a.drop_last().len() && reachable(t, a.drop_last()[j].0 as int)
            && #[trigger] prev[k] == (reach_rank(t, a.drop_last()[j].0 as int) as u32, a.drop_last()[j].1);
        assert(a.drop_last()[j] == a[j]);
    } else {
        assert(a.last() == a[a.len() - 1]);
    }
}

/// The accept entries of the reachable part name distinct states where the
/// table's do.
proof fn lemma_reach_accepts_distinct(t: TableView, a: Seq<(u32, u32)>)
    requires
        dims_ok(t),
        forall|i: int, j: int| 0 <= i < j < a.len() ==> #[trigger] a[i].0 != #[trigger] a[j].0,
    ensures
        forall|i: int, j: int| 0 <= i < j < reach_accepts(t, a).len()
            ==> #[trigger] reach_accepts(t, a)[i].0 != #[trigger] reach_accepts(t, a)[j].0,
    decreases a.len(),
{
    if a.len() > 0 {
        let d = a.drop_last();
        assert forall|i: int, j: int| 0 <= i < j < d.len() implies #[trigger] d[i].0 != #[trigger] d[j].0 by {
            assert(d[i] == a[i] && d[j] == a[j]);
        }
        lemma_reach_accepts_distinct(t, d);
        let prev = reach_accepts(t, d);
        let y = a.last().0 as int;
        if reachable(t, y) {
            let r = reach_accepts(t, a);
            assert forall|i: int, j: int| 0 <= i < j < r.len() implies #[trigger] r[i].0 != #[trigger] r[j].0 by {
                if j == prev.len() {
                    lemma_reach_accepts_from(t, d, i);
                    let z = choose|z: int| 0 <= z < d.len() && reachable(t, d[z].0 as int)
                        && #[trigger] prev[i] == (reach_rank(t, d[z].0 as int) as u32, d[z].1);
                    assert(d[z] == a[z]);
                    assert(a[z].0 != a[a.len() - 1].0);
                    lemma_rank_injective(t, d[z].0 as int, y);
                    lemma_rank_fits(t, d[z].0 as int);
                    lemma_rank_fits(t, y);
                } else {
                    assert(r[i] == prev[i] && r[j] == prev[j]);
                }
            }
        }
    }
}

/// A reachable state and its number in the reachable part have the same
/// pattern.
proof fn lemma_reach_pattern(t: TableView, a: Seq<(u32, u32)>, x: int)
    requires
        dims_ok(t),
        reachable(t, x),
    ensures
        pattern_of_state(reach_accepts(t, a), reach_rank(t, x) as int) == pattern_of_state(a, x),
    decreases a.len(),
{
    lemma_rank_fits(t, x);
    if a.len() > 0 {
        lemma_reach_pattern(t, a.drop_last(), x);
        let y = a.last().0 as int;
        let prev = reach_accepts(t, a.drop_last());
        if reachable(t, y) {
            lemma_rank_fits(t, y);
            if y != x {
                lemma_rank_injective(t, x, y);
            }
            let e = (reach_rank(t, y) as u32, a.last().1);
            lemma_pattern_of_state_push(prev, e, reach_rank(t, x) as int);
        }
    }
}

/// The hypotheses under which the reachable part scans like the table.
pub open spec fn part_scans_like(t: TableView, rt: TableView) -> bool {
    &&& dims_ok(t)
    &&& t.state_count > 0
    &&& t.transitions.len() == t.state_count * t.class_count
    &&& targets_in_range(t)
    &&& is_reachable_part(t, rt)
}

/// One step: from a reachable state and its number, the same byte leads to
/// a reachable state and its number.
proof fn lemma_part_step(t: TableView, rt: TableView, s: u32, b: u8)
    requires
        part_scans_like(t, rt),
        reachable(t, s as int),
        (b as nat) < t.class_count,
    ensures
        reachable(t, next_state(table_program(t), s, b) as int),
        next_state(table_program(rt), reach_rank(t, s as int) as u32, b) == reach_rank(t, next_state(table_program(t), s, b) as int),
{
    let n = t.state_count;
    let c = t.class_count;
    let i = s * c + b;
    assert(0 <= i < n * c) by (nonlinear_arith)
        requires s < n, b < c, n > 0, c > 0, i == s * c + b;
    let target = entry(t, s as int, b as int);
    assert(t.transitions[i] == target);
    assert((target as nat) < n);
    lemma_reachable_step(t, s as int, b as int);
    lemma_rank_fits(t, s as int);
    lemma_rank_fits(t, target as int);
    assert(target < 0x8000_0000u32 ==> target & 0x7FFF_FFFFu32 == target) by (bit_vector);
    assert(next_raw(table_program(t), s, b) == target);
    let g = reach_rank(t, s as int);
    let gt = reach_rank(t, target as int) as u32;
    lemma_rank_bound(t, s as int);
    assert(g * c + b < rt.state_count * c) by (nonlinear_arith)
        requires g < rt.state_count, b < c, c > 0;
    assert(rt.transitions[g * c + b] == gt);
    assert(gt < 0x8000_0000u32 ==> gt & 0x7FFF_FFFFu32 == gt) by (bit_vector);
    assert(next_raw(table_program(rt), g as u32, b) == gt);
}

/// Reading the same bytes, the reachable part is always at the number of the
/// table's state, and both have reported the same matches.
proof fn lemma_part_run(t: TableView, rt: TableView, input: Seq<u8>)
    requires
        part_scans_like(t, rt),
        forall|i: int| 0 <= i < input.len() ==> (#[trigger] input[i] as nat) < t.class_count,
    ensures
        reachable(t, run(table_program(t), input).0 as int),
        run(table_program(rt), input).0 == reach_rank(t, run(table_program(t), input).0 as int),
        run(table_program(rt), input).1 == run(table_program(t), input).1,
    decreases input.len(),
{
    let pt = table_program(t);
    let pr = table_program(rt);
    lemma_reachable_step(t, 0, 0);
    assert(reach_rank(t, 0) == 0);
    if input.len() > 0 {
        let rest = input.drop_last();
        assert forall|i: int| 0 <= i < rest.len() implies (#[trigger] rest[i] as nat) < t.class_count by {
            assert(rest[i] == input[i]);
        }
        lemma_part_run(t, rt, rest);
        let s = run(pt, rest).0;
        let b = input.last();
        assert(b == input[input.len() - 1]);
        lemma_part_step(t, rt, s, b);
        let nt = next_state(pt, s, b);
        let nm = next_state(pr, reach_rank(t, s as int) as u32, b);
        lemma_rank_fits(t, s as int);
        lemma_rank_fits(t, nt as int);
        lemma_rank_bound(t, nt as int);
        lemma_reach_pattern(t, t.accept_states, nt as int);
        assert(accept_of(pr, nm) == accept_of(pt, nt));
        if accept_of(pt, nt) != NO_PATTERN {
            let end = input.len() as u32;
            assert(chain(pt, link_of(pt, nt), 0) =~= Seq::<u32>::empty());
            assert(chain(pr, link_of(pr, nm), 0) =~= Seq::<u32>::empty());
            assert(nt != NO_PATTERN && nm != NO_PATTERN);
            assert(chain(pt, nt, 1) =~= seq![nt]);
            assert(chain(pr, nm, 1) =~= seq![nm]);
            assert(chain_matches(pt, nt, end) =~= chain_matches(pr, nm, end));
        }
    }
}

/// Keeping the reachable states keeps what a table finds: scanning any input
/// whose bytes are classes of `t` reports the same matches on the reachable
/// part as on `t`.
pub proof fn lemma_reachable_part_keeps_matches(t: TableView, rt: TableView, input: Seq<u8>)
    requires
        part_scans_like(t, rt),
        forall|i: int| 0 <= i < input.len() ==> (#[trigger] input[i] as nat) < t.class_count,
    ensures
        scan_matches(table_program(rt), input) == scan_matches(table_program(t), input),
{
    lemma_part_run(t, rt, input);
}

/// The reachable part of a table whose transitions name states has
/// transitions that name its states, one state at least, and accept entries
/// of distinct states where the table's are.
pub proof fn lemma_part_shape(t: TableView, rt: TableView)
    requires
        part_scans_like(t, rt),
        forall|i: int, j: int| 0 <= i < j < t.accept_states.len() ==> #[trigger] t.accept_states[i].0 != #[trigger] t.accept_states[j].0,
    ensures
        rt.state_count > 0,
        targets_in_range(rt),
        forall|i: int| 0 <= i < rt.accept_states.len() ==> (#[trigger] rt.accept_states[i].0 as nat) < rt.state_count,
        forall|i: int, j: int| 0 <= i < j < rt.accept_states.len() ==> #[trigger] rt.accept_states[i].0 != #[trigger] rt.accept_states[j].0,
{
    let n = t.state_count;
    let c = t.class_count;
    lemma_reachable_step(t, 0, 0);
    lemma_rank_bound(t, 0);
    assert forall|i: int| 0 <= i < rt.transitions.len() implies (#[trigger] rt.transitions[i] as nat) < rt.state_count by {
        vstd::arithmetic::div_mod::lemma_fundamental_div_mod(i, c as int);
        vstd::arithmetic::div_mod::lemma_mod_bound(i, c as int);
        let j = i / c as int;
        let b = i % c as int;
        assert(j < rt.state_count) by (nonlinear_arith)
            requires i == c * j + b, 0 <= b < c, i < rt.state_count * c, c > 0;
        assert(0 <= j) by (nonlinear_arith)
            requires i == c * j + b, 0 <= b < c, 0 <= i, c > 0;
        lemma_rank_onto(t, n as int, j);
        let s = choose|s: int| 0 <= s < n && reachable(t, s) && #[trigger] reach_rank(t, s) == j;
        assert(i == reach_rank(t, s) * c + b) by (nonlinear_arith)
            requires i == c * j + b, reach_rank(t, s) == j;
        let e = entry(t, s, b);
        assert(s * c + b < n * c) by (nonlinear_arith)
            requires s < n, b < c, 0 <= b, 0 <= s;
        assert((e as nat) < n);
        lemma_reachable_step(t, s, b);
        lemma_rank_fits(t, e as int);
        lemma_rank_bound(t, e as int);
    }
    assert forall|i: int| 0 <= i < rt.accept_states.len() implies (#[trigger] rt.accept_states[i].0 as nat) < rt.state_count by {
        lemma_reach_accepts_from(t, t.accept_states, i);
        let j = choose|j: int| 0 <= j < t.accept_states.len() && reachable(t, t.accept_states[j].0 as int)
            && #[trigger] reach_accepts(t, t.accept_states)[i] == (reach_rank(t, t.accept_states[j].0 as int) as u32, t.accept_states[j].1);
        lemma_rank_fits(t, t.accept_states[j].0 as int);
        lemma_rank_bound(t, t.accept_states[j].0 as int);
    }
    lemma_reach_accepts_distinct(t, t.accept_states);
}

} // verus!
