//! DFA minimization by partition refinement.
//!
//! States start out grouped by the pattern they accept (non-accepting states
//! together). Each round regroups the states by their own group and the
//! groups of their targets, numbering groups by their first state, until a
//! round changes nothing. The groups then become the states of the smaller
//! table.

use vstd::prelude::*;
use vstd::set_lib::{lemma_int_range, set_int_range};
use std::collections::HashMap;
use super::reach::{is_reachable_part, part_scans_like, reach_accepts, reach_closed, reach_rank, reach_target, reachable, lemma_part_shape,
    lemma_rank_bound, lemma_rank_fits, lemma_rank_le, lemma_rank_onto, lemma_reach_accepts_from, lemma_reach_accepts_ok, lemma_reachable_part_keeps_matches,
    lemma_reachable_step};
use super::{TransitionTable, TableView, MAX_STATES, MAX_TOTAL_TRANSITIONS, clean, empty_table, dims_ok, grown_lengths};
use crate::dfa::{compile_fault, lemma_minimized_compiles};
use crate::machine::{lemma_pattern_of_state_push, accept_of, chain, link_of, chain_matches, next_raw, next_state, pattern_of_state, run, scan_matches, table_program, NO_PATTERN};

verus! {

/// The pattern of the last accept entry that names state `s`, if any.
pub open spec fn acc_opt(accepts: Seq<(u32, u32)>, s: int) -> Option<u32>
    decreases accepts.len(),
{
    if accepts.len() == 0 {
        None
    } else if accepts.last().0 == s {
        Some(accepts.last().1)
    } else {
        acc_opt(accepts.drop_last(), s)
    }
}

/// Raw transition of state `s` on class `b`.
pub open spec fn entry(t: TableView, s: int, b: int) -> u32 {
    t.transitions[s * t.class_count + b]
}

/// The group of a transition target: its group when it is a state, else group 0.
pub open spec fn cls(p: Seq<u32>, target: u32) -> u32 {
    if (target as int) < p.len() { p[target as int] } else { 0 }
}

/// `s` and `r` have the same signature under `p`: the same group, and targets
/// in the same groups on every class.
pub open spec fn sig_eq(t: TableView, p: Seq<u32>, s: int, r: int) -> bool {
    &&& p[s] == p[r]
    &&& forall|b: int| 0 <= b < t.class_count ==> #[trigger] cls(p, entry(t, s, b)) == cls(p, entry(t, r, b))
}

/// `p` is a grouping of the states that is compatible with the table: grouped
/// states accept the same pattern (or none) and go to the same groups.
pub open spec fn is_stable(t: TableView, p: Seq<u32>) -> bool {
    &&& p.len() == t.state_count
    &&& forall|s: int, r: int| 0 <= s < t.state_count && 0 <= r < t.state_count && #[trigger] p[s] == #[trigger] p[r]
        ==> acc_opt(t.accept_states, s) == acc_opt(t.accept_states, r) && sig_eq(t, p, s, r)
}

/// Whatever `q` groups together, `p` groups together too.
pub open spec fn refines(q: Seq<u32>, p: Seq<u32>) -> bool {
    forall|s: int, r: int| 0 <= s < q.len() && 0 <= r < q.len() && #[trigger] q[s] == #[trigger] q[r] ==> p[s] == p[r]
}

/// One more than the largest group number among the first `s` states (0 for none).
pub open spec fn fresh(p: Seq<u32>, s: int) -> nat
    decreases s,
{
    if s <= 0 {
        0
    } else {
        let f = fresh(p, s - 1);
        if p[s - 1] as nat + 1 > f { p[s - 1] as nat + 1 } else { f }
    }
}

/// State `s` is the first of its group.
pub open spec fn is_first(p: Seq<u32>, s: int) -> bool {
    forall|x: int| 0 <= x < s ==> p[x] != #[trigger] p[s]
}

/// Groups are numbered 0, 1, 2, … in the order of their first states.
pub open spec fn is_canonical(p: Seq<u32>) -> bool {
    forall|s: int| 0 <= s < p.len() ==> (#[trigger] is_first(p, s) ==> p[s] == fresh(p, s))
        && (!is_first(p, s) ==> exists|x: int| 0 <= x < s && p[x] == p[s])
}

/// The first states of the groups.
pub open spec fn firsts(p: Seq<u32>) -> Set<int> {
    Set::new(|s: int| 0 <= s < p.len() && is_first(p, s))
}

/// The number of groups of a canonical grouping.
pub open spec fn group_count(p: Seq<u32>) -> nat {
    fresh(p, p.len() as int)
}

/// The coarsest compatible grouping, numbered canonically.
pub open spec fn is_minimal_partition(t: TableView, p: Seq<u32>) -> bool {
    &&& is_stable(t, p)
    &&& is_canonical(p)
    &&& forall|q: Seq<u32>| #[trigger] is_stable(t, q) ==> refines(q, p)
}

/// Every transition names a state (and carries no accept flag).
pub open spec fn targets_in_range(t: TableView) -> bool {
    forall|i: int| 0 <= i < t.transitions.len() ==> (#[trigger] t.transitions[i] as nat) < t.state_count
}

/// The fresh number bounds the groups so far.
proof fn lemma_fresh_bound(p: Seq<u32>, s: int, x: int)
    requires
        0 <= x < s <= p.len(),
    ensures
        (p[x] as nat) < fresh(p, s),
    decreases s,
{
    if x < s - 1 {
        lemma_fresh_bound(p, s - 1, x);
    }
}

/// `fresh` is monotonic.
proof fn lemma_fresh_mono(p: Seq<u32>, s: int, s2: int)
    requires
        0 <= s <= s2 <= p.len(),
    ensures
        fresh(p, s) <= fresh(p, s2),
    decreases s2,
{
    if s < s2 {
        lemma_fresh_mono(p, s, s2 - 1);
    }
}

/// Every state shares its group with the first state of that group.
proof fn lemma_has_first(p: Seq<u32>, s: int)
    requires
        0 <= s < p.len(),
    ensures
        exists|m: int| 0 <= m <= s && p[m] == p[s] && is_first(p, m),
    decreases s,
{
    if is_first(p, s) {
        assert(p[s] == p[s] && is_first(p, s));
    } else {
        let x = choose|x: int| 0 <= x < s && p[x] == p[s];
        lemma_has_first(p, x);
        let m = choose|m: int| 0 <= m <= x && p[m] == p[x] && is_first(p, m);
        assert(0 <= m <= s && p[m] == p[s] && is_first(p, m));
    }
}

/// Two canonical groupings of the same states that group alike are equal.
proof fn lemma_canonical_unique(p: Seq<u32>, q: Seq<u32>)
    requires
        p.len() == q.len(),
        is_canonical(p),
        is_canonical(q),
        refines(p, q),
        refines(q, p),
    ensures
        p == q,
{
    assert forall|s: int| 0 <= s < p.len() implies p[s] == q[s] by {
        lemma_canonical_prefix(p, q, s + 1);
    }
    assert(p =~= q);
}

proof fn lemma_canonical_prefix(p: Seq<u32>, q: Seq<u32>, k: int)
    requires
        p.len() == q.len(),
        0 <= k <= p.len(),
        is_canonical(p),
        is_canonical(q),
        refines(p, q),
        refines(q, p),
    ensures
        forall|s: int| 0 <= s < k ==> p[s] == q[s],
        fresh(p, k) == fresh(q, k),
    decreases k,
{
    if k > 0 {
        lemma_canonical_prefix(p, q, k - 1);
        let s = k - 1;
        if is_first(p, s) {
            assert(is_first(q, s)) by {
                assert forall|x: int| 0 <= x < s implies q[x] != #[trigger] q[s] by {
                    if q[x] == q[s] {
                        assert(p[x] == p[s]);
                    }
                }
            }
            assert(p[s] == fresh(p, s));
            assert(q[s] == fresh(q, s));
        } else {
            let x = choose|x: int| 0 <= x < s && p[x] == p[s];
            assert(q[x] == q[s]);
        }
    }
}

/// A grouping that groups no more than `p` does, with as many first states,
/// groups exactly like `p`.
proof fn lemma_same_firsts_same_groups(p: Seq<u32>, q: Seq<u32>)
    requires
        p.len() == q.len(),
        refines(q, p),
        firsts(q) == firsts(p),
    ensures
        refines(p, q),
{
    assert forall|s: int, r: int| 0 <= s < p.len() && 0 <= r < p.len() && #[trigger] p[s] == #[trigger] p[r]
        implies q[s] == q[r] by {
        if q[s] != q[r] {
            lemma_has_first(p, s);
            let f = choose|m: int| 0 <= m <= s && p[m] == p[s] && is_first(p, m);
            lemma_has_first(q, s);
            let ms = choose|m: int| 0 <= m <= s && q[m] == q[s] && is_first(q, m);
            lemma_has_first(q, r);
            let mr = choose|m: int| 0 <= m <= r && q[m] == q[r] && is_first(q, m);
            // one of the two q-groups does not contain f; its first state is a
            // first of q but not of p
            let m = if q[ms] != q[f] { ms } else { mr };
            assert(q[m] != q[f]);
            assert(p[m] == p[f]);
            assert(firsts(q).contains(m));
            assert(!firsts(p).contains(m)) by {
                if m <= f {
                    assert(m != f);
                    assert(f < p.len());
                    assert(p[m] == p[f]);
                    assert(!is_first(p, f));
                } else {
                    assert(p[f] == p[m]);
                }
            }
        }
    }
}

/// Signatures are compared as an equivalence.
proof fn lemma_sig_eq_equiv(t: TableView, p: Seq<u32>, a: int, b: int, c: int)
    ensures
        sig_eq(t, p, a, a),
        sig_eq(t, p, a, b) ==> sig_eq(t, p, b, a),
        sig_eq(t, p, a, b) && sig_eq(t, p, b, c) ==> sig_eq(t, p, a, c),
{
}

/// Row `s` of a table with at least `n * class_count` entries lies inside it.
proof fn lemma_row_in_range(t: TableView, s: int, b: int)
    requires
        0 <= s < t.state_count,
        0 <= b < t.class_count,
        t.state_count * t.class_count <= t.transitions.len(),
    ensures
        0 <= s * t.class_count + b < t.transitions.len(),
        s * t.class_count + b < (s + 1) * t.class_count,
{
    vstd::arithmetic::mul::lemma_mul_inequality(s + 1, t.state_count as int, t.class_count as int);
    vstd::arithmetic::mul::lemma_mul_is_distributive_add_other_way(t.class_count as int, s, 1);
    vstd::arithmetic::mul::lemma_mul_nonnegative(s, t.class_count as int);
}

impl TransitionTable {
    /// Whether states `s` and `r` have the same signature under `p`.
    fn same_signature(&self, p: &Vec<u32>, s: usize, r: usize) -> (res: bool)
        requires
            p@.len() == self@.state_count,
            s < self@.state_count,
            r < self@.state_count,
            self@.state_count * self@.class_count <= self@.transitions.len(),
        ensures
            res == sig_eq(self@, p@, s as int, r as int),
    {
        if p[s] != p[r] {
            return false;
        }
        let tlen = self.transitions.len();
        let mut b: usize = 0;
        while b < self.class_count
            invariant
                tlen == self@.transitions.len(),
                b <= self.class_count,
                p@.len() == self@.state_count,
                s < self@.state_count,
                r < self@.state_count,
                self@.state_count * self@.class_count <= self@.transitions.len(),
                p@[s as int] == p@[r as int],
                forall|x: int| 0 <= x < b ==> #[trigger] cls(p@, entry(self@, s as int, x)) == cls(p@, entry(self@, r as int, x)),
            decreases self.class_count - b,
        {
            proof {
                lemma_row_in_range(self@, s as int, b as int);
                lemma_row_in_range(self@, r as int, b as int);
            }
            let ts = self.transitions[s * self.class_count + b];
            let tr = self.transitions[r * self.class_count + b];
            let cs = if (ts as usize) < p.len() { p[ts as usize] } else { 0 };
            let cr = if (tr as usize) < p.len() { p[tr as usize] } else { 0 };
            if cs != cr {
                proof {
                    assert(cls(p@, entry(self@, s as int, b as int)) == cs);
                    assert(cls(p@, entry(self@, r as int, b as int)) == cr);
                }
                return false;
            }
            b += 1;
        }
        true
    }

    /// One round of refinement: group the states by signature under `p`,
    /// numbering the groups by their first states. Returns the grouping and
    /// the number of groups.
    fn refine_round(&self, p: &Vec<u32>) -> (res: (Vec<u32>, u32))
        requires
            p@.len() == self@.state_count,
            self@.state_count <= MAX_STATES,
            self@.state_count * self@.class_count <= self@.transitions.len(),
        ensures
            res.0@.len() == self@.state_count,
            is_canonical(res.0@),
            res.1 == group_count(res.0@),
            res.1 <= self@.state_count,
            forall|s: int, r: int| 0 <= s < self@.state_count && 0 <= r < self@.state_count
                ==> (#[trigger] res.0@[s] == #[trigger] res.0@[r] <==> sig_eq(self@, p@, s, r)),
    {
        let n = self.state_count;
        let mut new_p: Vec<u32> = Vec::with_capacity(n);
        let mut reps: Vec<usize> = Vec::new();
        let mut state: usize = 0;
        while state < n
            invariant
                n == self@.state_count,
                n <= MAX_STATES,
                p@.len() == n,
                self@.state_count * self@.class_count <= self@.transitions.len(),
                state <= n,
                new_p@.len() == state,
                reps@.len() <= state,
                forall|c: int| 0 <= c < reps@.len() ==> (#[trigger] reps@[c] as int) < state
                    && new_p@[reps@[c] as int] == c,
                forall|s: int| 0 <= s < state ==> (#[trigger] new_p@[s] as int) < reps@.len(),
                forall|s: int, r: int| 0 <= s < state && 0 <= r < state
                    ==> (#[trigger] new_p@[s] == #[trigger] new_p@[r] <==> sig_eq(self@, p@, s, r)),
                is_canonical(new_p@),
                fresh(new_p@, state as int) == reps@.len(),
            decreases n - state,
        {
            let mut c: usize = 0;
            let mut found = false;
            while c < reps.len() && !found
                invariant
                    n == self@.state_count,
                    p@.len() == n,
                    self@.state_count * self@.class_count <= self@.transitions.len(),
                    state < n,
                    c <= reps@.len(),
                    forall|k: int| 0 <= k < reps@.len() ==> (#[trigger] reps@[k] as int) < state,
                    forall|k: int| 0 <= k < c ==> !sig_eq(self@, p@, state as int, #[trigger] reps@[k] as int),
                    found ==> c < reps@.len() && sig_eq(self@, p@, state as int, reps@[c as int] as int),
                decreases reps@.len() - c + (if found { 0int } else { 1int }),
            {
                if self.same_signature(p, state, reps[c]) {
                    found = true;
                } else {
                    c += 1;
                }
            }
            let ghost before = new_p@;
            if found {
                new_p.push(c as u32);
                proof {
                    let rep = reps@[c as int] as int;
                    assert forall|s: int, r: int| 0 <= s < state + 1 && 0 <= r < state + 1
                        implies (#[trigger] new_p@[s] == #[trigger] new_p@[r] <==> sig_eq(self@, p@, s, r)) by {
                        lemma_sig_eq_equiv(self@, p@, s, r, rep);
                        lemma_sig_eq_equiv(self@, p@, s, rep, r);
                        lemma_sig_eq_equiv(self@, p@, r, s, rep);
                        lemma_sig_eq_equiv(self@, p@, r, rep, s);
                        lemma_sig_eq_equiv(self@, p@, state as int, rep, s);
                        lemma_sig_eq_equiv(self@, p@, s, state as int, rep);
                        lemma_sig_eq_equiv(self@, p@, r, state as int, rep);
                        lemma_sig_eq_equiv(self@, p@, rep, state as int, r);
                        lemma_sig_eq_equiv(self@, p@, rep, state as int, s);
                        if s < state {
                            assert(new_p@[s] == before[s]);
                            assert(before[rep] == c);
                        }
                        if r < state {
                            assert(new_p@[r] == before[r]);
                            assert(before[rep] == c);
                        }
                    }
                    assert(!is_first(new_p@, state as int)) by {
                        assert(new_p@[rep] == new_p@[state as int]);
                    }
                    assert forall|s: int| 0 <= s < state + 1 implies (#[trigger] is_first(new_p@, s) ==> new_p@[s] == fresh(new_p@, s))
                        && (!is_first(new_p@, s) ==> exists|x: int| 0 <= x < s && new_p@[x] == new_p@[s]) by {
                        if s < state {
                            assert(new_p@.take(state as int) =~= before);
                            assert(is_first(new_p@, s) == is_first(before, s));
                            lemma_fresh_prefix(new_p@, before, s);
                            if !is_first(before, s) {
                                let x = choose|x: int| 0 <= x < s && before[x] == before[s];
                                assert(new_p@[x] == new_p@[s]);
                            }
                        } else {
                            assert(new_p@[rep] == new_p@[s]);
                        }
                    }
                    lemma_fresh_prefix(new_p@, before, state as int);
                }
            } else {
                let k = reps.len();
                new_p.push(k as u32);
                reps.push(state);
                proof {
                    assert forall|x: int| 0 <= x < state implies new_p@[x] != #[trigger] new_p@[state as int] by {
                        assert(new_p@[x] == before[x]);
                    }
                    lemma_fresh_prefix(new_p@, before, state as int);
                    assert forall|s: int, r: int| 0 <= s < state + 1 && 0 <= r < state + 1
                        implies (#[trigger] new_p@[s] == #[trigger] new_p@[r] <==> sig_eq(self@, p@, s, r)) by {
                        lemma_sig_eq_equiv(self@, p@, s, r, r);
                        if s < state && r < state {
                            assert(new_p@[s] == before[s]);
                            assert(new_p@[r] == before[r]);
                        } else if s < state {
                            assert(new_p@[s] == before[s]);
                            if sig_eq(self@, p@, s, r) {
                                let c2 = before[s] as int;
                                let rep = reps@[c2] as int;
                                assert(before[rep] == c2);
                                lemma_sig_eq_equiv(self@, p@, s, rep, r);
                                lemma_sig_eq_equiv(self@, p@, rep, s, r);
                                lemma_sig_eq_equiv(self@, p@, r, rep, rep);
                                lemma_sig_eq_equiv(self@, p@, rep, r, rep);
                                assert(!sig_eq(self@, p@, state as int, reps@[c2] as int));
                            }
                        } else if r < state {
                            assert(new_p@[r] == before[r]);
                            if sig_eq(self@, p@, s, r) {
                                let c2 = before[r] as int;
                                let rep = reps@[c2] as int;
                                assert(before[rep] == c2);
                                lemma_sig_eq_equiv(self@, p@, r, rep, s);
                                lemma_sig_eq_equiv(self@, p@, rep, r, s);
                                lemma_sig_eq_equiv(self@, p@, s, r, rep);
                                assert(!sig_eq(self@, p@, state as int, reps@[c2] as int));
                            }
                        }
                    }
                    assert forall|s: int| 0 <= s < state + 1 implies (#[trigger] is_first(new_p@, s) ==> new_p@[s] == fresh(new_p@, s))
                        && (!is_first(new_p@, s) ==> exists|x: int| 0 <= x < s && new_p@[x] == new_p@[s]) by {
                        if s < state {
                            assert(new_p@.take(state as int) =~= before);
                            assert(is_first(new_p@, s) == is_first(before, s));
                            lemma_fresh_prefix(new_p@, before, s);
                            if !is_first(before, s) {
                                let x = choose|x: int| 0 <= x < s && before[x] == before[s];
                                assert(new_p@[x] == new_p@[s]);
                            }
                        }
                    }
                }
            }
            state += 1;
        }
        proof {
            assert(new_p@.len() == n);
        }
        let count = reps.len() as u32;
        (new_p, count)
    }
}

/// `fresh` over a prefix only looks at the prefix.
proof fn lemma_fresh_prefix(p: Seq<u32>, q: Seq<u32>, s: int)
    requires
        0 <= s <= q.len() <= p.len(),
        forall|i: int| 0 <= i < q.len() ==> p[i] == q[i],
    ensures
        fresh(p, s) == fresh(q, s),
    decreases s,
{
    if s > 0 {
        lemma_fresh_prefix(p, q, s - 1);
    }
}

/// States with the same pattern (or none) are grouped together, others apart.
pub open spec fn groups_by_pattern(t: TableView, p: Seq<u32>) -> bool {
    forall|s: int, r: int| 0 <= s < t.state_count && 0 <= r < t.state_count
        ==> (#[trigger] p[s] == #[trigger] p[r] <==> acc_opt(t.accept_states, s) == acc_opt(t.accept_states, r))
}

/// `(state, pattern)` pairs of `accepts` with each state replaced by its
/// group, keeping the first of equal pairs.
pub open spec fn mapped_accepts(accepts: Seq<(u32, u32)>, p: Seq<u32>) -> Seq<(u32, u32)>
    decreases accepts.len(),
{
    if accepts.len() == 0 {
        Seq::empty()
    } else {
        let prev = mapped_accepts(accepts.drop_last(), p);
        let e = (p[accepts.last().0 as int], accepts.last().1);
        if prev.contains(e) { prev } else { prev.push(e) }
    }
}

/// `m` is the table whose states are the groups of `p`: group `p[s]` goes on
/// class `b` to the group of the target of `s`; its accept entries are those
/// of `t` mapped to groups; its pattern lengths are those of `t`.
pub open spec fn is_quotient(t: TableView, p: Seq<u32>, m: TableView) -> bool {
    &&& m.state_count == group_count(p)
    &&& m.class_count == t.class_count
    &&& m.transitions.len() == m.state_count * m.class_count
    &&& forall|s: int, b: int| 0 <= s < t.state_count && 0 <= b < t.class_count
        ==> #[trigger] m.transitions[p[s] * t.class_count + b] == cls(p, entry(t, s, b))
    &&& m.accept_states == mapped_accepts(t.accept_states, p)
    &&& m.pattern_lengths == t.pattern_lengths
}

/// The coarsest compatible grouping of the states of `t`, numbered canonically.
pub open spec fn minimal_partition(t: TableView) -> Seq<u32> {
    choose|p: Seq<u32>| is_minimal_partition(t, p)
}

/// The minimal partition is unique.
proof fn lemma_minimal_unique(t: TableView, p: Seq<u32>)
    requires
        is_minimal_partition(t, p),
    ensures
        minimal_partition(t) == p,
{
    let q = minimal_partition(t);
    assert(is_minimal_partition(t, q));
    assert(refines(p, q));
    assert(refines(q, p));
    lemma_canonical_unique(p, q);
}

/// Every group number below the count is used.
proof fn lemma_canonical_onto(p: Seq<u32>, k: int, c: nat)
    requires
        is_canonical(p),
        0 <= k <= p.len(),
        c < fresh(p, k),
    ensures
        exists|s: int| 0 <= s < k && p[s] == c,
    decreases k,
{
    let s = k - 1;
    if c < fresh(p, s) {
        lemma_canonical_onto(p, s, c);
        let x = choose|x: int| 0 <= x < s && p[x] == c;
        assert(0 <= x < k && p[x] == c);
    } else {
        // fresh grew at s, so s is a first state numbered fresh(p, s) == c
        if !is_first(p, s) {
            let x = choose|x: int| 0 <= x < s && p[x] == p[s];
            lemma_fresh_bound(p, s, x);
        }
        assert(p[s] == c);
    }
}

/// The first states of a grouping lie among the states.
proof fn lemma_firsts_finite(p: Seq<u32>)
    ensures
        firsts(p).finite(),
        firsts(p).len() <= p.len(),
        firsts(p).subset_of(set_int_range(0, p.len() as int)),
{
    lemma_int_range(0, p.len() as int);
    assert(firsts(p).subset_of(set_int_range(0, p.len() as int)));
    vstd::set_lib::lemma_len_subset(firsts(p), set_int_range(0, p.len() as int));
}

/// Whatever refines a grouping keeps its first states.
proof fn lemma_firsts_grow(p: Seq<u32>, q: Seq<u32>)
    requires
        p.len() == q.len(),
        refines(q, p),
    ensures
        firsts(p).subset_of(firsts(q)),
{
    assert forall|s: int| firsts(p).contains(s) implies firsts(q).contains(s) by {
        assert forall|x: int| 0 <= x < s implies q[x] != #[trigger] q[s] by {
            if q[x] == q[s] {
                assert(p[x] == p[s]);
            }
        }
    }
}

/// How far the refinement still has to go: twice the number of missing first
/// states, plus one unless the grouping is canonical with the right count.
pub open spec fn refine_measure(p: Seq<u32>, num: nat) -> nat {
    let unsettled: nat = if is_canonical(p) && num == group_count(p) { 0 } else { 1 };
    2 * (p.len() - firsts(p).len()) as nat + unsettled
}

impl TransitionTable {
    /// The states grouped by the pattern they accept: non-accepting states in
    /// group 0, the others numbered from 1 in the order their pattern first
    /// appears. Returns the grouping and one more than its largest number.
    fn initial_partition(&self) -> (res: (Vec<u32>, u32))
        requires
            self@.state_count <= MAX_STATES,
        ensures
            res.0@.len() == self@.state_count,
            groups_by_pattern(self@, res.0@),
            forall|s: int| 0 <= s < self@.state_count ==> (#[trigger] res.0@[s] as int) < res.1,
            res.1 <= self@.state_count + 1,
    {
        broadcast use vstd::std_specs::hash::group_hash_axioms;
        let n = self.state_count;
        let accepts = &self.accept_states;
        let mut state_to_pattern: HashMap<u32, u32> = HashMap::new();
        let mut k: usize = 0;
        while k < accepts.len()
            invariant
                k <= accepts@.len(),
                forall|s: u32| #![trigger state_to_pattern@.contains_key(s)]
                    (state_to_pattern@.contains_key(s) <==> acc_opt(accepts@.take(k as int), s as int) is Some)
                    && (state_to_pattern@.contains_key(s) ==> acc_opt(accepts@.take(k as int), s as int)
                        == Some(state_to_pattern@[s])),
            decreases accepts@.len() - k,
        {
            let (s, pid) = accepts[k];
            state_to_pattern.insert(s, pid);
            proof {
                assert(accepts@.take(k + 1).drop_last() =~= accepts@.take(k as int));
            }
            k += 1;
        }
        proof {
            assert(accepts@.take(k as int) =~= accepts@);
        }
        let mut partition: Vec<u32> = vec![0u32; n];
        let mut next_class: u32 = 1;
        let mut pattern_class: HashMap<u32, u32> = HashMap::new();
        let mut i: usize = 0;
        while i < n
            invariant
                n == self@.state_count,
                n <= MAX_STATES,
                i <= n,
                partition@.len() == n,
                1 <= next_class <= i + 1,
                forall|s: u32| #![trigger state_to_pattern@.contains_key(s)]
                    (state_to_pattern@.contains_key(s) <==> acc_opt(self@.accept_states, s as int) is Some)
                    && (state_to_pattern@.contains_key(s) ==> acc_opt(self@.accept_states, s as int)
                        == Some(state_to_pattern@[s])),
                forall|s: int| 0 <= s < i ==> (#[trigger] partition@[s] as int) < next_class,
                forall|s: int| i <= s < n ==> #[trigger] partition@[s] == 0,
                forall|s: int| 0 <= s < i ==> (#[trigger] partition@[s] == 0 <==> acc_opt(self@.accept_states, s) is None),
                forall|pid: u32| #[trigger] pattern_class@.contains_key(pid) ==> 1 <= pattern_class@[pid] < next_class,
                forall|s: int| 0 <= s < i && #[trigger] acc_opt(self@.accept_states, s) is Some ==>
                    pattern_class@.contains_key(acc_opt(self@.accept_states, s)->0)
                    && partition@[s] == pattern_class@[acc_opt(self@.accept_states, s)->0],
                forall|a: u32, b: u32| #[trigger] pattern_class@.contains_key(a) && #[trigger] pattern_class@.contains_key(b)
                    && pattern_class@[a] == pattern_class@[b] ==> a == b,
            decreases n - i,
        {
            let key = i as u32;
            let ghost old_pc = pattern_class@;
            let ghost old_part = partition@;
            match state_to_pattern.get(&key) {
                Some(pid_ref) => {
                    let pid = *pid_ref;
                    let class = match pattern_class.get(&pid) {
                        Some(c) => *c,
                        None => {
                            let c = next_class;
                            next_class = next_class + 1;
                            pattern_class.insert(pid, c);
                            c
                        },
                    };
                    partition.set(i, class);
                    proof {
                        assert(acc_opt(self@.accept_states, i as int) == Some(pid));
                        assert(pattern_class@.contains_key(pid) && pattern_class@[pid] == class);
                        assert forall|s: int| 0 <= s < i + 1 && #[trigger] acc_opt(self@.accept_states, s) is Some implies
                            pattern_class@.contains_key(acc_opt(self@.accept_states, s)->0)
                            && partition@[s] == pattern_class@[acc_opt(self@.accept_states, s)->0] by {
                            let q = acc_opt(self@.accept_states, s)->0;
                            if s == i {
                                assert(q == pid);
                            } else {
                            assert(s < i);
                            assert(partition@[s] == old_part[s]);
                            assert(old_pc.contains_key(q) && old_part[s] == old_pc[q]);
                            if q != pid {
                                assert(pattern_class@[q] == old_pc[q]);
                            }
                            }
                        }
                        assert(partition@[i as int] == pattern_class@[acc_opt(self@.accept_states, i as int)->0]);
                    }
                },
                None => {
                    proof {
                        assert(acc_opt(self@.accept_states, i as int) is None);
                        assert forall|s: int| 0 <= s < i + 1 && #[trigger] acc_opt(self@.accept_states, s) is Some implies
                            pattern_class@.contains_key(acc_opt(self@.accept_states, s)->0)
                            && partition@[s] == pattern_class@[acc_opt(self@.accept_states, s)->0] by {
                            assert(old_part[s] == partition@[s]);
                        }
                    }
                },
            }
            i += 1;
        }
        proof {
            assert forall|s: int, r: int| 0 <= s < n && 0 <= r < n
                implies (#[trigger] partition@[s] == #[trigger] partition@[r]
                    <==> acc_opt(self@.accept_states, s) == acc_opt(self@.accept_states, r)) by {
            }
        }
        (partition, next_class)
    }
}

/// Two groupings are equal as sequences when they agree at every state.
fn same_partition(a: &Vec<u32>, b: &Vec<u32>) -> (r: bool)
    requires
        a@.len() == b@.len(),
    ensures
        r == (a@ == b@),
{
    let mut i: usize = 0;
    while i < a.len()
        invariant
            a@.len() == b@.len(),
            i <= a@.len(),
            forall|j: int| 0 <= j < i ==> a@[j] == b@[j],
        decreases a@.len() - i,
    {
        if a[i] != b[i] {
            return false;
        }
        i += 1;
    }
    proof {
        assert(a@ =~= b@);
    }
    true
}

impl TransitionTable {
    /// Refine the grouping by pattern until a round changes nothing. The
    /// result is stable and canonical, groups no state with a state of another
    /// pattern, and (when every transition names a state) is coarser than any
    /// stable grouping. Returns it with its number of groups.
    fn refined_partition(&self) -> (res: (Vec<u32>, u32))
        requires
            dims_ok(self@),
            self@.state_count * self@.class_count <= self@.transitions.len(),
        ensures
            res.0@.len() == self@.state_count,
            is_stable(self@, res.0@),
            is_canonical(res.0@),
            res.1 == group_count(res.0@),
            res.1 <= self@.state_count,
            targets_in_range(self@) ==> is_minimal_partition(self@, res.0@),
    {
        let n = self.state_count;
        let (init, first_count) = self.initial_partition();
        let ghost init_p = init@;
        let mut partition = init;
        let mut num_classes = first_count;
        let mut changed = true;
        proof {
            assert forall|q: Seq<u32>| targets_in_range(self@) && #[trigger] is_stable(self@, q) implies refines(q, partition@) by {
                assert forall|s: int, r: int| 0 <= s < q.len() && 0 <= r < q.len() && #[trigger] q[s] == #[trigger] q[r]
                    implies partition@[s] == partition@[r] by {
                    assert(acc_opt(self@.accept_states, s) == acc_opt(self@.accept_states, r));
                }
            }
            lemma_firsts_finite(partition@);
        }
        while changed
            invariant
                n == self@.state_count,
                dims_ok(self@),
                self@.state_count * self@.class_count <= self@.transitions.len(),
                partition@.len() == n,
                groups_by_pattern(self@, init_p),
                init_p.len() == n,
                refines(partition@, init_p),
                forall|q: Seq<u32>| targets_in_range(self@) && #[trigger] is_stable(self@, q) ==> refines(q, partition@),
                !changed ==> is_canonical(partition@) && num_classes == group_count(partition@),
                !changed ==> forall|s: int, r: int| 0 <= s < n && 0 <= r < n
                    ==> (#[trigger] partition@[s] == #[trigger] partition@[r] <==> sig_eq(self@, partition@, s, r)),
                num_classes <= n + 1,
            decreases (if changed { refine_measure(partition@, num_classes as nat) + 1 } else { 0 }),
        {
            let ghost old_p = partition@;
            let ghost old_num = num_classes;
            let ghost old_measure = refine_measure(partition@, num_classes as nat) + 1;
            changed = false;
            let (new_partition, next_class) = self.refine_round(&partition);
            proof {
                // the new grouping refines the old one
                assert(refines(new_partition@, old_p)) by {
                    assert forall|s: int, r: int| 0 <= s < n && 0 <= r < n && #[trigger] new_partition@[s] == #[trigger] new_partition@[r]
                        implies old_p[s] == old_p[r] by {
                        assert(sig_eq(self@, old_p, s, r));
                    }
                }
                // every stable grouping still refines it
                assert forall|q: Seq<u32>| targets_in_range(self@) && #[trigger] is_stable(self@, q) implies refines(q, new_partition@) by {
                    assert forall|s: int, r: int| 0 <= s < q.len() && 0 <= r < q.len() && #[trigger] q[s] == #[trigger] q[r]
                        implies new_partition@[s] == new_partition@[r] by {
                        assert(sig_eq(self@, q, s, r));
                        assert forall|b: int| 0 <= b < self@.class_count implies
                            #[trigger] cls(old_p, entry(self@, s, b)) == cls(old_p, entry(self@, r, b)) by {
                            lemma_row_in_range(self@, s, b);
                            lemma_row_in_range(self@, r, b);
                            assert(cls(q, entry(self@, s, b)) == cls(q, entry(self@, r, b)));
                            let ts = entry(self@, s, b) as int;
                            let tr = entry(self@, r, b) as int;
                            assert(ts < n && tr < n);
                            assert(q[ts] == q[tr]);
                        }
                        assert(sig_eq(self@, old_p, s, r));
                    }
                }
                assert(refines(new_partition@, init_p)) by {
                    assert forall|s: int, r: int| 0 <= s < n && 0 <= r < n && #[trigger] new_partition@[s] == #[trigger] new_partition@[r]
                        implies init_p[s] == init_p[r] by {
                        assert(old_p[s] == old_p[r]);
                    }
                }
                lemma_firsts_finite(old_p);
                lemma_firsts_finite(new_partition@);
                lemma_firsts_grow(old_p, new_partition@);
            }
            if next_class != num_classes || !same_partition(&new_partition, &partition) {
                changed = true;
                num_classes = next_class;
                partition = new_partition;
                proof {
                    if firsts(partition@) == firsts(old_p) {
                        lemma_same_firsts_same_groups(old_p, partition@);
                        if is_canonical(old_p) && old_num == group_count(old_p) {
                            lemma_canonical_unique(old_p, partition@);
                            assert(false);
                        }
                    } else {
                        let extra = choose|x: int| firsts(partition@).contains(x) && !firsts(old_p).contains(x);
                        assert(firsts(old_p) != firsts(partition@) ==> exists|x: int| firsts(partition@).contains(x) && !firsts(old_p).contains(x)) by {
                            if forall|x: int| firsts(partition@).contains(x) ==> firsts(old_p).contains(x) {
                                assert(firsts(old_p) =~= firsts(partition@));
                            }
                        }
                        firsts(old_p).lemma_subset_not_in_lt(firsts(partition@), extra);
                    }
                    assert(refine_measure(partition@, num_classes as nat) + 1 < old_measure);
                }
            }
        }
        proof {
            assert(is_stable(self@, partition@)) by {
                assert forall|s: int, r: int| 0 <= s < n && 0 <= r < n && #[trigger] partition@[s] == #[trigger] partition@[r]
                    implies acc_opt(self@.accept_states, s) == acc_opt(self@.accept_states, r) && sig_eq(self@, partition@, s, r) by {
                    assert(init_p[s] == init_p[r]);
                }
            }
            if n > 0 {
                lemma_fresh_bound_all(partition@);
            }
        }
        (partition, num_classes)
    }
}

/// A canonical grouping has at most as many groups as states.
proof fn lemma_fresh_bound_all(p: Seq<u32>)
    requires
        is_canonical(p),
    ensures
        fresh(p, p.len() as int) <= p.len(),
{
    lemma_fresh_le(p, p.len() as int);
}

proof fn lemma_fresh_le(p: Seq<u32>, s: int)
    requires
        0 <= s <= p.len(),
    ensures
        is_canonical(p) ==> fresh(p, s) <= s,
    decreases s,
{
    if s > 0 {
        lemma_fresh_le(p, s - 1);
        if is_canonical(p) {
            let x = s - 1;
            if !is_first(p, x) {
                let y = choose|y: int| 0 <= y < x && p[y] == p[x];
                lemma_fresh_bound(p, x, y);
            }
        }
    }
}

/// Whether `pairs` holds `(a, b)`.
pub(crate) fn contains_pair(pairs: &[(u32, u32)], a: u32, b: u32) -> (r: bool)
    ensures
        r == pairs@.contains((a, b)),
{
    let mut i: usize = 0;
    while i < pairs.len()
        invariant
            i <= pairs@.len(),
            forall|j: int| 0 <= j < i ==> pairs@[j] != (a, b),
        decreases pairs@.len() - i,
    {
        let (x, y) = pairs[i];
        if x == a && y == b {
            proof {
                assert(pairs@[i as int] == (a, b));
            }
            return true;
        }
        i += 1;
    }
    false
}

/// What [`TransitionTable::minimize`] gives when it merges the states of `t`
/// by the grouping `p` and must beat `limit` states: the table of the groups
/// when there are fewer groups than `limit` and that table can be allocated,
/// else nothing.
pub open spec fn minimize_outcome(limit: nat, t: TableView, p: Seq<u32>, r: Option<TableView>) -> bool {
    let k = group_count(p);
    if k < limit && k * t.class_count <= MAX_TOTAL_TRANSITIONS {
        r matches Some(m) && is_quotient(t, p, m)
    } else {
        r is None
    }
}

/// A table on which minimizing keeps every match and settles: every
/// transition names a state, the transitions fill the rows exactly, and no
/// state has two accept entries.
pub open spec fn lawful_table(t: TableView) -> bool {
    &&& targets_in_range(t)
    &&& t.transitions.len() == t.state_count * t.class_count
    &&& forall|i: int, j: int| 0 <= i < j < t.accept_states.len()
        ==> #[trigger] t.accept_states[i].0 != #[trigger] t.accept_states[j].0
}

/// Minimizing `m` gives nothing, whatever reachable part and compatible
/// grouping it settles on.
pub open spec fn settled(m: TableView) -> bool {
    forall|rt: TableView, p: Seq<u32>, r: Option<TableView>|
        is_reachable_part(m, rt) && is_stable(rt, p) && is_canonical(p)
        && #[trigger] minimize_outcome(m.state_count, rt, p, r) ==> r is None
}

impl TransitionTable {
    /// Minimize the DFA by partition refinement.
    ///
    /// Keeps the states that some input leads to from state 0, then merges
    /// those that the coarsest grouping compatible with the table puts
    /// together (grouped states accept the same pattern and go to the same
    /// groups). Returns the table of the groups when it has fewer states than
    /// this table and can be allocated; `None` otherwise, or for a table of
    /// at most one state or of no classes.
    ///
    /// For a table whose transitions name states and whose states carry at
    /// most one accept entry each, the result finds the same matches on every
    /// input, minimizing it again gives nothing, and it passes the compile
    /// check where the table does.
    pub fn minimize(&self) -> (r: Option<Self>)
        requires
            self@.state_count > 1 ==> {
                &&& self@.state_count <= MAX_STATES
                &&& self@.state_count * self@.class_count <= self@.transitions.len()
                &&& forall|k: int| 0 <= k < self@.accept_states.len() ==> #[trigger] self@.accept_states[k].1 < usize::MAX
            },
        ensures
            self@.state_count <= 1 ==> r is None,
            self@.class_count == 0 ==> r is None,
            self@.state_count > 1 && self@.class_count > 0 ==> exists|rt: TableView, p: Seq<u32>| {
                &&& is_reachable_part(self@, rt)
                &&& is_stable(rt, p)
                &&& is_canonical(p)
                &&& (targets_in_range(rt) ==> p == minimal_partition(rt))
                &&& minimize_outcome(self@.state_count, rt, p, match r { Some(m) => Some(m@), None => None })
            },
            lawful_table(self@) ==> (r matches Some(m) ==> forall|input: Seq<u8>|
                (forall|i: int| 0 <= i < input.len() ==> (#[trigger] input[i] as nat) < self@.class_count)
                ==> #[trigger] scan_matches(table_program(m@), input) == scan_matches(table_program(self@), input)),
            lawful_table(self@) ==> (r matches Some(m) ==> settled(m@)),
            lawful_table(self@) && compile_fault(self@, Seq::empty()) is None
                ==> (r matches Some(m) ==> compile_fault(m@, Seq::empty()) is None),
    {
        let n = self.state_count;
        if n <= 1 {
            return None;
        }
        if self.class_count == 0 {
            return None;
        }
        let part = self.reachable_part();
        proof {
            let rt = part@;
            assert forall|k: int| 0 <= k < rt.accept_states.len() implies (#[trigger] rt.accept_states[k].0 as nat) < rt.state_count by {
                lemma_reach_accepts_ok(self@, self@.accept_states, k);
            }
            assert forall|k: int| 0 <= k < rt.accept_states.len() implies #[trigger] rt.accept_states[k].1 < usize::MAX by {
                lemma_reach_accepts_ok(self@, self@.accept_states, k);
            }
            lemma_rank_le(self@, n as int);
        }
        let r = part.merge_equivalent(n);
        proof {
            let rt = part@;
            let p = choose|p: Seq<u32>| {
                &&& is_stable(rt, p)
                &&& is_canonical(p)
                &&& (targets_in_range(rt) ==> is_minimal_partition(rt, p) && p == minimal_partition(rt))
                &&& minimize_outcome(n as nat, rt, p, match r { Some(m) => Some(m@), None => None })
            };
            assert(is_reachable_part(self@, rt));
            if r is Some && lawful_table(self@) {
                let m = r->0@;
                assert(part_scans_like(self@, rt));
                lemma_part_shape(self@, rt);
                assert(is_quotient(rt, p, m));
                assert forall|input: Seq<u8>|
                    (forall|i: int| 0 <= i < input.len() ==> (#[trigger] input[i] as nat) < self@.class_count)
                    implies #[trigger] scan_matches(table_program(m), input) == scan_matches(table_program(self@), input) by {
                    lemma_minimize_keeps_matches(self@, rt, p, m, input);
                }
                assert forall|rt2: TableView, p2: Seq<u32>, r2: Option<TableView>|
                    is_reachable_part(m, rt2) && is_stable(rt2, p2) && is_canonical(p2)
                    && #[trigger] minimize_outcome(m.state_count, rt2, p2, r2) implies r2 is None by {
                    lemma_minimize_idempotent(self@, rt, p, m, rt2, p2, r2);
                }
                if compile_fault(self@, Seq::empty()) is None {
                    lemma_minimized_compiles(self@, rt, p, m);
                }
            }
        }
        r
    }

    /// Merge the states that the coarsest compatible grouping puts together,
    /// when that leaves fewer than `limit` states.
    fn merge_equivalent(&self, limit: usize) -> (r: Option<Self>)
        requires
            dims_ok(self@),
            self@.state_count <= limit,
            self@.state_count * self@.class_count <= self@.transitions.len(),
            forall|k: int| 0 <= k < self@.accept_states.len() ==> (#[trigger] self@.accept_states[k].0 as nat) < self@.state_count,
            forall|k: int| 0 <= k < self@.accept_states.len() ==> #[trigger] self@.accept_states[k].1 < usize::MAX,
        ensures
            exists|p: Seq<u32>| {
                &&& is_stable(self@, p)
                &&& is_canonical(p)
                &&& (targets_in_range(self@) ==> is_minimal_partition(self@, p) && p == minimal_partition(self@))
                &&& minimize_outcome(limit as nat, self@, p, match r { Some(m) => Some(m@), None => None })
            },
    {
        let n = self.state_count;
        let (partition, num_classes) = self.refined_partition();
        let ghost p = partition@;
        proof {
            if targets_in_range(self@) {
                lemma_minimal_unique(self@, p);
            }
        }
        let new_state_count = num_classes as usize;
        if new_state_count >= limit {
            proof {
                assert(minimize_outcome(limit as nat, self@, p, None));
            }
            return None;
        }
        let c = self.class_count;
        let mut new_table = match Self::new(new_state_count, c) {
            Ok(t) => t,
            Err(_) => {
                proof {
                    assert(minimize_outcome(limit as nat, self@, p, None));
                }
                return None;
            },
        };
        let ghost k = new_state_count as int;
        // a representative of each group: its last state
        let mut class_representative: Vec<usize> = vec![0usize; new_state_count];
        let mut state: usize = 0;
        while state < n
            invariant
                n == self@.state_count,
                p == partition@,
                p.len() == n,
                is_canonical(p),
                k == group_count(p),
                class_representative@.len() == k,
                state <= n,
                forall|c2: int| 0 <= c2 < k ==> (#[trigger] class_representative@[c2] as int) < n,
                forall|c2: int| 0 <= c2 < k && (exists|x: int| 0 <= x < state && p[x] == c2)
                    ==> p[#[trigger] class_representative@[c2] as int] == c2,
            decreases n - state,
        {
            proof {
                lemma_fresh_bound(p, n as int, state as int);
            }
            let cl = partition[state];
            class_representative.set(cl as usize, state);
            proof {
                assert forall|c2: int| 0 <= c2 < k && (exists|x: int| 0 <= x < state + 1 && p[x] == c2)
                    implies p[#[trigger] class_representative@[c2] as int] == c2 by {
                    if c2 != cl {
                        let x = choose|x: int| 0 <= x < state + 1 && p[x] == c2;
                        assert(x < state);
                    }
                }
            }
            state += 1;
        }
        proof {
            assert forall|c2: int| 0 <= c2 < k implies p[#[trigger] class_representative@[c2] as int] == c2 by {
                lemma_canonical_onto(p, n as int, c2 as nat);
            }
        }
        // the transitions of each group: those of its representative, mapped to groups
        let tlen = self.transitions.len();
        let ntlen = new_table.transitions.len();
        let mut ns: usize = 0;
        while ns < new_state_count
            invariant
                tlen == self@.transitions.len(),
                ntlen == new_table@.transitions.len(),
                forall|c2: int| 0 <= c2 < k ==> p[#[trigger] class_representative@[c2] as int] == c2,
                n == self@.state_count,
                c == self@.class_count,
                c > 0,
                self@.state_count * self@.class_count <= self@.transitions.len(),
                p == partition@,
                p.len() == n,
                k == new_state_count,
                k <= n,
                class_representative@.len() == k,
                forall|c2: int| 0 <= c2 < k ==> (#[trigger] class_representative@[c2] as int) < n,
                new_table@.state_count == k,
                new_table@.class_count == c,
                new_table@.transitions.len() == k * c,
                new_table@.accept_states == Seq::<(u32, u32)>::empty(),
                new_table@.pattern_lengths == Seq::<u32>::empty(),
                ns <= k,
                forall|c2: int, b: int| 0 <= c2 < ns && 0 <= b < c ==> #[trigger] new_table@.transitions[c2 * c + b]
                    == cls(p, entry(self@, class_representative@[c2] as int, b)),
            decreases k - ns,
        {
            let repr = class_representative[ns];
            let mut b: usize = 0;
            while b < c
                invariant
                    tlen == self@.transitions.len(),
                    ntlen == new_table@.transitions.len(),
                    n == self@.state_count,
                    c == self@.class_count,
                    c > 0,
                    self@.state_count * self@.class_count <= self@.transitions.len(),
                    p == partition@,
                    p.len() == n,
                    k == new_state_count,
                    ns < k,
                    repr < n,
                    repr == class_representative@[ns as int],
                    new_table@.state_count == k,
                    new_table@.class_count == c,
                    new_table@.transitions.len() == k * c,
                    new_table@.accept_states == Seq::<(u32, u32)>::empty(),
                    new_table@.pattern_lengths == Seq::<u32>::empty(),
                    b <= c,
                    forall|c2: int, b2: int| 0 <= c2 < ns && 0 <= b2 < c ==> #[trigger] new_table@.transitions[c2 * c + b2]
                        == cls(p, entry(self@, class_representative@[c2] as int, b2)),
                    forall|b2: int| 0 <= b2 < b ==> #[trigger] new_table@.transitions[ns * c + b2]
                        == cls(p, entry(self@, repr as int, b2)),
                decreases c - b,
            {
                proof {
                    lemma_row_in_range(self@, repr as int, b as int);
                    lemma_row_in_range(new_table@, ns as int, b as int);
                }
                let old_target = self.transitions[repr * c + b];
                let new_target = if (old_target as usize) < n { partition[old_target as usize] } else { 0 };
                let ghost before = new_table@.transitions;
                new_table.transitions.set(ns * c + b, new_target);
                proof {
                    assert forall|c2: int, b2: int| 0 <= c2 < ns && 0 <= b2 < c implies #[trigger] new_table@.transitions[c2 * c + b2]
                        == cls(p, entry(self@, class_representative@[c2] as int, b2)) by {
                        lemma_row_in_range(new_table@, c2, b2);
                        lemma_rows_apart(c as int, c2, b2, ns as int, b as int);
                        assert(before[c2 * c + b2] == new_table@.transitions[c2 * c + b2]);
                    }
                    assert forall|b2: int| 0 <= b2 < b + 1 implies #[trigger] new_table@.transitions[ns * c + b2]
                        == cls(p, entry(self@, repr as int, b2)) by {
                        if b2 < b {
                            assert(before[ns * c + b2] == new_table@.transitions[ns * c + b2]);
                        }
                    }
                }
                b += 1;
            }
            ns += 1;
        }
        proof {
            assert forall|s2: int| 0 <= s2 < n implies (#[trigger] p[s2] as int) < k by {
                lemma_fresh_bound(p, n as int, s2);
            }
            assert forall|s2: int, b2: int| 0 <= s2 < n && 0 <= b2 < c implies #[trigger] new_table@.transitions[p[s2] * c + b2]
                == cls(p, entry(self@, class_representative@[p[s2] as int] as int, b2)) by {
                lemma_fresh_bound(p, n as int, s2);
                let c2 = p[s2] as int;
                assert(new_table@.transitions[c2 * c + b2] == cls(p, entry(self@, class_representative@[c2] as int, b2)));
            }
        }
        // the accept entries, mapped to groups
        let accepts = &self.accept_states;
        let mut i: usize = 0;
        while i < accepts.len()
            invariant
                n == self@.state_count,
                p == partition@,
                p.len() == n,
                accepts@ == self@.accept_states,
                forall|j: int| 0 <= j < accepts@.len() ==> (#[trigger] accepts@[j].0 as nat) < n,
                forall|j: int| 0 <= j < accepts@.len() ==> #[trigger] accepts@[j].1 < usize::MAX,
                i <= accepts@.len(),
                forall|c2: int| 0 <= c2 < k ==> p[#[trigger] class_representative@[c2] as int] == c2,
                forall|s2: int| 0 <= s2 < n ==> (#[trigger] p[s2] as int) < k,
                new_table@.accept_states == mapped_accepts(accepts@.take(i as int), p),
                new_table@.state_count == k,
                new_table@.class_count == c,
                new_table@.transitions.len() == k * c,
                forall|s2: int, b2: int| 0 <= s2 < n && 0 <= b2 < c ==> #[trigger] new_table@.transitions[p[s2] * c + b2]
                    == cls(p, entry(self@, class_representative@[p[s2] as int] as int, b2)),
            decreases accepts@.len() - i,
        {
            let (old_state, pattern_id) = accepts[i];
            let new_state = partition[old_state as usize];
            proof {
                assert(accepts@.take(i + 1).drop_last() =~= accepts@.take(i as int));
            }
            if !contains_pair(new_table.accept_states.as_slice(), new_state, pattern_id) {
                new_table.add_accept(new_state, pattern_id);
            }
            i += 1;
        }
        proof {
            assert(accepts@.take(i as int) =~= accepts@);
        }
        new_table.pattern_lengths = copy_lengths(&self.pattern_lengths);
        proof {
            let m = new_table@;
            assert forall|s2: int, b2: int| 0 <= s2 < n && 0 <= b2 < c implies
                #[trigger] m.transitions[p[s2] * c + b2] == cls(p, entry(self@, s2, b2)) by {
                let rep = class_representative@[p[s2] as int] as int;
                assert(p[rep] == p[s2]);
                assert(sig_eq(self@, p, rep, s2));
            }
            assert(is_quotient(self@, p, m));
            assert(minimize_outcome(limit as nat, self@, p, Some(m)));
        }
        Some(new_table)
    }
}

/// Entries of different rows, or of different columns, are different.
proof fn lemma_rows_apart(c: int, r1: int, b1: int, r2: int, b2: int)
    requires
        c > 0,
        0 <= b1 < c,
        0 <= b2 < c,
        r1 != r2 || b1 != b2,
        r1 >= 0,
        r2 >= 0,
    ensures
        r1 * c + b1 != r2 * c + b2,
{
    if r1 != r2 {
        if r1 < r2 {
            vstd::arithmetic::mul::lemma_mul_inequality(r1 + 1, r2, c);
            vstd::arithmetic::mul::lemma_mul_is_distributive_add_other_way(c, r1, 1);
        } else {
            vstd::arithmetic::mul::lemma_mul_inequality(r2 + 1, r1, c);
            vstd::arithmetic::mul::lemma_mul_is_distributive_add_other_way(c, r2, 1);
        }
    }
}

fn copy_lengths(s: &Vec<u32>) -> (r: Vec<u32>)
    ensures
        r@ == s@,
{
    let r = s.clone();
    proof {
        assert(r@ =~= s@);
    }
    r
}


/// The pattern of the last entry naming `s` is what `acc_opt` finds, or
/// [`NO_PATTERN`].
proof fn lemma_pattern_of_state_acc(accepts: Seq<(u32, u32)>, s: int)
    ensures
        pattern_of_state(accepts, s) == match acc_opt(accepts, s) {
            Some(x) => x,
            None => NO_PATTERN,
        },
    decreases accepts.len(),
{
    if accepts.len() > 0 && accepts.last().0 != s {
        lemma_pattern_of_state_acc(accepts.drop_last(), s);
    }
}

/// Each state not named by an entry has no pattern; a named one has the
/// pattern of some entry naming it.
proof fn lemma_acc_opt_entry(accepts: Seq<(u32, u32)>, s: int)
    ensures
        acc_opt(accepts, s) is None ==> forall|i: int| 0 <= i < accepts.len() ==> #[trigger] accepts[i].0 != s,
        acc_opt(accepts, s) is Some ==> exists|i: int| 0 <= i < accepts.len() && #[trigger] accepts[i].0 == s
            && acc_opt(accepts, s) == Some(accepts[i].1),
    decreases accepts.len(),
{
    if accepts.len() > 0 {
        let rest = accepts.drop_last();
        lemma_acc_opt_entry(rest, s);
        let l = accepts.len() - 1;
        if accepts.last().0 == s {
            assert(accepts[l].0 == s && acc_opt(accepts, s) == Some(accepts[l].1));
        } else if acc_opt(rest, s) is Some {
            let i = choose|i: int| 0 <= i < rest.len() && #[trigger] rest[i].0 == s && acc_opt(rest, s) == Some(rest[i].1);
            assert(accepts[i] == rest[i]);
        } else {
            assert forall|i: int| 0 <= i < accepts.len() implies #[trigger] accepts[i].0 != s by {
                if i < l {
                    assert(accepts[i] == rest[i]);
                }
            }
        }
    }
}

/// When no state is named twice, each entry gives its state's pattern.
proof fn lemma_acc_opt_distinct(accepts: Seq<(u32, u32)>)
    requires
        forall|i: int, j: int| 0 <= i < j < accepts.len() ==> #[trigger] accepts[i].0 != #[trigger] accepts[j].0,
    ensures
        forall|i: int| 0 <= i < accepts.len() ==> acc_opt(accepts, #[trigger] accepts[i].0 as int) == Some(accepts[i].1),
    decreases accepts.len(),
{
    if accepts.len() > 0 {
        let rest = accepts.drop_last();
        lemma_acc_opt_distinct(rest);
        let l = accepts.len() - 1;
        assert forall|i: int| 0 <= i < accepts.len() implies acc_opt(accepts, #[trigger] accepts[i].0 as int) == Some(accepts[i].1) by {
            if i < l {
                assert(accepts[i] == rest[i]);
                assert(accepts[i].0 != accepts[l].0);
            }
        }
    }
}

/// Every entry of the mapped list comes from an entry of the list it maps.
proof fn lemma_mapped_from(accepts: Seq<(u32, u32)>, p: Seq<u32>)
    ensures
        forall|j: int| 0 <= j < mapped_accepts(accepts, p).len() ==> exists|i: int| 0 <= i < accepts.len()
            && #[trigger] mapped_accepts(accepts, p)[j] == (p[#[trigger] accepts[i].0 as int], accepts[i].1),
    decreases accepts.len(),
{
    if accepts.len() > 0 {
        let rest = accepts.drop_last();
        lemma_mapped_from(rest, p);
        let prev = mapped_accepts(rest, p);
        let m = mapped_accepts(accepts, p);
        let l = accepts.len() - 1;
        assert forall|j: int| 0 <= j < m.len() implies exists|i: int| 0 <= i < accepts.len()
            && #[trigger] m[j] == (p[#[trigger] accepts[i].0 as int], accepts[i].1) by {
            if j < prev.len() {
                assert(m[j] == prev[j]);
                let i = choose|i: int| 0 <= i < rest.len() && #[trigger] prev[j] == (p[#[trigger] rest[i].0 as int], rest[i].1);
                assert(accepts[i] == rest[i]);
            } else {
                assert(m[j] == (p[accepts[l].0 as int], accepts[l].1));
            }
        }
    }
}

/// When grouped entries agree on their pattern, the mapped list gives each
/// group the pattern of its entries, and no pattern to a group without one.
proof fn lemma_mapped_patterns(accepts: Seq<(u32, u32)>, p: Seq<u32>)
    requires
        forall|i: int| 0 <= i < accepts.len() ==> (#[trigger] accepts[i].0 as int) < p.len(),
        forall|i: int, j: int| 0 <= i < accepts.len() && 0 <= j < accepts.len()
            && p[#[trigger] accepts[i].0 as int] == p[#[trigger] accepts[j].0 as int] ==> accepts[i].1 == accepts[j].1,
    ensures
        forall|i: int| 0 <= i < accepts.len() ==> pattern_of_state(mapped_accepts(accepts, p), p[#[trigger] accepts[i].0 as int] as int)
            == accepts[i].1,
        forall|g: int| (forall|i: int| 0 <= i < accepts.len() ==> p[#[trigger] accepts[i].0 as int] != g)
            ==> #[trigger] pattern_of_state(mapped_accepts(accepts, p), g) == NO_PATTERN,
    decreases accepts.len(),
{
    if accepts.len() > 0 {
        let rest = accepts.drop_last();
        let l = accepts.len() - 1;
        assert forall|i: int| 0 <= i < rest.len() implies (#[trigger] rest[i].0 as int) < p.len() by {
            assert(rest[i] == accepts[i]);
        }
        assert forall|i: int, j: int| 0 <= i < rest.len() && 0 <= j < rest.len()
            && p[#[trigger] rest[i].0 as int] == p[#[trigger] rest[j].0 as int] implies rest[i].1 == rest[j].1 by {
            assert(rest[i] == accepts[i]);
            assert(rest[j] == accepts[j]);
        }
        lemma_mapped_patterns(rest, p);
        lemma_mapped_from(rest, p);
        let prev = mapped_accepts(rest, p);
        let m = mapped_accepts(accepts, p);
        let e = (p[accepts[l].0 as int], accepts[l].1);
        // the group of the last entry
        assert(pattern_of_state(m, e.0 as int) == e.1) by {
            if prev.contains(e) {
                let j = choose|j: int| 0 <= j < prev.len() && prev[j] == e;
                let i = choose|i: int| 0 <= i < rest.len() && #[trigger] prev[j] == (p[#[trigger] rest[i].0 as int], rest[i].1);
                assert(rest[i] == accepts[i]);
                assert(pattern_of_state(prev, p[rest[i].0 as int] as int) == rest[i].1);
            } else {
                lemma_pattern_of_state_push(prev, e, e.0 as int);
            }
        }
        // other groups are looked up in the shorter list
        assert forall|g: int| g != e.0 implies #[trigger] pattern_of_state(m, g) == pattern_of_state(prev, g) by {
            if !prev.contains(e) {
                lemma_pattern_of_state_push(prev, e, g);
            }
        }
        assert forall|i: int| 0 <= i < accepts.len() implies pattern_of_state(m, p[#[trigger] accepts[i].0 as int] as int)
            == accepts[i].1 by {
            if p[accepts[i].0 as int] == e.0 {
                assert(accepts[i].1 == accepts[l].1);
            } else {
                assert(rest[i] == accepts[i]);
                assert(pattern_of_state(m, p[accepts[i].0 as int] as int) == pattern_of_state(prev, p[rest[i].0 as int] as int));
            }
        }
        assert forall|g: int| (forall|i: int| 0 <= i < accepts.len() ==> p[#[trigger] accepts[i].0 as int] != g)
            implies #[trigger] pattern_of_state(m, g) == NO_PATTERN by {
            assert(p[accepts[l].0 as int] != g);
            assert forall|i: int| 0 <= i < rest.len() implies p[#[trigger] rest[i].0 as int] != g by {
                assert(rest[i] == accepts[i]);
            }
            assert(pattern_of_state(m, g) == pattern_of_state(prev, g));
        }
    }
}

/// The hypotheses under which a quotient table scans like the table it came from.
pub open spec fn quotient_scans_like(t: TableView, p: Seq<u32>, m: TableView) -> bool {
    &&& dims_ok(t)
    &&& t.state_count > 0
    &&& t.transitions.len() == t.state_count * t.class_count
    &&& targets_in_range(t)
    &&& forall|i: int| 0 <= i < t.accept_states.len() ==> (#[trigger] t.accept_states[i].0 as nat) < t.state_count
    &&& forall|i: int, j: int| 0 <= i < j < t.accept_states.len()
        ==> #[trigger] t.accept_states[i].0 != #[trigger] t.accept_states[j].0
    &&& is_stable(t, p)
    &&& is_canonical(p)
    &&& is_quotient(t, p, m)
}

/// A state and the group it falls in have the same pattern.
proof fn lemma_quotient_accept(t: TableView, p: Seq<u32>, m: TableView, x: int)
    requires
        quotient_scans_like(t, p, m),
        0 <= x < t.state_count,
    ensures
        pattern_of_state(m.accept_states, p[x] as int) == pattern_of_state(t.accept_states, x),
{
    let a = t.accept_states;
    lemma_acc_opt_distinct(a);
    assert forall|i: int, j: int| 0 <= i < a.len() && 0 <= j < a.len()
        && p[#[trigger] a[i].0 as int] == p[#[trigger] a[j].0 as int] implies a[i].1 == a[j].1 by {
        assert(acc_opt(a, a[i].0 as int) == acc_opt(a, a[j].0 as int));
    }
    lemma_mapped_patterns(a, p);
    lemma_pattern_of_state_acc(a, x);
    lemma_acc_opt_entry(a, x);
    if acc_opt(a, x) is None {
        assert forall|i: int| 0 <= i < a.len() implies p[#[trigger] a[i].0 as int] != p[x] by {
            if p[a[i].0 as int] == p[x] {
                assert(acc_opt(a, a[i].0 as int) == acc_opt(a, x));
            }
        }
        assert(pattern_of_state(mapped_accepts(a, p), p[x] as int) == NO_PATTERN);
    } else {
        let i = choose|i: int| 0 <= i < a.len() && #[trigger] a[i].0 == x && acc_opt(a, x) == Some(a[i].1);
        assert(pattern_of_state(mapped_accepts(a, p), p[a[i].0 as int] as int) == a[i].1);
    }
}

/// One step: from a state and its group, the same byte leads to a state and its group.
proof fn lemma_quotient_step(t: TableView, p: Seq<u32>, m: TableView, s: u32, b: u8)
    requires
        quotient_scans_like(t, p, m),
        (s as nat) < t.state_count,
        (b as nat) < t.class_count,
    ensures
        (next_state(table_program(t), s, b) as nat) < t.state_count,
        next_state(table_program(m), p[s as int], b) == p[next_state(table_program(t), s, b) as int],
{
    let n = t.state_count;
    let c = t.class_count;
    lemma_row_in_range(t, s as int, b as int);
    let target = entry(t, s as int, b as int);
    assert(t.transitions[s * c + b] == target);
    assert(target < 0x8000_0000u32 ==> target & 0x7FFF_FFFFu32 == target) by (bit_vector);
    assert(next_raw(table_program(t), s, b) == target);
    lemma_fresh_bound(p, n as int, s as int);
    lemma_fresh_bound(p, n as int, target as int);
    lemma_fresh_bound_all(p);
    let g = p[s as int];
    assert(m.state_count * m.class_count <= m.transitions.len());
    lemma_row_in_range(m, g as int, b as int);
    assert(m.transitions[p[s as int] * t.class_count + b] == cls(p, entry(t, s as int, b as int)));
    let gt = p[target as int];
    assert(gt < 0x8000_0000u32 ==> gt & 0x7FFF_FFFFu32 == gt) by (bit_vector);
    assert(next_raw(table_program(m), g, b) == gt);
}

/// Reading the same bytes, the quotient table is always in the group of the
/// table's state, and both have reported the same matches.
proof fn lemma_quotient_run(t: TableView, p: Seq<u32>, m: TableView, input: Seq<u8>)
    requires
        quotient_scans_like(t, p, m),
        forall|i: int| 0 <= i < input.len() ==> (#[trigger] input[i] as nat) < t.class_count,
    ensures
        (run(table_program(t), input).0 as nat) < t.state_count,
        run(table_program(m), input).0 == p[run(table_program(t), input).0 as int],
        run(table_program(m), input).1 == run(table_program(t), input).1,
    decreases input.len(),
{
    let pt = table_program(t);
    let pm = table_program(m);
    assert(is_first(p, 0));
    if input.len() > 0 {
        let rest = input.drop_last();
        assert forall|i: int| 0 <= i < rest.len() implies (#[trigger] rest[i] as nat) < t.class_count by {
            assert(rest[i] == input[i]);
        }
        lemma_quotient_run(t, p, m, rest);
        let s = run(pt, rest).0;
        let b = input.last();
        assert(b == input[input.len() - 1]);
        lemma_quotient_step(t, p, m, s, b);
        let nt = next_state(pt, s, b);
        let nm = next_state(pm, p[s as int], b);
        lemma_quotient_accept(t, p, m, nt as int);
        lemma_fresh_bound(p, t.state_count as int, nt as int);
        assert(accept_of(pm, nm) == accept_of(pt, nt));
        if accept_of(pt, nt) != NO_PATTERN {
            let end = input.len() as u32;
            lemma_fresh_bound_all(p);
            assert(chain(pt, link_of(pt, nt), 0) =~= Seq::<u32>::empty());
            assert(chain(pm, link_of(pm, nm), 0) =~= Seq::<u32>::empty());
            assert(nt != NO_PATTERN && nm != NO_PATTERN);
            assert(chain(pt, nt, 1) =~= seq![nt]);
            assert(chain(pm, nm, 1) =~= seq![nm]);
            assert(chain_matches(pt, nt, end) =~= chain_matches(pm, nm, end));
        }
    }
}

/// Every entry of `accepts`, mapped to its group, is an entry of the mapped
/// accepts.
proof fn lemma_mapped_has(accepts: Seq<(u32, u32)>, p: Seq<u32>, i: int)
    requires
        0 <= i < accepts.len(),
    ensures
        exists|j: int| 0 <= j < mapped_accepts(accepts, p).len()
            && #[trigger] mapped_accepts(accepts, p)[j] == (p[accepts[i].0 as int], accepts[i].1),
    decreases accepts.len(),
{
    let rest = accepts.drop_last();
    let prev = mapped_accepts(rest, p);
    let e = (p[accepts.last().0 as int], accepts.last().1);
    assert(mapped_accepts(accepts, p) == if prev.contains(e) { prev } else { prev.push(e) });
    if i < accepts.len() - 1 {
        lemma_mapped_has(rest, p, i);
        let j = choose|j: int| 0 <= j < prev.len() && #[trigger] prev[j] == (p[rest[i].0 as int], rest[i].1);
        assert(rest[i] == accepts[i]);
        assert(mapped_accepts(accepts, p)[j] == prev[j]);
    } else {
        if prev.contains(e) {
            let j = choose|j: int| 0 <= j < prev.len() && prev[j] == e;
            assert(mapped_accepts(accepts, p)[j] == e);
        } else {
            assert(mapped_accepts(accepts, p)[prev.len() as int] == e);
        }
    }
}

/// A state and its group have the same accept entry, where each state has
/// at most one and grouped states accept alike.
proof fn lemma_mapped_acc_opt(t: TableView, p: Seq<u32>, x: int)
    requires
        is_stable(t, p),
        0 <= x < t.state_count,
        forall|i: int| 0 <= i < t.accept_states.len() ==> (#[trigger] t.accept_states[i].0 as nat) < t.state_count,
        forall|i: int, j: int| 0 <= i < j < t.accept_states.len() ==> #[trigger] t.accept_states[i].0 != #[trigger] t.accept_states[j].0,
    ensures
        acc_opt(mapped_accepts(t.accept_states, p), p[x] as int) == acc_opt(t.accept_states, x),
{
    let a = t.accept_states;
    let ma = mapped_accepts(a, p);
    lemma_acc_opt_entry(a, x);
    lemma_acc_opt_entry(ma, p[x] as int);
    lemma_acc_opt_distinct(a);
    lemma_mapped_from(a, p);
    if acc_opt(a, x) is Some {
        let i = choose|i: int| 0 <= i < a.len() && #[trigger] a[i].0 == x && acc_opt(a, x) == Some(a[i].1);
        lemma_mapped_has(a, p, i);
        let j = choose|j: int| 0 <= j < ma.len() && #[trigger] ma[j] == (p[a[i].0 as int], a[i].1);
        assert(ma[j].0 == p[x]);
    }
    if acc_opt(ma, p[x] as int) is Some {
        let j = choose|j: int| 0 <= j < ma.len() && #[trigger] ma[j].0 == p[x] && acc_opt(ma, p[x] as int) == Some(ma[j].1);
        let i = choose|i: int| 0 <= i < a.len() && #[trigger] ma[j] == (p[#[trigger] a[i].0 as int], a[i].1);
        assert(acc_opt(a, a[i].0 as int) == Some(a[i].1));
        assert(p[a[i].0 as int] == p[x]);
        assert(acc_opt(a, a[i].0 as int) == acc_opt(a, x));
    }
}

/// No compatible grouping of the table of the coarsest grouping of `t`
/// puts two of its states together.
proof fn lemma_quotient_groupings_discrete(t: TableView, p: Seq<u32>, m: TableView, q: Seq<u32>, g1: int, g2: int)
    requires
        dims_ok(t),
        t.transitions.len() == t.state_count * t.class_count,
        targets_in_range(t),
        forall|i: int| 0 <= i < t.accept_states.len() ==> (#[trigger] t.accept_states[i].0 as nat) < t.state_count,
        forall|i: int, j: int| 0 <= i < j < t.accept_states.len() ==> #[trigger] t.accept_states[i].0 != #[trigger] t.accept_states[j].0,
        is_minimal_partition(t, p),
        is_quotient(t, p, m),
        is_stable(m, q),
        0 <= g1 < m.state_count,
        0 <= g2 < m.state_count,
        q[g1] == q[g2],
    ensures
        g1 == g2,
{
    let n = t.state_count;
    let c = t.class_count;
    let qp = Seq::new(n, |s: int| q[p[s] as int]);
    lemma_fresh_bound_all(p);
    assert forall|s: int| 0 <= s < n implies (#[trigger] p[s] as int) < m.state_count by {
        lemma_fresh_bound(p, n as int, s);
    }
    assert(is_stable(t, qp)) by {
        assert forall|s: int, r: int| 0 <= s < n && 0 <= r < n && #[trigger] qp[s] == #[trigger] qp[r]
            implies acc_opt(t.accept_states, s) == acc_opt(t.accept_states, r) && sig_eq(t, qp, s, r) by {
            let gs = p[s] as int;
            let gr = p[r] as int;
            assert(q[gs] == q[gr]);
            assert(acc_opt(m.accept_states, gs) == acc_opt(m.accept_states, gr) && sig_eq(m, q, gs, gr));
            lemma_mapped_acc_opt(t, p, s);
            lemma_mapped_acc_opt(t, p, r);
            assert forall|b: int| 0 <= b < t.class_count implies #[trigger] cls(qp, entry(t, s, b)) == cls(qp, entry(t, r, b)) by {
                lemma_row_in_range(t, s, b);
                lemma_row_in_range(t, r, b);
                let es = entry(t, s, b);
                let er = entry(t, r, b);
                assert((es as nat) < n && (er as nat) < n);
                assert(m.transitions[p[s] * c + b] == cls(p, es));
                assert(m.transitions[p[r] * c + b] == cls(p, er));
                assert(entry(m, gs, b) == p[es as int]);
                assert(entry(m, gr, b) == p[er as int]);
                assert(cls(q, entry(m, gs, b)) == cls(q, entry(m, gr, b)));
                assert((p[es as int] as int) < m.state_count);
                assert((p[er as int] as int) < m.state_count);
            }
        }
    }
    assert(refines(qp, p));
    lemma_canonical_onto(p, n as int, g1 as nat);
    lemma_canonical_onto(p, n as int, g2 as nat);
    let s1 = choose|s: int| 0 <= s < n && p[s] == g1;
    let s2 = choose|s: int| 0 <= s < n && p[s] == g2;
    assert(qp[s1] == qp[s2]);
}

/// A canonical grouping that puts no two states together has as many
/// groups as states.
proof fn lemma_discrete_count(q: Seq<u32>)
    requires
        is_canonical(q),
        forall|x: int, y: int| 0 <= x < q.len() && 0 <= y < q.len() && #[trigger] q[x] == #[trigger] q[y] ==> x == y,
    ensures
        group_count(q) == q.len(),
{
    assert forall|s: int| 0 <= s <= q.len() implies #[trigger] fresh(q, s) == s by {
        lemma_fresh_identity(q, s);
    }
}

proof fn lemma_fresh_identity(q: Seq<u32>, s: int)
    requires
        is_canonical(q),
        forall|x: int, y: int| 0 <= x < q.len() && 0 <= y < q.len() && #[trigger] q[x] == #[trigger] q[y] ==> x == y,
        0 <= s <= q.len(),
    ensures
        fresh(q, s) == s,
    decreases s,
{
    if s > 0 {
        lemma_fresh_identity(q, s - 1);
        assert(is_first(q, s - 1));
        assert(q[s - 1] == fresh(q, s - 1));
    }
}

/// Every state of the reachable part is reachable in it.
proof fn lemma_part_all_reachable(t: TableView, rt: TableView, j: int)
    requires
        part_scans_like(t, rt),
        0 <= j < rt.state_count,
    ensures
        reachable(rt, j),
{
    let n = t.state_count;
    let c = t.class_count;
    lemma_rank_onto(t, n as int, j);
    let s = choose|s: int| 0 <= s < n && reachable(t, s) && #[trigger] reach_rank(t, s) == j;
    lemma_reachable_step(t, 0, 0);
    assert forall|rs: Set<int>| #[trigger] reach_closed(rt, rs) implies rs.contains(j) by {
        let rs_t = Set::new(|x: int| reachable(t, x) && rs.contains(reach_rank(t, x) as int));
        assert(reach_closed(t, rs_t)) by {
            assert(reach_rank(t, 0) == 0);
            assert forall|x: int, b: int| rs_t.contains(x) && 0 <= x < n && 0 <= b < c
                && (entry(t, x, b) as nat) < n implies #[trigger] rs_t.contains(entry(t, x, b) as int) by {
                let e = entry(t, x, b);
                lemma_reachable_step(t, x, b);
                lemma_rank_fits(t, e as int);
                lemma_rank_bound(t, e as int);
                lemma_rank_bound(t, x);
                assert(rt.transitions[reach_rank(t, x) * c + b] == reach_target(t, e));
                assert(entry(rt, reach_rank(t, x) as int, b) == reach_rank(t, e as int) as u32);
                assert(rs.contains(reach_rank(t, x) as int));
            }
        }
        assert(rs_t.contains(s));
    }
}

/// Every state of the table of the groups of a grouping of a table whose
/// states are all reachable is reachable.
proof fn lemma_quotient_all_reachable(t: TableView, p: Seq<u32>, m: TableView, g: int)
    requires
        forall|x: int| 0 <= x < t.state_count ==> #[trigger] reachable(t, x),
        targets_in_range(t),
        t.state_count * t.class_count <= t.transitions.len(),
        is_canonical(p),
        p.len() == t.state_count,
        is_quotient(t, p, m),
        0 <= g < m.state_count,
    ensures
        reachable(m, g),
{
    let n = t.state_count;
    let c = t.class_count;
    lemma_fresh_bound_all(p);
    lemma_canonical_onto(p, n as int, g as nat);
    let s = choose|s: int| 0 <= s < n && p[s] == g;
    assert(is_first(p, 0));
    assert forall|rs: Set<int>| #[trigger] reach_closed(m, rs) implies rs.contains(g) by {
        let rs_t = Set::new(|x: int| 0 <= x < n && rs.contains(p[x] as int));
        assert(reach_closed(t, rs_t)) by {
            assert(p[0] == 0);
            assert forall|x: int, b: int| rs_t.contains(x) && 0 <= x < n && 0 <= b < c
                && (entry(t, x, b) as nat) < n implies #[trigger] rs_t.contains(entry(t, x, b) as int) by {
                let e = entry(t, x, b);
                lemma_fresh_bound(p, n as int, x);
                lemma_fresh_bound(p, n as int, e as int);
                assert(m.transitions[p[x] * c + b] == cls(p, e));
                assert(entry(m, p[x] as int, b) == p[e as int]);
            }
        }
        assert(reachable(t, s));
        assert(rs_t.contains(s));
    }
}

/// Where every state is reachable, a state's rank is its number.
proof fn lemma_rank_identity(t: TableView, k: int)
    requires
        forall|x: int| 0 <= x < t.state_count ==> #[trigger] reachable(t, x),
        0 <= k <= t.state_count,
    ensures
        reach_rank(t, k) == k,
    decreases k,
{
    if k > 0 {
        lemma_rank_identity(t, k - 1);
        assert(reachable(t, k - 1));
    }
}

/// Where every state is reachable and a state's rank is its number, the
/// accept entries of the reachable part are those of the table.
proof fn lemma_reach_accepts_identity(t: TableView, a: Seq<(u32, u32)>)
    requires
        forall|x: int| 0 <= x < t.state_count ==> #[trigger] reachable(t, x),
        forall|x: int| 0 <= x <= t.state_count ==> #[trigger] reach_rank(t, x) == x,
        forall|k: int| 0 <= k < a.len() ==> (#[trigger] a[k].0 as nat) < t.state_count,
    ensures
        reach_accepts(t, a) == a,
    decreases a.len(),
{
    if a.len() > 0 {
        let d = a.drop_last();
        assert forall|k: int| 0 <= k < d.len() implies (#[trigger] d[k].0 as nat) < t.state_count by {
            assert(d[k] == a[k]);
        }
        lemma_reach_accepts_identity(t, d);
        let y = a.last().0 as int;
        assert(a.last() == a[a.len() - 1]);
        assert(reachable(t, y));
        assert(reach_rank(t, y) == y);
        assert(a =~= d.push(a.last()));
    }
}

/// The mapped accepts hold no pair twice.
proof fn lemma_mapped_no_dup(accepts: Seq<(u32, u32)>, p: Seq<u32>)
    ensures
        forall|i: int, j: int| 0 <= i < j < mapped_accepts(accepts, p).len()
            ==> #[trigger] mapped_accepts(accepts, p)[i] != #[trigger] mapped_accepts(accepts, p)[j],
    decreases accepts.len(),
{
    if accepts.len() > 0 {
        let rest = accepts.drop_last();
        lemma_mapped_no_dup(rest, p);
        let prev = mapped_accepts(rest, p);
        let e = (p[accepts.last().0 as int], accepts.last().1);
        let m = mapped_accepts(accepts, p);
        assert(m == if prev.contains(e) { prev } else { prev.push(e) });
        assert forall|i: int, j: int| 0 <= i < j < m.len() implies #[trigger] m[i] != #[trigger] m[j] by {
            if !prev.contains(e) && j == prev.len() {
                assert(m[i] == prev[i]);
                if m[i] == m[j] {
                    assert(prev.contains(e));
                }
            } else {
                assert(m[i] == prev[i] && m[j] == prev[j]);
            }
        }
    }
}

/// The table of the groups of a compatible grouping of the reachable part
/// of a table whose transitions name states and whose accept entries name
/// distinct states and known patterns: at least one state, no more than the
/// reachable part, transitions that name its states, accept entries that
/// name distinct states and known patterns.
pub proof fn lemma_quotient_shape(t: TableView, rt: TableView, p: Seq<u32>, m: TableView)
    requires
        part_scans_like(t, rt),
        forall|i: int, j: int| 0 <= i < j < t.accept_states.len()
            ==> #[trigger] t.accept_states[i].0 != #[trigger] t.accept_states[j].0,
        forall|k: int| 0 <= k < t.accept_states.len() ==> (#[trigger] t.accept_states[k].1 as nat) < t.pattern_lengths.len(),
        is_stable(rt, p),
        is_canonical(p),
        is_quotient(rt, p, m),
    ensures
        0 < m.state_count <= rt.state_count,
        rt.state_count <= t.state_count,
        targets_in_range(m),
        super::accepts_ok(m.accept_states, m.state_count, m.pattern_lengths.len()),
{
    let c = t.class_count;
    let n = rt.state_count;
    lemma_part_shape(t, rt);
    lemma_rank_le(t, t.state_count as int);
    lemma_fresh_bound_all(p);
    lemma_fresh_bound(p, n as int, 0);
    assert forall|s: int| 0 <= s < n implies (#[trigger] p[s] as int) < m.state_count by {
        lemma_fresh_bound(p, n as int, s);
    }
    assert(targets_in_range(m)) by {
        assert forall|i: int| 0 <= i < m.transitions.len() implies (#[trigger] m.transitions[i] as nat) < m.state_count by {
            vstd::arithmetic::div_mod::lemma_fundamental_div_mod(i, c as int);
            vstd::arithmetic::div_mod::lemma_mod_bound(i, c as int);
            let g = i / c as int;
            let b = i % c as int;
            assert(g < m.state_count) by (nonlinear_arith)
                requires i == c * g + b, 0 <= b < c, i < m.state_count * c, c > 0;
            assert(0 <= g) by (nonlinear_arith)
                requires i == c * g + b, 0 <= b < c, 0 <= i, c > 0;
            lemma_canonical_onto(p, n as int, g as nat);
            let s = choose|s: int| 0 <= s < n && p[s] == g;
            assert(i == p[s] * c + b) by (nonlinear_arith)
                requires i == c * g + b, p[s] == g;
            lemma_row_in_range(rt, s, b);
            let e = entry(rt, s, b);
            assert(m.transitions[p[s] * c + b] == cls(p, e));
        }
    }
    let a = rt.accept_states;
    let ma = m.accept_states;
    lemma_mapped_from(a, p);
    lemma_mapped_no_dup(a, p);
    lemma_acc_opt_distinct(a);
    assert forall|k: int| 0 <= k < ma.len() implies super::accept_entry_ok(ma, k, m.state_count, m.pattern_lengths.len()) by {
        let i = choose|i: int| 0 <= i < a.len() && #[trigger] ma[k] == (p[#[trigger] a[i].0 as int], a[i].1);
        assert((a[i].0 as nat) < n);
        lemma_reach_accepts_from(t, t.accept_states, i);
        let x = choose|x: int| 0 <= x < t.accept_states.len() && reachable(t, t.accept_states[x].0 as int)
            && #[trigger] reach_accepts(t, t.accept_states)[i] == (reach_rank(t, t.accept_states[x].0 as int) as u32, t.accept_states[x].1);
        assert((t.accept_states[x].1 as nat) < t.pattern_lengths.len());
        assert forall|j: int| 0 <= j < k implies ma[j].0 != ma[k].0 by {
            let i2 = choose|i2: int| 0 <= i2 < a.len() && #[trigger] ma[j] == (p[#[trigger] a[i2].0 as int], a[i2].1);
            if ma[j].0 == ma[k].0 {
                assert((a[i2].0 as nat) < n);
                assert(p[a[i2].0 as int] == p[a[i].0 as int]);
                assert(acc_opt(a, a[i2].0 as int) == acc_opt(a, a[i].0 as int));
                assert(acc_opt(a, a[i2].0 as int) == Some(a[i2].1));
                assert(acc_opt(a, a[i].0 as int) == Some(a[i].1));
                assert(ma[j] == ma[k]);
            }
        }
    }
}

/// Law: minimizing twice changes nothing more. For a table whose
/// transitions name states and whose states carry at most one accept entry
/// each, take the table `m` that [`TransitionTable::minimize`] makes of it:
/// the groups of the coarsest compatible grouping `p` of its reachable part
/// `rt`. Whatever reachable part `rt2` and compatible canonical grouping
/// `p2` minimizing `m` settles on, it returns nothing.
pub proof fn lemma_minimize_idempotent(t: TableView, rt: TableView, p: Seq<u32>, m: TableView,
    rt2: TableView, p2: Seq<u32>, r: Option<TableView>)
    requires
        part_scans_like(t, rt),
        forall|i: int, j: int| 0 <= i < j < t.accept_states.len()
            ==> #[trigger] t.accept_states[i].0 != #[trigger] t.accept_states[j].0,
        is_minimal_partition(rt, p),
        is_quotient(rt, p, m),
        is_reachable_part(m, rt2),
        is_stable(rt2, p2),
        is_canonical(p2),
        minimize_outcome(m.state_count, rt2, p2, r),
    ensures
        r is None,
{
    let c = t.class_count;
    lemma_part_shape(t, rt);
    lemma_rank_le(t, t.state_count as int);
    assert forall|j: int| 0 <= j < rt.state_count implies #[trigger] reachable(rt, j) by {
        lemma_part_all_reachable(t, rt, j);
    }
    assert forall|g: int| 0 <= g < m.state_count implies #[trigger] reachable(m, g) by {
        lemma_quotient_all_reachable(rt, p, m, g);
    }
    assert forall|k: int| 0 <= k <= m.state_count implies #[trigger] reach_rank(m, k) == k by {
        lemma_rank_identity(m, k);
    }
    // the reachable part of m is m
    lemma_fresh_bound_all(p);
    assert forall|s: int| 0 <= s < rt.state_count implies (#[trigger] p[s] as int) < m.state_count by {
        lemma_fresh_bound(p, rt.state_count as int, s);
    }
    assert(targets_in_range(m)) by {
        assert forall|i: int| 0 <= i < m.transitions.len() implies (#[trigger] m.transitions[i] as nat) < m.state_count by {
            vstd::arithmetic::div_mod::lemma_fundamental_div_mod(i, c as int);
            vstd::arithmetic::div_mod::lemma_mod_bound(i, c as int);
            let g = i / c as int;
            let b = i % c as int;
            assert(g < m.state_count) by (nonlinear_arith)
                requires i == c * g + b, 0 <= b < c, i < m.state_count * c, c > 0;
            assert(0 <= g) by (nonlinear_arith)
                requires i == c * g + b, 0 <= b < c, 0 <= i, c > 0;
            lemma_canonical_onto(p, rt.state_count as int, g as nat);
            let s = choose|s: int| 0 <= s < rt.state_count && p[s] == g;
            assert(i == p[s] * c + b) by (nonlinear_arith)
                requires i == c * g + b, p[s] == g;
            lemma_row_in_range(rt, s, b);
            let e = entry(rt, s, b);
            assert(m.transitions[p[s] * c + b] == cls(p, e));
        }
    }
    assert(rt2.transitions =~= m.transitions) by {
        assert forall|i: int| 0 <= i < m.transitions.len() implies #[trigger] rt2.transitions[i] == m.transitions[i] by {
            vstd::arithmetic::div_mod::lemma_fundamental_div_mod(i, c as int);
            vstd::arithmetic::div_mod::lemma_mod_bound(i, c as int);
            let g = i / c as int;
            let b = i % c as int;
            assert(g < m.state_count) by (nonlinear_arith)
                requires i == c * g + b, 0 <= b < c, i < m.state_count * c, c > 0;
            assert(0 <= g) by (nonlinear_arith)
                requires i == c * g + b, 0 <= b < c, 0 <= i, c > 0;
            assert(i == g * c + b) by (nonlinear_arith)
                requires i == c * g + b;
            assert(reach_rank(m, g) == g);
            assert(rt2.transitions[reach_rank(m, g) * c + b] == reach_target(m, entry(m, g, b)));
            let e = entry(m, g, b);
            assert((e as nat) < m.state_count);
            assert(reach_rank(m, e as int) == e);
        }
    }
    assert forall|k: int| 0 <= k < m.accept_states.len() implies (#[trigger] m.accept_states[k].0 as nat) < m.state_count by {
        lemma_mapped_from(rt.accept_states, p);
        let i = choose|i: int| 0 <= i < rt.accept_states.len()
            && #[trigger] mapped_accepts(rt.accept_states, p)[k] == (p[#[trigger] rt.accept_states[i].0 as int], rt.accept_states[i].1);
        assert((rt.accept_states[i].0 as nat) < rt.state_count);
    }
    lemma_reach_accepts_identity(m, m.accept_states);
    assert(rt2 == m);
    // every compatible grouping of m is one to one
    assert forall|x: int, y: int| 0 <= x < p2.len() && 0 <= y < p2.len() && #[trigger] p2[x] == #[trigger] p2[y] implies x == y by {
        lemma_quotient_groupings_discrete(rt, p, m, p2, x, y);
    }
    lemma_discrete_count(p2);
}

/// Minimizing keeps what a table finds: when `rt` is the reachable part of
/// `t` and `m` is the table of the groups of a compatible grouping `p` of
/// `rt`, as [`TransitionTable::minimize`] returns it, scanning any input
/// whose bytes are classes of `t` reports the same matches on `m` as on `t`.
/// Each state of `t` must carry at most one accept entry.
pub proof fn lemma_minimize_keeps_matches(t: TableView, rt: TableView, p: Seq<u32>, m: TableView, input: Seq<u8>)
    requires
        part_scans_like(t, rt),
        forall|i: int, j: int| 0 <= i < j < t.accept_states.len()
            ==> #[trigger] t.accept_states[i].0 != #[trigger] t.accept_states[j].0,
        is_stable(rt, p),
        is_canonical(p),
        is_quotient(rt, p, m),
        forall|i: int| 0 <= i < input.len() ==> (#[trigger] input[i] as nat) < t.class_count,
    ensures
        scan_matches(table_program(m), input) == scan_matches(table_program(t), input),
{
    lemma_part_shape(t, rt);
    lemma_rank_le(t, t.state_count as int);
    lemma_reachable_part_keeps_matches(t, rt, input);
    lemma_quotient_run(rt, p, m, input);
}

} // verus!
