//! Literal matchers: a DFA built from a list of byte strings.
//!
//! The patterns are put in a trie whose nodes are the states; the failure
//! link of a node goes to the node of the longest proper suffix of its
//! string, and the dense table follows failure links where the trie has no
//! edge, so that each entry is the node of the longest suffix of what was
//! read. A node that ends a pattern, or whose failure chain reaches one,
//! accepts.
//!
//! What every such DFA keeps is stated by [`suffix_model`]: each state stands
//! for a string, each transition goes to a state whose string ends the string
//! read so far, and a state's pattern ends the state's string. From it follows
//! that every match reported is an occurrence of its pattern.

use vstd::prelude::*;
use vstd::set_lib::set_int_range;
use crate::error::{Error, ErrorView};
use crate::table::{accept_entry_ok, accepts_ok, clean, TableView, TransitionTable, ACCEPT_FLAG, MAX_STATES};
use crate::codegen::{accept_table, compile_ready, compiled_links, compiled_program, links_ranked};
use super::{compile_fault, lemma_first_bad_accept_spec, lemma_first_refused, transition_refused, JitDfa};
use crate::machine::{next_raw, pattern_of_state, lemma_pattern_of_state_push, accept_of, chain, chain_matches, link_of, match_at, next_state, program_wf, run, saturating_sub,
    scan_matches, length_of, Program, NO_PATTERN};

verus! {

/// `a` ends `b`.
pub open spec fn is_suffix(a: Seq<u8>, b: Seq<u8>) -> bool {
    a.len() <= b.len() && b.subrange(b.len() - a.len(), b.len() as int) == a
}

/// The patterns as byte strings.
pub open spec fn pattern_seqs(patterns: Seq<&[u8]>) -> Seq<Seq<u8>> {
    patterns.map_values(|q: &[u8]| q@)
}

/// `word` gives each state of `p` a string such that: state 0 stands for the
/// empty string; from state `s` on byte `b` the program goes to a state whose
/// string ends `word[s] + b`; an accepting state's pattern ends its string and
/// has that string's length as its length; an output link goes to a state
/// whose string ends the linking state's string.
pub open spec fn suffix_model(p: Program, pats: Seq<Seq<u8>>, word: Seq<Seq<u8>>) -> bool {
    let n = p.accept.len();
    &&& program_wf(p)
    &&& n <= u32::MAX
    &&& word.len() == n
    &&& word[0].len() == 0
    &&& forall|s: u32, b: u8| (s as nat) < n ==> is_suffix(word[#[trigger] next_state(p, s, b) as int], word[s as int].push(b))
    &&& forall|s: int| 0 <= s < n && #[trigger] p.accept[s] != NO_PATTERN ==> {
        &&& (p.accept[s] as nat) < pats.len()
        &&& is_suffix(pats[p.accept[s] as int], word[s])
        &&& p.pattern_lengths[p.accept[s] as int] as nat == pats[p.accept[s] as int].len()
    }
    &&& forall|s: int| 0 <= s < n && #[trigger] p.links[s] != NO_PATTERN ==> is_suffix(word[p.links[s] as int], word[s])
}

/// `a` is the pattern that a literal matcher reports at a state whose
/// string is `w`: of the nonempty patterns that end `w`, a longest one, the
/// first of the patterns equal to it; none where no nonempty pattern ends `w`.
pub open spec fn reported_pattern(pats: Seq<Seq<u8>>, w: Seq<u8>, a: u32) -> bool {
    if exists|i: int| 0 <= i < pats.len() && pats[i].len() > 0 && #[trigger] is_suffix(pats[i], w) {
        &&& (a as nat) < pats.len()
        &&& pats[a as int].len() > 0
        &&& is_suffix(pats[a as int], w)
        &&& forall|i: int| 0 <= i < pats.len() && pats[i].len() > 0 && #[trigger] is_suffix(pats[i], w)
            ==> pats[i].len() <= pats[a as int].len()
        &&& forall|i: int| 0 <= i < a ==> #[trigger] pats[i] != pats[a as int]
    } else {
        a == NO_PATTERN
    }
}

/// `l` is the output link of a state whose string is `w`: where `w` is a
/// nonempty pattern and a shorter nonempty pattern ends it, the state whose
/// string is the longest such pattern; none otherwise.
pub open spec fn linked_state(pats: Seq<Seq<u8>>, word: Seq<Seq<u8>>, w: Seq<u8>, l: u32) -> bool {
    if (exists|i: int| 0 <= i < pats.len() && pats[i].len() > 0 && #[trigger] pats[i] == w)
        && (exists|i: int| 0 <= i < pats.len() && pats[i].len() > 0 && #[trigger] is_suffix(pats[i], w) && pats[i].len() < w.len()) {
        &&& (l as nat) < word.len()
        &&& exists|i: int| 0 <= i < pats.len() && pats[i].len() > 0 && #[trigger] pats[i] == word[l as int]
        &&& is_suffix(word[l as int], w)
        &&& word[l as int].len() < w.len()
        &&& forall|i: int| 0 <= i < pats.len() && pats[i].len() > 0 && #[trigger] is_suffix(pats[i], w) && pats[i].len() < w.len()
            ==> pats[i].len() <= word[l as int].len()
    } else {
        l == NO_PATTERN
    }
}

/// The suffix model of a literal matcher built from a trie of `pats`, with
/// what makes it find patterns: the states' strings are the prefixes of the
/// patterns, each once; every prefix of a pattern is some state's string;
/// from `s` on `b` the program goes to the state with the longest string
/// that ends `word[s] + b` (so where `word[s] + b` is a state's string, it
/// goes there); a state whose string is a nonempty pattern accepts a pattern
/// equal to it; accepted patterns are nonempty; each state reports the
/// pattern and has the output link that [`reported_pattern`] and
/// [`linked_state`] describe.
pub open spec fn literal_model(p: Program, pats: Seq<Seq<u8>>, word: Seq<Seq<u8>>) -> bool {
    let n = p.accept.len();
    &&& suffix_model(p, pats, word)
    &&& word.to_set() == pattern_prefixes(pats)
    &&& forall|x: int, y: int| 0 <= x < n && 0 <= y < n && x != y ==> #[trigger] word[x] != #[trigger] word[y]
    &&& forall|s: u32, b: u8, z: int| #![trigger next_state(p, s, b), word[z]]
        (s as nat) < n && 0 <= z < n && is_suffix(word[z], word[s as int].push(b))
        ==> word[z].len() <= word[next_state(p, s, b) as int].len()
    &&& forall|i: int, k: int| 0 <= i < pats.len() && 0 <= k <= pats[i].len()
        ==> exists|x: int| 0 <= x < n && word[x] == #[trigger] pats[i].take(k)
    &&& forall|s: u32, b: u8, x: int| #![trigger next_state(p, s, b), word[x]]
        (s as nat) < n && 0 <= x < n && word[x] == word[s as int].push(b) ==> next_state(p, s, b) == x
    &&& forall|x: int, i: int| 0 <= x < n && 0 <= i < pats.len() && pats[i].len() > 0 && #[trigger] word[x] == #[trigger] pats[i]
        ==> p.accept[x] != NO_PATTERN && pats[p.accept[x] as int] == word[x]
    &&& forall|x: int| 0 <= x < n && #[trigger] p.accept[x] != NO_PATTERN ==> pats[p.accept[x] as int].len() > 0
    &&& forall|x: int| 0 <= x < n ==> #[trigger] reported_pattern(pats, word[x], p.accept[x])
    &&& forall|x: int| 0 <= x < n ==> #[trigger] linked_state(pats, word, word[x], p.links[x])
}

/// Match `m` is an occurrence in `input` of its pattern: `input[start..end]`
/// is the pattern.
pub open spec fn is_occurrence(m: (u32, u32, u32), pats: Seq<Seq<u8>>, input: Seq<u8>) -> bool {
    &&& (m.0 as nat) < pats.len()
    &&& m.2 as nat <= input.len()
    &&& m.1 as nat + pats[m.0 as int].len() == m.2 as nat
    &&& input.subrange(m.1 as int, m.2 as int) == pats[m.0 as int]
}

proof fn lemma_suffix_trans(a: Seq<u8>, b: Seq<u8>, c: Seq<u8>)
    requires
        is_suffix(a, b),
        is_suffix(b, c),
    ensures
        is_suffix(a, c),
{
    assert forall|i: int| 0 <= i < a.len() implies c.subrange(c.len() - a.len(), c.len() as int)[i] == a[i] by {
        assert(b.subrange(b.len() - a.len(), b.len() as int)[i] == a[i]);
        assert(c.subrange(c.len() - b.len(), c.len() as int)[b.len() - a.len() + i] == b[b.len() - a.len() + i]);
    }
    assert(c.subrange(c.len() - a.len(), c.len() as int) =~= a);
}

proof fn lemma_suffix_push(a: Seq<u8>, b: Seq<u8>, x: u8)
    requires
        is_suffix(a, b),
    ensures
        is_suffix(a.push(x), b.push(x)),
{
    let bb = b.push(x);
    assert forall|i: int| 0 <= i < a.len() + 1 implies bb.subrange(bb.len() - (a.len() + 1), bb.len() as int)[i] == a.push(x)[i] by {
        if i < a.len() {
            assert(b.subrange(b.len() - a.len(), b.len() as int)[i] == a[i]);
        }
    }
    assert(bb.subrange(bb.len() - (a.len() + 1), bb.len() as int) =~= a.push(x));
}

proof fn lemma_suffix_empty(b: Seq<u8>)
    ensures
        is_suffix(Seq::<u8>::empty(), b),
{
    assert(b.subrange(b.len() as int, b.len() as int) =~= Seq::<u8>::empty());
}

/// Every state of an output chain has a string that ends the chain's first
/// state's string, and a pattern.
proof fn lemma_chain_suffix(p: Program, pats: Seq<Seq<u8>>, word: Seq<Seq<u8>>, o: u32, fuel: nat)
    requires
        suffix_model(p, pats, word),
        (o as nat) < p.accept.len(),
        p.accept[o as int] != NO_PATTERN,
    ensures
        forall|k: int| 0 <= k < chain(p, o, fuel).len() ==> {
            let x = #[trigger] chain(p, o, fuel)[k];
            &&& (x as nat) < p.accept.len()
            &&& p.accept[x as int] != NO_PATTERN
            &&& is_suffix(word[x as int], word[o as int])
        },
    decreases fuel,
{
    if fuel > 0 {
        let l = link_of(p, o);
        let rest = chain(p, l, (fuel - 1) as nat);
        assert(chain(p, o, fuel) == seq![o] + rest);
        assert(is_suffix(word[o as int], word[o as int])) by {
            assert(word[o as int].subrange(0, word[o as int].len() as int) =~= word[o as int]);
        }
        if l != NO_PATTERN {
            lemma_chain_suffix(p, pats, word, l, (fuel - 1) as nat);
            assert forall|k: int| 0 <= k < rest.len() implies is_suffix(word[#[trigger] rest[k] as int], word[o as int]) by {
                lemma_suffix_trans(word[rest[k] as int], word[l as int], word[o as int]);
            }
        }
        assert forall|k: int| 0 <= k < chain(p, o, fuel).len() implies {
            let x = #[trigger] chain(p, o, fuel)[k];
            &&& (x as nat) < p.accept.len()
            &&& p.accept[x as int] != NO_PATTERN
            &&& is_suffix(word[x as int], word[o as int])
        } by {
            if k > 0 {
                assert(chain(p, o, fuel)[k] == rest[k - 1]);
            }
        }
    }
}

/// While scanning, the state's string ends the input read, and every match
/// so far is an occurrence.
proof fn lemma_run_sound(p: Program, pats: Seq<Seq<u8>>, word: Seq<Seq<u8>>, input: Seq<u8>)
    requires
        suffix_model(p, pats, word),
        input.len() <= u32::MAX,
    ensures
        (run(p, input).0 as nat) < p.accept.len(),
        is_suffix(word[run(p, input).0 as int], input),
        forall|k: int| 0 <= k < run(p, input).1.len() ==> is_occurrence(#[trigger] run(p, input).1[k], pats, input),
    decreases input.len(),
{
    crate::machine::lemma_run_len(p, input);
    assert(word[0] =~= Seq::<u8>::empty());
    if input.len() == 0 {
        lemma_suffix_empty(input);
    } else {
        let rest = input.drop_last();
        lemma_run_sound(p, pats, word, rest);
        let prev = run(p, rest);
        let b = input.last();
        let t = next_state(p, prev.0, b);
        assert(rest.push(b) =~= input);
        lemma_suffix_push(word[prev.0 as int], rest, b);
        assert(is_suffix(word[t as int], word[prev.0 as int].push(b)));
        lemma_suffix_trans(word[t as int], word[prev.0 as int].push(b), input);
        assert forall|k: int| 0 <= k < prev.1.len() implies is_occurrence(#[trigger] prev.1[k], pats, input) by {
            let m = prev.1[k];
            assert(is_occurrence(m, pats, rest));
            assert(input.subrange(m.1 as int, m.2 as int) =~= rest.subrange(m.1 as int, m.2 as int));
        }
        crate::machine::lemma_run_len(p, rest);
        if accept_of(p, t) != NO_PATTERN {
            let end = input.len() as u32;
            let ch = chain(p, t, p.max_chain);
            let ms = chain_matches(p, t, end);
            lemma_chain_suffix(p, pats, word, t, p.max_chain);
            assert forall|k: int| 0 <= k < ms.len() implies is_occurrence(#[trigger] ms[k], pats, input) by {
                let o = ch[k];
                let pid = p.accept[o as int];
                assert(ms[k] == match_at(p, o, end));
                assert(accept_of(p, o) == pid);
                lemma_suffix_trans(pats[pid as int], word[o as int], word[t as int]);
                lemma_suffix_trans(pats[pid as int], word[t as int], input);
                assert(length_of(p, pid) as nat == pats[pid as int].len());
                assert(saturating_sub(end, length_of(p, pid)) as nat == end - pats[pid as int].len());
            }
            let all = prev.1 + ms;
            assert forall|k: int| 0 <= k < all.len() implies is_occurrence(#[trigger] all[k], pats, input) by {
                if k < prev.1.len() {
                    assert(all[k] == prev.1[k]);
                } else {
                    assert(all[k] == ms[k - prev.1.len()]);
                }
            }
            lemma_suffix_empty(input);
        }
    }
}

/// Reading the first `k` bytes of pattern `i`, before its end, the program
/// is in the state of those bytes and has reported nothing.
proof fn lemma_literal_prefix_run(p: Program, pats: Seq<Seq<u8>>, word: Seq<Seq<u8>>, i: int, k: int)
    requires
        literal_model(p, pats, word),
        0 <= i < pats.len(),
        0 <= k < pats[i].len(),
        forall|j: int, m: int| #![trigger pats[j], pats[i].take(m)]
            0 <= j < pats.len() && 0 < pats[j].len() && 0 <= m < pats[i].len() ==> !is_suffix(pats[j], pats[i].take(m)),
    ensures
        (run(p, pats[i].take(k)).0 as nat) < p.accept.len(),
        word[run(p, pats[i].take(k)).0 as int] == pats[i].take(k),
        run(p, pats[i].take(k)).1.len() == 0,
    decreases k,
{
    let q = pats[i];
    if k == 0 {
        assert(q.take(0) =~= Seq::<u8>::empty());
        assert(word[0] =~= Seq::<u8>::empty());
    } else {
        lemma_literal_prefix_run(p, pats, word, i, k - 1);
        let prefix = q.take(k);
        assert(prefix.drop_last() =~= q.take(k - 1));
        let prev = run(p, q.take(k - 1));
        let b = prefix.last();
        assert(prefix =~= q.take(k - 1).push(b));
        let x = choose|x: int| 0 <= x < p.accept.len() && word[x] == #[trigger] pats[i].take(k);
        assert(word[x] == word[prev.0 as int].push(b));
        let t = next_state(p, prev.0, b);
        assert(t == x);
        if p.accept[x] != NO_PATTERN {
            let a = p.accept[x] as int;
            assert(is_suffix(pats[a], word[x]));
            assert(!is_suffix(pats[a], pats[i].take(k)));
        }
    }
}

/// A literal matcher finds a pattern scanned on its own: when no nonempty
/// pattern ends inside pattern `i` before its last byte, scanning exactly
/// pattern `i` reports, first, a match of a pattern equal to it that spans
/// the whole input.
pub proof fn lemma_literal_finds_pattern(p: Program, pats: Seq<Seq<u8>>, word: Seq<Seq<u8>>, i: int)
    requires
        literal_model(p, pats, word),
        0 <= i < pats.len(),
        0 < pats[i].len() <= u32::MAX,
        forall|j: int, m: int| #![trigger pats[j], pats[i].take(m)]
            0 <= j < pats.len() && 0 < pats[j].len() && 0 <= m < pats[i].len() ==> !is_suffix(pats[j], pats[i].take(m)),
    ensures
        scan_matches(p, pats[i]).len() > 0,
        pats[scan_matches(p, pats[i])[0].0 as int] == pats[i],
        scan_matches(p, pats[i])[0].1 == 0,
        scan_matches(p, pats[i])[0].2 == pats[i].len(),
{
    let q = pats[i];
    let len = q.len() as int;
    lemma_literal_prefix_run(p, pats, word, i, len - 1);
    assert(q.take(len) =~= q);
    assert(q.drop_last() =~= q.take(len - 1));
    let prev = run(p, q.take(len - 1));
    let b = q.last();
    assert(q =~= q.take(len - 1).push(b));
    let x = choose|x: int| 0 <= x < p.accept.len() && word[x] == #[trigger] pats[i].take(len);
    assert(word[x] == word[prev.0 as int].push(b));
    assert(next_state(p, prev.0, b) == x);
    assert(word[x] == pats[i]);
    let a = p.accept[x];
    assert(a != NO_PATTERN && pats[a as int] == word[x]);
    assert(accept_of(p, x as u32) == a);
    let end = len as u32;
    let ch = chain(p, x as u32, p.max_chain);
    assert(ch[0] == x as u32);
    let ms = chain_matches(p, x as u32, end);
    assert(ms[0] == match_at(p, x as u32, end));
    assert(length_of(p, a) as nat == pats[a as int].len());
    assert(run(p, q).1 == prev.1 + ms);
    assert(run(p, q).1[0] == ms[0]);
}

/// A literal matcher finds nothing but its patterns: for a program with a
/// suffix model over `pats`, every match that scanning `input` reports is an
/// occurrence of its pattern in `input`.
pub proof fn lemma_literal_matches_sound(p: Program, pats: Seq<Seq<u8>>, word: Seq<Seq<u8>>, input: Seq<u8>)
    requires
        suffix_model(p, pats, word),
        input.len() <= u32::MAX,
    ensures
        forall|k: int| 0 <= k < scan_matches(p, input).len() ==> is_occurrence(#[trigger] scan_matches(p, input)[k], pats, input),
{
    lemma_run_sound(p, pats, word, input);
}


/// Every prefix of every pattern, the empty string included: the strings
/// that the trie of the patterns has nodes for.
pub open spec fn pattern_prefixes(pats: Seq<Seq<u8>>) -> Set<Seq<u8>> {
    Set::new(|w: Seq<u8>| exists|i: int, k: int| 0 <= i < pats.len() && 0 <= k <= pats[i].len() && w == pats[i].take(k))
}

/// The number of states of the literal matcher of `pats`: one per distinct
/// prefix of a pattern.
pub open spec fn literal_state_count(pats: Seq<Seq<u8>>) -> nat {
    pattern_prefixes(pats).len()
}

/// The trie edge of node `s` on byte `b` (0 for none).
pub open spec fn edge(trans: Seq<u32>, s: int, b: int) -> u32 {
    trans[s * 256 + b]
}

/// The edge of `s` on `b` names a node; a nonzero edge leads to the node of
/// `word[s] + b`, a zero edge means no node has that string.
pub open spec fn edge_ok(trans: Seq<u32>, word: Seq<Seq<u8>>, s: int, b: int) -> bool {
    let x = edge(trans, s, b);
    &&& (x as nat) < word.len()
    &&& x != 0 ==> word[x as int] == word[s].push(b as u8)
    &&& x == 0 ==> forall|z: int| 0 <= z < word.len() ==> #[trigger] word[z] != word[s].push(b as u8)
}

/// Node `z` hangs below an earlier node: its string less its last byte is
/// the string of a node `p < z` whose edge on that byte is `z`.
pub open spec fn has_parent(trans: Seq<u32>, word: Seq<Seq<u8>>, z: int) -> bool {
    &&& word[z].len() > 0
    &&& exists|p: int| 0 <= p < z && #[trigger] word[p] == word[z].drop_last() && edge(trans, p, word[z].last() as int) == z
}

/// A trie over 256 byte values: a flat edge array of 256 entries per node,
/// node 0 for the empty string, distinct strings per node, and every other
/// node below an earlier one.
pub open spec fn trie_ok(trans: Seq<u32>, word: Seq<Seq<u8>>) -> bool {
    let n = word.len();
    &&& n > 0
    &&& trans.len() == n * 256
    &&& word[0].len() == 0
    &&& forall|s: int, b: int| 0 <= s < n && 0 <= b < 256 ==> #[trigger] edge_ok(trans, word, s, b)
    &&& forall|z: int| 0 < z < n ==> #[trigger] has_parent(trans, word, z)
    &&& forall|x: int, y: int| 0 <= x < n && 0 <= y < n && x != y ==> #[trigger] word[x] != #[trigger] word[y]
}

/// Entry `s * 256 + b` lies in row `s`.
proof fn lemma_edge_index(n: int, s: int, b: int)
    requires
        0 <= s < n,
        0 <= b < 256,
    ensures
        0 <= s * 256 + b < n * 256,
{
}

/// The prefixes of the patterns are finitely many.
proof fn lemma_prefixes_finite(pats: Seq<Seq<u8>>)
    ensures
        pattern_prefixes(pats).finite(),
    decreases pats.len(),
{
    if pats.len() == 0 {
        assert(pattern_prefixes(pats) =~= Set::<Seq<u8>>::empty());
    } else {
        let d = pats.drop_last();
        lemma_prefixes_finite(d);
        let w = pats.last();
        let f = |k: int| w.take(k);
        let own = set_int_range(0, w.len() as int + 1).map(f);
        vstd::set_lib::lemma_int_range(0, w.len() as int + 1);
        set_int_range(0, w.len() as int + 1).lemma_map_finite(f);
        assert(pattern_prefixes(pats) =~= pattern_prefixes(d).union(own)) by {
            assert forall|x: Seq<u8>| #[trigger] pattern_prefixes(pats).contains(x) implies pattern_prefixes(d).union(own).contains(x) by {
                let (i, k) = choose|i: int, k: int| 0 <= i < pats.len() && 0 <= k <= pats[i].len() && x == pats[i].take(k);
                if i < d.len() {
                    assert(d[i] == pats[i]);
                } else {
                    assert(set_int_range(0, w.len() as int + 1).contains(k));
                    assert(f(k) == x);
                }
            }
            assert forall|x: Seq<u8>| #[trigger] pattern_prefixes(d).union(own).contains(x) implies pattern_prefixes(pats).contains(x) by {
                if pattern_prefixes(d).contains(x) {
                    let (i, k) = choose|i: int, k: int| 0 <= i < d.len() && 0 <= k <= d[i].len() && x == d[i].take(k);
                    assert(d[i] == pats[i]);
                } else {
                    let k = choose|k: int| #[trigger] set_int_range(0, w.len() as int + 1).contains(k) && f(k) == x;
                    assert(x == pats[pats.len() - 1].take(k));
                }
            }
        }
    }
}

/// Distinct strings that are prefixes of the patterns, and one more not
/// among them, are no more than the prefixes.
proof fn lemma_distinct_prefixes_bound(word: Seq<Seq<u8>>, pats: Seq<Seq<u8>>, extra: Seq<u8>)
    requires
        forall|z: int| 0 <= z < word.len() ==> pattern_prefixes(pats).contains(#[trigger] word[z]),
        forall|x: int, y: int| 0 <= x < word.len() && 0 <= y < word.len() && x != y ==> #[trigger] word[x] != #[trigger] word[y],
        pattern_prefixes(pats).contains(extra),
        forall|z: int| 0 <= z < word.len() ==> #[trigger] word[z] != extra,
    ensures
        word.len() + 1 <= literal_state_count(pats),
{
    lemma_prefixes_finite(pats);
    assert(word.no_duplicates());
    word.unique_seq_to_set();
    let s = word.to_set().insert(extra);
    assert(!word.to_set().contains(extra));
    assert(s.subset_of(pattern_prefixes(pats)));
    vstd::set_lib::lemma_len_subset(s, pattern_prefixes(pats));
}

/// Build the trie of the patterns: the edge array, the `(node, pattern)`
/// entry of each nonempty pattern, and the length of each pattern.
fn build_trie(patterns: &[&[u8]]) -> (r: (Vec<u32>, Vec<(u32, u32)>, Vec<u32>, usize, Ghost<Seq<Seq<u8>>>))
    requires
        0 < patterns@.len() <= u32::MAX,
        literal_state_count(pattern_seqs(patterns@)) < u32::MAX,
    ensures
        trie_ok(r.0@, r.4@),
        r.4@.to_set() == pattern_prefixes(pattern_seqs(patterns@)),
        r.3 == r.4@.len(),
        r.4@.len() <= literal_state_count(pattern_seqs(patterns@)),
        forall|k: int| 0 <= k < r.1@.len() ==> {
            &&& (#[trigger] r.1@[k].0 as nat) < r.4@.len()
            &&& (r.1@[k].1 as nat) < patterns@.len()
            &&& r.4@[r.1@[k].0 as int] == patterns@[r.1@[k].1 as int]@
            &&& patterns@[r.1@[k].1 as int]@.len() > 0
        },
        forall|i: int| 0 <= i < patterns@.len() && patterns@[i]@.len() > 0
            ==> exists|k: int| 0 <= k < r.1@.len() && #[trigger] r.1@[k].1 == i,
        forall|i: int, j: int| 0 <= i < j < r.1@.len() ==> #[trigger] r.1@[i].1 < #[trigger] r.1@[j].1,
        r.2@.len() == patterns@.len(),
        forall|i: int| 0 <= i < patterns@.len() ==> #[trigger] r.2@[i] == (patterns@[i]@.len() as u32),
{
    let ghost pats = pattern_seqs(patterns@);
    let mut state_count: usize = 1;
    let mut trans: Vec<u32> = vec![0u32; 256];
    let mut accepts: Vec<(u32, u32)> = Vec::new();
    let mut lengths: Vec<u32> = vec![0u32; patterns.len()];
    let ghost mut word: Seq<Seq<u8>> = seq![Seq::<u8>::empty()];
    proof {
        assert forall|s: int, b: int| 0 <= s < 1 && 0 <= b < 256 implies #[trigger] edge_ok(trans@, word, s, b) by {
            assert(edge(trans@, s, b) == 0);
            assert forall|z: int| 0 <= z < word.len() implies #[trigger] word[z] != word[s].push(b as u8) by {
                assert(word[z].len() == 0);
            }
        }
        assert(pats[0].take(0) =~= word[0]);
        assert(pattern_prefixes(pats).contains(word[0]));
        lemma_distinct_prefixes_bound(Seq::<Seq<u8>>::empty(), pats, word[0]);
    }
    let mut pid: usize = 0;
    while pid < patterns.len()
        invariant
            pats == pattern_seqs(patterns@),
            patterns@.len() <= u32::MAX,
            literal_state_count(pats) < u32::MAX,
            pid <= patterns@.len(),
            state_count == word.len(),
            word.len() <= literal_state_count(pats),
            trie_ok(trans@, word),
            forall|z: int| 0 <= z < word.len() ==> pattern_prefixes(pats).contains(#[trigger] word[z]),
            forall|i: int, k: int| 0 <= i < pid && 0 <= k <= pats[i].len()
                ==> exists|z: int| 0 <= z < word.len() && word[z] == #[trigger] pats[i].take(k),
            forall|k: int| 0 <= k < accepts@.len() ==> {
                &&& (#[trigger] accepts@[k].0 as nat) < word.len()
                &&& (accepts@[k].1 as nat) < pid
                &&& word[accepts@[k].0 as int] == pats[accepts@[k].1 as int]
                &&& pats[accepts@[k].1 as int].len() > 0
            },
            forall|i: int| 0 <= i < pid && pats[i].len() > 0 ==> exists|k: int| 0 <= k < accepts@.len() && #[trigger] accepts@[k].1 == i,
            forall|i: int, j: int| 0 <= i < j < accepts@.len() ==> #[trigger] accepts@[i].1 < #[trigger] accepts@[j].1,
            lengths@.len() == patterns@.len(),
            forall|i: int| 0 <= i < pid ==> #[trigger] lengths@[i] == (pats[i].len() as u32),
            forall|i: int| pid <= i < patterns@.len() ==> #[trigger] lengths@[i] == 0,
        decreases patterns@.len() - pid,
    {
        let pattern: &[u8] = patterns[pid];
        proof {
            assert(pats[pid as int] == pattern@);
        }
        proof {
            assert(pattern@.take(0) =~= word[0]);
        }
        if pattern.len() > 0 {
            let mut current: u32 = 0;
            let mut j: usize = 0;
            while j < pattern.len()
                invariant
                    pats == pattern_seqs(patterns@),
                    pats[pid as int] == pattern@,
                    literal_state_count(pats) < u32::MAX,
                    j <= pattern@.len(),
                    state_count == word.len(),
                    word.len() <= literal_state_count(pats),
                    trie_ok(trans@, word),
                    pid < pats.len(),
                    forall|z: int| 0 <= z < word.len() ==> pattern_prefixes(pats).contains(#[trigger] word[z]),
                    forall|i: int, k: int| 0 <= i < pid && 0 <= k <= pats[i].len()
                        ==> exists|z: int| 0 <= z < word.len() && word[z] == #[trigger] pats[i].take(k),
                    forall|k: int| 0 <= k <= j ==> exists|z: int| 0 <= z < word.len() && word[z] == #[trigger] pattern@.take(k),
                    (current as nat) < word.len(),
                    word[current as int] == pattern@.take(j as int),
                    forall|k: int| 0 <= k < accepts@.len() ==> {
                        &&& (#[trigger] accepts@[k].0 as nat) < word.len()
                        &&& (accepts@[k].1 as nat) < pid
                        &&& word[accepts@[k].0 as int] == pats[accepts@[k].1 as int]
                        &&& pats[accepts@[k].1 as int].len() > 0
                    },
                    forall|i: int| 0 <= i < pid && pats[i].len() > 0 ==> exists|k: int| 0 <= k < accepts@.len() && #[trigger] accepts@[k].1 == i,
                    forall|i: int, j2: int| 0 <= i < j2 < accepts@.len() ==> #[trigger] accepts@[i].1 < #[trigger] accepts@[j2].1,
                decreases pattern@.len() - j,
            {
                let byte = pattern[j];
                let tlen = trans.len();
                proof {
                    lemma_edge_index(word.len() as int, current as int, byte as int);
                    assert(edge_ok(trans@, word, current as int, byte as int));
                    assert(pattern@.take(j + 1) =~= pattern@.take(j as int).push(byte));
                }
                let next = trans[current as usize * 256 + byte as usize];
                if next == 0 {
                    proof {
                        assert(pattern_prefixes(pats).contains(word[current as int].push(byte))) by {
                            assert(word[current as int].push(byte) == pats[pid as int].take(j + 1));
                        }
                        lemma_distinct_prefixes_bound(word, pats, word[current as int].push(byte));
                    }
                    let new_state = state_count as u32;
                    let ghost old_trans = trans@;
                    let ghost old_word = word;
                    let mut b: usize = 0;
                    while b < 256
                        invariant
                            trans@.len() == old_trans.len() + b,
                            forall|i: int| 0 <= i < old_trans.len() ==> #[trigger] trans@[i] == old_trans[i],
                            forall|i: int| old_trans.len() <= i < trans@.len() ==> #[trigger] trans@[i] == 0,
                            b <= 256,
                        decreases 256 - b,
                    {
                        trans.push(0);
                        b += 1;
                    }
                    let tlen2 = trans.len();
                    trans.set(current as usize * 256 + byte as usize, new_state);
                    state_count += 1;
                    proof {
                        word = old_word.push(old_word[current as int].push(byte));
                        lemma_trie_add(old_trans, old_word, trans@, word, current as int, byte);
                        let y = old_word.len() as int;
                        assert(pattern_prefixes(pats).contains(word[y])) by {
                            assert(word[y] == pats[pid as int].take(j + 1));
                        }
                        assert forall|z: int| 0 <= z < word.len() implies pattern_prefixes(pats).contains(#[trigger] word[z]) by {
                            if z < y {
                                assert(word[z] == old_word[z]);
                            }
                        }
                        assert forall|i: int, k: int| 0 <= i < pid && 0 <= k <= pats[i].len()
                            implies exists|z: int| 0 <= z < word.len() && word[z] == #[trigger] pats[i].take(k) by {
                            let z = choose|z: int| 0 <= z < old_word.len() && old_word[z] == pats[i].take(k);
                            assert(word[z] == old_word[z]);
                        }
                        assert forall|k: int| 0 <= k <= j + 1 implies exists|z: int| 0 <= z < word.len() && word[z] == #[trigger] pattern@.take(k) by {
                            if k == j + 1 {
                                assert(word[y] == pattern@.take(k));
                            } else {
                                let z = choose|z: int| 0 <= z < old_word.len() && old_word[z] == pattern@.take(k);
                                assert(word[z] == old_word[z]);
                            }
                        }
                    }
                    current = new_state;
                } else {
                    current = next;
                    proof {
                        assert forall|k: int| 0 <= k <= j + 1 implies exists|z: int| 0 <= z < word.len() && word[z] == #[trigger] pattern@.take(k) by {
                            if k == j + 1 {
                                assert(word[next as int] == pattern@.take(k));
                            }
                        }
                    }
                }
                j += 1;
            }
            proof {
                assert(pattern@.take(pattern@.len() as int) =~= pattern@);
                lemma_depth_bound(trans@, word, current as int);
            }
            let ghost old_accepts = accepts@;
            accepts.push((current, pid as u32));
            lengths.set(pid, pattern.len() as u32);
            proof {
                assert forall|k: int| 0 <= k < accepts@.len() implies {
                    &&& (#[trigger] accepts@[k].0 as nat) < word.len()
                    &&& (accepts@[k].1 as nat) < pid + 1
                    &&& word[accepts@[k].0 as int] == pats[accepts@[k].1 as int]
                    &&& pats[accepts@[k].1 as int].len() > 0
                } by {
                    if k < old_accepts.len() {
                        assert(accepts@[k] == old_accepts[k]);
                    }
                }
                assert forall|i: int, j2: int| 0 <= i < j2 < accepts@.len() implies #[trigger] accepts@[i].1 < #[trigger] accepts@[j2].1 by {
                    assert(accepts@[i] == old_accepts[i]);
                    if j2 < old_accepts.len() {
                        assert(accepts@[j2] == old_accepts[j2]);
                    } else {
                        assert((old_accepts[i].0 as nat) < word.len());
                    }
                }
                assert forall|i: int| 0 <= i < pid + 1 && pats[i].len() > 0
                    implies exists|k: int| 0 <= k < accepts@.len() && #[trigger] accepts@[k].1 == i by {
                    if i == pid {
                        assert(accepts@[old_accepts.len() as int].1 == i);
                    } else {
                        let k = choose|k: int| 0 <= k < old_accepts.len() && #[trigger] old_accepts[k].1 == i;
                        assert(accepts@[k] == old_accepts[k]);
                    }
                }
            }
        } else {
            lengths.set(pid, 0);
        }
        proof {
            assert forall|i: int, k: int| 0 <= i < pid + 1 && 0 <= k <= pats[i].len()
                implies exists|z: int| 0 <= z < word.len() && word[z] == #[trigger] pats[i].take(k) by {
                if i == pid {
                    assert(pats[i].take(k) == pattern@.take(k));
                }
            }
        }
        pid += 1;
    }
    proof {
        assert(pats.take(patterns@.len() as int) =~= pats);
        assert forall|w: Seq<u8>| #[trigger] pattern_prefixes(pats).contains(w) implies word.to_set().contains(w) by {
            let (i, k) = choose|i: int, k: int| 0 <= i < pats.len() && 0 <= k <= pats[i].len() && w == pats[i].take(k);
            let z = choose|z: int| 0 <= z < word.len() && word[z] == pats[i].take(k);
            assert(word.contains(w));
        }
        assert(word.to_set() =~= pattern_prefixes(pats));
        assert forall|i: int| 0 <= i < patterns@.len() && patterns@[i]@.len() > 0
            implies exists|k: int| 0 <= k < accepts@.len() && #[trigger] accepts@[k].1 == i by {
            assert(pats[i] == patterns@[i]@);
        }
    }
    let ghost av = accepts@;
    let r = (trans, accepts, lengths, state_count, Ghost(word));
    assert forall|i: int| 0 <= i < patterns@.len() && patterns@[i]@.len() > 0
        implies exists|k: int| 0 <= k < r.1@.len() && #[trigger] r.1@[k].1 == i by {
        assert(exists|k: int| 0 <= k < av.len() && #[trigger] av[k].1 == i);
        let k = choose|k: int| 0 <= k < av.len() && #[trigger] av[k].1 == i;
        assert(r.1@[k].1 == i);
    }
    r
}


/// Adding a node for `word[cur] + byte` below `cur`, where there was no edge,
/// keeps the trie a trie.
proof fn lemma_trie_add(ot: Seq<u32>, ow: Seq<Seq<u8>>, t: Seq<u32>, w: Seq<Seq<u8>>, cur: int, byte: u8)
    requires
        trie_ok(ot, ow),
        0 <= cur < ow.len(),
        edge(ot, cur, byte as int) == 0,
        w == ow.push(ow[cur].push(byte)),
        t.len() == ot.len() + 256,
        forall|i: int| 0 <= i < ot.len() && i != cur * 256 + byte ==> #[trigger] t[i] == ot[i],
        t[cur * 256 + byte] == ow.len(),
        forall|i: int| ot.len() <= i < t.len() ==> #[trigger] t[i] == 0,
    ensures
        trie_ok(t, w),
{
    let n = ow.len() as int;
    let y = n;
    assert(edge_ok(ot, ow, cur, byte as int));
    assert forall|s: int, b: int| 0 <= s < n + 1 && 0 <= b < 256 implies #[trigger] edge_ok(t, w, s, b) by {
        if s == y {
            assert(edge(t, s, b) == 0);
            assert forall|z: int| 0 <= z < w.len() implies #[trigger] w[z] != w[s].push(b as u8) by {
                if z < n && z > 0 {
                    assert(has_parent(ot, ow, z));
                    let p = choose|p: int| 0 <= p < z && #[trigger] ow[p] == ow[z].drop_last() && edge(ot, p, ow[z].last() as int) == z;
                    if w[z] == w[s].push(b as u8) {
                        assert(ow[z].drop_last() =~= w[s]);
                        assert(ow[p] == ow[cur].push(byte));
                    }
                } else if z == 0 {
                    assert(w[z].len() == 0);
                } else {
                    assert(w[z].len() != w[s].push(b as u8).len());
                }
            }
        } else if s == cur && b == byte {
            assert(edge(t, s, b) == y);
        } else {
            assert(s * 256 + b != cur * 256 + byte);
            assert(edge(t, s, b) == edge(ot, s, b));
            assert(edge_ok(ot, ow, s, b));
            let x = edge(ot, s, b);
            if x == 0 {
                assert forall|z: int| 0 <= z < w.len() implies #[trigger] w[z] != w[s].push(b as u8) by {
                    if z == y && w[z] == w[s].push(b as u8) {
                        assert(ow[cur].push(byte).last() == w[s].push(b as u8).last());
                        assert(ow[cur].push(byte).drop_last() =~= ow[cur]);
                        assert(w[s].push(b as u8).drop_last() =~= ow[s]);
                        assert(ow[cur] == ow[s]);
                    } else if z < n {
                        assert(w[z] == ow[z]);
                    }
                }
            }
        }
    }
    assert forall|z: int| 0 < z < n + 1 implies #[trigger] has_parent(t, w, z) by {
        if z == y {
            assert(w[z].drop_last() =~= w[cur]);
            assert(w[z].last() == byte);
            assert(edge(t, cur, byte as int) == z);
        } else {
            assert(has_parent(ot, ow, z));
            let p = choose|p: int| 0 <= p < z && #[trigger] ow[p] == ow[z].drop_last() && edge(ot, p, ow[z].last() as int) == z;
            let lb = ow[z].last() as int;
            assert(p * 256 + lb != cur * 256 + byte);
            assert(edge(t, p, lb) == z);
            assert(w[p] == w[z].drop_last());
        }
    }
    assert forall|a: int, c: int| 0 <= a < n + 1 && 0 <= c < n + 1 && a != c implies #[trigger] w[a] != #[trigger] w[c] by {
        if a == y {
            assert(w[c] == ow[c]);
        } else if c == y {
            assert(w[a] == ow[a]);
        }
    }
}


/// Failure link `fail[x]` names a node whose string ends node `x`'s string,
/// and is shorter for every node but the root.
pub open spec fn fail_entry_ok(fail: Seq<u32>, word: Seq<Seq<u8>>, x: int) -> bool {
    &&& (fail[x] as nat) < word.len()
    &&& is_suffix(word[fail[x] as int], word[x])
    &&& x != 0 ==> word[fail[x] as int].len() < word[x].len()
}

/// Failure links for every node of the trie, the root linking to itself.
pub open spec fn fail_ok(fail: Seq<u32>, word: Seq<Seq<u8>>) -> bool {
    &&& fail.len() == word.len()
    &&& fail[0] == 0
    &&& forall|x: int| 0 <= x < word.len() ==> #[trigger] fail_entry_ok(fail, word, x)
}

/// `word[fail[x]]` is the longest proper suffix of `word[x]` that is a node:
/// no node whose string is a proper suffix of `word[x]` is longer.
pub open spec fn fail_longest(fail: Seq<u32>, word: Seq<Seq<u8>>, x: int) -> bool {
    forall|z: int| 0 <= z < word.len() && #[trigger] is_suffix(word[z], word[x]) && word[z].len() < word[x].len()
        ==> word[z].len() <= word[fail[x] as int].len()
}

/// Of two suffixes of one string, the shorter ends the longer.
proof fn lemma_suffix_of_suffix(a: Seq<u8>, b: Seq<u8>, c: Seq<u8>)
    requires
        is_suffix(a, c),
        is_suffix(b, c),
        a.len() <= b.len(),
    ensures
        is_suffix(a, b),
        a.len() == b.len() ==> a == b,
{
    assert forall|i: int| 0 <= i < a.len() implies b.subrange(b.len() - a.len(), b.len() as int)[i] == a[i] by {
        assert(c.subrange(c.len() - a.len(), c.len() as int)[i] == a[i]);
        assert(c.subrange(c.len() - b.len(), c.len() as int)[b.len() - a.len() + i] == b[b.len() - a.len() + i]);
    }
    assert(b.subrange(b.len() - a.len(), b.len() as int) =~= a);
    if a.len() == b.len() {
        assert(b.subrange(0, b.len() as int) =~= b);
    }
}

/// A nonempty suffix of `w + b` is a suffix of `w` followed by `b`.
proof fn lemma_suffix_drop_last(z: Seq<u8>, w: Seq<u8>, b: u8)
    requires
        is_suffix(z, w.push(b)),
        z.len() > 0,
    ensures
        is_suffix(z.drop_last(), w),
        z.last() == b,
        z == z.drop_last().push(b),
{
    let wb = w.push(b);
    assert(wb.subrange(wb.len() - z.len(), wb.len() as int)[z.len() - 1] == z[z.len() - 1]);
    assert forall|i: int| 0 <= i < z.len() - 1 implies w.subrange(w.len() - (z.len() - 1), w.len() as int)[i] == z.drop_last()[i] by {
        assert(wb.subrange(wb.len() - z.len(), wb.len() as int)[i] == z[i]);
    }
    assert(w.subrange(w.len() - (z.len() - 1), w.len() as int) =~= z.drop_last());
    assert(z =~= z.drop_last().push(b));
}

/// Where a nonempty node string ends `w + b`, the node of its string less
/// `b` ends `w` and has an edge on `b` to it.
proof fn lemma_suffix_parent(trans: Seq<u32>, word: Seq<Seq<u8>>, z: int, w: Seq<u8>, b: u8) -> (y: int)
    requires
        trie_ok(trans, word),
        0 < z < word.len(),
        is_suffix(word[z], w.push(b)),
    ensures
        0 <= y < word.len(),
        word[y] == word[z].drop_last(),
        is_suffix(word[y], w),
        word[y].len() + 1 == word[z].len(),
        edge(trans, y, b as int) == z,
{
    assert(has_parent(trans, word, z));
    let y = choose|p: int| 0 <= p < z && #[trigger] word[p] == word[z].drop_last() && edge(trans, p, word[z].last() as int) == z;
    lemma_suffix_drop_last(word[z], w, b);
    y
}

/// One step along the failure chain while looking for an edge on `b`: no
/// suffix of `word[s]` longer than the new link and shorter than `top` has
/// an edge on `b`.
proof fn lemma_fail_walk_step(trans: Seq<u32>, word: Seq<Seq<u8>>, fail: Seq<u32>, s: int, f: int, b: int, top: int)
    requires
        trie_ok(trans, word),
        fail_ok(fail, word),
        0 < f < word.len(),
        0 <= s < word.len(),
        0 <= b < 256,
        fail_longest(fail, word, f),
        is_suffix(word[f], word[s]),
        edge(trans, f, b) == 0,
        forall|z: int| 0 <= z < word.len() && #[trigger] is_suffix(word[z], word[s])
            && word[f].len() < word[z].len() < top ==> edge(trans, z, b) == 0,
    ensures
        forall|z: int| 0 <= z < word.len() && #[trigger] is_suffix(word[z], word[s])
            && word[fail[f] as int].len() < word[z].len() < top ==> edge(trans, z, b) == 0,
{
    let f2 = fail[f] as int;
    assert forall|z: int| 0 <= z < word.len() && #[trigger] is_suffix(word[z], word[s])
        && word[f2].len() < word[z].len() < top implies edge(trans, z, b) == 0 by {
        if word[z].len() <= word[f].len() {
            lemma_suffix_of_suffix(word[z], word[f], word[s]);
            if word[z].len() < word[f].len() {
                assert(is_suffix(word[z], word[f]));
            } else {
                assert(z == f);
            }
        }
    }
}

/// Where the walk stops at `f` (the root, or a node with an edge on `b`),
/// no suffix of `word[s] + b` shorter than `top + 1` is longer than the node
/// that the edge of `f` on `b` leads to.
proof fn lemma_fail_walk_end(trans: Seq<u32>, word: Seq<Seq<u8>>, s: int, f: int, b: int, top: int)
    requires
        trie_ok(trans, word),
        0 <= f < word.len(),
        0 <= s < word.len(),
        0 <= b < 256,
        f == 0 || edge(trans, f, b) != 0,
        forall|z: int| 0 <= z < word.len() && #[trigger] is_suffix(word[z], word[s])
            && word[f].len() < word[z].len() < top ==> edge(trans, z, b) == 0,
    ensures
        forall|z: int| 0 <= z < word.len() && #[trigger] is_suffix(word[z], word[s].push(b as u8)) && word[z].len() < top + 1
            ==> word[z].len() <= word[edge(trans, f, b) as int].len(),
{
    lemma_edge_index(word.len() as int, f, b);
    assert(edge_ok(trans, word, f, b));
    let nf = edge(trans, f, b);
    assert forall|z: int| 0 <= z < word.len() && #[trigger] is_suffix(word[z], word[s].push(b as u8)) && word[z].len() < top + 1
        implies word[z].len() <= word[nf as int].len() by {
        if word[z].len() > 0 {
            if z == 0 {
                assert(word[0].len() == 0);
            }
            let y = lemma_suffix_parent(trans, word, z, word[s], b as u8);
            lemma_edge_index(word.len() as int, y, b);
            if word[y].len() > word[f].len() {
                assert(edge(trans, y, b) == 0);
            }
            if nf == 0 {
                assert(word[y].len() == 0);
                assert(word[y] =~= word[0]);
                assert(y == 0);
            }
        }
    }
}

/// The pattern of the first entry of `accepts` that names state `s`, or
/// [`NO_PATTERN`] where none does.
pub open spec fn first_pattern(accepts: Seq<(u32, u32)>, s: int) -> u32
    decreases accepts.len(),
{
    if accepts.len() == 0 {
        NO_PATTERN
    } else if accepts[0].0 == s {
        accepts[0].1
    } else {
        first_pattern(accepts.drop_first(), s)
    }
}

/// `z` is, of the nodes with a pattern of their own whose strings are
/// proper suffixes of `word[s]`, the one with the longest string: the
/// nearest such node along the failure chain of `s`.
pub open spec fn nearest_owner(accepts: Seq<(u32, u32)>, word: Seq<Seq<u8>>, s: int, z: int) -> bool {
    &&& 0 <= z < word.len()
    &&& first_pattern(accepts, z) != NO_PATTERN
    &&& is_suffix(word[z], word[s])
    &&& word[z].len() < word[s].len()
    &&& forall|y: int| 0 <= y < word.len() && first_pattern(accepts, y) != NO_PATTERN
        && #[trigger] is_suffix(word[y], word[s]) && word[y].len() < word[s].len() ==> word[y].len() <= word[z].len()
}

/// The pattern that the literal matcher reports at node `s`: its own first
/// pattern, else that of its nearest owner, else none.
pub open spec fn literal_accept(accepts: Seq<(u32, u32)>, word: Seq<Seq<u8>>, s: int) -> u32 {
    if first_pattern(accepts, s) != NO_PATTERN {
        first_pattern(accepts, s)
    } else if exists|z: int| nearest_owner(accepts, word, s, z) {
        first_pattern(accepts, choose|z: int| nearest_owner(accepts, word, s, z))
    } else {
        NO_PATTERN
    }
}

/// The output link of node `s`: for a node with a pattern of its own, its
/// nearest owner where there is one; otherwise none.
pub open spec fn literal_link(links: Seq<u32>, accepts: Seq<(u32, u32)>, word: Seq<Seq<u8>>, s: int) -> bool {
    if first_pattern(accepts, s) != NO_PATTERN && exists|z: int| nearest_owner(accepts, word, s, z) {
        nearest_owner(accepts, word, s, links[s] as int)
    } else {
        links[s] == NO_PATTERN
    }
}

proof fn lemma_first_pattern_push(a: Seq<(u32, u32)>, e: (u32, u32), s: int)
    requires
        forall|k: int| 0 <= k < a.len() ==> #[trigger] a[k].1 != NO_PATTERN,
    ensures
        first_pattern(a.push(e), s) == if first_pattern(a, s) != NO_PATTERN {
            first_pattern(a, s)
        } else if e.0 == s {
            e.1
        } else {
            NO_PATTERN
        },
    decreases a.len(),
{
    assert(a.push(e)[0] == if a.len() == 0 { e } else { a[0] });
    if a.len() == 0 {
        assert(a.push(e).drop_first() =~= Seq::<(u32, u32)>::empty());
        assert(first_pattern(a, s) == NO_PATTERN);
        assert(first_pattern(Seq::<(u32, u32)>::empty(), s) == NO_PATTERN);
    } else {
        assert(a.push(e).drop_first() =~= a.drop_first().push(e));
        assert forall|k: int| 0 <= k < a.drop_first().len() implies #[trigger] a.drop_first()[k].1 != NO_PATTERN by {
            assert(a.drop_first()[k] == a[k + 1]);
        }
        lemma_first_pattern_push(a.drop_first(), e, s);
    }
}

/// Two nearest owners of one node are the same node.
proof fn lemma_nearest_owner_unique(trans: Seq<u32>, accepts: Seq<(u32, u32)>, word: Seq<Seq<u8>>, s: int, z1: int, z2: int)
    requires
        trie_ok(trans, word),
        nearest_owner(accepts, word, s, z1),
        nearest_owner(accepts, word, s, z2),
    ensures
        z1 == z2,
{
    assert(word[z1].len() <= word[z2].len());
    assert(word[z2].len() <= word[z1].len());
    lemma_suffix_of_suffix(word[z1], word[z2], word[s]);
}

/// One step along the failure chain while looking for an owner: no node
/// with a pattern of its own and a string that is a suffix of `word[s]`
/// is longer than the new link and shorter than `word[s]`.
proof fn lemma_owner_walk_step(trans: Seq<u32>, word: Seq<Seq<u8>>, fail: Seq<u32>, accepts: Seq<(u32, u32)>, s: int, f: int)
    requires
        trie_ok(trans, word),
        fail_ok(fail, word),
        0 < f < word.len(),
        0 <= s < word.len(),
        fail_longest(fail, word, f),
        is_suffix(word[f], word[s]),
        first_pattern(accepts, f) == NO_PATTERN,
        forall|y: int| 0 <= y < word.len() && first_pattern(accepts, y) != NO_PATTERN && #[trigger] is_suffix(word[y], word[s])
            && word[f].len() < word[y].len() < word[s].len() ==> false,
    ensures
        forall|y: int| 0 <= y < word.len() && first_pattern(accepts, y) != NO_PATTERN && #[trigger] is_suffix(word[y], word[s])
            && word[fail[f] as int].len() < word[y].len() < word[s].len() ==> false,
{
    assert forall|y: int| 0 <= y < word.len() && first_pattern(accepts, y) != NO_PATTERN && #[trigger] is_suffix(word[y], word[s])
        && word[fail[f] as int].len() < word[y].len() < word[s].len() implies false by {
        if word[y].len() <= word[f].len() {
            lemma_suffix_of_suffix(word[y], word[f], word[s]);
            if word[y].len() < word[f].len() {
                assert(is_suffix(word[y], word[f]));
            } else {
                assert(y == f);
            }
        }
    }
}

/// Every node in `seen` has its longest failure link, to the root or to a
/// node in `seen`.
spec fn links_final(fail: Seq<u32>, word: Seq<Seq<u8>>, seen: Set<int>) -> bool {
    forall|x: int| #[trigger] seen.contains(x) ==> fail_longest(fail, word, x) && (fail[x] == 0 || seen.contains(fail[x] as int))
}

/// The children of node `s` on the bytes below `upto` are in `seen`.
spec fn children_seen(trans: Seq<u32>, s: int, upto: int, seen: Set<int>) -> bool {
    forall|b: int| 0 <= b < upto ==> #[trigger] edge(trans, s, b) == 0 || seen.contains(edge(trans, s, b) as int)
}

/// Once the children of the root and of every queued node are seen, every
/// node but the root is seen.
proof fn lemma_bfs_complete(trans: Seq<u32>, word: Seq<Seq<u8>>, queue: Seq<u32>, seen: Set<int>, z: int)
    requires
        trie_ok(trans, word),
        0 < z < word.len(),
        children_seen(trans, 0, 256, seen),
        forall|i: int| 0 <= i < queue.len() ==> #[trigger] children_seen(trans, queue[i] as int, 256, seen),
        forall|x: int| #[trigger] seen.contains(x) ==> exists|i: int| 0 <= i < queue.len() && queue[i] as int == x,
    ensures
        seen.contains(z),
    decreases z,
{
    assert(has_parent(trans, word, z));
    let p = choose|p: int| 0 <= p < z && #[trigger] word[p] == word[z].drop_last() && edge(trans, p, word[z].last() as int) == z;
    let b = word[z].last() as int;
    if p == 0 {
        assert(edge(trans, 0, b) == z);
    } else {
        lemma_bfs_complete(trans, word, queue, seen, p);
        let i = choose|i: int| 0 <= i < queue.len() && queue[i] as int == p;
        assert(children_seen(trans, queue[i] as int, 256, seen));
        assert(edge(trans, queue[i] as int, b) == z);
    }
}

/// State `s` has no pattern, or one that ends its string.
pub open spec fn pattern_ends(a: u32, pats: Seq<Seq<u8>>, w: Seq<u8>) -> bool {
    a == NO_PATTERN || ((a as nat) < pats.len() && is_suffix(pats[a as int], w))
}

/// The output link of `s` is absent, or a shorter node with a pattern whose
/// string ends the string of `s`.
pub open spec fn link_ok(links: Seq<u32>, accepts: Seq<(u32, u32)>, word: Seq<Seq<u8>>, s: int) -> bool {
    links[s] == NO_PATTERN || {
        &&& (links[s] as nat) < word.len()
        &&& pattern_of_state(accepts, links[s] as int) != NO_PATTERN
        &&& is_suffix(word[links[s] as int], word[s])
        &&& word[links[s] as int].len() < word[s].len()
    }
}

proof fn lemma_suffix_refl(a: Seq<u8>)
    ensures
        is_suffix(a, a),
{
    assert(a.subrange(0, a.len() as int) =~= a);
}

/// A node other than the root has a nonempty string.
proof fn lemma_node_nonempty(trans: Seq<u32>, word: Seq<Seq<u8>>, x: int)
    requires
        trie_ok(trans, word),
        0 < x < word.len(),
    ensures
        word[x].len() > 0,
{
    assert(has_parent(trans, word, x));
}

/// Compute failure links by breadth-first search, output links to the nearest
/// failure ancestor with a pattern of its own, and the accept entries: each
/// node's first pattern, or else the first pattern along its failure chain.
#[verifier::rlimit(100)]
#[verifier::spinoff_prover]
fn build_failure_links(
    trans: &Vec<u32>,
    state_count: usize,
    accepts: &Vec<(u32, u32)>,
    Ghost(word): Ghost<Seq<Seq<u8>>>,
    Ghost(pats): Ghost<Seq<Seq<u8>>>,
) -> (r: (Vec<u32>, Vec<(u32, u32)>, Vec<u32>))
    requires
        trie_ok(trans@, word),
        state_count == word.len(),
        state_count <= u32::MAX,
        pats.len() <= u32::MAX,
        forall|k: int| 0 <= k < accepts@.len() ==> {
            &&& (#[trigger] accepts@[k].0 as nat) < word.len()
            &&& (accepts@[k].1 as nat) < pats.len()
            &&& word[accepts@[k].0 as int] == pats[accepts@[k].1 as int]
            &&& pats[accepts@[k].1 as int].len() > 0
        },
    ensures
        forall|k: int| 0 <= k < accepts@.len() ==> {
            let a = pattern_of_state(r.1@, #[trigger] accepts@[k].0 as int);
            a != NO_PATTERN && pats[a as int] == word[accepts@[k].0 as int]
        },
        forall|s: int| 0 <= s < word.len() && #[trigger] pattern_of_state(r.1@, s) != NO_PATTERN
            ==> pats[pattern_of_state(r.1@, s) as int].len() > 0,
        fail_ok(r.0@, word),
        forall|x: int| 0 <= x < word.len() ==> #[trigger] fail_longest(r.0@, word, x),
        forall|k: int| 0 <= k < r.1@.len() ==> (#[trigger] r.1@[k].0 as nat) < word.len() && (r.1@[k].1 as nat) < pats.len(),
        forall|i: int, j: int| 0 <= i < j < r.1@.len() ==> #[trigger] r.1@[i].0 < #[trigger] r.1@[j].0,
        forall|s: int| 0 <= s < word.len() ==> pattern_ends(#[trigger] pattern_of_state(r.1@, s), pats, word[s]),
        r.2@.len() == word.len(),
        forall|s: int| 0 <= s < word.len() ==> #[trigger] link_ok(r.2@, r.1@, word, s),
        forall|s: int| 0 <= s < word.len() ==> #[trigger] pattern_of_state(r.1@, s) == literal_accept(accepts@, word, s),
        forall|s: int| 0 <= s < word.len() ==> #[trigger] literal_link(r.2@, accepts@, word, s),
{
    let n = state_count;
    let tlen = trans.len();
    let mut fail: Vec<u32> = vec![0u32; n];
    proof {
        assert(word[0] =~= Seq::<u8>::empty());
        assert forall|x: int| 0 <= x < word.len() implies #[trigger] fail_entry_ok(fail@, word, x) by {
            lemma_suffix_empty(word[x]);
            if x != 0 {
                lemma_node_nonempty(trans@, word, x);
            }
        }
    }
    // the first pattern of each node
    let mut acc: Vec<u32> = vec![NO_PATTERN; n];
    let mut k: usize = 0;
    while k < accepts.len()
        invariant
            acc@.len() == word.len(),
            pats.len() <= u32::MAX,
            k <= accepts@.len(),
            forall|k2: int| 0 <= k2 < accepts@.len() ==> {
                &&& (#[trigger] accepts@[k2].0 as nat) < word.len()
                &&& (accepts@[k2].1 as nat) < pats.len()
                &&& word[accepts@[k2].0 as int] == pats[accepts@[k2].1 as int]
                &&& pats[accepts@[k2].1 as int].len() > 0
            },
            forall|s: int| 0 <= s < word.len() ==> #[trigger] acc@[s] == NO_PATTERN
                || ((acc@[s] as nat) < pats.len() && word[s] == pats[acc@[s] as int] && pats[acc@[s] as int].len() > 0),
            forall|k2: int| 0 <= k2 < k ==> acc@[#[trigger] accepts@[k2].0 as int] != NO_PATTERN,
            forall|s: int| 0 <= s < word.len() ==> #[trigger] acc@[s] == first_pattern(accepts@.take(k as int), s),
        decreases accepts@.len() - k,
    {
        let (state, pid) = accepts[k];
        let ghost a0 = accepts@.take(k as int);
        let ghost old_acc = acc@;
        if acc[state as usize] == NO_PATTERN {
            acc.set(state as usize, pid);
        }
        proof {
            assert(accepts@.take(k + 1) =~= a0.push(accepts@[k as int]));
            assert forall|k2: int| 0 <= k2 < a0.len() implies #[trigger] a0[k2].1 != NO_PATTERN by {
                assert(a0[k2] == accepts@[k2]);
                assert((accepts@[k2].0 as nat) < word.len());
            }
            assert forall|s: int| 0 <= s < word.len() implies #[trigger] acc@[s] == first_pattern(accepts@.take(k + 1), s) by {
                lemma_first_pattern_push(a0, accepts@[k as int], s);
                assert(old_acc[s] == first_pattern(a0, s));
            }
        }
        k += 1;
    }
    proof {
        assert(accepts@.take(k as int) =~= accepts@);
    }
    let ghost own = acc@;
    // breadth-first search
    let mut queue: Vec<u32> = Vec::new();
    let ghost mut seen: Set<int> = Set::empty();
    proof {
        vstd::set_lib::lemma_int_range(1, n as int);
    }
    let mut byte: usize = 0;
    while byte < 256
        invariant
            trie_ok(trans@, word),
            n == word.len(),
            tlen == trans@.len(),
            fail_ok(fail@, word),
            byte <= 256,
            forall|i: int| 0 <= i < queue@.len() ==> 0 < #[trigger] queue@[i] && (queue@[i] as nat) < n,
            forall|i: int| 0 <= i < queue@.len() ==> word[#[trigger] queue@[i] as int].len() == 1
                && word[queue@[i] as int][0] < byte,
            forall|i: int, j: int| 0 <= i < j < queue@.len() ==> #[trigger] queue@[i] != #[trigger] queue@[j],
            seen.finite(),
            seen.len() == queue@.len(),
            forall|i: int| 0 <= i < queue@.len() ==> seen.contains(#[trigger] queue@[i] as int),
            forall|x: int| #[trigger] seen.contains(x) ==> 0 < x < n && exists|i: int| 0 <= i < queue@.len() && queue@[i] as int == x,
            set_int_range(1, n as int).finite(),
            links_final(fail@, word, seen),
            children_seen(trans@, 0, byte as int, seen),
        decreases 256 - byte,
    {
        proof {
            lemma_edge_index(n as int, 0, byte as int);
            assert(edge_ok(trans@, word, 0, byte as int));
        }
        let next = trans[byte];
        if next != 0 {
            proof {
                assert(word[0] =~= Seq::<u8>::empty());
                assert(word[next as int] =~= seq![byte as u8]);
                assert forall|i: int| 0 <= i < queue@.len() implies #[trigger] queue@[i] != next by {
                    assert(word[queue@[i] as int][0] < byte);
                }
                assert(!seen.contains(next as int));
            }
            let ghost old_fail = fail@;
            let ghost old_queue = queue@;
            let ghost old_seen = seen;
            fail.set(next as usize, 0);
            queue.push(next);
            proof {
                seen = seen.insert(next as int);
                assert forall|x: int| 0 <= x < word.len() implies #[trigger] fail_entry_ok(fail@, word, x) by {
                    if x == next {
                        lemma_suffix_empty(word[next as int]);
                    } else {
                        assert(fail_entry_ok(old_fail, word, x));
                    }
                }
                assert forall|x: int| #[trigger] seen.contains(x) implies 0 < x < n && exists|i: int| 0 <= i < queue@.len() && queue@[i] as int == x by {
                    if x == next {
                        assert(queue@[old_queue.len() as int] == next);
                    } else {
                        let i = choose|i: int| 0 <= i < old_queue.len() && old_queue[i] as int == x;
                        assert(queue@[i] == old_queue[i]);
                    }
                }
                assert forall|x: int| #[trigger] seen.contains(x) implies fail_longest(fail@, word, x)
                    && (fail@[x] == 0 || seen.contains(fail@[x] as int)) by {
                    if x != next {
                        assert(old_seen.contains(x));
                        assert(fail@[x] == old_fail[x]);
                    }
                }
                assert forall|b: int| 0 <= b < byte + 1 implies #[trigger] edge(trans@, 0, b) == 0
                    || seen.contains(edge(trans@, 0, b) as int) by {
                    if b < byte {
                        assert(children_seen(trans@, 0, byte as int, old_seen));
                    }
                }
            }
        }
        byte += 1;
    }
    let mut head: usize = 0;
    while head < queue.len()
        invariant
            trie_ok(trans@, word),
            n == word.len(),
            tlen == trans@.len(),
            fail_ok(fail@, word),
            head <= queue@.len(),
            forall|i: int| 0 <= i < queue@.len() ==> 0 < #[trigger] queue@[i] && (queue@[i] as nat) < n,
            forall|i: int, j: int| 0 <= i < j < queue@.len() ==> #[trigger] queue@[i] != #[trigger] queue@[j],
            seen.finite(),
            seen.len() == queue@.len(),
            forall|i: int| 0 <= i < queue@.len() ==> seen.contains(#[trigger] queue@[i] as int),
            forall|x: int| #[trigger] seen.contains(x) ==> 0 < x < n && exists|i: int| 0 <= i < queue@.len() && queue@[i] as int == x,
            set_int_range(1, n as int).finite(),
            forall|i: int| 0 <= i < queue@.len() ==> word[#[trigger] queue@[i] as int].len() == 1
                || exists|j: int| 0 <= j < head && word[queue@[j] as int] == word[queue@[i] as int].drop_last(),
            links_final(fail@, word, seen),
            children_seen(trans@, 0, 256, seen),
            forall|i: int| 0 <= i < head ==> #[trigger] children_seen(trans@, queue@[i] as int, 256, seen),
            forall|i: int, j: int| 0 <= i < j < queue@.len() ==> word[#[trigger] queue@[i] as int].len() <= word[#[trigger] queue@[j] as int].len(),
            head < queue@.len() ==> forall|i: int| 0 <= i < queue@.len() ==> word[#[trigger] queue@[i] as int].len() <= word[queue@[head as int] as int].len() + 1,
        decreases n - head,
    {
        proof {
            vstd::set_lib::lemma_int_range(1, n as int);
            vstd::set_lib::lemma_len_subset(seen, set_int_range(1, n as int));
        }
        let state = queue[head];
        head += 1;
        let round_start = queue.len();
        proof {
            lemma_node_nonempty(trans@, word, state as int);
        }
        let mut byte: usize = 0;
        while byte < 256
            invariant
                trie_ok(trans@, word),
                n == word.len(),
                tlen == trans@.len(),
                fail_ok(fail@, word),
                1 <= head <= round_start <= queue@.len(),
                state == queue@[head - 1],
                0 < state,
                (state as nat) < n,
                word[state as int].len() > 0,
                byte <= 256,
                forall|i: int| 0 <= i < queue@.len() ==> 0 < #[trigger] queue@[i] && (queue@[i] as nat) < n,
                forall|i: int, j: int| 0 <= i < j < queue@.len() ==> #[trigger] queue@[i] != #[trigger] queue@[j],
                seen.finite(),
                seen.len() == queue@.len(),
                forall|i: int| 0 <= i < queue@.len() ==> seen.contains(#[trigger] queue@[i] as int),
                forall|x: int| #[trigger] seen.contains(x) ==> 0 < x < n && exists|i: int| 0 <= i < queue@.len() && queue@[i] as int == x,
                set_int_range(1, n as int).finite(),
                set_int_range(1, n as int).len() == n - 1,
                forall|i: int| 0 <= i < round_start ==> word[#[trigger] queue@[i] as int].len() == 1
                    || exists|j: int| 0 <= j < head - 1 && word[queue@[j] as int] == word[queue@[i] as int].drop_last(),
                forall|i: int| round_start <= i < queue@.len() ==> word[#[trigger] queue@[i] as int].drop_last() == word[state as int]
                    && word[queue@[i] as int].last() < byte,
                links_final(fail@, word, seen),
                children_seen(trans@, 0, 256, seen),
                forall|i: int| 0 <= i < head - 1 ==> #[trigger] children_seen(trans@, queue@[i] as int, 256, seen),
                children_seen(trans@, state as int, byte as int, seen),
                forall|i: int, j: int| 0 <= i < j < queue@.len() ==> word[#[trigger] queue@[i] as int].len() <= word[#[trigger] queue@[j] as int].len(),
                forall|i: int| 0 <= i < queue@.len() ==> word[#[trigger] queue@[i] as int].len() <= word[state as int].len() + 1,
            decreases 256 - byte,
        {
            proof {
                lemma_edge_index(n as int, state as int, byte as int);
                assert(edge_ok(trans@, word, state as int, byte as int));
            }
            let next = trans[state as usize * 256 + byte];
            if next != 0 {
                let ghost w = word[next as int];
                proof {
                    assert(w == word[state as int].push(byte as u8));
                    assert(w.drop_last() =~= word[state as int]);
                    assert(w.last() == byte as u8);
                    assert forall|i: int| 0 <= i < queue@.len() implies #[trigger] queue@[i] != next by {
                        if queue@[i] == next {
                            if i < round_start {
                                if word[queue@[i] as int].len() != 1 {
                                    let j = choose|j: int| 0 <= j < head - 1 && word[queue@[j] as int] == word[queue@[i] as int].drop_last();
                                    assert(word[queue@[j] as int] == word[state as int]);
                                    assert(queue@[j] == state);
                                }
                            }
                        }
                    }
                    assert(!seen.contains(next as int));
                    vstd::set_lib::lemma_len_subset(seen.insert(next as int), set_int_range(1, n as int));
                    assert(fail_entry_ok(fail@, word, state as int));
                    assert(seen.contains(state as int));
                }
                // the longest suffix of the parent's string that has an edge on this byte
                let mut f: u32 = fail[state as usize];
                while f != 0 && trans[f as usize * 256 + byte] == 0
                    invariant
                        trie_ok(trans@, word),
                        n == word.len(),
                        tlen == trans@.len(),
                        fail_ok(fail@, word),
                        links_final(fail@, word, seen),
                        (f as nat) < n,
                        (state as nat) < n,
                        byte < 256,
                        f == 0 || seen.contains(f as int),
                        is_suffix(word[f as int], word[state as int]),
                        word[f as int].len() < word[state as int].len(),
                        forall|z: int| 0 <= z < n && #[trigger] is_suffix(word[z], word[state as int])
                            && word[f as int].len() < word[z].len() < word[state as int].len()
                            ==> edge(trans@, z, byte as int) == 0,
                    decreases word[f as int].len(),
                {
                    proof {
                        lemma_edge_index(n as int, f as int, byte as int);
                        assert(fail_entry_ok(fail@, word, f as int));
                        lemma_suffix_trans(word[fail@[f as int] as int], word[f as int], word[state as int]);
                        assert(seen.contains(f as int));
                        lemma_fail_walk_step(trans@, word, fail@, state as int, f as int, byte as int, word[state as int].len() as int);
                    }
                    f = fail[f as usize];
                }
                proof {
                    lemma_edge_index(n as int, f as int, byte as int);
                    assert(edge_ok(trans@, word, f as int, byte as int));
                }
                let nf = trans[f as usize * 256 + byte];
                proof {
                    lemma_fail_walk_end(trans@, word, state as int, f as int, byte as int, word[state as int].len() as int);
                    // the new link is the root or a node already seen
                    if nf != 0 {
                        if f == 0 {
                            assert(children_seen(trans@, 0, 256, seen));
                            assert(seen.contains(nf as int));
                        } else {
                            let i = choose|i: int| 0 <= i < queue@.len() && queue@[i] as int == f as int;
                            if i >= head - 1 {
                                if i > head - 1 {
                                    assert(word[queue@[head - 1] as int].len() <= word[queue@[i] as int].len());
                                }
                                assert(false);
                            }
                            assert(children_seen(trans@, queue@[i] as int, 256, seen));
                            assert(seen.contains(nf as int));
                        }
                    }
                }
                let ghost old_fail = fail@;
                fail.set(next as usize, nf);
                let ghost old_queue = queue@;
                let ghost old_seen = seen;
                queue.push(next);
                proof {
                    seen = seen.insert(next as int);
                    assert forall|x: int| 0 <= x < word.len() implies #[trigger] fail_entry_ok(fail@, word, x) by {
                        if x == next {
                            if nf != 0 {
                                lemma_suffix_push(word[f as int], word[state as int], byte as u8);
                            } else {
                                assert(word[0] =~= Seq::<u8>::empty());
                                lemma_suffix_empty(word[x]);
                            }
                        } else {
                            assert(fail_entry_ok(old_fail, word, x));
                        }
                    }
                    assert forall|x: int| #[trigger] seen.contains(x) implies 0 < x < n && exists|i: int| 0 <= i < queue@.len() && queue@[i] as int == x by {
                        if x == next {
                            assert(queue@[old_queue.len() as int] == next);
                        } else {
                            let i = choose|i: int| 0 <= i < old_queue.len() && old_queue[i] as int == x;
                            assert(queue@[i] == old_queue[i]);
                        }
                    }
                    assert forall|i: int| 0 <= i < round_start implies word[#[trigger] queue@[i] as int].len() == 1
                        || exists|j: int| 0 <= j < head - 1 && word[queue@[j] as int] == word[queue@[i] as int].drop_last() by {
                        assert(queue@[i] == old_queue[i]);
                        if word[old_queue[i] as int].len() != 1 {
                            let j = choose|j: int| 0 <= j < head - 1 && word[old_queue[j] as int] == word[old_queue[i] as int].drop_last();
                            assert(queue@[j] == old_queue[j]);
                        }
                    }
                    assert forall|x: int| #[trigger] seen.contains(x) implies fail_longest(fail@, word, x)
                        && (fail@[x] == 0 || seen.contains(fail@[x] as int)) by {
                        if x != next {
                            assert(old_seen.contains(x));
                            assert(fail@[x] == old_fail[x]);
                        }
                    }
                    assert forall|i: int| 0 <= i < head - 1 implies #[trigger] children_seen(trans@, queue@[i] as int, 256, seen) by {
                        assert(queue@[i] == old_queue[i]);
                        assert(children_seen(trans@, old_queue[i] as int, 256, old_seen));
                    }
                    assert forall|b: int| 0 <= b < byte + 1 implies #[trigger] edge(trans@, state as int, b) == 0
                        || seen.contains(edge(trans@, state as int, b) as int) by {
                        if b < byte {
                            assert(children_seen(trans@, state as int, byte as int, old_seen));
                        }
                    }
                    assert forall|i: int, j: int| 0 <= i < j < queue@.len() implies word[#[trigger] queue@[i] as int].len()
                        <= word[#[trigger] queue@[j] as int].len() by {
                        if j < old_queue.len() {
                            assert(queue@[i] == old_queue[i] && queue@[j] == old_queue[j]);
                        } else {
                            assert(queue@[i] == old_queue[i]);
                        }
                    }
                    assert forall|i: int| 0 <= i < queue@.len() implies word[#[trigger] queue@[i] as int].len() <= word[state as int].len() + 1 by {
                        if i < old_queue.len() {
                            assert(queue@[i] == old_queue[i]);
                        }
                    }
                }
            }
            byte += 1;
        }
        proof {
            assert forall|i: int| 0 <= i < queue@.len() implies word[#[trigger] queue@[i] as int].len() == 1
                || exists|j: int| 0 <= j < head && word[queue@[j] as int] == word[queue@[i] as int].drop_last() by {
                if i >= round_start {
                    assert(word[queue@[head - 1] as int] == word[queue@[i] as int].drop_last());
                }
            }
            if head < queue@.len() {
                assert(word[queue@[head - 1] as int].len() <= word[queue@[head as int] as int].len());
            }
        }
    }
    proof {
        assert forall|x: int| 0 <= x < n implies #[trigger] fail_longest(fail@, word, x) by {
            if x > 0 {
                lemma_bfs_complete(trans@, word, queue@, seen, x);
            }
        }
    }
    // per node, the nearest failure ancestor with a pattern of its own: the
    // output link of a node with a pattern, and the pattern of one without
    proof {
        assert(word[0].len() == 0);
        if own[0] != NO_PATTERN {
            assert(word[0] == pats[own[0] as int]);
        }
    }
    let mut output_link: Vec<u32> = vec![NO_PATTERN; n];
    let mut final_accepts: Vec<(u32, u32)> = Vec::new();
    let mut state: usize = 0;
    while state < n
        invariant
            trie_ok(trans@, word),
            n == word.len(),
            n <= u32::MAX,
            fail_ok(fail@, word),
            forall|x: int| 0 <= x < n ==> #[trigger] fail_longest(fail@, word, x),
            acc@ == own,
            own.len() == n,
            forall|s: int| 0 <= s < n ==> #[trigger] own[s] == first_pattern(accepts@, s),
            forall|s: int| 0 <= s < word.len() ==> #[trigger] own[s] == NO_PATTERN
                || ((own[s] as nat) < pats.len() && word[s] == pats[own[s] as int] && pats[own[s] as int].len() > 0),
            own[0] == NO_PATTERN,
            pats.len() <= u32::MAX,
            output_link@.len() == n,
            state <= n,
            forall|s: int| 0 <= s < state ==> #[trigger] literal_link(output_link@, accepts@, word, s),
            forall|s: int| state <= s < n ==> #[trigger] output_link@[s] == NO_PATTERN,
            forall|s: int| 0 <= s < n ==> #[trigger] pattern_of_state(final_accepts@, s)
                == if s < state { literal_accept(accepts@, word, s) } else { NO_PATTERN },
            forall|k: int| 0 <= k < final_accepts@.len() ==> (#[trigger] final_accepts@[k].0 as nat) < state
                && (final_accepts@[k].1 as nat) < pats.len(),
            forall|i: int, j: int| 0 <= i < j < final_accepts@.len() ==> #[trigger] final_accepts@[i].0 < #[trigger] final_accepts@[j].0,
        decreases n - state,
    {
        proof {
            assert(fail_entry_ok(fail@, word, state as int));
            assert(fail_longest(fail@, word, state as int));
        }
        let mut f: u32 = fail[state];
        let mut near: u32 = NO_PATTERN;
        while f != 0
            invariant_except_break
                near == NO_PATTERN,
            invariant
                trie_ok(trans@, word),
                n == word.len(),
                fail_ok(fail@, word),
                forall|x: int| 0 <= x < n ==> #[trigger] fail_longest(fail@, word, x),
                acc@ == own,
                own.len() == n,
                forall|s: int| 0 <= s < n ==> #[trigger] own[s] == first_pattern(accepts@, s),
                state < n,
                n <= u32::MAX,
                (f as nat) < n,
                is_suffix(word[f as int], word[state as int]),
                f != 0 ==> word[f as int].len() < word[state as int].len(),
                forall|y: int| 0 <= y < n && first_pattern(accepts@, y) != NO_PATTERN && #[trigger] is_suffix(word[y], word[state as int])
                    && word[f as int].len() < word[y].len() < word[state as int].len() ==> false,
            ensures
                near == NO_PATTERN ==> f == 0,
                forall|y: int| 0 <= y < n && first_pattern(accepts@, y) != NO_PATTERN && #[trigger] is_suffix(word[y], word[state as int])
                    && word[f as int].len() < word[y].len() < word[state as int].len() ==> false,
                near != NO_PATTERN ==> nearest_owner(accepts@, word, state as int, near as int),
            decreases word[f as int].len(),
        {
            if acc[f as usize] != NO_PATTERN {
                near = f;
                proof {
                    assert(own[f as int] == first_pattern(accepts@, f as int));
                }
                break;
            }
            proof {
                assert(fail_entry_ok(fail@, word, f as int));
                lemma_suffix_trans(word[fail@[f as int] as int], word[f as int], word[state as int]);
                assert(own[f as int] == first_pattern(accepts@, f as int));
                lemma_owner_walk_step(trans@, word, fail@, accepts@, state as int, f as int);
            }
            f = fail[f as usize];
        }
        proof {
            if near == NO_PATTERN {
                assert forall|z: int| !nearest_owner(accepts@, word, state as int, z) by {
                    if nearest_owner(accepts@, word, state as int, z) {
                        if word[z].len() == 0 {
                            assert(word[z] =~= word[0]);
                            assert(z == 0);
                            assert(own[0] == first_pattern(accepts@, 0));
                        }
                        assert(is_suffix(word[z], word[state as int]));
                    }
                }
            } else {
                assert(own[near as int] == first_pattern(accepts@, near as int));
                assert forall|z: int| nearest_owner(accepts@, word, state as int, z) implies z == near by {
                    lemma_nearest_owner_unique(trans@, accepts@, word, state as int, z, near as int);
                }
            }
            assert(own[state as int] == first_pattern(accepts@, state as int));
        }
        let own_s = acc[state];
        let ghost old_links = output_link@;
        if own_s != NO_PATTERN {
            output_link.set(state, near);
        }
        let pid: u32 = if own_s != NO_PATTERN {
            own_s
        } else if near != NO_PATTERN {
            acc[near as usize]
        } else {
            NO_PATTERN
        };
        proof {
            assert(pid == literal_accept(accepts@, word, state as int));
            assert(literal_link(output_link@, accepts@, word, state as int));
            assert forall|s: int| 0 <= s < state implies #[trigger] literal_link(output_link@, accepts@, word, s) by {
                assert(output_link@[s] == old_links[s]);
                assert(literal_link(old_links, accepts@, word, s));
            }
        }
        if pid != NO_PATTERN {
            let ghost old_fa = final_accepts@;
            final_accepts.push((state as u32, pid));
            proof {
                assert forall|s: int| 0 <= s < n implies #[trigger] pattern_of_state(final_accepts@, s)
                    == if s < state + 1 { literal_accept(accepts@, word, s) } else { NO_PATTERN } by {
                    lemma_pattern_of_state_push(old_fa, (state as u32, pid), s);
                }
            }
        }
        state += 1;
    }
    proof {
        assert forall|s: int| 0 <= s < n implies #[trigger] link_ok(output_link@, final_accepts@, word, s) by {
            assert(literal_link(output_link@, accepts@, word, s));
            if output_link@[s] != NO_PATTERN {
                let l = output_link@[s] as int;
                assert(nearest_owner(accepts@, word, s, l));
                assert(own[l] == first_pattern(accepts@, l));
                assert(own[s] == first_pattern(accepts@, s));
                assert(pattern_of_state(final_accepts@, l) == literal_accept(accepts@, word, l));
            }
        }
        assert forall|s: int| 0 <= s < n implies pattern_ends(#[trigger] pattern_of_state(final_accepts@, s), pats, word[s])
            && (pattern_of_state(final_accepts@, s) != NO_PATTERN ==> pats[pattern_of_state(final_accepts@, s) as int].len() > 0) by {
            assert(pattern_of_state(final_accepts@, s) == literal_accept(accepts@, word, s));
            assert(own[s] == first_pattern(accepts@, s));
            if own[s] != NO_PATTERN {
                lemma_suffix_refl(word[s]);
            } else if exists|z: int| nearest_owner(accepts@, word, s, z) {
                let z = choose|z: int| nearest_owner(accepts@, word, s, z);
                assert(own[z] == first_pattern(accepts@, z));
                assert(word[z] == pats[own[z] as int]);
            }
        }
        assert forall|s: int| 0 <= s < word.len() && #[trigger] pattern_of_state(final_accepts@, s) != NO_PATTERN
            implies pats[pattern_of_state(final_accepts@, s) as int].len() > 0 by {
            assert(pattern_ends(pattern_of_state(final_accepts@, s), pats, word[s]));
        }
        assert forall|k: int| 0 <= k < accepts@.len() implies {
            let a = pattern_of_state(final_accepts@, #[trigger] accepts@[k].0 as int);
            a != NO_PATTERN && pats[a as int] == word[accepts@[k].0 as int]
        } by {
            let s = accepts@[k].0 as int;
            assert(own[s] != NO_PATTERN);
            assert(own[s] == first_pattern(accepts@, s));
            assert(pattern_of_state(final_accepts@, s) == literal_accept(accepts@, word, s));
        }
    }
    (fail, final_accepts, output_link)
}


/// Entry `s * 256 + b` of a dense table over the trie names the node whose
/// string is the longest suffix of `word[s] + b` that is a node: the trie
/// edge where there is one, else what the failure link of `s` leads to on
/// `b`, else the root.
pub open spec fn dense_ok(transitions: Seq<u32>, trans: Seq<u32>, word: Seq<Seq<u8>>, s: int, b: int) -> bool {
    let x = transitions[s * 256 + b];
    &&& (x as nat) < word.len()
    &&& is_suffix(word[x as int], word[s].push(b as u8))
    &&& forall|z: int| 0 <= z < word.len() && #[trigger] is_suffix(word[z], word[s].push(b as u8))
        ==> word[z].len() <= word[x as int].len()
    &&& edge(trans, s, b) != 0 ==> x == edge(trans, s, b)
}

/// A node's string is no longer than its number.
proof fn lemma_depth_bound(trans: Seq<u32>, word: Seq<Seq<u8>>, z: int)
    requires
        trie_ok(trans, word),
        0 <= z < word.len(),
    ensures
        word[z].len() <= z,
    decreases z,
{
    if z > 0 {
        assert(has_parent(trans, word, z));
        let p = choose|p: int| 0 <= p < z && #[trigger] word[p] == word[z].drop_last() && edge(trans, p, word[z].last() as int) == z;
        lemma_depth_bound(trans, word, p);
    }
}

/// The byte-indexed table of the trie: where a node has no edge on a byte,
/// follow failure links until one has, or the root is reached. Then the
/// accept entries and the pattern lengths.
fn build_dense_table(
    trans: &Vec<u32>,
    state_count: usize,
    fail: &Vec<u32>,
    accepts: Vec<(u32, u32)>,
    lengths: Vec<u32>,
    Ghost(word): Ghost<Seq<Seq<u8>>>,
) -> (r: Result<TransitionTable, Error>)
    requires
        trie_ok(trans@, word),
        fail_ok(fail@, word),
        forall|x: int| 0 <= x < word.len() ==> #[trigger] fail_longest(fail@, word, x),
        state_count == word.len(),
        lengths@.len() <= u32::MAX,
        forall|k: int| 0 <= k < accepts@.len() ==> (#[trigger] accepts@[k].1 as nat) < lengths@.len(),
    ensures
        state_count > MAX_STATES ==> (r matches Err(e) && e@ == ErrorView::TooManyStates(state_count, MAX_STATES)),
        state_count <= MAX_STATES ==> (r matches Ok(t) && {
            &&& t@.state_count == state_count
            &&& t@.class_count == 256
            &&& t@.transitions.len() == state_count * 256
            &&& forall|s: int, b: int| 0 <= s < state_count && 0 <= b < 256 ==> #[trigger] dense_ok(t@.transitions, trans@, word, s, b)
            &&& t@.accept_states == accepts@
            &&& t@.pattern_lengths == lengths@
        }),
{
    let n = state_count;
    let mut table = match TransitionTable::new(n, 256) {
        Ok(t) => t,
        Err(e) => {
            return Err(e);
        },
    };
    let tlen = trans.len();
    let mut state: usize = 0;
    while state < n
        invariant
            trie_ok(trans@, word),
            fail_ok(fail@, word),
            forall|x: int| 0 <= x < word.len() ==> #[trigger] fail_longest(fail@, word, x),
            n == word.len(),
            n <= MAX_STATES,
            tlen == trans@.len(),
            state <= n,
            table@.state_count == n,
            table@.class_count == 256,
            table@.transitions.len() == n * 256,
            table@.accept_states == Seq::<(u32, u32)>::empty(),
            table@.pattern_lengths == Seq::<u32>::empty(),
            forall|s: int, b: int| 0 <= s < state && 0 <= b < 256 ==> #[trigger] dense_ok(table@.transitions, trans@, word, s, b),
        decreases n - state,
    {
        let mut byte: usize = 0;
        while byte < 256
            invariant
                trie_ok(trans@, word),
                fail_ok(fail@, word),
                forall|x: int| 0 <= x < word.len() ==> #[trigger] fail_longest(fail@, word, x),
                n == word.len(),
                n <= MAX_STATES,
                tlen == trans@.len(),
                state < n,
                byte <= 256,
                table@.state_count == n,
                table@.class_count == 256,
                table@.transitions.len() == n * 256,
                table@.accept_states == Seq::<(u32, u32)>::empty(),
                table@.pattern_lengths == Seq::<u32>::empty(),
                forall|s: int, b: int| 0 <= s < state && 0 <= b < 256 ==> #[trigger] dense_ok(table@.transitions, trans@, word, s, b),
                forall|b: int| 0 <= b < byte ==> #[trigger] dense_ok(table@.transitions, trans@, word, state as int, b),
            decreases 256 - byte,
        {
            let mut current: u32 = state as u32;
            proof {
                lemma_suffix_refl(word[state as int]);
            }
            loop
                invariant
                    trie_ok(trans@, word),
                    fail_ok(fail@, word),
                    n == word.len(),
                    tlen == trans@.len(),
                    state < n,
                    byte < 256,
                    (current as nat) < n,
                    is_suffix(word[current as int], word[state as int]),
                    current == state || edge(trans@, state as int, byte as int) == 0,
                    forall|x: int| 0 <= x < word.len() ==> #[trigger] fail_longest(fail@, word, x),
                    forall|z: int| 0 <= z < n && #[trigger] is_suffix(word[z], word[state as int])
                        && word[current as int].len() < word[z].len() < word[state as int].len() + 1 ==> edge(trans@, z, byte as int) == 0,
                    table@.state_count == n,
                    table@.class_count == 256,
                    table@.transitions.len() == n * 256,
                    table@.accept_states == Seq::<(u32, u32)>::empty(),
                    table@.pattern_lengths == Seq::<u32>::empty(),
                    forall|s: int, b: int| 0 <= s < state && 0 <= b < 256 ==> #[trigger] dense_ok(table@.transitions, trans@, word, s, b),
                    forall|b: int| 0 <= b < byte ==> #[trigger] dense_ok(table@.transitions, trans@, word, state as int, b),
                ensures
                    table@.state_count == n,
                    table@.class_count == 256,
                    table@.transitions.len() == n * 256,
                    table@.accept_states == Seq::<(u32, u32)>::empty(),
                    table@.pattern_lengths == Seq::<u32>::empty(),
                    forall|s: int, b: int| 0 <= s < state && 0 <= b < 256 ==> #[trigger] dense_ok(table@.transitions, trans@, word, s, b),
                    forall|b: int| 0 <= b < byte + 1 ==> #[trigger] dense_ok(table@.transitions, trans@, word, state as int, b),
                decreases word[current as int].len(),
            {
                proof {
                    lemma_edge_index(n as int, current as int, byte as int);
                    assert(edge_ok(trans@, word, current as int, byte as int));
                }
                let next = trans[current as usize * 256 + byte];
                if next != 0 || current == 0 {
                    let ghost before = table@.transitions;
                    proof {
                        lemma_edge_index(n as int, state as int, byte as int);
                        lemma_fail_walk_end(trans@, word, state as int, current as int, byte as int, word[state as int].len() as int + 1);
                    }
                    table.set_transition(state, byte as u8, next);
                    proof {
                        if next != 0 {
                            lemma_suffix_push(word[current as int], word[state as int], byte as u8);
                        } else {
                            assert(word[0] =~= Seq::<u8>::empty());
                            lemma_suffix_empty(word[state as int].push(byte as u8));
                        }
                        assert(dense_ok(table@.transitions, trans@, word, state as int, byte as int));
                        assert forall|s: int, b: int| 0 <= s < state && 0 <= b < 256 implies #[trigger] dense_ok(table@.transitions, trans@, word, s, b) by {
                            assert(s * 256 + b != state * 256 + byte);
                            assert(dense_ok(before, trans@, word, s, b));
                        }
                        assert forall|b: int| 0 <= b < byte implies #[trigger] dense_ok(table@.transitions, trans@, word, state as int, b) by {
                            assert(dense_ok(before, trans@, word, state as int, b));
                        }
                    }
                    break;
                }
                proof {
                    assert(fail_entry_ok(fail@, word, current as int));
                    lemma_suffix_trans(word[fail@[current as int] as int], word[current as int], word[state as int]);
                    assert(fail_longest(fail@, word, current as int));
                    lemma_fail_walk_step(trans@, word, fail@, state as int, current as int, byte as int, word[state as int].len() as int + 1);
                }
                current = fail[current as usize];
            }
            byte += 1;
        }
        state += 1;
    }
    let mut k: usize = 0;
    while k < accepts.len()
        invariant
            k <= accepts@.len(),
            lengths@.len() <= u32::MAX,
            forall|k2: int| 0 <= k2 < accepts@.len() ==> (#[trigger] accepts@[k2].1 as nat) < lengths@.len(),
            table@.state_count == n,
            table@.class_count == 256,
            table@.transitions.len() == n * 256,
            forall|s: int, b: int| 0 <= s < n && 0 <= b < 256 ==> #[trigger] dense_ok(table@.transitions, trans@, word, s, b),
            table@.accept_states == accepts@.take(k as int),
            table@.pattern_lengths.len() <= lengths@.len(),
            forall|i: int| 0 <= i < table@.pattern_lengths.len() ==> #[trigger] table@.pattern_lengths[i] == 0,
        decreases accepts@.len() - k,
    {
        let (state, pid) = accepts[k];
        table.add_accept(state, pid);
        proof {
            assert(accepts@.take(k + 1) =~= accepts@.take(k as int).push((state, pid)));
        }
        k += 1;
    }
    proof {
        assert(accepts@.take(k as int) =~= accepts@);
    }
    let ghost l0 = table@.pattern_lengths.len();
    let mut pid: usize = 0;
    while pid < lengths.len()
        invariant
            pid <= lengths@.len(),
            lengths@.len() <= u32::MAX,
            l0 <= lengths@.len(),
            table@.state_count == n,
            table@.class_count == 256,
            table@.transitions.len() == n * 256,
            forall|s: int, b: int| 0 <= s < n && 0 <= b < 256 ==> #[trigger] dense_ok(table@.transitions, trans@, word, s, b),
            table@.accept_states == accepts@,
            table@.pattern_lengths.len() == if pid <= l0 { l0 } else { pid as nat },
            forall|i: int| 0 <= i < pid ==> #[trigger] table@.pattern_lengths[i] == lengths@[i],
            forall|i: int| pid <= i < table@.pattern_lengths.len() ==> #[trigger] table@.pattern_lengths[i] == 0,
        decreases lengths@.len() - pid,
    {
        table.set_pattern_length(pid as u32, lengths[pid]);
        pid += 1;
    }
    proof {
        assert(table@.pattern_lengths =~= lengths@);
    }
    Ok(table)
}


/// The accept entries of the trie: one per nonempty pattern, in pattern
/// order, each naming the node of its pattern.
spec fn trie_accepts_ok(ta: Seq<(u32, u32)>, word: Seq<Seq<u8>>, pats: Seq<Seq<u8>>) -> bool {
    &&& pats.len() <= u32::MAX
    &&& forall|k: int| 0 <= k < ta.len() ==> {
        &&& (#[trigger] ta[k].0 as nat) < word.len()
        &&& (ta[k].1 as nat) < pats.len()
        &&& word[ta[k].0 as int] == pats[ta[k].1 as int]
        &&& pats[ta[k].1 as int].len() > 0
    }
    &&& forall|i: int| 0 <= i < pats.len() && pats[i].len() > 0 ==> exists|k: int| 0 <= k < ta.len() && #[trigger] ta[k].1 == i
    &&& forall|i: int, j: int| 0 <= i < j < ta.len() ==> #[trigger] ta[i].1 < #[trigger] ta[j].1
}

/// The first entry naming `x`, if `first_pattern` finds one.
proof fn lemma_first_pattern_spec(a: Seq<(u32, u32)>, x: int)
    requires
        forall|k: int| 0 <= k < a.len() ==> #[trigger] a[k].1 != NO_PATTERN,
    ensures
        first_pattern(a, x) == NO_PATTERN ==> forall|k: int| 0 <= k < a.len() ==> #[trigger] a[k].0 != x,
        first_pattern(a, x) != NO_PATTERN ==> exists|k: int| 0 <= k < a.len() && #[trigger] a[k].0 == x
            && a[k].1 == first_pattern(a, x) && forall|j: int| 0 <= j < k ==> #[trigger] a[j].0 != x,
    decreases a.len(),
{
    if a.len() > 0 {
        let d = a.drop_first();
        assert forall|k: int| 0 <= k < d.len() implies #[trigger] d[k].1 != NO_PATTERN by {
            assert(d[k] == a[k + 1]);
        }
        lemma_first_pattern_spec(d, x);
        if a[0].0 == x {
            assert(a[0].0 == x && a[0].1 == first_pattern(a, x));
        } else {
            if first_pattern(a, x) == NO_PATTERN {
                assert forall|k: int| 0 <= k < a.len() implies #[trigger] a[k].0 != x by {
                    if k > 0 {
                        assert(a[k] == d[k - 1]);
                    }
                }
            } else {
                let k = choose|k: int| 0 <= k < d.len() && #[trigger] d[k].0 == x
                    && d[k].1 == first_pattern(d, x) && forall|j: int| 0 <= j < k ==> #[trigger] d[j].0 != x;
                assert(a[k + 1] == d[k]);
                assert forall|j: int| 0 <= j < k + 1 implies #[trigger] a[j].0 != x by {
                    if j > 0 {
                        assert(a[j] == d[j - 1]);
                    }
                }
            }
        }
    }
}

/// A node has a pattern of its own exactly when its string is a nonempty
/// pattern, and then it is the first pattern equal to that string.
proof fn lemma_own_pattern(trans: Seq<u32>, ta: Seq<(u32, u32)>, word: Seq<Seq<u8>>, pats: Seq<Seq<u8>>, y: int)
    requires
        trie_ok(trans, word),
        trie_accepts_ok(ta, word, pats),
        0 <= y < word.len(),
    ensures
        (first_pattern(ta, y) != NO_PATTERN) == (exists|i: int| 0 <= i < pats.len() && pats[i].len() > 0 && #[trigger] pats[i] == word[y]),
        first_pattern(ta, y) != NO_PATTERN ==> {
            &&& (first_pattern(ta, y) as nat) < pats.len()
            &&& pats[first_pattern(ta, y) as int] == word[y]
            &&& pats[first_pattern(ta, y) as int].len() > 0
            &&& forall|i: int| 0 <= i < first_pattern(ta, y) ==> #[trigger] pats[i] != word[y]
        },
{
    assert forall|k: int| 0 <= k < ta.len() implies #[trigger] ta[k].1 != NO_PATTERN by {
        assert((ta[k].0 as nat) < word.len());
    }
    lemma_first_pattern_spec(ta, y);
    let fp = first_pattern(ta, y);
    if fp != NO_PATTERN {
        let k0 = choose|k: int| 0 <= k < ta.len() && #[trigger] ta[k].0 == y
            && ta[k].1 == fp && forall|j: int| 0 <= j < k ==> #[trigger] ta[j].0 != y;
        assert((ta[k0].0 as nat) < word.len());
        assert forall|i: int| 0 <= i < fp implies #[trigger] pats[i] != word[y] by {
            if pats[i] == word[y] {
                let ki = choose|k: int| 0 <= k < ta.len() && #[trigger] ta[k].1 == i;
                assert((ta[ki].0 as nat) < word.len());
                assert(word[ta[ki].0 as int] == word[y]);
                assert(ta[ki].0 as int == y);
                if ki > k0 {
                    assert(ta[k0].1 < ta[ki].1);
                }
            }
        }
    } else {
        if exists|i: int| 0 <= i < pats.len() && pats[i].len() > 0 && #[trigger] pats[i] == word[y] {
            let i = choose|i: int| 0 <= i < pats.len() && pats[i].len() > 0 && #[trigger] pats[i] == word[y];
            let ki = choose|k: int| 0 <= k < ta.len() && #[trigger] ta[k].1 == i;
            assert((ta[ki].0 as nat) < word.len());
            assert(word[ta[ki].0 as int] == word[y]);
            assert(ta[ki].0 as int == y);
        }
    }
}

/// Every pattern is the string of some node.
proof fn lemma_pattern_node(word: Seq<Seq<u8>>, pats: Seq<Seq<u8>>, i: int) -> (y: int)
    requires
        word.to_set() == pattern_prefixes(pats),
        0 <= i < pats.len(),
    ensures
        0 <= y < word.len(),
        word[y] == pats[i],
{
    assert(pats[i].take(pats[i].len() as int) =~= pats[i]);
    assert(pattern_prefixes(pats).contains(pats[i]));
    assert(word.to_set().contains(pats[i]));
    choose|y: int| 0 <= y < word.len() && word[y] == pats[i]
}

/// Where a node with a pattern of its own has a string that is a proper
/// suffix of `word[s]`, a nearest one exists.
proof fn lemma_nearest_exists(ta: Seq<(u32, u32)>, word: Seq<Seq<u8>>, s: int, y: int)
    requires
        0 <= s < word.len(),
        0 <= y < word.len(),
        first_pattern(ta, y) != NO_PATTERN,
        is_suffix(word[y], word[s]),
        word[y].len() < word[s].len(),
    ensures
        exists|z: int| nearest_owner(ta, word, s, z),
    decreases word[s].len() - word[y].len(),
{
    if !nearest_owner(ta, word, s, y) {
        let y2 = choose|y2: int| !(0 <= y2 < word.len() && first_pattern(ta, y2) != NO_PATTERN
            && #[trigger] is_suffix(word[y2], word[s]) && word[y2].len() < word[s].len() ==> word[y2].len() <= word[y].len());
        lemma_nearest_exists(ta, word, s, y2);
    }
}

/// A shorter suffix of a string that is not the string itself is a proper one.
proof fn lemma_suffix_same_len(a: Seq<u8>, w: Seq<u8>)
    requires
        is_suffix(a, w),
        a.len() == w.len(),
    ensures
        a == w,
{
    assert(w.subrange(0, w.len() as int) =~= w);
}

/// What the trie's entries make a node report, and its output link, in
/// terms of the patterns.
proof fn lemma_reported(trans: Seq<u32>, ta: Seq<(u32, u32)>, word: Seq<Seq<u8>>, pats: Seq<Seq<u8>>, links: Seq<u32>, x: int)
    requires
        trie_ok(trans, word),
        trie_accepts_ok(ta, word, pats),
        word.to_set() == pattern_prefixes(pats),
        0 <= x < word.len(),
        literal_link(links, ta, word, x),
    ensures
        reported_pattern(pats, word[x], literal_accept(ta, word, x)),
        linked_state(pats, word, word[x], links[x]),
{
    let w = word[x];
    lemma_own_pattern(trans, ta, word, pats, x);
    // every nonempty pattern that ends w is a node with a pattern of its own
    assert forall|i: int| 0 <= i < pats.len() && pats[i].len() > 0 && #[trigger] is_suffix(pats[i], w) && pats[i].len() < w.len()
        implies exists|z: int| nearest_owner(ta, word, x, z) by {
        let y = lemma_pattern_node(word, pats, i);
        lemma_own_pattern(trans, ta, word, pats, y);
        lemma_nearest_exists(ta, word, x, y);
    }
    let has_near = exists|z: int| nearest_owner(ta, word, x, z);
    if has_near {
        let z = choose|z: int| nearest_owner(ta, word, x, z);
        lemma_own_pattern(trans, ta, word, pats, z);
        let oz = first_pattern(ta, z);
        assert(pats[oz as int] == word[z]);
        assert(is_suffix(pats[oz as int], w));
        assert forall|i: int| 0 <= i < pats.len() && pats[i].len() > 0 && #[trigger] is_suffix(pats[i], w) && pats[i].len() < w.len()
            implies pats[i].len() <= word[z].len() by {
            let y = lemma_pattern_node(word, pats, i);
            lemma_own_pattern(trans, ta, word, pats, y);
            assert(is_suffix(word[y], word[x]));
        }
        if links[x] != NO_PATTERN {
            let l = links[x] as int;
            lemma_nearest_owner_unique(trans, ta, word, x, l, z);
            assert(pats[oz as int] == word[l]);
        }
    }
    if first_pattern(ta, x) != NO_PATTERN {
        lemma_suffix_refl(w);
        let a = first_pattern(ta, x);
        assert(is_suffix(pats[a as int], w));
    } else {
        // no nonempty pattern equals w, so those that end it are shorter
        assert forall|i: int| 0 <= i < pats.len() && pats[i].len() > 0 && #[trigger] is_suffix(pats[i], w)
            implies pats[i].len() < w.len() by {
            if pats[i].len() == w.len() {
                lemma_suffix_same_len(pats[i], w);
            }
        }
        if has_near {
            let z = choose|z: int| nearest_owner(ta, word, x, z);
            let oz = first_pattern(ta, z);
            assert(literal_accept(ta, word, x) == oz);
            assert(is_suffix(pats[oz as int], w));
        } else {
            assert(literal_accept(ta, word, x) == NO_PATTERN);
        }
    }
}

/// The table and links built from a trie compile, and the program they give
/// has the trie's strings as a suffix model.
proof fn lemma_literal_program(t: TableView, links: Seq<u32>, word: Seq<Seq<u8>>, pats: Seq<Seq<u8>>, trans: Seq<u32>, ta: Seq<(u32, u32)>)
    requires
        trie_ok(trans, word),
        trie_accepts_ok(ta, word, pats),
        forall|s: int| 0 <= s < word.len() ==> #[trigger] pattern_of_state(t.accept_states, s) == literal_accept(ta, word, s),
        forall|s: int| 0 <= s < word.len() ==> #[trigger] literal_link(links, ta, word, s),
        t.state_count == word.len(),
        t.state_count <= MAX_STATES,
        t.class_count == 256,
        t.transitions.len() == t.state_count * 256,
        forall|s: int, b: int| 0 <= s < t.state_count && 0 <= b < 256 ==> #[trigger] dense_ok(t.transitions, trans, word, s, b),
        forall|k: int| 0 <= k < t.accept_states.len() ==> (#[trigger] t.accept_states[k].0 as nat) < word.len()
            && (t.accept_states[k].1 as nat) < pats.len(),
        forall|i: int, j: int| 0 <= i < j < t.accept_states.len() ==> #[trigger] t.accept_states[i].0 < #[trigger] t.accept_states[j].0,
        forall|s: int| 0 <= s < word.len() ==> pattern_ends(#[trigger] pattern_of_state(t.accept_states, s), pats, word[s]),
        t.pattern_lengths.len() == pats.len(),
        forall|i: int| 0 <= i < pats.len() ==> #[trigger] t.pattern_lengths[i] == (pats[i].len() as u32),
        links.len() == word.len(),
        forall|s: int| 0 <= s < word.len() ==> #[trigger] link_ok(links, t.accept_states, word, s),
        word.to_set() == pattern_prefixes(pats),
        forall|x: int, i: int| 0 <= x < word.len() && 0 <= i < pats.len() && pats[i].len() > 0 && #[trigger] word[x] == #[trigger] pats[i]
            ==> pattern_of_state(t.accept_states, x) != NO_PATTERN && pats[pattern_of_state(t.accept_states, x) as int] == word[x],
        forall|x: int| 0 <= x < word.len() && #[trigger] pattern_of_state(t.accept_states, x) != NO_PATTERN
            ==> pats[pattern_of_state(t.accept_states, x) as int].len() > 0,
    ensures
        compile_ready(t, links),
        compile_fault(t, links) is None,
        literal_model(compiled_program(t, links), pats, word),
{
    let n = t.state_count;
    let tr = t.transitions;
    assert forall|i: int| 0 <= i < tr.len() implies (#[trigger] tr[i] as nat) < n by {
        vstd::arithmetic::div_mod::lemma_fundamental_div_mod(i, 256);
        vstd::arithmetic::div_mod::lemma_mod_bound(i, 256);
        let s = i / 256;
        let b = i % 256;
        assert(dense_ok(tr, trans, word, s, b));
    }
    assert forall|x: u32| x < 0x1_0000u32 ==> clean(x) == x && (x & ACCEPT_FLAG) == 0 by {
        assert(x < 0x1_0000u32 ==> x & 0x7FFF_FFFFu32 == x && (x & 0x8000_0000u32) == 0) by (bit_vector);
    }
    assert forall|i: int| 0 <= i < tr.len() implies !transition_refused(#[trigger] tr[i], n, t.accept_states)
        && (clean(tr[i]) as nat) < n by {
        assert((tr[i] as nat) < n);
    }
    lemma_first_refused(tr, n, t.accept_states);
    assert(accepts_ok(t.accept_states, n, t.pattern_lengths.len())) by {
        assert forall|k: int| 0 <= k < t.accept_states.len() implies accept_entry_ok(t.accept_states, k, n, t.pattern_lengths.len()) by {
            assert forall|j: int| 0 <= j < k implies t.accept_states[j].0 != t.accept_states[k].0 by {
                assert(t.accept_states[j].0 < t.accept_states[k].0);
            }
        }
    }
    lemma_first_bad_accept_spec(t.accept_states, n, t.pattern_lengths.len());
    let rank = Seq::new(n, |s: int| word[s].len());
    assert(links_ranked(links, accept_table(t), rank)) by {
        assert forall|s: int| 0 <= s < links.len() implies #[trigger] rank[s] < links.len() by {
            lemma_depth_bound(trans, word, s);
        }
        assert forall|s: int| 0 <= s < links.len() && #[trigger] links[s] != NO_PATTERN implies {
            &&& (links[s] as nat) < links.len()
            &&& accept_table(t)[links[s] as int] != NO_PATTERN
            &&& rank[links[s] as int] < rank[s]
        } by {
            assert(link_ok(links, t.accept_states, word, s));
        }
    }
    assert(compile_ready(t, links));
    crate::codegen::lemma_compiled_program_wf(t, links);
    let p = compiled_program(t, links);
    assert(compiled_links(t, links) == links);
    assert forall|s: u32, b: u8| (s as nat) < n implies is_suffix(word[#[trigger] next_state(p, s, b) as int], word[s as int].push(b)) by {
        lemma_edge_index(n as int, s as int, b as int);
        assert(dense_ok(tr, trans, word, s as int, b as int));
        let x = tr[s * 256 + b];
        assert(next_raw(p, s, b) == x);
        assert(x < 0x1_0000u32);
    }
    assert forall|s: u32, b: u8, z: int| #![trigger next_state(p, s, b), word[z]]
        (s as nat) < n && 0 <= z < n && is_suffix(word[z], word[s as int].push(b))
        implies word[z].len() <= word[next_state(p, s, b) as int].len() by {
        lemma_edge_index(n as int, s as int, b as int);
        assert(dense_ok(tr, trans, word, s as int, b as int));
        let x = tr[s * 256 + b];
        assert(next_raw(p, s, b) == x);
        assert(x < 0x1_0000u32);
    }
    assert forall|s: int| 0 <= s < n && #[trigger] p.accept[s] != NO_PATTERN implies {
        &&& (p.accept[s] as nat) < pats.len()
        &&& is_suffix(pats[p.accept[s] as int], word[s])
        &&& p.pattern_lengths[p.accept[s] as int] as nat == pats[p.accept[s] as int].len()
    } by {
        let a = pattern_of_state(t.accept_states, s);
        assert(p.accept[s] == a);
        assert(pattern_ends(a, pats, word[s]));
        lemma_depth_bound(trans, word, s);
    }
    assert forall|s: int| 0 <= s < n && #[trigger] p.links[s] != NO_PATTERN implies is_suffix(word[p.links[s] as int], word[s]) by {
        assert(link_ok(links, t.accept_states, word, s));
    }
    assert(suffix_model(p, pats, word));
    assert forall|i: int, k: int| 0 <= i < pats.len() && 0 <= k <= pats[i].len()
        implies exists|x: int| 0 <= x < n && word[x] == #[trigger] pats[i].take(k) by {
        assert(pattern_prefixes(pats).contains(pats[i].take(k)));
        assert(word.to_set().contains(pats[i].take(k)));
    }
    assert forall|s: u32, b: u8, x: int| #![trigger next_state(p, s, b), word[x]]
        (s as nat) < n && 0 <= x < n && word[x] == word[s as int].push(b) implies next_state(p, s, b) == x by {
        lemma_edge_index(n as int, s as int, b as int);
        assert(edge_ok(trans, word, s as int, b as int));
        assert(dense_ok(tr, trans, word, s as int, b as int));
        let e = edge(trans, s as int, b as int);
        assert(e != 0);
        assert(word[e as int] == word[x]);
        assert(tr[s * 256 + b] == e);
        assert(next_raw(p, s, b) == e);
        assert(e < 0x1_0000u32);
    }
    assert forall|x: int, i: int| 0 <= x < n && 0 <= i < pats.len() && pats[i].len() > 0 && #[trigger] word[x] == #[trigger] pats[i]
        implies p.accept[x] != NO_PATTERN && pats[p.accept[x] as int] == word[x] by {
        assert(p.accept[x] == pattern_of_state(t.accept_states, x));
    }
    assert forall|x: int| 0 <= x < n && #[trigger] p.accept[x] != NO_PATTERN implies pats[p.accept[x] as int].len() > 0 by {
        assert(p.accept[x] == pattern_of_state(t.accept_states, x));
    }
    assert forall|x: int| 0 <= x < n implies #[trigger] reported_pattern(pats, word[x], p.accept[x])
        && linked_state(pats, word, word[x], p.links[x]) by {
        assert(p.accept[x] == pattern_of_state(t.accept_states, x));
        assert(literal_link(links, ta, word, x));
        lemma_reported(trans, ta, word, pats, links, x);
    }
    assert forall|x: int| 0 <= x < n implies #[trigger] linked_state(pats, word, word[x], p.links[x]) by {
        assert(reported_pattern(pats, word[x], p.accept[x]));
    }
}

impl JitDfa {
    /// Build a JIT DFA from a set of literal patterns.
    ///
    /// Constructs an Aho-Corasick-like DFA where each pattern has its own
    /// accept state, then compiles it to native code. Empty patterns are
    /// skipped; pattern ids are positions in `patterns`.
    ///
    /// # Errors
    ///
    /// [`Error::EmptyDfa`] for an empty pattern list; [`Error::TooManyStates`]
    /// when the trie of the patterns has more than [`MAX_STATES`] nodes.
    pub fn from_patterns(patterns: &[&[u8]]) -> (r: Result<Self, Error>)
        requires
            patterns@.len() <= u32::MAX,
            literal_state_count(pattern_seqs(patterns@)) < u32::MAX,
        ensures
            patterns@.len() == 0 ==> (r matches Err(e) && e@ == ErrorView::EmptyDfa),
            patterns@.len() > 0 ==> (r is Ok <==> literal_state_count(pattern_seqs(patterns@)) <= MAX_STATES),
            patterns@.len() > 0 && literal_state_count(pattern_seqs(patterns@)) > MAX_STATES ==> (r matches Err(e)
                && e@ == ErrorView::TooManyStates(literal_state_count(pattern_seqs(patterns@)) as usize, MAX_STATES)),
            r matches Ok(j) ==> exists|word: Seq<Seq<u8>>| literal_model(j.program(), pattern_seqs(patterns@), word),
            r matches Ok(j) ==> j.program().accept.len() == literal_state_count(pattern_seqs(patterns@)),
            r matches Ok(j) ==> forall|input: Seq<u8>, k: int| input.len() <= u32::MAX && 0 <= k < scan_matches(j.program(), input).len()
                ==> #[trigger] is_occurrence(scan_matches(j.program(), input)[k], pattern_seqs(patterns@), input),
    {
        if patterns.len() == 0 {
            return Err(Error::EmptyDfa);
        }
        let (trans, accepts, lengths, state_count, Ghost(word)) = build_trie(patterns);
        let ghost pats = pattern_seqs(patterns@);
        assert(pats.len() == patterns@.len());
        proof {
            assert(word.no_duplicates()) by {
                assert forall|x: int, y: int| 0 <= x < word.len() && 0 <= y < word.len() && x != y implies word[x] != word[y] by {
                    assert(word[x] != word[y]);
                }
            }
            word.unique_seq_to_set();
        }
        let ghost trie_accepts = accepts@;
        let (fail, accepts, output_links) = build_failure_links(&trans, state_count, &accepts, Ghost(word), Ghost(pats));
        proof {
            assert forall|k: int| 0 <= k < accepts@.len() implies (#[trigger] accepts@[k].1 as nat) < lengths@.len() by {
                assert((accepts@[k].0 as nat) < word.len());
            }
        }
        let table = match build_dense_table(&trans, state_count, &fail, accepts, lengths, Ghost(word)) {
            Ok(t) => t,
            Err(e) => {
                return Err(e);
            },
        };
        proof {
            assert forall|i: int| 0 <= i < pats.len() implies #[trigger] table@.pattern_lengths[i] == (pats[i].len() as u32) by {
                assert(lengths@[i] == (patterns@[i]@.len() as u32));
            }
            assert forall|x: int, i: int| 0 <= x < word.len() && 0 <= i < pats.len() && pats[i].len() > 0 && #[trigger] word[x] == #[trigger] pats[i]
                implies pattern_of_state(table@.accept_states, x) != NO_PATTERN
                && pats[pattern_of_state(table@.accept_states, x) as int] == word[x] by {
                assert(pats[i] == patterns@[i]@);
                let k = choose|k: int| 0 <= k < trie_accepts.len() && #[trigger] trie_accepts[k].1 == i;
                let y = trie_accepts[k].0 as int;
                assert(word[y] == word[x]);
                assert(y == x);
            }
            assert forall|i: int| 0 <= i < pats.len() && pats[i].len() > 0
                implies exists|k: int| 0 <= k < trie_accepts.len() && #[trigger] trie_accepts[k].1 == i by {
                assert(pats[i] == patterns@[i]@);
            }
            assert(trie_accepts_ok(trie_accepts, word, pats));
            lemma_literal_program(table@, output_links@, word, pats, trans@, trie_accepts);
        }
        let r = Self::compile_with_output_links(&table, output_links.as_slice());
        proof {
            assert(r matches Ok(j) ==> literal_model(j.program(), pats, word));
            assert(word.len() == literal_state_count(pats));
            if r is Ok {
                let p = r->Ok_0.program();
                assert forall|input: Seq<u8>, k: int| input.len() <= u32::MAX && 0 <= k < scan_matches(p, input).len()
                    implies #[trigger] is_occurrence(scan_matches(p, input)[k], pats, input) by {
                    lemma_literal_matches_sound(p, pats, word, input);
                }
            }
        }
        r
    }
}

} // verus!
