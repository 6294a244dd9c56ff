//! Regex matchers: a DFA that `regex-automata` builds, expanded into a
//! byte-indexed transition table.
//!
//! The states reachable from the start state are numbered in breadth-first
//! order; each state accepts the patterns that match at the end of input from
//! it. [`regex_table`] builds the table from what the exploration found.

use vstd::prelude::*;
use regex_automata::dfa::dense::{self, BuildError, DFA};
use regex_automata::dfa::Automaton;
use regex_automata::util::primitives::StateID;
use regex_automata::{Input, MatchError, MatchKind};
use std::collections::HashMap;
use crate::error::{decimal, text_then_number, Error, ErrorView};
use crate::table::{grown_lengths, TableView, TransitionTable, MAX_STATES};
use super::{pattern_count_of, JitDfa};
use crate::machine::{lemma_pattern_of_state_push, pattern_of_state, NO_PATTERN};

verus! {

/// `regex_automata::dfa::dense::DFA`, held opaque.
#[verifier::external_type_specification]
#[verifier::external_body]
#[verifier::reject_recursive_types(T)]
pub struct ExDenseDfa<T>(DFA<T>);

/// `regex_automata::dfa::dense::BuildError`, held opaque.
#[verifier::external_type_specification]
#[verifier::external_body]
pub struct ExBuildError(BuildError);

/// `regex_automata::MatchError`, held opaque.
#[verifier::external_type_specification]
#[verifier::external_body]
pub struct ExMatchError(MatchError);

/// The patterns as character sequences.
pub open spec fn regex_texts(patterns: Seq<&str>) -> Seq<Seq<char>> {
    patterns.map_values(|t: &str| t@)
}

/// Whether `dense::Builder::build_many` builds a DFA from the patterns, with
/// the configuration of [`regex_build`].
pub uninterp spec fn regex_builds(texts: Seq<Seq<char>>) -> bool;

/// The start state (as its `StateID` number) that `start_state_forward`
/// gives for the empty input on the DFA of the patterns, or `None` when it
/// fails.
pub uninterp spec fn regex_start_key(texts: Seq<Seq<char>>) -> Option<u32>;

/// The state that `next_state` gives from state `key` on `byte`, in the DFA
/// of the patterns.
pub uninterp spec fn regex_next_key(texts: Seq<Seq<char>>, key: u32, byte: u8) -> u32;

/// The state that `next_eoi_state` gives from state `key`.
pub uninterp spec fn regex_eoi_key(texts: Seq<Seq<char>>, key: u32) -> u32;

/// What `is_match_state` says of state `key`.
pub uninterp spec fn regex_is_match_key(texts: Seq<Seq<char>>, key: u32) -> bool;

/// What `match_len` gives for state `key`.
pub uninterp spec fn regex_match_count(texts: Seq<Seq<char>>, key: u32) -> usize;

/// The pattern (as a number) that `match_pattern` gives for state `key` and
/// `index`.
pub uninterp spec fn regex_match_pid(texts: Seq<Seq<char>>, key: u32, index: usize) -> u32;

/// `key` is reached from the start state in at most `depth` transitions.
pub open spec fn regex_reaches(texts: Seq<Seq<char>>, key: u32, depth: nat) -> bool
    decreases depth,
{
    ||| regex_start_key(texts) == Some(key)
    ||| depth > 0 && exists|k: u32, b: u8| regex_reaches(texts, k, (depth - 1) as nat) && #[trigger] regex_next_key(texts, k, b) == key
}

/// `key` is a state of the DFA of the patterns: the start state, or a state
/// that transitions reach from it.
pub open spec fn regex_state(texts: Seq<Seq<char>>, key: u32) -> bool {
    exists|d: nat| #[trigger] regex_reaches(texts, key, d)
}

/// `key` is the end-of-input state of some state of the DFA.
pub open spec fn regex_eoi_state(texts: Seq<Seq<char>>, key: u32) -> bool {
    exists|s: u32| regex_state(texts, s) && #[trigger] regex_eoi_key(texts, s) == key
}

/// The patterns that match at the end of input from state `key`: those of
/// its end-of-input state, when that is a match state.
pub open spec fn regex_accepted(texts: Seq<Seq<char>>, key: u32) -> Seq<u32> {
    let e = regex_eoi_key(texts, key);
    if regex_is_match_key(texts, e) {
        Seq::new(regex_match_count(texts, e) as nat, |k: int| regex_match_pid(texts, e, k as usize))
    } else {
        Seq::empty()
    }
}

/// A compiled regex DFA, with the pattern texts it was built from.
struct RegexDfa {
    dfa: DFA<Vec<u32>>,
    texts: Ghost<Seq<Seq<char>>>,
}

/// `dense::Builder::build_many` with a configuration that reports every
/// pattern that matches (`MatchKind::All`) and has start states for each
/// pattern. Building is a function of the patterns: whether it succeeds is
/// named [`regex_builds`]; the DFA is kept with the texts it was built from.
#[verifier::external_body]
fn regex_build(patterns: &[&str]) -> (r: Result<RegexDfa, BuildError>)
    ensures
        r is Ok <==> regex_builds(regex_texts(patterns@)),
        r matches Ok(d) ==> d.texts@ == regex_texts(patterns@),
{
    let config = dense::Config::new().match_kind(MatchKind::All).starts_for_each_pattern(true);
    match dense::Builder::new().configure(config).build_many(patterns) {
        Ok(dfa) => Ok(RegexDfa { dfa, texts: Ghost(regex_texts(patterns@)) }),
        Err(e) => Err(e),
    }
}

/// The `Display` text of a `BuildError`; nothing is stated of it.
#[verifier::external_body]
fn build_error_text(e: &BuildError) -> (r: String) {
    format!("{e}")
}

/// `Automaton::start_state_forward` for a search of the empty input, as a
/// state number; named [`regex_start_key`].
#[verifier::external_body]
fn regex_start(d: &RegexDfa) -> (r: Result<u32, MatchError>)
    ensures
        r is Ok <==> regex_start_key(d.texts@) is Some,
        r matches Ok(k) ==> regex_start_key(d.texts@) == Some(k),
{
    match d.dfa.start_state_forward(&Input::new(&[][..])) {
        Ok(id) => Ok(id.as_u32()),
        Err(e) => Err(e),
    }
}

/// The `Display` text of a `MatchError`; nothing is stated of it.
#[verifier::external_body]
fn match_error_text(e: &MatchError) -> (r: String) {
    format!("{e}")
}

/// `Automaton::next_state` from a state of the DFA (it indexes the DFA's
/// transitions by the state); named [`regex_next_key`].
#[verifier::external_body]
fn regex_next(d: &RegexDfa, key: u32, byte: u8) -> (r: u32)
    requires
        regex_state(d.texts@, key),
    ensures
        r == regex_next_key(d.texts@, key, byte),
{
    d.dfa.next_state(StateID::new_unchecked(key as usize), byte).as_u32()
}

/// `Automaton::next_eoi_state` from a state of the DFA; named
/// [`regex_eoi_key`].
#[verifier::external_body]
fn regex_next_eoi(d: &RegexDfa, key: u32) -> (r: u32)
    requires
        regex_state(d.texts@, key),
    ensures
        r == regex_eoi_key(d.texts@, key),
{
    d.dfa.next_eoi_state(StateID::new_unchecked(key as usize)).as_u32()
}

/// `Automaton::is_match_state` (a comparison of the state number with the
/// range of match states); named [`regex_is_match_key`].
#[verifier::external_body]
fn regex_is_match(d: &RegexDfa, key: u32) -> (r: bool)
    ensures
        r == regex_is_match_key(d.texts@, key),
{
    d.dfa.is_match_state(StateID::new_unchecked(key as usize))
}

/// `Automaton::match_len` of a match state that is the end-of-input state of
/// a state of the DFA (it asserts a match state); named
/// [`regex_match_count`].
#[verifier::external_body]
fn regex_match_len(d: &RegexDfa, key: u32) -> (r: usize)
    requires
        regex_eoi_state(d.texts@, key),
        regex_is_match_key(d.texts@, key),
    ensures
        r == regex_match_count(d.texts@, key),
{
    d.dfa.match_len(StateID::new_unchecked(key as usize))
}

/// `Automaton::match_pattern` of such a match state and an index below its
/// `match_len`, as a number; named [`regex_match_pid`]. The source bounds
/// every `PatternID` below `i32::MAX`.
#[verifier::external_body]
fn regex_match_pattern(d: &RegexDfa, key: u32, index: usize) -> (r: u32)
    requires
        regex_eoi_state(d.texts@, key),
        regex_is_match_key(d.texts@, key),
        index < regex_match_count(d.texts@, key),
    ensures
        r == regex_match_pid(d.texts@, key, index),
        r < 0x7FFF_FFFF,
{
    d.dfa.match_pattern(StateID::new_unchecked(key as usize), index).as_u32()
}

/// The position of `x` in `keys`, or -1.
pub open spec fn key_index(keys: Seq<u32>, x: u32) -> int
    decreases keys.len(),
{
    if keys.len() == 0 {
        -1
    } else if keys.last() == x {
        keys.len() - 1
    } else {
        key_index(keys.drop_last(), x)
    }
}

/// The position of the first entry of `next` that names no key, or -1.
pub open spec fn first_unknown(keys: Seq<u32>, next: Seq<u32>) -> int
    decreases next.len(),
{
    if next.len() == 0 {
        -1
    } else {
        let k = first_unknown(keys, next.drop_last());
        if k >= 0 {
            k
        } else if key_index(keys, next.last()) < 0 {
            next.len() - 1
        } else {
            -1
        }
    }
}

/// The accept entries of the regex table: each state that matches some
/// pattern at the end of input accepts the first of them, in state order.
pub open spec fn regex_accepts(matches: Seq<Seq<u32>>) -> Seq<(u32, u32)>
    decreases matches.len(),
{
    if matches.len() == 0 {
        Seq::empty()
    } else {
        let prev = regex_accepts(matches.drop_last());
        if matches.last().len() > 0 {
            prev.push(((matches.len() - 1) as u32, matches.last()[0]))
        } else {
            prev
        }
    }
}

/// Law: in the table of an exploration, a state whose end-of-input match
/// list is nonempty reports the first pattern of that list, and any other
/// state reports none.
pub proof fn lemma_regex_table_first_pattern(keys: Seq<u32>, next: Seq<u32>, matches: Seq<Seq<u32>>, lengths: Seq<u32>, s: int)
    requires
        0 <= s < matches.len(),
        matches.len() <= u32::MAX,
    ensures
        pattern_of_state(regex_table_view(keys, next, matches, lengths).accept_states, s)
            == if matches[s].len() > 0 { matches[s][0] } else { NO_PATTERN },
{
    lemma_regex_accepts_pattern(matches, s);
}

proof fn lemma_regex_accepts_pattern(matches: Seq<Seq<u32>>, s: int)
    requires
        0 <= s,
        matches.len() <= u32::MAX,
    ensures
        s < matches.len() ==> pattern_of_state(regex_accepts(matches), s)
            == if matches[s].len() > 0 { matches[s][0] } else { NO_PATTERN },
        s >= matches.len() ==> pattern_of_state(regex_accepts(matches), s) == NO_PATTERN,
    decreases matches.len(),
{
    if matches.len() > 0 {
        let d = matches.drop_last();
        lemma_regex_accepts_pattern(d, s);
        let prev = regex_accepts(d);
        let l = matches.len() - 1;
        assert(matches.last() == matches[l]);
        assert((l as u32) as int == l);
        if matches.last().len() > 0 {
            lemma_pattern_of_state_push(prev, (l as u32, matches.last()[0]), s);
        }
        if s < l {
            assert(d[s] == matches[s]);
        }
    }
}

/// `lengths`, extended with zeros to `len` entries.
pub open spec fn padded(lengths: Seq<u32>, len: nat) -> Seq<u32> {
    Seq::new(len, |i: int| if i < lengths.len() { lengths[i] } else { 0u32 })
}

/// The table that [`regex_table`] builds: one state per key, transitions to
/// the positions of the next keys, the accept entries of the match lists,
/// and the given pattern lengths (0 for patterns past them).
pub open spec fn regex_table_view(keys: Seq<u32>, next: Seq<u32>, matches: Seq<Seq<u32>>, lengths: Seq<u32>) -> TableView {
    let accepts = regex_accepts(matches);
    let len = if lengths.len() >= pattern_count_of(accepts) { lengths.len() } else { pattern_count_of(accepts) };
    TableView {
        state_count: keys.len(),
        class_count: 256,
        transitions: Seq::new(next.len(), |i: int| key_index(keys, next[i]) as u32),
        accept_states: accepts,
        pattern_lengths: padded(lengths, len),
    }
}

/// The reason given when a transition leads to a state that the search did
/// not find.
pub open spec fn reason_undiscovered(byte: nat) -> Seq<char> {
    "regex DFA transition to undiscovered state on byte "@ + decimal(byte)
}

proof fn lemma_key_index(keys: Seq<u32>, x: u32)
    ensures
        -1 <= key_index(keys, x) < keys.len(),
        key_index(keys, x) >= 0 ==> keys[key_index(keys, x)] == x,
        key_index(keys, x) < 0 ==> !keys.contains(x),
    decreases keys.len(),
{
    if keys.len() > 0 {
        lemma_key_index(keys.drop_last(), x);
        if key_index(keys, x) < 0 {
            assert forall|i: int| 0 <= i < keys.len() implies keys[i] != x by {
                if i < keys.len() - 1 {
                    assert(keys.drop_last()[i] == keys[i]);
                }
            }
        }
    }
}

proof fn lemma_first_unknown(keys: Seq<u32>, next: Seq<u32>)
    ensures
        first_unknown(keys, next) < next.len(),
        first_unknown(keys, next) < 0 <==> forall|i: int| 0 <= i < next.len() ==> key_index(keys, #[trigger] next[i]) >= 0,
        first_unknown(keys, next) >= 0 ==> {
            let k = first_unknown(keys, next);
            &&& key_index(keys, next[k]) < 0
            &&& forall|i: int| 0 <= i < k ==> key_index(keys, #[trigger] next[i]) >= 0
        },
    decreases next.len(),
{
    if next.len() > 0 {
        let p = next.drop_last();
        lemma_first_unknown(keys, p);
        assert forall|i: int| 0 <= i < p.len() implies p[i] == next[i] by {}
    }
}


/// The match lists as sequences.
pub open spec fn match_seqs(matches: Seq<Vec<u32>>) -> Seq<Seq<u32>> {
    matches.map_values(|v: Vec<u32>| v@)
}

/// `n` zeros.
pub open spec fn zeros(n: nat) -> Seq<u32> {
    Seq::new(n, |i: int| 0u32)
}

proof fn lemma_pattern_count_push(accepts: Seq<(u32, u32)>, e: (u32, u32))
    ensures
        pattern_count_of(accepts.push(e)) == if e.1 as nat + 1 > pattern_count_of(accepts) { e.1 as nat + 1 } else { pattern_count_of(accepts) },
{
    assert(accepts.push(e).drop_last() =~= accepts);
}

proof fn lemma_grown_zeros(len: nat, pid: u32)
    ensures
        grown_lengths(zeros(len), pid) == zeros(if pid as nat + 1 > len { pid as nat + 1 } else { len }),
{
    if len <= pid {
        assert(grown_lengths(zeros(len), pid) =~= zeros(pid as nat + 1));
    }
}

/// Build the byte-indexed table of an explored regex DFA.
///
/// `keys` names the states in their order, `next` gives for each state and
/// byte the key of the next state, `matches` the patterns that each state
/// accepts. State `s` goes on byte `b` to the position of key
/// `next[s * 256 + b]`; it accepts the first of its patterns; pattern `i`
/// gets length `lengths[i]`.
///
/// # Errors
///
/// [`Error::TooManyStates`] beyond [`MAX_STATES`] states;
/// [`Error::InvalidTable`] at the first next key that names no state.
pub fn regex_table(keys: &Vec<u32>, next: &Vec<u32>, matches: &Vec<Vec<u32>>, lengths: &Vec<u32>) -> (r: Result<TransitionTable, Error>)
    requires
        next@.len() == keys@.len() * 256,
        matches@.len() == keys@.len(),
        lengths@.len() <= u32::MAX,
        forall|s: int, k: int| 0 <= s < matches@.len() && 0 <= k < matches@[s]@.len() ==> #[trigger] matches@[s]@[k] < u32::MAX,
    ensures
        keys@.len() > MAX_STATES ==> (r matches Err(e) && e@ == ErrorView::TooManyStates(keys@.len() as usize, MAX_STATES)),
        keys@.len() <= MAX_STATES && first_unknown(keys@, next@) >= 0 ==> (r matches Err(e)
            && e@ == ErrorView::InvalidTable(reason_undiscovered((first_unknown(keys@, next@) % 256) as nat))),
        keys@.len() <= MAX_STATES && first_unknown(keys@, next@) < 0 ==> (r matches Ok(t)
            && t@ == regex_table_view(keys@, next@, match_seqs(matches@), lengths@)),
{
    broadcast use vstd::std_specs::hash::group_hash_axioms;
    let n = keys.len();
    let mut table = match TransitionTable::new(n, 256) {
        Ok(t) => t,
        Err(e) => {
            return Err(e);
        },
    };
    let mut map: HashMap<u32, usize> = HashMap::new();
    let mut i: usize = 0;
    while i < n
        invariant
            n == keys@.len(),
            i <= n,
            forall|x: u32| #[trigger] map@.contains_key(x) <==> key_index(keys@.take(i as int), x) >= 0,
            forall|x: u32| map@.contains_key(x) ==> #[trigger] map@[x] == key_index(keys@.take(i as int), x),
        decreases n - i,
    {
        let key = keys[i];
        map.insert(key, i);
        proof {
            assert(keys@.take(i + 1).drop_last() =~= keys@.take(i as int));
            assert(keys@.take(i + 1).last() == key);
        }
        i += 1;
    }
    proof {
        assert(keys@.take(n as int) =~= keys@);
        lemma_first_unknown(keys@, next@);
    }
    let ghost ms = match_seqs(matches@);
    let mut s: usize = 0;
    while s < n
        invariant
            n == keys@.len(),
            n <= MAX_STATES,
            next@.len() == n * 256,
            matches@.len() == n,
            ms == match_seqs(matches@),
            forall|s2: int, k: int| 0 <= s2 < matches@.len() && 0 <= k < matches@[s2]@.len() ==> #[trigger] matches@[s2]@[k] < u32::MAX,
            s <= n,
            forall|x: u32| #[trigger] map@.contains_key(x) <==> key_index(keys@, x) >= 0,
            forall|x: u32| map@.contains_key(x) ==> #[trigger] map@[x] == key_index(keys@, x),
            forall|j: int| 0 <= j < s * 256 ==> key_index(keys@, #[trigger] next@[j]) >= 0,
            table@.state_count == n,
            table@.class_count == 256,
            table@.transitions.len() == n * 256,
            forall|j: int| 0 <= j < s * 256 ==> #[trigger] table@.transitions[j] == key_index(keys@, next@[j]) as u32,
            table@.accept_states == regex_accepts(ms.take(s as int)),
            table@.pattern_lengths == zeros(pattern_count_of(table@.accept_states)),
        decreases n - s,
    {
        let mut b: usize = 0;
        while b < 256
            invariant
                n == keys@.len(),
                n <= MAX_STATES,
                next@.len() == n * 256,
                s < n,
                b <= 256,
                forall|x: u32| #[trigger] map@.contains_key(x) <==> key_index(keys@, x) >= 0,
                forall|x: u32| map@.contains_key(x) ==> #[trigger] map@[x] == key_index(keys@, x),
                forall|j: int| 0 <= j < s * 256 + b ==> key_index(keys@, #[trigger] next@[j]) >= 0,
                table@.state_count == n,
                table@.class_count == 256,
                table@.transitions.len() == n * 256,
                forall|j: int| 0 <= j < s * 256 + b ==> #[trigger] table@.transitions[j] == key_index(keys@, next@[j]) as u32,
                table@.accept_states == regex_accepts(ms.take(s as int)),
                table@.pattern_lengths == zeros(pattern_count_of(table@.accept_states)),
            decreases 256 - b,
        {
            let nx = next[s * 256 + b];
            match map.get(&nx) {
                Some(idx) => {
                    proof {
                        lemma_key_index(keys@, nx);
                    }
                    let ghost before = table@.transitions;
                    table.set_transition(s, b as u8, *idx as u32);
                    proof {
                        assert forall|j: int| 0 <= j < s * 256 + b + 1 implies #[trigger] table@.transitions[j]
                            == key_index(keys@, next@[j]) as u32 by {
                            if j < s * 256 + b {
                                assert(table@.transitions[j] == before[j]);
                            }
                        }
                    }
                },
                None => {
                    proof {
                        lemma_first_unknown(keys@, next@);
                        assert(key_index(keys@, next@[s * 256 + b]) < 0);
                        assert(first_unknown(keys@, next@) == s * 256 + b);
                        assert((s * 256 + b) % 256 == b);
                    }
                    return Err(Error::InvalidTable {
                        reason: text_then_number("regex DFA transition to undiscovered state on byte ", b as u64),
                    });
                },
            }
            b += 1;
        }
        let pids = &matches[s];
        if pids.len() > 0 {
            let pid = pids[0];
            let ghost before = table@;
            table.add_accept(s as u32, pid);
            proof {
                lemma_pattern_count_push(before.accept_states, (s as u32, pid));
                lemma_grown_zeros(pattern_count_of(before.accept_states), pid);
            }
        }
        proof {
            assert(ms.take(s + 1).drop_last() =~= ms.take(s as int));
            assert(ms.take(s + 1).last() == ms[s as int]);
        }
        s += 1;
    }
    proof {
        assert(ms.take(n as int) =~= ms);
    }
    let ghost l0 = pattern_count_of(table@.accept_states);
    let mut pid: usize = 0;
    while pid < lengths.len()
        invariant
            lengths@.len() <= u32::MAX,
            pid <= lengths@.len(),
            table@.state_count == n,
            table@.class_count == 256,
            table@.transitions.len() == n * 256,
            l0 == pattern_count_of(table@.accept_states),
            table@.pattern_lengths == padded(lengths@.take(pid as int), if pid as nat > l0 { pid as nat } else { l0 }),
            next@.len() == n * 256,
            table@.accept_states == regex_accepts(ms),
            forall|j: int| 0 <= j < n * 256 ==> #[trigger] table@.transitions[j] == key_index(keys@, next@[j]) as u32,
        decreases lengths@.len() - pid,
    {
        let ghost before = table@.pattern_lengths;
        let ghost len0 = if pid as nat > l0 { pid as nat } else { l0 };
        proof {
            assert(before == padded(lengths@.take(pid as int), len0));
        }
        table.set_pattern_length(pid as u32, lengths[pid]);
        proof {
            let len1 = if pid as nat + 1 > l0 { pid as nat + 1 } else { l0 };
            assert(table@.pattern_lengths =~= padded(lengths@.take(pid + 1), len1));
        }
        pid += 1;
    }
    proof {
        assert(ms.take(n as int) =~= ms);
        assert(lengths@.take(lengths@.len() as int) =~= lengths@);
        assert(table@.transitions =~= Seq::new(next@.len(), |i: int| key_index(keys@, next@[i]) as u32));
    }
    Ok(table)
}


/// The keys of the search, and the next key of each state on each byte,
/// describe a complete exploration: keys are distinct, and every next key is
/// a key.
pub open spec fn explored(keys: Seq<u32>, next: Seq<u32>) -> bool {
    &&& keys.no_duplicates()
    &&& next.len() == keys.len() * 256
    &&& forall|i: int| 0 <= i < next.len() ==> keys.contains(#[trigger] next[i])
}

/// The distinct values of `s` in the order of their first appearance.
pub open spec fn first_appearances(s: Seq<u32>) -> Seq<u32>
    decreases s.len(),
{
    if s.len() == 0 {
        Seq::empty()
    } else {
        let prev = first_appearances(s.drop_last());
        if prev.contains(s.last()) { prev } else { prev.push(s.last()) }
    }
}

/// Entry `i * 256 + b` of a row-major array.
pub open spec fn row_next(next: Seq<u32>, i: int, b: int) -> u32 {
    next[i * 256 + b]
}

/// `keys`, `next` and `ms` are an exploration of the DFA of `texts`: the
/// keys are distinct states of the DFA, the first of them the start state,
/// and every next state is among them; `next` gives the next state of each
/// key on each byte, `ms` the patterns that match at the end of input from
/// each key; the keys come in the order in which a breadth-first search
/// from the start state first meets them.
pub open spec fn regex_exploration(texts: Seq<Seq<char>>, keys: Seq<u32>, next: Seq<u32>, ms: Seq<Seq<u32>>) -> bool {
    &&& keys.len() > 0
    &&& regex_start_key(texts) == Some(keys[0])
    &&& explored(keys, next)
    &&& keys == first_appearances(seq![keys[0]] + next)
    &&& forall|i: int| 0 <= i < keys.len() ==> regex_state(texts, #[trigger] keys[i])
    &&& forall|i: int, b: int| 0 <= i < keys.len() && 0 <= b < 256
        ==> #[trigger] row_next(next, i, b) == regex_next_key(texts, keys[i], b as u8)
    &&& ms.len() == keys.len()
    &&& forall|i: int| 0 <= i < keys.len() ==> #[trigger] ms[i] == regex_accepted(texts, keys[i])
}

/// `e` is what building and compiling the table of an exploration gives:
/// too many states, or the compile check's error for the table.
pub open spec fn regex_failure(e: ErrorView, texts: Seq<Seq<char>>, keys: Seq<u32>, next: Seq<u32>, ms: Seq<Seq<u32>>, lengths: Seq<u32>) -> bool {
    &&& regex_exploration(texts, keys, next, ms)
    &&& (keys.len() > MAX_STATES ==> e == ErrorView::TooManyStates(keys.len() as usize, MAX_STATES))
    &&& (keys.len() <= MAX_STATES ==> super::compile_fault(regex_table_view(keys, next, ms, lengths), Seq::empty()) == Some(e))
}

/// `t` is the table of an exploration, and it passes the compile check.
pub open spec fn regex_source(t: TableView, texts: Seq<Seq<char>>, keys: Seq<u32>, next: Seq<u32>, ms: Seq<Seq<u32>>, lengths: Seq<u32>) -> bool {
    &&& regex_exploration(texts, keys, next, ms)
    &&& keys.len() <= MAX_STATES
    &&& t == regex_table_view(keys, next, ms, lengths)
    &&& super::compile_fault(t, Seq::empty()) is None
}

/// Law: a DFA built from regexes reports, at each of its states, the first
/// pattern that regex-automata lists as matching at the end of input from
/// the state's DFA state, and nothing where it lists none.
pub proof fn lemma_regex_source_reports_first(t: TableView, texts: Seq<Seq<char>>, keys: Seq<u32>, next: Seq<u32>,
    ms: Seq<Seq<u32>>, lengths: Seq<u32>, s: int)
    requires
        regex_source(t, texts, keys, next, ms, lengths),
        0 <= s < t.state_count,
    ensures
        pattern_of_state(t.accept_states, s) == if regex_accepted(texts, keys[s]).len() > 0 {
            regex_accepted(texts, keys[s])[0]
        } else {
            NO_PATTERN
        },
{
    assert(ms[s] == regex_accepted(texts, keys[s]));
    lemma_regex_table_first_pattern(keys, next, ms, lengths, s);
}

proof fn lemma_next_is_state(texts: Seq<Seq<char>>, k: u32, b: u8)
    requires
        regex_state(texts, k),
    ensures
        regex_state(texts, regex_next_key(texts, k, b)),
{
    let d = choose|d: nat| #[trigger] regex_reaches(texts, k, d);
    assert(regex_reaches(texts, regex_next_key(texts, k, b), d + 1));
}

/// The length of each pattern's text in bytes, the width given to its
/// matches.
pub open spec fn regex_lengths(patterns: Seq<&str>) -> Seq<u32> {
    Seq::new(patterns.len(), |i: int| patterns[i].len() as u32)
}

/// The text an error of the regex compiler is reported with.
pub open spec fn reason_regex_build(message: Seq<char>) -> Seq<char> {
    "failed to compile regex patterns with regex-automata: "@ + message
}

/// The text an error computing the start state is reported with.
pub open spec fn reason_regex_start(message: Seq<char>) -> Seq<char> {
    "failed to compute regex DFA start state: "@ + message
}

proof fn lemma_explored_known(keys: Seq<u32>, next: Seq<u32>)
    requires
        explored(keys, next),
    ensures
        first_unknown(keys, next) < 0,
{
    lemma_first_unknown(keys, next);
    assert forall|i: int| 0 <= i < next.len() implies key_index(keys, #[trigger] next[i]) >= 0 by {
        lemma_key_index(keys, next[i]);
    }
}

fn concat(a: &str, b: String) -> (r: String)
    ensures
        r@ == a@ + b@,
{
    let mut s = String::from_str(a);
    s.append(b.as_str());
    s
}

impl JitDfa {
    /// Build a JIT DFA from a set of regex patterns.
    ///
    /// `regex-automata` compiles the patterns into a dense DFA; the states
    /// reachable from its start state, in breadth-first order, become the
    /// states of a byte-indexed table (see [`regex_table`]). A state accepts
    /// the first pattern that matches at the end of input from it. Each
    /// pattern's match width is the length of its text, which places the
    /// start of matches of literal patterns.
    ///
    /// # Errors
    ///
    /// [`Error::EmptyDfa`] for no patterns; [`Error::InvalidTable`] when the
    /// regexes do not compile or have no start state; otherwise the errors of
    /// [`regex_table`] and [`JitDfa::compile`] for the table.
    pub fn from_regex_patterns(patterns: &[&str]) -> (r: Result<Self, Error>)
        requires
            patterns@.len() <= u32::MAX,
        ensures
            patterns@.len() == 0 ==> (r matches Err(e) && e@ == ErrorView::EmptyDfa),
            patterns@.len() > 0 && !regex_builds(regex_texts(patterns@)) ==> (r matches Err(e)
                && exists|m: Seq<char>| e@ == ErrorView::InvalidTable(reason_regex_build(m))),
            patterns@.len() > 0 && regex_builds(regex_texts(patterns@)) && regex_start_key(regex_texts(patterns@)) is None
                ==> (r matches Err(e) && exists|m: Seq<char>| e@ == ErrorView::InvalidTable(reason_regex_start(m))),
            patterns@.len() > 0 && regex_builds(regex_texts(patterns@)) && regex_start_key(regex_texts(patterns@)) is Some ==> {
                &&& r matches Err(e) ==> exists|keys: Seq<u32>, next: Seq<u32>, ms: Seq<Seq<u32>>|
                    #[trigger] regex_failure(e@, regex_texts(patterns@), keys, next, ms, regex_lengths(patterns@))
                &&& r matches Ok(j) ==> exists|keys: Seq<u32>, next: Seq<u32>, ms: Seq<Seq<u32>>|
                    #[trigger] regex_source(j.source(), regex_texts(patterns@), keys, next, ms, regex_lengths(patterns@))
            },
            r matches Ok(j) ==> j.program() == crate::codegen::compiled_program(j.source(), Seq::empty()),
    {
        broadcast use vstd::std_specs::hash::group_hash_axioms;
        if patterns.len() == 0 {
            return Err(Error::EmptyDfa);
        }
        let ghost texts = regex_texts(patterns@);
        let d = match regex_build(patterns) {
            Ok(d) => d,
            Err(e) => {
                let m = build_error_text(&e);
                let ghost mv = m@;
                let err = Error::InvalidTable { reason: concat("failed to compile regex patterns with regex-automata: ", m) };
                proof {
                    assert(err@ == ErrorView::InvalidTable(reason_regex_build(mv)));
                }
                return Err(err);
            },
        };
        let start_key = match regex_start(&d) {
            Ok(s) => s,
            Err(e) => {
                let m = match_error_text(&e);
                let ghost mv = m@;
                let err = Error::InvalidTable { reason: concat("failed to compute regex DFA start state: ", m) };
                proof {
                    assert(err@ == ErrorView::InvalidTable(reason_regex_start(mv)));
                }
                return Err(err);
            },
        };
        // breadth-first search over the states reachable from the start
        let mut keys: Vec<u32> = Vec::new();
        keys.push(start_key);
        let mut state_map: HashMap<u32, usize> = HashMap::new();
        state_map.insert(start_key, 0);
        let mut next_keys: Vec<u32> = Vec::new();
        let ghost mut seen: Set<int> = set![start_key as int];
        proof {
            vstd::set_lib::lemma_int_range(0, 0x1_0000_0000);
            assert(keys@[0] == start_key);
            assert(regex_reaches(texts, start_key, 0));
            assert(seq![start_key] + next_keys@ =~= seq![start_key]);
            assert(seq![start_key].drop_last() =~= Seq::<u32>::empty());
            assert(first_appearances(Seq::<u32>::empty()) == Seq::<u32>::empty());
            assert(seq![start_key].last() == start_key);
            assert(first_appearances(seq![start_key]) == Seq::<u32>::empty().push(start_key));
            assert(first_appearances(seq![start_key]) =~= keys@);
            assert forall|x: u32| #[trigger] state_map@.contains_key(x) <==> keys@.contains(x) by {
                if x == start_key {
                    assert(keys@.contains(x));
                }
            }
            assert forall|x: int| #[trigger] seen.contains(x) <==> exists|i: int| 0 <= i < keys@.len() && keys@[i] as int == x by {
                if x == start_key as int {
                    assert(keys@[0] as int == x);
                }
            }
        }
        let mut head: usize = 0;
        while head < keys.len()
            invariant
                d.texts@ == texts,
                keys@.len() > 0,
                keys@[0] == start_key,
                regex_start_key(texts) == Some(start_key),
                head <= keys@.len(),
                keys@.no_duplicates(),
                forall|i: int| 0 <= i < keys@.len() ==> regex_state(texts, #[trigger] keys@[i]),
                next_keys@.len() == head * 256,
                forall|i: int, b: int| 0 <= i < head && 0 <= b < 256
                    ==> #[trigger] row_next(next_keys@, i, b) == regex_next_key(texts, keys@[i], b as u8),
                forall|i: int| 0 <= i < next_keys@.len() ==> keys@.contains(#[trigger] next_keys@[i]),
                forall|x: u32| #[trigger] state_map@.contains_key(x) <==> keys@.contains(x),
                keys@ == first_appearances(seq![start_key] + next_keys@),
                seen.finite(),
                seen.len() == keys@.len(),
                forall|x: int| #[trigger] seen.contains(x) <==> exists|i: int| 0 <= i < keys@.len() && keys@[i] as int == x,
                vstd::set_lib::set_int_range(0, 0x1_0000_0000).finite(),
                vstd::set_lib::set_int_range(0, 0x1_0000_0000).len() == 0x1_0000_0000,
            decreases 0x1_0000_0000 - head,
        {
            proof {
                assert(seen.subset_of(vstd::set_lib::set_int_range(0, 0x1_0000_0000))) by {
                    assert forall|x: int| #[trigger] seen.contains(x) implies 0 <= x < 0x1_0000_0000 by {
                        let i = choose|i: int| 0 <= i < keys@.len() && keys@[i] as int == x;
                    }
                }
                vstd::set_lib::lemma_len_subset(seen, vstd::set_lib::set_int_range(0, 0x1_0000_0000));
            }
            let id = keys[head];
            let mut byte: usize = 0;
            while byte < 256
                invariant
                    d.texts@ == texts,
                    keys@.len() > 0,
                    keys@[0] == start_key,
                    head < keys@.len(),
                    id == keys@[head as int],
                    keys@.len() <= 0x1_0000_0000,
                    keys@.no_duplicates(),
                    forall|i: int| 0 <= i < keys@.len() ==> regex_state(texts, #[trigger] keys@[i]),
                    byte <= 256,
                    next_keys@.len() == head * 256 + byte,
                    forall|i: int, b: int| 0 <= i < head && 0 <= b < 256
                        ==> #[trigger] row_next(next_keys@, i, b) == regex_next_key(texts, keys@[i], b as u8),
                    forall|b: int| 0 <= b < byte
                        ==> #[trigger] row_next(next_keys@, head as int, b) == regex_next_key(texts, id, b as u8),
                    forall|i: int| 0 <= i < next_keys@.len() ==> keys@.contains(#[trigger] next_keys@[i]),
                    forall|x: u32| #[trigger] state_map@.contains_key(x) <==> keys@.contains(x),
                    keys@ == first_appearances(seq![start_key] + next_keys@),
                    seen.finite(),
                    seen.len() == keys@.len(),
                    forall|x: int| #[trigger] seen.contains(x) <==> exists|i: int| 0 <= i < keys@.len() && keys@[i] as int == x,
                    vstd::set_lib::set_int_range(0, 0x1_0000_0000).finite(),
                    vstd::set_lib::set_int_range(0, 0x1_0000_0000).len() == 0x1_0000_0000,
                decreases 256 - byte,
            {
                proof {
                    assert(regex_state(texts, keys@[head as int]));
                }
                let key = regex_next(&d, id, byte as u8);
                proof {
                    lemma_next_is_state(texts, id, byte as u8);
                }
                let ghost keys_before = keys@;
                if !state_map.contains_key(&key) {
                    let ghost old_keys = keys@;
                    proof {
                        assert(!keys@.contains(key));
                        assert(!seen.contains(key as int)) by {
                            if seen.contains(key as int) {
                                let i = choose|i: int| 0 <= i < keys@.len() && keys@[i] as int == key as int;
                                assert(keys@.contains(key));
                            }
                        }
                        vstd::set_lib::lemma_len_subset(seen.insert(key as int), vstd::set_lib::set_int_range(0, 0x1_0000_0000));
                    }
                    state_map.insert(key, keys.len());
                    keys.push(key);
                    proof {
                        seen = seen.insert(key as int);
                        assert(keys@[old_keys.len() as int] == key);
                        assert(keys@.contains(key));
                        assert forall|i: int| 0 <= i < keys@.len() implies regex_state(texts, #[trigger] keys@[i]) by {
                            if i < old_keys.len() {
                                assert(keys@[i] == old_keys[i]);
                            }
                        }
                        assert forall|x: u32| #[trigger] state_map@.contains_key(x) <==> keys@.contains(x) by {
                            if old_keys.contains(x) {
                                let i = choose|i: int| 0 <= i < old_keys.len() && old_keys[i] == x;
                                assert(keys@[i] == x);
                            }
                            if keys@.contains(x) && x != key {
                                let i = choose|i: int| 0 <= i < keys@.len() && keys@[i] == x;
                                assert(old_keys[i] == x);
                            }
                        }
                        assert forall|x: int| #[trigger] seen.contains(x) <==> exists|i: int| 0 <= i < keys@.len() && keys@[i] as int == x by {
                            if seen.contains(x) && x != key as int {
                                let i = choose|i: int| 0 <= i < old_keys.len() && old_keys[i] as int == x;
                                assert(keys@[i] == old_keys[i]);
                            }
                            if x == key as int {
                                assert(keys@[old_keys.len() as int] == key);
                            }
                            if exists|i: int| 0 <= i < keys@.len() && keys@[i] as int == x {
                                let i = choose|i: int| 0 <= i < keys@.len() && keys@[i] as int == x;
                                if i < old_keys.len() {
                                    assert(old_keys[i] == keys@[i]);
                                }
                            }
                        }
                        assert forall|i: int, j: int| 0 <= i < keys@.len() && 0 <= j < keys@.len() && i != j implies keys@[i] != keys@[j] by {
                            if i < old_keys.len() && j < old_keys.len() {
                                assert(old_keys.no_duplicates());
                            } else if i < old_keys.len() {
                                assert(old_keys.contains(keys@[i]));
                            } else if j < old_keys.len() {
                                assert(old_keys.contains(keys@[j]));
                            }
                        }
                        assert forall|i: int| 0 <= i < next_keys@.len() implies keys@.contains(#[trigger] next_keys@[i]) by {
                            let j = choose|j: int| 0 <= j < old_keys.len() && old_keys[j] == next_keys@[i];
                            assert(keys@[j] == old_keys[j]);
                        }
                    }
                }
                let ghost old_next = next_keys@;
                next_keys.push(key);
                proof {
                    assert(keys@.contains(key));
                    let sq = seq![start_key] + old_next;
                    assert(seq![start_key] + next_keys@ =~= sq.push(key));
                    assert(sq.push(key).drop_last() =~= sq);
                    assert(keys@ == if keys_before.contains(key) { keys_before } else { keys_before.push(key) });
                    assert forall|i: int| 0 <= i < next_keys@.len() implies keys@.contains(#[trigger] next_keys@[i]) by {
                        if i < old_next.len() {
                            assert(next_keys@[i] == old_next[i]);
                        }
                    }
                    assert forall|i: int, b: int| 0 <= i < head && 0 <= b < 256
                        implies #[trigger] row_next(next_keys@, i, b) == regex_next_key(texts, keys@[i], b as u8) by {
                        assert(row_next(old_next, i, b) == regex_next_key(texts, keys@[i], b as u8));
                        assert(next_keys@[i * 256 + b] == old_next[i * 256 + b]);
                    }
                    assert forall|b: int| 0 <= b < byte + 1
                        implies #[trigger] row_next(next_keys@, head as int, b) == regex_next_key(texts, id, b as u8) by {
                        if b < byte {
                            assert(row_next(old_next, head as int, b) == regex_next_key(texts, id, b as u8));
                            assert(next_keys@[head * 256 + b] == old_next[head * 256 + b]);
                        }
                    }
                }
                byte += 1;
            }
            proof {
                assert forall|i: int, b: int| 0 <= i < head + 1 && 0 <= b < 256
                    implies #[trigger] row_next(next_keys@, i, b) == regex_next_key(texts, keys@[i], b as u8) by {
                    if i == head {
                        assert(row_next(next_keys@, head as int, b) == regex_next_key(texts, id, b as u8));
                    }
                }
            }
            head += 1;
        }
        // what each state accepts at the end of input
        let n = keys.len();
        let mut matches: Vec<Vec<u32>> = Vec::new();
        let mut i: usize = 0;
        while i < n
            invariant
                d.texts@ == texts,
                n == keys@.len(),
                i <= n,
                forall|j: int| 0 <= j < keys@.len() ==> regex_state(texts, #[trigger] keys@[j]),
                matches@.len() == i,
                forall|j: int| 0 <= j < i ==> #[trigger] matches@[j]@ == regex_accepted(texts, keys@[j]),
                forall|s: int, k: int| 0 <= s < matches@.len() && 0 <= k < matches@[s]@.len() ==> #[trigger] matches@[s]@[k] < u32::MAX,
            decreases n - i,
        {
            let key = keys[i];
            proof {
                assert(regex_state(texts, keys@[i as int]));
            }
            let eoi = regex_next_eoi(&d, key);
            proof {
                assert(regex_eoi_state(texts, eoi));
            }
            let mut pids: Vec<u32> = Vec::new();
            if regex_is_match(&d, eoi) {
                let count = regex_match_len(&d, eoi);
                let mut k: usize = 0;
                while k < count
                    invariant
                        d.texts@ == texts,
                        regex_eoi_state(texts, eoi),
                        regex_is_match_key(texts, eoi),
                        count == regex_match_count(texts, eoi),
                        k <= count,
                        pids@ == Seq::new(k as nat, |j: int| regex_match_pid(texts, eoi, j as usize)),
                        forall|k2: int| 0 <= k2 < pids@.len() ==> #[trigger] pids@[k2] < u32::MAX,
                    decreases count - k,
                {
                    let pid = regex_match_pattern(&d, eoi, k);
                    pids.push(pid);
                    proof {
                        assert(pids@ =~= Seq::new((k + 1) as nat, |j: int| regex_match_pid(texts, eoi, j as usize)));
                    }
                    k += 1;
                }
                proof {
                    assert(pids@ =~= regex_accepted(texts, key));
                }
            } else {
                proof {
                    assert(pids@ =~= regex_accepted(texts, key));
                }
            }
            let ghost old_matches = matches@;
            matches.push(pids);
            proof {
                assert forall|s: int, k: int| 0 <= s < matches@.len() && 0 <= k < matches@[s]@.len() implies #[trigger] matches@[s]@[k] < u32::MAX by {
                    if s < old_matches.len() {
                        assert(matches@[s] == old_matches[s]);
                    }
                }
                assert forall|j: int| 0 <= j < i + 1 implies #[trigger] matches@[j]@ == regex_accepted(texts, keys@[j]) by {
                    if j < i {
                        assert(matches@[j] == old_matches[j]);
                    }
                }
            }
            i += 1;
        }
        let mut lengths: Vec<u32> = Vec::new();
        let mut p: usize = 0;
        while p < patterns.len()
            invariant
                p <= patterns@.len(),
                lengths@ == regex_lengths(patterns@).take(p as int),
            decreases patterns@.len() - p,
        {
            let text: &str = patterns[p];
            let len = #[verifier::truncate] (text.len() as u32);
            lengths.push(len);
            proof {
                assert(text == patterns@[p as int]);
                assert(lengths@ =~= regex_lengths(patterns@).take(p + 1));
            }
            p += 1;
        }
        let ghost ms = match_seqs(matches@);
        proof {
            assert(lengths@ =~= regex_lengths(patterns@));
            assert(explored(keys@, next_keys@));
            lemma_explored_known(keys@, next_keys@);
            assert forall|j: int| 0 <= j < keys@.len() implies #[trigger] ms[j] == regex_accepted(texts, keys@[j]) by {
                assert(ms[j] == matches@[j]@);
            }
            assert(regex_exploration(texts, keys@, next_keys@, ms));
        }
        let table = match regex_table(&keys, &next_keys, &matches, &lengths) {
            Ok(t) => t,
            Err(e) => {
                proof {
                    assert(regex_failure(e@, texts, keys@, next_keys@, ms, lengths@));
                }
                return Err(e);
            },
        };
        let r = Self::compile(&table);
        proof {
            assert(keys@.len() <= MAX_STATES);
            assert(table@ == regex_table_view(keys@, next_keys@, ms, lengths@));
            if r is Ok {
                assert(regex_source(table@, texts, keys@, next_keys@, ms, lengths@));
            } else {
                assert(regex_failure(r->Err_0@, texts, keys@, next_keys@, ms, lengths@));
            }
        }
        r
    }
}

} // verus!
