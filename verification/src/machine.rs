//! What scanning computes: the matches that a DFA program reports for an input.
//!
//! A program reads one byte at a time. From state `s` on byte `b` it goes to the
//! target of transition `s * class_count + b`, with the accept flag removed. When
//! that target has a pattern, the program reports a match for each state of the
//! target's output chain (the target, then its output link, and so on) and
//! restarts from state 0; otherwise it moves to the target.

use vstd::prelude::*;
use crate::table::{clean, TableView};

verus! {

/// Marks a state without a pattern, and the end of an output chain.
pub const NO_PATTERN: u32 = 0xFFFF_FFFF;

/// A DFA program, with the ghost ranking that bounds its output chains.
pub ghost struct Program {
    /// Flat transitions, `state * class_count + byte`.
    pub transitions: Seq<u32>,
    /// Number of input classes.
    pub class_count: nat,
    /// Pattern of each state, [`NO_PATTERN`] when the state does not accept.
    pub accept: Seq<u32>,
    /// Fixed length of each pattern.
    pub pattern_lengths: Seq<u32>,
    /// Output link of each state, [`NO_PATTERN`] at the end of a chain.
    pub links: Seq<u32>,
    /// A rank that decreases along every output link.
    pub rank: Seq<nat>,
    /// Every rank is below this bound, so no chain is longer.
    pub max_chain: nat,
}

/// Raw transition from `s` on `b`: 0 past the end of the array.
pub open spec fn next_raw(p: Program, s: u32, b: u8) -> u32 {
    let idx = s * p.class_count + b;
    if idx < p.transitions.len() { p.transitions[idx] } else { 0 }
}

/// The state that `s` goes to on `b`.
pub open spec fn next_state(p: Program, s: u32, b: u8) -> u32 {
    clean(next_raw(p, s, b))
}

/// The pattern of state `s`, [`NO_PATTERN`] if none.
pub open spec fn accept_of(p: Program, s: u32) -> u32 {
    if s < p.accept.len() { p.accept[s as int] } else { NO_PATTERN }
}

/// The output link of state `s`, [`NO_PATTERN`] if none.
pub open spec fn link_of(p: Program, s: u32) -> u32 {
    if s < p.links.len() { p.links[s as int] } else { NO_PATTERN }
}

/// The fixed length of pattern `pid`, 0 if it has none.
pub open spec fn length_of(p: Program, pid: u32) -> u32 {
    if pid < p.pattern_lengths.len() { p.pattern_lengths[pid as int] } else { 0 }
}

/// The output chain from `o`: `o`, its link, and so on, for at most `fuel` states.
pub open spec fn chain(p: Program, o: u32, fuel: nat) -> Seq<u32>
    decreases fuel,
{
    if fuel == 0 || o == NO_PATTERN {
        Seq::empty()
    } else {
        seq![o] + chain(p, link_of(p, o), (fuel - 1) as nat)
    }
}

/// `end - len`, or 0 when that would be negative.
pub open spec fn saturating_sub(end: u32, len: u32) -> u32 {
    if end >= len { (end - len) as u32 } else { 0 }
}

/// The match that state `o` of an output chain reports at end offset `end`:
/// `(pattern_id, start, end)`, the start being the end less the pattern length.
pub open spec fn match_at(p: Program, o: u32, end: u32) -> (u32, u32, u32) {
    let pid = accept_of(p, o);
    (pid, saturating_sub(end, length_of(p, pid)), end)
}

/// The matches of the chain from `t`, all ending at `end`.
pub open spec fn chain_matches(p: Program, t: u32, end: u32) -> Seq<(u32, u32, u32)> {
    chain(p, t, p.max_chain).map_values(|o: u32| match_at(p, o, end))
}

/// The state after reading `input` from state 0, and every match reported on
/// the way, in order. End offsets are the byte positions plus one, as `u32`.
pub open spec fn run(p: Program, input: Seq<u8>) -> (u32, Seq<(u32, u32, u32)>)
    decreases input.len(),
{
    if input.len() == 0 {
        (0, Seq::empty())
    } else {
        let prev = run(p, input.drop_last());
        let t = next_state(p, prev.0, input.last());
        if accept_of(p, t) != NO_PATTERN {
            (0, prev.1 + chain_matches(p, t, input.len() as u32))
        } else {
            (t, prev.1)
        }
    }
}

/// Every match that the program reports for `input`.
pub open spec fn scan_matches(p: Program, input: Seq<u8>) -> Seq<(u32, u32, u32)> {
    run(p, input).1
}

/// The program is well formed: at least one state; the transition array
/// fills every row and only names states; every pattern has a length; output
/// links go to accepting states of lower rank; ranks are below `max_chain`.
pub open spec fn program_wf(p: Program) -> bool {
    let n = p.accept.len();
    &&& n > 0
    &&& p.class_count > 0
    &&& p.transitions.len() == n * p.class_count
    &&& p.links.len() == n
    &&& p.rank.len() == n
    &&& p.max_chain > 0
    &&& forall|i: int| 0 <= i < p.transitions.len() ==> (clean(#[trigger] p.transitions[i]) as nat) < n
    &&& forall|s: int| 0 <= s < n ==> #[trigger] p.accept[s] != NO_PATTERN ==> (p.accept[s] as nat) < p.pattern_lengths.len()
    &&& forall|s: int| 0 <= s < n ==> #[trigger] p.rank[s] < p.max_chain
    &&& forall|s: int| 0 <= s < n ==> #[trigger] p.links[s] != NO_PATTERN ==> {
        &&& (p.links[s] as nat) < n
        &&& p.accept[p.links[s] as int] != NO_PATTERN
        &&& p.rank[p.links[s] as int] < p.rank[s]
    }
}

/// The program that a table describes: its transitions, the pattern of each of
/// its states (the pattern of the last accept entry naming the state), no
/// output links.
pub open spec fn table_program(t: TableView) -> Program {
    Program {
        transitions: t.transitions,
        class_count: t.class_count,
        accept: Seq::new(t.state_count, |s: int| pattern_of_state(t.accept_states, s)),
        pattern_lengths: t.pattern_lengths,
        links: Seq::new(t.state_count, |s: int| NO_PATTERN),
        rank: Seq::new(t.state_count, |s: int| 0nat),
        max_chain: 1,
    }
}

/// The pattern of the last entry of `accepts` that names state `s`, or
/// [`NO_PATTERN`].
pub open spec fn pattern_of_state(accepts: Seq<(u32, u32)>, s: int) -> u32
    decreases accepts.len(),
{
    if accepts.len() == 0 {
        NO_PATTERN
    } else if accepts.last().0 == s {
        accepts.last().1
    } else {
        pattern_of_state(accepts.drop_last(), s)
    }
}

/// A chain run with more fuel than the rank of its start is the whole chain.
pub proof fn lemma_chain_fuel(p: Program, o: u32, f1: nat, f2: nat)
    requires
        program_wf(p),
        o == NO_PATTERN || (o < p.accept.len() && f1 > p.rank[o as int] && f2 > p.rank[o as int]),
    ensures
        chain(p, o, f1) == chain(p, o, f2),
    decreases f1,
{
    if o != NO_PATTERN {
        let l = link_of(p, o);
        if l != NO_PATTERN {
            lemma_chain_fuel(p, l, (f1 - 1) as nat, (f2 - 1) as nat);
        }
    }
}

/// A chain from a state has at most `rank + 1` states.
pub proof fn lemma_chain_len(p: Program, o: u32, f: nat)
    requires
        program_wf(p),
        o == NO_PATTERN || o < p.accept.len(),
    ensures
        o == NO_PATTERN ==> chain(p, o, f).len() == 0,
        o != NO_PATTERN ==> chain(p, o, f).len() <= p.rank[o as int] + 1,
    decreases f,
{
    if o != NO_PATTERN && f > 0 {
        let l = link_of(p, o);
        lemma_chain_len(p, l, (f - 1) as nat);
    }
}

/// At most `max_chain` matches per byte.
pub proof fn lemma_run_len(p: Program, input: Seq<u8>)
    requires
        program_wf(p),
    ensures
        run(p, input).1.len() <= input.len() * p.max_chain,
        (run(p, input).0 as nat) < p.accept.len(),
    decreases input.len(),
{
    if input.len() > 0 {
        lemma_run_len(p, input.drop_last());
        let prev = run(p, input.drop_last());
        let t = next_state(p, prev.0, input.last());
        let idx = prev.0 * p.class_count + input.last();
        if idx < p.transitions.len() {
            assert((clean(p.transitions[idx]) as nat) < p.accept.len());
        } else {
            assert(clean(0) == 0) by (bit_vector);
        }
        vstd::arithmetic::mul::lemma_mul_is_distributive_add_other_way(p.max_chain as int, input.len() - 1, 1);
        if accept_of(p, t) != NO_PATTERN {
            lemma_chain_len(p, t, p.max_chain);
            assert(chain_matches(p, t, input.len() as u32).len() == chain(p, t, p.max_chain).len());
        }
    }
}


/// Looking up a state in a list with one more entry at the end.
pub proof fn lemma_pattern_of_state_push(accepts: Seq<(u32, u32)>, e: (u32, u32), g: int)
    ensures
        pattern_of_state(accepts.push(e), g) == if e.0 == g { e.1 } else { pattern_of_state(accepts, g) },
{
    assert(accepts.push(e).drop_last() =~= accepts);
}

} // verus!
