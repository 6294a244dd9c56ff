//! A compiled DFA that scans byte strings for its patterns.

use vstd::prelude::*;
use vstd::string::*;

pub mod literal;
pub mod regex;
use matchkit::Match;
use crate::codegen::{compile_x86_64, compile_ready, compiled_program, links_ranked, accept_table, written,
    ExecutableBuffer, MAX_COMPILE_STATES, MAX_JIT_STATES};
use crate::error::{decimal, text_then_number, Error, ErrorView};
use crate::machine::{scan_matches, table_program, Program, NO_PATTERN, lemma_run_len};
use crate::table::minimize::{is_canonical, is_quotient, is_stable, lemma_minimize_keeps_matches, lemma_quotient_shape};
use crate::table::reach::part_scans_like;
use crate::outside::match_of;
use crate::table::{accept_entry_ok, accepts_ok, clean, first_bad_accept, accept_error, reason_target_exceeds,
    TableView, TransitionTable, ACCEPT_FLAG, STATE_MASK};

verus! {

/// The reason given when the class count is not 256.
pub open spec fn reason_class_count(class_count: nat) -> Seq<char> {
    "class_count must be 256 for JIT, got "@ + decimal(class_count)
}

/// The reason given when `state_count * class_count` overflows.
pub open spec fn reason_dims_overflow_jit(state_count: nat, class_count: nat) -> Seq<char> {
    "state_count="@ + decimal(state_count) + " * class_count="@ + decimal(class_count) + " overflows"@
}

/// The reason given when the transition array has the wrong length.
pub open spec fn reason_len_jit(len: nat, state_count: nat, class_count: nat, expected: nat) -> Seq<char> {
    "transition table has "@ + decimal(len) + " entries but state_count="@ + decimal(state_count)
        + " * class_count="@ + decimal(class_count) + " = "@ + decimal(expected)
}

/// The reason given when there are output links but not one per state.
pub open spec fn reason_links_len(len: nat, state_count: nat) -> Seq<char> {
    "output_links has "@ + decimal(len) + " entries but state_count is "@ + decimal(state_count)
}

/// The reason given when a transition carries the accept flag to a state that
/// no accept entry names.
pub open spec fn reason_flag_not_accept(state: nat) -> Seq<char> {
    "transition target state "@ + decimal(state) + " has bit 31 set but is not an accept state"@
}

/// The states that the accept entries name.
pub open spec fn accept_state_set(accepts: Seq<(u32, u32)>) -> Set<u32> {
    Set::new(|s: u32| exists|k: int| 0 <= k < accepts.len() && #[trigger] accepts[k].0 == s)
}

/// Transition `t` is refused: its target is not a state, or it carries the
/// accept flag to a state that no accept entry names.
pub open spec fn transition_refused(t: u32, state_count: nat, accepts: Seq<(u32, u32)>) -> bool {
    ||| clean(t) as nat >= state_count
    ||| (t & ACCEPT_FLAG) != 0 && !accept_state_set(accepts).contains(clean(t))
}

/// Index of the first refused transition, or -1.
pub open spec fn first_refused(transitions: Seq<u32>, state_count: nat, accepts: Seq<(u32, u32)>) -> int
    decreases transitions.len(),
{
    if transitions.len() == 0 {
        -1
    } else {
        let k = first_refused(transitions.drop_last(), state_count, accepts);
        if k >= 0 {
            k
        } else if transition_refused(transitions.last(), state_count, accepts) {
            transitions.len() - 1
        } else {
            -1
        }
    }
}

/// What compiling `t` with output links `links` reports: `None` when it
/// compiles, else the error of the first check that fails.
pub open spec fn compile_fault(t: TableView, links: Seq<u32>) -> Option<ErrorView> {
    let n = t.state_count;
    let c = t.class_count;
    if n == 0 {
        Some(ErrorView::EmptyDfa)
    } else if c != 256 {
        Some(ErrorView::InvalidTable(reason_class_count(c)))
    } else if n * c > usize::MAX {
        Some(ErrorView::InvalidTable(reason_dims_overflow_jit(n, c)))
    } else if t.transitions.len() != n * c {
        Some(ErrorView::InvalidTable(reason_len_jit(t.transitions.len(), n, c, n * c)))
    } else if links.len() != 0 && links.len() != n {
        Some(ErrorView::InvalidTable(reason_links_len(links.len(), n)))
    } else if first_refused(t.transitions, n, t.accept_states) >= 0 {
        let bad = t.transitions[first_refused(t.transitions, n, t.accept_states)];
        if clean(bad) as nat >= n {
            Some(ErrorView::InvalidTable(reason_target_exceeds(clean(bad) as nat, n)))
        } else {
            Some(ErrorView::InvalidTable(reason_flag_not_accept(clean(bad) as nat)))
        }
    } else if first_bad_accept(t.accept_states, n, t.pattern_lengths.len()) >= 0 {
        Some(accept_error(t.accept_states, first_bad_accept(t.accept_states, n, t.pattern_lengths.len()), n))
    } else if n > MAX_COMPILE_STATES {
        Some(ErrorView::TooManyStates(n as usize, MAX_COMPILE_STATES))
    } else {
        None
    }
}

/// The number of patterns the accept entries mention: one more than the
/// largest pattern id, or 0 without entries.
pub open spec fn pattern_count_of(accepts: Seq<(u32, u32)>) -> nat
    decreases accepts.len(),
{
    if accepts.len() == 0 {
        0
    } else {
        let rest = pattern_count_of(accepts.drop_last());
        let here = accepts.last().1 as nat + 1;
        if here > rest { here } else { rest }
    }
}

/// A JIT-compiled DFA that scans input for its patterns.
#[derive(Debug)]
pub struct JitDfa {
    code: ExecutableBuffer,
    state_count: usize,
    pattern_count: usize,
    output_links: Vec<u32>,
}

impl JitDfa {
    /// The consistency of a compiled DFA: its counts describe its table.
    #[verifier::type_invariant]
    closed spec fn inv(&self) -> bool {
        &&& self.state_count == self.code.program().accept.len()
        &&& self.pattern_count == pattern_count_of(self.code.source().accept_states)
    }

    /// The program the DFA runs.
    pub closed spec fn program(&self) -> Program {
        self.code.program()
    }

    /// The table it was compiled from.
    pub closed spec fn source(&self) -> TableView {
        self.code.source()
    }

    /// Whether it holds a code image of the scan loop (at most 4096 states).
    pub closed spec fn has_image(&self) -> bool {
        self.code.has_image()
    }
}

proof fn lemma_first_refused(transitions: Seq<u32>, state_count: nat, accepts: Seq<(u32, u32)>)
    ensures
        first_refused(transitions, state_count, accepts) < transitions.len(),
        first_refused(transitions, state_count, accepts) < 0 <==> forall|i: int|
            0 <= i < transitions.len() ==> !transition_refused(#[trigger] transitions[i], state_count, accepts),
        first_refused(transitions, state_count, accepts) >= 0 ==> {
            let k = first_refused(transitions, state_count, accepts);
            &&& transition_refused(transitions[k], state_count, accepts)
            &&& forall|i: int| 0 <= i < k ==> !transition_refused(#[trigger] transitions[i], state_count, accepts)
        },
    decreases transitions.len(),
{
    if transitions.len() > 0 {
        let prefix = transitions.drop_last();
        lemma_first_refused(prefix, state_count, accepts);
        assert forall|i: int| 0 <= i < prefix.len() implies prefix[i] == transitions[i] by {}
    }
}

proof fn lemma_first_bad_accept_spec(accepts: Seq<(u32, u32)>, state_count: nat, pattern_count: nat)
    ensures
        first_bad_accept(accepts, state_count, pattern_count) < accepts.len(),
        first_bad_accept(accepts, state_count, pattern_count) < 0 <==> accepts_ok(accepts, state_count, pattern_count),
        first_bad_accept(accepts, state_count, pattern_count) >= 0 ==> {
            let k = first_bad_accept(accepts, state_count, pattern_count);
            &&& !accept_entry_ok(accepts, k, state_count, pattern_count)
            &&& forall|i: int| 0 <= i < k ==> accept_entry_ok(accepts, i, state_count, pattern_count)
        },
{
    crate::table::lemma_first_bad_accept(accepts, state_count, pattern_count);
}

fn reason_class_count_text(class_count: usize) -> (r: String)
    ensures
        r@ == reason_class_count(class_count as nat),
{
    text_then_number("class_count must be 256 for JIT, got ", class_count as u64)
}

fn reason_dims_overflow_text(state_count: usize, class_count: usize) -> (r: String)
    ensures
        r@ == reason_dims_overflow_jit(state_count as nat, class_count as nat),
{
    let mut s = text_then_number("state_count=", state_count as u64);
    let mid = text_then_number(" * class_count=", class_count as u64);
    s.append(mid.as_str());
    s.append(" overflows");
    s
}

fn reason_len_text(len: usize, state_count: usize, class_count: usize, expected: usize) -> (r: String)
    ensures
        r@ == reason_len_jit(len as nat, state_count as nat, class_count as nat, expected as nat),
{
    let mut s = text_then_number("transition table has ", len as u64);
    let a = text_then_number(" entries but state_count=", state_count as u64);
    s.append(a.as_str());
    let b = text_then_number(" * class_count=", class_count as u64);
    s.append(b.as_str());
    let c = text_then_number(" = ", expected as u64);
    s.append(c.as_str());
    s
}

fn reason_links_len_text(len: usize, state_count: usize) -> (r: String)
    ensures
        r@ == reason_links_len(len as nat, state_count as nat),
{
    let mut s = text_then_number("output_links has ", len as u64);
    let a = text_then_number(" entries but state_count is ", state_count as u64);
    s.append(a.as_str());
    s
}

fn reason_target_text(state: u32, state_count: usize) -> (r: String)
    ensures
        r@ == reason_target_exceeds(state as nat, state_count as nat),
{
    let mut s = text_then_number("transition target state ", state as u64);
    let a = text_then_number(" exceeds state count ", state_count as u64);
    s.append(a.as_str());
    s
}

fn reason_flag_text(state: u32) -> (r: String)
    ensures
        r@ == reason_flag_not_accept(state as nat),
{
    let mut s = text_then_number("transition target state ", state as u64);
    s.append(" has bit 31 set but is not an accept state");
    s
}

fn invalid(reason: String) -> (r: Error)
    ensures
        r@ == ErrorView::InvalidTable(reason@),
{
    Error::InvalidTable { reason }
}

impl JitDfa {
    /// Compile a DFA transition table to native code.
    ///
    /// # Errors
    ///
    /// The error of the first check that fails, as [`compile_fault`] lists
    /// them: [`Error::EmptyDfa`] for a table without states,
    /// [`Error::InvalidTable`] when the table is inconsistent,
    /// [`Error::TooManyStates`] beyond 65536 states.
    pub fn compile(table: &TransitionTable) -> (r: Result<Self, Error>)
        ensures
            r is Ok <==> compile_fault(table@, Seq::empty()) is None,
            r matches Err(e) ==> compile_fault(table@, Seq::empty()) == Some(e@),
            r matches Ok(j) ==> j.program() == compiled_program(table@, Seq::empty()) && j.source() == table@,
            r matches Ok(j) ==> j.program() == table_program(table@),
            r matches Ok(j) ==> j.has_image() == (table@.state_count <= MAX_JIT_STATES),
    {
        proof {
            assert(compiled_program(table@, Seq::empty()) == table_program(table@));
        }
        let no_links: Vec<u32> = Vec::new();
        proof {
            if table@.state_count == 0 {
                assert(links_ranked(no_links@, accept_table(table@), Seq::empty()));
            }
        }
        Self::compile_with_output_links(table, no_links.as_slice())
    }

    /// Check and compile `table` with an output link per state (or none).
    ///
    /// A full set of output links must not loop: some rank must fall along
    /// every link. Scanning follows a state's links until one is absent, so
    /// on looping links a scan would never end; the callers pass no links,
    /// or the failure-derived links of a literal matcher, which lead to
    /// ever shorter strings.
    fn compile_with_output_links(table: &TransitionTable, output_links: &[u32]) -> (r: Result<Self, Error>)
        requires
            output_links@.len() == table@.state_count
                ==> exists|rank: Seq<nat>| links_ranked(output_links@, accept_table(table@), rank),
        ensures
            r is Ok <==> compile_fault(table@, output_links@) is None,
            r matches Err(e) ==> compile_fault(table@, output_links@) == Some(e@),
            r matches Ok(j) ==> j.program() == compiled_program(table@, output_links@) && j.source() == table@,
            r matches Ok(j) ==> j.has_image() == (table@.state_count <= MAX_JIT_STATES),
    {
        broadcast use vstd::std_specs::hash::group_hash_axioms;
        let n = table.state_count();
        let c = table.class_count();
        if n == 0 {
            return Err(Error::EmptyDfa);
        }
        if c != 256 {
            return Err(invalid(reason_class_count_text(c)));
        }
        let expected_len = match n.checked_mul(c) {
            Some(x) => x,
            None => {
                return Err(invalid(reason_dims_overflow_text(n, c)));
            },
        };
        let transitions = table.transitions();
        if transitions.len() != expected_len {
            return Err(invalid(reason_len_text(transitions.len(), n, c, expected_len)));
        }
        if output_links.len() != 0 && output_links.len() != n {
            return Err(invalid(reason_links_len_text(output_links.len(), n)));
        }
        let accepts = table.accept_states();
        let mut accept_set: std::collections::HashSet<u32> = std::collections::HashSet::new();
        let mut k: usize = 0;
        while k < accepts.len()
            invariant
                k <= accepts@.len(),
                accept_set@ == Set::new(|s: u32| exists|j: int| 0 <= j < k && #[trigger] accepts@[j].0 == s),
            decreases accepts@.len() - k,
        {
            let (s, _) = accepts[k];
            accept_set.insert(s);
            proof {
                assert(accept_set@ =~= Set::new(|x: u32| exists|j: int| 0 <= j < k + 1 && #[trigger] accepts@[j].0 == x)) by {
                    assert(accepts@[k as int].0 == s);
                }
            }
            k += 1;
        }
        proof {
            assert(accept_set@ =~= accept_state_set(table@.accept_states));
        }
        let mut i: usize = 0;
        while i < transitions.len()
            invariant
                i <= transitions@.len(),
                transitions@ == table@.transitions,
                n > 0,
                c == 256,
                c == table@.class_count,
                transitions@.len() == n * c,
                output_links@.len() == 0 || output_links@.len() == n,
                accepts@ == table@.accept_states,
                n == table@.state_count,
                accept_set@ == accept_state_set(table@.accept_states),
                forall|j: int| 0 <= j < i ==> !transition_refused(#[trigger] transitions@[j], n as nat, accepts@),
            decreases transitions@.len() - i,
        {
            let t = transitions[i];
            let state = t & STATE_MASK;
            if state as usize >= n {
                proof {
                    lemma_first_refused(transitions@, n as nat, accepts@);
                    assert(transition_refused(transitions@[i as int], n as nat, accepts@));
                    assert(first_refused(transitions@, n as nat, accepts@) == i as int);
                }
                return Err(invalid(reason_target_text(state, n)));
            }
            if (t & ACCEPT_FLAG) != 0 && !accept_set.contains(&state) {
                proof {
                    lemma_first_refused(transitions@, n as nat, accepts@);
                    assert(transition_refused(transitions@[i as int], n as nat, accepts@));
                    assert(first_refused(transitions@, n as nat, accepts@) == i as int);
                }
                return Err(invalid(reason_flag_text(state)));
            }
            i += 1;
        }
        proof {
            lemma_first_refused(transitions@, n as nat, accepts@);
        }
        let pat_len = table.pattern_lengths().len();
        let mut seen_states: Vec<bool> = vec![false; n];
        let mut k: usize = 0;
        while k < accepts.len()
            invariant
                k <= accepts@.len(),
                accepts@ == table@.accept_states,
                n == table@.state_count,
                n > 0,
                c == 256,
                c == table@.class_count,
                transitions@ == table@.transitions,
                transitions@.len() == n * c,
                output_links@.len() == 0 || output_links@.len() == n,
                first_refused(transitions@, n as nat, accepts@) < 0,
                n * c <= usize::MAX,
                pat_len == table@.pattern_lengths.len(),
                seen_states@.len() == n,
                forall|j: int| 0 <= j < k ==> accept_entry_ok(accepts@, j, n as nat, pat_len as nat),
                forall|s: int| 0 <= s < n ==> (#[trigger] seen_states@[s] <==>
                    exists|j: int| 0 <= j < k && accepts@[j].0 == s),
            decreases accepts@.len() - k,
        {
            let (state, pid) = accepts[k];
            if state as usize >= n {
                proof {
                    lemma_first_bad_accept_spec(accepts@, n as nat, pat_len as nat);
                    assert(!accept_entry_ok(accepts@, k as int, n as nat, pat_len as nat));
                    assert(first_bad_accept(accepts@, n as nat, pat_len as nat) == k as int);
                }
                return Err(invalid(reason_accept_text(state, n)));
            }
            if seen_states[state as usize] {
                proof {
                    lemma_first_bad_accept_spec(accepts@, n as nat, pat_len as nat);
                    assert(!accept_entry_ok(accepts@, k as int, n as nat, pat_len as nat));
                    assert(first_bad_accept(accepts@, n as nat, pat_len as nat) == k as int);
                }
                return Err(invalid(reason_multiple_text(state)));
            }
            seen_states.set(state as usize, true);
            if pid as usize >= pat_len {
                proof {
                    lemma_first_bad_accept_spec(accepts@, n as nat, pat_len as nat);
                    assert(!accept_entry_ok(accepts@, k as int, n as nat, pat_len as nat));
                    assert(first_bad_accept(accepts@, n as nat, pat_len as nat) == k as int);
                }
                return Err(invalid(reason_missing_text(pid)));
            }
            k += 1;
        }
        proof {
            lemma_first_bad_accept_spec(accepts@, n as nat, pat_len as nat);
            assert forall|j: int| 0 <= j < accepts@.len() implies #[trigger] accepts@[j].1 < usize::MAX by {
                assert(accept_entry_ok(accepts@, j, n as nat, pat_len as nat));
            }
        }
        let pattern_count = count_patterns(accepts);
        let code = match compile_x86_64(table, output_links) {
            Ok(b) => b,
            Err(e) => {
                return Err(e);
            },
        };
        let links = copy_words(output_links);
        Ok(JitDfa { code, state_count: n, pattern_count, output_links: links })
    }
}

/// One more than the largest pattern id of the entries, or 0.
fn count_patterns(accepts: &[(u32, u32)]) -> (r: usize)
    requires
        forall|k: int| 0 <= k < accepts@.len() ==> #[trigger] accepts@[k].1 < usize::MAX,
    ensures
        r == pattern_count_of(accepts@),
{
    let mut best: usize = 0;
    let mut k: usize = 0;
    while k < accepts.len()
        invariant
            k <= accepts@.len(),
            best == pattern_count_of(accepts@.take(k as int)),
            forall|j: int| 0 <= j < accepts@.len() ==> #[trigger] accepts@[j].1 < usize::MAX,
        decreases accepts@.len() - k,
    {
        let (_, pid) = accepts[k];
        proof {
            assert(accepts@.take(k + 1).drop_last() =~= accepts@.take(k as int));
        }
        let here = pid as usize + 1;
        if here > best {
            best = here;
        }
        k += 1;
    }
    proof {
        assert(accepts@.take(k as int) =~= accepts@);
    }
    best
}

fn copy_words(s: &[u32]) -> (r: Vec<u32>)
    ensures
        r@ == s@,
{
    let mut v: Vec<u32> = Vec::with_capacity(s.len());
    let mut i: usize = 0;
    while i < s.len()
        invariant
            i <= s@.len(),
            v@ == s@.take(i as int),
        decreases s@.len() - i,
    {
        v.push(s[i]);
        proof {
            assert(s@.take(i + 1) =~= s@.take(i as int).push(s@[i as int]));
        }
        i += 1;
    }
    proof {
        assert(s@.take(i as int) =~= s@);
    }
    v
}

fn reason_accept_text(state: u32, state_count: usize) -> (r: String)
    ensures
        r@ == crate::table::reason_accept_exceeds(state as nat, state_count as nat),
{
    let mut s = text_then_number("accept state ", state as u64);
    let a = text_then_number(" exceeds state count ", state_count as u64);
    s.append(a.as_str());
    s
}

fn reason_multiple_text(state: u32) -> (r: String)
    ensures
        r@ == crate::table::reason_multiple_accepts(state as nat),
{
    let mut s = text_then_number("state ", state as u64);
    s.append(" has multiple accept patterns, which is not supported");
    s
}

fn reason_missing_text(pid: u32) -> (r: String)
    ensures
        r@ == crate::table::reason_missing_length(pid as nat),
{
    let mut s = text_then_number("pattern ID ", pid as u64);
    s.append(" in accept states has no length defined");
    s
}

/// The number of matches that scanning `input` reports, or 0 when the input
/// is too long for a code image.
pub open spec fn jit_count(j: JitDfa, input: Seq<u8>) -> nat {
    if j.has_image() && input.len() > u32::MAX { 0 } else { scan_matches(j.program(), input).len() }
}

/// The number of matches that scanning `input` into a buffer of `cap` slots
/// writes: all of them, up to `cap`.
pub open spec fn scan_written(j: JitDfa, input: Seq<u8>, cap: nat) -> nat {
    if jit_count(j, input) < cap { jit_count(j, input) } else { cap }
}

/// Counting agrees with scanning: a buffer with room for every match
/// receives as many as [`JitDfa::scan_count`] reports; one with fewer slots
/// receives as many as it has.
pub proof fn lemma_count_agrees_with_scan(j: JitDfa, input: Seq<u8>, cap: nat)
    ensures
        cap >= jit_count(j, input) ==> scan_written(j, input, cap) == jit_count(j, input),
        cap < jit_count(j, input) ==> scan_written(j, input, cap) == cap,
{
}

/// Minimizing keeps what a compiled DFA counts: a DFA compiled from a table
/// of 256 classes, and one compiled from the table that
/// [`TransitionTable::minimize`] makes of it (the table `m` of the groups
/// `p` of its reachable part `rt`), count the same matches on every input
/// of at most `u32::MAX` bytes, whether each runs with a code image or
/// without. Each state of the table must carry at most one accept entry.
pub proof fn lemma_minimized_counts_agree(t: TableView, rt: TableView, p: Seq<u32>, m: TableView, j: JitDfa, j2: JitDfa, input: Seq<u8>)
    requires
        part_scans_like(t, rt),
        t.class_count == 256,
        forall|i: int, k: int| 0 <= i < k < t.accept_states.len()
            ==> #[trigger] t.accept_states[i].0 != #[trigger] t.accept_states[k].0,
        is_stable(rt, p),
        is_canonical(p),
        is_quotient(rt, p, m),
        j.program() == table_program(t),
        j2.program() == table_program(m),
        input.len() <= u32::MAX,
    ensures
        jit_count(j, input) == jit_count(j2, input),
{
    lemma_minimize_keeps_matches(t, rt, p, m, input);
}

/// Minimizing keeps what a compiled buffer finds: the buffer compiled
/// without output links from a table of 256 classes (the interpreted one
/// when it has too many states for a code image), and the one compiled from
/// the table that [`TransitionTable::minimize`] makes of it (the table `m` of
/// the groups `p` of its reachable part `rt`), report the same matches on
/// every input. Each state of the table must carry at most one accept entry.
pub proof fn lemma_minimized_buffers_agree(t: TableView, rt: TableView, p: Seq<u32>, m: TableView,
    b: ExecutableBuffer, b2: ExecutableBuffer, input: Seq<u8>)
    requires
        part_scans_like(t, rt),
        t.class_count == 256,
        forall|i: int, k: int| 0 <= i < k < t.accept_states.len()
            ==> #[trigger] t.accept_states[i].0 != #[trigger] t.accept_states[k].0,
        is_stable(rt, p),
        is_canonical(p),
        is_quotient(rt, p, m),
        b.program() == compiled_program(t, Seq::empty()),
        b2.program() == compiled_program(m, Seq::empty()),
    ensures
        scan_matches(b.program(), input) == scan_matches(b2.program(), input),
{
    assert(compiled_program(t, Seq::empty()) == table_program(t));
    assert(compiled_program(m, Seq::empty()) == table_program(m));
    lemma_minimize_keeps_matches(t, rt, p, m, input);
}

/// Minimizing keeps a table compilable: where a table whose transitions
/// name states, and whose states carry at most one accept entry each, passes
/// the compile check, so does the table that [`TransitionTable::minimize`]
/// returns for it (the table `m` of the groups `p` of its reachable part
/// `rt`, with fewer states).
pub proof fn lemma_minimized_compiles(t: TableView, rt: TableView, p: Seq<u32>, m: TableView)
    requires
        part_scans_like(t, rt),
        forall|i: int, k: int| 0 <= i < k < t.accept_states.len()
            ==> #[trigger] t.accept_states[i].0 != #[trigger] t.accept_states[k].0,
        is_stable(rt, p),
        is_canonical(p),
        is_quotient(rt, p, m),
        compile_fault(t, Seq::empty()) is None,
        m.state_count < t.state_count,
    ensures
        compile_fault(m, Seq::empty()) is None,
{
    lemma_first_bad_accept_spec(t.accept_states, t.state_count, t.pattern_lengths.len());
    assert forall|k: int| 0 <= k < t.accept_states.len() implies (#[trigger] t.accept_states[k].1 as nat) < t.pattern_lengths.len() by {
        assert(accept_entry_ok(t.accept_states, k, t.state_count, t.pattern_lengths.len()));
    }
    lemma_quotient_shape(t, rt, p, m);
    let n = m.state_count;
    let tr = m.transitions;
    assert forall|x: u32| x < 0x1_0000u32 implies clean(x) == x && (x & ACCEPT_FLAG) == 0 by {
        assert(x < 0x1_0000u32 ==> x & 0x7FFF_FFFFu32 == x && (x & 0x8000_0000u32) == 0) by (bit_vector);
    }
    assert forall|i: int| 0 <= i < tr.len() implies !transition_refused(#[trigger] tr[i], n, m.accept_states) by {
        assert((tr[i] as nat) < n);
        assert(tr[i] < 0x1_0000u32);
    }
    lemma_first_refused(tr, n, m.accept_states);
    lemma_first_bad_accept_spec(m.accept_states, n, m.pattern_lengths.len());
    assert(t.class_count == 256 && t.state_count <= MAX_COMPILE_STATES);
    assert(m.class_count == 256);
    assert(n * 256 <= 0x100_0000) by (nonlinear_arith)
        requires n < 0x1_0001;
    assert(tr.len() == n * 256);
    assert(first_refused(tr, n, m.accept_states) < 0);
    assert(first_bad_accept(m.accept_states, n, m.pattern_lengths.len()) < 0);
}

/// Law: the compile check accepts every well-formed byte-indexed table
/// without output links: 1 to 65536 states, 256 classes, a transition per
/// state and byte whose target, its high bit removed, is a state, and whose
/// high bit is set only where some accept entry names that target; accept
/// entries that name distinct states and patterns with a length.
pub proof fn lemma_compile_accepts_well_formed(t: TableView)
    requires
        0 < t.state_count <= 65536,
        t.class_count == 256,
        t.transitions.len() == t.state_count * 256,
        forall|i: int| 0 <= i < t.transitions.len() ==> ((#[trigger] t.transitions[i] & 0x7FFF_FFFFu32) as nat) < t.state_count,
        forall|i: int| 0 <= i < t.transitions.len() && (#[trigger] t.transitions[i] & 0x8000_0000u32) != 0
            ==> exists|k: int| 0 <= k < t.accept_states.len() && t.accept_states[k].0 == t.transitions[i] & 0x7FFF_FFFFu32,
        forall|k: int| 0 <= k < t.accept_states.len() ==> (#[trigger] t.accept_states[k].0 as nat) < t.state_count
            && (t.accept_states[k].1 as nat) < t.pattern_lengths.len(),
        forall|i: int, k: int| 0 <= i < k < t.accept_states.len() ==> #[trigger] t.accept_states[i].0 != #[trigger] t.accept_states[k].0,
    ensures
        compile_fault(t, Seq::empty()) is None,
{
    let n = t.state_count;
    let tr = t.transitions;
    assert(n * 256 <= 0x100_0000) by (nonlinear_arith)
        requires n <= 65536;
    assert forall|i: int| 0 <= i < tr.len() implies !transition_refused(#[trigger] tr[i], n, t.accept_states) by {
        let x = tr[i];
        assert(clean(x) == x & 0x7FFF_FFFFu32);
        if (x & ACCEPT_FLAG) != 0 {
            assert((x & 0x8000_0000u32) != 0);
            let k = choose|k: int| 0 <= k < t.accept_states.len() && t.accept_states[k].0 == x & 0x7FFF_FFFFu32;
            assert(accept_state_set(t.accept_states).contains(clean(x)));
        }
    }
    lemma_first_refused(tr, n, t.accept_states);
    assert(accepts_ok(t.accept_states, n, t.pattern_lengths.len())) by {
        assert forall|k: int| 0 <= k < t.accept_states.len() implies accept_entry_ok(t.accept_states, k, n, t.pattern_lengths.len()) by {
            assert forall|j: int| 0 <= j < k implies t.accept_states[j].0 != t.accept_states[k].0 by {}
        }
    }
    lemma_first_bad_accept_spec(t.accept_states, n, t.pattern_lengths.len());
}

impl JitDfa {
    /// Scan input bytes, writing matches into `matches` as far as they fit.
    ///
    /// Returns the number of matches written: all of them, up to the length
    /// of `matches`. An input longer than `u32::MAX` bytes, which the code
    /// image's 32-bit position cannot address, gives 0 and leaves `matches`
    /// as it was.
    pub fn scan(&self, input: &[u8], matches: &mut [Match]) -> (r: usize)
        requires
            input@.len() * self.program().max_chain <= usize::MAX,
        ensures
            r == scan_written(*self, input@, old(matches)@.len()),
            self.has_image() && input@.len() > u32::MAX ==> r == 0 && final(matches)@ == old(matches)@,
            !(self.has_image() && input@.len() > u32::MAX) ==> {
                let ms = scan_matches(self.program(), input@);
                &&& r == if ms.len() < old(matches)@.len() { ms.len() } else { old(matches)@.len() }
                &&& written(old(matches)@, final(matches)@, ms)
            },
    {
        match self.code.scan(input, matches) {
            Ok(n) => n,
            Err(_) => 0,
        }
    }

    /// The compiled code and the tables it reads.
    pub fn buffer(&self) -> (r: &ExecutableBuffer)
        ensures
            r.program() == self.program(),
            r.has_image() == self.has_image(),
    {
        &self.code
    }

    /// Number of DFA states.
    pub fn state_count(&self) -> (r: usize)
        ensures
            r == self.program().accept.len(),
    {
        proof {
            use_type_invariant(self);
        }
        self.state_count
    }

    /// Number of patterns recognized: one more than the largest pattern id of
    /// the accept entries, or 0.
    pub fn pattern_count(&self) -> (r: usize)
        ensures
            r == pattern_count_of(self.source().accept_states),
    {
        proof {
            use_type_invariant(self);
        }
        self.pattern_count
    }

    /// Count the matches in `input` without writing them (0 for an input
    /// longer than `u32::MAX` bytes when there is a code image).
    pub fn scan_count(&self, input: &[u8]) -> (r: usize)
        requires
            input@.len() * self.program().max_chain <= usize::MAX,
        ensures
            r == jit_count(*self, input@),
    {
        match self.code.scan_count(input) {
            Ok(n) => n,
            Err(_) => 0,
        }
    }

    /// The first match, if any, returned as soon as it is found: the scan
    /// stops at the first transition into an accepting state.
    pub fn scan_first(&self, input: &[u8]) -> (r: Option<Match>)
        ensures
            ({
                let ms = scan_matches(self.program(), input@);
                &&& jit_count(*self, input@) == 0 ==> r is None
                &&& jit_count(*self, input@) > 0 ==> r == Some(match_of(ms[0].0, ms[0].1, ms[0].2))
            }),
    {
        proof {
            use_type_invariant(self);
        }
        if self.code.is_jit() && input.len() > u32::MAX as usize {
            return None;
        }
        match self.code.first_match(input) {
            Some((pid, start, end)) => Some(Match::from_parts(pid, start, end)),
            None => None,
        }
    }

    /// Whether the input contains any match at all.
    pub fn has_match(&self, input: &[u8]) -> (r: bool)
        ensures
            r == (jit_count(*self, input@) > 0),
    {
        self.scan_first(input).is_some()
    }
}

} // verus!
