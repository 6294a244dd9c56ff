//! The DFA transition table that the compiler consumes.

use vstd::prelude::*;
use vstd::string::*;
use crate::error::{decimal, text_then_number, Error, ErrorView};

pub mod serial;
pub mod minimize;
pub mod reach;

verus! {

/// Maximum states allowed in a single DFA.
pub const MAX_STATES: usize = 65_536;

/// Cap on the number of transition entries that [`TransitionTable::new`] allocates.
pub const MAX_TOTAL_TRANSITIONS: usize = 268_435_456;

/// Mask that strips the accept flag from a transition target.
pub const STATE_MASK: u32 = 0x7FFF_FFFF;

/// Bit 31 of a transition target: the target is an accept state.
pub const ACCEPT_FLAG: u32 = 0x8000_0000;

/// DFA transition table consumed by the compiler.
#[derive(Debug, Clone)]
pub struct TransitionTable {
    state_count: usize,
    class_count: usize,
    transitions: Vec<u32>,
    accept_states: Vec<(u32, u32)>,
    pattern_lengths: Vec<u32>,
}

/// The mathematical content of a [`TransitionTable`].
pub ghost struct TableView {
    /// Number of DFA states.
    pub state_count: nat,
    /// Number of input classes (256 for byte-indexed tables).
    pub class_count: nat,
    /// Flat transitions: entry `state * class_count + class` is the next state,
    /// with bit 31 optionally set when the target accepts.
    pub transitions: Seq<u32>,
    /// `(state, pattern_id)` pairs, in insertion order.
    pub accept_states: Seq<(u32, u32)>,
    /// Fixed length of each pattern, by pattern id.
    pub pattern_lengths: Seq<u32>,
}

impl View for TransitionTable {
    type V = TableView;

    closed spec fn view(&self) -> TableView {
        TableView {
            state_count: self.state_count as nat,
            class_count: self.class_count as nat,
            transitions: self.transitions@,
            accept_states: self.accept_states@,
            pattern_lengths: self.pattern_lengths@,
        }
    }
}

/// A transition target with the accept flag removed.
pub open spec fn clean(t: u32) -> u32 {
    t & STATE_MASK
}

/// The reason given when the class count is zero.
pub open spec fn reason_zero_classes() -> Seq<char> {
    "class_count must be greater than 0"@
}

/// The reason given when `state_count * class_count` overflows.
pub open spec fn reason_dims_overflow() -> Seq<char> {
    "state_count * class_count overflow"@
}

/// The reason given when the transition array has the wrong length.
pub open spec fn reason_len_mismatch(actual: nat, expected: nat) -> Seq<char> {
    "transition table has "@ + decimal(actual) + " entries but expected "@ + decimal(expected)
}

/// The reason given when a transition target is out of range.
pub open spec fn reason_target_exceeds(target: nat, state_count: nat) -> Seq<char> {
    "transition target state "@ + decimal(target) + " exceeds state count "@ + decimal(state_count)
}

/// The reason given when an accept state is out of range.
pub open spec fn reason_accept_exceeds(state: nat, state_count: nat) -> Seq<char> {
    "accept state "@ + decimal(state) + " exceeds state count "@ + decimal(state_count)
}

/// The reason given when a state accepts twice.
pub open spec fn reason_multiple_accepts(state: nat) -> Seq<char> {
    "state "@ + decimal(state) + " has multiple accept patterns, which is not supported"@
}

/// The reason given when an accepted pattern has no length.
pub open spec fn reason_missing_length(pid: nat) -> Seq<char> {
    "pattern ID "@ + decimal(pid) + " in accept states has no length defined"@
}

/// Index of the first transition whose target (flag removed) is not a state, if any.
pub open spec fn first_bad_target(transitions: Seq<u32>, state_count: nat) -> int
    decreases transitions.len(),
{
    if transitions.len() == 0 {
        -1
    } else {
        let k = first_bad_target(transitions.drop_last(), state_count);
        if k >= 0 {
            k
        } else if clean(transitions.last()) as nat >= state_count {
            transitions.len() - 1
        } else {
            -1
        }
    }
}

/// Accept entry `k` is acceptable given that all before it were: its state is in
/// range, no earlier entry names the same state, and its pattern has a length.
pub open spec fn accept_entry_ok(
    accepts: Seq<(u32, u32)>,
    k: int,
    state_count: nat,
    pattern_count: nat,
) -> bool {
    &&& (accepts[k].0 as nat) < state_count
    &&& forall|j: int| 0 <= j < k ==> accepts[j].0 != accepts[k].0
    &&& (accepts[k].1 as nat) < pattern_count
}

/// Every accept entry is acceptable: states in range and pairwise distinct,
/// pattern ids with a defined length.
pub open spec fn accepts_ok(accepts: Seq<(u32, u32)>, state_count: nat, pattern_count: nat) -> bool {
    forall|k: int| 0 <= k < accepts.len() ==> accept_entry_ok(accepts, k, state_count, pattern_count)
}

/// Index of the first unacceptable accept entry, or -1.
pub open spec fn first_bad_accept(accepts: Seq<(u32, u32)>, state_count: nat, pattern_count: nat) -> int
    decreases accepts.len(),
{
    if accepts.len() == 0 {
        -1
    } else {
        let k = first_bad_accept(accepts.drop_last(), state_count, pattern_count);
        if k >= 0 {
            k
        } else if !accept_entry_ok(accepts, accepts.len() - 1, state_count, pattern_count) {
            accepts.len() - 1
        } else {
            -1
        }
    }
}

/// The error for the accept entry `k` that [`first_bad_accept`] found.
pub open spec fn accept_error(accepts: Seq<(u32, u32)>, k: int, state_count: nat) -> ErrorView {
    if (accepts[k].0 as nat) >= state_count {
        ErrorView::InvalidTable(reason_accept_exceeds(accepts[k].0 as nat, state_count))
    } else if exists|j: int| 0 <= j < k && accepts[j].0 == accepts[k].0 {
        ErrorView::InvalidTable(reason_multiple_accepts(accepts[k].0 as nat))
    } else {
        ErrorView::InvalidTable(reason_missing_length(accepts[k].1 as nat))
    }
}

/// What [`TransitionTable::from_parts`] reports for the given parts: `None` when
/// they are accepted, else the error of the first check that fails.
pub open spec fn from_parts_error(
    state_count: nat,
    class_count: nat,
    transitions: Seq<u32>,
    accepts: Seq<(u32, u32)>,
    pattern_lengths: Seq<u32>,
) -> Option<ErrorView> {
    if state_count > MAX_STATES {
        Some(ErrorView::TooManyStates(state_count as usize, MAX_STATES))
    } else if class_count == 0 && state_count > 0 {
        Some(ErrorView::InvalidTable(reason_zero_classes()))
    } else if state_count * class_count > usize::MAX {
        Some(ErrorView::InvalidTable(reason_dims_overflow()))
    } else if transitions.len() != state_count * class_count {
        Some(ErrorView::InvalidTable(reason_len_mismatch(transitions.len(), state_count * class_count)))
    } else if first_bad_target(transitions, state_count) >= 0 {
        let t = transitions[first_bad_target(transitions, state_count)];
        Some(ErrorView::InvalidTable(reason_target_exceeds(clean(t) as nat, state_count)))
    } else if first_bad_accept(accepts, state_count, pattern_lengths.len()) >= 0 {
        Some(accept_error(accepts, first_bad_accept(accepts, state_count, pattern_lengths.len()), state_count))
    } else {
        None
    }
}

/// The dimensions are within limits: every table has at most [`MAX_STATES`]
/// states and at least one class.
pub open spec fn dims_ok(t: TableView) -> bool {
    t.state_count <= MAX_STATES && t.class_count > 0
}

/// The table is consistent: dimensions within limits, transitions of the right
/// length and in range, accept entries acceptable.
pub open spec fn table_valid(t: TableView) -> bool {
    from_parts_error(t.state_count, t.class_count, t.transitions, t.accept_states, t.pattern_lengths) is None
}

proof fn lemma_first_bad_target(transitions: Seq<u32>, state_count: nat)
    ensures
        first_bad_target(transitions, state_count) < transitions.len(),
        first_bad_target(transitions, state_count) < 0 <==> forall|i: int|
            0 <= i < transitions.len() ==> (clean(#[trigger] transitions[i]) as nat) < state_count,
        first_bad_target(transitions, state_count) >= 0 ==> {
            let k = first_bad_target(transitions, state_count);
            &&& clean(transitions[k]) as nat >= state_count
            &&& forall|i: int| 0 <= i < k ==> (clean(#[trigger] transitions[i]) as nat) < state_count
        },
    decreases transitions.len(),
{
    if transitions.len() > 0 {
        let prefix = transitions.drop_last();
        lemma_first_bad_target(prefix, state_count);
        assert forall|i: int| 0 <= i < prefix.len() implies prefix[i] == transitions[i] by {}
    }
}

pub proof fn lemma_first_bad_accept(accepts: Seq<(u32, u32)>, state_count: nat, pattern_count: nat)
    ensures
        first_bad_accept(accepts, state_count, pattern_count) < accepts.len(),
        first_bad_accept(accepts, state_count, pattern_count) < 0 <==> accepts_ok(accepts, state_count, pattern_count),
        first_bad_accept(accepts, state_count, pattern_count) >= 0 ==> {
            let k = first_bad_accept(accepts, state_count, pattern_count);
            &&& !accept_entry_ok(accepts, k, state_count, pattern_count)
            &&& forall|i: int| 0 <= i < k ==> accept_entry_ok(accepts, i, state_count, pattern_count)
        },
    decreases accepts.len(),
{
    if accepts.len() > 0 {
        let prefix = accepts.drop_last();
        lemma_first_bad_accept(prefix, state_count, pattern_count);
        assert forall|i: int| 0 <= i < prefix.len() implies
            accept_entry_ok(prefix, i, state_count, pattern_count)
                == accept_entry_ok(accepts, i, state_count, pattern_count) by {
            assert forall|j: int| 0 <= j < i implies prefix[j] == accepts[j] by {}
        }
    }
}

impl TransitionTable {
    /// Maximum states allowed in a single DFA.
    pub const MAX_STATES: usize = 65_536;

    /// Create a new table of the given dimensions, with every transition to
    /// state 0, no accept states and no pattern lengths.
    ///
    /// # Errors
    ///
    /// [`Error::TooManyStates`] if `state_count` exceeds [`MAX_STATES`] or the
    /// table would hold more than [`MAX_TOTAL_TRANSITIONS`] entries;
    /// [`Error::InvalidTable`] if `class_count` is zero.
    pub fn new(state_count: usize, class_count: usize) -> (r: Result<Self, Error>)
        ensures
            state_count > MAX_STATES ==> (r matches Err(e) && e@ == ErrorView::TooManyStates(state_count, MAX_STATES)),
            state_count <= MAX_STATES && class_count == 0
                ==> (r matches Err(e) && e@ == ErrorView::InvalidTable(reason_zero_classes())),
            state_count <= MAX_STATES && class_count > 0 && state_count * class_count > MAX_TOTAL_TRANSITIONS
                ==> (r matches Err(e) && e@ == ErrorView::TooManyStates(state_count, MAX_STATES)),
            state_count <= MAX_STATES && class_count > 0 && state_count * class_count <= MAX_TOTAL_TRANSITIONS
                ==> (r matches Ok(t) && t@ == empty_table(state_count as nat, class_count as nat)),
    {
        if state_count > MAX_STATES {
            return Err(Error::TooManyStates { states: state_count, max: MAX_STATES });
        }
        if class_count == 0 {
            return Err(Error::InvalidTable { reason: String::from_str("class_count must be greater than 0") });
        }
        let total = match state_count.checked_mul(class_count) {
            Some(t) => t,
            None => {
                return Err(Error::TooManyStates { states: state_count, max: MAX_STATES });
            },
        };
        if total > MAX_TOTAL_TRANSITIONS {
            return Err(Error::TooManyStates { states: state_count, max: MAX_STATES });
        }
        let transitions = vec![0u32; total];
        proof {
            assert(transitions@ =~= Seq::new((state_count * class_count) as nat, |i: int| 0u32));
        }
        Ok(TransitionTable {
            state_count,
            class_count,
            transitions,
            accept_states: Vec::new(),
            pattern_lengths: Vec::new(),
        })
    }

    /// Set a single transition: from `state` on input `byte`, go to `next_state`.
    /// An index past the end of the transition array is ignored.
    pub fn set_transition(&mut self, state: usize, byte: u8, next_state: u32)
        requires
            state * old(self)@.class_count + byte <= usize::MAX,
        ensures
            final(self)@ == with_transition(old(self)@, state * old(self)@.class_count + byte, next_state),
    {
        let idx = state * self.class_count + byte as usize;
        if idx < self.transitions.len() {
            self.transitions.set(idx, next_state);
        }
    }

    /// Mark a state as accepting for a given pattern, giving the pattern a
    /// length of 0 if it has none yet.
    pub fn add_accept(&mut self, state: u32, pattern_id: u32)
        requires
            pattern_id < usize::MAX,
        ensures
            final(self)@ == with_accept(old(self)@, state, pattern_id),
    {
        self.accept_states.push((state, pattern_id));
        if self.pattern_lengths.len() <= pattern_id as usize {
            self.pattern_lengths.resize(pattern_id as usize + 1, 0);
        }
        proof {
            assert(self.pattern_lengths@ =~= grown_lengths(old(self)@.pattern_lengths, pattern_id));
        }
    }

    /// Set the fixed length of a pattern (used to compute match starts).
    pub fn set_pattern_length(&mut self, pattern_id: u32, length: u32)
        requires
            pattern_id < usize::MAX,
        ensures
            final(self)@ == with_pattern_length(old(self)@, pattern_id, length),
    {
        if self.pattern_lengths.len() <= pattern_id as usize {
            self.pattern_lengths.resize(pattern_id as usize + 1, 0);
        }
        proof {
            assert(self.pattern_lengths@ =~= grown_lengths(old(self)@.pattern_lengths, pattern_id));
        }
        self.pattern_lengths.set(pattern_id as usize, length);
    }

    /// A copy of the table.
    pub(crate) fn duplicate(&self) -> (r: Self)
        ensures
            r@ == self@,
    {
        let transitions = self.transitions.clone();
        let mut accept_states: Vec<(u32, u32)> = Vec::with_capacity(self.accept_states.len());
        let mut i: usize = 0;
        while i < self.accept_states.len()
            invariant
                i <= self.accept_states@.len(),
                accept_states@ == self.accept_states@.take(i as int),
            decreases self.accept_states@.len() - i,
        {
            accept_states.push(self.accept_states[i]);
            proof {
                assert(self.accept_states@.take(i + 1) =~= self.accept_states@.take(i as int).push(self.accept_states@[i as int]));
            }
            i += 1;
        }
        let pattern_lengths = self.pattern_lengths.clone();
        proof {
            assert(transitions@ =~= self.transitions@);
            assert(accept_states@ =~= self.accept_states@);
            assert(pattern_lengths@ =~= self.pattern_lengths@);
        }
        TransitionTable {
            state_count: self.state_count,
            class_count: self.class_count,
            transitions,
            accept_states,
            pattern_lengths,
        }
    }

    /// Number of DFA states.
    pub fn state_count(&self) -> (r: usize)
        ensures
            r == self@.state_count,
    {
        self.state_count
    }

    /// Number of input classes.
    pub fn class_count(&self) -> (r: usize)
        ensures
            r == self@.class_count,
    {
        self.class_count
    }

    /// Transition array.
    pub fn transitions(&self) -> (r: &[u32])
        ensures
            r@ == self@.transitions,
    {
        self.transitions.as_slice()
    }

    /// Mutable transition array.
    pub fn transitions_mut(&mut self) -> (r: &mut Vec<u32>)
        ensures
            r@ == old(self)@.transitions,
            final(self)@ == (TableView { transitions: final(r)@, ..old(self)@ }),
    {
        &mut self.transitions
    }

    /// Accept state metadata.
    pub fn accept_states(&self) -> (r: &[(u32, u32)])
        ensures
            r@ == self@.accept_states,
    {
        self.accept_states.as_slice()
    }

    /// Mutable accept state metadata.
    pub fn accept_states_mut(&mut self) -> (r: &mut Vec<(u32, u32)>)
        ensures
            r@ == old(self)@.accept_states,
            final(self)@ == (TableView { accept_states: final(r)@, ..old(self)@ }),
    {
        &mut self.accept_states
    }

    /// Pattern lengths.
    pub fn pattern_lengths(&self) -> (r: &[u32])
        ensures
            r@ == self@.pattern_lengths,
    {
        self.pattern_lengths.as_slice()
    }

    /// Mutable pattern lengths.
    pub fn pattern_lengths_mut(&mut self) -> (r: &mut Vec<u32>)
        ensures
            r@ == old(self)@.pattern_lengths,
            final(self)@ == (TableView { pattern_lengths: final(r)@, ..old(self)@ }),
    {
        &mut self.pattern_lengths
    }
}


/// The row of `state`: its transitions, cut at the end of the array.
pub open spec fn row_of(t: TableView, state: nat) -> Seq<u32> {
    let start = state * t.class_count;
    if start >= t.transitions.len() {
        Seq::empty()
    } else if start + t.class_count > t.transitions.len() {
        t.transitions.subrange(start as int, t.transitions.len() as int)
    } else {
        t.transitions.subrange(start as int, (start + t.class_count) as int)
    }
}

/// The distinct targets in the row of `state`, or the empty set when `state`
/// is not a state.
pub open spec fn row_targets(t: TableView, state: nat) -> Set<u32> {
    if state >= t.state_count {
        Set::empty()
    } else {
        row_of(t, state).to_set()
    }
}

/// Entry `base + b` of `transitions`.
pub open spec fn row_entry(transitions: Seq<u32>, base: int, b: int) -> u32 {
    transitions[base + b]
}

/// The targets among the first `upto` entries from `base`, cut at the end of
/// the array.
pub open spec fn seen_targets(transitions: Seq<u32>, base: int, upto: int) -> Set<u32> {
    Set::new(|v: u32| exists|b: int| 0 <= b < upto && base + b < transitions.len()
        && #[trigger] row_entry(transitions, base, b) == v)
}

/// `ranges` cuts `row` into maximal runs: consecutive closed intervals
/// `(lo, hi, target)` from byte 0 to the last byte, each holding one target,
/// neighbours holding different targets.
pub open spec fn is_run_cover(ranges: Seq<(u8, u8, u32)>, row: Seq<u32>) -> bool {
    &&& (ranges.len() == 0 <==> row.len() == 0)
    &&& ranges.len() > 0 ==> ranges[0].0 == 0 && ranges.last().1 == row.len() - 1
    &&& forall|k: int| 0 <= k < ranges.len() ==> #[trigger] ranges[k].0 <= ranges[k].1
    &&& forall|k: int| 0 <= k < ranges.len() - 1 ==> #[trigger] ranges[k + 1].0 == ranges[k].1 + 1
    &&& forall|k: int| 0 <= k < ranges.len() - 1 ==> #[trigger] ranges[k + 1].2 != ranges[k].2
    &&& forall|k: int, i: int| 0 <= k < ranges.len() && ranges[k].0 <= i <= ranges[k].1
        ==> #[trigger] row[i] == #[trigger] ranges[k].2
}

/// The part of the row of `state` that [`TransitionTable::compute_ranges`]
/// looks at: at most 256 entries.
pub open spec fn range_row(t: TableView, state: nat) -> Seq<u32> {
    let row = row_of(t, state);
    if row.len() > 256 { row.take(256) } else { row }
}

/// A table of the given dimensions with every transition to state 0 and no
/// accept states or pattern lengths.
pub open spec fn empty_table(state_count: nat, class_count: nat) -> TableView {
    TableView {
        state_count,
        class_count,
        transitions: Seq::new(state_count * class_count, |i: int| 0u32),
        accept_states: Seq::empty(),
        pattern_lengths: Seq::empty(),
    }
}

/// `t` with transition entry `idx` set to `next`, when `idx` is in range.
pub open spec fn with_transition(t: TableView, idx: int, next: u32) -> TableView {
    if 0 <= idx < t.transitions.len() {
        TableView { transitions: t.transitions.update(idx, next), ..t }
    } else {
        t
    }
}

/// `t` with `(state, pattern_id)` appended to its accept states.
pub open spec fn with_accept(t: TableView, state: u32, pattern_id: u32) -> TableView {
    TableView {
        accept_states: t.accept_states.push((state, pattern_id)),
        pattern_lengths: grown_lengths(t.pattern_lengths, pattern_id),
        ..t
    }
}

/// `t` with the length of `pattern_id` set to `length`.
pub open spec fn with_pattern_length(t: TableView, pattern_id: u32, length: u32) -> TableView {
    TableView {
        pattern_lengths: grown_lengths(t.pattern_lengths, pattern_id).update(pattern_id as int, length),
        ..t
    }
}

/// `lengths` extended with zeros so that `pattern_id` indexes it.
pub open spec fn grown_lengths(lengths: Seq<u32>, pattern_id: u32) -> Seq<u32> {
    if lengths.len() <= pattern_id {
        lengths + Seq::new((pattern_id + 1 - lengths.len()) as nat, |i: int| 0u32)
    } else {
        lengths
    }
}

impl TransitionTable {
    /// Construct a transition table from parts, checking them.
    ///
    /// # Errors
    ///
    /// Returns an error if dimensions are inconsistent or out of bounds:
    /// the error of the first check that fails, as [`from_parts_error`] lists them.
    pub fn from_parts(
        state_count: usize,
        class_count: usize,
        transitions: Vec<u32>,
        accept_states: Vec<(u32, u32)>,
        pattern_lengths: Vec<u32>,
    ) -> (r: Result<Self, Error>)
        ensures
            ({
                let err = from_parts_error(state_count as nat, class_count as nat, transitions@, accept_states@, pattern_lengths@);
                &&& r is Ok <==> err is None
                &&& r matches Ok(t) ==> t@ == (TableView {
                    state_count: state_count as nat,
                    class_count: class_count as nat,
                    transitions: transitions@,
                    accept_states: accept_states@,
                    pattern_lengths: pattern_lengths@,
                })
                &&& r matches Err(e) ==> err == Some(e@)
            }),
    {
        if state_count > MAX_STATES {
            return Err(Error::TooManyStates { states: state_count, max: MAX_STATES });
        }
        if class_count == 0 && state_count > 0 {
            return Err(Error::InvalidTable { reason: String::from_str("class_count must be greater than 0") });
        }
        let expected_len = match state_count.checked_mul(class_count) {
            Some(x) => x,
            None => {
                return Err(Error::InvalidTable { reason: String::from_str("state_count * class_count overflow") });
            },
        };
        if transitions.len() != expected_len {
            return Err(Error::InvalidTable { reason: reason_len_mismatch_text(transitions.len(), expected_len) });
        }
        let mut i: usize = 0;
        while i < transitions.len()
            invariant
                i <= transitions.len(),
                state_count <= MAX_STATES,
                class_count > 0 || state_count == 0,
                transitions.len() == state_count * class_count,
                forall|j: int| 0 <= j < i ==> (clean(#[trigger] transitions@[j]) as nat) < state_count,
            decreases transitions.len() - i,
        {
            let t = transitions[i];
            let state = t & STATE_MASK;
            if state as usize >= state_count {
                proof {
                    lemma_first_bad_target(transitions@, state_count as nat);
                    assert(clean(transitions@[i as int]) == state);
                    assert(first_bad_target(transitions@, state_count as nat) == i as int);
                }
                return Err(Error::InvalidTable { reason: reason_target_exceeds_text(state, state_count) });
            }
            i += 1;
        }
        let pat_len = pattern_lengths.len();
        let mut seen_states: Vec<bool> = vec![false; state_count];
        let mut k: usize = 0;
        while k < accept_states.len()
            invariant
                k <= accept_states.len(),
                state_count <= MAX_STATES,
                class_count > 0 || state_count == 0,
                transitions.len() == state_count * class_count,
                forall|j: int| 0 <= j < transitions.len() ==> (clean(#[trigger] transitions@[j]) as nat) < state_count,
                pat_len == pattern_lengths@.len(),
                seen_states@.len() == state_count,
                forall|j: int| 0 <= j < k ==> accept_entry_ok(accept_states@, j, state_count as nat, pat_len as nat),
                forall|s: int| 0 <= s < state_count ==> (#[trigger] seen_states@[s] <==>
                    exists|j: int| 0 <= j < k && accept_states@[j].0 == s),
            decreases accept_states.len() - k,
        {
            let (state, pid) = accept_states[k];
            if state as usize >= state_count {
                proof {
                    lemma_first_bad_accept(accept_states@, state_count as nat, pat_len as nat);
                    lemma_first_bad_target(transitions@, state_count as nat);
                    assert(!accept_entry_ok(accept_states@, k as int, state_count as nat, pat_len as nat));
                    assert(first_bad_accept(accept_states@, state_count as nat, pat_len as nat) == k as int);
                }
                return Err(Error::InvalidTable { reason: reason_accept_exceeds_text(state, state_count) });
            }
            if seen_states[state as usize] {
                proof {
                    lemma_first_bad_accept(accept_states@, state_count as nat, pat_len as nat);
                    lemma_first_bad_target(transitions@, state_count as nat);
                    assert(!accept_entry_ok(accept_states@, k as int, state_count as nat, pat_len as nat));
                    assert(first_bad_accept(accept_states@, state_count as nat, pat_len as nat) == k as int);
                }
                return Err(Error::InvalidTable { reason: reason_multiple_accepts_text(state) });
            }
            seen_states.set(state as usize, true);
            if pid as usize >= pat_len {
                proof {
                    lemma_first_bad_accept(accept_states@, state_count as nat, pat_len as nat);
                    lemma_first_bad_target(transitions@, state_count as nat);
                    assert(!accept_entry_ok(accept_states@, k as int, state_count as nat, pat_len as nat));
                    assert(first_bad_accept(accept_states@, state_count as nat, pat_len as nat) == k as int);
                }
                return Err(Error::InvalidTable { reason: reason_missing_length_text(pid) });
            }
            k += 1;
        }
        proof {
            lemma_first_bad_target(transitions@, state_count as nat);
            lemma_first_bad_accept(accept_states@, state_count as nat, pat_len as nat);
        }
        Ok(TransitionTable { state_count, class_count, transitions, accept_states, pattern_lengths })
    }
}

fn reason_len_mismatch_text(actual: usize, expected: usize) -> (r: String)
    ensures
        r@ == reason_len_mismatch(actual as nat, expected as nat),
{
    let mut s = text_then_number("transition table has ", actual as u64);
    let tail = text_then_number(" entries but expected ", expected as u64);
    s.append(tail.as_str());
    s
}

fn reason_target_exceeds_text(target: u32, state_count: usize) -> (r: String)
    ensures
        r@ == reason_target_exceeds(target as nat, state_count as nat),
{
    let mut s = text_then_number("transition target state ", target as u64);
    let tail = text_then_number(" exceeds state count ", state_count as u64);
    s.append(tail.as_str());
    s
}

fn reason_accept_exceeds_text(state: u32, state_count: usize) -> (r: String)
    ensures
        r@ == reason_accept_exceeds(state as nat, state_count as nat),
{
    let mut s = text_then_number("accept state ", state as u64);
    let tail = text_then_number(" exceeds state count ", state_count as u64);
    s.append(tail.as_str());
    s
}

fn reason_multiple_accepts_text(state: u32) -> (r: String)
    ensures
        r@ == reason_multiple_accepts(state as nat),
{
    let mut s = text_then_number("state ", state as u64);
    s.append(" has multiple accept patterns, which is not supported");
    s
}

fn reason_missing_length_text(pid: u32) -> (r: String)
    ensures
        r@ == reason_missing_length(pid as nat),
{
    let mut s = text_then_number("pattern ID ", pid as u64);
    s.append(" in accept states has no length defined");
    s
}

/// Appending the run `[start, end)` of `target` to a cover of `row[..start]`
/// gives a cover of `row[..end]`.
proof fn lemma_extend_cover(ranges: Seq<(u8, u8, u32)>, row: Seq<u32>, start: int, end: int, target: u32)
    requires
        is_run_cover(ranges, row.take(start)),
        0 <= start < end <= row.len(),
        end <= 256,
        forall|i: int| start <= i < end ==> row[i] == target,
        ranges.len() > 0 ==> ranges.last().2 != target,
    ensures
        is_run_cover(ranges.push((start as u8, (end - 1) as u8, target)), row.take(end)),
{
    let nr = ranges.push((start as u8, (end - 1) as u8, target));
    let rt = row.take(end);
    let old_rt = row.take(start);
    assert forall|k: int, i: int| 0 <= k < nr.len() && nr[k].0 <= i <= nr[k].1 implies #[trigger] rt[i] == #[trigger] nr[k].2 by {
        if k < ranges.len() {
            assert(nr[k] == ranges[k]);
            assert(ranges[k].1 <= ranges.last().1) by {
                lemma_cover_ordered(ranges, old_rt, k);
            }
            assert(old_rt[i] == ranges[k].2);
        }
    }
    assert forall|k: int| 0 <= k < nr.len() - 1 implies #[trigger] nr[k + 1].0 == nr[k].1 + 1 by {
        if k + 1 < ranges.len() {
            assert(nr[k] == ranges[k]);
        }
    }
    assert forall|k: int| 0 <= k < nr.len() - 1 implies #[trigger] nr[k + 1].2 != nr[k].2 by {
        if k + 1 < ranges.len() {
            assert(nr[k] == ranges[k]);
        }
    }
}

/// In a cover, every run ends no later than the last one.
proof fn lemma_cover_ordered(ranges: Seq<(u8, u8, u32)>, row: Seq<u32>, k: int)
    requires
        is_run_cover(ranges, row),
        0 <= k < ranges.len(),
    ensures
        ranges[k].1 <= ranges.last().1,
        ranges[k].0 >= ranges[0].0,
    decreases ranges.len() - k,
{
    if k < ranges.len() - 1 {
        lemma_cover_ordered(ranges, row, k + 1);
        assert(ranges[k + 1].0 == ranges[k].1 + 1);
        assert(ranges[k + 1].0 <= ranges[k + 1].1);
    }
    if k > 0 {
        lemma_cover_ordered_back(ranges, row, k);
    }
}

proof fn lemma_cover_ordered_back(ranges: Seq<(u8, u8, u32)>, row: Seq<u32>, k: int)
    requires
        is_run_cover(ranges, row),
        0 <= k < ranges.len(),
    ensures
        ranges[k].0 >= ranges[0].0,
    decreases k,
{
    if k > 0 {
        lemma_cover_ordered_back(ranges, row, k - 1);
        let j = k - 1;
        assert(ranges[j + 1].0 == ranges[j].1 + 1);
        assert(ranges[k - 1].0 <= ranges[k - 1].1);
    }
}

impl TransitionTable {
    /// Number of transitions in the table.
    pub fn transition_count(&self) -> (r: usize)
        ensures
            r == self@.transitions.len(),
    {
        self.transitions.len()
    }

    /// Estimated size in bytes of the compiled code image: 256 bytes of code
    /// plus 4 bytes per transition, per state and per pattern length.
    pub fn estimated_code_size(&self) -> (r: usize)
        requires
            256 + 4 * (self@.transitions.len() + self@.state_count + self@.pattern_lengths.len()) <= usize::MAX,
        ensures
            r == 256 + 4 * (self@.transitions.len() + self@.state_count + self@.pattern_lengths.len()),
    {
        let code: usize = 256;
        let data = self.transitions.len() * 4 + self.state_count * 4 + self.pattern_lengths.len() * 4;
        code + data
    }

    /// Whether this DFA is small enough for the code image: at most 4096
    /// states, and byte-indexed (256 classes).
    pub fn is_jit_eligible(&self) -> (r: bool)
        ensures
            r == (self@.state_count <= 4096 && self@.class_count == 256),
    {
        self.state_count <= 4096 && self.class_count == 256
    }

    /// Count the distinct transition targets of a state (0 when `state` is
    /// not a state).
    pub fn transition_density(&self, state: usize) -> (r: usize)
        requires
            state < self@.state_count ==> (state + 1) * self@.class_count <= usize::MAX,
        ensures
            r == row_targets(self@, state as nat).len(),
    {
        broadcast use vstd::std_specs::hash::group_hash_axioms;
        if state >= self.state_count {
            proof {
                assert(row_targets(self@, state as nat) == Set::<u32>::empty());
            }
            return 0;
        }
        proof {
            vstd::arithmetic::mul::lemma_mul_is_distributive_add_other_way(self.class_count as int, state as int, 1);
            vstd::arithmetic::mul::lemma_mul_inequality(state as int, state + 1, self.class_count as int);
        }
        let base = state * self.class_count;
        let mut targets: std::collections::HashSet<u32> = std::collections::HashSet::new();
        let ghost row = row_of(self@, state as nat);
        let mut byte: usize = 0;
        while byte < self.class_count
            invariant
                byte <= self.class_count,
                base == state * self.class_count,
                base + self.class_count <= usize::MAX,
                row == row_of(self@, state as nat),
                targets@ == seen_targets(self.transitions@, base as int, byte as int),
            decreases self.class_count - byte,
        {
            if base + byte < self.transitions.len() {
                let t = self.transitions[base + byte];
                targets.insert(t);
                proof {
                    assert forall|v: u32| seen_targets(self.transitions@, base as int, byte + 1).contains(v)
                        implies targets@.contains(v) by {
                        let b = choose|b: int| 0 <= b < byte + 1 && base + b < self.transitions@.len()
                            && #[trigger] row_entry(self.transitions@, base as int, b) == v;
                        if b < byte {
                            assert(seen_targets(self.transitions@, base as int, byte as int).contains(v));
                        }
                    }
                    assert forall|v: u32| targets@.contains(v)
                        implies seen_targets(self.transitions@, base as int, byte + 1).contains(v) by {
                        if v == t {
                            assert(row_entry(self.transitions@, base as int, byte as int) == v);
                        } else {
                            let b = choose|b: int| 0 <= b < byte && base + b < self.transitions@.len()
                                && #[trigger] row_entry(self.transitions@, base as int, b) == v;
                            assert(row_entry(self.transitions@, base as int, b) == v);
                        }
                    }
                    assert(targets@ =~= seen_targets(self.transitions@, base as int, byte + 1));
                }
            } else {
                proof {
                    assert(targets@ =~= seen_targets(self.transitions@, base as int, byte + 1)) by {
                        assert forall|v: u32| seen_targets(self.transitions@, base as int, byte + 1).contains(v)
                            implies targets@.contains(v) by {
                            let b = choose|b: int| 0 <= b < byte + 1 && base + b < self.transitions@.len()
                                && #[trigger] row_entry(self.transitions@, base as int, b) == v;
                            assert(b < byte);
                        }
                    }
                }
            }
            byte += 1;
        }
        proof {
            assert(targets@ =~= row.to_set()) by {
                assert forall|v: u32| targets@.contains(v) implies row.to_set().contains(v) by {
                    let b = choose|b: int| 0 <= b < self.class_count && base + b < self.transitions@.len()
                        && #[trigger] row_entry(self.transitions@, base as int, b) == v;
                    assert(row[b] == v);
                }
                assert forall|v: u32| row.to_set().contains(v) implies targets@.contains(v) by {
                    let i = choose|i: int| 0 <= i < row.len() && row[i] == v;
                    assert(row_entry(self.transitions@, base as int, i) == v);
                }
            }
        }
        targets.len()
    }

    /// Collapse each state's byte transitions into maximal consecutive ranges.
    ///
    /// Each tuple is `(lo, hi, target_state)`: a closed byte interval whose
    /// transitions all go to `target_state`. At most the first 256 entries of a
    /// row are looked at.
    pub fn compute_ranges(&self) -> (r: Vec<Vec<(u8, u8, u32)>>)
        requires
            self@.state_count == 0 || (self@.state_count - 1) * self@.class_count <= self@.transitions.len(),
        ensures
            self@.class_count == 0 ==> r@.len() == 0,
            self@.class_count > 0 ==> r@.len() == self@.state_count,
            self@.class_count > 0 ==> forall|s: int| 0 <= s < self@.state_count
                ==> is_run_cover(#[trigger] r@[s]@, range_row(self@, s as nat)),
    {
        let mut ranges: Vec<Vec<(u8, u8, u32)>> = Vec::with_capacity(self.state_count);
        if self.class_count == 0 {
            return ranges;
        }
        let mut state: usize = 0;
        while state < self.state_count
            invariant
                state <= self.state_count,
                self.class_count > 0,
                self@.state_count == 0 || (self@.state_count - 1) * self@.class_count <= self@.transitions.len(),
                ranges@.len() == state,
                forall|s: int| 0 <= s < state ==> is_run_cover(#[trigger] ranges@[s]@, range_row(self@, s as nat)),
            decreases self.state_count - state,
        {
            let total = self.transitions.len();
            proof {
                vstd::arithmetic::mul::lemma_mul_inequality(state as int, self.state_count - 1, self.class_count as int);
                assert(state * self.class_count <= total);
            }
            let row_start = state * self.class_count;
            let row_end = if row_start.saturating_add(self.class_count) < self.transitions.len() {
                row_start.saturating_add(self.class_count)
            } else {
                self.transitions.len()
            };
            let row = slice_range(&self.transitions, row_start, row_end);
            proof {
                assert(row@ =~= row_of(self@, state as nat));
            }
            let limit = if row.len() < 256 { row.len() } else { 256 };
            proof {
                assert(row@.take(limit as int) =~= range_row(self@, state as nat));
            }
            if limit == 0 {
                let empty: Vec<(u8, u8, u32)> = Vec::new();
                ranges.push(empty);
                proof {
                    assert(ranges@[state as int]@ =~= Seq::empty());
                }
            } else {
                let mut state_ranges: Vec<(u8, u8, u32)> = Vec::new();
                let mut start: usize = 0;
                let mut target = row[0];
                let mut index: usize = 1;
                proof {
                    assert(row@.take(0) =~= Seq::<u32>::empty());
                }
                while index < limit
                    invariant
                        0 <= start < index <= limit,
                        limit <= 256,
                        limit <= row@.len(),
                        is_run_cover(state_ranges@, row@.take(start as int)),
                        forall|i: int| start <= i < index ==> row@[i] == target,
                        state_ranges@.len() > 0 ==> state_ranges@.last().2 != target,
                    decreases limit - index,
                {
                    if row[index] != target {
                        proof {
                            lemma_extend_cover(state_ranges@, row@, start as int, index as int, target);
                        }
                        state_ranges.push((start as u8, (index - 1) as u8, target));
                        start = index;
                        target = row[index];
                    }
                    index += 1;
                }
                proof {
                    lemma_extend_cover(state_ranges@, row@, start as int, limit as int, target);
                }
                state_ranges.push((start as u8, (limit - 1) as u8, target));
                ranges.push(state_ranges);
            }
            state += 1;
        }
        ranges
    }
}

/// The slice `v[start..end]`.
fn slice_range(v: &Vec<u32>, start: usize, end: usize) -> (r: &[u32])
    requires
        start <= end <= v@.len(),
    ensures
        r@ == v@.subrange(start as int, end as int),
{
    &v.as_slice()[start..end]
}

} // verus!
