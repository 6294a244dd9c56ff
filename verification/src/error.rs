//! Errors of table construction, compilation and scanning.

use vstd::prelude::*;
use vstd::string::*;

verus! {

/// Errors from DFA compilation or execution.
#[derive(Debug)]
#[non_exhaustive]
pub enum Error {
    /// The DFA has zero states.
    EmptyDfa,
    /// The transition table dimensions are inconsistent.
    InvalidTable {
        /// Description of the inconsistency.
        reason: String,
    },
    /// Executable memory allocation failed.
    MemoryAllocation {
        /// Underlying reason.
        reason: String,
    },
    /// The DFA state count exceeds the limit.
    TooManyStates {
        /// Actual state count.
        states: usize,
        /// Maximum supported.
        max: usize,
    },
    /// Input is longer than the code image's 32-bit scan index can address.
    InputTooLong {
        /// Actual input length in bytes.
        len: usize,
        /// Maximum length accepted (`u32::MAX`).
        max: usize,
    },
}

/// Result type alias.
pub type Result<T> = core::result::Result<T, Error>;

/// The mathematical content of an [`Error`]: its variant, with each reason
/// taken as a character sequence.
pub ghost enum ErrorView {
    EmptyDfa,
    InvalidTable(Seq<char>),
    MemoryAllocation(Seq<char>),
    TooManyStates(usize, usize),
    InputTooLong(usize, usize),
}

impl View for Error {
    type V = ErrorView;

    open spec fn view(&self) -> ErrorView {
        match self {
            Error::EmptyDfa => ErrorView::EmptyDfa,
            Error::InvalidTable { reason } => ErrorView::InvalidTable(reason@),
            Error::MemoryAllocation { reason } => ErrorView::MemoryAllocation(reason@),
            Error::TooManyStates { states, max } => ErrorView::TooManyStates(*states, *max),
            Error::InputTooLong { len, max } => ErrorView::InputTooLong(*len, *max),
        }
    }
}

/// The decimal digits of `n`, most significant first.
pub open spec fn decimal(n: nat) -> Seq<char>
    decreases n,
{
    if n < 10 {
        seq![digit_char(n)]
    } else {
        decimal(n / 10) + seq![digit_char(n % 10)]
    }
}

/// The ASCII digit for `d < 10`.
pub open spec fn digit_char(d: nat) -> char {
    if d == 0 { '0' } else if d == 1 { '1' } else if d == 2 { '2' } else if d == 3 { '3' }
    else if d == 4 { '4' } else if d == 5 { '5' } else if d == 6 { '6' } else if d == 7 { '7' }
    else if d == 8 { '8' } else { '9' }
}

/// The digit `d < 10` as a one-character string.
fn digit_str(d: u64) -> (r: &'static str)
    requires
        d < 10,
    ensures
        r@ == seq![digit_char(d as nat)],
{
    if d == 0 {
        proof { reveal_strlit("0"); }
        "0"
    } else if d == 1 {
        proof { reveal_strlit("1"); }
        "1"
    } else if d == 2 {
        proof { reveal_strlit("2"); }
        "2"
    } else if d == 3 {
        proof { reveal_strlit("3"); }
        "3"
    } else if d == 4 {
        proof { reveal_strlit("4"); }
        "4"
    } else if d == 5 {
        proof { reveal_strlit("5"); }
        "5"
    } else if d == 6 {
        proof { reveal_strlit("6"); }
        "6"
    } else if d == 7 {
        proof { reveal_strlit("7"); }
        "7"
    } else if d == 8 {
        proof { reveal_strlit("8"); }
        "8"
    } else {
        proof { reveal_strlit("9"); }
        "9"
    }
}

/// Appends the decimal digits of `n` to `s`.
fn push_decimal(s: &mut String, n: u64)
    ensures
        final(s)@ == old(s)@ + decimal(n as nat),
    decreases n,
{
    let ghost start = s@;
    if n >= 10 {
        push_decimal(s, n / 10);
    }
    let ghost mid = s@;
    s.append(digit_str(n % 10));
    proof {
        if n >= 10 {
            assert(decimal(n as nat) == decimal((n / 10) as nat) + seq![digit_char((n % 10) as nat)]);
            assert(s@ =~= start + decimal(n as nat));
        } else {
            assert(n % 10 == n);
            assert(s@ =~= start + decimal(n as nat));
        }
    }
}

/// Builds `a` followed by the decimal form of `n`.
pub(crate) fn text_then_number(a: &str, n: u64) -> (r: String)
    ensures
        r@ == a@ + decimal(n as nat),
{
    let mut s = String::from_str(a);
    push_decimal(&mut s, n);
    s
}


/// The message that describes an error, with the fix it suggests.
pub open spec fn message(e: ErrorView) -> Seq<char> {
    match e {
        ErrorView::EmptyDfa => "DFA has zero states. Fix: provide at least one state in the transition table."@,
        ErrorView::InvalidTable(reason) => "invalid transition table: "@ + reason
            + ". Fix: ensure transitions.len() == state_count * class_count. Validate your TransitionTable inputs carefully."@,
        ErrorView::MemoryAllocation(reason) => "failed to allocate executable memory: "@ + reason
            + ". Fix: check OS memory limits and mmap permissions."@,
        ErrorView::TooManyStates(states, max) => "DFA has "@ + decimal(states as nat) + " states, exceeding the "@
            + decimal(max as nat) + "-state JIT limit. Fix: use the interpreted fallback for large DFAs."@,
        ErrorView::InputTooLong(len, max) => "input length "@ + decimal(len as nat) + " bytes exceeds JIT limit of "@
            + decimal(max as nat) + " bytes (32-bit scan index). Fix: scan in chunks of at most "@ + decimal(max as nat)
            + " bytes and adjust match offsets, or use a non-JIT build where the interpreted path uses `usize` positions."@,
    }
}

impl Error {
    /// The message that describes the error, with the fix it suggests.
    pub fn to_string(&self) -> (r: String)
        ensures
            r@ == message(self@),
    {
        match self {
            Error::EmptyDfa => String::from_str("DFA has zero states. Fix: provide at least one state in the transition table."),
            Error::InvalidTable { reason } => {
                let mut s = String::from_str("invalid transition table: ");
                s.append(reason.as_str());
                s.append(". Fix: ensure transitions.len() == state_count * class_count. Validate your TransitionTable inputs carefully.");
                s
            },
            Error::MemoryAllocation { reason } => {
                let mut s = String::from_str("failed to allocate executable memory: ");
                s.append(reason.as_str());
                s.append(". Fix: check OS memory limits and mmap permissions.");
                s
            },
            Error::TooManyStates { states, max } => {
                let mut s = text_then_number("DFA has ", *states as u64);
                let m = text_then_number(" states, exceeding the ", *max as u64);
                s.append(m.as_str());
                s.append("-state JIT limit. Fix: use the interpreted fallback for large DFAs.");
                s
            },
            Error::InputTooLong { len, max } => {
                let mut s = text_then_number("input length ", *len as u64);
                let m = text_then_number(" bytes exceeds JIT limit of ", *max as u64);
                s.append(m.as_str());
                let m2 = text_then_number(" bytes (32-bit scan index). Fix: scan in chunks of at most ", *max as u64);
                s.append(m2.as_str());
                s.append(" bytes and adjust match offsets, or use a non-JIT build where the interpreted path uses `usize` positions.");
                s
            },
        }
    }
}

} // verus!
