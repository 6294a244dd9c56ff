//! The compiled form of a DFA: an x86_64 code image with its data tables, and
//! the scanners that execute it.
//!
//! The image holds a scan loop followed by four tables: the flagged
//! transitions (bit 31 set when the target accepts), the pattern of each
//! state, the pattern lengths and the output links. After each match the DFA
//! restarts from state 0. The scanners here run that same loop over the same
//! tables; a table too large for the image is scanned from the transition
//! table itself.

use vstd::prelude::*;
use matchkit::Match;
use crate::error::{Error, ErrorView};
use crate::machine::{table_program, pattern_of_state, accept_of, chain, chain_matches, lemma_chain_fuel, lemma_chain_len, lemma_run_len, link_of, match_at, next_state, program_wf, run, scan_matches, Program, NO_PATTERN};
use crate::outside::match_of;
use crate::table::{accepts_ok, accept_entry_ok, clean, TableView, TransitionTable, ACCEPT_FLAG, STATE_MASK};
use crate::table::serial::{lemma_words_le_len, push_words, words_le};
use image::{emit_scan_code, jit_image, lemma_padded_code_len, padded_code, scan_code, DATA_START, TRANS_PATCH, ACCEPT_PATCH, PATLEN_PATCH, OUTPUT_PATCH};

pub mod image;
pub mod x86;

verus! {

/// Most states for which a code image is built.
pub const MAX_JIT_STATES: usize = 4096;

/// Positions in the code image of the four absolute addresses that mapping
/// the image must fill in, and of the four data tables they point to.
#[derive(Debug, Clone, Copy)]
pub struct ImageLayout {
    /// Site of the transition table's address (an imm64 at `trans_patch + 2`).
    pub trans_patch: usize,
    /// Site of the accept table's address.
    pub accept_patch: usize,
    /// Site of the pattern length table's address.
    pub patlen_patch: usize,
    /// Site of the output link table's address.
    pub output_patch: usize,
    /// Offset of the flagged transition table.
    pub trans_offset: usize,
    /// Offset of the accept table.
    pub accept_offset: usize,
    /// Offset of the pattern length table.
    pub patlen_offset: usize,
    /// Offset of the output link table.
    pub output_offset: usize,
}

/// A compiled DFA: the code image, the tables its scan loop reads, and the
/// table it was compiled from.
#[derive(Debug)]
pub struct ExecutableBuffer {
    image: Vec<u8>,
    layout: ImageLayout,
    table: TransitionTable,
    is_jit: bool,
    chained: bool,
    flagged: Vec<u32>,
    jit_lengths: Vec<u32>,
    accept_pattern: Vec<u32>,
    output_links: Vec<u32>,
}

/// Entry `i` of `flagged` is transition `i` with bit 31 set exactly when its
/// target accepts.
pub open spec fn flags_match(flagged: Seq<u32>, p: Program) -> bool {
    &&& flagged.len() == p.transitions.len()
    &&& forall|i: int| 0 <= i < flagged.len() ==> {
        &&& clean(#[trigger] flagged[i]) == clean(p.transitions[i])
        &&& ((flagged[i] & ACCEPT_FLAG) != 0 <==> accept_of(p, clean(p.transitions[i])) != NO_PATTERN)
    }
}

/// The pattern length table of the image: the table's lengths, or a single 0
/// when it has none.
pub open spec fn image_lengths(lengths: Seq<u32>) -> Seq<u32> {
    if lengths.len() == 0 { seq![0u32] } else { lengths }
}

/// `new` is `old` with the first `ms.len()` entries (as far as they fit)
/// replaced by the matches `ms`.
pub open spec fn written(old: Seq<Match>, new: Seq<Match>, ms: Seq<(u32, u32, u32)>) -> bool {
    &&& new.len() == old.len()
    &&& forall|i: int| 0 <= i < new.len() ==> #[trigger] new[i] == if i < ms.len() {
        match_of(ms[i].0, ms[i].1, ms[i].2)
    } else {
        old[i]
    }
}

impl ExecutableBuffer {
    /// The program this buffer executes.
    pub closed spec fn program(&self) -> Program {
        Program {
            transitions: self.table@.transitions,
            class_count: self.table@.class_count,
            accept: self.accept_pattern@,
            pattern_lengths: self.table@.pattern_lengths,
            links: self.output_links@,
            rank: if self.chained {
                choose|rank: Seq<nat>| links_ranked(self.output_links@, self.accept_pattern@, rank)
            } else {
                Seq::new(self.table@.state_count, |s: int| 0nat)
            },
            max_chain: if self.chained { self.table@.state_count } else { 1 },
        }
    }

    /// The table the buffer was compiled from.
    pub closed spec fn source(&self) -> TableView {
        self.table@
    }

    /// The bytes of the image.
    pub closed spec fn image_view(&self) -> Seq<u8> {
        self.image@
    }

    /// Where the address fields and data tables of the image are.
    pub closed spec fn layout_view(&self) -> ImageLayout {
        self.layout
    }

    /// Whether the buffer holds a code image of the scan loop (as opposed to
    /// a one-byte stub, for tables too large for an image).
    pub closed spec fn has_image(&self) -> bool {
        self.is_jit
    }

    /// The buffer is consistent: its program is well formed and byte indexed,
    /// and the tables of each scanner describe that program.
    #[verifier::type_invariant]
    pub closed spec fn wf(&self) -> bool {
        let p = self.program();
        &&& program_wf(p)
        &&& p.class_count == 256
        &&& self.output_links@.len() == self.accept_pattern@.len()
        &&& self.is_jit ==> {
            &&& flags_match(self.flagged@, p)
            &&& self.jit_lengths@ == image_lengths(p.pattern_lengths)
        }
    }

    /// Scan `input`, writing the matches into `matches` as far as they fit.
    /// Returns how many were written.
    ///
    /// # Errors
    ///
    /// [`Error::InputTooLong`] when the buffer holds a code image and `input`
    /// is longer than `u32::MAX` bytes (the loop's 32-bit position).
    pub fn scan(&self, input: &[u8], matches: &mut [Match]) -> (r: Result<usize, Error>)
        requires
            input@.len() * self.program().max_chain <= usize::MAX,
        ensures
            self.has_image() && input@.len() > u32::MAX ==> {
                &&& r matches Err(e) && e@ == ErrorView::InputTooLong(input@.len() as usize, u32::MAX as usize)
                &&& final(matches)@ == old(matches)@
            },
            !(self.has_image() && input@.len() > u32::MAX) ==> {
                let ms = scan_matches(self.program(), input@);
                &&& r matches Ok(n) && n == if ms.len() < old(matches)@.len() { ms.len() } else { old(matches)@.len() }
                &&& written(old(matches)@, final(matches)@, ms)
            },
    {
        proof {
            use_type_invariant(self);
        }
        if self.is_jit && input.len() > u32::MAX as usize {
            return Err(Error::InputTooLong { len: input.len(), max: u32::MAX as usize });
        }
        if self.is_jit {
            Ok(self.scan_jit(input, matches))
        } else {
            Ok(self.scan_interpreted(input, matches))
        }
    }

    /// Count the matches in `input`, without writing them.
    ///
    /// # Errors
    ///
    /// [`Error::InputTooLong`] as for [`Self::scan`].
    pub fn scan_count(&self, input: &[u8]) -> (r: Result<usize, Error>)
        requires
            input@.len() * self.program().max_chain <= usize::MAX,
        ensures
            self.has_image() && input@.len() > u32::MAX
                ==> (r matches Err(e) && e@ == ErrorView::InputTooLong(input@.len() as usize, u32::MAX as usize)),
            !(self.has_image() && input@.len() > u32::MAX)
                ==> (r matches Ok(n) && n == scan_matches(self.program(), input@).len()),
    {
        proof {
            use_type_invariant(self);
        }
        if self.is_jit && input.len() > u32::MAX as usize {
            return Err(Error::InputTooLong { len: input.len(), max: u32::MAX as usize });
        }
        if self.is_jit {
            Ok(self.scan_count_jit(input))
        } else {
            Ok(self.scan_count_interpreted(input))
        }
    }

    /// The bytes of the code image: the scan loop followed by its data
    /// tables, with the four table addresses still zero.
    pub fn image(&self) -> (r: &[u8])
        ensures
            r@ == self.image_view(),
    {
        self.image.as_slice()
    }

    /// Where the image's address fields and data tables are.
    pub fn layout(&self) -> (r: ImageLayout)
        ensures
            r == self.layout_view(),
    {
        self.layout
    }

    /// Whether the buffer holds a code image of the scan loop.
    pub fn is_jit(&self) -> (r: bool)
        ensures
            r == self.has_image(),
    {
        self.is_jit
    }
}

/// One more byte: the run over `input[..pos + 1]` from the run over `input[..pos]`.
/// The matches reported on a prefix of the input come first among those
/// reported on the whole input.
proof fn lemma_run_prefix(p: Program, input: Seq<u8>, k: int)
    requires
        0 <= k <= input.len(),
    ensures
        run(p, input.take(k)).1.len() <= run(p, input).1.len(),
        forall|i: int| 0 <= i < run(p, input.take(k)).1.len() ==> #[trigger] run(p, input).1[i] == run(p, input.take(k)).1[i],
    decreases input.len() - k,
{
    if k == input.len() {
        assert(input.take(k) =~= input);
    } else {
        let d = input.drop_last();
        lemma_run_prefix(p, d, k);
        assert(d.take(k) =~= input.take(k));
    }
}

proof fn lemma_run_step(p: Program, input: Seq<u8>, pos: int)
    requires
        0 <= pos < input.len(),
    ensures
        ({
            let prev = run(p, input.take(pos));
            let t = next_state(p, prev.0, input[pos]);
            run(p, input.take(pos + 1)) == if accept_of(p, t) != NO_PATTERN {
                (0u32, prev.1 + chain_matches(p, t, (pos + 1) as u32))
            } else {
                (t, prev.1)
            }
        }),
{
    assert(input.take(pos + 1).drop_last() =~= input.take(pos));
}

/// Taking one state off the front of a chain: the rest is the chain of its link.
proof fn lemma_chain_unfold(p: Program, o: u32)
    requires
        program_wf(p),
        o != NO_PATTERN,
        (o as nat) < p.accept.len(),
    ensures
        chain(p, o, p.max_chain) == seq![o] + chain(p, link_of(p, o), p.max_chain),
        link_of(p, o) == NO_PATTERN || ((link_of(p, o) as nat) < p.accept.len() && p.accept[link_of(p, o) as int] != NO_PATTERN),
{
    let l = link_of(p, o);
    assert(p.rank[o as int] < p.max_chain);
    assert(chain(p, o, p.max_chain) == seq![o] + chain(p, l, (p.max_chain - 1) as nat));
    if l != NO_PATTERN {
        lemma_chain_fuel(p, l, (p.max_chain - 1) as nat, p.max_chain);
    }
}

/// Writing the match of `o` at position `count` of `matches`, when it fits,
/// extends what has been written by that match.
proof fn lemma_written_push(old_m: Seq<Match>, m: Seq<Match>, new_m: Seq<Match>, ms: Seq<(u32, u32, u32)>, x: (u32, u32, u32))
    requires
        written(old_m, m, ms),
        ms.len() < m.len() ==> new_m == m.update(ms.len() as int, match_of(x.0, x.1, x.2)),
        ms.len() >= m.len() ==> new_m == m,
    ensures
        written(old_m, new_m, ms.push(x)),
{
    assert forall|i: int| 0 <= i < new_m.len() implies #[trigger] new_m[i] == if i < ms.push(x).len() {
        match_of(ms.push(x)[i].0, ms.push(x)[i].1, ms.push(x)[i].2)
    } else {
        old_m[i]
    } by {
        if i < ms.len() {
            assert(m[i] == match_of(ms[i].0, ms[i].1, ms[i].2));
        }
    }
}

impl ExecutableBuffer {
    fn scan_interpreted(&self, input: &[u8], matches: &mut [Match]) -> (r: usize)
        requires
            self.wf(),
            !self.is_jit,
            input@.len() * self.program().max_chain <= usize::MAX,
        ensures
            ({
                let ms = scan_matches(self.program(), input@);
                &&& r == if ms.len() < old(matches)@.len() { ms.len() } else { old(matches)@.len() }
                &&& written(old(matches)@, final(matches)@, ms)
            }),
    {
        let table = &self.table;
        let ghost p = self.program();
        let trans = table.transitions();
        let class_count = table.class_count();
        let lengths = table.pattern_lengths();
        let tlen = trans.len();
        let mut state: u32 = 0;
        let mut count: usize = 0;
        let mut pos: usize = 0;
        let ghost mut ms: Seq<(u32, u32, u32)> = Seq::empty();
        proof {
            assert(input@.take(0) =~= Seq::<u8>::empty());
            assert(written(old(matches)@, matches@, ms));
        }
        while pos < input.len()
            invariant
                program_wf(p),
                p.class_count == 256,
                trans@ == p.transitions,
                class_count == 256,
                tlen == p.transitions.len(),
                lengths@ == p.pattern_lengths,
                self.accept_pattern@ == p.accept,
                self.output_links@ == p.links,
                pos <= input@.len(),
                input@.len() * p.max_chain <= usize::MAX,
                run(p, input@.take(pos as int)) == (state, ms),
                count == ms.len(),
                written(old(matches)@, matches@, ms),
            decreases input.len() - pos,
        {
            proof {
                lemma_run_len(p, input@.take(pos as int));
                lemma_run_step(p, input@, pos as int);
                vstd::arithmetic::mul::lemma_mul_inequality(pos + 1, input@.len() as int, p.max_chain as int);
                vstd::arithmetic::mul::lemma_mul_is_distributive_add_other_way(p.max_chain as int, pos as int, 1);
                vstd::arithmetic::mul::lemma_mul_inequality(state + 1, p.accept.len() as int, 256);
                vstd::arithmetic::mul::lemma_mul_is_distributive_add_other_way(256, state as int, 1);
            }
            let byte = input[pos];
            let idx = state as usize * class_count + byte as usize;
            let next = if idx < trans.len() { trans[idx] } else { 0 };
            let clean_next = next & STATE_MASK;
            let acc = if (clean_next as usize) < self.accept_pattern.len() {
                self.accept_pattern[clean_next as usize]
            } else {
                NO_PATTERN
            };
            if acc != NO_PATTERN {
                let end = #[verifier::truncate] ((pos + 1) as u32);
                let mut o = clean_next;
                let ghost mut done: Seq<u32> = Seq::empty();
                proof {
                    lemma_chain_len(p, clean_next, p.max_chain);
                    assert(done.map_values(|x: u32| match_at(p, x, end)) =~= Seq::<(u32, u32, u32)>::empty());
                    assert(ms + done.map_values(|x: u32| match_at(p, x, end)) =~= ms);
                }
                while o != NO_PATTERN
                    invariant
                        program_wf(p),
                        lengths@ == p.pattern_lengths,
                        self.accept_pattern@ == p.accept,
                        self.output_links@ == p.links,
                        chain(p, clean_next, p.max_chain) == done + chain(p, o, p.max_chain),
                        o == NO_PATTERN || ((o as nat) < p.accept.len() && p.accept[o as int] != NO_PATTERN),
                        count == ms.len() + done.len(),
                        ms.len() + chain(p, clean_next, p.max_chain).len() <= usize::MAX,
                        written(old(matches)@, matches@, ms + done.map_values(|x: u32| match_at(p, x, end))),
                    decreases (if o == NO_PATTERN { 0 } else { p.rank[o as int] + 1 }),
                {
                    proof {
                        lemma_chain_unfold(p, o);
                    }
                    let pid = self.accept_pattern[o as usize];
                    let ghost before = matches@;
                    if count < matches.len() {
                        let pat_len = if (pid as usize) < lengths.len() { lengths[pid as usize] } else { 0 };
                        let start = end.saturating_sub(pat_len);
                        matches[count] = Match::from_parts(pid, start, end);
                    }
                    proof {
                        let f = |x: u32| match_at(p, x, end);
                        assert((done.push(o)).map_values(f) =~= done.map_values(f).push(f(o)));
                        assert((ms + done.map_values(f)).push(f(o)) =~= ms + done.push(o).map_values(f));
                        lemma_written_push(old(matches)@, before, matches@, ms + done.map_values(f), f(o));
                        assert(chain(p, clean_next, p.max_chain) == done.push(o) + chain(p, link_of(p, o), p.max_chain));
                        done = done.push(o);
                    }
                    count += 1;
                    o = if (o as usize) < self.output_links.len() { self.output_links[o as usize] } else { NO_PATTERN };
                }
                proof {
                    assert(done =~= chain(p, clean_next, p.max_chain));
                    ms = ms + chain_matches(p, clean_next, end);
                }
                state = 0;
            } else {
                state = clean_next;
            }
            pos += 1;
        }
        proof {
            assert(input@.take(input@.len() as int) =~= input@);
        }
        if count < matches.len() { count } else { matches.len() }
    }

    /// The first match that scanning `input` reports, found by stopping at the
    /// first transition into an accepting state.
    pub fn first_match(&self, input: &[u8]) -> (r: Option<(u32, u32, u32)>)
        ensures
            scan_matches(self.program(), input@).len() == 0 ==> r is None,
            scan_matches(self.program(), input@).len() > 0 ==> r == Some(scan_matches(self.program(), input@)[0]),
    {
        proof {
            use_type_invariant(self);
        }
        let table = &self.table;
        let ghost p = self.program();
        let trans = table.transitions();
        let class_count = table.class_count();
        let lengths = table.pattern_lengths();
        let tlen = trans.len();
        let mut state: u32 = 0;
        let mut pos: usize = 0;
        proof {
            assert(input@.take(0) =~= Seq::<u8>::empty());
        }
        while pos < input.len()
            invariant
                program_wf(p),
                p.class_count == 256,
                trans@ == p.transitions,
                class_count == 256,
                tlen == p.transitions.len(),
                p == self.program(),
                lengths@ == p.pattern_lengths,
                self.accept_pattern@ == p.accept,
                pos <= input@.len(),
                run(p, input@.take(pos as int)) == (state, Seq::<(u32, u32, u32)>::empty()),
            decreases input.len() - pos,
        {
            proof {
                lemma_run_len(p, input@.take(pos as int));
                lemma_run_step(p, input@, pos as int);
                vstd::arithmetic::mul::lemma_mul_inequality(state + 1, p.accept.len() as int, 256);
                vstd::arithmetic::mul::lemma_mul_is_distributive_add_other_way(256, state as int, 1);
            }
            let byte = input[pos];
            let idx = state as usize * class_count + byte as usize;
            let next = if idx < trans.len() { trans[idx] } else { 0 };
            let clean_next = next & STATE_MASK;
            let acc = if (clean_next as usize) < self.accept_pattern.len() {
                self.accept_pattern[clean_next as usize]
            } else {
                NO_PATTERN
            };
            if acc != NO_PATTERN {
                let end = #[verifier::truncate] ((pos + 1) as u32);
                let pat_len = if (acc as usize) < lengths.len() { lengths[acc as usize] } else { 0 };
                let start = end.saturating_sub(pat_len);
                proof {
                    assert(next & 0x7FFF_FFFFu32 != 0xFFFF_FFFFu32) by (bit_vector);
                    assert(clean_next != NO_PATTERN);
                    lemma_chain_unfold(p, clean_next);
                    let ms = chain_matches(p, clean_next, end);
                    assert(chain(p, clean_next, p.max_chain).len() >= 1);
                    assert(ms.len() >= 1);
                    assert(ms[0] == match_at(p, clean_next, end));
                    let prev = run(p, input@.take(pos as int));
                    assert(input@[pos as int] == byte);
                    assert(crate::machine::next_raw(p, state, byte) == next);
                    assert(next_state(p, state, byte) == clean_next);
                    assert(accept_of(p, clean_next) == acc);
                    assert(run(p, input@.take(pos + 1)) == (0u32, prev.1 + chain_matches(p, clean_next, end)));
                    assert(prev.1 + ms =~= ms);
                    assert(run(p, input@.take(pos + 1)).1 =~= ms);
                    lemma_run_prefix(p, input@, pos + 1);
                    assert(scan_matches(p, input@)[0] == ms[0]);
                    assert(match_at(p, clean_next, end) == (acc, start, end));
                }
                return Some((acc, start, end));
            }
            state = clean_next;
            pos += 1;
        }
        proof {
            assert(input@.take(input@.len() as int) =~= input@);
        }
        None
    }

    fn scan_count_interpreted(&self, input: &[u8]) -> (r: usize)
        requires
            self.wf(),
            !self.is_jit,
            input@.len() * self.program().max_chain <= usize::MAX,
        ensures
            r == scan_matches(self.program(), input@).len(),
    {
        let table = &self.table;
        let ghost p = self.program();
        let trans = table.transitions();
        let class_count = table.class_count();
        let lengths = table.pattern_lengths();
        let tlen = trans.len();
        let mut state: u32 = 0;
        let mut count: usize = 0;
        let mut pos: usize = 0;
        let ghost mut ms: Seq<(u32, u32, u32)> = Seq::empty();
        proof {
            assert(input@.take(0) =~= Seq::<u8>::empty());
        }
        while pos < input.len()
            invariant
                program_wf(p),
                p.class_count == 256,
                trans@ == p.transitions,
                class_count == 256,
                tlen == p.transitions.len(),
                lengths@ == p.pattern_lengths,
                self.accept_pattern@ == p.accept,
                self.output_links@ == p.links,
                pos <= input@.len(),
                input@.len() * p.max_chain <= usize::MAX,
                run(p, input@.take(pos as int)) == (state, ms),
                count == ms.len(),
            decreases input.len() - pos,
        {
            proof {
                lemma_run_len(p, input@.take(pos as int));
                lemma_run_step(p, input@, pos as int);
                vstd::arithmetic::mul::lemma_mul_inequality(pos + 1, input@.len() as int, p.max_chain as int);
                vstd::arithmetic::mul::lemma_mul_is_distributive_add_other_way(p.max_chain as int, pos as int, 1);
                vstd::arithmetic::mul::lemma_mul_inequality(state + 1, p.accept.len() as int, 256);
                vstd::arithmetic::mul::lemma_mul_is_distributive_add_other_way(256, state as int, 1);
            }
            let byte = input[pos];
            let idx = state as usize * class_count + byte as usize;
            let next = if idx < trans.len() { trans[idx] } else { 0 };
            let clean_next = next & STATE_MASK;
            let acc = if (clean_next as usize) < self.accept_pattern.len() {
                self.accept_pattern[clean_next as usize]
            } else {
                NO_PATTERN
            };
            if acc != NO_PATTERN {
                let end = #[verifier::truncate] ((pos + 1) as u32);
                let mut o = clean_next;
                let ghost mut done: Seq<u32> = Seq::empty();
                proof {
                    lemma_chain_len(p, clean_next, p.max_chain);
                }
                while o != NO_PATTERN
                    invariant
                        program_wf(p),
                        lengths@ == p.pattern_lengths,
                        self.accept_pattern@ == p.accept,
                        self.output_links@ == p.links,
                        chain(p, clean_next, p.max_chain) == done + chain(p, o, p.max_chain),
                        o == NO_PATTERN || ((o as nat) < p.accept.len() && p.accept[o as int] != NO_PATTERN),
                        count == ms.len() + done.len(),
                        ms.len() + chain(p, clean_next, p.max_chain).len() <= usize::MAX,
                    decreases (if o == NO_PATTERN { 0 } else { p.rank[o as int] + 1 }),
                {
                    proof {
                        lemma_chain_unfold(p, o);
                    }
                    proof {
                        assert(chain(p, clean_next, p.max_chain) == done.push(o) + chain(p, link_of(p, o), p.max_chain));
                        done = done.push(o);
                    }
                    count += 1;
                    o = if (o as usize) < self.output_links.len() { self.output_links[o as usize] } else { NO_PATTERN };
                }
                proof {
                    assert(done =~= chain(p, clean_next, p.max_chain));
                    ms = ms + chain_matches(p, clean_next, end);
                }
                state = 0;
            } else {
                state = clean_next;
            }
            pos += 1;
        }
        proof {
            assert(input@.take(input@.len() as int) =~= input@);
        }
        count
    }

    fn scan_jit(&self, input: &[u8], matches: &mut [Match]) -> (r: usize)
        requires
            self.wf(),
            self.is_jit,
            input@.len() * self.program().max_chain <= usize::MAX,
        ensures
            ({
                let ms = scan_matches(self.program(), input@);
                &&& r == if ms.len() < old(matches)@.len() { ms.len() } else { old(matches)@.len() }
                &&& written(old(matches)@, final(matches)@, ms)
            }),
    {
        if input.len() == 0 {
            proof {
                assert(input@ =~= Seq::<u8>::empty());
            }
            return 0;
        }
        let ghost p = self.program();
        let trans = &self.flagged;
        let class_count: usize = 256;
        let lengths = &self.jit_lengths;
        let tlen = trans.len();
        let mut state: u32 = 0;
        let mut count: usize = 0;
        let mut pos: usize = 0;
        let ghost mut ms: Seq<(u32, u32, u32)> = Seq::empty();
        proof {
            assert(input@.take(0) =~= Seq::<u8>::empty());
            assert(written(old(matches)@, matches@, ms));
        }
        while pos < input.len()
            invariant
                program_wf(p),
                p.class_count == 256,
                flags_match(trans@, p),
                class_count == 256,
                tlen == p.transitions.len(),
                lengths@ == image_lengths(p.pattern_lengths),
                self.accept_pattern@ == p.accept,
                self.output_links@ == p.links,
                pos <= input@.len(),
                input@.len() * p.max_chain <= usize::MAX,
                run(p, input@.take(pos as int)) == (state, ms),
                count == ms.len(),
                written(old(matches)@, matches@, ms),
            decreases input.len() - pos,
        {
            proof {
                lemma_run_len(p, input@.take(pos as int));
                lemma_run_step(p, input@, pos as int);
                vstd::arithmetic::mul::lemma_mul_inequality(pos + 1, input@.len() as int, p.max_chain as int);
                vstd::arithmetic::mul::lemma_mul_is_distributive_add_other_way(p.max_chain as int, pos as int, 1);
                vstd::arithmetic::mul::lemma_mul_inequality(state + 1, p.accept.len() as int, 256);
                vstd::arithmetic::mul::lemma_mul_is_distributive_add_other_way(256, state as int, 1);
            }
            let byte = input[pos];
            let idx = state as usize * class_count + byte as usize;
            let flagged_next = trans[idx];
            let clean_next = flagged_next & STATE_MASK;
            proof {
                assert(clean(trans@[idx as int]) == clean(p.transitions[idx as int]));
            }
            if (flagged_next & ACCEPT_FLAG) != 0 {
                let end = #[verifier::truncate] ((pos + 1) as u32);
                let mut o = clean_next;
                let ghost mut done: Seq<u32> = Seq::empty();
                proof {
                    lemma_chain_len(p, clean_next, p.max_chain);
                    assert(done.map_values(|x: u32| match_at(p, x, end)) =~= Seq::<(u32, u32, u32)>::empty());
                    assert(ms + done.map_values(|x: u32| match_at(p, x, end)) =~= ms);
                }
                while o != NO_PATTERN
                    invariant
                        program_wf(p),
                        lengths@ == image_lengths(p.pattern_lengths),
                        self.accept_pattern@ == p.accept,
                        self.output_links@ == p.links,
                        chain(p, clean_next, p.max_chain) == done + chain(p, o, p.max_chain),
                        o == NO_PATTERN || ((o as nat) < p.accept.len() && p.accept[o as int] != NO_PATTERN),
                        count == ms.len() + done.len(),
                        ms.len() + chain(p, clean_next, p.max_chain).len() <= usize::MAX,
                        written(old(matches)@, matches@, ms + done.map_values(|x: u32| match_at(p, x, end))),
                    decreases (if o == NO_PATTERN { 0 } else { p.rank[o as int] + 1 }),
                {
                    proof {
                        lemma_chain_unfold(p, o);
                    }
                    let pid = self.accept_pattern[o as usize];
                    let ghost before = matches@;
                    if count < matches.len() {
                        let pat_len = lengths[pid as usize];
                        let start = end.saturating_sub(pat_len);
                        matches[count] = Match::from_parts(pid, start, end);
                    }
                    proof {
                        let f = |x: u32| match_at(p, x, end);
                        assert((done.push(o)).map_values(f) =~= done.map_values(f).push(f(o)));
                        assert((ms + done.map_values(f)).push(f(o)) =~= ms + done.push(o).map_values(f));
                        lemma_written_push(old(matches)@, before, matches@, ms + done.map_values(f), f(o));
                        assert(chain(p, clean_next, p.max_chain) == done.push(o) + chain(p, link_of(p, o), p.max_chain));
                        done = done.push(o);
                    }
                    count += 1;
                    o = if (o as usize) < self.output_links.len() { self.output_links[o as usize] } else { NO_PATTERN };
                }
                proof {
                    assert(done =~= chain(p, clean_next, p.max_chain));
                    ms = ms + chain_matches(p, clean_next, end);
                }
                state = 0;
            } else {
                state = clean_next;
            }
            pos += 1;
        }
        proof {
            assert(input@.take(input@.len() as int) =~= input@);
        }
        if count < matches.len() { count } else { matches.len() }
    }

    fn scan_count_jit(&self, input: &[u8]) -> (r: usize)
        requires
            self.wf(),
            self.is_jit,
            input@.len() * self.program().max_chain <= usize::MAX,
        ensures
            r == scan_matches(self.program(), input@).len(),
    {
        if input.len() == 0 {
            proof {
                assert(input@ =~= Seq::<u8>::empty());
            }
            return 0;
        }
        let ghost p = self.program();
        let trans = &self.flagged;
        let class_count: usize = 256;
        let lengths = &self.jit_lengths;
        let tlen = trans.len();
        let mut state: u32 = 0;
        let mut count: usize = 0;
        let mut pos: usize = 0;
        let ghost mut ms: Seq<(u32, u32, u32)> = Seq::empty();
        proof {
            assert(input@.take(0) =~= Seq::<u8>::empty());
        }
        while pos < input.len()
            invariant
                program_wf(p),
                p.class_count == 256,
                flags_match(trans@, p),
                class_count == 256,
                tlen == p.transitions.len(),
                lengths@ == image_lengths(p.pattern_lengths),
                self.accept_pattern@ == p.accept,
                self.output_links@ == p.links,
                pos <= input@.len(),
                input@.len() * p.max_chain <= usize::MAX,
                run(p, input@.take(pos as int)) == (state, ms),
                count == ms.len(),
            decreases input.len() - pos,
        {
            proof {
                lemma_run_len(p, input@.take(pos as int));
                lemma_run_step(p, input@, pos as int);
                vstd::arithmetic::mul::lemma_mul_inequality(pos + 1, input@.len() as int, p.max_chain as int);
                vstd::arithmetic::mul::lemma_mul_is_distributive_add_other_way(p.max_chain as int, pos as int, 1);
                vstd::arithmetic::mul::lemma_mul_inequality(state + 1, p.accept.len() as int, 256);
                vstd::arithmetic::mul::lemma_mul_is_distributive_add_other_way(256, state as int, 1);
            }
            let byte = input[pos];
            let idx = state as usize * class_count + byte as usize;
            let flagged_next = trans[idx];
            let clean_next = flagged_next & STATE_MASK;
            proof {
                assert(clean(trans@[idx as int]) == clean(p.transitions[idx as int]));
            }
            if (flagged_next & ACCEPT_FLAG) != 0 {
                let end = #[verifier::truncate] ((pos + 1) as u32);
                let mut o = clean_next;
                let ghost mut done: Seq<u32> = Seq::empty();
                proof {
                    lemma_chain_len(p, clean_next, p.max_chain);
                }
                while o != NO_PATTERN
                    invariant
                        program_wf(p),
                        lengths@ == image_lengths(p.pattern_lengths),
                        self.accept_pattern@ == p.accept,
                        self.output_links@ == p.links,
                        chain(p, clean_next, p.max_chain) == done + chain(p, o, p.max_chain),
                        o == NO_PATTERN || ((o as nat) < p.accept.len() && p.accept[o as int] != NO_PATTERN),
                        count == ms.len() + done.len(),
                        ms.len() + chain(p, clean_next, p.max_chain).len() <= usize::MAX,
                    decreases (if o == NO_PATTERN { 0 } else { p.rank[o as int] + 1 }),
                {
                    proof {
                        lemma_chain_unfold(p, o);
                    }
                    proof {
                        assert(chain(p, clean_next, p.max_chain) == done.push(o) + chain(p, link_of(p, o), p.max_chain));
                        done = done.push(o);
                    }
                    count += 1;
                    o = if (o as usize) < self.output_links.len() { self.output_links[o as usize] } else { NO_PATTERN };
                }
                proof {
                    assert(done =~= chain(p, clean_next, p.max_chain));
                    ms = ms + chain_matches(p, clean_next, end);
                }
                state = 0;
            } else {
                state = clean_next;
            }
            pos += 1;
        }
        proof {
            assert(input@.take(input@.len() as int) =~= input@);
        }
        count
    }
}

/// Highest state count that compiles at all.
pub const MAX_COMPILE_STATES: usize = 65_536;

/// The pattern of each state of `t`.
pub open spec fn accept_table(t: TableView) -> Seq<u32> {
    table_program(t).accept
}

/// `rank` decreases along every link of `links`, stays below the number of
/// states, and every link goes to a state with a pattern.
pub open spec fn links_ranked(links: Seq<u32>, accept: Seq<u32>, rank: Seq<nat>) -> bool {
    &&& rank.len() == links.len()
    &&& accept.len() == links.len()
    &&& forall|s: int| 0 <= s < links.len() ==> #[trigger] rank[s] < links.len()
    &&& forall|s: int| 0 <= s < links.len() ==> #[trigger] links[s] != NO_PATTERN ==> {
        &&& (links[s] as nat) < links.len()
        &&& accept[links[s] as int] != NO_PATTERN
        &&& rank[links[s] as int] < rank[s]
    }
}

/// The table and output links pass the checks that precede code generation:
/// at least one state, 256 classes, a full transition array naming only
/// states, acceptable accept entries, and output links that are either absent
/// or one per state, acyclic and ending in accepting states.
pub open spec fn compile_ready(t: TableView, links: Seq<u32>) -> bool {
    let n = t.state_count;
    &&& n > 0
    &&& t.class_count == 256
    &&& t.transitions.len() == n * 256
    &&& forall|i: int| 0 <= i < t.transitions.len() ==> (clean(#[trigger] t.transitions[i]) as nat) < n
    &&& accepts_ok(t.accept_states, n, t.pattern_lengths.len())
    &&& links.len() == 0 || (links.len() == n && exists|rank: Seq<nat>| links_ranked(links, accept_table(t), rank))
}

/// The output links that a compiled table uses: the given ones, or none.
pub open spec fn compiled_links(t: TableView, links: Seq<u32>) -> Seq<u32> {
    if links.len() == 0 { Seq::new(t.state_count, |s: int| NO_PATTERN) } else { links }
}

/// The program that compiling `t` with `links` yields.
pub open spec fn compiled_program(t: TableView, links: Seq<u32>) -> Program {
    Program {
        transitions: t.transitions,
        class_count: t.class_count,
        accept: accept_table(t),
        pattern_lengths: t.pattern_lengths,
        links: compiled_links(t, links),
        rank: if links.len() == 0 {
            Seq::new(t.state_count, |s: int| 0nat)
        } else {
            choose|rank: Seq<nat>| links_ranked(links, accept_table(t), rank)
        },
        max_chain: if links.len() == 0 { 1 } else { t.state_count },
    }
}

/// The pattern that the accept entries give state `s` is absent or has a length.
proof fn lemma_pattern_of_state(accepts: Seq<(u32, u32)>, n: nat, count: nat, s: int)
    requires
        accepts_ok(accepts, n, count),
    ensures
        pattern_of_state(accepts, s) == NO_PATTERN || (pattern_of_state(accepts, s) as nat) < count,
    decreases accepts.len(),
{
    if accepts.len() > 0 {
        let p = accepts.drop_last();
        assert(accept_entry_ok(accepts, accepts.len() - 1, n, count));
        assert forall|k: int| 0 <= k < p.len() implies accept_entry_ok(p, k, n, count) by {
            assert(accept_entry_ok(accepts, k, n, count));
            assert forall|j: int| 0 <= j < k implies p[j] == accepts[j] by {}
        }
        lemma_pattern_of_state(p, n, count, s);
    }
}

/// A table ready for compilation gives a well-formed program.
pub(crate) proof fn lemma_compiled_program_wf(t: TableView, links: Seq<u32>)
    requires
        compile_ready(t, links),
    ensures
        program_wf(compiled_program(t, links)),
{
    let p = compiled_program(t, links);
    assert forall|s: int| 0 <= s < p.accept.len() && #[trigger] p.accept[s] != NO_PATTERN
        implies (p.accept[s] as nat) < p.pattern_lengths.len() by {
        lemma_pattern_of_state(t.accept_states, t.state_count, t.pattern_lengths.len(), s);
    }
    if links.len() > 0 {
        let rank = choose|rank: Seq<nat>| links_ranked(links, accept_table(t), rank);
        assert(links_ranked(links, accept_table(t), rank));
    }
}

/// Setting bit 31 on a clean target keeps the target; a clean target has bit 31 clear.
proof fn lemma_flag_bits(t: u32)
    ensures
        clean(clean(t) | ACCEPT_FLAG) == clean(t),
        (clean(t) | ACCEPT_FLAG) & ACCEPT_FLAG != 0,
        clean(clean(t)) == clean(t),
        clean(t) & ACCEPT_FLAG == 0,
{
    assert(((t & 0x7FFF_FFFF) | 0x8000_0000) & 0x7FFF_FFFF == t & 0x7FFF_FFFF) by (bit_vector);
    assert(((t & 0x7FFF_FFFF) | 0x8000_0000) & 0x8000_0000 != 0) by (bit_vector);
    assert((t & 0x7FFF_FFFF) & 0x7FFF_FFFF == t & 0x7FFF_FFFF) by (bit_vector);
    assert((t & 0x7FFF_FFFF) & 0x8000_0000 == 0) by (bit_vector);
}

/// The pattern of each state, from the accept entries (later entries win).
fn build_accept_pattern(table: &TransitionTable) -> (r: Vec<u32>)
    ensures
        r@ == accept_table(table@),
{
    let n = table.state_count();
    let accepts = table.accept_states();
    let mut accept_pattern: Vec<u32> = vec![NO_PATTERN; n];
    let mut k: usize = 0;
    while k < accepts.len()
        invariant
            k <= accepts@.len(),
            n == table@.state_count,
            accepts@ == table@.accept_states,
            accept_pattern@ =~= Seq::new(n as nat, |s: int| pattern_of_state(accepts@.take(k as int), s)),
        decreases accepts@.len() - k,
    {
        let (state, pattern_id) = accepts[k];
        proof {
            assert(accepts@.take(k + 1).drop_last() =~= accepts@.take(k as int));
        }
        if (state as usize) < accept_pattern.len() {
            accept_pattern.set(state as usize, pattern_id);
        }
        k += 1;
    }
    proof {
        assert(accepts@.take(k as int) =~= accepts@);
    }
    accept_pattern
}

/// Transition `t` with the flag removed, then bit 31 set when its target has a pattern.
pub open spec fn flag_target(t: u32, accept: Seq<u32>) -> u32 {
    if clean(t) < accept.len() && accept[clean(t) as int] != NO_PATTERN {
        clean(t) | ACCEPT_FLAG
    } else {
        clean(t)
    }
}

/// The flagged transition table of the image for `t`.
pub open spec fn flagged_table(t: TableView) -> Seq<u32> {
    t.transitions.map_values(|x: u32| flag_target(x, accept_table(t)))
}

/// The transitions with bit 31 set exactly on targets that have a pattern.
fn flag_transitions(transitions: &[u32], accept_pattern: &Vec<u32>) -> (r: Vec<u32>)
    ensures
        r@ == transitions@.map_values(|x: u32| flag_target(x, accept_pattern@)),
        r@.len() == transitions@.len(),
        forall|i: int| 0 <= i < r@.len() ==> {
            &&& clean(#[trigger] r@[i]) == clean(transitions@[i])
            &&& ((r@[i] & ACCEPT_FLAG) != 0 <==> (clean(transitions@[i]) < accept_pattern@.len()
                && accept_pattern@[clean(transitions@[i]) as int] != NO_PATTERN))
        },
{
    let mut flagged: Vec<u32> = Vec::with_capacity(transitions.len());
    let mut i: usize = 0;
    while i < transitions.len()
        invariant
            i <= transitions@.len(),
            flagged@.len() == i,
            flagged@ =~= transitions@.take(i as int).map_values(|x: u32| flag_target(x, accept_pattern@)),
            forall|j: int| 0 <= j < i ==> {
                &&& clean(#[trigger] flagged@[j]) == clean(transitions@[j])
                &&& ((flagged@[j] & ACCEPT_FLAG) != 0 <==> (clean(transitions@[j]) < accept_pattern@.len()
                    && accept_pattern@[clean(transitions@[j]) as int] != NO_PATTERN))
            },
        decreases transitions@.len() - i,
    {
        let t = transitions[i];
        let target = t & STATE_MASK;
        proof {
            lemma_flag_bits(t);
        }
        if (target as usize) < accept_pattern.len() && accept_pattern[target as usize] != NO_PATTERN {
            flagged.push(target | ACCEPT_FLAG);
        } else {
            flagged.push(target);
        }
        i += 1;
    }
    proof {
        assert(transitions@.take(i as int) =~= transitions@);
    }
    flagged
}

/// The given output links, extended with [`NO_PATTERN`] to one per state.
fn full_links(output_links: &[u32], state_count: usize) -> (r: Vec<u32>)
    requires
        output_links@.len() == 0 || output_links@.len() == state_count,
    ensures
        output_links@.len() == 0 ==> r@ == Seq::new(state_count as nat, |s: int| NO_PATTERN),
        output_links@.len() == state_count ==> r@ == output_links@,
{
    let mut output_link: Vec<u32> = Vec::with_capacity(state_count);
    let mut i: usize = 0;
    while i < output_links.len()
        invariant
            i <= output_links@.len(),
            output_link@ == output_links@.take(i as int),
        decreases output_links@.len() - i,
    {
        output_link.push(output_links[i]);
        proof {
            assert(output_links@.take(i + 1) =~= output_links@.take(i as int).push(output_links@[i as int]));
        }
        i += 1;
    }
    proof {
        assert(output_links@.take(i as int) =~= output_links@);
    }
    if output_link.len() < state_count {
        output_link.resize(state_count, NO_PATTERN);
        proof {
            assert(output_link@ =~= Seq::new(state_count as nat, |s: int| NO_PATTERN));
        }
    }
    output_link
}

/// The code image for `t` with `links`: the scan loop for 256 classes, then
/// the flagged transitions, the pattern of each state, the pattern lengths (a
/// single 0 when there are none) and the output links.
pub open spec fn compiled_image(t: TableView, links: Seq<u32>) -> Seq<u8> {
    jit_image(256, flagged_table(t), accept_table(t), image_lengths(t.pattern_lengths), compiled_links(t, links))
}

/// Where the address fields and tables of the image for `t` are.
pub open spec fn compiled_layout(t: TableView) -> ImageLayout {
    let trans_offset = DATA_START;
    let accept_offset = trans_offset + 4 * t.transitions.len();
    let patlen_offset = accept_offset + 4 * t.state_count;
    let output_offset = patlen_offset + 4 * image_lengths(t.pattern_lengths).len();
    ImageLayout {
        trans_patch: TRANS_PATCH,
        accept_patch: ACCEPT_PATCH,
        patlen_patch: PATLEN_PATCH,
        output_patch: OUTPUT_PATCH,
        trans_offset: trans_offset as usize,
        accept_offset: accept_offset as usize,
        patlen_offset: patlen_offset as usize,
        output_offset: output_offset as usize,
    }
}

/// Compile a checked table, with optional output links, into an executable
/// buffer: a code image of the scan loop for at most 4096 states, else a
/// one-byte stub with the table kept for scanning.
///
/// A full set of output links must not loop (some rank falls along every
/// link): a scan follows a state's links until one is absent, so on looping
/// links it would never end. The scan loop writes each match as a 16-byte
/// record: pattern id, start and end, then 4 unused bytes.
///
/// # Errors
///
/// [`Error::TooManyStates`] when the table has more than 65536 states.
pub fn compile_x86_64(table: &TransitionTable, output_links: &[u32]) -> (r: Result<ExecutableBuffer, Error>)
    requires
        compile_ready(table@, output_links@),
    ensures
        table@.state_count > MAX_COMPILE_STATES
            ==> (r matches Err(e) && e@ == ErrorView::TooManyStates(table@.state_count as usize, MAX_COMPILE_STATES)),
        table@.state_count <= MAX_COMPILE_STATES ==> (r matches Ok(b) && {
            &&& b.program() == compiled_program(table@, output_links@)
            &&& b.source() == table@
            &&& b.has_image() == (table@.state_count <= MAX_JIT_STATES)
            &&& b.has_image() ==> b.image_view() == compiled_image(table@, output_links@)
            &&& b.has_image() ==> b.layout_view() == compiled_layout(table@)
            &&& !b.has_image() ==> b.image_view() == seq![0xC3u8]
        }),
{
    if table.state_count() > MAX_COMPILE_STATES {
        return Err(Error::TooManyStates { states: table.state_count(), max: MAX_COMPILE_STATES });
    }
    if table.state_count() > MAX_JIT_STATES {
        return Ok(compile_interpreted_fallback(table, output_links));
    }
    let n = table.state_count();
    proof {
        lemma_compiled_program_wf(table@, output_links@);
    }
    let accept_pattern = build_accept_pattern(table);
    let flagged = flag_transitions(table.transitions(), &accept_pattern);
    let output_link = full_links(output_links, n);
    let lengths = table.pattern_lengths();
    let mut jit_lengths: Vec<u32> = Vec::new();
    if lengths.len() == 0 {
        jit_lengths.push(0);
    } else {
        push_all(&mut jit_lengths, lengths);
    }
    proof {
        assert(jit_lengths@ =~= image_lengths(lengths@));
    }

    let mut c: Vec<u8> = Vec::with_capacity(4096);
    emit_scan_code(&mut c, table.class_count() as u32);
    c.extend_from_slice(&[0xCC, 0xCC, 0xCC, 0xCC, 0xCC, 0xCC, 0xCC]);
    proof {
        lemma_padded_code_len(256);
        assert(c@ =~= padded_code(256));
    }
    let trans_offset = c.len();
    push_words(&mut c, flagged.as_slice());
    let accept_offset = c.len();
    push_words(&mut c, accept_pattern.as_slice());
    let patlen_offset = c.len();
    push_words(&mut c, jit_lengths.as_slice());
    let output_offset = c.len();
    push_words(&mut c, output_link.as_slice());

    let layout = ImageLayout {
        trans_patch: TRANS_PATCH,
        accept_patch: ACCEPT_PATCH,
        patlen_patch: PATLEN_PATCH,
        output_patch: OUTPUT_PATCH,
        trans_offset,
        accept_offset,
        patlen_offset,
        output_offset,
    };
    let buffer = ExecutableBuffer {
        image: c,
        layout,
        table: table.duplicate(),
        is_jit: true,
        chained: output_links.len() != 0,
        flagged,
        jit_lengths,
        accept_pattern,
        output_links: output_link,
    };
    proof {
        let p = buffer.program();
        assert(p == compiled_program(table@, output_links@));
        assert(buffer.flagged@ == flagged_table(table@));
        lemma_words_le_len(flagged@);
        lemma_words_le_len(accept_pattern@);
        lemma_words_le_len(jit_lengths@);
        assert(buffer.image@ =~= compiled_image(table@, output_links@));
        assert forall|i: int| 0 <= i < buffer.flagged@.len() implies {
            &&& clean(#[trigger] buffer.flagged@[i]) == clean(p.transitions[i])
            &&& ((buffer.flagged@[i] & ACCEPT_FLAG) != 0 <==> accept_of(p, clean(p.transitions[i])) != NO_PATTERN)
        } by {
            assert((clean(p.transitions[i]) as nat) < table@.state_count);
        }
    }
    Ok(buffer)
}

/// Append all of `s`.
fn push_all(v: &mut Vec<u32>, s: &[u32])
    ensures
        final(v)@ == old(v)@ + s@,
{
    let ghost head = v@;
    let mut i: usize = 0;
    while i < s.len()
        invariant
            i <= s@.len(),
            v@ == head + s@.take(i as int),
        decreases s@.len() - i,
    {
        v.push(s[i]);
        proof {
            assert(s@.take(i + 1) =~= s@.take(i as int).push(s@[i as int]));
        }
        i += 1;
    }
    proof {
        assert(s@.take(i as int) =~= s@);
    }
}

/// The buffer for a table too large for a code image: a one-byte stub, and
/// the table kept for scanning.
fn compile_interpreted_fallback(table: &TransitionTable, output_links: &[u32]) -> (r: ExecutableBuffer)
    requires
        compile_ready(table@, output_links@),
        table@.state_count > MAX_JIT_STATES,
    ensures
        r.program() == compiled_program(table@, output_links@),
        r.source() == table@,
        !r.has_image(),
        r.image_view() == seq![0xC3u8],
{
    let mut stub: Vec<u8> = Vec::new();
    stub.push(0xC3); // ret
    let n = table.state_count();
    proof {
        lemma_compiled_program_wf(table@, output_links@);
    }
    let accept_pattern = build_accept_pattern(table);
    let output_link = full_links(output_links, n);
    let layout = ImageLayout {
        trans_patch: 0,
        accept_patch: 0,
        patlen_patch: 0,
        output_patch: 0,
        trans_offset: 0,
        accept_offset: 0,
        patlen_offset: 0,
        output_offset: 0,
    };
    let buffer = ExecutableBuffer {
        image: stub,
        layout,
        table: table.duplicate(),
        is_jit: false,
        chained: output_links.len() != 0,
        flagged: Vec::new(),
        jit_lengths: Vec::new(),
        accept_pattern,
        output_links: output_link,
    };
    proof {
        assert(buffer.program() == compiled_program(table@, output_links@));
        assert(buffer.image@ =~= seq![0xC3u8]);
    }
    buffer
}

} // verus!
