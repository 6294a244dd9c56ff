//! The byte format of a transition table.
//!
//! All integers are `u32`, little endian: the state count, the class count,
//! the transitions, the number of accept entries, each accept entry as state
//! then pattern id, the number of pattern lengths, and the pattern lengths.

use vstd::prelude::*;
use vstd::string::*;
use vstd::bytes::{spec_u32_to_le_bytes, spec_u32_from_le_bytes, u32_to_le_bytes, u32_from_le_bytes, lemma_auto_spec_u32_to_from_le_bytes};
use crate::error::{Error, ErrorView};
use super::{TransitionTable, TableView, from_parts_error, reason_dims_overflow};

verus! {

/// Little-endian bytes of `x`.
pub open spec fn le32(x: u32) -> Seq<u8> {
    spec_u32_to_le_bytes(x)
}

/// The words of `s`, each as four little-endian bytes.
pub open spec fn words_le(s: Seq<u32>) -> Seq<u8>
    decreases s.len(),
{
    if s.len() == 0 {
        Seq::empty()
    } else {
        words_le(s.drop_last()) + le32(s.last())
    }
}

/// The pairs of `s`, each as its first then its second word.
pub open spec fn pairs_le(s: Seq<(u32, u32)>) -> Seq<u8>
    decreases s.len(),
{
    if s.len() == 0 {
        Seq::empty()
    } else {
        pairs_le(s.drop_last()) + le32(s.last().0) + le32(s.last().1)
    }
}

/// The bytes that [`TransitionTable::to_bytes`] writes for `t`; each count is
/// written as a `u32`.
pub open spec fn table_bytes(t: TableView) -> Seq<u8> {
    le32(t.state_count as u32) + le32(t.class_count as u32) + words_le(t.transitions)
        + le32(t.accept_states.len() as u32) + pairs_le(t.accept_states)
        + le32(t.pattern_lengths.len() as u32) + words_le(t.pattern_lengths)
}

/// The little-endian word at byte offset `off`.
pub open spec fn word_at(d: Seq<u8>, off: int) -> u32 {
    spec_u32_from_le_bytes(d.subrange(off, off + 4))
}

/// An InvalidTable error with the given reason.
pub open spec fn invalid(reason: Seq<char>) -> ErrorView {
    ErrorView::InvalidTable(reason)
}

/// The parts that `d` spells out, or the error for the first length check
/// that fails. Bytes after the pattern lengths are not looked at.
pub open spec fn decode_parts(d: Seq<u8>) -> Result<TableView, ErrorView> {
    if d.len() < 8 {
        Err(invalid("data too short for header"@))
    } else {
        let n = word_at(d, 0) as nat;
        let c = word_at(d, 4) as nat;
        let tl = n * c;
        if tl > usize::MAX {
            Err(invalid(reason_dims_overflow()))
        } else if tl * 4 > usize::MAX {
            Err(invalid("transition table byte length overflow"@))
        } else if 8 + tl * 4 > usize::MAX {
            Err(invalid("transition table end offset overflow"@))
        } else if d.len() < 8 + tl * 4 + 4 {
            Err(invalid("truncated transition table"@))
        } else {
            let te = 8 + tl * 4;
            let ac = word_at(d, te as int) as nat;
            if ac * 8 > usize::MAX {
                Err(invalid("accept states byte length overflow"@))
            } else if te + 4 + ac * 8 > usize::MAX {
                Err(invalid("accept states end offset overflow"@))
            } else if d.len() < te + 4 + ac * 8 {
                Err(invalid("truncated accept states"@))
            } else {
                let p = te + 4 + ac * 8;
                if p + 4 > d.len() {
                    Err(invalid("truncated pattern lengths header"@))
                } else {
                    let pc = word_at(d, p as int) as nat;
                    if pc * 4 > usize::MAX {
                        Err(invalid("pattern lengths byte length overflow"@))
                    } else if p + 4 + pc * 4 > usize::MAX {
                        Err(invalid("pattern lengths end offset overflow"@))
                    } else if d.len() < p + 4 + pc * 4 {
                        Err(invalid("truncated pattern lengths"@))
                    } else {
                        Ok(TableView {
                            state_count: n,
                            class_count: c,
                            transitions: Seq::new(tl, |i: int| word_at(d, 8 + 4 * i)),
                            accept_states: Seq::new(ac, |k: int| (word_at(d, te + 4 + 8 * k), word_at(d, te + 8 + 8 * k))),
                            pattern_lengths: Seq::new(pc, |k: int| word_at(d, p + 4 + 4 * k)),
                        })
                    }
                }
            }
        }
    }
}

/// What [`TransitionTable::from_bytes`] gives for `d`: the decoded parts, held
/// to the checks of [`TransitionTable::from_parts`].
pub open spec fn from_bytes_result(d: Seq<u8>) -> Result<TableView, ErrorView> {
    match decode_parts(d) {
        Err(e) => Err(e),
        Ok(t) => match from_parts_error(t.state_count, t.class_count, t.transitions, t.accept_states, t.pattern_lengths) {
            Some(e) => Err(e),
            None => Ok(t),
        },
    }
}

proof fn lemma_word_at_suffix(x: Seq<u8>, y: Seq<u8>, off: int)
    requires
        x.len() <= off,
        off + 4 <= x.len() + y.len(),
    ensures
        word_at(x + y, off) == word_at(y, off - x.len()),
{
    assert((x + y).subrange(off, off + 4) =~= y.subrange(off - x.len(), off - x.len() + 4));
}

proof fn lemma_word_at_prefix(x: Seq<u8>, y: Seq<u8>, off: int)
    requires
        0 <= off,
        off + 4 <= x.len(),
    ensures
        word_at(x + y, off) == word_at(x, off),
{
    assert((x + y).subrange(off, off + 4) =~= x.subrange(off, off + 4));
}

/// Four bytes per word.
pub proof fn lemma_le32_len(x: u32)
    ensures
        le32(x).len() == 4,
{
    lemma_auto_spec_u32_to_from_le_bytes();
}

/// Four bytes per word.
pub proof fn lemma_words_le_len(s: Seq<u32>)
    ensures
        words_le(s).len() == 4 * s.len(),
{
    lemma_words_le(s);
}

proof fn lemma_le32(x: u32)
    ensures
        le32(x).len() == 4,
        word_at(le32(x), 0) == x,
{
    lemma_auto_spec_u32_to_from_le_bytes();
    assert(le32(x).subrange(0, 4) =~= le32(x));
}

proof fn lemma_words_le(s: Seq<u32>)
    ensures
        words_le(s).len() == 4 * s.len(),
        forall|i: int| 0 <= i < s.len() ==> #[trigger] word_at(words_le(s), 4 * i) == s[i],
    decreases s.len(),
{
    if s.len() > 0 {
        let p = s.drop_last();
        lemma_words_le(p);
        lemma_le32(s.last());
        assert forall|i: int| 0 <= i < s.len() implies #[trigger] word_at(words_le(s), 4 * i) == s[i] by {
            if i < p.len() {
                lemma_word_at_prefix(words_le(p), le32(s.last()), 4 * i);
                assert(word_at(words_le(p), 4 * i) == p[i]);
            } else {
                lemma_word_at_suffix(words_le(p), le32(s.last()), 4 * i);
            }
        }
    }
}

proof fn lemma_pairs_le(s: Seq<(u32, u32)>)
    ensures
        pairs_le(s).len() == 8 * s.len(),
        forall|k: int| 0 <= k < s.len() ==> #[trigger] word_at(pairs_le(s), 8 * k) == s[k].0,
        forall|k: int| 0 <= k < s.len() ==> #[trigger] word_at(pairs_le(s), 8 * k + 4) == s[k].1,
    decreases s.len(),
{
    if s.len() > 0 {
        let p = s.drop_last();
        lemma_pairs_le(p);
        lemma_le32(s.last().0);
        lemma_le32(s.last().1);
        let a = pairs_le(p);
        let b = le32(s.last().0);
        let c = le32(s.last().1);
        assert forall|k: int| 0 <= k < s.len() implies #[trigger] word_at(pairs_le(s), 8 * k) == s[k].0 by {
            if k < p.len() {
                lemma_word_at_prefix(a + b, c, 8 * k);
                lemma_word_at_prefix(a, b, 8 * k);
                assert(word_at(a, 8 * k) == p[k].0);
            } else {
                lemma_word_at_prefix(a + b, c, 8 * k);
                lemma_word_at_suffix(a, b, 8 * k);
            }
        }
        assert forall|k: int| 0 <= k < s.len() implies #[trigger] word_at(pairs_le(s), 8 * k + 4) == s[k].1 by {
            if k < p.len() {
                lemma_word_at_prefix(a + b, c, 8 * k + 4);
                lemma_word_at_prefix(a, b, 8 * k + 4);
                assert(word_at(a, 8 * k + 4) == p[k].1);
            } else {
                lemma_word_at_suffix(a + b, c, 8 * k + 4);
            }
        }
    }
}

/// Law: a table that [`TransitionTable::from_parts`] accepts, whose counts fit
/// in a `u32`, is read back by [`TransitionTable::from_bytes`] from the bytes
/// that [`TransitionTable::to_bytes`] writes for it.
pub proof fn lemma_bytes_round_trip(t: TableView)
    requires
        super::table_valid(t),
        t.class_count <= u32::MAX,
        t.accept_states.len() <= u32::MAX,
        t.pattern_lengths.len() <= u32::MAX,
        table_bytes(t).len() <= usize::MAX,
    ensures
        from_bytes_result(table_bytes(t)) == Ok::<TableView, ErrorView>(t),
{
    let h1 = le32(t.state_count as u32);
    let h2 = le32(t.class_count as u32);
    let w = words_le(t.transitions);
    let h3 = le32(t.accept_states.len() as u32);
    let pr = pairs_le(t.accept_states);
    let h4 = le32(t.pattern_lengths.len() as u32);
    let l = words_le(t.pattern_lengths);
    lemma_le32(t.state_count as u32);
    lemma_le32(t.class_count as u32);
    lemma_le32(t.accept_states.len() as u32);
    lemma_le32(t.pattern_lengths.len() as u32);
    lemma_words_le(t.transitions);
    lemma_pairs_le(t.accept_states);
    lemma_words_le(t.pattern_lengths);
    let d = table_bytes(t);
    let a1 = h1 + h2;
    let a2 = a1 + w;
    let a3 = a2 + h3;
    let a4 = a3 + pr;
    let a5 = a4 + h4;
    assert(d == a5 + l);
    let tl = t.transitions.len();
    let te: int = 8 + 4 * (tl as int);
    let ac = t.accept_states.len();
    let p: int = te + 4 + 8 * (ac as int);
    let pc = t.pattern_lengths.len();
    assert(a5.len() == p + 4);
    // the header
    lemma_word_at_prefix(a5, l, 0);
    lemma_word_at_prefix(a4, h4, 0);
    lemma_word_at_prefix(a3, pr, 0);
    lemma_word_at_prefix(a2, h3, 0);
    lemma_word_at_prefix(a1, w, 0);
    lemma_word_at_prefix(h1, h2, 0);
    assert(word_at(d, 0) == t.state_count as u32);
    lemma_word_at_prefix(a5, l, 4);
    lemma_word_at_prefix(a4, h4, 4);
    lemma_word_at_prefix(a3, pr, 4);
    lemma_word_at_prefix(a2, h3, 4);
    lemma_word_at_prefix(a1, w, 4);
    lemma_word_at_suffix(h1, h2, 4);
    assert(word_at(d, 4) == t.class_count as u32);
    assert(t.state_count <= super::MAX_STATES);
    assert(word_at(d, 0) as nat == t.state_count);
    assert(word_at(d, 4) as nat == t.class_count);
    assert(tl == t.state_count * t.class_count);
    // the counts
    lemma_word_at_prefix(a5, l, te);
    lemma_word_at_prefix(a4, h4, te);
    lemma_word_at_prefix(a3, pr, te);
    lemma_word_at_suffix(a2, h3, te);
    assert(word_at(d, te) as nat == ac);
    lemma_word_at_prefix(a5, l, p);
    lemma_word_at_suffix(a4, h4, p);
    assert(word_at(d, p) as nat == pc);
    // the sequences
    let dec = decode_parts(d);
    assert forall|i: int| 0 <= i < tl implies word_at(d, 8 + 4 * i) == t.transitions[i] by {
        lemma_word_at_prefix(a5, l, 8 + 4 * i);
        lemma_word_at_prefix(a4, h4, 8 + 4 * i);
        lemma_word_at_prefix(a3, pr, 8 + 4 * i);
        lemma_word_at_prefix(a2, h3, 8 + 4 * i);
        lemma_word_at_suffix(a1, w, 8 + 4 * i);
        assert(word_at(w, 4 * i) == t.transitions[i]);
    }
    assert forall|k: int| 0 <= k < ac implies word_at(d, te + 4 + 8 * k) == t.accept_states[k].0
        && word_at(d, te + 8 + 8 * k) == t.accept_states[k].1 by {
        lemma_word_at_prefix(a5, l, te + 4 + 8 * k);
        lemma_word_at_prefix(a4, h4, te + 4 + 8 * k);
        lemma_word_at_suffix(a3, pr, te + 4 + 8 * k);
        assert(word_at(pr, 8 * k) == t.accept_states[k].0);
        lemma_word_at_prefix(a5, l, te + 8 + 8 * k);
        lemma_word_at_prefix(a4, h4, te + 8 + 8 * k);
        lemma_word_at_suffix(a3, pr, te + 8 + 8 * k);
        assert(word_at(pr, 8 * k + 4) == t.accept_states[k].1);
    }
    assert forall|k: int| 0 <= k < pc implies word_at(d, p + 4 + 4 * k) == t.pattern_lengths[k] by {
        lemma_word_at_suffix(a5, l, p + 4 + 4 * k);
        assert(word_at(l, 4 * k) == t.pattern_lengths[k]);
    }
    assert(dec matches Ok(u) && u.transitions =~= t.transitions && u.accept_states =~= t.accept_states
        && u.pattern_lengths =~= t.pattern_lengths);
}

fn push_word(buf: &mut Vec<u8>, x: u32)
    ensures
        final(buf)@ == old(buf)@ + le32(x),
{
    let mut w = u32_to_le_bytes(x);
    buf.append(&mut w);
}

/// Append the words of `s`, four little-endian bytes each.
pub fn push_words(buf: &mut Vec<u8>, s: &[u32])
    ensures
        final(buf)@ == old(buf)@ + words_le(s@),
{
    let ghost head = buf@;
    let mut i: usize = 0;
    while i < s.len()
        invariant
            i <= s@.len(),
            buf@ == head + words_le(s@.take(i as int)),
        decreases s@.len() - i,
    {
        push_word(buf, s[i]);
        proof {
            assert(s@.take(i + 1).drop_last() =~= s@.take(i as int));
        }
        i += 1;
    }
    proof {
        assert(s@.take(i as int) =~= s@);
    }
}

fn read_word(data: &[u8], off: usize) -> (r: u32)
    requires
        off + 4 <= data@.len(),
    ensures
        r == word_at(data@, off as int),
{
    let len = data.len();
    proof {
        assert(off + 4 <= len);
    }
    u32_from_le_bytes(&data[off..off + 4])
}

fn invalid_table(reason: &str) -> (r: Error)
    ensures
        r@ == invalid(reason@),
{
    Error::InvalidTable { reason: String::from_str(reason) }
}

impl TransitionTable {
    /// Serialize the table to bytes, in the format described in this module;
    /// each count is written as a `u32`.
    pub fn to_bytes(&self) -> (r: Vec<u8>)
        ensures
            r@ == table_bytes(self@),
    {
        let accept_count = self.accept_states.len();
        let pat_len_count = self.pattern_lengths.len();
        let mut buf: Vec<u8> = Vec::new();
        push_word(&mut buf, self.state_count as u32);
        push_word(&mut buf, self.class_count as u32);
        let ghost head = buf@;
        let mut i: usize = 0;
        while i < self.transitions.len()
            invariant
                i <= self.transitions@.len(),
                buf@ == head + words_le(self.transitions@.take(i as int)),
            decreases self.transitions@.len() - i,
        {
            push_word(&mut buf, self.transitions[i]);
            proof {
                assert(self.transitions@.take(i + 1).drop_last() =~= self.transitions@.take(i as int));
            }
            i += 1;
        }
        proof {
            assert(self.transitions@.take(i as int) =~= self.transitions@);
        }
        push_word(&mut buf, accept_count as u32);
        let ghost head2 = buf@;
        let mut k: usize = 0;
        while k < accept_count
            invariant
                k <= accept_count,
                accept_count == self.accept_states@.len(),
                buf@ == head2 + pairs_le(self.accept_states@.take(k as int)),
            decreases accept_count - k,
        {
            let (state, pid) = self.accept_states[k];
            push_word(&mut buf, state);
            push_word(&mut buf, pid);
            proof {
                assert(self.accept_states@.take(k + 1).drop_last() =~= self.accept_states@.take(k as int));
            }
            k += 1;
        }
        proof {
            assert(self.accept_states@.take(k as int) =~= self.accept_states@);
        }
        push_word(&mut buf, pat_len_count as u32);
        let ghost head3 = buf@;
        let mut j: usize = 0;
        while j < pat_len_count
            invariant
                j <= pat_len_count,
                pat_len_count == self.pattern_lengths@.len(),
                buf@ == head3 + words_le(self.pattern_lengths@.take(j as int)),
            decreases pat_len_count - j,
        {
            push_word(&mut buf, self.pattern_lengths[j]);
            proof {
                assert(self.pattern_lengths@.take(j + 1).drop_last() =~= self.pattern_lengths@.take(j as int));
            }
            j += 1;
        }
        proof {
            assert(self.pattern_lengths@.take(j as int) =~= self.pattern_lengths@);
            assert(buf@ =~= table_bytes(self@));
        }
        buf
    }

    /// Deserialize a transition table from bytes.
    ///
    /// # Errors
    ///
    /// Returns [`Error::InvalidTable`] if the bytes are truncated, their sizes
    /// overflow, or the decoded parts fail the checks of
    /// [`TransitionTable::from_parts`].
    pub fn from_bytes(data: &[u8]) -> (r: Result<Self, Error>)
        ensures
            r is Ok <==> from_bytes_result(data@) is Ok,
            r matches Ok(t) ==> from_bytes_result(data@) == Ok::<TableView, ErrorView>(t@),
            r matches Err(e) ==> from_bytes_result(data@) == Err::<TableView, ErrorView>(e@),
    {
        if data.len() < 8 {
            return Err(invalid_table("data too short for header"));
        }
        let state_count = read_word(data, 0) as usize;
        let class_count = read_word(data, 4) as usize;
        let trans_len = match state_count.checked_mul(class_count) {
            Some(x) => x,
            None => {
                return Err(invalid_table("state_count * class_count overflow"));
            },
        };
        let trans_bytes = match trans_len.checked_mul(4) {
            Some(x) => x,
            None => {
                return Err(invalid_table("transition table byte length overflow"));
            },
        };
        let trans_end = match 8usize.checked_add(trans_bytes) {
            Some(x) => x,
            None => {
                return Err(invalid_table("transition table end offset overflow"));
            },
        };
        if data.len() < trans_end || data.len() - trans_end < 4 {
            return Err(invalid_table("truncated transition table"));
        }
        let mut transitions: Vec<u32> = Vec::with_capacity(trans_len);
        let mut i: usize = 0;
        while i < trans_len
            invariant
                i <= trans_len,
                trans_len * 4 == trans_bytes,
                trans_end == 8 + trans_bytes,
                trans_end + 4 <= data@.len(),
                transitions@ =~= Seq::new(i as nat, |x: int| word_at(data@, 8 + 4 * x)),
            decreases trans_len - i,
        {
            proof {
                assert(i * 4 + 4 <= trans_len * 4) by (nonlinear_arith)
                    requires i < trans_len;
            }
            let off = 8 + i * 4;
            let val = read_word(data, off);
            transitions.push(val);
            i += 1;
        }
        let accept_count = read_word(data, trans_end) as usize;
        let accept_bytes = match accept_count.checked_mul(8) {
            Some(x) => x,
            None => {
                return Err(invalid_table("accept states byte length overflow"));
            },
        };
        let mut pos = trans_end + 4;
        let accept_end = match pos.checked_add(accept_bytes) {
            Some(x) => x,
            None => {
                return Err(invalid_table("accept states end offset overflow"));
            },
        };
        if data.len() < accept_end {
            return Err(invalid_table("truncated accept states"));
        }
        let mut accept_states: Vec<(u32, u32)> = Vec::with_capacity(accept_count);
        let mut k: usize = 0;
        while k < accept_count
            invariant
                k <= accept_count,
                accept_count * 8 == accept_bytes,
                accept_end == trans_end + 4 + accept_bytes,
                accept_end <= data@.len(),
                pos == trans_end + 4 + 8 * k,
                accept_states@ =~= Seq::new(k as nat, |x: int| (word_at(data@, trans_end + 4 + 8 * x), word_at(data@, trans_end + 8 + 8 * x))),
            decreases accept_count - k,
        {
            proof {
                assert(8 * k + 8 <= accept_count * 8) by (nonlinear_arith)
                    requires k < accept_count;
            }
            let state = read_word(data, pos);
            let pid = read_word(data, pos + 4);
            accept_states.push((state, pid));
            pos += 8;
            k += 1;
        }
        if data.len() - pos < 4 {
            return Err(invalid_table("truncated pattern lengths header"));
        }
        let pat_count = read_word(data, pos) as usize;
        let pat_bytes = match pat_count.checked_mul(4) {
            Some(x) => x,
            None => {
                return Err(invalid_table("pattern lengths byte length overflow"));
            },
        };
        let lengths_start = pos;
        pos += 4;
        let pat_end = match pos.checked_add(pat_bytes) {
            Some(x) => x,
            None => {
                return Err(invalid_table("pattern lengths end offset overflow"));
            },
        };
        if data.len() < pat_end {
            return Err(invalid_table("truncated pattern lengths"));
        }
        let mut pattern_lengths: Vec<u32> = Vec::with_capacity(pat_count);
        let mut j: usize = 0;
        while j < pat_count
            invariant
                j <= pat_count,
                pat_count * 4 == pat_bytes,
                pat_end == lengths_start + 4 + pat_bytes,
                pat_end <= data@.len(),
                pos == lengths_start + 4 + 4 * j,
                pattern_lengths@ =~= Seq::new(j as nat, |x: int| word_at(data@, lengths_start + 4 + 4 * x)),
            decreases pat_count - j,
        {
            proof {
                assert(4 * j + 4 <= pat_count * 4) by (nonlinear_arith)
                    requires j < pat_count;
            }
            let l = read_word(data, pos);
            pattern_lengths.push(l);
            pos += 4;
            j += 1;
        }
        Self::from_parts(state_count, class_count, transitions, accept_states, pattern_lengths)
    }
}

/// A word inside a prefix reads the same as in the whole.
proof fn lemma_word_at_take(d: Seq<u8>, k: int, off: int)
    requires
        0 <= off,
        off + 4 <= k <= d.len(),
    ensures
        word_at(d.take(k), off) == word_at(d, off),
{
    assert(d.take(k).subrange(off, off + 4) =~= d.subrange(off, off + 4));
}

/// Law: [`TransitionTable::from_bytes`] refuses every proper prefix of the
/// bytes that [`TransitionTable::to_bytes`] writes for a table it would read
/// back.
pub proof fn lemma_truncated_bytes_refused(t: TableView, k: int)
    requires
        super::table_valid(t),
        t.class_count <= u32::MAX,
        t.accept_states.len() <= u32::MAX,
        t.pattern_lengths.len() <= u32::MAX,
        table_bytes(t).len() <= usize::MAX,
        0 <= k < table_bytes(t).len(),
    ensures
        from_bytes_result(table_bytes(t).take(k)) is Err,
{
    lemma_bytes_round_trip(t);
    let d = table_bytes(t);
    let e = d.take(k);
    lemma_le32_len(t.state_count as u32);
    lemma_le32_len(t.class_count as u32);
    lemma_le32_len(t.accept_states.len() as u32);
    lemma_le32_len(t.pattern_lengths.len() as u32);
    lemma_words_le(t.transitions);
    lemma_pairs_le(t.accept_states);
    lemma_words_le(t.pattern_lengths);
    assert(decode_parts(d) is Ok);
    if k >= 8 {
        lemma_word_at_take(d, k, 0);
        lemma_word_at_take(d, k, 4);
        let n = word_at(d, 0) as nat;
        let c = word_at(d, 4) as nat;
        let tl = n * c;
        let te = 8 + tl * 4;
        if k >= te + 4 {
            lemma_word_at_take(d, k, te as int);
            let ac = word_at(d, te as int) as nat;
            let p = te + 4 + ac * 8;
            if k >= p + 4 {
                lemma_word_at_take(d, k, p as int);
            }
        }
    }
}

} // verus!
