//! The x86_64 code image of the scan loop.
//!
//! The generated function has the System V signature
//! `fn(input: *const u8, len: u64, matches: *mut Match, max_matches: u64) -> u64`
//! and returns the number of matches found. Register use: r12 input pointer,
//! r13 position, r14 match buffer, r15 match count, rbx max matches, rbp input
//! length, r11 current state, r8 output chain state; rax, rcx, rdx, rdi scratch.
//! The four data addresses are left as zero in the image and are filled in
//! once the image has been mapped.

use vstd::prelude::*;
use vstd::bytes::{u32_to_le_bytes, u64_to_le_bytes, spec_u64_to_le_bytes};
use crate::table::serial::{le32, lemma_le32_len, words_le};

verus! {

/// Site of the `jae` displacement that skips the loop on empty input.
pub const EMPTY_PATCH: usize = 36;
/// First byte of the scan loop.
pub const SCAN_TOP: usize = 40;
/// Site of the `mov rdi, imm64` that loads the transition table's address.
pub const TRANS_PATCH: usize = 54;
/// Site of the `jz` displacement that skips match reporting.
pub const SKIP_MATCH_PATCH: usize = 85;
/// First byte of the output chain loop.
pub const ACCEPT_LOOP: usize = 92;
/// Site of the `jae` displacement that skips writing a match that does not fit.
pub const SKIP_WRITE_PATCH: usize = 97;
/// Site of the `mov rdi, imm64` that loads the accept table's address.
pub const ACCEPT_PATCH: usize = 101;
/// Site of the `mov rdx, imm64` that loads the pattern length table's address.
pub const PATLEN_PATCH: usize = 129;
/// Target of the skip-write jump.
pub const SKIP_WRITE_TARGET: usize = 160;
/// Site of the `mov rdi, imm64` that loads the output link table's address.
pub const OUTPUT_PATCH: usize = 163;
/// Site of the `jne` displacement back to the output chain loop.
pub const ACCEPT_LOOP_PATCH: usize = 186;
/// Target of the skip-match jump.
pub const SKIP_MATCH_TARGET: usize = 193;
/// Site of the `jb` displacement back to the scan loop.
pub const LOOP_PATCH: usize = 207;
/// First byte of the epilogue.
pub const EPILOGUE: usize = 211;
/// Length of the code, and offset of the first data table after padding.
pub const CODE_LEN: usize = 225;
/// Offset of the flagged transition table (the code padded to 8 bytes).
pub const DATA_START: usize = 232;

/// Little-endian bytes of the 32-bit displacement from the end of the
/// 4-byte field at `site` to `target`.
pub open spec fn rel32(site: int, target: int) -> Seq<u8> {
    le32((target - (site + 4)) as i32 as u32)
}

pub proof fn lemma_rel32_len(site: int, target: int)
    ensures
        rel32(site, target).len() == 4,
{
    lemma_le32_len((target - (site + 4)) as i32 as u32);
}

/// Eight zero bytes: an address field not yet filled in.
pub open spec fn zero_addr() -> Seq<u8> {
    seq![0u8, 0, 0, 0, 0, 0, 0, 0]
}

/// Prologue: save rbx, rbp and r12-r15; move the arguments to r12 (input),
/// rbp (length), r14 (matches) and rbx (max matches); zero r13 (position),
/// r15 (count) and r11 (state); `cmp r13, rbp; jae` to the epilogue.
pub open spec fn seg_prologue() -> Seq<u8> {
    seq![0x53u8, 0x55, 0x41, 0x54, 0x41, 0x55, 0x41, 0x56, 0x41, 0x57,
        0x49, 0x89, 0xFC, 0x48, 0x89, 0xF5, 0x49, 0x89, 0xD6, 0x48, 0x89, 0xCB,
        0x45, 0x31, 0xED, 0x45, 0x31, 0xFF, 0x45, 0x31, 0xDB,
        0x49, 0x39, 0xED, 0x0F, 0x83]
}

/// Loop top: `movzx eax, byte [r12 + r13]; imul edx, r11d, class_count;
/// add edx, eax; mov rdi, <transitions>; mov eax, [rdi + rdx*4]; mov ecx, eax;
/// and eax, 0x7FFFFFFF; mov r11d, eax; test ecx, 0x80000000; jz` past the match.
pub open spec fn seg_step(class_count: u32) -> Seq<u8> {
    seq![0x43u8, 0x0F, 0xB6, 0x04, 0x2C, 0x41, 0x69, 0xD3]
    + le32(class_count)
    + seq![0x01u8, 0xC2, 0x48, 0xBF] + zero_addr()
    + seq![0x8Bu8, 0x04, 0x97, 0x89, 0xC1, 0x25] + le32(0x7FFF_FFFF)
    + seq![0x41u8, 0x89, 0xC3, 0xF7, 0xC1] + le32(0x8000_0000) + seq![0x0Fu8, 0x84]
}

/// `mov r8d, r11d`; chain loop: `cmp r15, rbx; jae` past the write.
pub open spec fn seg_chain_head() -> Seq<u8> {
    seq![0x45u8, 0x89, 0xD8, 0x49, 0x39, 0xDF, 0x0F, 0x83]
}

/// Write the match: `mov rdi, <accept>; mov eax, [rdi + r8*4]`; its address
/// `r14 + r15*16`; store the pattern id; `mov rdx, <lengths>;
/// mov ecx, [rdx + rcx*4]`; end = r13d + 1 and start = end - length (0 on
/// borrow), stored; then `inc r15; mov rdi, <links>; mov r8d, [rdi + r8*4];
/// cmp r8d, -1; jne` back to the chain loop.
pub open spec fn seg_write() -> Seq<u8> {
    seq![0x48u8, 0xBF] + zero_addr()
    + seq![0x42u8, 0x8B, 0x04, 0x87, 0x4C, 0x89, 0xFF, 0x48, 0x6B, 0xFF, 0x10, 0x4C, 0x01, 0xF7,
        0x89, 0x07, 0x89, 0xC1, 0x48, 0xBA]
    + zero_addr()
    + seq![0x8Bu8, 0x0C, 0x8A, 0x44, 0x89, 0xEA, 0x83, 0xC2, 0x01, 0x89, 0x57, 0x08,
        0x29, 0xCA, 0x73, 0x02, 0x31, 0xD2, 0x89, 0x57, 0x04, 0x49, 0xFF, 0xC7, 0x48, 0xBF]
    + zero_addr()
    + seq![0x46u8, 0x8B, 0x04, 0x87, 0x41, 0x81, 0xF8] + le32(0xFFFF_FFFF) + seq![0x0Fu8, 0x85]
}

/// `xor r11d, r11d` (restart); `inc r13`; prefetch the next input line;
/// `cmp r13, rbp; jb` back to the loop top.
pub open spec fn seg_advance() -> Seq<u8> {
    seq![0x45u8, 0x31, 0xDB, 0x49, 0xFF, 0xC5, 0x43, 0x0F, 0x18, 0x44, 0x2C, 0x40,
        0x49, 0x39, 0xED, 0x0F, 0x82]
}

/// Epilogue: `mov rax, r15`, restore the registers, `ret`.
pub open spec fn seg_epilogue() -> Seq<u8> {
    seq![0x4Cu8, 0x89, 0xF8, 0x41, 0x5F, 0x41, 0x5E, 0x41, 0x5D, 0x41, 0x5C, 0x5D, 0x5B, 0xC3]
}

/// The code, with the given bytes in the five jump displacement fields.
pub open spec fn code_with(
    class_count: u32,
    empty: Seq<u8>,
    skip_match: Seq<u8>,
    skip_write: Seq<u8>,
    accept_loop: Seq<u8>,
    loop_back: Seq<u8>,
) -> Seq<u8> {
    seg_prologue() + empty + seg_step(class_count) + skip_match + seg_chain_head() + skip_write
        + seg_write() + accept_loop + seg_advance() + loop_back + seg_epilogue()
}

/// Four zero bytes: a displacement not yet patched.
pub open spec fn zero_rel() -> Seq<u8> {
    seq![0u8, 0, 0, 0]
}

/// The scan loop's code for `class_count` input classes, with its jumps resolved.
pub open spec fn scan_code(class_count: u32) -> Seq<u8> {
    code_with(
        class_count,
        rel32(EMPTY_PATCH as int, EPILOGUE as int),
        rel32(SKIP_MATCH_PATCH as int, SKIP_MATCH_TARGET as int),
        rel32(SKIP_WRITE_PATCH as int, SKIP_WRITE_TARGET as int),
        rel32(ACCEPT_LOOP_PATCH as int, ACCEPT_LOOP as int),
        rel32(LOOP_PATCH as int, SCAN_TOP as int),
    )
}

/// The code padded with `int3` bytes to a multiple of eight.
pub open spec fn padded_code(class_count: u32) -> Seq<u8> {
    scan_code(class_count) + seq![0xCCu8, 0xCC, 0xCC, 0xCC, 0xCC, 0xCC, 0xCC]
}

/// The padded code is 232 bytes long.
pub proof fn lemma_padded_code_len(class_count: u32)
    ensures
        padded_code(class_count).len() == DATA_START,
{
    lemma_le32_len(class_count);
    lemma_le32_len(0xFFFF_FFFF);
    lemma_le32_len(0x7FFF_FFFF);
    lemma_le32_len(0x8000_0000);
    lemma_rel32_len(SKIP_WRITE_PATCH as int, SKIP_WRITE_TARGET as int);
    lemma_rel32_len(ACCEPT_LOOP_PATCH as int, ACCEPT_LOOP as int);
    lemma_rel32_len(SKIP_MATCH_PATCH as int, SKIP_MATCH_TARGET as int);
    lemma_rel32_len(LOOP_PATCH as int, SCAN_TOP as int);
    lemma_rel32_len(EMPTY_PATCH as int, EPILOGUE as int);
}

/// The whole image: the padded code, then the flagged transitions, the
/// pattern of each state, the pattern lengths and the output links.
pub open spec fn jit_image(class_count: u32, flagged: Seq<u32>, accept: Seq<u32>, lengths: Seq<u32>, links: Seq<u32>) -> Seq<u8> {
    padded_code(class_count) + words_le(flagged) + words_le(accept) + words_le(lengths) + words_le(links)
}

/// Write the 32-bit displacement from the end of the field at `site` to
/// `target` into that field (0 if it does not fit in an `i32`).
pub fn patch_rel32(code: &mut Vec<u8>, site: usize, target: usize)
    requires
        site + 4 <= old(code)@.len(),
        target <= i32::MAX,
        site + 4 <= i32::MAX,
    ensures
        final(code)@ == old(code)@.take(site as int) + rel32(site as int, target as int) + old(code)@.skip(site + 4),
{
    let rel: i64 = target as i64 - (site + 4) as i64;
    let rel32_value: i32 = rel as i32;
    let bytes = u32_to_le_bytes(rel32_value as u32);
    let ghost old_code = code@;
    code.set(site, bytes[0]);
    code.set(site + 1, bytes[1]);
    code.set(site + 2, bytes[2]);
    code.set(site + 3, bytes[3]);
    proof {
        assert(bytes@ == rel32(site as int, target as int));
        assert(code@ =~= old_code.take(site as int) + rel32(site as int, target as int) + old_code.skip(site + 4));
    }
}

/// Write `value` as eight little-endian bytes at `offset`: the absolute
/// address of a data table, once the image is mapped.
pub fn patch_imm64(code: &mut Vec<u8>, offset: usize, value: u64)
    requires
        offset + 8 <= old(code)@.len(),
    ensures
        final(code)@ == old(code)@.take(offset as int) + spec_u64_to_le_bytes(value) + old(code)@.skip(offset + 8),
{
    let bytes = u64_to_le_bytes(value);
    let len = code.len();
    let ghost old_code = code@;
    let mut i: usize = 0;
    while i < 8
        invariant
            i <= 8,
            bytes@.len() == 8,
            len == old_code.len(),
            offset + 8 <= old_code.len(),
            code@.len() == old_code.len(),
            forall|j: int| 0 <= j < code@.len() ==> #[trigger] code@[j] == if offset <= j < offset + i {
                bytes@[j - offset]
            } else {
                old_code[j]
            },
        decreases 8 - i,
    {
        code.set(offset + i, bytes[i]);
        i += 1;
    }
    proof {
        assert(bytes@ == spec_u64_to_le_bytes(value));
        assert(code@ =~= old_code.take(offset as int) + spec_u64_to_le_bytes(value) + old_code.skip(offset + 8));
    }
}

fn emit_prologue(c: &mut Vec<u8>)
    ensures
        final(c)@ == old(c)@ + seg_prologue(),
{
    c.extend_from_slice(&[0x53]); // push rbx
    c.extend_from_slice(&[0x55]); // push rbp
    c.extend_from_slice(&[0x41, 0x54]); // push r12
    c.extend_from_slice(&[0x41, 0x55]); // push r13
    c.extend_from_slice(&[0x41, 0x56]); // push r14
    c.extend_from_slice(&[0x41, 0x57]); // push r15
    c.extend_from_slice(&[0x49, 0x89, 0xFC]); // mov r12, rdi (input)
    c.extend_from_slice(&[0x48, 0x89, 0xF5]); // mov rbp, rsi (length)
    c.extend_from_slice(&[0x49, 0x89, 0xD6]); // mov r14, rdx (matches)
    c.extend_from_slice(&[0x48, 0x89, 0xCB]); // mov rbx, rcx (max matches)
    c.extend_from_slice(&[0x45, 0x31, 0xED]); // xor r13d, r13d (position)
    c.extend_from_slice(&[0x45, 0x31, 0xFF]); // xor r15d, r15d (count)
    c.extend_from_slice(&[0x45, 0x31, 0xDB]); // xor r11d, r11d (state)
    c.extend_from_slice(&[0x49, 0x39, 0xED]); // cmp r13, rbp
    c.extend_from_slice(&[0x0F, 0x83]); // jae epilogue
    proof {
        assert(c@ =~= old(c)@ + seg_prologue());
    }
}

fn emit_step(c: &mut Vec<u8>, class_count: u32)
    ensures
        final(c)@ == old(c)@ + seg_step(class_count),
{
    c.extend_from_slice(&[0x43, 0x0F, 0xB6, 0x04, 0x2C]); // movzx eax, byte [r12 + r13]
    c.extend_from_slice(&[0x41, 0x69, 0xD3]); // imul edx, r11d, class_count
    let cc = u32_to_le_bytes(class_count);
    c.extend_from_slice(cc.as_slice());
    c.extend_from_slice(&[0x01, 0xC2]); // add edx, eax
    c.extend_from_slice(&[0x48, 0xBF]); // mov rdi, transition table
    c.extend_from_slice(&[0, 0, 0, 0, 0, 0, 0, 0]);
    c.extend_from_slice(&[0x8B, 0x04, 0x97]); // mov eax, [rdi + rdx*4]
    c.extend_from_slice(&[0x89, 0xC1]); // mov ecx, eax
    c.extend_from_slice(&[0x25]); // and eax, 0x7FFFFFFF (the state)
    let mask = u32_to_le_bytes(0x7FFF_FFFF);
    c.extend_from_slice(mask.as_slice());
    c.extend_from_slice(&[0x41, 0x89, 0xC3]); // mov r11d, eax
    c.extend_from_slice(&[0xF7, 0xC1]); // test ecx, 0x80000000 (the accept flag)
    let flag = u32_to_le_bytes(0x8000_0000);
    c.extend_from_slice(flag.as_slice());
    c.extend_from_slice(&[0x0F, 0x84]); // jz skip_match
    proof {
        lemma_le32_len(class_count);
        lemma_le32_len(0x7FFF_FFFF);
        lemma_le32_len(0x8000_0000);
        assert(c@ =~= old(c)@ + seg_step(class_count));
    }
}

fn emit_chain_head(c: &mut Vec<u8>)
    ensures
        final(c)@ == old(c)@ + seg_chain_head(),
{
    c.extend_from_slice(&[0x45, 0x89, 0xD8]); // mov r8d, r11d
    c.extend_from_slice(&[0x49, 0x39, 0xDF]); // accept_loop: cmp r15, rbx
    c.extend_from_slice(&[0x0F, 0x83]); // jae skip_write
    proof {
        assert(c@ =~= old(c)@ + seg_chain_head());
    }
}

fn emit_write(c: &mut Vec<u8>)
    ensures
        final(c)@ == old(c)@ + seg_write(),
{
    c.extend_from_slice(&[0x48, 0xBF]); // mov rdi, accept table
    c.extend_from_slice(&[0, 0, 0, 0, 0, 0, 0, 0]);
    c.extend_from_slice(&[0x42, 0x8B, 0x04, 0x87]); // mov eax, [rdi + r8*4]
    c.extend_from_slice(&[0x4C, 0x89, 0xFF]); // mov rdi, r15
    c.extend_from_slice(&[0x48, 0x6B, 0xFF, 0x10]); // imul rdi, rdi, 16
    c.extend_from_slice(&[0x4C, 0x01, 0xF7]); // add rdi, r14
    c.extend_from_slice(&[0x89, 0x07]); // mov [rdi], eax (pattern id)
    c.extend_from_slice(&[0x89, 0xC1]); // mov ecx, eax
    c.extend_from_slice(&[0x48, 0xBA]); // mov rdx, pattern length table
    c.extend_from_slice(&[0, 0, 0, 0, 0, 0, 0, 0]);
    c.extend_from_slice(&[0x8B, 0x0C, 0x8A]); // mov ecx, [rdx + rcx*4]
    c.extend_from_slice(&[0x44, 0x89, 0xEA]); // mov edx, r13d
    c.extend_from_slice(&[0x83, 0xC2, 0x01]); // add edx, 1
    c.extend_from_slice(&[0x89, 0x57, 0x08]); // mov [rdi+8], edx (end)
    c.extend_from_slice(&[0x29, 0xCA]); // sub edx, ecx
    c.extend_from_slice(&[0x73, 0x02]); // jnc +2
    c.extend_from_slice(&[0x31, 0xD2]); // xor edx, edx
    c.extend_from_slice(&[0x89, 0x57, 0x04]); // mov [rdi+4], edx (start)
    c.extend_from_slice(&[0x49, 0xFF, 0xC7]); // skip_write: inc r15
    c.extend_from_slice(&[0x48, 0xBF]); // mov rdi, output link table
    c.extend_from_slice(&[0, 0, 0, 0, 0, 0, 0, 0]);
    c.extend_from_slice(&[0x46, 0x8B, 0x04, 0x87]); // mov r8d, [rdi + r8*4]
    c.extend_from_slice(&[0x41, 0x81, 0xF8]); // cmp r8d, 0xFFFFFFFF (end of chain)
    let none = u32_to_le_bytes(0xFFFF_FFFF);
    c.extend_from_slice(none.as_slice());
    c.extend_from_slice(&[0x0F, 0x85]); // jne accept_loop
    proof {
        lemma_le32_len(0xFFFF_FFFF);
        assert(c@ =~= old(c)@ + seg_write());
    }
}

fn emit_advance(c: &mut Vec<u8>)
    ensures
        final(c)@ == old(c)@ + seg_advance(),
{
    c.extend_from_slice(&[0x45, 0x31, 0xDB]); // xor r11d, r11d (restart)
    c.extend_from_slice(&[0x49, 0xFF, 0xC5]); // skip_match: inc r13
    c.extend_from_slice(&[0x43, 0x0F, 0x18, 0x44, 0x2C, 0x40]); // prefetch the next input line
    c.extend_from_slice(&[0x49, 0x39, 0xED]); // cmp r13, rbp
    c.extend_from_slice(&[0x0F, 0x82]); // jb scan loop top
    proof {
        assert(c@ =~= old(c)@ + seg_advance());
    }
}

fn emit_epilogue(c: &mut Vec<u8>)
    ensures
        final(c)@ == old(c)@ + seg_epilogue(),
{
    c.extend_from_slice(&[0x4C, 0x89, 0xF8]); // mov rax, r15
    c.extend_from_slice(&[0x41, 0x5F]); // pop r15
    c.extend_from_slice(&[0x41, 0x5E]); // pop r14
    c.extend_from_slice(&[0x41, 0x5D]); // pop r13
    c.extend_from_slice(&[0x41, 0x5C]); // pop r12
    c.extend_from_slice(&[0x5D, 0x5B, 0xC3]); // pop rbp; pop rbx; ret
    proof {
        assert(c@ =~= old(c)@ + seg_epilogue());
    }
}

fn emit_rel32_placeholder(c: &mut Vec<u8>)
    ensures
        final(c)@ == old(c)@ + zero_rel(),
{
    c.extend_from_slice(&[0, 0, 0, 0]);
    proof {
        assert(c@ =~= old(c)@ + zero_rel());
    }
}

/// Append the scan loop's code for `class_count` classes, with its jumps
/// resolved and its data addresses zero.
pub fn emit_scan_code(c: &mut Vec<u8>, class_count: u32)
    requires
        old(c)@.len() == 0,
    ensures
        final(c)@ == scan_code(class_count),
{
    emit_prologue(c);
    emit_rel32_placeholder(c);
    emit_step(c, class_count);
    emit_rel32_placeholder(c);
    emit_chain_head(c);
    emit_rel32_placeholder(c);
    emit_write(c);
    emit_rel32_placeholder(c);
    emit_advance(c);
    emit_rel32_placeholder(c);
    emit_epilogue(c);
    proof {
        assert(c@ =~= code_with(class_count, zero_rel(), zero_rel(), zero_rel(), zero_rel(), zero_rel()));
        lemma_le32_len(class_count);
        lemma_le32_len(0xFFFF_FFFF);
        lemma_le32_len(0x7FFF_FFFF);
        lemma_le32_len(0x8000_0000);
        lemma_rel32_len(SKIP_WRITE_PATCH as int, SKIP_WRITE_TARGET as int);
        lemma_rel32_len(ACCEPT_LOOP_PATCH as int, ACCEPT_LOOP as int);
        lemma_rel32_len(SKIP_MATCH_PATCH as int, SKIP_MATCH_TARGET as int);
        lemma_rel32_len(LOOP_PATCH as int, SCAN_TOP as int);
        lemma_rel32_len(EMPTY_PATCH as int, EPILOGUE as int);
    }
    patch_rel32(c, SKIP_WRITE_PATCH, SKIP_WRITE_TARGET);
    proof {
        assert(c@ =~= code_with(class_count, zero_rel(), zero_rel(),
            rel32(SKIP_WRITE_PATCH as int, SKIP_WRITE_TARGET as int), zero_rel(), zero_rel()));
    }
    patch_rel32(c, ACCEPT_LOOP_PATCH, ACCEPT_LOOP);
    proof {
        assert(c@ =~= code_with(class_count, zero_rel(), zero_rel(),
            rel32(SKIP_WRITE_PATCH as int, SKIP_WRITE_TARGET as int),
            rel32(ACCEPT_LOOP_PATCH as int, ACCEPT_LOOP as int), zero_rel()));
    }
    patch_rel32(c, SKIP_MATCH_PATCH, SKIP_MATCH_TARGET);
    proof {
        assert(c@ =~= code_with(class_count, zero_rel(),
            rel32(SKIP_MATCH_PATCH as int, SKIP_MATCH_TARGET as int),
            rel32(SKIP_WRITE_PATCH as int, SKIP_WRITE_TARGET as int),
            rel32(ACCEPT_LOOP_PATCH as int, ACCEPT_LOOP as int), zero_rel()));
    }
    patch_rel32(c, LOOP_PATCH, SCAN_TOP);
    proof {
        assert(c@ =~= code_with(class_count, zero_rel(),
            rel32(SKIP_MATCH_PATCH as int, SKIP_MATCH_TARGET as int),
            rel32(SKIP_WRITE_PATCH as int, SKIP_WRITE_TARGET as int),
            rel32(ACCEPT_LOOP_PATCH as int, ACCEPT_LOOP as int),
            rel32(LOOP_PATCH as int, SCAN_TOP as int)));
    }
    patch_rel32(c, EMPTY_PATCH, EPILOGUE);
    proof {
        assert(c@ =~= scan_code(class_count));
    }
}

} // verus!
