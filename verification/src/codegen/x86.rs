//! A model of the x86_64 instructions that the scan loop is made of, and
//! what the loop computes when run.
//!
//! The model decodes an instruction from the code bytes (an optional REX
//! prefix, the opcode, ModRM, SIB, displacement and immediate) and says what
//! it does to sixteen 64-bit registers, the zero and carry flags, the
//! instruction pointer and memory. Memory is seen as 32-bit words by address
//! (the loop reads its tables and writes its match records only in words)
//! and as bytes (it reads only the input in bytes); the two views are kept
//! apart, so the laws below hold where the input does not overlap the tables
//! and the buffer. An instruction the model does not cover stops the machine
//! (`pc` becomes -1); the prologue and the epilogue's pushes and pops are
//! left out, so the laws run from the loop's top to the epilogue.
//!
//! On this model, the code that compiling builds (`mapped_code`, once its
//! four table addresses are filled in) reports what `run` reports:
//! `lemma_native_write` for one record, `lemma_native_chain` for an output
//! chain, `lemma_native_byte` for one input byte, and `lemma_native_scan` for
//! a whole input, whose records are those of `scan_matches`.

use vstd::prelude::*;
use vstd::bytes::{spec_u32_from_le_bytes, spec_u64_from_le_bytes, spec_u64_to_le_bytes};
use super::image::{scan_code, seg_chain_head, seg_step, seg_advance, seg_epilogue, jit_image, CODE_LEN, lemma_rel32_len, rel32, EMPTY_PATCH, EPILOGUE, SKIP_MATCH_PATCH, SKIP_MATCH_TARGET,
    SKIP_WRITE_PATCH, SKIP_WRITE_TARGET, ACCEPT_LOOP_PATCH, ACCEPT_LOOP, LOOP_PATCH, SCAN_TOP, TRANS_PATCH, ACCEPT_PATCH,
    PATLEN_PATCH, OUTPUT_PATCH};
use crate::table::{clean, ACCEPT_FLAG};
use crate::table::serial::{le32, lemma_le32_len, words_le};
use crate::machine::{Program, program_wf, match_at, link_of, accept_of, next_state, next_raw, run, scan_matches, saturating_sub, chain, chain_matches,
    lemma_chain_len, lemma_run_len, NO_PATTERN};
use super::{flags_match, lemma_chain_unfold, lemma_run_step};

verus! {

/// 2^32.
pub open spec fn w32() -> int {
    0x1_0000_0000
}

/// 2^64.
pub open spec fn w64() -> int {
    0x1_0000_0000_0000_0000
}

/// The machine: sixteen 64-bit registers, the zero and carry flags, the
/// address of the next instruction (-1 once it meets one this model does
/// not cover), 32-bit words of memory and bytes of memory.
pub struct Cpu {
    pub regs: Seq<int>,
    pub zf: bool,
    pub cf: bool,
    pub pc: int,
    pub mem32: Map<int, int>,
    pub mem8: Map<int, int>,
}

/// Byte `i` of the code, as a number.
pub open spec fn byte_at(code: Seq<u8>, i: int) -> int {
    code[i] as int
}

/// The four little-endian bytes from `i`, as an unsigned number.
pub open spec fn imm32(code: Seq<u8>, i: int) -> int {
    spec_u32_from_le_bytes(code.subrange(i, i + 4)) as int
}

/// The eight little-endian bytes from `i`, as an unsigned number.
pub open spec fn imm64(code: Seq<u8>, i: int) -> int {
    spec_u64_from_le_bytes(code.subrange(i, i + 8)) as int
}

/// A byte read as a signed displacement.
pub open spec fn signed8(x: int) -> int {
    if x >= 0x80 { x - 0x100 } else { x }
}

/// Four bytes read as a signed displacement.
pub open spec fn signed32(x: int) -> int {
    if x >= 0x8000_0000 { x - w32() } else { x }
}

/// Register `r`.
pub open spec fn reg(c: Cpu, r: int) -> int {
    c.regs[r]
}

/// `c` with register `r` set to `v` (wrapped to 64 bits).
pub open spec fn with_reg(c: Cpu, r: int, v: int) -> Cpu {
    Cpu { regs: c.regs.update(r, v % w64()), ..c }
}

/// An operand named by a ModRM byte: a register, or a memory address.
pub struct Operand {
    pub is_reg: bool,
    pub reg: int,
    pub addr: int,
    /// Bytes of ModRM, SIB and displacement.
    pub len: int,
}

/// The `reg` field of the ModRM byte at `i`, extended by REX.R.
pub open spec fn modrm_reg(code: Seq<u8>, i: int, rex: int) -> int {
    (byte_at(code, i) / 8) % 8 + 8 * ((rex / 4) % 2)
}

/// `x` times the scale that the two top bits `s` of a SIB byte give.
pub open spec fn scaled(x: int, s: int) -> int {
    if s == 0 { x } else if s == 1 { 2 * x } else if s == 2 { 4 * x } else { 8 * x }
}

/// `x` cut to 64 bits, or to 32.
pub open spec fn wrap(x: int, wide: bool) -> int {
    if wide { x % w64() } else { x % w32() }
}

/// The operand that the ModRM byte at `i` names (register forms, base
/// register, base plus displacement, base plus scaled index with or without
/// displacement), under the REX bits `rex`.
pub open spec fn modrm_operand(code: Seq<u8>, i: int, rex: int, c: Cpu) -> Operand {
    let m: int = byte_at(code, i);
    let md: int = m / 64;
    let rm: int = m % 8;
    let rb: int = 8 * (rex % 2);
    let rx: int = 8 * ((rex / 2) % 2);
    if md == 3 {
        Operand { is_reg: true, reg: rm + rb, addr: 0, len: 1 }
    } else if rm == 4 {
        let sib: int = byte_at(code, i + 1);
        let index: int = (sib / 8) % 8 + rx;
        let base: int = sib % 8 + rb;
        let idx: int = if index == 4 { 0 } else { scaled(reg(c, index), sib / 64) };
        if md == 0 {
            Operand { is_reg: false, reg: 0, addr: (reg(c, base) + idx) % w64(), len: 2 }
        } else if md == 1 {
            Operand { is_reg: false, reg: 0, addr: (reg(c, base) + idx + signed8(byte_at(code, i + 2))) % w64(), len: 3 }
        } else {
            Operand { is_reg: false, reg: 0, addr: (reg(c, base) + idx + signed32(imm32(code, i + 2))) % w64(), len: 6 }
        }
    } else if md == 0 {
        Operand { is_reg: false, reg: 0, addr: reg(c, rm + rb), len: 1 }
    } else if md == 1 {
        Operand { is_reg: false, reg: 0, addr: (reg(c, rm + rb) + signed8(byte_at(code, i + 1))) % w64(), len: 2 }
    } else {
        Operand { is_reg: false, reg: 0, addr: (reg(c, rm + rb) + signed32(imm32(code, i + 1))) % w64(), len: 5 }
    }
}

/// The value of an operand of `size` bits (32 or 64): a register, cut to
/// the size, or a 32-bit word of memory.
pub open spec fn read_op(c: Cpu, o: Operand, wide: bool) -> int {
    if o.is_reg {
        if wide { reg(c, o.reg) } else { reg(c, o.reg) % w32() }
    } else {
        c.mem32[o.addr]
    }
}

/// `c` with an operand set: a register (a 32-bit write clears the upper
/// half), or a 32-bit word of memory.
pub open spec fn write_op(c: Cpu, o: Operand, wide: bool, v: int) -> Cpu {
    if o.is_reg {
        with_reg(c, o.reg, if wide { v % w64() } else { v % w32() })
    } else {
        Cpu { mem32: c.mem32.insert(o.addr, v % w32()), ..c }
    }
}

/// The machine that stopped: an instruction this model does not cover.
pub open spec fn stuck(c: Cpu) -> Cpu {
    Cpu { pc: -1, ..c }
}

/// Whether condition `cc` (the low nibble of a `jcc`) holds.
pub open spec fn cond(c: Cpu, cc: int) -> Option<bool> {
    if cc == 2 {
        Some(c.cf)
    } else if cc == 3 {
        Some(!c.cf)
    } else if cc == 4 {
        Some(c.zf)
    } else if cc == 5 {
        Some(!c.zf)
    } else {
        None
    }
}

/// The flags and result of an arithmetic operation `kind` (0 add, 5 sub,
/// 7 cmp, 6 xor, 4 and) on values of `bits` bits: the result, the zero flag
/// and the carry flag (borrow for sub and cmp, clear for the logical ones).
pub open spec fn alu(kind: int, a: int, b: int, wide: bool) -> (int, bool, bool) {
    let w: int = if wide { w64() } else { w32() };
    if kind == 0 {
        (wrap(a + b, wide), wrap(a + b, wide) == 0, a + b >= w)
    } else if kind == 5 || kind == 7 {
        (wrap(a - b + w, wide), a == b, a < b)
    } else if kind == 6 {
        let r: int = xor_bits(a, b, wide);
        (r, r == 0, false)
    } else {
        let r: int = and_bits(a, b, wide);
        (r, r == 0, false)
    }
}

/// The low 32 or 64 bits of `a * b`, as an unsigned number.
#[verifier::opaque]
pub open spec fn product(a: int, b: int, wide: bool) -> int {
    let w: int = if wide { w64() } else { w32() };
    ((a * b) % w + w) % w
}

/// Bitwise and of two values of 32 or 64 bits.
pub open spec fn and_bits(a: int, b: int, wide: bool) -> int {
    if wide { ((a as u64) & (b as u64)) as int } else { ((a as u32) & (b as u32)) as int }
}

/// Bitwise exclusive or of two values of 32 or 64 bits.
pub open spec fn xor_bits(a: int, b: int, wide: bool) -> int {
    if wide { ((a as u64) ^ (b as u64)) as int } else { ((a as u32) ^ (b as u32)) as int }
}

/// Apply an arithmetic operation to operand `dst` with source value `src`,
/// writing the result back unless it is a compare; then move on by `len`.
pub open spec fn arith(c: Cpu, kind: int, dst: Operand, wide: bool, src: int, len: int) -> Cpu {
    let (r, zf, cf) = alu(kind, read_op(c, dst, wide), src, wide);
    let c2 = if kind == 7 { c } else { write_op(c, dst, wide, r) };
    Cpu { zf: zf, cf: cf, pc: c.pc + len, ..c2 }
}

/// One instruction at `c.pc`: an optional REX prefix, then the opcode.
#[verifier::opaque]
pub open spec fn step(code: Seq<u8>, c: Cpu) -> Cpu {
    let pc: int = c.pc;
    if pc < 0 || pc >= code.len() {
        stuck(c)
    } else {
        let b0: int = byte_at(code, pc);
        let rex: int = if 0x40 <= b0 < 0x50 { b0 - 0x40 } else { 0 };
        let i: int = if 0x40 <= b0 < 0x50 { pc + 1 } else { pc };
        let wide = (rex / 8) % 2 == 1;
        let op: int = byte_at(code, i);
        if op == 0x89 || op == 0x8B || op == 0x01 || op == 0x29 || op == 0x31 || op == 0x39 {
            // mov r/m, r; mov r, r/m; add, sub, xor, cmp r/m, r
            let o = modrm_operand(code, i + 1, rex, c);
            let r = Operand { is_reg: true, reg: modrm_reg(code, i + 1, rex), addr: 0, len: 0 };
            let len: int = i + 1 + o.len - pc;
            if op == 0x89 {
                Cpu { pc: pc + len, ..write_op(c, o, wide, read_op(c, r, wide)) }
            } else if op == 0x8B {
                Cpu { pc: pc + len, ..write_op(c, r, wide, read_op(c, o, wide)) }
            } else {
                let kind: int = if op == 0x01 { 0 } else if op == 0x29 { 5 } else if op == 0x31 { 6 } else { 7 };
                arith(c, kind, o, wide, read_op(c, r, wide), len)
            }
        } else if op == 0x83 || op == 0x81 {
            // add / sub / xor / and / cmp r/m, imm8 or imm32
            let o = modrm_operand(code, i + 1, rex, c);
            let kind: int = modrm_reg(code, i + 1, 0);
            let at: int = i + 1 + o.len;
            let imm: int = if op == 0x83 { signed8(byte_at(code, at)) } else { signed32(imm32(code, at)) };
            let w: int = if wide { w64() } else { w32() };
            let src: int = wrap(imm + w, wide);
            let len: int = at + (if op == 0x83 { 1int } else { 4int }) - pc;
            if kind == 0 || kind == 4 || kind == 5 || kind == 6 || kind == 7 {
                arith(c, kind, o, wide, src, len)
            } else {
                stuck(c)
            }
        } else if op == 0x25 {
            // and eax, imm32
            let o = Operand { is_reg: true, reg: 0, addr: 0, len: 0 };
            arith(c, 4, o, wide, imm32(code, i + 1), i + 5 - pc)
        } else if op == 0xF7 && modrm_reg(code, i + 1, 0) == 0 {
            // test r/m, imm32
            let o = modrm_operand(code, i + 1, rex, c);
            let at: int = i + 1 + o.len;
            let r: int = and_bits(read_op(c, o, wide), imm32(code, at), wide);
            Cpu { zf: r == 0, cf: false, pc: at + 4, ..c }
        } else if op == 0xFF && modrm_reg(code, i + 1, 0) == 0 {
            // inc r/m (the carry flag is kept)
            let o = modrm_operand(code, i + 1, rex, c);
            let r: int = wrap(read_op(c, o, wide) + 1, wide);
            Cpu { zf: r == 0, pc: i + 1 + o.len, ..write_op(c, o, wide, r) }
        } else if op == 0x6B || op == 0x69 {
            // imul r, r/m, imm8 or imm32 (the flags this loop never reads are kept)
            let o = modrm_operand(code, i + 1, rex, c);
            let at: int = i + 1 + o.len;
            let imm: int = if op == 0x6B { signed8(byte_at(code, at)) } else { signed32(imm32(code, at)) };
            let prod: int = product(read_op(c, o, wide), imm, wide);
            let r = Operand { is_reg: true, reg: modrm_reg(code, i + 1, rex), addr: 0, len: 0 };
            Cpu { pc: at + (if op == 0x6B { 1int } else { 4int }), ..write_op(c, r, wide, prod) }
        } else if 0xB8 <= op < 0xC0 {
            // mov r, imm32 / imm64
            let r: int = op - 0xB8 + 8 * (rex % 2);
            if wide {
                with_reg(Cpu { pc: i + 9, ..c }, r, imm64(code, i + 1))
            } else {
                with_reg(Cpu { pc: i + 5, ..c }, r, imm32(code, i + 1))
            }
        } else if 0x70 <= op < 0x80 {
            // jcc rel8
            match cond(c, op - 0x70) {
                Some(taken) => Cpu { pc: if taken { i + 2 + signed8(byte_at(code, i + 1)) } else { i + 2 }, ..c },
                None => stuck(c),
            }
        } else if op == 0x0F {
            let op2: int = byte_at(code, i + 1);
            if 0x80 <= op2 < 0x90 {
                // jcc rel32
                match cond(c, op2 - 0x80) {
                    Some(taken) => Cpu { pc: if taken { i + 6 + signed32(imm32(code, i + 2)) } else { i + 6 }, ..c },
                    None => stuck(c),
                }
            } else if op2 == 0xB6 {
                // movzx r32, byte [mem]
                let o = modrm_operand(code, i + 2, rex, c);
                if o.is_reg {
                    stuck(c)
                } else {
                    let r: int = modrm_reg(code, i + 2, rex);
                    Cpu { pc: i + 2 + o.len, ..with_reg(c, r, c.mem8[o.addr]) }
                }
            } else if op2 == 0x18 {
                // prefetch: no effect on the machine
                let o = modrm_operand(code, i + 2, rex, c);
                Cpu { pc: i + 2 + o.len, ..c }
            } else {
                stuck(c)
            }
        } else {
            stuck(c)
        }
    }
}

/// `n` instructions from `c`.
pub open spec fn steps(code: Seq<u8>, c: Cpu, n: nat) -> Cpu
    decreases n,
{
    if n == 0 { c } else { step(code, steps(code, c, (n - 1) as nat)) }
}

/// Running `a` then `b` instructions is running `a + b`.
pub proof fn lemma_steps_add(code: Seq<u8>, c: Cpu, a: nat, b: nat)
    ensures
        steps(code, steps(code, c, a), b) == steps(code, c, a + b),
    decreases b,
{
    if b > 0 {
        lemma_steps_add(code, c, a, (b - 1) as nat);
        assert((a + b - 1) as nat == a + (b - 1) as nat);
    }
}

/// `code` with the eight little-endian bytes of `v` at `off`: an address
/// field filled in.
pub open spec fn put64(code: Seq<u8>, off: int, v: u64) -> Seq<u8> {
    code.take(off) + spec_u64_to_le_bytes(v) + code.skip(off + 8)
}

/// The scan loop's code for byte-indexed tables once mapped: its four
/// address fields hold the addresses of the transition, accept, pattern
/// length and output link tables.
pub open spec fn mapped_code(ta: u64, aa: u64, la: u64, oa: u64) -> Seq<u8> {
    put64(put64(put64(put64(scan_code(256), TRANS_PATCH + 2, ta), ACCEPT_PATCH + 2, aa), PATLEN_PATCH + 2, la),
        OUTPUT_PATCH + 2, oa)
}

/// The mapped code's bytes from the write part to the jump back to the
/// output chain loop.
proof fn lemma_write_bytes(ta: u64, aa: u64, la: u64, oa: u64)
    ensures
        mapped_code(ta, aa, la, oa).len() == 225,
        mapped_code(ta, aa, la, oa).subrange(101, 190) == seq![0x48u8, 0xBF] + spec_u64_to_le_bytes(aa)
            + seq![0x42u8, 0x8B, 0x04, 0x87, 0x4C, 0x89, 0xFF, 0x48, 0x6B, 0xFF, 0x10, 0x4C, 0x01, 0xF7,
                0x89, 0x07, 0x89, 0xC1, 0x48, 0xBA]
            + spec_u64_to_le_bytes(la)
            + seq![0x8Bu8, 0x0C, 0x8A, 0x44, 0x89, 0xEA, 0x83, 0xC2, 0x01, 0x89, 0x57, 0x08,
                0x29, 0xCA, 0x73, 0x02, 0x31, 0xD2, 0x89, 0x57, 0x04, 0x49, 0xFF, 0xC7, 0x48, 0xBF]
            + spec_u64_to_le_bytes(oa)
            + seq![0x46u8, 0x8B, 0x04, 0x87, 0x41, 0x81, 0xF8] + le32(0xFFFF_FFFF) + seq![0x0Fu8, 0x85]
            + rel32(ACCEPT_LOOP_PATCH as int, ACCEPT_LOOP as int),
{
    vstd::bytes::lemma_auto_spec_u64_to_from_le_bytes();
    lemma_le32_len(256);
    lemma_le32_len(0xFFFF_FFFF);
    lemma_le32_len(0x7FFF_FFFF);
    lemma_le32_len(0x8000_0000);
    lemma_rel32_len(SKIP_WRITE_PATCH as int, SKIP_WRITE_TARGET as int);
    lemma_rel32_len(ACCEPT_LOOP_PATCH as int, ACCEPT_LOOP as int);
    lemma_rel32_len(SKIP_MATCH_PATCH as int, SKIP_MATCH_TARGET as int);
    lemma_rel32_len(LOOP_PATCH as int, SCAN_TOP as int);
    lemma_rel32_len(EMPTY_PATCH as int, EPILOGUE as int);
    let c0 = scan_code(256);
    assert(c0.len() == 225);
    let c1 = put64(c0, TRANS_PATCH + 2, ta);
    let c2 = put64(c1, ACCEPT_PATCH + 2, aa);
    let c3 = put64(c2, PATLEN_PATCH + 2, la);
    let c4 = put64(c3, OUTPUT_PATCH + 2, oa);
    assert(c4.subrange(101, 190) =~= seq![0x48u8, 0xBF] + spec_u64_to_le_bytes(aa)
            + seq![0x42u8, 0x8B, 0x04, 0x87, 0x4C, 0x89, 0xFF, 0x48, 0x6B, 0xFF, 0x10, 0x4C, 0x01, 0xF7,
                0x89, 0x07, 0x89, 0xC1, 0x48, 0xBA]
            + spec_u64_to_le_bytes(la)
            + seq![0x8Bu8, 0x0C, 0x8A, 0x44, 0x89, 0xEA, 0x83, 0xC2, 0x01, 0x89, 0x57, 0x08,
                0x29, 0xCA, 0x73, 0x02, 0x31, 0xD2, 0x89, 0x57, 0x04, 0x49, 0xFF, 0xC7, 0x48, 0xBF]
            + spec_u64_to_le_bytes(oa)
            + seq![0x46u8, 0x8B, 0x04, 0x87, 0x41, 0x81, 0xF8] + le32(0xFFFF_FFFF) + seq![0x0Fu8, 0x85]
            + rel32(ACCEPT_LOOP_PATCH as int, ACCEPT_LOOP as int));
}


/// The write part of `code` as the mapped scan loop has it: its opcode
/// bytes, the three table addresses, the end-of-chain marker and the
/// displacement of the jump back to the chain loop.
pub open spec fn write_block(code: Seq<u8>, aa: u64, la: u64, oa: u64) -> bool {
    &&& code.len() == 225
    &&& byte_at(code, 101) == 0x48
    &&& byte_at(code, 102) == 0xBF
    &&& byte_at(code, 111) == 0x42
    &&& byte_at(code, 112) == 0x8B
    &&& byte_at(code, 113) == 0x04
    &&& byte_at(code, 114) == 0x87
    &&& byte_at(code, 115) == 0x4C
    &&& byte_at(code, 116) == 0x89
    &&& byte_at(code, 117) == 0xFF
    &&& byte_at(code, 118) == 0x48
    &&& byte_at(code, 119) == 0x6B
    &&& byte_at(code, 120) == 0xFF
    &&& byte_at(code, 121) == 0x10
    &&& byte_at(code, 122) == 0x4C
    &&& byte_at(code, 123) == 0x01
    &&& byte_at(code, 124) == 0xF7
    &&& byte_at(code, 125) == 0x89
    &&& byte_at(code, 126) == 0x07
    &&& byte_at(code, 127) == 0x89
    &&& byte_at(code, 128) == 0xC1
    &&& byte_at(code, 129) == 0x48
    &&& byte_at(code, 130) == 0xBA
    &&& byte_at(code, 139) == 0x8B
    &&& byte_at(code, 140) == 0x0C
    &&& byte_at(code, 141) == 0x8A
    &&& byte_at(code, 142) == 0x44
    &&& byte_at(code, 143) == 0x89
    &&& byte_at(code, 144) == 0xEA
    &&& byte_at(code, 145) == 0x83
    &&& byte_at(code, 146) == 0xC2
    &&& byte_at(code, 147) == 0x01
    &&& byte_at(code, 148) == 0x89
    &&& byte_at(code, 149) == 0x57
    &&& byte_at(code, 150) == 0x08
    &&& byte_at(code, 151) == 0x29
    &&& byte_at(code, 152) == 0xCA
    &&& byte_at(code, 153) == 0x73
    &&& byte_at(code, 154) == 0x02
    &&& byte_at(code, 155) == 0x31
    &&& byte_at(code, 156) == 0xD2
    &&& byte_at(code, 157) == 0x89
    &&& byte_at(code, 158) == 0x57
    &&& byte_at(code, 159) == 0x04
    &&& byte_at(code, 160) == 0x49
    &&& byte_at(code, 161) == 0xFF
    &&& byte_at(code, 162) == 0xC7
    &&& byte_at(code, 163) == 0x48
    &&& byte_at(code, 164) == 0xBF
    &&& byte_at(code, 173) == 0x46
    &&& byte_at(code, 174) == 0x8B
    &&& byte_at(code, 175) == 0x04
    &&& byte_at(code, 176) == 0x87
    &&& byte_at(code, 177) == 0x41
    &&& byte_at(code, 178) == 0x81
    &&& byte_at(code, 179) == 0xF8
    &&& byte_at(code, 184) == 0x0F
    &&& byte_at(code, 185) == 0x85
    &&& imm64(code, 103) == aa
    &&& imm64(code, 131) == la
    &&& imm64(code, 165) == oa
    &&& imm32(code, 180) == 0xFFFF_FFFF
    &&& signed32(imm32(code, 186)) == -98
}

/// The mapped code has the write block.
#[verifier::spinoff_prover]
#[verifier::rlimit(100)]
proof fn lemma_write_code(ta: u64, aa: u64, la: u64, oa: u64, code: Seq<u8>)
    requires
        code == mapped_code(ta, aa, la, oa),
    ensures
        write_block(code, aa, la, oa),
{
    lemma_write_bytes(ta, aa, la, oa);
    vstd::bytes::lemma_auto_spec_u64_to_from_le_bytes();
    vstd::bytes::lemma_auto_spec_u32_to_from_le_bytes();
    lemma_le32_len(0xFFFF_FFFF);
    lemma_rel32_len(ACCEPT_LOOP_PATCH as int, ACCEPT_LOOP as int);
    let w = code.subrange(101, 190);
    assert(w[0] == 0x48u8 && code[101] == 0x48u8);
    assert(w[1] == 0xBFu8 && code[102] == 0xBFu8);
    assert(w[10] == 0x42u8 && code[111] == 0x42u8);
    assert(w[11] == 0x8Bu8 && code[112] == 0x8Bu8);
    assert(w[12] == 0x04u8 && code[113] == 0x04u8);
    assert(w[13] == 0x87u8 && code[114] == 0x87u8);
    assert(w[14] == 0x4Cu8 && code[115] == 0x4Cu8);
    assert(w[15] == 0x89u8 && code[116] == 0x89u8);
    assert(w[16] == 0xFFu8 && code[117] == 0xFFu8);
    assert(w[17] == 0x48u8 && code[118] == 0x48u8);
    assert(w[18] == 0x6Bu8 && code[119] == 0x6Bu8);
    assert(w[19] == 0xFFu8 && code[120] == 0xFFu8);
    assert(w[20] == 0x10u8 && code[121] == 0x10u8);
    assert(w[21] == 0x4Cu8 && code[122] == 0x4Cu8);
    assert(w[22] == 0x01u8 && code[123] == 0x01u8);
    assert(w[23] == 0xF7u8 && code[124] == 0xF7u8);
    assert(w[24] == 0x89u8 && code[125] == 0x89u8);
    assert(w[25] == 0x07u8 && code[126] == 0x07u8);
    assert(w[26] == 0x89u8 && code[127] == 0x89u8);
    assert(w[27] == 0xC1u8 && code[128] == 0xC1u8);
    assert(w[28] == 0x48u8 && code[129] == 0x48u8);
    assert(w[29] == 0xBAu8 && code[130] == 0xBAu8);
    assert(w[38] == 0x8Bu8 && code[139] == 0x8Bu8);
    assert(w[39] == 0x0Cu8 && code[140] == 0x0Cu8);
    assert(w[40] == 0x8Au8 && code[141] == 0x8Au8);
    assert(w[41] == 0x44u8 && code[142] == 0x44u8);
    assert(w[42] == 0x89u8 && code[143] == 0x89u8);
    assert(w[43] == 0xEAu8 && code[144] == 0xEAu8);
    assert(w[44] == 0x83u8 && code[145] == 0x83u8);
    assert(w[45] == 0xC2u8 && code[146] == 0xC2u8);
    assert(w[46] == 0x01u8 && code[147] == 0x01u8);
    assert(w[47] == 0x89u8 && code[148] == 0x89u8);
    assert(w[48] == 0x57u8 && code[149] == 0x57u8);
    assert(w[49] == 0x08u8 && code[150] == 0x08u8);
    assert(w[50] == 0x29u8 && code[151] == 0x29u8);
    assert(w[51] == 0xCAu8 && code[152] == 0xCAu8);
    assert(w[52] == 0x73u8 && code[153] == 0x73u8);
    assert(w[53] == 0x02u8 && code[154] == 0x02u8);
    assert(w[54] == 0x31u8 && code[155] == 0x31u8);
    assert(w[55] == 0xD2u8 && code[156] == 0xD2u8);
    assert(w[56] == 0x89u8 && code[157] == 0x89u8);
    assert(w[57] == 0x57u8 && code[158] == 0x57u8);
    assert(w[58] == 0x04u8 && code[159] == 0x04u8);
    assert(w[59] == 0x49u8 && code[160] == 0x49u8);
    assert(w[60] == 0xFFu8 && code[161] == 0xFFu8);
    assert(w[61] == 0xC7u8 && code[162] == 0xC7u8);
    assert(w[62] == 0x48u8 && code[163] == 0x48u8);
    assert(w[63] == 0xBFu8 && code[164] == 0xBFu8);
    assert(w[72] == 0x46u8 && code[173] == 0x46u8);
    assert(w[73] == 0x8Bu8 && code[174] == 0x8Bu8);
    assert(w[74] == 0x04u8 && code[175] == 0x04u8);
    assert(w[75] == 0x87u8 && code[176] == 0x87u8);
    assert(w[76] == 0x41u8 && code[177] == 0x41u8);
    assert(w[77] == 0x81u8 && code[178] == 0x81u8);
    assert(w[78] == 0xF8u8 && code[179] == 0xF8u8);
    assert(w[83] == 0x0Fu8 && code[184] == 0x0Fu8);
    assert(w[84] == 0x85u8 && code[185] == 0x85u8);
    assert(code.subrange(103, 111) =~= w.subrange(2, 10));
    assert(w.subrange(2, 10) =~= spec_u64_to_le_bytes(aa));
    assert(code.subrange(131, 139) =~= w.subrange(30, 38));
    assert(w.subrange(30, 38) =~= spec_u64_to_le_bytes(la));
    assert(code.subrange(165, 173) =~= w.subrange(64, 72));
    assert(w.subrange(64, 72) =~= spec_u64_to_le_bytes(oa));
    assert(code.subrange(180, 184) =~= w.subrange(79, 83));
    assert(w.subrange(79, 83) =~= le32(0xFFFF_FFFF));
    assert(code.subrange(186, 190) =~= w.subrange(85, 89));
    assert(w.subrange(85, 89) =~= rel32(ACCEPT_LOOP_PATCH as int, ACCEPT_LOOP as int));
    let d: i32 = -98i32;
    assert(d as u32 == 0xFFFF_FF9Eu32) by (bit_vector)
        requires
            d == -98i32;
    assert((92int - 190int) as i32 == d);
}


/// Sixteen registers, each holding a 64-bit value.
pub open spec fn regs_ok(c: Cpu) -> bool {
    &&& c.regs.len() == 16
    &&& forall|r: int| 0 <= r < 16 ==> 0 <= #[trigger] c.regs[r] < w64()
}

/// Address of word `i` of a table of 32-bit words at `base`.
pub open spec fn word_addr(base: int, i: int) -> int {
    (base + 4 * i) % w64()
}

/// Memory holds the words of `s` at `base`, one after another.
pub open spec fn holds_words(c: Cpu, base: int, s: Seq<u32>) -> bool {
    forall|i: int| 0 <= i < s.len() ==> {
        &&& c.mem32.dom().contains(#[trigger] word_addr(base, i))
        &&& c.mem32[word_addr(base, i)] == s[i] as int
    }
}

/// No word of the `n`-word table at `base` is one of the three words of the
/// match record at `rec`.
pub open spec fn apart(base: int, n: int, rec: int) -> bool {
    forall|i: int| 0 <= i < n ==> {
        let a = #[trigger] word_addr(base, i);
        a != rec && a != rec + 4 && a != rec + 8
    }
}

proof fn lemma_xor_self(x: u32)
    ensures
        x ^ x == 0,
{
    assert(x ^ x == 0) by (bit_vector);
}


/// `mov rdi, <accept>`.
#[verifier::spinoff_prover]
#[verifier::rlimit(100)]
proof fn lemma_insn_101(code: Seq<u8>, aa: u64, la: u64, oa: u64, c: Cpu)
    requires
        write_block(code, aa, la, oa),
        regs_ok(c),
        c.pc == 101,
    ensures
        ({
            let d = step(code, c);
            &&& d.pc == 111
            &&& d.regs == c.regs.update(7, aa as int)
            &&& d.mem32 == c.mem32
            &&& d.mem8 == c.mem8
        }),
{
    reveal(step);

}

/// `mov eax, [rdi + r8*4]`.
#[verifier::spinoff_prover]
#[verifier::rlimit(100)]
proof fn lemma_insn_111(code: Seq<u8>, aa: u64, la: u64, oa: u64, c: Cpu, v: int)
    requires
        write_block(code, aa, la, oa),
        regs_ok(c),
        c.pc == 111,
        reg(c, 7) == aa,
        reg(c, 8) < w32(),
        0 <= v < w32(),
        c.mem32[word_addr(aa as int, reg(c, 8))] == v,
    ensures
        ({
            let d = step(code, c);
            &&& d.pc == 115
            &&& d.regs == c.regs.update(0, v)
            &&& d.mem32 == c.mem32
            &&& d.mem8 == c.mem8
        }),
{
    reveal(step);
    assert(word_addr(aa as int, reg(c, 8)) == (reg(c, 7) + scaled(reg(c, 8), 2)) % w64());
}

/// `mov rdi, r15`.
#[verifier::spinoff_prover]
#[verifier::rlimit(100)]
proof fn lemma_insn_115(code: Seq<u8>, aa: u64, la: u64, oa: u64, c: Cpu)
    requires
        write_block(code, aa, la, oa),
        regs_ok(c),
        c.pc == 115,
    ensures
        ({
            let d = step(code, c);
            &&& d.pc == 118
            &&& d.regs == c.regs.update(7, reg(c, 15))
            &&& d.mem32 == c.mem32
            &&& d.mem8 == c.mem8
        }),
{
    reveal(step);

}

/// `imul rdi, rdi, 16`.
#[verifier::spinoff_prover]
#[verifier::rlimit(100)]
proof fn lemma_insn_118(code: Seq<u8>, aa: u64, la: u64, oa: u64, c: Cpu)
    requires
        write_block(code, aa, la, oa),
        regs_ok(c),
        c.pc == 118,
        16 * reg(c, 7) < w64(),
    ensures
        ({
            let d = step(code, c);
            &&& d.pc == 122
            &&& d.regs == c.regs.update(7, 16 * reg(c, 7))
            &&& d.mem32 == c.mem32
            &&& d.mem8 == c.mem8
        }),
{
    reveal(step);
    assert(product(reg(c, 7), 16, true) == 16 * reg(c, 7)) by {
        reveal(product);
    }
}

/// `add rdi, r14`.
#[verifier::spinoff_prover]
#[verifier::rlimit(100)]
proof fn lemma_insn_122(code: Seq<u8>, aa: u64, la: u64, oa: u64, c: Cpu)
    requires
        write_block(code, aa, la, oa),
        regs_ok(c),
        c.pc == 122,
        reg(c, 7) + reg(c, 14) < w64(),
    ensures
        ({
            let d = step(code, c);
            &&& d.pc == 125
            &&& d.regs == c.regs.update(7, reg(c, 7) + reg(c, 14))
            &&& d.mem32 == c.mem32
            &&& d.mem8 == c.mem8
        }),
{
    reveal(step);

}

/// `mov [rdi], eax`.
#[verifier::spinoff_prover]
#[verifier::rlimit(100)]
proof fn lemma_insn_125(code: Seq<u8>, aa: u64, la: u64, oa: u64, c: Cpu)
    requires
        write_block(code, aa, la, oa),
        regs_ok(c),
        c.pc == 125,
        reg(c, 0) < w32(),
    ensures
        ({
            let d = step(code, c);
            &&& d.pc == 127
            &&& d.regs == c.regs
            &&& d.mem32 == c.mem32.insert(reg(c, 7), reg(c, 0))
            &&& d.mem8 == c.mem8
        }),
{
    reveal(step);

}

/// `mov ecx, eax`.
#[verifier::spinoff_prover]
#[verifier::rlimit(100)]
proof fn lemma_insn_127(code: Seq<u8>, aa: u64, la: u64, oa: u64, c: Cpu)
    requires
        write_block(code, aa, la, oa),
        regs_ok(c),
        c.pc == 127,
        reg(c, 0) < w32(),
    ensures
        ({
            let d = step(code, c);
            &&& d.pc == 129
            &&& d.regs == c.regs.update(1, reg(c, 0))
            &&& d.mem32 == c.mem32
            &&& d.mem8 == c.mem8
        }),
{
    reveal(step);

}

/// `mov rdx, <lengths>`.
#[verifier::spinoff_prover]
#[verifier::rlimit(100)]
proof fn lemma_insn_129(code: Seq<u8>, aa: u64, la: u64, oa: u64, c: Cpu)
    requires
        write_block(code, aa, la, oa),
        regs_ok(c),
        c.pc == 129,
    ensures
        ({
            let d = step(code, c);
            &&& d.pc == 139
            &&& d.regs == c.regs.update(2, la as int)
            &&& d.mem32 == c.mem32
            &&& d.mem8 == c.mem8
        }),
{
    reveal(step);

}

/// `mov ecx, [rdx + rcx*4]`.
#[verifier::spinoff_prover]
#[verifier::rlimit(100)]
proof fn lemma_insn_139(code: Seq<u8>, aa: u64, la: u64, oa: u64, c: Cpu, v: int)
    requires
        write_block(code, aa, la, oa),
        regs_ok(c),
        c.pc == 139,
        reg(c, 2) == la,
        reg(c, 1) < w32(),
        0 <= v < w32(),
        c.mem32[word_addr(la as int, reg(c, 1))] == v,
    ensures
        ({
            let d = step(code, c);
            &&& d.pc == 142
            &&& d.regs == c.regs.update(1, v)
            &&& d.mem32 == c.mem32
            &&& d.mem8 == c.mem8
        }),
{
    reveal(step);
    assert(word_addr(la as int, reg(c, 1)) == (reg(c, 2) + scaled(reg(c, 1), 2)) % w64());
}

/// `mov edx, r13d`.
#[verifier::spinoff_prover]
#[verifier::rlimit(100)]
proof fn lemma_insn_142(code: Seq<u8>, aa: u64, la: u64, oa: u64, c: Cpu)
    requires
        write_block(code, aa, la, oa),
        regs_ok(c),
        c.pc == 142,
    ensures
        ({
            let d = step(code, c);
            &&& d.pc == 145
            &&& d.regs == c.regs.update(2, reg(c, 13) % w32())
            &&& d.mem32 == c.mem32
            &&& d.mem8 == c.mem8
        }),
{
    reveal(step);

}

/// `add edx, 1`.
#[verifier::spinoff_prover]
#[verifier::rlimit(100)]
proof fn lemma_insn_145(code: Seq<u8>, aa: u64, la: u64, oa: u64, c: Cpu)
    requires
        write_block(code, aa, la, oa),
        regs_ok(c),
        c.pc == 145,
        reg(c, 2) < w32(),
    ensures
        ({
            let d = step(code, c);
            &&& d.pc == 148
            &&& d.regs == c.regs.update(2, (reg(c, 2) + 1) % w32())
            &&& d.mem32 == c.mem32
            &&& d.mem8 == c.mem8
        }),
{
    reveal(step);

}

/// `mov [rdi+8], edx`.
#[verifier::spinoff_prover]
#[verifier::rlimit(100)]
proof fn lemma_insn_148(code: Seq<u8>, aa: u64, la: u64, oa: u64, c: Cpu)
    requires
        write_block(code, aa, la, oa),
        regs_ok(c),
        c.pc == 148,
        reg(c, 2) < w32(),
        reg(c, 7) + 8 < w64(),
    ensures
        ({
            let d = step(code, c);
            &&& d.pc == 151
            &&& d.regs == c.regs
            &&& d.mem32 == c.mem32.insert(reg(c, 7) + 8, reg(c, 2))
            &&& d.mem8 == c.mem8
        }),
{
    reveal(step);

}

/// `sub edx, ecx`.
#[verifier::spinoff_prover]
#[verifier::rlimit(100)]
proof fn lemma_insn_151(code: Seq<u8>, aa: u64, la: u64, oa: u64, c: Cpu)
    requires
        write_block(code, aa, la, oa),
        regs_ok(c),
        c.pc == 151,
        reg(c, 1) < w32(),
        reg(c, 2) < w32(),
    ensures
        ({
            let d = step(code, c);
            &&& d.pc == 153
            &&& d.regs == c.regs.update(2, (reg(c, 2) - reg(c, 1) + w32()) % w32())
            &&& d.mem32 == c.mem32
            &&& d.mem8 == c.mem8
            &&& d.cf == (reg(c, 2) < reg(c, 1))
        }),
{
    reveal(step);

}

/// `jnc +2`.
#[verifier::spinoff_prover]
#[verifier::rlimit(100)]
proof fn lemma_insn_153(code: Seq<u8>, aa: u64, la: u64, oa: u64, c: Cpu)
    requires
        write_block(code, aa, la, oa),
        regs_ok(c),
        c.pc == 153,
    ensures
        ({
            let d = step(code, c);
            &&& d.pc == if c.cf { 155int } else { 157int }
            &&& d.regs == c.regs
            &&& d.mem32 == c.mem32
            &&& d.mem8 == c.mem8
        }),
{
    reveal(step);

}

/// `xor edx, edx`.
#[verifier::spinoff_prover]
#[verifier::rlimit(100)]
proof fn lemma_insn_155(code: Seq<u8>, aa: u64, la: u64, oa: u64, c: Cpu)
    requires
        write_block(code, aa, la, oa),
        regs_ok(c),
        c.pc == 155,
        reg(c, 2) < w32(),
    ensures
        ({
            let d = step(code, c);
            &&& d.pc == 157
            &&& d.regs == c.regs.update(2, 0)
            &&& d.mem32 == c.mem32
            &&& d.mem8 == c.mem8
        }),
{
    reveal(step);
    lemma_xor_self(reg(c, 2) as u32);
}

/// `mov [rdi+4], edx`.
#[verifier::spinoff_prover]
#[verifier::rlimit(100)]
proof fn lemma_insn_157(code: Seq<u8>, aa: u64, la: u64, oa: u64, c: Cpu)
    requires
        write_block(code, aa, la, oa),
        regs_ok(c),
        c.pc == 157,
        reg(c, 2) < w32(),
        reg(c, 7) + 4 < w64(),
    ensures
        ({
            let d = step(code, c);
            &&& d.pc == 160
            &&& d.regs == c.regs
            &&& d.mem32 == c.mem32.insert(reg(c, 7) + 4, reg(c, 2))
            &&& d.mem8 == c.mem8
        }),
{
    reveal(step);

}

/// `inc r15`.
#[verifier::spinoff_prover]
#[verifier::rlimit(100)]
proof fn lemma_insn_160(code: Seq<u8>, aa: u64, la: u64, oa: u64, c: Cpu)
    requires
        write_block(code, aa, la, oa),
        regs_ok(c),
        c.pc == 160,
        reg(c, 15) + 1 < w64(),
    ensures
        ({
            let d = step(code, c);
            &&& d.pc == 163
            &&& d.regs == c.regs.update(15, reg(c, 15) + 1)
            &&& d.mem32 == c.mem32
            &&& d.mem8 == c.mem8
        }),
{
    reveal(step);

}

/// `mov rdi, <links>`.
#[verifier::spinoff_prover]
#[verifier::rlimit(100)]
proof fn lemma_insn_163(code: Seq<u8>, aa: u64, la: u64, oa: u64, c: Cpu)
    requires
        write_block(code, aa, la, oa),
        regs_ok(c),
        c.pc == 163,
    ensures
        ({
            let d = step(code, c);
            &&& d.pc == 173
            &&& d.regs == c.regs.update(7, oa as int)
            &&& d.mem32 == c.mem32
            &&& d.mem8 == c.mem8
        }),
{
    reveal(step);

}

/// `mov r8d, [rdi + r8*4]`.
#[verifier::spinoff_prover]
#[verifier::rlimit(100)]
proof fn lemma_insn_173(code: Seq<u8>, aa: u64, la: u64, oa: u64, c: Cpu, v: int)
    requires
        write_block(code, aa, la, oa),
        regs_ok(c),
        c.pc == 173,
        reg(c, 7) == oa,
        reg(c, 8) < w32(),
        0 <= v < w32(),
        c.mem32[word_addr(oa as int, reg(c, 8))] == v,
    ensures
        ({
            let d = step(code, c);
            &&& d.pc == 177
            &&& d.regs == c.regs.update(8, v)
            &&& d.mem32 == c.mem32
            &&& d.mem8 == c.mem8
        }),
{
    reveal(step);
    assert(word_addr(oa as int, reg(c, 8)) == (reg(c, 7) + scaled(reg(c, 8), 2)) % w64());
}

/// `cmp r8d, -1`.
#[verifier::spinoff_prover]
#[verifier::rlimit(100)]
proof fn lemma_insn_177(code: Seq<u8>, aa: u64, la: u64, oa: u64, c: Cpu)
    requires
        write_block(code, aa, la, oa),
        regs_ok(c),
        c.pc == 177,
        reg(c, 8) < w32(),
    ensures
        ({
            let d = step(code, c);
            &&& d.pc == 184
            &&& d.regs == c.regs
            &&& d.mem32 == c.mem32
            &&& d.mem8 == c.mem8
            &&& d.zf == (reg(c, 8) == 0xFFFF_FFFF)
        }),
{
    reveal(step);

}

/// `jne <chain loop>`.
#[verifier::spinoff_prover]
#[verifier::rlimit(100)]
proof fn lemma_insn_184(code: Seq<u8>, aa: u64, la: u64, oa: u64, c: Cpu)
    requires
        write_block(code, aa, la, oa),
        regs_ok(c),
        c.pc == 184,
    ensures
        ({
            let d = step(code, c);
            &&& d.pc == if c.zf { 190int } else { 92int }
            &&& d.regs == c.regs
            &&& d.mem32 == c.mem32
            &&& d.mem8 == c.mem8
        }),
{
    reveal(step);

}



/// Address of match record `j` of the buffer at `buf`: a record takes 16
/// bytes (pattern, start, end, then 4 unused bytes).
pub open spec fn record_addr(buf: int, j: int) -> int {
    buf + 16 * j
}

/// `mem` with match `m` stored as the record at `rec`.
pub open spec fn store_record(mem: Map<int, int>, rec: int, m: (u32, u32, u32)) -> Map<int, int> {
    mem.insert(rec, m.0 as int).insert(rec + 8, m.2 as int).insert(rec + 4, m.1 as int)
}

/// `mem` with the matches `ms` stored as records `k`, `k + 1` and so on in
/// the buffer at `buf`, which holds `max` records: those numbered `max` or
/// more are left out.
pub open spec fn store_records(mem: Map<int, int>, buf: int, k: int, max: int, ms: Seq<(u32, u32, u32)>) -> Map<int, int>
    decreases ms.len(),
{
    if ms.len() == 0 {
        mem
    } else {
        let next = if k < max { store_record(mem, record_addr(buf, k), ms[0]) } else { mem };
        store_records(next, buf, k + 1, max, ms.drop_first())
    }
}

/// The end offset of a match found at the input position in r13.
pub open spec fn end_of(c: Cpu) -> u32 {
    ((reg(c, 13) + 1) % w32()) as u32
}

/// Every register but rax, rcx, rdx, rdi, r8 and r15 is as in `c`.
pub open spec fn kept_regs(c: Cpu, d: Cpu) -> bool {
    forall|r: int| 0 <= r < 16 && r != 0 && r != 1 && r != 2 && r != 7 && r != 8 && r != 15
        ==> #[trigger] reg(d, r) == reg(c, r)
}

/// `d` is `c` after the write part for chain state `o`: record r15 holds
/// `match_at(p, o, end)`, r15 counts it, r8 holds the link of `o`, and the
/// machine is back at the chain loop, or past it once the chain has ended.
pub open spec fn record_written(p: Program, o: u32, c: Cpu, d: Cpu) -> bool {
    &&& d.mem32 == store_record(c.mem32, record_addr(reg(c, 14), reg(c, 15)), match_at(p, o, end_of(c)))
    &&& d.mem8 == c.mem8
    &&& reg(d, 15) == reg(c, 15) + 1
    &&& reg(d, 8) == link_of(p, o)
    &&& d.pc == if link_of(p, o) == NO_PATTERN { ACCEPT_LOOP_PATCH + 4 } else { ACCEPT_LOOP as int }
    &&& regs_ok(d)
    &&& kept_regs(c, d)
}

/// The write part of the native scan loop does what the chain loop of
/// `run` does for one state of an output chain. Run from its first
/// instruction on a machine whose memory holds the program's accept,
/// pattern length and output link tables (at the addresses filled into the
/// code) and a match buffer apart from them, with chain state `o` in r8, the
/// input position in r13, the buffer in r14 and the number of matches
/// written in r15, it stores record r15 as the three words of
/// `match_at(p, o, end)` for end = position + 1: the pattern, the start (the
/// end less the pattern's length, or 0) and the end. It then counts the
/// record, loads the output link of `o` into r8 and jumps back to the chain
/// loop, or past it once the chain has ended. No other memory word changes,
/// and no register but the scratch ones rax, rcx, rdx and rdi.
#[verifier::spinoff_prover]
#[verifier::rlimit(100)]
pub proof fn lemma_native_write(p: Program, ta: u64, aa: u64, la: u64, oa: u64, c: Cpu, o: u32)
    requires
        program_wf(p),
        (o as int) < p.accept.len(),
        p.accept[o as int] != NO_PATTERN,
        regs_ok(c),
        c.pc == ACCEPT_PATCH,
        reg(c, 8) == o,
        reg(c, 14) + 16 * reg(c, 15) + 16 <= w64(),
        holds_words(c, aa as int, p.accept),
        holds_words(c, la as int, p.pattern_lengths),
        holds_words(c, oa as int, p.links),
        apart(la as int, p.pattern_lengths.len() as int, reg(c, 14) + 16 * reg(c, 15)),
        apart(oa as int, p.links.len() as int, reg(c, 14) + 16 * reg(c, 15)),
    ensures
        exists|n: nat| record_written(p, o, c, #[trigger] steps(mapped_code(ta, aa, la, oa), c, n)),
{
    let code = mapped_code(ta, aa, la, oa);
    lemma_write_code(ta, aa, la, oa, code);
    let k = reg(c, 15);
    let rec = reg(c, 14) + 16 * k;
    let pid: u32 = p.accept[o as int];
    let len: u32 = p.pattern_lengths[pid as int];
    let link: u32 = p.links[o as int];
    let end: int = (reg(c, 13) + 1) % w32();
    assert(c.mem32[word_addr(aa as int, o as int)] == pid);
    assert(c.mem32.dom().contains(word_addr(la as int, pid as int)));
    assert(c.mem32[word_addr(la as int, pid as int)] == len);
    assert(c.mem32.dom().contains(word_addr(oa as int, o as int)));
    assert(c.mem32[word_addr(oa as int, o as int)] == link);
    assert(word_addr(la as int, pid as int) != rec);
    let wo = word_addr(oa as int, o as int);
    assert(wo != rec && wo != rec + 4 && wo != rec + 8);

    assert(steps(code, c, 0) == c);
    lemma_insn_101(code, aa, la, oa, c);
    let c1 = step(code, c);
    assert(steps(code, c, 1) == c1);
    lemma_insn_111(code, aa, la, oa, c1, pid as int);
    let c2 = step(code, c1);
    assert(steps(code, c, 2) == c2);
    lemma_insn_115(code, aa, la, oa, c2);
    let c3 = step(code, c2);
    assert(steps(code, c, 3) == c3);
    lemma_insn_118(code, aa, la, oa, c3);
    let c4 = step(code, c3);
    assert(steps(code, c, 4) == c4);
    lemma_insn_122(code, aa, la, oa, c4);
    let c5 = step(code, c4);
    assert(steps(code, c, 5) == c5);
    assert(reg(c5, 7) == rec && reg(c5, 0) == pid);
    lemma_insn_125(code, aa, la, oa, c5);
    let c6 = step(code, c5);
    assert(steps(code, c, 6) == c6);
    lemma_insn_127(code, aa, la, oa, c6);
    let c7 = step(code, c6);
    assert(steps(code, c, 7) == c7);
    lemma_insn_129(code, aa, la, oa, c7);
    let c8 = step(code, c7);
    assert(steps(code, c, 8) == c8);
    assert(c8.mem32 == c.mem32.insert(rec, pid as int));
    assert(c8.mem32[word_addr(la as int, reg(c8, 1))] == len);
    lemma_insn_139(code, aa, la, oa, c8, len as int);
    let c9 = step(code, c8);
    assert(steps(code, c, 9) == c9);
    lemma_insn_142(code, aa, la, oa, c9);
    let c10 = step(code, c9);
    assert(steps(code, c, 10) == c10);
    lemma_insn_145(code, aa, la, oa, c10);
    let c11 = step(code, c10);
    assert(steps(code, c, 11) == c11);
    vstd::arithmetic::div_mod::lemma_add_mod_noop(reg(c, 13), 1, w32());
    assert(reg(c11, 2) == end);
    lemma_insn_148(code, aa, la, oa, c11);
    let c12 = step(code, c11);
    assert(steps(code, c, 12) == c12);
    lemma_insn_151(code, aa, la, oa, c12);
    let c13 = step(code, c12);
    assert(steps(code, c, 13) == c13);
    lemma_insn_153(code, aa, la, oa, c13);
    let c14 = step(code, c13);
    assert(steps(code, c, 14) == c14);
    let start: u32 = saturating_sub(end as u32, len);
    let ghost mut ca = c14;
    let ghost mut m: nat = 14;
    if end < len {
        lemma_insn_155(code, aa, la, oa, c14);
        ca = step(code, c14);
        m = 15;
        assert(steps(code, c, 15) == ca);
    }
    assert(steps(code, c, m) == ca);
    assert(ca.pc == 157);
    assert(reg(ca, 2) == start);
    assert(ca.regs == c12.regs.update(2, start as int));
    assert(ca.mem32 == c.mem32.insert(rec, pid as int).insert(rec + 8, end));
    lemma_insn_157(code, aa, la, oa, ca);
    let e1 = step(code, ca);
    assert(steps(code, c, m + 1) == e1);
    lemma_insn_160(code, aa, la, oa, e1);
    let e2 = step(code, e1);
    assert(steps(code, c, m + 2) == e2);
    lemma_insn_163(code, aa, la, oa, e2);
    let e3 = step(code, e2);
    assert(steps(code, c, m + 3) == e3);
    assert(e3.mem32 == c.mem32.insert(rec, pid as int).insert(rec + 8, end).insert(rec + 4, start as int));
    assert(e3.mem32[word_addr(oa as int, reg(e3, 8))] == link);
    lemma_insn_173(code, aa, la, oa, e3, link as int);
    let e4 = step(code, e3);
    assert(steps(code, c, m + 4) == e4);
    lemma_insn_177(code, aa, la, oa, e4);
    let e5 = step(code, e4);
    assert(steps(code, c, m + 5) == e5);
    lemma_insn_184(code, aa, la, oa, e5);
    let e6 = step(code, e5);
    assert(steps(code, c, m + 6) == e6);
    assert(match_at(p, o, end as u32) == (pid, start, end as u32));
    assert(e6.mem32 == c.mem32.insert(rec, pid as int).insert(rec + 8, end).insert(rec + 4, start as int));
    assert(reg(e6, 8) == link);
    assert(reg(e6, 15) == k + 1);
    assert(record_written(p, o, c, e6));
}


/// Filling an address field inside `x` commutes with appending `r`.
proof fn lemma_put64_prefix(x: Seq<u8>, r: Seq<u8>, off: int, v: u64)
    requires
        0 <= off,
        off + 8 <= x.len(),
    ensures
        put64(x + r, off, v) == put64(x, off, v) + r,
        put64(x, off, v).len() == x.len(),
{
    vstd::bytes::lemma_auto_spec_u64_to_from_le_bytes();
    assert(put64(x + r, off, v) =~= put64(x, off, v) + r);
}

/// The code image that compiling builds, once mapped (its four address
/// fields filled in the way `patch_imm64` fills them), begins with
/// `mapped_code`: the code that the laws of this module run.
pub proof fn lemma_mapped_image_code(
    flagged: Seq<u32>,
    accept: Seq<u32>,
    lengths: Seq<u32>,
    links: Seq<u32>,
    ta: u64,
    aa: u64,
    la: u64,
    oa: u64,
)
    ensures
        put64(put64(put64(put64(jit_image(256, flagged, accept, lengths, links), TRANS_PATCH + 2, ta),
            ACCEPT_PATCH + 2, aa), PATLEN_PATCH + 2, la), OUTPUT_PATCH + 2, oa).take(CODE_LEN as int)
            == mapped_code(ta, aa, la, oa),
{
    lemma_write_bytes(ta, aa, la, oa);
    lemma_le32_len(256);
    lemma_le32_len(0xFFFF_FFFF);
    lemma_le32_len(0x7FFF_FFFF);
    lemma_le32_len(0x8000_0000);
    lemma_rel32_len(SKIP_WRITE_PATCH as int, SKIP_WRITE_TARGET as int);
    lemma_rel32_len(ACCEPT_LOOP_PATCH as int, ACCEPT_LOOP as int);
    lemma_rel32_len(SKIP_MATCH_PATCH as int, SKIP_MATCH_TARGET as int);
    lemma_rel32_len(LOOP_PATCH as int, SCAN_TOP as int);
    lemma_rel32_len(EMPTY_PATCH as int, EPILOGUE as int);
    let c0 = scan_code(256);
    assert(c0.len() == 225);
    let rest = seq![0xCCu8, 0xCC, 0xCC, 0xCC, 0xCC, 0xCC, 0xCC] + words_le(flagged) + words_le(accept)
        + words_le(lengths) + words_le(links);
    assert(jit_image(256, flagged, accept, lengths, links) =~= c0 + rest);
    let c1 = put64(c0, TRANS_PATCH + 2, ta);
    let c2 = put64(c1, ACCEPT_PATCH + 2, aa);
    let c3 = put64(c2, PATLEN_PATCH + 2, la);
    lemma_put64_prefix(c0, rest, TRANS_PATCH + 2, ta);
    lemma_put64_prefix(c1, rest, ACCEPT_PATCH + 2, aa);
    lemma_put64_prefix(c2, rest, PATLEN_PATCH + 2, la);
    lemma_put64_prefix(c3, rest, OUTPUT_PATCH + 2, oa);
    assert((mapped_code(ta, aa, la, oa) + rest).take(225) =~= mapped_code(ta, aa, la, oa));
}


/// The chain loop's head in `code` as the mapped scan loop has it: `mov r8d,
/// r11d`, then `cmp r15, rbx; jae` to the skip-write target.
pub open spec fn chain_block(code: Seq<u8>) -> bool {
    &&& code.len() == 225
    &&& byte_at(code, 89) == 0x45
    &&& byte_at(code, 90) == 0x89
    &&& byte_at(code, 91) == 0xD8
    &&& byte_at(code, 92) == 0x49
    &&& byte_at(code, 93) == 0x39
    &&& byte_at(code, 94) == 0xDF
    &&& byte_at(code, 95) == 0x0F
    &&& byte_at(code, 96) == 0x83
    &&& imm32(code, 97) == 59
}

/// The mapped code has the chain loop's head.
#[verifier::spinoff_prover]
#[verifier::rlimit(100)]
proof fn lemma_chain_code(ta: u64, aa: u64, la: u64, oa: u64, code: Seq<u8>)
    requires
        code == mapped_code(ta, aa, la, oa),
    ensures
        chain_block(code),
{
    lemma_write_bytes(ta, aa, la, oa);
    vstd::bytes::lemma_auto_spec_u64_to_from_le_bytes();
    vstd::bytes::lemma_auto_spec_u32_to_from_le_bytes();
    lemma_le32_len(256);
    lemma_le32_len(0xFFFF_FFFF);
    lemma_le32_len(0x7FFF_FFFF);
    lemma_le32_len(0x8000_0000);
    lemma_rel32_len(SKIP_WRITE_PATCH as int, SKIP_WRITE_TARGET as int);
    lemma_rel32_len(ACCEPT_LOOP_PATCH as int, ACCEPT_LOOP as int);
    lemma_rel32_len(SKIP_MATCH_PATCH as int, SKIP_MATCH_TARGET as int);
    lemma_rel32_len(LOOP_PATCH as int, SCAN_TOP as int);
    lemma_rel32_len(EMPTY_PATCH as int, EPILOGUE as int);
    let c0 = scan_code(256);
    let c1 = put64(c0, TRANS_PATCH + 2, ta);
    let c2 = put64(c1, ACCEPT_PATCH + 2, aa);
    let c3 = put64(c2, PATLEN_PATCH + 2, la);
    let w = code.subrange(89, 101);
    assert(c0.subrange(89, 101) =~= seg_chain_head() + rel32(SKIP_WRITE_PATCH as int, SKIP_WRITE_TARGET as int));
    assert(c1.subrange(89, 101) =~= c0.subrange(89, 101));
    assert(c2.subrange(89, 101) =~= c1.subrange(89, 101));
    assert(c3.subrange(89, 101) =~= c2.subrange(89, 101));
    assert(w =~= c3.subrange(89, 101));
    assert(w[0] == 0x45u8 && code[89] == 0x45u8);
    assert(w[1] == 0x89u8 && code[90] == 0x89u8);
    assert(w[2] == 0xD8u8 && code[91] == 0xD8u8);
    assert(w[3] == 0x49u8 && code[92] == 0x49u8);
    assert(w[4] == 0x39u8 && code[93] == 0x39u8);
    assert(w[5] == 0xDFu8 && code[94] == 0xDFu8);
    assert(w[6] == 0x0Fu8 && code[95] == 0x0Fu8);
    assert(w[7] == 0x83u8 && code[96] == 0x83u8);
    assert(code.subrange(97, 101) =~= w.subrange(8, 12));
    assert(w.subrange(8, 12) =~= rel32(SKIP_WRITE_PATCH as int, SKIP_WRITE_TARGET as int));
    assert((160int - 101int) as i32 as u32 == 59u32);
}

/// `cmp r15, rbx`.
#[verifier::spinoff_prover]
#[verifier::rlimit(100)]
proof fn lemma_insn_92(code: Seq<u8>, c: Cpu)
    requires
        chain_block(code),
        regs_ok(c),
        c.pc == 92,
    ensures
        ({
            let d = step(code, c);
            &&& d.pc == 95
            &&& d.regs == c.regs
            &&& d.mem32 == c.mem32
            &&& d.mem8 == c.mem8
            &&& d.cf == (reg(c, 15) < reg(c, 3))
        }),
{
    reveal(step);
}

/// `jae` to the skip-write target.
#[verifier::spinoff_prover]
#[verifier::rlimit(100)]
proof fn lemma_insn_95(code: Seq<u8>, c: Cpu)
    requires
        chain_block(code),
        regs_ok(c),
        c.pc == 95,
    ensures
        ({
            let d = step(code, c);
            &&& d.pc == if c.cf { 101int } else { 160int }
            &&& d.regs == c.regs
            &&& d.mem32 == c.mem32
            &&& d.mem8 == c.mem8
        }),
{
    reveal(step);
}


/// The buffer at `buf`, of `max` records, lies apart from the `n`-word table
/// at `base`.
pub open spec fn buffer_apart(base: int, n: int, buf: int, max: int) -> bool {
    forall|j: int| 0 <= j < max ==> #[trigger] apart(base, n, record_addr(buf, j))
}

/// Memory holds the program's pattern, pattern length and output link tables
/// at `aa`, `la` and `oa`, and the match buffer (at r14, of rbx records)
/// lies apart from them.
pub open spec fn tables_ok(p: Program, aa: u64, la: u64, oa: u64, c: Cpu) -> bool {
    &&& holds_words(c, aa as int, p.accept)
    &&& holds_words(c, la as int, p.pattern_lengths)
    &&& holds_words(c, oa as int, p.links)
    &&& reg(c, 14) + 16 * reg(c, 3) <= w64()
    &&& buffer_apart(aa as int, p.accept.len() as int, reg(c, 14), reg(c, 3))
    &&& buffer_apart(la as int, p.pattern_lengths.len() as int, reg(c, 14), reg(c, 3))
    &&& buffer_apart(oa as int, p.links.len() as int, reg(c, 14), reg(c, 3))
}

/// `d` is `c` after the chain loop for chain state `o`: the matches of the
/// chain, ending at the position in r13 plus one, stored as records from
/// number r15 on as far as the buffer holds them, and all of them counted
/// in r15; the machine is past the loop.
pub open spec fn chain_written(p: Program, o: u32, c: Cpu, d: Cpu) -> bool {
    let ms = chain_matches(p, o, end_of(c));
    &&& d.mem32 == store_records(c.mem32, reg(c, 14), reg(c, 15), reg(c, 3), ms)
    &&& d.mem8 == c.mem8
    &&& reg(d, 15) == reg(c, 15) + ms.len()
    &&& reg(d, 8) == NO_PATTERN
    &&& d.pc == ACCEPT_LOOP_PATCH + 4
    &&& regs_ok(d)
    &&& kept_regs(c, d)
}

/// A table apart from a record still holds its words once the record is stored.
proof fn lemma_holds_after_store(c: Cpu, d: Cpu, base: int, s: Seq<u32>, rec: int, m: (u32, u32, u32))
    requires
        holds_words(c, base, s),
        apart(base, s.len() as int, rec),
        d.mem32 == store_record(c.mem32, rec, m),
    ensures
        holds_words(d, base, s),
{
    assert forall|i: int| 0 <= i < s.len() implies {
        &&& d.mem32.dom().contains(#[trigger] word_addr(base, i))
        &&& d.mem32[word_addr(base, i)] == s[i] as int
    } by {
        let a = word_addr(base, i);
        assert(a != rec && a != rec + 4 && a != rec + 8);
    }
}

/// The chain matches from an accepting state: its own, then its link's.
proof fn lemma_chain_matches_unfold(p: Program, o: u32, end: u32)
    requires
        program_wf(p),
        o != NO_PATTERN,
        (o as int) < p.accept.len(),
        p.accept[o as int] != NO_PATTERN,
    ensures
        chain_matches(p, o, end).len() == 1 + chain_matches(p, link_of(p, o), end).len(),
        chain_matches(p, o, end)[0] == match_at(p, o, end),
        chain_matches(p, o, end).drop_first() == chain_matches(p, link_of(p, o), end),
{
    lemma_chain_unfold(p, o);
    let f = |x: u32| match_at(p, x, end);
    let rest = chain(p, link_of(p, o), p.max_chain);
    assert((seq![o] + rest).map_values(f) =~= seq![f(o)] + rest.map_values(f));
    assert((seq![f(o)] + rest.map_values(f)).drop_first() =~= rest.map_values(f));
}

/// One round of the chain loop: write the record for `o` if the buffer has
/// room for it, count it, and load the link of `o`.
#[verifier::spinoff_prover]
#[verifier::rlimit(100)]
proof fn lemma_chain_once(p: Program, ta: u64, aa: u64, la: u64, oa: u64, c: Cpu, o: u32) -> (n: nat)
    requires
        program_wf(p),
        o != NO_PATTERN,
        (o as int) < p.accept.len(),
        p.accept[o as int] != NO_PATTERN,
        regs_ok(c),
        c.pc == ACCEPT_LOOP,
        reg(c, 8) == o,
        tables_ok(p, aa, la, oa, c),
        reg(c, 15) + 1 < w64(),
    ensures
        ({
            let d = steps(mapped_code(ta, aa, la, oa), c, n);
            let k = reg(c, 15);
            &&& d.mem32 == if k < reg(c, 3) {
                store_record(c.mem32, record_addr(reg(c, 14), k), match_at(p, o, end_of(c)))
            } else {
                c.mem32
            }
            &&& d.mem8 == c.mem8
            &&& reg(d, 15) == k + 1
            &&& reg(d, 8) == link_of(p, o)
            &&& d.pc == if link_of(p, o) == NO_PATTERN { ACCEPT_LOOP_PATCH + 4 } else { ACCEPT_LOOP as int }
            &&& regs_ok(d)
            &&& kept_regs(c, d)
            &&& tables_ok(p, aa, la, oa, d)
        }),
{
    let code = mapped_code(ta, aa, la, oa);
    lemma_chain_code(ta, aa, la, oa, code);
    lemma_write_code(ta, aa, la, oa, code);
    let k = reg(c, 15);
    let max = reg(c, 3);
    let buf = reg(c, 14);
    let end = end_of(c);
    let link = link_of(p, o);
    assert(steps(code, c, 0) == c);
    lemma_insn_92(code, c);
    let c1 = step(code, c);
    assert(steps(code, c, 1) == c1);
    lemma_insn_95(code, c1);
    let c2 = step(code, c1);
    assert(steps(code, c, 2) == c2);
    let ghost mut d1 = c2;
    let ghost mut n1: nat = 0;
    if k < max {
        assert(apart(la as int, p.pattern_lengths.len() as int, record_addr(buf, k)));
        assert(apart(oa as int, p.links.len() as int, record_addr(buf, k)));
        assert(apart(aa as int, p.accept.len() as int, record_addr(buf, k)));
        lemma_native_write(p, ta, aa, la, oa, c2, o);
        n1 = choose|n: nat| record_written(p, o, c2, #[trigger] steps(code, c2, n));
        d1 = steps(code, c2, n1);
        assert(record_written(p, o, c2, d1));
        lemma_holds_after_store(c2, d1, aa as int, p.accept, record_addr(buf, k), match_at(p, o, end));
        lemma_holds_after_store(c2, d1, la as int, p.pattern_lengths, record_addr(buf, k), match_at(p, o, end));
        lemma_holds_after_store(c2, d1, oa as int, p.links, record_addr(buf, k), match_at(p, o, end));
    } else {
        assert(c.mem32[word_addr(oa as int, o as int)] == link);
        assert(steps(code, c2, 0) == c2);
        lemma_insn_160(code, aa, la, oa, c2);
        let e1 = step(code, c2);
        assert(steps(code, c2, 1) == e1);
        lemma_insn_163(code, aa, la, oa, e1);
        let e2 = step(code, e1);
        assert(steps(code, c2, 2) == e2);
        lemma_insn_173(code, aa, la, oa, e2, link as int);
        let e3 = step(code, e2);
        assert(steps(code, c2, 3) == e3);
        lemma_insn_177(code, aa, la, oa, e3);
        let e4 = step(code, e3);
        assert(steps(code, c2, 4) == e4);
        lemma_insn_184(code, aa, la, oa, e4);
        let e5 = step(code, e4);
        assert(steps(code, c2, 5) == e5);
        n1 = 5;
        d1 = e5;
    }
    lemma_steps_add(code, c, 2, n1);
    assert(steps(code, c, 2 + n1) == d1);
    2 + n1
}

/// The chain loop of the native scan loop does what `run` does for an
/// accepting state: run from the loop's head with an accepting state `o` in
/// r8, on a machine whose memory holds the program's tables and a match
/// buffer apart from them (r14, of rbx records), it stores the matches of
/// the chain of `o`, all ending at the input position in r13 plus one, as
/// records from number r15 on as far as the buffer holds them, counts every
/// one of them in r15, and leaves the loop. No other memory word changes,
/// and no register but the scratch ones rax, rcx, rdx, rdi and r8.
#[verifier::rlimit(100)]
pub proof fn lemma_native_chain(p: Program, ta: u64, aa: u64, la: u64, oa: u64, c: Cpu, o: u32)
    requires
        program_wf(p),
        o != NO_PATTERN,
        (o as int) < p.accept.len(),
        p.accept[o as int] != NO_PATTERN,
        regs_ok(c),
        c.pc == ACCEPT_LOOP,
        reg(c, 8) == o,
        tables_ok(p, aa, la, oa, c),
        reg(c, 15) + chain(p, o, p.max_chain).len() < w64(),
    ensures
        exists|n: nat| chain_written(p, o, c, #[trigger] steps(mapped_code(ta, aa, la, oa), c, n)),
    decreases p.rank[o as int],
{
    let code = mapped_code(ta, aa, la, oa);
    let k = reg(c, 15);
    let max = reg(c, 3);
    let buf = reg(c, 14);
    let end = end_of(c);
    let link = link_of(p, o);
    lemma_chain_unfold(p, o);
    lemma_chain_matches_unfold(p, o, end);
    let n1 = lemma_chain_once(p, ta, aa, la, oa, c, o);
    let d1 = steps(code, c, n1);
    let ms = chain_matches(p, o, end);
    let next = if k < max { store_record(c.mem32, record_addr(buf, k), ms[0]) } else { c.mem32 };
    assert(d1.mem32 == next);
    assert(store_records(c.mem32, buf, k, max, ms) == store_records(next, buf, k + 1, max, ms.drop_first()));
    if link == NO_PATTERN {
        assert(ms.drop_first().len() == 0);
        assert(chain_written(p, o, c, d1));
    } else {
        assert(end_of(d1) == end);
        assert(reg(d1, 14) == buf && reg(d1, 3) == max);
        lemma_native_chain(p, ta, aa, la, oa, d1, link);
        let n2 = choose|n: nat| chain_written(p, link, d1, #[trigger] steps(code, d1, n));
        let d2 = steps(code, d1, n2);
        lemma_steps_add(code, c, n1, n2);
        assert(chain_written(p, link, d1, d2));
        assert(chain_written(p, o, c, steps(code, c, n1 + n2)));
    }
}


/// The byte step and the advance of the scan loop in `code` as the mapped
/// scan loop has them, and the epilogue's first instruction: their opcode
/// bytes, the class count, the transition table's address, the state mask,
/// the accept flag and the displacements of the jumps past the match and
/// back to the loop's top.
pub open spec fn loop_block(code: Seq<u8>, ta: u64) -> bool {
    &&& code.len() == 225
    &&& byte_at(code, 40) == 0x43
    &&& byte_at(code, 41) == 0x0F
    &&& byte_at(code, 42) == 0xB6
    &&& byte_at(code, 43) == 0x04
    &&& byte_at(code, 44) == 0x2C
    &&& byte_at(code, 45) == 0x41
    &&& byte_at(code, 46) == 0x69
    &&& byte_at(code, 47) == 0xD3
    &&& byte_at(code, 52) == 0x01
    &&& byte_at(code, 53) == 0xC2
    &&& byte_at(code, 54) == 0x48
    &&& byte_at(code, 55) == 0xBF
    &&& byte_at(code, 64) == 0x8B
    &&& byte_at(code, 65) == 0x04
    &&& byte_at(code, 66) == 0x97
    &&& byte_at(code, 67) == 0x89
    &&& byte_at(code, 68) == 0xC1
    &&& byte_at(code, 69) == 0x25
    &&& byte_at(code, 74) == 0x41
    &&& byte_at(code, 75) == 0x89
    &&& byte_at(code, 76) == 0xC3
    &&& byte_at(code, 77) == 0xF7
    &&& byte_at(code, 78) == 0xC1
    &&& byte_at(code, 83) == 0x0F
    &&& byte_at(code, 84) == 0x84
    &&& byte_at(code, 190) == 0x45
    &&& byte_at(code, 191) == 0x31
    &&& byte_at(code, 192) == 0xDB
    &&& byte_at(code, 193) == 0x49
    &&& byte_at(code, 194) == 0xFF
    &&& byte_at(code, 195) == 0xC5
    &&& byte_at(code, 196) == 0x43
    &&& byte_at(code, 197) == 0x0F
    &&& byte_at(code, 198) == 0x18
    &&& byte_at(code, 199) == 0x44
    &&& byte_at(code, 200) == 0x2C
    &&& byte_at(code, 201) == 0x40
    &&& byte_at(code, 202) == 0x49
    &&& byte_at(code, 203) == 0x39
    &&& byte_at(code, 204) == 0xED
    &&& byte_at(code, 205) == 0x0F
    &&& byte_at(code, 206) == 0x82
    &&& byte_at(code, 211) == 0x4C
    &&& byte_at(code, 212) == 0x89
    &&& byte_at(code, 213) == 0xF8
    &&& imm32(code, 48) == 256
    &&& imm64(code, 56) == ta
    &&& imm32(code, 70) == 0x7FFF_FFFF
    &&& imm32(code, 79) == 0x8000_0000
    &&& signed32(imm32(code, 85)) == 104
    &&& signed32(imm32(code, 207)) == -171
}

/// The mapped code has the byte step and the advance.
#[verifier::spinoff_prover]
#[verifier::rlimit(100)]
proof fn lemma_loop_code(ta: u64, aa: u64, la: u64, oa: u64, code: Seq<u8>)
    requires
        code == mapped_code(ta, aa, la, oa),
    ensures
        loop_block(code, ta),
{
    lemma_write_bytes(ta, aa, la, oa);
    vstd::bytes::lemma_auto_spec_u64_to_from_le_bytes();
    vstd::bytes::lemma_auto_spec_u32_to_from_le_bytes();
    lemma_le32_len(256);
    lemma_le32_len(0xFFFF_FFFF);
    lemma_le32_len(0x7FFF_FFFF);
    lemma_le32_len(0x8000_0000);
    lemma_rel32_len(SKIP_WRITE_PATCH as int, SKIP_WRITE_TARGET as int);
    lemma_rel32_len(ACCEPT_LOOP_PATCH as int, ACCEPT_LOOP as int);
    lemma_rel32_len(SKIP_MATCH_PATCH as int, SKIP_MATCH_TARGET as int);
    lemma_rel32_len(LOOP_PATCH as int, SCAN_TOP as int);
    lemma_rel32_len(EMPTY_PATCH as int, EPILOGUE as int);
    let c0 = scan_code(256);
    let c1 = put64(c0, TRANS_PATCH + 2, ta);
    let c2 = put64(c1, ACCEPT_PATCH + 2, aa);
    let c3 = put64(c2, PATLEN_PATCH + 2, la);
    let step_bytes = seg_step(256).subrange(0, 16) + spec_u64_to_le_bytes(ta) + seg_step(256).subrange(24, 45)
        + rel32(SKIP_MATCH_PATCH as int, SKIP_MATCH_TARGET as int);
    assert(c0.subrange(40, 89) =~= seg_step(256) + rel32(SKIP_MATCH_PATCH as int, SKIP_MATCH_TARGET as int));
    assert(c1.subrange(40, 89) =~= step_bytes);
    assert(c2.subrange(40, 89) =~= c1.subrange(40, 89));
    assert(c3.subrange(40, 89) =~= c2.subrange(40, 89));
    let w = code.subrange(40, 89);
    assert(w =~= c3.subrange(40, 89));
    let adv = seg_advance() + rel32(LOOP_PATCH as int, SCAN_TOP as int) + seg_epilogue();
    assert(c0.subrange(190, 225) =~= adv);
    assert(c1.subrange(190, 225) =~= adv);
    assert(c2.subrange(190, 225) =~= adv);
    assert(c3.subrange(190, 225) =~= adv);
    let v = code.subrange(190, 225);
    assert(v =~= adv);
    assert(w[0] == 0x43u8 && code[40] == 0x43u8);
    assert(w[1] == 0x0Fu8 && code[41] == 0x0Fu8);
    assert(w[2] == 0xB6u8 && code[42] == 0xB6u8);
    assert(w[3] == 0x04u8 && code[43] == 0x04u8);
    assert(w[4] == 0x2Cu8 && code[44] == 0x2Cu8);
    assert(w[5] == 0x41u8 && code[45] == 0x41u8);
    assert(w[6] == 0x69u8 && code[46] == 0x69u8);
    assert(w[7] == 0xD3u8 && code[47] == 0xD3u8);
    assert(w[12] == 0x01u8 && code[52] == 0x01u8);
    assert(w[13] == 0xC2u8 && code[53] == 0xC2u8);
    assert(w[14] == 0x48u8 && code[54] == 0x48u8);
    assert(w[15] == 0xBFu8 && code[55] == 0xBFu8);
    assert(w[24] == 0x8Bu8 && code[64] == 0x8Bu8);
    assert(w[25] == 0x04u8 && code[65] == 0x04u8);
    assert(w[26] == 0x97u8 && code[66] == 0x97u8);
    assert(w[27] == 0x89u8 && code[67] == 0x89u8);
    assert(w[28] == 0xC1u8 && code[68] == 0xC1u8);
    assert(w[29] == 0x25u8 && code[69] == 0x25u8);
    assert(w[34] == 0x41u8 && code[74] == 0x41u8);
    assert(w[35] == 0x89u8 && code[75] == 0x89u8);
    assert(w[36] == 0xC3u8 && code[76] == 0xC3u8);
    assert(w[37] == 0xF7u8 && code[77] == 0xF7u8);
    assert(w[38] == 0xC1u8 && code[78] == 0xC1u8);
    assert(w[43] == 0x0Fu8 && code[83] == 0x0Fu8);
    assert(w[44] == 0x84u8 && code[84] == 0x84u8);
    assert(v[0] == 0x45u8 && code[190] == 0x45u8);
    assert(v[1] == 0x31u8 && code[191] == 0x31u8);
    assert(v[2] == 0xDBu8 && code[192] == 0xDBu8);
    assert(v[3] == 0x49u8 && code[193] == 0x49u8);
    assert(v[4] == 0xFFu8 && code[194] == 0xFFu8);
    assert(v[5] == 0xC5u8 && code[195] == 0xC5u8);
    assert(v[6] == 0x43u8 && code[196] == 0x43u8);
    assert(v[7] == 0x0Fu8 && code[197] == 0x0Fu8);
    assert(v[8] == 0x18u8 && code[198] == 0x18u8);
    assert(v[9] == 0x44u8 && code[199] == 0x44u8);
    assert(v[10] == 0x2Cu8 && code[200] == 0x2Cu8);
    assert(v[11] == 0x40u8 && code[201] == 0x40u8);
    assert(v[12] == 0x49u8 && code[202] == 0x49u8);
    assert(v[13] == 0x39u8 && code[203] == 0x39u8);
    assert(v[14] == 0xEDu8 && code[204] == 0xEDu8);
    assert(v[15] == 0x0Fu8 && code[205] == 0x0Fu8);
    assert(v[16] == 0x82u8 && code[206] == 0x82u8);
    assert(v[21] == 0x4Cu8 && code[211] == 0x4Cu8);
    assert(v[22] == 0x89u8 && code[212] == 0x89u8);
    assert(v[23] == 0xF8u8 && code[213] == 0xF8u8);
    assert(code.subrange(48, 52) =~= w.subrange(8, 12));
    assert(w.subrange(8, 12) =~= le32(256));
    assert(code.subrange(56, 64) =~= w.subrange(16, 24));
    assert(w.subrange(16, 24) =~= spec_u64_to_le_bytes(ta));
    assert(code.subrange(70, 74) =~= w.subrange(30, 34));
    assert(w.subrange(30, 34) =~= le32(0x7FFF_FFFF));
    assert(code.subrange(79, 83) =~= w.subrange(39, 43));
    assert(w.subrange(39, 43) =~= le32(0x8000_0000));
    assert(code.subrange(85, 89) =~= w.subrange(45, 49));
    assert(w.subrange(45, 49) =~= rel32(SKIP_MATCH_PATCH as int, SKIP_MATCH_TARGET as int));
    assert(code.subrange(207, 211) =~= v.subrange(17, 21));
    assert(v.subrange(17, 21) =~= rel32(LOOP_PATCH as int, SCAN_TOP as int));
    assert((193int - 89int) as i32 as u32 == 104u32);
    let d: i32 = -171i32;
    assert(d as u32 == 0xFFFF_FF55u32) by (bit_vector)
        requires
            d == -171i32;
    assert((40int - 211int) as i32 == d);
}

/// `movzx eax, byte [r12 + r13]`.
#[verifier::spinoff_prover]
#[verifier::rlimit(100)]
proof fn lemma_insn_40(code: Seq<u8>, ta: u64, c: Cpu, v: int)
    requires
        loop_block(code, ta),
        regs_ok(c),
        c.pc == 40,
        0 <= v < 256,
        c.mem8[(reg(c, 12) + reg(c, 13)) % w64()] == v,
    ensures
        ({
            let d = step(code, c);
            &&& d.pc == 45
            &&& d.regs == c.regs.update(0, v)
            &&& d.mem32 == c.mem32
            &&& d.mem8 == c.mem8
        }),
{
    reveal(step);

}

/// `imul edx, r11d, 256`.
#[verifier::spinoff_prover]
#[verifier::rlimit(100)]
proof fn lemma_insn_45(code: Seq<u8>, ta: u64, c: Cpu)
    requires
        loop_block(code, ta),
        regs_ok(c),
        c.pc == 45,
        256 * reg(c, 11) < w32(),
    ensures
        ({
            let d = step(code, c);
            &&& d.pc == 52
            &&& d.regs == c.regs.update(2, 256 * reg(c, 11))
            &&& d.mem32 == c.mem32
            &&& d.mem8 == c.mem8
        }),
{
    reveal(step);
    assert(product(reg(c, 11) % w32(), 256, false) == 256 * reg(c, 11)) by {
        reveal(product);
    }
}

/// `add edx, eax`.
#[verifier::spinoff_prover]
#[verifier::rlimit(100)]
proof fn lemma_insn_52(code: Seq<u8>, ta: u64, c: Cpu)
    requires
        loop_block(code, ta),
        regs_ok(c),
        c.pc == 52,
        reg(c, 2) + reg(c, 0) < w32(),
    ensures
        ({
            let d = step(code, c);
            &&& d.pc == 54
            &&& d.regs == c.regs.update(2, reg(c, 2) + reg(c, 0))
            &&& d.mem32 == c.mem32
            &&& d.mem8 == c.mem8
        }),
{
    reveal(step);

}

/// `mov rdi, <transitions>`.
#[verifier::spinoff_prover]
#[verifier::rlimit(100)]
proof fn lemma_insn_54(code: Seq<u8>, ta: u64, c: Cpu)
    requires
        loop_block(code, ta),
        regs_ok(c),
        c.pc == 54,
    ensures
        ({
            let d = step(code, c);
            &&& d.pc == 64
            &&& d.regs == c.regs.update(7, ta as int)
            &&& d.mem32 == c.mem32
            &&& d.mem8 == c.mem8
        }),
{
    reveal(step);

}

/// `mov eax, [rdi + rdx*4]`.
#[verifier::spinoff_prover]
#[verifier::rlimit(100)]
proof fn lemma_insn_64(code: Seq<u8>, ta: u64, c: Cpu, v: int)
    requires
        loop_block(code, ta),
        regs_ok(c),
        c.pc == 64,
        reg(c, 7) == ta,
        0 <= v < w32(),
        c.mem32[word_addr(ta as int, reg(c, 2))] == v,
    ensures
        ({
            let d = step(code, c);
            &&& d.pc == 67
            &&& d.regs == c.regs.update(0, v)
            &&& d.mem32 == c.mem32
            &&& d.mem8 == c.mem8
        }),
{
    reveal(step);
    assert(word_addr(ta as int, reg(c, 2)) == (reg(c, 7) + scaled(reg(c, 2), 2)) % w64());
}

/// `mov ecx, eax`.
#[verifier::spinoff_prover]
#[verifier::rlimit(100)]
proof fn lemma_insn_67(code: Seq<u8>, ta: u64, c: Cpu)
    requires
        loop_block(code, ta),
        regs_ok(c),
        c.pc == 67,
        reg(c, 0) < w32(),
    ensures
        ({
            let d = step(code, c);
            &&& d.pc == 69
            &&& d.regs == c.regs.update(1, reg(c, 0))
            &&& d.mem32 == c.mem32
            &&& d.mem8 == c.mem8
        }),
{
    reveal(step);

}

/// `and eax, 0x7FFFFFFF`.
#[verifier::spinoff_prover]
#[verifier::rlimit(100)]
proof fn lemma_insn_69(code: Seq<u8>, ta: u64, c: Cpu)
    requires
        loop_block(code, ta),
        regs_ok(c),
        c.pc == 69,
        reg(c, 0) < w32(),
    ensures
        ({
            let d = step(code, c);
            &&& d.pc == 74
            &&& d.regs == c.regs.update(0, clean(reg(c, 0) as u32) as int)
            &&& d.mem32 == c.mem32
            &&& d.mem8 == c.mem8
        }),
{
    reveal(step);

}

/// `mov r11d, eax`.
#[verifier::spinoff_prover]
#[verifier::rlimit(100)]
proof fn lemma_insn_74(code: Seq<u8>, ta: u64, c: Cpu)
    requires
        loop_block(code, ta),
        regs_ok(c),
        c.pc == 74,
        reg(c, 0) < w32(),
    ensures
        ({
            let d = step(code, c);
            &&& d.pc == 77
            &&& d.regs == c.regs.update(11, reg(c, 0))
            &&& d.mem32 == c.mem32
            &&& d.mem8 == c.mem8
        }),
{
    reveal(step);

}

/// `test ecx, 0x80000000`.
#[verifier::spinoff_prover]
#[verifier::rlimit(100)]
proof fn lemma_insn_77(code: Seq<u8>, ta: u64, c: Cpu)
    requires
        loop_block(code, ta),
        regs_ok(c),
        c.pc == 77,
        reg(c, 1) < w32(),
    ensures
        ({
            let d = step(code, c);
            &&& d.pc == 83
            &&& d.regs == c.regs
            &&& d.mem32 == c.mem32
            &&& d.mem8 == c.mem8
            &&& d.zf == ((reg(c, 1) as u32) & ACCEPT_FLAG == 0)
        }),
{
    reveal(step);

}

/// `jz <advance>`.
#[verifier::spinoff_prover]
#[verifier::rlimit(100)]
proof fn lemma_insn_83(code: Seq<u8>, ta: u64, c: Cpu)
    requires
        loop_block(code, ta),
        regs_ok(c),
        c.pc == 83,
    ensures
        ({
            let d = step(code, c);
            &&& d.pc == if c.zf { 193int } else { 89int }
            &&& d.regs == c.regs
            &&& d.mem32 == c.mem32
            &&& d.mem8 == c.mem8
        }),
{
    reveal(step);

}

/// `mov r8d, r11d`.
#[verifier::spinoff_prover]
#[verifier::rlimit(100)]
proof fn lemma_insn_89(code: Seq<u8>, c: Cpu)
    requires
        chain_block(code),
        regs_ok(c),
        c.pc == 89,
        reg(c, 11) < w32(),
    ensures
        ({
            let d = step(code, c);
            &&& d.pc == 92
            &&& d.regs == c.regs.update(8, reg(c, 11))
            &&& d.mem32 == c.mem32
            &&& d.mem8 == c.mem8
        }),
{
    reveal(step);

}

/// `xor r11d, r11d`.
#[verifier::spinoff_prover]
#[verifier::rlimit(100)]
proof fn lemma_insn_190(code: Seq<u8>, ta: u64, c: Cpu)
    requires
        loop_block(code, ta),
        regs_ok(c),
        c.pc == 190,
    ensures
        ({
            let d = step(code, c);
            &&& d.pc == 193
            &&& d.regs == c.regs.update(11, 0)
            &&& d.mem32 == c.mem32
            &&& d.mem8 == c.mem8
        }),
{
    reveal(step);
    lemma_xor_self((reg(c, 11) % w32()) as u32);
}

/// `inc r13`.
#[verifier::spinoff_prover]
#[verifier::rlimit(100)]
proof fn lemma_insn_193(code: Seq<u8>, ta: u64, c: Cpu)
    requires
        loop_block(code, ta),
        regs_ok(c),
        c.pc == 193,
        reg(c, 13) + 1 < w64(),
    ensures
        ({
            let d = step(code, c);
            &&& d.pc == 196
            &&& d.regs == c.regs.update(13, reg(c, 13) + 1)
            &&& d.mem32 == c.mem32
            &&& d.mem8 == c.mem8
        }),
{
    reveal(step);

}

/// `prefetch`.
#[verifier::spinoff_prover]
#[verifier::rlimit(100)]
proof fn lemma_insn_196(code: Seq<u8>, ta: u64, c: Cpu)
    requires
        loop_block(code, ta),
        regs_ok(c),
        c.pc == 196,
    ensures
        ({
            let d = step(code, c);
            &&& d.pc == 202
            &&& d.regs == c.regs
            &&& d.mem32 == c.mem32
            &&& d.mem8 == c.mem8
        }),
{
    reveal(step);

}

/// `cmp r13, rbp`.
#[verifier::spinoff_prover]
#[verifier::rlimit(100)]
proof fn lemma_insn_202(code: Seq<u8>, ta: u64, c: Cpu)
    requires
        loop_block(code, ta),
        regs_ok(c),
        c.pc == 202,
    ensures
        ({
            let d = step(code, c);
            &&& d.pc == 205
            &&& d.regs == c.regs
            &&& d.mem32 == c.mem32
            &&& d.mem8 == c.mem8
            &&& d.cf == (reg(c, 13) < reg(c, 5))
        }),
{
    reveal(step);

}

/// `jb <loop top>`.
#[verifier::spinoff_prover]
#[verifier::rlimit(100)]
proof fn lemma_insn_205(code: Seq<u8>, ta: u64, c: Cpu)
    requires
        loop_block(code, ta),
        regs_ok(c),
        c.pc == 205,
    ensures
        ({
            let d = step(code, c);
            &&& d.pc == if c.cf { 40int } else { 211int }
            &&& d.regs == c.regs
            &&& d.mem32 == c.mem32
            &&& d.mem8 == c.mem8
        }),
{
    reveal(step);

}



/// Address of byte `i` of the input at `base`.
pub open spec fn byte_addr(base: int, i: int) -> int {
    (base + i) % w64()
}

/// Memory holds the bytes of `input` at `base`, one after another.
pub open spec fn holds_bytes(c: Cpu, base: int, input: Seq<u8>) -> bool {
    forall|i: int| 0 <= i < input.len() ==> c.mem8[#[trigger] byte_addr(base, i)] == input[i] as int
}

/// The matches that byte `pos` of `input` reports: those of the chain of
/// the state it leads to, when that state has a pattern.
pub open spec fn byte_matches(p: Program, input: Seq<u8>, pos: int) -> Seq<(u32, u32, u32)> {
    let t = next_state(p, run(p, input.take(pos)).0, input[pos]);
    if accept_of(p, t) != NO_PATTERN { chain_matches(p, t, (pos + 1) as u32) } else { Seq::empty() }
}

/// The machine at the top of the scan loop for the byte at r13 of `input`
/// (at r12, of rbp bytes), in the state that `run` reaches before it, with
/// the program's tables in memory and the match buffer apart from them.
pub open spec fn scan_ready(p: Program, ta: u64, aa: u64, la: u64, oa: u64, flagged: Seq<u32>, input: Seq<u8>, c: Cpu) -> bool {
    &&& program_wf(p)
    &&& p.class_count == 256
    &&& p.accept.len() * 256 <= w32()
    &&& flags_match(flagged, p)
    &&& regs_ok(c)
    &&& c.pc == SCAN_TOP
    &&& holds_words(c, ta as int, flagged)
    &&& buffer_apart(ta as int, flagged.len() as int, reg(c, 14), reg(c, 3))
    &&& tables_ok(p, aa, la, oa, c)
    &&& holds_bytes(c, reg(c, 12), input)
    &&& reg(c, 5) == input.len()
    &&& reg(c, 13) < input.len()
    &&& reg(c, 11) == run(p, input.take(reg(c, 13))).0
}

/// Stored records leave alone the words of a table apart from the buffer.
proof fn lemma_holds_after_records(c: Cpu, d: Cpu, base: int, s: Seq<u32>, k: int, ms: Seq<(u32, u32, u32)>)
    requires
        holds_words(c, base, s),
        buffer_apart(base, s.len() as int, reg(c, 14), reg(c, 3)),
        0 <= k,
        d.mem32 == store_records(c.mem32, reg(c, 14), k, reg(c, 3), ms),
        reg(d, 14) == reg(c, 14),
        reg(d, 3) == reg(c, 3),
    ensures
        holds_words(d, base, s),
    decreases ms.len(),
{
    if ms.len() > 0 {
        let buf = reg(c, 14);
        let max = reg(c, 3);
        let next = if k < max { store_record(c.mem32, record_addr(buf, k), ms[0]) } else { c.mem32 };
        let e = Cpu { mem32: next, ..c };
        if k < max {
            assert(apart(base, s.len() as int, record_addr(buf, k)));
            lemma_holds_after_store(c, e, base, s, record_addr(buf, k), ms[0]);
        }
        lemma_holds_after_records(e, d, base, s, k + 1, ms.drop_first());
    }
}

/// Storing `a` then `b` is storing `a + b`.
proof fn lemma_store_records_append(mem: Map<int, int>, buf: int, k: int, max: int, a: Seq<(u32, u32, u32)>, b: Seq<(u32, u32, u32)>)
    ensures
        store_records(store_records(mem, buf, k, max, a), buf, k + a.len(), max, b)
            == store_records(mem, buf, k, max, a + b),
    decreases a.len(),
{
    if a.len() > 0 {
        let next = if k < max { store_record(mem, record_addr(buf, k), a[0]) } else { mem };
        lemma_store_records_append(next, buf, k + 1, max, a.drop_first(), b);
        assert((a + b).drop_first() =~= a.drop_first() + b);
        assert((a + b)[0] == a[0]);
    } else {
        assert(a + b =~= b);
    }
}

/// A state without the accept flag's bit is below it.
proof fn lemma_clean_bound(t: u32)
    ensures
        clean(t) <= 0x7FFF_FFFF,
{
    assert(t & 0x7FFF_FFFFu32 <= 0x7FFF_FFFFu32) by (bit_vector);
}


/// The byte step of the scan loop: read the byte at r13, look up the
/// flagged transition from the state in r11, keep its target in r11, and
/// go on to the chain loop's head if the target has a pattern, else to the
/// advance.
#[verifier::spinoff_prover]
#[verifier::rlimit(100)]
proof fn lemma_byte_lookup(p: Program, ta: u64, aa: u64, la: u64, oa: u64, flagged: Seq<u32>, input: Seq<u8>, c: Cpu) -> (n: nat)
    requires
        scan_ready(p, ta, aa, la, oa, flagged, input, c),
    ensures
        ({
            let d = steps(mapped_code(ta, aa, la, oa), c, n);
            let t = next_state(p, reg(c, 11) as u32, input[reg(c, 13)]);
            &&& d.pc == if accept_of(p, t) != NO_PATTERN { 89int } else { 193int }
            &&& reg(d, 11) == t
            &&& d.mem32 == c.mem32
            &&& d.mem8 == c.mem8
            &&& regs_ok(d)
            &&& forall|r: int| 0 <= r < 16 && r != 0 && r != 1 && r != 2 && r != 7 && r != 11
                ==> #[trigger] reg(d, r) == reg(c, r)
        }),
{
    let code = mapped_code(ta, aa, la, oa);
    lemma_loop_code(ta, aa, la, oa, code);
    let pos = reg(c, 13);
    let s = reg(c, 11);
    lemma_run_len(p, input.take(pos));
    let b = input[pos];
    let n = p.accept.len();
    assert(s * p.class_count == 256 * s) by (nonlinear_arith)
        requires
            p.class_count == 256;
    assert(p.transitions.len() == 256 * n) by (nonlinear_arith)
        requires
            p.transitions.len() == n * p.class_count,
            p.class_count == 256;
    let idx = 256 * s + b;
    assert(idx < p.transitions.len());
    let v = flagged[idx];
    let t = next_state(p, s as u32, b);
    assert(clean(v) == t);
    assert(c.mem8[byte_addr(reg(c, 12), pos)] == b);
    assert(steps(code, c, 0) == c);
    lemma_insn_40(code, ta, c, b as int);
    let c1 = step(code, c);
    assert(steps(code, c, 1) == c1);
    lemma_insn_45(code, ta, c1);
    let c2 = step(code, c1);
    assert(steps(code, c, 2) == c2);
    lemma_insn_52(code, ta, c2);
    let c3 = step(code, c2);
    assert(steps(code, c, 3) == c3);
    lemma_insn_54(code, ta, c3);
    let c4 = step(code, c3);
    assert(steps(code, c, 4) == c4);
    assert(reg(c4, 2) == idx);
    assert(c4.mem32[word_addr(ta as int, idx)] == v);
    lemma_insn_64(code, ta, c4, v as int);
    let c5 = step(code, c4);
    assert(steps(code, c, 5) == c5);
    lemma_insn_67(code, ta, c5);
    let c6 = step(code, c5);
    assert(steps(code, c, 6) == c6);
    lemma_insn_69(code, ta, c6);
    let c7 = step(code, c6);
    assert(steps(code, c, 7) == c7);
    lemma_insn_74(code, ta, c7);
    let c8 = step(code, c7);
    assert(steps(code, c, 8) == c8);
    lemma_insn_77(code, ta, c8);
    let c9 = step(code, c8);
    assert(steps(code, c, 9) == c9);
    lemma_insn_83(code, ta, c9);
    let c10 = step(code, c9);
    assert(steps(code, c, 10) == c10);
    assert(reg(c10, 11) == t);
    10
}

/// The advance: the next position, and back to the loop's top unless the
/// input has ended.
#[verifier::spinoff_prover]
#[verifier::rlimit(100)]
proof fn lemma_advance(ta: u64, aa: u64, la: u64, oa: u64, c: Cpu) -> (n: nat)
    requires
        regs_ok(c),
        c.pc == 193,
        reg(c, 13) + 1 < w64(),
    ensures
        ({
            let d = steps(mapped_code(ta, aa, la, oa), c, n);
            &&& d.pc == if reg(c, 13) + 1 < reg(c, 5) { SCAN_TOP as int } else { EPILOGUE as int }
            &&& d.regs == c.regs.update(13, reg(c, 13) + 1)
            &&& d.mem32 == c.mem32
            &&& d.mem8 == c.mem8
        }),
{
    let code = mapped_code(ta, aa, la, oa);
    lemma_loop_code(ta, aa, la, oa, code);
    assert(steps(code, c, 0) == c);
    lemma_insn_193(code, ta, c);
    let c1 = step(code, c);
    assert(steps(code, c, 1) == c1);
    lemma_insn_196(code, ta, c1);
    let c2 = step(code, c1);
    assert(steps(code, c, 2) == c2);
    lemma_insn_202(code, ta, c2);
    let c3 = step(code, c2);
    assert(steps(code, c, 3) == c3);
    lemma_insn_205(code, ta, c3);
    let c4 = step(code, c3);
    assert(steps(code, c, 4) == c4);
    4
}


/// From the chain loop's head with an accepting target in r11: the chain's
/// matches stored and counted, then the restart from state 0.
#[verifier::spinoff_prover]
#[verifier::rlimit(100)]
proof fn lemma_byte_chain(p: Program, ta: u64, aa: u64, la: u64, oa: u64, c: Cpu, t: u32) -> (n: nat)
    requires
        program_wf(p),
        t != NO_PATTERN,
        (t as int) < p.accept.len(),
        p.accept[t as int] != NO_PATTERN,
        regs_ok(c),
        c.pc == 89,
        reg(c, 11) == t,
        tables_ok(p, aa, la, oa, c),
        reg(c, 15) + p.max_chain < w64(),
    ensures
        ({
            let d = steps(mapped_code(ta, aa, la, oa), c, n);
            let ms = chain_matches(p, t, end_of(c));
            &&& d.pc == 193
            &&& reg(d, 11) == 0
            &&& reg(d, 15) == reg(c, 15) + ms.len()
            &&& d.mem32 == store_records(c.mem32, reg(c, 14), reg(c, 15), reg(c, 3), ms)
            &&& d.mem8 == c.mem8
            &&& regs_ok(d)
            &&& reg(d, 3) == reg(c, 3)
            &&& reg(d, 5) == reg(c, 5)
            &&& reg(d, 12) == reg(c, 12)
            &&& reg(d, 13) == reg(c, 13)
            &&& reg(d, 14) == reg(c, 14)
        }),
{
    let code = mapped_code(ta, aa, la, oa);
    lemma_chain_code(ta, aa, la, oa, code);
    lemma_loop_code(ta, aa, la, oa, code);
    lemma_insn_89(code, c);
    let d2 = step(code, c);
    assert(steps(code, c, 1) == d2) by {
        assert(steps(code, c, 0) == c);
    }
    assert(tables_ok(p, aa, la, oa, d2));
    lemma_chain_len(p, t, p.max_chain);
    lemma_native_chain(p, ta, aa, la, oa, d2, t);
    let n3 = choose|n: nat| chain_written(p, t, d2, #[trigger] steps(code, d2, n));
    let d3 = steps(code, d2, n3);
    assert(chain_written(p, t, d2, d3));
    lemma_steps_add(code, c, 1, n3);
    assert(reg(d3, 3) == reg(c, 3) && reg(d3, 5) == reg(c, 5) && reg(d3, 12) == reg(c, 12));
    assert(reg(d3, 13) == reg(c, 13) && reg(d3, 14) == reg(c, 14) && reg(d3, 11) == t);
    lemma_insn_190(code, ta, d3);
    let d4 = step(code, d3);
    assert(steps(code, d3, 1) == d4) by {
        assert(steps(code, d3, 0) == d3);
    }
    lemma_steps_add(code, c, 1 + n3, 1);
    1 + n3 + 1
}

/// One byte of the native scan loop does what `run` does with it: from the
/// loop's top at position r13 in the state that `run` reaches before that
/// byte, it stores the matches the byte reports as records from number r15
/// on, as far as the buffer holds them, counts them all in r15, moves r11 to
/// the state `run` reaches after the byte, and goes back to the loop's top
/// for the next byte, or to the epilogue after the last.
#[verifier::spinoff_prover]
#[verifier::rlimit(100)]
pub proof fn lemma_native_byte(p: Program, ta: u64, aa: u64, la: u64, oa: u64, flagged: Seq<u32>, input: Seq<u8>, c: Cpu) -> (n: nat)
    requires
        scan_ready(p, ta, aa, la, oa, flagged, input, c),
        reg(c, 15) + p.max_chain < w64(),
    ensures
        ({
            let d = steps(mapped_code(ta, aa, la, oa), c, n);
            let pos = reg(c, 13);
            let ms = byte_matches(p, input, pos);
            &&& d.pc == if pos + 1 < input.len() { SCAN_TOP as int } else { EPILOGUE as int }
            &&& reg(d, 13) == pos + 1
            &&& reg(d, 11) == run(p, input.take(pos + 1)).0
            &&& reg(d, 15) == reg(c, 15) + ms.len()
            &&& d.mem32 == store_records(c.mem32, reg(c, 14), reg(c, 15), reg(c, 3), ms)
            &&& d.mem8 == c.mem8
            &&& regs_ok(d)
            &&& reg(d, 3) == reg(c, 3)
            &&& reg(d, 5) == reg(c, 5)
            &&& reg(d, 12) == reg(c, 12)
            &&& reg(d, 14) == reg(c, 14)
        }),
{
    let code = mapped_code(ta, aa, la, oa);
    let pos = reg(c, 13);
    let k = reg(c, 15);
    let s = reg(c, 11);
    let t = next_state(p, s as u32, input[pos]);
    let ms = byte_matches(p, input, pos);
    lemma_run_step(p, input, pos);
    lemma_run_len(p, input.take(pos));
    let n1 = lemma_byte_lookup(p, ta, aa, la, oa, flagged, input, c);
    let d1 = steps(code, c, n1);
    assert(reg(d1, 3) == reg(c, 3) && reg(d1, 5) == reg(c, 5) && reg(d1, 12) == reg(c, 12));
    assert(reg(d1, 13) == pos && reg(d1, 14) == reg(c, 14) && reg(d1, 15) == k);
    let ghost mut m: nat = n1;
    let ghost mut e = d1;
    if accept_of(p, t) != NO_PATTERN {
        lemma_clean_bound(next_raw(p, s as u32, input[pos]));
        assert(tables_ok(p, aa, la, oa, d1));
        let n2 = lemma_byte_chain(p, ta, aa, la, oa, d1, t);
        lemma_steps_add(code, c, n1, n2);
        m = n1 + n2;
        e = steps(code, d1, n2);
        let q: u64 = pos as u64;
        assert(((q as int + 1) % w32()) as u32 == (q as int + 1) as u32) by (bit_vector)
            requires
                q < 0xFFFF_FFFF_FFFF_FFFFu64;
        assert(end_of(d1) == (pos + 1) as u32);
        assert(e.mem32 == store_records(c.mem32, reg(c, 14), k, reg(c, 3), ms));
    } else {
        assert(ms =~= Seq::<(u32, u32, u32)>::empty());
        assert(store_records(c.mem32, reg(c, 14), k, reg(c, 3), ms) == c.mem32);
    }
    assert(steps(code, c, m) == e);
    let n2 = lemma_advance(ta, aa, la, oa, e);
    lemma_steps_add(code, c, m, n2);
    m + n2
}


/// The rest of the scan: from the loop's top at any position, with the
/// matches of the input before it stored (from record `k0` on, over the
/// memory `mem0`) and counted, the loop ends at the epilogue with the
/// matches of the whole input stored and counted.
#[verifier::spinoff_prover]
#[verifier::rlimit(100)]
proof fn lemma_native_loop(
    p: Program,
    ta: u64,
    aa: u64,
    la: u64,
    oa: u64,
    flagged: Seq<u32>,
    input: Seq<u8>,
    mem0: Map<int, int>,
    k0: int,
    c: Cpu,
)
    requires
        scan_ready(p, ta, aa, la, oa, flagged, input, c),
        0 <= k0,
        k0 + input.len() * p.max_chain < w64(),
        reg(c, 15) == k0 + run(p, input.take(reg(c, 13))).1.len(),
        c.mem32 == store_records(mem0, reg(c, 14), k0, reg(c, 3), run(p, input.take(reg(c, 13))).1),
    ensures
        exists|n: nat| {
            let d = #[trigger] steps(mapped_code(ta, aa, la, oa), c, n);
            &&& d.pc == EPILOGUE
            &&& d.mem32 == store_records(mem0, reg(c, 14), k0, reg(c, 3), run(p, input).1)
            &&& reg(d, 15) == k0 + run(p, input).1.len()
        },
    decreases input.len() - reg(c, 13),
{
    let code = mapped_code(ta, aa, la, oa);
    let pos = reg(c, 13);
    let buf = reg(c, 14);
    let max = reg(c, 3);
    let pre = run(p, input.take(pos)).1;
    let bm = byte_matches(p, input, pos);
    lemma_run_step(p, input, pos);
    lemma_run_len(p, input.take(pos + 1));
    assert(run(p, input.take(pos + 1)).1 == pre + bm);
    vstd::arithmetic::mul::lemma_mul_inequality(pos + 1, input.len() as int, p.max_chain as int);
    vstd::arithmetic::mul::lemma_mul_is_distributive_add_other_way(p.max_chain as int, pos, 1);
    lemma_run_len(p, input.take(pos));
    assert(input.take(pos).len() == pos);
    assert(reg(c, 15) + p.max_chain < w64());
    let n1 = lemma_native_byte(p, ta, aa, la, oa, flagged, input, c);
    let d1 = steps(code, c, n1);
    lemma_store_records_append(mem0, buf, k0, max, pre, bm);
    assert(d1.mem32 == store_records(mem0, buf, k0, max, pre + bm));
    if pos + 1 < input.len() {
        lemma_holds_after_records(c, d1, ta as int, flagged, reg(c, 15), bm);
        lemma_holds_after_records(c, d1, aa as int, p.accept, reg(c, 15), bm);
        lemma_holds_after_records(c, d1, la as int, p.pattern_lengths, reg(c, 15), bm);
        lemma_holds_after_records(c, d1, oa as int, p.links, reg(c, 15), bm);
        assert(holds_bytes(d1, reg(d1, 12), input));
        assert(scan_ready(p, ta, aa, la, oa, flagged, input, d1));
        lemma_native_loop(p, ta, aa, la, oa, flagged, input, mem0, k0, d1);
        let n2 = choose|n: nat| {
            let d = #[trigger] steps(code, d1, n);
            &&& d.pc == EPILOGUE
            &&& d.mem32 == store_records(mem0, reg(d1, 14), k0, reg(d1, 3), run(p, input).1)
            &&& reg(d, 15) == k0 + run(p, input).1.len()
        };
        lemma_steps_add(code, c, n1, n2);
        assert(steps(code, c, n1 + n2) == steps(code, d1, n2));
    } else {
        assert(input.take(pos + 1) =~= input);
        assert(steps(code, c, n1) == d1);
    }
}

/// What the native scan loop computes is `scan_matches`: run from the top of
/// the loop at the first byte of a nonempty input (in memory at r12, of rbp
/// bytes), in state 0 with no match counted, on a machine whose memory holds
/// the compiled tables (the flagged transitions at `ta`, the pattern of each
/// state at `aa`, the pattern lengths at `la`, the output links at `oa`) and
/// a match buffer of rbx records at r14 apart from them, it reaches the
/// epilogue, which returns r15, with every match that `scan_matches` reports
/// for the input counted in r15 and stored in order as the records of the
/// buffer (pattern, start, end), as many as it holds; no other word of
/// memory changes.
pub proof fn lemma_native_scan(
    p: Program,
    ta: u64,
    aa: u64,
    la: u64,
    oa: u64,
    flagged: Seq<u32>,
    input: Seq<u8>,
    c: Cpu,
)
    requires
        scan_ready(p, ta, aa, la, oa, flagged, input, c),
        reg(c, 13) == 0,
        reg(c, 15) == 0,
        input.len() * p.max_chain < w64(),
    ensures
        exists|n: nat| {
            let d = #[trigger] steps(mapped_code(ta, aa, la, oa), c, n);
            &&& d.pc == EPILOGUE
            &&& d.mem32 == store_records(c.mem32, reg(c, 14), 0, reg(c, 3), scan_matches(p, input))
            &&& reg(d, 15) == scan_matches(p, input).len()
        },
{
    assert(input.take(0) =~= Seq::<u8>::empty());
    assert(run(p, input.take(0)).1.len() == 0);
    assert(store_records(c.mem32, reg(c, 14), 0, reg(c, 3), run(p, input.take(0)).1) == c.mem32);
    lemma_native_loop(p, ta, aa, la, oa, flagged, input, c.mem32, 0, c);
}

} // verus!
