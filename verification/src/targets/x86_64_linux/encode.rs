//! Each method appends exactly one instruction. Choosing between two
//! encodings of the same value is [`super::lower`]'s job, not this module's.

use crate::targets::bytes;
use vstd::prelude::*;

verus! {

#[derive(Clone, Copy, Debug, PartialEq, Eq, Structural)]
pub enum Reg {
    Rax,
    Rcx,
    Rdx,
    Rsi,
    Rdi,
    R11,
}

impl Reg {
    /// The number the machine has for it.
    pub open spec fn number(self) -> nat {
        match self {
            Reg::Rax => 0,
            Reg::Rcx => 1,
            Reg::Rdx => 2,
            Reg::Rsi => 6,
            Reg::Rdi => 7,
            Reg::R11 => 11,
        }
    }

    /// The low three bits, which is all `ModRM` and `+r` have room for.
    pub open spec fn low(self) -> nat {
        self.number() % 8
    }

    pub open spec fn extended(self) -> bool {
        self.number() >= 8
    }

    pub fn index(self) -> (index: usize)
        ensures
            index == self.number(),
    {
        match self {
            Reg::Rax => 0,
            Reg::Rcx => 1,
            Reg::Rdx => 2,
            Reg::Rsi => 6,
            Reg::Rdi => 7,
            Reg::R11 => 11,
        }
    }

    fn low_bits(self) -> (bits: u8)
        ensures
            bits == self.low(),
    {
        (self.index() % 8) as u8
    }

    fn is_extended(self) -> (extended: bool)
        ensures
            extended == self.extended(),
    {
        self.index() >= 8
    }
}

/// A `ModRM` byte that names two registers.
pub open spec fn modrm(reg: Reg, rm: Reg) -> u8 {
    (0xC0 + 8 * reg.low() + rm.low()) as u8
}

fn direct(reg: Reg, rm: Reg) -> (byte: u8)
    ensures
        byte == modrm(reg, rm),
{
    0xC0 + 8 * reg.low_bits() + rm.low_bits()
}

/// `reg` is `None` for the forms with no `ModRM` byte. Omitted entirely
/// when every bit would be zero.
pub open spec fn rex(wide: bool, reg: Option<Reg>, rm: Reg) -> Seq<u8> {
    let w = if wide {
        8int
    } else {
        0
    };
    let r = if reg matches Some(reg) && reg.extended() {
        4int
    } else {
        0
    };
    let b = if rm.extended() {
        1int
    } else {
        0
    };
    if w + r + b == 0 {
        seq![]
    } else {
        seq![(0x40 + w + r + b) as u8]
    }
}

/// What a signed number is in 32 bits.
pub open spec fn pattern(value: i32) -> nat {
    (value as int % 0x1_0000_0000) as nat
}

fn as_pattern(value: i32) -> (bits: u32)
    ensures
        bits == pattern(value),
{
    if value >= 0 {
        value as u32
    } else {
        assert(value as int % 0x1_0000_0000 == value + 0x1_0000_0000);
        u32::MAX - (-(value + 1)) as u32
    }
}

/// Four bytes that are filled in later.
pub open spec fn hole() -> Seq<u8> {
    bytes::little_endian(0, 4)
}

/// A move between a register and the stack. The `ModRM` `rm` of 100 means a
/// SIB byte follows; 0x24 is rsp as the base with no index.
pub open spec fn slot(opcode: u8, reg: Reg, disp: u32) -> Seq<u8> {
    seq![
        if reg.extended() {
            0x4Cu8
        } else {
            0x48u8
        },
        opcode,
        (0x84 + 8 * reg.low()) as u8,
        0x24u8,
    ] + bytes::little_endian(disp as nat, 4)
}

/// The shortest zeroing, and it clears all 64 bits despite naming the
/// 32-bit half.
pub open spec fn xor_self(dst: Reg) -> Seq<u8> {
    rex(false, Some(dst), dst) + seq![0x31u8, modrm(dst, dst)]
}

pub open spec fn mov_reg(dst: Reg, src: Reg, wide: bool) -> Seq<u8> {
    rex(wide, Some(src), dst) + seq![0x89u8, modrm(src, dst)]
}

/// Sign-extends to a full 64-bit stack slot.
pub open spec fn push_imm8(value: i8) -> Seq<u8> {
    seq![0x6Au8, (value as int % 256) as u8]
}

pub open spec fn pop(dst: Reg) -> Seq<u8> {
    rex(false, None, dst) + seq![(0x58 + dst.low()) as u8]
}

/// Sign-extended to 64 bits, for negative constants.
pub open spec fn mov_sext_imm32(dst: Reg, value: i32) -> Seq<u8> {
    rex(true, None, dst) + seq![0xC7u8, modrm(Reg::Rax, dst)] + bytes::little_endian(pattern(value), 4)
}

/// The only form that carries a full 64-bit value.
pub open spec fn mov_imm64(dst: Reg, value: u64) -> Seq<u8> {
    seq![if dst.extended() { 0x49u8 } else { 0x48u8 }, (0xB8 + dst.low()) as u8] + bytes::little_endian(value as nat, 8)
}

pub open spec fn syscall() -> Seq<u8> {
    seq![0x0Fu8, 0x05u8]
}

/// `sub rsp, size`, to open the frame the slots live in.
pub open spec fn open_frame(size: u32) -> Seq<u8> {
    seq![0x48u8, 0x81u8, 0xECu8] + bytes::little_endian(size as nat, 4)
}

/// `add rsp, size`, to close it again.
pub open spec fn close_frame(size: u32) -> Seq<u8> {
    seq![0x48u8, 0x81u8, 0xC4u8] + bytes::little_endian(size as nat, 4)
}

pub open spec fn ret() -> Seq<u8> {
    seq![0xC3u8]
}

/// `dst = [rsp + disp]`, and its mirror.
pub open spec fn load_slot(dst: Reg, disp: u32) -> Seq<u8> {
    slot(0x8B, dst, disp)
}

pub open spec fn store_slot(src: Reg, disp: u32) -> Seq<u8> {
    slot(0x89, src, disp)
}

/// `rax = [rcx + disp]`, a whole word or one byte zero-extended, and their
/// mirrors.
pub open spec fn load_word(disp: i32) -> Seq<u8> {
    seq![0x48u8, 0x8Bu8, 0x81u8] + bytes::little_endian(pattern(disp), 4)
}

pub open spec fn load_byte(disp: i32) -> Seq<u8> {
    seq![0x0Fu8, 0xB6u8, 0x81u8] + bytes::little_endian(pattern(disp), 4)
}

pub open spec fn store_word(disp: i32) -> Seq<u8> {
    seq![0x48u8, 0x89u8, 0x81u8] + bytes::little_endian(pattern(disp), 4)
}

pub open spec fn store_byte(disp: i32) -> Seq<u8> {
    seq![0x88u8, 0x81u8] + bytes::little_endian(pattern(disp), 4)
}

/// `dst = dst op src` for the one-byte ALU forms.
pub open spec fn alu(opcode: u8, dst: Reg, src: Reg) -> Seq<u8> {
    rex(true, Some(src), dst) + seq![opcode, modrm(src, dst)]
}

/// `dst = 1` when the flags satisfy `cc`, else 0, zero-extended.
pub open spec fn set_if(cc: u8, dst: Reg) -> Seq<u8> {
    rex(false, None, dst) + seq![0x0Fu8, (0x90 + cc) as u8, (0xC0 + dst.low()) as u8] + rex(false, Some(dst), dst) + seq![0x0Fu8, 0xB6u8, modrm(dst, dst)]
}

pub open spec fn mov_imm32(dst: Reg, value: u32) -> Seq<u8> {
    rex(false, None, dst) + seq![(0xB8 + dst.low()) as u8] + bytes::little_endian(value as nat, 4)
}

pub open spec fn lea_rip(dst: Reg) -> Seq<u8> {
    rex(true, Some(dst), Reg::Rax) + seq![0x8Du8, (8 * dst.low() + 5) as u8] + hole()
}

pub open spec fn jump() -> Seq<u8> {
    seq![0xE9u8] + hole()
}

pub open spec fn jump_if(cc: u8) -> Seq<u8> {
    seq![0x0Fu8, (0x80 + cc) as u8] + hole()
}

pub open spec fn call() -> Seq<u8> {
    seq![0xE8u8] + hole()
}

/// The displacement from a hole to a target. It counts from the end of the
/// instruction, which is the end of the hole.
pub open spec fn away(hole: nat, target: nat) -> int {
    target - (hole + 4)
}

/// Code with a hole filled in.
pub open spec fn patched(code: Seq<u8>, hole: nat, displacement: int) -> Seq<u8> {
    let filling = bytes::little_endian((displacement % 0x1_0000_0000) as nat, 4);
    Seq::new(
        code.len(),
        |i: int|
            if hole <= i < hole + 4 {
                filling[i - hole]
            } else {
                code[i]
            },
    )
}

#[derive(Debug)]
pub struct Encoder {
    bytes: Vec<u8>,
}

impl View for Encoder {
    type V = Seq<u8>;

    closed spec fn view(&self) -> Seq<u8> {
        self.bytes@
    }
}

impl Default for Encoder {
    fn default() -> (encoder: Self)
        ensures
            encoder@ == Seq::<u8>::empty(),
    {
        Encoder { bytes: Vec::new() }
    }
}

impl Encoder {
    pub fn finish(self) -> (code: Vec<u8>)
        ensures
            code@ == self@,
    {
        self.bytes
    }

    /// Code that is already encoded.
    pub fn append(&mut self, code: &[u8])
        ensures
            final(self)@ == old(self)@ + code@,
    {
        self.bytes.extend_from_slice(code);
        assert(self@ =~= old(self)@ + code@);
    }

    pub fn here(&self) -> (at: usize)
        ensures
            at == self@.len(),
    {
        self.bytes.len()
    }

    /// The shortest zeroing, and it clears all 64 bits despite naming the
    /// 32-bit half.
    pub fn xor_self(&mut self, dst: Reg)
        ensures
            final(self)@ == old(self)@ + xor_self(dst),
    {
        self.rex(false, Some(dst), dst);
        self.two(0x31, direct(dst, dst));
        assert(self@ =~= old(self)@ + xor_self(dst));
    }

    pub fn mov_reg(&mut self, dst: Reg, src: Reg, wide: bool)
        ensures
            final(self)@ == old(self)@ + mov_reg(dst, src, wide),
    {
        self.rex(wide, Some(src), dst);
        self.two(0x89, direct(src, dst));
        assert(self@ =~= old(self)@ + mov_reg(dst, src, wide));
    }

    /// Sign-extends to a full 64-bit stack slot.
    pub fn push_imm8(&mut self, value: i8)
        ensures
            final(self)@ == old(self)@ + push_imm8(value),
    {
        let byte: i16 = if value < 0 {
            value as i16 + 256
        } else {
            value as i16
        };
        self.two(0x6A, byte as u8);
        assert(self@ =~= old(self)@ + push_imm8(value));
    }

    pub fn pop(&mut self, dst: Reg)
        ensures
            final(self)@ == old(self)@ + pop(dst),
    {
        self.rex(false, None, dst);
        self.one(0x58 + dst.low_bits());
        assert(self@ =~= old(self)@ + pop(dst));
    }

    /// Sign-extended to 64 bits, for negative constants.
    pub fn mov_sext_imm32(&mut self, dst: Reg, value: i32)
        ensures
            final(self)@ == old(self)@ + mov_sext_imm32(dst, value),
    {
        // ModRM.reg holds the opcode extension /0, not a register.
        self.rex(true, None, dst);
        self.two(0xC7, direct(Reg::Rax, dst));
        self.le32(as_pattern(value));
        assert(self@ =~= old(self)@ + mov_sext_imm32(dst, value));
    }

    /// The only form that carries a full 64-bit value.
    pub fn mov_imm64(&mut self, dst: Reg, value: u64)
        ensures
            final(self)@ == old(self)@ + mov_imm64(dst, value),
    {
        self.two(if dst.is_extended() { 0x49 } else { 0x48 }, 0xB8 + dst.low_bits());
        self.le64(value);
        assert(self@ =~= old(self)@ + mov_imm64(dst, value));
    }

    pub fn syscall(&mut self)
        ensures
            final(self)@ == old(self)@ + syscall(),
    {
        self.two(0x0F, 0x05);
        assert(self@ =~= old(self)@ + syscall());
    }

    /// `sub rsp, size`, to open the frame the slots live in.
    pub fn open_frame(&mut self, size: u32)
        ensures
            final(self)@ == old(self)@ + open_frame(size),
    {
        self.two(0x48, 0x81);
        self.one(0xEC);
        self.le32(size);
        assert(self@ =~= old(self)@ + open_frame(size));
    }

    /// `add rsp, size`, to close it again.
    pub fn close_frame(&mut self, size: u32)
        ensures
            final(self)@ == old(self)@ + close_frame(size),
    {
        self.two(0x48, 0x81);
        self.one(0xC4);
        self.le32(size);
        assert(self@ =~= old(self)@ + close_frame(size));
    }

    pub fn ret(&mut self)
        ensures
            final(self)@ == old(self)@ + ret(),
    {
        self.one(0xC3);
        assert(self@ =~= old(self)@ + ret());
    }

    /// `dst = [rsp + disp]`, and its mirror.
    pub fn load_slot(&mut self, dst: Reg, disp: u32)
        ensures
            final(self)@ == old(self)@ + load_slot(dst, disp),
    {
        self.slot(0x8B, dst, disp);
        assert(self@ =~= old(self)@ + load_slot(dst, disp));
    }

    pub fn store_slot(&mut self, src: Reg, disp: u32)
        ensures
            final(self)@ == old(self)@ + store_slot(src, disp),
    {
        self.slot(0x89, src, disp);
        assert(self@ =~= old(self)@ + store_slot(src, disp));
    }

    /// `rax = [rcx + disp]`, a whole word or one byte zero-extended, and their
    /// mirrors.
    pub fn load_word(&mut self, disp: i32)
        ensures
            final(self)@ == old(self)@ + load_word(disp),
    {
        self.two(0x48, 0x8B);
        self.one(0x81);
        self.le32(as_pattern(disp));
        assert(self@ =~= old(self)@ + load_word(disp));
    }

    pub fn load_byte(&mut self, disp: i32)
        ensures
            final(self)@ == old(self)@ + load_byte(disp),
    {
        self.two(0x0F, 0xB6);
        self.one(0x81);
        self.le32(as_pattern(disp));
        assert(self@ =~= old(self)@ + load_byte(disp));
    }

    pub fn store_word(&mut self, disp: i32)
        ensures
            final(self)@ == old(self)@ + store_word(disp),
    {
        self.two(0x48, 0x89);
        self.one(0x81);
        self.le32(as_pattern(disp));
        assert(self@ =~= old(self)@ + store_word(disp));
    }

    pub fn store_byte(&mut self, disp: i32)
        ensures
            final(self)@ == old(self)@ + store_byte(disp),
    {
        self.two(0x88, 0x81);
        self.le32(as_pattern(disp));
        assert(self@ =~= old(self)@ + store_byte(disp));
    }

    /// `dst = dst op src` for the one-byte ALU forms.
    pub fn alu(&mut self, opcode: u8, dst: Reg, src: Reg)
        ensures
            final(self)@ == old(self)@ + alu(opcode, dst, src),
    {
        self.rex(true, Some(src), dst);
        self.two(opcode, direct(src, dst));
        assert(self@ =~= old(self)@ + alu(opcode, dst, src));
    }

    /// `dst = 1` when the flags satisfy `cc`, else 0, zero-extended.
    pub fn set_if(&mut self, cc: u8, dst: Reg)
        requires
            cc < 16,
        ensures
            final(self)@ == old(self)@ + set_if(cc, dst),
    {
        self.rex(false, None, dst);
        self.two(0x0F, 0x90 + cc);
        self.one(0xC0 + dst.low_bits());
        self.rex(false, Some(dst), dst);
        self.two(0x0F, 0xB6);
        self.one(direct(dst, dst));
        assert(self@ =~= old(self)@ + set_if(cc, dst));
    }

    /// Zero-extends to 64 bits. Returns the offset of the immediate, which
    /// is where a relocation would land.
    pub fn mov_imm32(&mut self, dst: Reg, value: u32) -> (at: usize)
        ensures
            final(self)@ == old(self)@ + mov_imm32(dst, value),
            at + 4 == final(self)@.len(),
    {
        self.rex(false, None, dst);
        self.one(0xB8 + dst.low_bits());
        let at: usize = self.bytes.len();
        self.le32(value);
        proof {
            bytes::little_endian_length(value as nat, 4);
        }
        assert(self@ =~= old(self)@ + mov_imm32(dst, value));
        at
    }

    /// `dst = rip + disp`, the address of something a known distance away.
    /// Returns the offset of the displacement, which is measured from the
    /// end of this instruction. `REX.W` is not optional: without it the
    /// address is truncated to 32 bits, which ASLR makes fatal.
    pub fn lea_rip(&mut self, dst: Reg) -> (at: usize)
        ensures
            final(self)@ == old(self)@ + lea_rip(dst),
            at + 4 == final(self)@.len(),
    {
        self.rex(true, Some(dst), Reg::Rax);
        self.two(0x8D, 8 * dst.low_bits() + 5);
        let at: usize = self.hole();
        proof {
            bytes::little_endian_length(0, 4);
        }
        assert(self@ =~= old(self)@ + lea_rip(dst));
        at
    }

    /// An unconditional jump, or one taken when the flags satisfy `cc`.
    /// Both leave a hole for [`Encoder::patch`], whose offset is returned.
    pub fn jump(&mut self) -> (at: usize)
        ensures
            final(self)@ == old(self)@ + jump(),
            at + 4 == final(self)@.len(),
    {
        self.one(0xE9);
        let at: usize = self.hole();
        proof {
            bytes::little_endian_length(0, 4);
        }
        assert(self@ =~= old(self)@ + jump());
        at
    }

    pub fn jump_if(&mut self, cc: u8) -> (at: usize)
        requires
            cc < 16,
        ensures
            final(self)@ == old(self)@ + jump_if(cc),
            at + 4 == final(self)@.len(),
    {
        self.two(0x0F, 0x80 + cc);
        let at: usize = self.hole();
        proof {
            bytes::little_endian_length(0, 4);
        }
        assert(self@ =~= old(self)@ + jump_if(cc));
        at
    }

    /// A call, whose target is patched in the same way.
    pub fn call(&mut self) -> (at: usize)
        ensures
            final(self)@ == old(self)@ + call(),
            at + 4 == final(self)@.len(),
    {
        self.one(0xE8);
        let at: usize = self.hole();
        proof {
            bytes::little_endian_length(0, 4);
        }
        assert(self@ =~= old(self)@ + call());
        at
    }

    /// Aim a jump left by [`Encoder::jump`] at `target`, or say that it is
    /// further than 2 GiB.
    pub fn patch(&mut self, hole: usize, target: usize) -> (reached: bool)
        requires
            hole + 4 <= old(self)@.len(),
        ensures
            reached == (i32::MIN <= away(hole as nat, target as nat) <= i32::MAX),
            reached ==> final(self)@ == patched(
                old(self)@,
                hole as nat,
                away(hole as nat, target as nat),
            ),
            !reached ==> final(self)@ == old(self)@,
    {
        let from: i128 = hole as i128 + 4;
        let to: i128 = target as i128;
        let displacement: i128 = to - from;
        if displacement < i32::MIN as i128 || displacement > i32::MAX as i128 {
            return false;
        }
        let bits: u32 = as_pattern(displacement as i32);
        self.fill(hole, bits);
        true
    }

    /// Write four bytes over those at `hole`.
    pub fn fill(&mut self, hole: usize, value: u32)
        requires
            hole + 4 <= old(self)@.len(),
        ensures
            final(self)@ == patched(old(self)@, hole as nat, value as int),
    {
        let ghost filling = bytes::little_endian(value as nat, 4);
        proof {
            reveal_with_fuel(bytes::little_endian, 5);
        }
        assert(hole + 4 <= self.bytes.len());
        self.bytes.set(hole, (value % 256) as u8);
        self.bytes.set(hole + 1, (value / 256 % 256) as u8);
        self.bytes.set(hole + 2, (value / 65536 % 256) as u8);
        self.bytes.set(hole + 3, (value / 16777216 % 256) as u8);
        assert(filling =~= seq![
            (value % 256) as u8,
            (value / 256 % 256) as u8,
            (value / 65536 % 256) as u8,
            (value / 16777216 % 256) as u8,
        ]);
        assert(self@ =~= patched(old(self)@, hole as nat, value as int));
    }

    fn hole(&mut self) -> (at: usize)
        ensures
            final(self)@ == old(self)@ + hole(),
            at == old(self)@.len(),
    {
        let at: usize = self.bytes.len();
        self.le32(0);
        at
    }

    fn rex(&mut self, wide: bool, reg: Option<Reg>, rm: Reg)
        ensures
            final(self)@ == old(self)@ + rex(wide, reg, rm),
    {
        let w: u8 = if wide {
            8
        } else {
            0
        };
        let r: u8 = match reg {
            Some(reg) => if reg.is_extended() {
                4
            } else {
                0
            },
            None => 0,
        };
        let b: u8 = if rm.is_extended() {
            1
        } else {
            0
        };
        if w + r + b != 0 {
            self.one(0x40 + w + r + b);
        }
        assert(self@ =~= old(self)@ + rex(wide, reg, rm));
    }

    fn slot(&mut self, opcode: u8, reg: Reg, disp: u32)
        ensures
            final(self)@ == old(self)@ + slot(opcode, reg, disp),
    {
        self.two(
            if reg.is_extended() {
                0x4C
            } else {
                0x48
            },
            opcode,
        );
        self.two(0x84 + 8 * reg.low_bits(), 0x24);
        self.le32(disp);
        assert(self@ =~= old(self)@ + slot(opcode, reg, disp));
    }

    fn one(&mut self, byte: u8)
        ensures
            final(self)@ == old(self)@ + seq![byte],
    {
        self.bytes.push(byte);
        assert(self@ =~= old(self)@ + seq![byte]);
    }

    fn two(&mut self, first: u8, second: u8)
        ensures
            final(self)@ == old(self)@ + seq![first, second],
    {
        self.bytes.push(first);
        self.bytes.push(second);
        assert(self@ =~= old(self)@ + seq![first, second]);
    }

    fn le32(&mut self, value: u32)
        ensures
            final(self)@ == old(self)@ + bytes::little_endian(value as nat, 4),
    {
        proof {
            reveal_with_fuel(bytes::little_endian, 5);
        }
        self.bytes.push((value % 256) as u8);
        self.bytes.push((value / 256 % 256) as u8);
        self.bytes.push((value / 65536 % 256) as u8);
        self.bytes.push((value / 16777216 % 256) as u8);
        assert(self@ =~= old(self)@ + bytes::little_endian(value as nat, 4));
    }

    fn le64(&mut self, value: u64)
        ensures
            final(self)@ == old(self)@ + bytes::little_endian(value as nat, 8),
    {
        let mut left: usize = 8;
        let mut value: u64 = value;
        let ghost whole = self@ + bytes::little_endian(value as nat, 8);
        while left > 0
            invariant
                self@ + bytes::little_endian(value as nat, left as nat) == whole,
            decreases left,
        {
            let ghost before = self@;
            self.bytes.push((value % 256) as u8);
            left = left - 1;
            assert(before + bytes::little_endian(value as nat, (left + 1) as nat) =~= self@
                + bytes::little_endian((value / 256) as nat, left as nat));
            value = value / 256;
        }
        assert(self@ =~= whole);
    }
}

} // verus!
