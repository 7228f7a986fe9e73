//! The instruction word: an opcode in the low six bits and, behind it, the
//! operands in one of four layouts.

use vstd::prelude::*;

verus! {

pub const OP_MOVE: u8 = 0;

pub const OP_LOADK: u8 = 1;

pub const OP_LOADKX: u8 = 2;

pub const OP_LOADBOOL: u8 = 3;

pub const OP_LOADNIL: u8 = 4;

pub const OP_GETUPVAL: u8 = 5;

pub const OP_GETTABUP: u8 = 6;

pub const OP_GETTABLE: u8 = 7;

pub const OP_SETTABUP: u8 = 8;

pub const OP_SETUPVAL: u8 = 9;

pub const OP_SETTABLE: u8 = 10;

pub const OP_NEWTABLE: u8 = 11;

pub const OP_SELF: u8 = 12;

pub const OP_ADD: u8 = 13;

pub const OP_SUB: u8 = 14;

pub const OP_MUL: u8 = 15;

pub const OP_MOD: u8 = 16;

pub const OP_POW: u8 = 17;

pub const OP_DIV: u8 = 18;

pub const OP_IDIV: u8 = 19;

pub const OP_BAND: u8 = 20;

pub const OP_BOR: u8 = 21;

pub const OP_BXOR: u8 = 22;

pub const OP_SHL: u8 = 23;

pub const OP_SHR: u8 = 24;

pub const OP_UNM: u8 = 25;

pub const OP_BNOT: u8 = 26;

pub const OP_NOT: u8 = 27;

pub const OP_LEN: u8 = 28;

pub const OP_CONCAT: u8 = 29;

pub const OP_JMP: u8 = 30;

pub const OP_EQ: u8 = 31;

pub const OP_LT: u8 = 32;

pub const OP_LE: u8 = 33;

pub const OP_TEST: u8 = 34;

pub const OP_TESTSET: u8 = 35;

pub const OP_CALL: u8 = 36;

pub const OP_TAILCALL: u8 = 37;

pub const OP_RETURN: u8 = 38;

pub const OP_FORLOOP: u8 = 39;

pub const OP_FORPREP: u8 = 40;

pub const OP_TFORCALL: u8 = 41;

pub const OP_TFORLOOP: u8 = 42;

pub const OP_SETLIST: u8 = 43;

pub const OP_CLOSURE: u8 = 44;

pub const OP_VARARG: u8 = 45;

pub const OP_EXTRAARG: u8 = 46;

/// The greatest value of the operand `Bx`.
pub const MAXARG_BX: isize = 0x3_ffff;

/// What is taken from the stored `Bx` to give the signed operand `sBx`.
pub const MAXARG_SBX: isize = 0x1_ffff;

/// The layouts of the operands.
#[derive(Clone, Copy, Debug, PartialEq, Eq, Structural)]
pub enum OpMode {
    /// `A` of 8 bits, `C` and `B` of 9 bits each.
    IABC,
    /// `A` of 8 bits, `Bx` of 18 bits.
    IABx,
    /// `A` of 8 bits, `sBx` of 18 bits, stored with `MAXARG_SBX` added.
    IAsBx,
    /// `Ax` of 26 bits.
    IAx,
}

/// The opcode: the low six bits.
pub open spec fn op_of(i: u32) -> int {
    i as int % 64
}

/// The operand `A`: the eight bits above the opcode.
pub open spec fn a_of(i: u32) -> int {
    (i as int / 64) % 256
}

/// The operand `C`: the nine bits above `A`.
pub open spec fn c_of(i: u32) -> int {
    (i as int / 0x4000) % 512
}

/// The operand `B`: the top nine bits.
pub open spec fn b_of(i: u32) -> int {
    i as int / 0x80_0000
}

/// The operand `Bx`: the top 18 bits.
pub open spec fn bx_of(i: u32) -> int {
    i as int / 0x4000
}

/// The operand `sBx`: `Bx` less the bias.
pub open spec fn sbx_of(i: u32) -> int {
    bx_of(i) - MAXARG_SBX
}

/// The operand `Ax`: the top 26 bits.
pub open spec fn ax_of(i: u32) -> int {
    i as int / 64
}

/// The layout that an opcode's operands have.
pub open spec fn mode_of(op: int) -> OpMode {
    if op == OP_LOADK || op == OP_LOADKX || op == OP_CLOSURE {
        OpMode::IABx
    } else if op == OP_JMP || op == OP_FORLOOP || op == OP_FORPREP || op == OP_TFORLOOP {
        OpMode::IAsBx
    } else if op == OP_EXTRAARG {
        OpMode::IAx
    } else {
        OpMode::IABC
    }
}

/// The name of an opcode; of a number that is none, the empty name.
pub open spec fn name_of(op: int) -> &'static str {
    if op == OP_MOVE {
        "MOVE"
    } else if op == OP_LOADK {
        "LOADK"
    } else if op == OP_LOADKX {
        "LOADKX"
    } else if op == OP_LOADBOOL {
        "LOADBOOL"
    } else if op == OP_LOADNIL {
        "LOADNIL"
    } else if op == OP_GETUPVAL {
        "GETUPVAL"
    } else if op == OP_GETTABUP {
        "GETTABUP"
    } else if op == OP_GETTABLE {
        "GETTABLE"
    } else if op == OP_SETTABUP {
        "SETTABUP"
    } else if op == OP_SETUPVAL {
        "SETUPVAL"
    } else if op == OP_SETTABLE {
        "SETTABLE"
    } else if op == OP_NEWTABLE {
        "NEWTABLE"
    } else if op == OP_SELF {
        "SELF"
    } else if op == OP_ADD {
        "ADD"
    } else if op == OP_SUB {
        "SUB"
    } else if op == OP_MUL {
        "MUL"
    } else if op == OP_MOD {
        "MOD"
    } else if op == OP_POW {
        "POW"
    } else if op == OP_DIV {
        "DIV"
    } else if op == OP_IDIV {
        "IDIV"
    } else if op == OP_BAND {
        "BAND"
    } else if op == OP_BOR {
        "BOR"
    } else if op == OP_BXOR {
        "BXOR"
    } else if op == OP_SHL {
        "SHL"
    } else if op == OP_SHR {
        "SHR"
    } else if op == OP_UNM {
        "UNM"
    } else if op == OP_BNOT {
        "BNOT"
    } else if op == OP_NOT {
        "NOT"
    } else if op == OP_LEN {
        "LEN"
    } else if op == OP_CONCAT {
        "CONCAT"
    } else if op == OP_JMP {
        "JMP"
    } else if op == OP_EQ {
        "EQ"
    } else if op == OP_LT {
        "LT"
    } else if op == OP_LE {
        "LE"
    } else if op == OP_TEST {
        "TEST"
    } else if op == OP_TESTSET {
        "TESTSET"
    } else if op == OP_CALL {
        "CALL"
    } else if op == OP_TAILCALL {
        "TAILCALL"
    } else if op == OP_RETURN {
        "RETURN"
    } else if op == OP_FORLOOP {
        "FORLOOP"
    } else if op == OP_FORPREP {
        "FORPREP"
    } else if op == OP_TFORCALL {
        "TFORCALL"
    } else if op == OP_TFORLOOP {
        "TFORLOOP"
    } else if op == OP_SETLIST {
        "SETLIST"
    } else if op == OP_CLOSURE {
        "CLOSURE"
    } else if op == OP_VARARG {
        "VARARG"
    } else if op == OP_EXTRAARG {
        "EXTRAARG"
    } else {
        ""
    }
}

/// An instruction word is made of its opcode and the operands `A`, `C` and
/// `B`, each within its width, and of nothing else.
pub proof fn lemma_abc_layout(i: u32)
    ensures
        i == op_of(i) + 64 * a_of(i) + 0x4000 * c_of(i) + 0x80_0000 * b_of(i),
        0 <= op_of(i) < 64,
        0 <= a_of(i) < 256,
        0 <= c_of(i) < 512,
        0 <= b_of(i) < 512,
{
}

/// An instruction word is made of its opcode and the operands `A` and `Bx`,
/// and `sBx` lies as far below zero as above it, but for one.
pub proof fn lemma_abx_layout(i: u32)
    ensures
        i == op_of(i) + 64 * a_of(i) + 0x4000 * bx_of(i),
        0 <= bx_of(i) <= MAXARG_BX,
        -MAXARG_SBX <= sbx_of(i) <= MAXARG_SBX + 1,
{
}

/// An instruction word is made of its opcode and the operand `Ax`.
pub proof fn lemma_ax_layout(i: u32)
    ensures
        i == op_of(i) + 64 * ax_of(i),
        0 <= ax_of(i) < 0x400_0000,
{
}

/// What can be read off an instruction word.
pub trait Instruction: Sized {
    /// The word itself.
    spec fn word(self) -> u32;

    fn opcode(self) -> (r: u8)
        ensures
            r == op_of(self.word()),
    ;

    fn opmode(self) -> (r: OpMode)
        ensures
            r == mode_of(op_of(self.word())),
    ;

    fn opname(self) -> (r: &'static str)
        ensures
            r@ == name_of(op_of(self.word()))@,
    ;

    fn abc(self) -> (r: (isize, isize, isize))
        ensures
            r.0 == a_of(self.word()),
            r.1 == b_of(self.word()),
            r.2 == c_of(self.word()),
    ;

    fn a_bx(self) -> (r: (isize, isize))
        ensures
            r.0 == a_of(self.word()),
            r.1 == bx_of(self.word()),
    ;

    fn a_sbx(self) -> (r: (isize, isize))
        ensures
            r.0 == a_of(self.word()),
            r.1 == sbx_of(self.word()),
    ;

    fn ax(self) -> (r: isize)
        ensures
            r == ax_of(self.word()),
    ;
}

impl Instruction for u32 {
    open spec fn word(self) -> u32 {
        self
    }

    fn opcode(self) -> (r: u8) {
        assert(self & 0x3f == self % 64) by (bit_vector);
        (self & 0x3f) as u8
    }

    fn opmode(self) -> (r: OpMode) {
        let op: u8 = self.opcode();
        if op == OP_LOADK || op == OP_LOADKX || op == OP_CLOSURE {
            OpMode::IABx
        } else if op == OP_JMP || op == OP_FORLOOP || op == OP_FORPREP || op == OP_TFORLOOP {
            OpMode::IAsBx
        } else if op == OP_EXTRAARG {
            OpMode::IAx
        } else {
            OpMode::IABC
        }
    }

    fn opname(self) -> (r: &'static str) {
        let op: u8 = self.opcode();
        if op == OP_MOVE {
            "MOVE"
        } else if op == OP_LOADK {
            "LOADK"
        } else if op == OP_LOADKX {
            "LOADKX"
        } else if op == OP_LOADBOOL {
            "LOADBOOL"
        } else if op == OP_LOADNIL {
            "LOADNIL"
        } else if op == OP_GETUPVAL {
            "GETUPVAL"
        } else if op == OP_GETTABUP {
            "GETTABUP"
        } else if op == OP_GETTABLE {
            "GETTABLE"
        } else if op == OP_SETTABUP {
            "SETTABUP"
        } else if op == OP_SETUPVAL {
            "SETUPVAL"
        } else if op == OP_SETTABLE {
            "SETTABLE"
        } else if op == OP_NEWTABLE {
            "NEWTABLE"
        } else if op == OP_SELF {
            "SELF"
        } else if op == OP_ADD {
            "ADD"
        } else if op == OP_SUB {
            "SUB"
        } else if op == OP_MUL {
            "MUL"
        } else if op == OP_MOD {
            "MOD"
        } else if op == OP_POW {
            "POW"
        } else if op == OP_DIV {
            "DIV"
        } else if op == OP_IDIV {
            "IDIV"
        } else if op == OP_BAND {
            "BAND"
        } else if op == OP_BOR {
            "BOR"
        } else if op == OP_BXOR {
            "BXOR"
        } else if op == OP_SHL {
            "SHL"
        } else if op == OP_SHR {
            "SHR"
        } else if op == OP_UNM {
            "UNM"
        } else if op == OP_BNOT {
            "BNOT"
        } else if op == OP_NOT {
            "NOT"
        } else if op == OP_LEN {
            "LEN"
        } else if op == OP_CONCAT {
            "CONCAT"
        } else if op == OP_JMP {
            "JMP"
        } else if op == OP_EQ {
            "EQ"
        } else if op == OP_LT {
            "LT"
        } else if op == OP_LE {
            "LE"
        } else if op == OP_TEST {
            "TEST"
        } else if op == OP_TESTSET {
            "TESTSET"
        } else if op == OP_CALL {
            "CALL"
        } else if op == OP_TAILCALL {
            "TAILCALL"
        } else if op == OP_RETURN {
            "RETURN"
        } else if op == OP_FORLOOP {
            "FORLOOP"
        } else if op == OP_FORPREP {
            "FORPREP"
        } else if op == OP_TFORCALL {
            "TFORCALL"
        } else if op == OP_TFORLOOP {
            "TFORLOOP"
        } else if op == OP_SETLIST {
            "SETLIST"
        } else if op == OP_CLOSURE {
            "CLOSURE"
        } else if op == OP_VARARG {
            "VARARG"
        } else if op == OP_EXTRAARG {
            "EXTRAARG"
        } else {
            ""
        }
    }

    fn abc(self) -> (r: (isize, isize, isize)) {
        assert((self >> 6) & 0xff == (self / 64) % 256) by (bit_vector);
        assert((self >> 14) & 0x1ff == (self / 0x4000) % 512) by (bit_vector);
        assert((self >> 23) & 0x1ff == self / 0x80_0000) by (bit_vector);
        let a: u32 = (self >> 6) & 0xff;
        let c: u32 = (self >> 14) & 0x1ff;
        let b: u32 = (self >> 23) & 0x1ff;
        (a as isize, b as isize, c as isize)
    }

    fn a_bx(self) -> (r: (isize, isize)) {
        assert((self >> 6) & 0xff == (self / 64) % 256) by (bit_vector);
        assert(self >> 14 == self / 0x4000) by (bit_vector);
        let a: u32 = (self >> 6) & 0xff;
        let bx: u32 = self >> 14;
        (a as isize, bx as isize)
    }

    fn a_sbx(self) -> (r: (isize, isize)) {
        let (a, bx) = self.a_bx();
        (a, bx - MAXARG_SBX)
    }

    fn ax(self) -> (r: isize) {
        assert(self >> 6 == self / 64) by (bit_vector);
        (self >> 6) as isize
    }
}

} // verus!
