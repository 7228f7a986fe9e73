use luavm::instruction::{
    Instruction, OpMode, MAXARG_BX, MAXARG_SBX, OP_ADD, OP_EXTRAARG, OP_JMP, OP_LOADK, OP_MOVE,
    OP_RETURN,
};

#[test]
fn the_opcode_is_the_low_six_bits() {
    assert_eq!(0u32.opcode(), OP_MOVE);
    assert_eq!(0xffff_ffc1u32.opcode(), OP_LOADK);
    assert_eq!(0x0000_0026u32.opcode(), OP_RETURN);
    assert_eq!(0xffff_ffffu32.opcode(), 63);
}

#[test]
fn abc_splits_the_word() {
    let word: u32 = 13 | (7 << 6) | (300 << 14) | (511 << 23);
    assert_eq!(word.opcode(), OP_ADD);
    assert_eq!(word.abc(), (7, 511, 300));
    assert_eq!(0xffff_ffffu32.abc(), (255, 511, 511));
    assert_eq!(0u32.abc(), (0, 0, 0));
    assert_eq!((1u32 << 6).abc(), (1, 0, 0));
    assert_eq!((1u32 << 14).abc(), (0, 0, 1));
    assert_eq!((1u32 << 23).abc(), (0, 1, 0));
}

#[test]
fn a_bx_takes_the_top_eighteen_bits() {
    let word: u32 = 1 | (9 << 6) | (70000 << 14);
    assert_eq!(word.a_bx(), (9, 70000));
    assert_eq!(0xffff_ffffu32.a_bx(), (255, MAXARG_BX));
    assert_eq!(MAXARG_BX, 262143);
}

#[test]
fn a_sbx_takes_the_bias_off() {
    assert_eq!(MAXARG_SBX, 131071);
    let forward: u32 = 30 | ((131071 + 5) << 14);
    assert_eq!(forward.a_sbx(), (0, 5));
    let back: u32 = 30 | (2 << 6) | ((131071 - 7) << 14);
    assert_eq!(back.a_sbx(), (2, -7));
    assert_eq!(30u32.a_sbx(), (0, -131071));
    assert_eq!(0xffff_ffffu32.a_sbx(), (255, 131072));
}

#[test]
fn ax_takes_all_but_the_opcode() {
    let word: u32 = 46 | (1_000_000 << 6);
    assert_eq!(word.opcode(), OP_EXTRAARG);
    assert_eq!(word.ax(), 1_000_000);
    assert_eq!(0xffff_ffffu32.ax(), (1 << 26) - 1);
}

#[test]
fn every_opcode_has_its_name() {
    let names = [
        "MOVE", "LOADK", "LOADKX", "LOADBOOL", "LOADNIL", "GETUPVAL", "GETTABUP", "GETTABLE",
        "SETTABUP", "SETUPVAL", "SETTABLE", "NEWTABLE", "SELF", "ADD", "SUB", "MUL", "MOD", "POW",
        "DIV", "IDIV", "BAND", "BOR", "BXOR", "SHL", "SHR", "UNM", "BNOT", "NOT", "LEN", "CONCAT",
        "JMP", "EQ", "LT", "LE", "TEST", "TESTSET", "CALL", "TAILCALL", "RETURN", "FORLOOP",
        "FORPREP", "TFORCALL", "TFORLOOP", "SETLIST", "CLOSURE", "VARARG", "EXTRAARG",
    ];
    for (op, name) in names.iter().enumerate() {
        assert_eq!((op as u32).opname(), *name);
        assert_eq!((op as u32 | 0xffff_ffc0).opname(), *name);
    }
    assert_eq!(47u32.opname(), "");
    assert_eq!(63u32.opname(), "");
}

#[test]
fn every_opcode_has_its_layout() {
    for op in 0u32..64 {
        let want = match op {
            1 | 2 | 44 => OpMode::IABx,
            30 | 39 | 40 | 42 => OpMode::IAsBx,
            46 => OpMode::IAx,
            _ => OpMode::IABC,
        };
        assert_eq!(op.opmode(), want, "opcode {}", op);
    }
    assert_eq!((OP_JMP as u32).opmode(), OpMode::IAsBx);
}
