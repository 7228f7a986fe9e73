//! The instructions: what each does to the state, and the loop that fetches
//! and carries them out.
//!
//! An instruction either moves the state on or leaves it exactly as it was
//! and says why: it needs an answer from the host, or it cannot be carried
//! out at all.

use vstd::prelude::*;
use crate::arith::{
    arith, arith_spec, compare_spec, compare_values, lt_spec, LUA_OPADD, LUA_OPBAND, LUA_OPBNOT,
    LUA_OPBOR, LUA_OPBXOR, LUA_OPDIV, LUA_OPEQ, LUA_OPIDIV, LUA_OPLE, LUA_OPLT, LUA_OPMOD,
    LUA_OPMUL, LUA_OPPOW, LUA_OPSHL, LUA_OPSHR, LUA_OPSUB, LUA_OPUNM,
};
use crate::error::ValueError;
use crate::host::{FloatAnswersView, Pause, PauseView};
use crate::instruction::{
    a_of, ax_of, b_of, bx_of, c_of, op_of, sbx_of, Instruction, OP_ADD, OP_BAND, OP_BNOT,
    OP_BOR, OP_BXOR, OP_CONCAT, OP_DIV, OP_EQ, OP_FORLOOP, OP_FORPREP, OP_GETTABLE,
    OP_IDIV, OP_JMP, OP_LE, OP_LEN, OP_LOADBOOL, OP_LOADK, OP_LOADKX, OP_LOADNIL, OP_LT, OP_MOD,
    OP_MOVE, OP_MUL, OP_NEWTABLE, OP_NOT, OP_POW, OP_RETURN, OP_SETLIST, OP_SETTABLE, OP_SHL,
    OP_SHR, OP_SUB,
    OP_TEST, OP_TESTSET, OP_UNM,
};
use crate::number::float_le;
use crate::state::{concat_text, length_of, stepped, LuaState, LuaVM, StateView};
use crate::value::{LuaValue, ValueView};

verus! {

/// Whether the stack holds register `n`.
pub open spec fn has_reg(s: StateView, n: int) -> bool {
    0 <= n < s.top()
}

/// The state with `v` in register `n`.
pub open spec fn set_reg(s: StateView, n: int, v: ValueView) -> StateView {
    s.with_stack(s.stack.update(n, v))
}

/// The pause of an instruction that cannot be carried out.
pub open spec fn fault<T>(e: ValueError) -> Result<T, PauseView> {
    Err(PauseView::Fault(e))
}

/// The state after a skip of the next instruction, which must exist or be
/// the end of the code.
pub open spec fn skip(s: StateView) -> Result<StateView, PauseView> {
    if s.can_jump(1) {
        Ok(s.jump(1))
    } else {
        fault(ValueError::ProgramCounter)
    }
}

/// `R(A) := R(B)`.
pub open spec fn move_spec(s: StateView, i: u32) -> Result<StateView, PauseView> {
    if has_reg(s, a_of(i)) && has_reg(s, b_of(i)) {
        Ok(set_reg(s, a_of(i), s.stack[b_of(i)]))
    } else {
        fault(ValueError::Register)
    }
}

/// `pc += sBx`. A jump that is to close upvalues, which a nonzero `A` asks
/// for, is not carried out.
pub open spec fn jmp_spec(s: StateView, i: u32) -> Result<StateView, PauseView> {
    if a_of(i) != 0 {
        fault(ValueError::Jump)
    } else if s.can_jump(sbx_of(i)) {
        Ok(s.jump(sbx_of(i)))
    } else {
        fault(ValueError::ProgramCounter)
    }
}

/// The stack with nil in the places from `from` up to, not including, `to`.
pub open spec fn nil_run(stack: Seq<ValueView>, from: int, to: int) -> Seq<ValueView> {
    Seq::new(
        stack.len(),
        |k: int|
            if from <= k < to {
                ValueView::Nil
            } else {
                stack[k]
            },
    )
}

/// `R(A), R(A+1), ..., R(A+B) := nil`.
pub open spec fn load_nil_spec(s: StateView, i: u32) -> Result<StateView, PauseView> {
    if has_reg(s, a_of(i) + b_of(i)) {
        Ok(s.with_stack(nil_run(s.stack, a_of(i), a_of(i) + b_of(i) + 1)))
    } else {
        fault(ValueError::Register)
    }
}

/// `R(A) := (bool) B; if (C) pc++`.
pub open spec fn load_bool_spec(s: StateView, i: u32) -> Result<StateView, PauseView> {
    if !has_reg(s, a_of(i)) {
        fault(ValueError::Register)
    } else if c_of(i) != 0 {
        skip(set_reg(s, a_of(i), ValueView::Boolean(b_of(i) != 0)))
    } else {
        Ok(set_reg(s, a_of(i), ValueView::Boolean(b_of(i) != 0)))
    }
}

/// `R(A) := Kst(k)`.
pub open spec fn load_constant(s: StateView, a: int, k: int) -> Result<StateView, PauseView> {
    if !has_reg(s, a) {
        fault(ValueError::Register)
    } else if !s.has_constant(k) {
        fault(ValueError::Constant)
    } else {
        Ok(set_reg(s, a, s.constant(k)))
    }
}

/// `R(A) := Kst(Bx)`.
pub open spec fn load_k_spec(s: StateView, i: u32) -> Result<StateView, PauseView> {
    load_constant(s, a_of(i), bx_of(i))
}

/// `R(A) := Kst(Ax)`, where `Ax` is the operand of the next instruction,
/// which is passed over.
pub open spec fn load_kx_spec(s: StateView, i: u32) -> Result<StateView, PauseView> {
    if !(0 <= s.pc < s.proto.code.len()) {
        fault(ValueError::ProgramCounter)
    } else {
        match load_constant(s, a_of(i), ax_of(s.proto.code[s.pc])) {
            Ok(t) => Ok(t.jump(1)),
            Err(p) => Err(p),
        }
    }
}

/// `R(A) := RK(B) op RK(C)`.
pub open spec fn binary_spec(s: StateView, i: u32, op: u8) -> Result<StateView, PauseView> {
    if !has_reg(s, a_of(i)) {
        fault(ValueError::Register)
    } else {
        match s.rk(b_of(i)) {
            Err(e) => fault(e),
            Ok(x) => match s.rk(c_of(i)) {
                Err(e) => fault(e),
                Ok(y) => match arith_spec(x, y, op, s.answers) {
                    Err(p) => Err(p),
                    Ok(v) => Ok(set_reg(s, a_of(i), v)),
                },
            },
        }
    }
}

/// `R(A) := op R(B)`.
pub open spec fn unary_spec(s: StateView, i: u32, op: u8) -> Result<StateView, PauseView> {
    if !has_reg(s, a_of(i)) || !has_reg(s, b_of(i)) {
        fault(ValueError::Register)
    } else {
        match arith_spec(s.stack[b_of(i)], s.stack[b_of(i)], op, s.answers) {
            Err(p) => Err(p),
            Ok(v) => Ok(set_reg(s, a_of(i), v)),
        }
    }
}

/// `if ((RK(B) op RK(C)) ~= A) then pc++`: the next instruction is passed
/// over where the comparison does not come out as `A` expects.
pub open spec fn compare_jump_spec(s: StateView, i: u32, op: u8) -> Result<StateView, PauseView> {
    match s.rk(b_of(i)) {
        Err(e) => fault(e),
        Ok(x) => match s.rk(c_of(i)) {
            Err(e) => fault(e),
            Ok(y) => match compare_spec(x, y, op) {
                Err(e) => fault(e),
                Ok(r) => if r != (a_of(i) != 0) {
                    skip(s)
                } else {
                    Ok(s)
                },
            },
        },
    }
}

/// `R(A) := not R(B)`.
pub open spec fn not_spec(s: StateView, i: u32) -> Result<StateView, PauseView> {
    if has_reg(s, a_of(i)) && has_reg(s, b_of(i)) {
        Ok(set_reg(s, a_of(i), ValueView::Boolean(!s.stack[b_of(i)].truth())))
    } else {
        fault(ValueError::Register)
    }
}

/// `if not (R(A) <=> C) then pc++`.
pub open spec fn test_spec(s: StateView, i: u32) -> Result<StateView, PauseView> {
    if !has_reg(s, a_of(i)) {
        fault(ValueError::Register)
    } else if s.stack[a_of(i)].truth() != (c_of(i) != 0) {
        skip(s)
    } else {
        Ok(s)
    }
}

/// `if (R(B) <=> C) then R(A) := R(B) else pc++`.
pub open spec fn test_set_spec(s: StateView, i: u32) -> Result<StateView, PauseView> {
    if !has_reg(s, a_of(i)) || !has_reg(s, b_of(i)) {
        fault(ValueError::Register)
    } else if s.stack[b_of(i)].truth() == (c_of(i) != 0) {
        Ok(set_reg(s, a_of(i), s.stack[b_of(i)]))
    } else {
        skip(s)
    }
}

/// `R(A) := length of R(B)`.
pub open spec fn length_spec(s: StateView, i: u32) -> Result<StateView, PauseView> {
    if !has_reg(s, a_of(i)) || !has_reg(s, b_of(i)) {
        fault(ValueError::Register)
    } else {
        match length_of(s.stack[b_of(i)], s.tables) {
            Err(e) => fault(e),
            Ok(v) => Ok(set_reg(s, a_of(i), v)),
        }
    }
}

/// `R(A) := R(B).. ... ..R(C)`. A single register is handed on as it is, and
/// no register at all, where `B` is `C + 1`, gives the empty string.
pub open spec fn concat_spec(s: StateView, i: u32) -> Result<StateView, PauseView> {
    let b = b_of(i);
    let c = c_of(i);
    if !has_reg(s, a_of(i)) || b > c + 1 || (b <= c && !has_reg(s, c)) {
        fault(ValueError::Register)
    } else if b == c + 1 {
        Ok(set_reg(s, a_of(i), ValueView::Str(Seq::empty())))
    } else if b == c {
        Ok(set_reg(s, a_of(i), s.stack[b]))
    } else {
        match concat_text(s.stack.subrange(b, c + 1), s.answers) {
            Err(p) => Err(p),
            Ok(t) => Ok(set_reg(s, a_of(i), ValueView::Str(t))),
        }
    }
}

/// A value that is to rule a numeric loop: a string is read as a float, and
/// must be the text of one.
pub open spec fn loop_number(v: ValueView, answers: FloatAnswersView) -> Result<
    ValueView,
    PauseView,
> {
    if v is Str {
        match v.to_number(answers) {
            Err(t) => Err(PauseView::Need(t)),
            Ok(None) => fault(ValueError::ForLoop),
            Ok(Some(x)) => Ok(ValueView::Number(x)),
        }
    } else {
        Ok(v)
    }
}

/// `R(A) -= R(A+2); pc += sBx`, after the counter, the limit and the step,
/// which are `R(A)`, `R(A+1)` and `R(A+2)`, have been made numbers where they
/// were strings.
pub open spec fn for_prep_spec(s: StateView, i: u32) -> Result<StateView, PauseView> {
    let a = a_of(i);
    if !has_reg(s, a + 2) {
        fault(ValueError::Register)
    } else {
        match loop_number(s.stack[a], s.answers) {
            Err(p) => Err(p),
            Ok(counter) => match loop_number(s.stack[a + 1], s.answers) {
                Err(p) => Err(p),
                Ok(limit) => match loop_number(s.stack[a + 2], s.answers) {
                    Err(p) => Err(p),
                    Ok(step) => match arith_spec(counter, step, LUA_OPSUB, s.answers) {
                        Err(p) => Err(p),
                        Ok(start) => if s.can_jump(sbx_of(i)) {
                            Ok(
                                s.with_stack(
                                    s.stack.update(a, start).update(a + 1, limit).update(
                                        a + 2,
                                        step,
                                    ),
                                ).jump(sbx_of(i)),
                            )
                        } else {
                            fault(ValueError::ProgramCounter)
                        },
                    },
                },
            },
        }
    }
}

/// Whether the loop goes on with the counter `next`: under a step that is
/// not negative while `next <= limit`, under a negative step while
/// `limit <= next`.
pub open spec fn loop_goes_on(
    next: ValueView,
    limit: ValueView,
    step: ValueView,
    answers: FloatAnswersView,
) -> Result<bool, PauseView> {
    match step.to_number(answers) {
        Err(t) => Err(PauseView::Need(t)),
        Ok(None) => fault(ValueError::ForLoop),
        Ok(Some(x)) => {
            let compared = if float_le(0, x) {
                compare_spec(next, limit, LUA_OPLE)
            } else {
                compare_spec(limit, next, LUA_OPLE)
            };
            match compared {
                Err(e) => fault(e),
                Ok(r) => Ok(r),
            }
        },
    }
}

/// `R(A) += R(A+2); if R(A) <?= R(A+1) then { pc += sBx; R(A+3) = R(A) }`.
pub open spec fn for_loop_spec(s: StateView, i: u32) -> Result<StateView, PauseView> {
    let a = a_of(i);
    if !has_reg(s, a + 3) {
        fault(ValueError::Register)
    } else {
        match arith_spec(s.stack[a + 2], s.stack[a], LUA_OPADD, s.answers) {
            Err(p) => Err(p),
            Ok(next) => match loop_goes_on(next, s.stack[a + 1], s.stack[a + 2], s.answers) {
                Err(p) => Err(p),
                Ok(false) => Ok(set_reg(s, a, next)),
                Ok(true) => if s.can_jump(sbx_of(i)) {
                    Ok(s.with_stack(s.stack.update(a, next).update(a + 3, next)).jump(sbx_of(i)))
                } else {
                    fault(ValueError::ProgramCounter)
                },
            },
        }
    }
}

/// `R(A) := {}`. The operands `B` and `C`, which only say how large the
/// table is expected to grow, are not read.
pub open spec fn new_table_spec(s: StateView, i: u32) -> Result<StateView, PauseView> {
    if !has_reg(s, a_of(i)) {
        fault(ValueError::Register)
    } else {
        Ok(
            StateView {
                stack: s.stack.update(a_of(i), ValueView::Table(s.tables.len() as usize)),
                tables: s.tables.push(
                    crate::table::TableView { arr: Seq::empty(), map: Map::empty() },
                ),
                ..s
            },
        )
    }
}

/// `R(A) := R(B)[RK(C)]`.
pub open spec fn get_table_spec(s: StateView, i: u32) -> Result<StateView, PauseView> {
    if !has_reg(s, a_of(i)) || !has_reg(s, b_of(i)) {
        fault(ValueError::Register)
    } else {
        match s.rk(c_of(i)) {
            Err(e) => fault(e),
            Ok(k) => match s.index(s.stack[b_of(i)], k) {
                Err(e) => fault(e),
                Ok(v) => Ok(set_reg(s, a_of(i), v)),
            },
        }
    }
}

/// `R(A)[RK(B)] := RK(C)`.
pub open spec fn set_table_spec(s: StateView, i: u32) -> Result<StateView, PauseView> {
    if !has_reg(s, a_of(i)) {
        fault(ValueError::Register)
    } else {
        match s.rk(b_of(i)) {
            Err(e) => fault(e),
            Ok(k) => match s.rk(c_of(i)) {
                Err(e) => fault(e),
                Ok(v) => match s.store(s.stack[a_of(i)], k, v) {
                    Err(e) => fault(e),
                    Ok(t) => Ok(t),
                },
            },
        }
    }
}

/// The number of array items that one instruction stores into a table.
pub const LFIELDS_PER_FLUSH: isize = 50;

/// The state after the registers `R(A+1)` to `R(A+n)` have been stored into
/// the table `t` under the keys `base + 1` to `base + n`.
pub open spec fn stored_list(s: StateView, t: ValueView, base: int, a: int, n: nat) -> Result<
    StateView,
    ValueError,
>
    decreases n,
{
    if n == 0 {
        Ok(s)
    } else {
        match stored_list(s, t, base, a, (n - 1) as nat) {
            Err(e) => Err(e),
            Ok(r) => r.store(t, ValueView::Integer((base + n) as i64), s.stack[a + n]),
        }
    }
}

/// `R(A)[(C-1)*FPF+i] := R(A+i), 1 <= i <= B`, where `FPF` is
/// `LFIELDS_PER_FLUSH`. A `C` of 0 stands for the operand `Ax` of the next
/// instruction, which is passed over. A `B` of 0, which asks for all values up
/// to the top of a call's results, is not carried out.
pub open spec fn set_list_spec(s: StateView, i: u32) -> Result<StateView, PauseView> {
    let a = a_of(i);
    let b = b_of(i);
    if b == 0 {
        fault(ValueError::Opcode)
    } else if !has_reg(s, a + b) {
        fault(ValueError::Register)
    } else if c_of(i) > 0 {
        match stored_list(s, s.stack[a], (c_of(i) - 1) * LFIELDS_PER_FLUSH, a, b as nat) {
            Err(e) => fault(e),
            Ok(t) => Ok(t),
        }
    } else if !(0 <= s.pc < s.proto.code.len()) {
        fault(ValueError::ProgramCounter)
    } else if ax_of(s.proto.code[s.pc]) == 0 {
        fault(ValueError::Opcode)
    } else {
        match stored_list(
            s,
            s.stack[a],
            (ax_of(s.proto.code[s.pc]) - 1) * LFIELDS_PER_FLUSH,
            a,
            b as nat,
        ) {
            Err(e) => fault(e),
            Ok(t) => Ok(t.jump(1)),
        }
    }
}

/// What the instruction does to the state.
pub open spec fn execute_spec(s: StateView, i: u32) -> Result<StateView, PauseView> {
    let op = op_of(i);
    if op == OP_MOVE {
        move_spec(s, i)
    } else if op == OP_LOADK {
        load_k_spec(s, i)
    } else if op == OP_LOADKX {
        load_kx_spec(s, i)
    } else if op == OP_LOADBOOL {
        load_bool_spec(s, i)
    } else if op == OP_LOADNIL {
        load_nil_spec(s, i)
    } else if op == OP_GETTABLE {
        get_table_spec(s, i)
    } else if op == OP_SETTABLE {
        set_table_spec(s, i)
    } else if op == OP_NEWTABLE {
        new_table_spec(s, i)
    } else if op == OP_ADD {
        binary_spec(s, i, LUA_OPADD)
    } else if op == OP_SUB {
        binary_spec(s, i, LUA_OPSUB)
    } else if op == OP_MUL {
        binary_spec(s, i, LUA_OPMUL)
    } else if op == OP_MOD {
        binary_spec(s, i, LUA_OPMOD)
    } else if op == OP_POW {
        binary_spec(s, i, LUA_OPPOW)
    } else if op == OP_DIV {
        binary_spec(s, i, LUA_OPDIV)
    } else if op == OP_IDIV {
        binary_spec(s, i, LUA_OPIDIV)
    } else if op == OP_BAND {
        binary_spec(s, i, LUA_OPBAND)
    } else if op == OP_BOR {
        binary_spec(s, i, LUA_OPBOR)
    } else if op == OP_BXOR {
        binary_spec(s, i, LUA_OPBXOR)
    } else if op == OP_SHL {
        binary_spec(s, i, LUA_OPSHL)
    } else if op == OP_SHR {
        binary_spec(s, i, LUA_OPSHR)
    } else if op == OP_UNM {
        unary_spec(s, i, LUA_OPUNM)
    } else if op == OP_BNOT {
        unary_spec(s, i, LUA_OPBNOT)
    } else if op == OP_NOT {
        not_spec(s, i)
    } else if op == OP_LEN {
        length_spec(s, i)
    } else if op == OP_CONCAT {
        concat_spec(s, i)
    } else if op == OP_JMP {
        jmp_spec(s, i)
    } else if op == OP_EQ {
        compare_jump_spec(s, i, LUA_OPEQ)
    } else if op == OP_LT {
        compare_jump_spec(s, i, LUA_OPLT)
    } else if op == OP_LE {
        compare_jump_spec(s, i, LUA_OPLE)
    } else if op == OP_TEST {
        test_spec(s, i)
    } else if op == OP_TESTSET {
        test_set_spec(s, i)
    } else if op == OP_FORLOOP {
        for_loop_spec(s, i)
    } else if op == OP_FORPREP {
        for_prep_spec(s, i)
    } else if op == OP_SETLIST {
        set_list_spec(s, i)
    } else {
        fault(ValueError::Opcode)
    }
}

/// Whether a step has gone on to the next instruction or has ended the run.
#[derive(Clone, Copy, Debug, PartialEq, Eq, Structural)]
pub enum Step {
    Continue,
    Halt,
}

/// One step of the machine: the instruction at the program counter is
/// fetched and carried out. A return instruction ends the run, and so does
/// the end of the code.
pub open spec fn step_spec(s: StateView) -> Result<(StateView, Step), PauseView> {
    if !(0 <= s.pc < s.proto.code.len()) {
        Ok((s, Step::Halt))
    } else if op_of(s.proto.code[s.pc]) == OP_RETURN {
        Ok((s.jump(1), Step::Halt))
    } else {
        match execute_spec(s.jump(1), s.proto.code[s.pc]) {
            Ok(t) => Ok((t, Step::Continue)),
            Err(p) => Err(p),
        }
    }
}

/// Up to `n` steps of the machine, ending with the step that ends the run or
/// that pauses.
pub open spec fn run_spec(s: StateView, n: nat) -> (StateView, Result<Step, PauseView>)
    decreases n,
{
    if n == 0 {
        (s, Ok(Step::Continue))
    } else {
        match step_spec(s) {
            Err(p) => (s, Err(p)),
            Ok((t, Step::Halt)) => (t, Ok(Step::Halt)),
            Ok((t, Step::Continue)) => run_spec(t, (n - 1) as nat),
        }
    }
}

fn fault_of<T>(e: ValueError) -> (r: Result<T, Pause>)
    ensures
        r is Err,
        r->Err_0@ == PauseView::Fault(e),
{
    Err(Pause::Fault(e))
}

/// Passes over the next instruction.
fn skip_next(vm: &mut LuaState) -> (r: Result<(), Pause>)
    requires
        old(vm).wf(),
    ensures
        final(vm).wf(),
        stepped(old(vm)@, final(vm)@, r, skip(old(vm)@)),
{
    if vm.can_jump(1) {
        vm.add_pc(1);
        Ok(())
    } else {
        fault_of(ValueError::ProgramCounter)
    }
}

pub fn _move(i: u32, vm: &mut LuaState) -> (r: Result<(), Pause>)
    requires
        old(vm).wf(),
    ensures
        final(vm).wf(),
        stepped(old(vm)@, final(vm)@, r, move_spec(old(vm)@, i)),
{
    let (a, b, _c) = i.abc();
    if !vm.has_register(a) || !vm.has_register(b) {
        return fault_of(ValueError::Register);
    }
    vm.copy(b + 1, a + 1);
    Ok(())
}

pub fn jmp(i: u32, vm: &mut LuaState) -> (r: Result<(), Pause>)
    requires
        old(vm).wf(),
    ensures
        final(vm).wf(),
        stepped(old(vm)@, final(vm)@, r, jmp_spec(old(vm)@, i)),
{
    let (a, sbx) = i.a_sbx();
    if a != 0 {
        return fault_of(ValueError::Jump);
    }
    if !vm.can_jump(sbx) {
        return fault_of(ValueError::ProgramCounter);
    }
    vm.add_pc(sbx);
    Ok(())
}

pub fn load_nil(i: u32, vm: &mut LuaState) -> (r: Result<(), Pause>)
    requires
        old(vm).wf(),
    ensures
        final(vm).wf(),
        stepped(old(vm)@, final(vm)@, r, load_nil_spec(old(vm)@, i)),
{
    let (a, b, _) = i.abc();
    if !vm.has_register(a + b) {
        return fault_of(ValueError::Register);
    }
    let mut k: isize = a;
    assert(nil_run(vm@.stack, a as int, a as int) =~= vm@.stack);
    while k <= a + b
        invariant
            vm.wf(),
            0 <= a <= k <= a + b + 1,
            a + b < old(vm)@.top(),
            a < 256,
            b < 512,
            vm@ == old(vm)@.with_stack(nil_run(old(vm)@.stack, a as int, k as int)),
        decreases a + b + 1 - k,
    {
        vm.set(k + 1, LuaValue::Nil);
        assert(vm@.stack =~= nil_run(old(vm)@.stack, a as int, k + 1));
        k += 1;
    }
    Ok(())
}

pub fn load_bool(i: u32, vm: &mut LuaState) -> (r: Result<(), Pause>)
    requires
        old(vm).wf(),
    ensures
        final(vm).wf(),
        stepped(old(vm)@, final(vm)@, r, load_bool_spec(old(vm)@, i)),
{
    let (a, b, c) = i.abc();
    if !vm.has_register(a) {
        return fault_of(ValueError::Register);
    }
    if c != 0 && !vm.can_jump(1) {
        return fault_of(ValueError::ProgramCounter);
    }
    vm.set(a + 1, LuaValue::Boolean(b != 0));
    if c != 0 {
        vm.add_pc(1);
    }
    Ok(())
}

/// Puts a constant into a register.
fn load_const(vm: &mut LuaState, a: isize, k: isize) -> (r: Result<(), Pause>)
    requires
        old(vm).wf(),
    ensures
        final(vm).wf(),
        stepped(old(vm)@, final(vm)@, r, load_constant(old(vm)@, a as int, k as int)),
{
    if !vm.has_register(a) {
        return fault_of(ValueError::Register);
    }
    proof {
        vm.lemma_wf();
    }
    match vm.constant(k) {
        Some(v) => {
            vm.set(a + 1, v);
            Ok(())
        },
        None => fault_of(ValueError::Constant),
    }
}

pub fn load_k(i: u32, vm: &mut LuaState) -> (r: Result<(), Pause>)
    requires
        old(vm).wf(),
    ensures
        final(vm).wf(),
        stepped(old(vm)@, final(vm)@, r, load_k_spec(old(vm)@, i)),
{
    let (a, bx) = i.a_bx();
    load_const(vm, a, bx)
}

pub fn load_kx(i: u32, vm: &mut LuaState) -> (r: Result<(), Pause>)
    requires
        old(vm).wf(),
    ensures
        final(vm).wf(),
        stepped(old(vm)@, final(vm)@, r, load_kx_spec(old(vm)@, i)),
{
    let (a, _) = i.a_bx();
    let extra: u32 = match vm.instruction(vm.pc()) {
        Some(w) => w,
        None => {
            return fault_of(ValueError::ProgramCounter);
        },
    };
    load_const(vm, a, extra.ax())?;
    vm.add_pc(1);
    Ok(())
}

pub fn add(i: u32, vm: &mut LuaState) -> (r: Result<(), Pause>)
    requires
        old(vm).wf(),
    ensures
        final(vm).wf(),
        stepped(old(vm)@, final(vm)@, r, binary_spec(old(vm)@, i, LUA_OPADD)),
{
    binary_arith(i, vm, LUA_OPADD)
}

pub fn sub(i: u32, vm: &mut LuaState) -> (r: Result<(), Pause>)
    requires
        old(vm).wf(),
    ensures
        final(vm).wf(),
        stepped(old(vm)@, final(vm)@, r, binary_spec(old(vm)@, i, LUA_OPSUB)),
{
    binary_arith(i, vm, LUA_OPSUB)
}

pub fn mul(i: u32, vm: &mut LuaState) -> (r: Result<(), Pause>)
    requires
        old(vm).wf(),
    ensures
        final(vm).wf(),
        stepped(old(vm)@, final(vm)@, r, binary_spec(old(vm)@, i, LUA_OPMUL)),
{
    binary_arith(i, vm, LUA_OPMUL)
}

pub fn _mod(i: u32, vm: &mut LuaState) -> (r: Result<(), Pause>)
    requires
        old(vm).wf(),
    ensures
        final(vm).wf(),
        stepped(old(vm)@, final(vm)@, r, binary_spec(old(vm)@, i, LUA_OPMOD)),
{
    binary_arith(i, vm, LUA_OPMOD)
}

pub fn pow(i: u32, vm: &mut LuaState) -> (r: Result<(), Pause>)
    requires
        old(vm).wf(),
    ensures
        final(vm).wf(),
        stepped(old(vm)@, final(vm)@, r, binary_spec(old(vm)@, i, LUA_OPPOW)),
{
    binary_arith(i, vm, LUA_OPPOW)
}

pub fn div(i: u32, vm: &mut LuaState) -> (r: Result<(), Pause>)
    requires
        old(vm).wf(),
    ensures
        final(vm).wf(),
        stepped(old(vm)@, final(vm)@, r, binary_spec(old(vm)@, i, LUA_OPDIV)),
{
    binary_arith(i, vm, LUA_OPDIV)
}

pub fn idiv(i: u32, vm: &mut LuaState) -> (r: Result<(), Pause>)
    requires
        old(vm).wf(),
    ensures
        final(vm).wf(),
        stepped(old(vm)@, final(vm)@, r, binary_spec(old(vm)@, i, LUA_OPIDIV)),
{
    binary_arith(i, vm, LUA_OPIDIV)
}

pub fn band(i: u32, vm: &mut LuaState) -> (r: Result<(), Pause>)
    requires
        old(vm).wf(),
    ensures
        final(vm).wf(),
        stepped(old(vm)@, final(vm)@, r, binary_spec(old(vm)@, i, LUA_OPBAND)),
{
    binary_arith(i, vm, LUA_OPBAND)
}

pub fn bor(i: u32, vm: &mut LuaState) -> (r: Result<(), Pause>)
    requires
        old(vm).wf(),
    ensures
        final(vm).wf(),
        stepped(old(vm)@, final(vm)@, r, binary_spec(old(vm)@, i, LUA_OPBOR)),
{
    binary_arith(i, vm, LUA_OPBOR)
}

pub fn bxor(i: u32, vm: &mut LuaState) -> (r: Result<(), Pause>)
    requires
        old(vm).wf(),
    ensures
        final(vm).wf(),
        stepped(old(vm)@, final(vm)@, r, binary_spec(old(vm)@, i, LUA_OPBXOR)),
{
    binary_arith(i, vm, LUA_OPBXOR)
}

pub fn shl(i: u32, vm: &mut LuaState) -> (r: Result<(), Pause>)
    requires
        old(vm).wf(),
    ensures
        final(vm).wf(),
        stepped(old(vm)@, final(vm)@, r, binary_spec(old(vm)@, i, LUA_OPSHL)),
{
    binary_arith(i, vm, LUA_OPSHL)
}

pub fn shr(i: u32, vm: &mut LuaState) -> (r: Result<(), Pause>)
    requires
        old(vm).wf(),
    ensures
        final(vm).wf(),
        stepped(old(vm)@, final(vm)@, r, binary_spec(old(vm)@, i, LUA_OPSHR)),
{
    binary_arith(i, vm, LUA_OPSHR)
}

pub fn unm(i: u32, vm: &mut LuaState) -> (r: Result<(), Pause>)
    requires
        old(vm).wf(),
    ensures
        final(vm).wf(),
        stepped(old(vm)@, final(vm)@, r, unary_spec(old(vm)@, i, LUA_OPUNM)),
{
    unary_arith(i, vm, LUA_OPUNM)
}

pub fn bnot(i: u32, vm: &mut LuaState) -> (r: Result<(), Pause>)
    requires
        old(vm).wf(),
    ensures
        final(vm).wf(),
        stepped(old(vm)@, final(vm)@, r, unary_spec(old(vm)@, i, LUA_OPBNOT)),
{
    unary_arith(i, vm, LUA_OPBNOT)
}

/// The value of an operand that names a register or a constant.
fn operand(vm: &LuaState, x: isize) -> (r: Result<LuaValue, Pause>)
    requires
        vm.wf(),
    ensures
        match r {
            Ok(v) => vm@.rk(x as int) == Ok::<ValueView, ValueError>(v@),
            Err(p) => vm@.rk(x as int) is Err && p@ == PauseView::Fault(vm@.rk(x as int)->Err_0),
        },
{
    match vm.rk(x) {
        Ok(v) => Ok(v),
        Err(e) => Err(Pause::Fault(e)),
    }
}

pub fn binary_arith(i: u32, vm: &mut LuaState, op: u8) -> (r: Result<(), Pause>)
    requires
        old(vm).wf(),
    ensures
        final(vm).wf(),
        stepped(old(vm)@, final(vm)@, r, binary_spec(old(vm)@, i, op)),
{
    let (a, b, c) = i.abc();
    if !vm.has_register(a) {
        return fault_of(ValueError::Register);
    }
    let x = operand(vm, b)?;
    let y = operand(vm, c)?;
    let v = arith(&x, &y, op, vm.answers())?;
    vm.set(a + 1, v);
    Ok(())
}

pub fn unary_arith(i: u32, vm: &mut LuaState, op: u8) -> (r: Result<(), Pause>)
    requires
        old(vm).wf(),
    ensures
        final(vm).wf(),
        stepped(old(vm)@, final(vm)@, r, unary_spec(old(vm)@, i, op)),
{
    let (a, b, _) = i.abc();
    if !vm.has_register(a) || !vm.has_register(b) {
        return fault_of(ValueError::Register);
    }
    let x = vm.value(b + 1);
    let v = arith(&x, &x, op, vm.answers())?;
    vm.set(a + 1, v);
    Ok(())
}

pub fn eq(i: u32, vm: &mut LuaState) -> (r: Result<(), Pause>)
    requires
        old(vm).wf(),
    ensures
        final(vm).wf(),
        stepped(old(vm)@, final(vm)@, r, compare_jump_spec(old(vm)@, i, LUA_OPEQ)),
{
    compare(i, vm, LUA_OPEQ)
}

pub fn lt(i: u32, vm: &mut LuaState) -> (r: Result<(), Pause>)
    requires
        old(vm).wf(),
    ensures
        final(vm).wf(),
        stepped(old(vm)@, final(vm)@, r, compare_jump_spec(old(vm)@, i, LUA_OPLT)),
{
    compare(i, vm, LUA_OPLT)
}

pub fn le(i: u32, vm: &mut LuaState) -> (r: Result<(), Pause>)
    requires
        old(vm).wf(),
    ensures
        final(vm).wf(),
        stepped(old(vm)@, final(vm)@, r, compare_jump_spec(old(vm)@, i, LUA_OPLE)),
{
    compare(i, vm, LUA_OPLE)
}

pub fn compare(i: u32, vm: &mut LuaState, op: u8) -> (r: Result<(), Pause>)
    requires
        old(vm).wf(),
    ensures
        final(vm).wf(),
        stepped(old(vm)@, final(vm)@, r, compare_jump_spec(old(vm)@, i, op)),
{
    let (a, b, c) = i.abc();
    let x = operand(vm, b)?;
    let y = operand(vm, c)?;
    match compare_values(&x, &y, op) {
        Err(e) => fault_of(e),
        Ok(r) => {
            if r != (a != 0) {
                skip_next(vm)
            } else {
                Ok(())
            }
        },
    }
}

pub fn not(i: u32, vm: &mut LuaState) -> (r: Result<(), Pause>)
    requires
        old(vm).wf(),
    ensures
        final(vm).wf(),
        stepped(old(vm)@, final(vm)@, r, not_spec(old(vm)@, i)),
{
    let (a, b, _) = i.abc();
    if !vm.has_register(a) || !vm.has_register(b) {
        return fault_of(ValueError::Register);
    }
    let truth = vm.to_boolean(b + 1);
    vm.set(a + 1, LuaValue::Boolean(!truth));
    Ok(())
}

pub fn test(i: u32, vm: &mut LuaState) -> (r: Result<(), Pause>)
    requires
        old(vm).wf(),
    ensures
        final(vm).wf(),
        stepped(old(vm)@, final(vm)@, r, test_spec(old(vm)@, i)),
{
    let (a, _, c) = i.abc();
    if !vm.has_register(a) {
        return fault_of(ValueError::Register);
    }
    if vm.to_boolean(a + 1) != (c != 0) {
        skip_next(vm)
    } else {
        Ok(())
    }
}

pub fn test_set(i: u32, vm: &mut LuaState) -> (r: Result<(), Pause>)
    requires
        old(vm).wf(),
    ensures
        final(vm).wf(),
        stepped(old(vm)@, final(vm)@, r, test_set_spec(old(vm)@, i)),
{
    let (a, b, c) = i.abc();
    if !vm.has_register(a) || !vm.has_register(b) {
        return fault_of(ValueError::Register);
    }
    if vm.to_boolean(b + 1) == (c != 0) {
        vm.copy(b + 1, a + 1);
        Ok(())
    } else {
        skip_next(vm)
    }
}

pub fn length(i: u32, vm: &mut LuaState) -> (r: Result<(), Pause>)
    requires
        old(vm).wf(),
    ensures
        final(vm).wf(),
        stepped(old(vm)@, final(vm)@, r, length_spec(old(vm)@, i)),
{
    let (a, b, _) = i.abc();
    if !vm.has_register(a) || !vm.has_register(b) {
        return fault_of(ValueError::Register);
    }
    let x = vm.value(b + 1);
    match vm.length_of_value(&x) {
        Ok(v) => {
            vm.set(a + 1, v);
            Ok(())
        },
        Err(e) => fault_of(e),
    }
}

pub fn concat(i: u32, vm: &mut LuaState) -> (r: Result<(), Pause>)
    requires
        old(vm).wf(),
    ensures
        final(vm).wf(),
        stepped(old(vm)@, final(vm)@, r, concat_spec(old(vm)@, i)),
{
    let (a, b, c) = i.abc();
    if !vm.has_register(a) || b > c + 1 || (b <= c && !vm.has_register(c)) {
        return fault_of(ValueError::Register);
    }
    if b == c {
        vm.copy(b + 1, a + 1);
        return Ok(());
    }
    if b == c + 1 {
        vm.set(a + 1, LuaValue::Str(String::new()));
        return Ok(());
    }
    let text = vm.text_of_range(b as usize, (c + 1) as usize)?;
    vm.set(a + 1, LuaValue::Str(text));
    Ok(())
}

/// Makes a value that is to rule a numeric loop a number where it is a
/// string.
fn loop_value(vm: &LuaState, idx: isize) -> (r: Result<LuaValue, Pause>)
    requires
        vm.wf(),
        vm@.valid(idx as int),
    ensures
        match r {
            Ok(v) => loop_number(vm@.at(idx as int), vm@.answers) == Ok::<ValueView, PauseView>(
                v@,
            ),
            Err(p) => loop_number(vm@.at(idx as int), vm@.answers) == Err::<
                ValueView,
                PauseView,
            >(p@),
        },
{
    let v = vm.value(idx);
    match &v {
        LuaValue::Str(_) => match v.to_number(vm.answers()) {
            Err(t) => Err(Pause::Need(t)),
            Ok(None) => Err(Pause::Fault(ValueError::ForLoop)),
            Ok(Some(x)) => Ok(LuaValue::Number(x)),
        },
        _ => Ok(v),
    }
}

#[verifier::rlimit(50)]
pub fn for_prep(i: u32, vm: &mut LuaState) -> (r: Result<(), Pause>)
    requires
        old(vm).wf(),
    ensures
        final(vm).wf(),
        stepped(old(vm)@, final(vm)@, r, for_prep_spec(old(vm)@, i)),
{
    let (a, sbx) = i.a_sbx();
    if !vm.has_register(a + 2) {
        return fault_of(ValueError::Register);
    }
    let counter = loop_value(vm, a + 1)?;
    let limit = loop_value(vm, a + 2)?;
    let step = loop_value(vm, a + 3)?;
    let start = arith(&counter, &step, LUA_OPSUB, vm.answers())?;
    if !vm.can_jump(sbx) {
        return fault_of(ValueError::ProgramCounter);
    }
    vm.set(a + 1, start);
    vm.set(a + 2, limit);
    vm.set(a + 3, step);
    vm.add_pc(sbx);
    Ok(())
}

/// Whether a numeric loop goes on.
fn loop_continues(vm: &LuaState, next: &LuaValue, limit: &LuaValue, step: &LuaValue) -> (r: Result<
    bool,
    Pause,
>)
    requires
        vm.wf(),
    ensures
        match r {
            Ok(b) => loop_goes_on(next@, limit@, step@, vm@.answers) == Ok::<bool, PauseView>(b),
            Err(p) => loop_goes_on(next@, limit@, step@, vm@.answers) == Err::<bool, PauseView>(
                p@,
            ),
        },
{
    let x: u64 = match step.to_number(vm.answers()) {
        Err(t) => {
            return Err(Pause::Need(t));
        },
        Ok(None) => {
            return Err(Pause::Fault(ValueError::ForLoop));
        },
        Ok(Some(x)) => x,
    };
    let compared = if crate::number::float_less_eq(0, x) {
        compare_values(next, limit, LUA_OPLE)
    } else {
        compare_values(limit, next, LUA_OPLE)
    };
    match compared {
        Err(e) => Err(Pause::Fault(e)),
        Ok(r) => Ok(r),
    }
}

#[verifier::rlimit(50)]
pub fn for_loop(i: u32, vm: &mut LuaState) -> (r: Result<(), Pause>)
    requires
        old(vm).wf(),
    ensures
        final(vm).wf(),
        stepped(old(vm)@, final(vm)@, r, for_loop_spec(old(vm)@, i)),
{
    let (a, sbx) = i.a_sbx();
    if !vm.has_register(a + 3) {
        return fault_of(ValueError::Register);
    }
    let counter = vm.value(a + 1);
    let limit = vm.value(a + 2);
    let step = vm.value(a + 3);
    let next = arith(&step, &counter, LUA_OPADD, vm.answers())?;
    if loop_continues(vm, &next, &limit, &step)? {
        if !vm.can_jump(sbx) {
            return fault_of(ValueError::ProgramCounter);
        }
        vm.set(a + 1, next.clone());
        vm.set(a + 4, next);
        vm.add_pc(sbx);
    } else {
        vm.set(a + 1, next);
    }
    Ok(())
}

pub fn new_table(i: u32, vm: &mut LuaState) -> (r: Result<(), Pause>)
    requires
        old(vm).wf(),
    ensures
        final(vm).wf(),
        stepped(old(vm)@, final(vm)@, r, new_table_spec(old(vm)@, i)),
{
    let (a, _, _) = i.abc();
    if !vm.has_register(a) {
        return fault_of(ValueError::Register);
    }
    let t = vm.alloc_table(0, 0);
    vm.set(a + 1, t);
    Ok(())
}

pub fn get_table(i: u32, vm: &mut LuaState) -> (r: Result<(), Pause>)
    requires
        old(vm).wf(),
    ensures
        final(vm).wf(),
        stepped(old(vm)@, final(vm)@, r, get_table_spec(old(vm)@, i)),
{
    let (a, b, c) = i.abc();
    if !vm.has_register(a) || !vm.has_register(b) {
        return fault_of(ValueError::Register);
    }
    let k = operand(vm, c)?;
    let t = vm.value(b + 1);
    match vm.index(&t, &k) {
        Ok(v) => {
            vm.set(a + 1, v);
            Ok(())
        },
        Err(e) => fault_of(e),
    }
}

pub fn set_table(i: u32, vm: &mut LuaState) -> (r: Result<(), Pause>)
    requires
        old(vm).wf(),
    ensures
        final(vm).wf(),
        stepped(old(vm)@, final(vm)@, r, set_table_spec(old(vm)@, i)),
{
    let (a, b, c) = i.abc();
    if !vm.has_register(a) {
        return fault_of(ValueError::Register);
    }
    let k = operand(vm, b)?;
    let v = operand(vm, c)?;
    let t = vm.value(a + 1);
    match vm.store(&t, k, v) {
        Ok(_) => Ok(()),
        Err(e) => fault_of(e),
    }
}

/// Stores the registers `R(A+1)` to `R(A+n)` into the table `t` under the
/// keys `base + 1` to `base + n`.
#[verifier::rlimit(50)]
fn store_list(vm: &mut LuaState, t: &LuaValue, base: i64, a: isize, n: isize) -> (r: Result<
    (),
    ValueError,
>)
    requires
        old(vm).wf(),
        0 <= a,
        0 <= n < 512,
        a + n < old(vm)@.top(),
        0 <= base <= 0x1_0000_0000,
    ensures
        final(vm).wf(),
        match r {
            Ok(_) => stored_list(old(vm)@, t@, base as int, a as int, n as nat) == Ok::<
                StateView,
                ValueError,
            >(final(vm)@),
            Err(e) => stored_list(old(vm)@, t@, base as int, a as int, n as nat) == Err::<
                StateView,
                ValueError,
            >(e) && final(vm)@ == old(vm)@,
        },
{
    let mut j: isize = 0;
    while j < n
        invariant
            vm.wf(),
            0 <= j <= n < 512,
            0 <= a,
            a + n < old(vm)@.top(),
            0 <= base <= 0x1_0000_0000,
            vm@.stack == old(vm)@.stack,
            vm@.pc == old(vm)@.pc,
            stored_list(old(vm)@, t@, base as int, a as int, j as nat) == Ok::<
                StateView,
                ValueError,
            >(vm@),
        decreases n - j,
    {
        proof {
            vm.lemma_wf();
        }
        let v = vm.value(a + j + 2);
        let key = LuaValue::Integer(base + (j as i64) + 1);
        match vm.store(t, key, v) {
            Ok(_) => {},
            Err(e) => {
                proof {
                    lemma_stored_list(old(vm)@, t@, base as int, a as int, j as nat);
                    lemma_stored_list_fails(
                        old(vm)@,
                        t@,
                        base as int,
                        a as int,
                        (j + 1) as nat,
                        n as nat,
                    );
                }
                return Err(e);
            },
        }
        j += 1;
    }
    Ok(())
}

/// Once a store has failed, the list fails in the same way however many
/// registers are to be stored.
pub proof fn lemma_stored_list_fails(
    s: StateView,
    t: ValueView,
    base: int,
    a: int,
    j: nat,
    n: nat,
)
    requires
        j <= n,
        stored_list(s, t, base, a, j) is Err,
    ensures
        stored_list(s, t, base, a, n) == stored_list(s, t, base, a, j),
    decreases n,
{
    if j < n {
        lemma_stored_list_fails(s, t, base, a, j, (n - 1) as nat);
    }
}

/// Storing a list changes the tables alone, and fails only for want of a
/// table.
pub proof fn lemma_stored_list(s: StateView, t: ValueView, base: int, a: int, n: nat)
    requires
        0 <= base,
        base + n <= i64::MAX,
    ensures
        match stored_list(s, t, base, a, n) {
            Ok(r) => r == (StateView { tables: r.tables, ..s }) && r.tables.len()
                == s.tables.len() && (n > 0 ==> s.table_of(t) is Ok),
            Err(e) => n > 0 && s.table_of(t) == Err::<crate::table::TableView, ValueError>(e),
        },
    decreases n,
{
    if n > 0 {
        lemma_stored_list(s, t, base, a, (n - 1) as nat);
    }
}

#[verifier::rlimit(50)]
pub fn set_list(i: u32, vm: &mut LuaState) -> (r: Result<(), Pause>)
    requires
        old(vm).wf(),
    ensures
        final(vm).wf(),
        stepped(old(vm)@, final(vm)@, r, set_list_spec(old(vm)@, i)),
{
    let (a, b, c) = i.abc();
    if b == 0 {
        return fault_of(ValueError::Opcode);
    }
    if !vm.has_register(a + b) {
        return fault_of(ValueError::Register);
    }
    let mut batch: isize = c;
    if c == 0 {
        batch = match vm.instruction(vm.pc()) {
            Some(w) => w.ax(),
            None => {
                return fault_of(ValueError::ProgramCounter);
            },
        };
        if batch == 0 {
            return fault_of(ValueError::Opcode);
        }
    }
    let base: i64 = (batch as i64 - 1) * (LFIELDS_PER_FLUSH as i64);
    let t = vm.value(a + 1);
    proof {
        lemma_stored_list(vm@, t@, base as int, a as int, b as nat);
    }
    match store_list(vm, &t, base, a, b) {
        Ok(_) => {
            if c == 0 {
                vm.add_pc(1);
            }
            Ok(())
        },
        Err(e) => fault_of(e),
    }
}

/// Carries out one instruction.
#[verifier::rlimit(50)]
pub fn execute(i: u32, vm: &mut LuaState) -> (r: Result<(), Pause>)
    requires
        old(vm).wf(),
    ensures
        final(vm).wf(),
        stepped(old(vm)@, final(vm)@, r, execute_spec(old(vm)@, i)),
{
    let op: u8 = i.opcode();
    if op == OP_MOVE {
        _move(i, vm)
    } else if op == OP_LOADK {
        load_k(i, vm)
    } else if op == OP_LOADKX {
        load_kx(i, vm)
    } else if op == OP_LOADBOOL {
        load_bool(i, vm)
    } else if op == OP_LOADNIL {
        load_nil(i, vm)
    } else if op == OP_GETTABLE {
        get_table(i, vm)
    } else if op == OP_SETTABLE {
        set_table(i, vm)
    } else if op == OP_NEWTABLE {
        new_table(i, vm)
    } else if op == OP_ADD {
        self::add(i, vm)
    } else if op == OP_SUB {
        self::sub(i, vm)
    } else if op == OP_MUL {
        self::mul(i, vm)
    } else if op == OP_MOD {
        _mod(i, vm)
    } else if op == OP_POW {
        pow(i, vm)
    } else if op == OP_DIV {
        div(i, vm)
    } else if op == OP_IDIV {
        idiv(i, vm)
    } else if op == OP_BAND {
        band(i, vm)
    } else if op == OP_BOR {
        bor(i, vm)
    } else if op == OP_BXOR {
        bxor(i, vm)
    } else if op == OP_SHL {
        shl(i, vm)
    } else if op == OP_SHR {
        shr(i, vm)
    } else if op == OP_UNM {
        unm(i, vm)
    } else if op == OP_BNOT {
        bnot(i, vm)
    } else if op == OP_NOT {
        not(i, vm)
    } else if op == OP_LEN {
        length(i, vm)
    } else if op == OP_CONCAT {
        concat(i, vm)
    } else if op == OP_JMP {
        jmp(i, vm)
    } else if op == OP_EQ {
        eq(i, vm)
    } else if op == OP_LT {
        lt(i, vm)
    } else if op == OP_LE {
        le(i, vm)
    } else if op == OP_TEST {
        test(i, vm)
    } else if op == OP_TESTSET {
        test_set(i, vm)
    } else if op == OP_FORLOOP {
        for_loop(i, vm)
    } else if op == OP_FORPREP {
        for_prep(i, vm)
    } else if op == OP_SETLIST {
        set_list(i, vm)
    } else {
        fault_of(ValueError::Opcode)
    }
}

/// Fetches the next instruction and carries it out. Where the instruction
/// pauses, the program counter is put back, so that after the host's answer
/// the same call takes the instruction up again.
#[verifier::rlimit(50)]
pub fn step(vm: &mut LuaState) -> (r: Result<Step, Pause>)
    requires
        old(vm).wf(),
    ensures
        final(vm).wf(),
        match step_spec(old(vm)@) {
            Ok((s, how)) => r == Ok::<Step, Pause>(how) && final(vm)@ == s,
            Err(p) => r is Err && r->Err_0@ == p && final(vm)@ == old(vm)@,
        },
{
    proof {
        vm.lemma_wf();
    }
    let i: u32 = match vm.fetch() {
        Some(w) => w,
        None => {
            return Ok(Step::Halt);
        },
    };
    if i.opcode() == OP_RETURN {
        return Ok(Step::Halt);
    }
    match execute(i, vm) {
        Ok(_) => Ok(Step::Continue),
        Err(p) => {
            vm.add_pc(-1);
            Err(p)
        },
    }
}

/// Takes up to `max_steps` steps, and stops at the step that ends the run or
/// that pauses. `Continue` says that the steps were used up.
pub fn run(vm: &mut LuaState, max_steps: usize) -> (r: Result<Step, Pause>)
    requires
        old(vm).wf(),
    ensures
        final(vm).wf(),
        final(vm)@ == run_spec(old(vm)@, max_steps as nat).0,
        match run_spec(old(vm)@, max_steps as nat).1 {
            Ok(how) => r == Ok::<Step, Pause>(how),
            Err(p) => r is Err && r->Err_0@ == p,
        },
{
    let mut left: usize = max_steps;
    while left > 0
        invariant
            vm.wf(),
            run_spec(old(vm)@, max_steps as nat) == run_spec(vm@, left as nat),
        decreases left,
    {
        match step(vm) {
            Ok(Step::Continue) => {},
            Ok(Step::Halt) => {
                return Ok(Step::Halt);
            },
            Err(p) => {
                return Err(p);
            },
        }
        left -= 1;
    }
    Ok(Step::Continue)
}

/// A step over a comparison moves the program counter by one where the
/// comparison comes out as the operand `A` expects, and by two where it does
/// not. There has to be an instruction to pass over.
pub proof fn lemma_comparison_step(s: StateView)
    requires
        0 <= s.pc,
        s.pc + 2 <= s.proto.code.len(),
        op_of(s.proto.code[s.pc]) == OP_EQ || op_of(s.proto.code[s.pc]) == OP_LT || op_of(
            s.proto.code[s.pc],
        ) == OP_LE,
        s.rk(b_of(s.proto.code[s.pc])) is Ok,
        s.rk(c_of(s.proto.code[s.pc])) is Ok,
        compare_spec(
            s.rk(b_of(s.proto.code[s.pc]))->Ok_0,
            s.rk(c_of(s.proto.code[s.pc]))->Ok_0,
            (op_of(s.proto.code[s.pc]) - OP_EQ) as u8,
        ) is Ok,
    ensures
        step_spec(s) == Ok::<(StateView, Step), PauseView>(
            (
                s.jump(
                    if compare_spec(
                        s.rk(b_of(s.proto.code[s.pc]))->Ok_0,
                        s.rk(c_of(s.proto.code[s.pc]))->Ok_0,
                        (op_of(s.proto.code[s.pc]) - OP_EQ) as u8,
                    )->Ok_0 != (a_of(s.proto.code[s.pc]) != 0) {
                        2
                    } else {
                        1
                    },
                ),
                Step::Continue,
            ),
        ),
{
    let i = s.proto.code[s.pc];
    let t = s.jump(1);
    assert(t.rk(b_of(i)) == s.rk(b_of(i)));
    assert(t.rk(c_of(i)) == s.rk(c_of(i)));
    assert(t.jump(1) == s.jump(2));
}

/// A comparison that comes out otherwise than its instruction expects makes
/// the step pass over the next instruction: where `RK(B) < RK(C)` holds and
/// the operand `A` is 0, the program counter moves by two, not by one. There
/// has to be an instruction to pass over.
pub proof fn lemma_less_than_skips(s: StateView)
    requires
        0 <= s.pc,
        s.pc + 2 <= s.proto.code.len(),
        op_of(s.proto.code[s.pc]) == OP_LT,
        a_of(s.proto.code[s.pc]) == 0,
        s.rk(b_of(s.proto.code[s.pc])) is Ok,
        s.rk(c_of(s.proto.code[s.pc])) is Ok,
        lt_spec(s.rk(b_of(s.proto.code[s.pc]))->Ok_0, s.rk(c_of(s.proto.code[s.pc]))->Ok_0)
            == Some(true),
    ensures
        step_spec(s) == Ok::<(StateView, Step), PauseView>((s.jump(2), Step::Continue)),
{
    let i = s.proto.code[s.pc];
    let t = s.jump(1);
    assert(t.rk(b_of(i)) == s.rk(b_of(i)));
    assert(t.rk(c_of(i)) == s.rk(c_of(i)));
    assert(t.jump(1) == s.jump(2));
}

} // verus!
