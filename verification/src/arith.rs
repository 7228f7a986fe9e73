//! Arithmetic and comparison on values.

use vstd::prelude::*;
use vstd::utf8::encode_utf8;
use crate::error::ValueError;
use crate::host::{
    FloatAnswers, FloatAnswersView, FloatOp, FloatTask, FloatTaskView, Pause, PauseView,
};
use crate::number::{
    float_eq, float_equal, float_le, float_less, float_less_eq, float_lt, float_neg,
    float_negate, floor_div, floor_mod, floor_quotient, floor_remainder, int_to_float,
    integer_to_float, shift_left, shift_right, shl_spec, shr_spec, wrap,
};
use crate::value::{LuaValue, ValueView};

verus! {

pub const LUA_OPADD: u8 = 0;

pub const LUA_OPSUB: u8 = 1;

pub const LUA_OPMUL: u8 = 2;

pub const LUA_OPMOD: u8 = 3;

pub const LUA_OPPOW: u8 = 4;

pub const LUA_OPDIV: u8 = 5;

pub const LUA_OPIDIV: u8 = 6;

pub const LUA_OPBAND: u8 = 7;

pub const LUA_OPBOR: u8 = 8;

pub const LUA_OPBXOR: u8 = 9;

pub const LUA_OPSHL: u8 = 10;

pub const LUA_OPSHR: u8 = 11;

pub const LUA_OPUNM: u8 = 12;

pub const LUA_OPBNOT: u8 = 13;

pub const LUA_OPEQ: u8 = 0;

pub const LUA_OPLT: u8 = 1;

pub const LUA_OPLE: u8 = 2;

/// Whether the operator works on the bits of integers.
pub open spec fn is_bitwise(op: u8) -> bool {
    LUA_OPBAND <= op <= LUA_OPSHR || op == LUA_OPBNOT
}

/// Whether the operator gives an integer when both operands are integers.
pub open spec fn keeps_integers(op: u8) -> bool {
    op == LUA_OPADD || op == LUA_OPSUB || op == LUA_OPMUL || op == LUA_OPMOD || op == LUA_OPIDIV
        || op == LUA_OPUNM
}

/// The operator on two integers. Sums, differences and products wrap round;
/// division and remainder go by the floor and fail on a divisor of 0. The
/// one-place operators take their operand first and ignore the second.
pub open spec fn integer_op(op: u8, x: i64, y: i64) -> Result<i64, ValueError> {
    if op == LUA_OPADD {
        Ok(wrap(x + y))
    } else if op == LUA_OPSUB {
        Ok(wrap(x - y))
    } else if op == LUA_OPMUL {
        Ok(wrap(x * y))
    } else if op == LUA_OPMOD {
        if y == 0 {
            Err(ValueError::DivideByZero)
        } else {
            Ok(floor_remainder(x as int, y as int) as i64)
        }
    } else if op == LUA_OPIDIV {
        if y == 0 {
            Err(ValueError::DivideByZero)
        } else {
            Ok(wrap(floor_quotient(x as int, y as int)))
        }
    } else if op == LUA_OPUNM {
        Ok(wrap(-x))
    } else if op == LUA_OPBAND {
        Ok(x & y)
    } else if op == LUA_OPBOR {
        Ok(x | y)
    } else if op == LUA_OPBXOR {
        Ok(x ^ y)
    } else if op == LUA_OPSHL {
        Ok(shl_spec(x, y))
    } else if op == LUA_OPSHR {
        Ok(shr_spec(x, y))
    } else if op == LUA_OPBNOT {
        Ok((-1 - x) as i64)
    } else {
        Err(ValueError::Opcode)
    }
}

/// The work on doubles that the operator stands for, where it rounds.
pub open spec fn float_op(op: u8) -> Option<FloatOp> {
    if op == LUA_OPADD {
        Some(FloatOp::Add)
    } else if op == LUA_OPSUB {
        Some(FloatOp::Sub)
    } else if op == LUA_OPMUL {
        Some(FloatOp::Mul)
    } else if op == LUA_OPMOD {
        Some(FloatOp::Mod)
    } else if op == LUA_OPPOW {
        Some(FloatOp::Pow)
    } else if op == LUA_OPDIV {
        Some(FloatOp::Div)
    } else if op == LUA_OPIDIV {
        Some(FloatOp::IDiv)
    } else {
        None
    }
}

/// The operator on two doubles: the negative of the first, or the answer of
/// the host.
pub open spec fn number_op(op: u8, x: u64, y: u64, answers: FloatAnswersView) -> Result<
    ValueView,
    PauseView,
> {
    if op == LUA_OPUNM {
        Ok(ValueView::Number(float_neg(x)))
    } else {
        match float_op(op) {
            Some(f) => if answers.arith.contains_key((f, x, y)) {
                Ok(ValueView::Number(answers.arith[(f, x, y)]))
            } else {
                Err(PauseView::Need(FloatTaskView::Arith(f, x, y)))
            },
            None => Err(PauseView::Fault(ValueError::Opcode)),
        }
    }
}

/// The result of an operator on two values.
///
/// A bitwise operator needs both operands as integers. Any other operator
/// gives an integer where both operands are integers and the operator keeps
/// integers; else it needs both as floats. An operand that cannot be had so
/// is a fault. Reading a string as a number is asked of the host, first for
/// the first operand.
pub open spec fn arith_spec(
    a: ValueView,
    b: ValueView,
    op: u8,
    answers: FloatAnswersView,
) -> Result<ValueView, PauseView> {
    if op > LUA_OPBNOT {
        Err(PauseView::Fault(ValueError::Opcode))
    } else if is_bitwise(op) {
        match a.to_integer(answers) {
            Err(t) => Err(PauseView::Need(t)),
            Ok(None) => Err(PauseView::Fault(ValueError::Arithmetic)),
            Ok(Some(x)) => match b.to_integer(answers) {
                Err(t) => Err(PauseView::Need(t)),
                Ok(None) => Err(PauseView::Fault(ValueError::Arithmetic)),
                Ok(Some(y)) => Ok(ValueView::Integer(integer_op(op, x, y)->Ok_0)),
            },
        }
    } else if keeps_integers(op) && a is Integer && b is Integer {
        match integer_op(op, a->Integer_0, b->Integer_0) {
            Ok(r) => Ok(ValueView::Integer(r)),
            Err(e) => Err(PauseView::Fault(e)),
        }
    } else {
        match a.to_number(answers) {
            Err(t) => Err(PauseView::Need(t)),
            Ok(None) => Err(PauseView::Fault(ValueError::Arithmetic)),
            Ok(Some(x)) => match b.to_number(answers) {
                Err(t) => Err(PauseView::Need(t)),
                Ok(None) => Err(PauseView::Fault(ValueError::Arithmetic)),
                Ok(Some(y)) => number_op(op, x, y, answers),
            },
        }
    }
}

/// The view of a result that may be a pause.
pub open spec fn or_pause<T: View>(r: Result<T, Pause>) -> Result<T::V, PauseView> {
    match r {
        Ok(v) => Ok(v@),
        Err(p) => Err(p@),
    }
}

fn integer_arith(op: u8, x: i64, y: i64) -> (r: Result<i64, ValueError>)
    ensures
        r == integer_op(op, x, y),
{
    if op == LUA_OPADD {
        Ok(x.wrapping_add(y))
    } else if op == LUA_OPSUB {
        Ok(x.wrapping_sub(y))
    } else if op == LUA_OPMUL {
        Ok(x.wrapping_mul(y))
    } else if op == LUA_OPMOD {
        if y == 0 {
            Err(ValueError::DivideByZero)
        } else {
            Ok(floor_mod(x, y))
        }
    } else if op == LUA_OPIDIV {
        if y == 0 {
            Err(ValueError::DivideByZero)
        } else {
            Ok(floor_div(x, y))
        }
    } else if op == LUA_OPUNM {
        Ok(0i64.wrapping_sub(x))
    } else if op == LUA_OPBAND {
        Ok(x & y)
    } else if op == LUA_OPBOR {
        Ok(x | y)
    } else if op == LUA_OPBXOR {
        Ok(x ^ y)
    } else if op == LUA_OPSHL {
        Ok(shift_left(x, y))
    } else if op == LUA_OPSHR {
        Ok(shift_right(x, y))
    } else if op == LUA_OPBNOT {
        Ok(-1 - x)
    } else {
        Err(ValueError::Opcode)
    }
}

fn float_op_for(op: u8) -> (r: Option<FloatOp>)
    ensures
        r == float_op(op),
{
    if op == LUA_OPADD {
        Some(FloatOp::Add)
    } else if op == LUA_OPSUB {
        Some(FloatOp::Sub)
    } else if op == LUA_OPMUL {
        Some(FloatOp::Mul)
    } else if op == LUA_OPMOD {
        Some(FloatOp::Mod)
    } else if op == LUA_OPPOW {
        Some(FloatOp::Pow)
    } else if op == LUA_OPDIV {
        Some(FloatOp::Div)
    } else if op == LUA_OPIDIV {
        Some(FloatOp::IDiv)
    } else {
        None
    }
}

/// Applies an operator to two values. A one-place operator takes its operand
/// in both places.
pub fn arith(a: &LuaValue, b: &LuaValue, op: u8, answers: &FloatAnswers) -> (r: Result<
    LuaValue,
    Pause,
>)
    requires
        answers.wf(),
    ensures
        or_pause(r) == arith_spec(a@, b@, op, answers@),
{
    if op > LUA_OPBNOT {
        return Err(Pause::Fault(ValueError::Opcode));
    }
    let bitwise = (LUA_OPBAND <= op && op <= LUA_OPSHR) || op == LUA_OPBNOT;
    if bitwise {
        let x: i64 = match a.to_integer(answers) {
            Err(t) => {
                return Err(Pause::Need(t));
            },
            Ok(None) => {
                return Err(Pause::Fault(ValueError::Arithmetic));
            },
            Ok(Some(x)) => x,
        };
        let y: i64 = match b.to_integer(answers) {
            Err(t) => {
                return Err(Pause::Need(t));
            },
            Ok(None) => {
                return Err(Pause::Fault(ValueError::Arithmetic));
            },
            Ok(Some(y)) => y,
        };
        match integer_arith(op, x, y) {
            Ok(v) => {
                return Ok(LuaValue::Integer(v));
            },
            Err(e) => {
                return Err(Pause::Fault(e));
            },
        }
    }
    let keeps = op == LUA_OPADD || op == LUA_OPSUB || op == LUA_OPMUL || op == LUA_OPMOD || op
        == LUA_OPIDIV || op == LUA_OPUNM;
    if keeps {
        if let LuaValue::Integer(x) = a {
            if let LuaValue::Integer(y) = b {
                return match integer_arith(op, *x, *y) {
                    Ok(v) => Ok(LuaValue::Integer(v)),
                    Err(e) => Err(Pause::Fault(e)),
                };
            }
        }
    }
    let x: u64 = match a.to_number(answers) {
        Err(t) => {
            return Err(Pause::Need(t));
        },
        Ok(None) => {
            return Err(Pause::Fault(ValueError::Arithmetic));
        },
        Ok(Some(x)) => x,
    };
    let y: u64 = match b.to_number(answers) {
        Err(t) => {
            return Err(Pause::Need(t));
        },
        Ok(None) => {
            return Err(Pause::Fault(ValueError::Arithmetic));
        },
        Ok(Some(y)) => y,
    };
    if op == LUA_OPUNM {
        return Ok(LuaValue::Number(float_negate(x)));
    }
    match float_op_for(op) {
        Some(f) => match answers.arith(f, x, y) {
            Some(v) => Ok(LuaValue::Number(v)),
            None => Err(Pause::Need(FloatTask::Arith(f, x, y))),
        },
        None => Err(Pause::Fault(ValueError::Opcode)),
    }
}

/// Whether the first sequence of bytes comes before the second in the order
/// of a dictionary.
pub open spec fn bytes_lt(a: Seq<u8>, b: Seq<u8>) -> bool
    decreases a.len(),
{
    if b.len() == 0 {
        false
    } else if a.len() == 0 {
        true
    } else if a[0] != b[0] {
        a[0] < b[0]
    } else {
        bytes_lt(a.skip(1), b.skip(1))
    }
}

/// `a == b` as the machine's comparison takes it: as equality of values,
/// but an integer and a float are equal where the float nearest to the
/// integer equals the float.
pub open spec fn eq_spec(a: ValueView, b: ValueView) -> bool {
    match (a, b) {
        (ValueView::Integer(x), ValueView::Number(y)) => float_eq(int_to_float(x), y),
        (ValueView::Number(x), ValueView::Integer(y)) => float_eq(x, int_to_float(y)),
        _ => a.equals(b),
    }
}

/// `a < b`: on two strings by their bytes, on two numbers by their values,
/// an integer beside a float taken as the float nearest to it. Nothing else
/// has an order.
pub open spec fn lt_spec(a: ValueView, b: ValueView) -> Option<bool> {
    match (a, b) {
        (ValueView::Str(x), ValueView::Str(y)) => Some(bytes_lt(encode_utf8(x), encode_utf8(y))),
        (ValueView::Integer(x), ValueView::Integer(y)) => Some(x < y),
        (ValueView::Integer(x), ValueView::Number(y)) => Some(float_lt(int_to_float(x), y)),
        (ValueView::Number(x), ValueView::Integer(y)) => Some(float_lt(x, int_to_float(y))),
        (ValueView::Number(x), ValueView::Number(y)) => Some(float_lt(x, y)),
        _ => None,
    }
}

/// `a <= b`, on the pairs of values on which `<` is defined.
pub open spec fn le_spec(a: ValueView, b: ValueView) -> Option<bool> {
    match (a, b) {
        (ValueView::Str(x), ValueView::Str(y)) => Some(!bytes_lt(encode_utf8(y), encode_utf8(x))),
        (ValueView::Integer(x), ValueView::Integer(y)) => Some(x <= y),
        (ValueView::Integer(x), ValueView::Number(y)) => Some(float_le(int_to_float(x), y)),
        (ValueView::Number(x), ValueView::Integer(y)) => Some(float_le(x, int_to_float(y))),
        (ValueView::Number(x), ValueView::Number(y)) => Some(float_le(x, y)),
        _ => None,
    }
}

/// The outcome of a comparison: `==` always has one, `<` and `<=` only on
/// values that have an order.
pub open spec fn compare_spec(a: ValueView, b: ValueView, op: u8) -> Result<bool, ValueError> {
    if op == LUA_OPEQ {
        Ok(eq_spec(a, b))
    } else if op == LUA_OPLT {
        match lt_spec(a, b) {
            Some(r) => Ok(r),
            None => Err(ValueError::Comparison),
        }
    } else if op == LUA_OPLE {
        match le_spec(a, b) {
            Some(r) => Ok(r),
            None => Err(ValueError::Comparison),
        }
    } else {
        Err(ValueError::Opcode)
    }
}

fn bytes_less(a: &[u8], b: &[u8]) -> (r: bool)
    ensures
        r == bytes_lt(a@, b@),
{
    let mut i: usize = 0;
    assert(a@.skip(0) =~= a@ && b@.skip(0) =~= b@);
    loop
        invariant
            i <= a@.len(),
            i <= b@.len(),
            bytes_lt(a@, b@) == bytes_lt(a@.skip(i as int), b@.skip(i as int)),
        decreases a@.len() - i,
    {
        if i >= b.len() {
            return false;
        }
        if i >= a.len() {
            return true;
        }
        if a[i] != b[i] {
            return a[i] < b[i];
        }
        assert(a@.skip(i as int).skip(1) =~= a@.skip(i + 1));
        assert(b@.skip(i as int).skip(1) =~= b@.skip(i + 1));
        i += 1;
    }
}

pub fn values_equal(a: &LuaValue, b: &LuaValue) -> (r: bool)
    ensures
        r == eq_spec(a@, b@),
{
    match (a, b) {
        (LuaValue::Integer(x), LuaValue::Number(y)) => float_equal(integer_to_float(*x), *y),
        (LuaValue::Number(x), LuaValue::Integer(y)) => float_equal(*x, integer_to_float(*y)),
        _ => *a == *b,
    }
}

pub fn values_less(a: &LuaValue, b: &LuaValue) -> (r: Option<bool>)
    ensures
        r == lt_spec(a@, b@),
{
    match (a, b) {
        (LuaValue::Str(x), LuaValue::Str(y)) => Some(
            bytes_less(x.as_str().as_bytes(), y.as_str().as_bytes()),
        ),
        (LuaValue::Integer(x), LuaValue::Integer(y)) => Some(*x < *y),
        (LuaValue::Integer(x), LuaValue::Number(y)) => Some(float_less(integer_to_float(*x), *y)),
        (LuaValue::Number(x), LuaValue::Integer(y)) => Some(float_less(*x, integer_to_float(*y))),
        (LuaValue::Number(x), LuaValue::Number(y)) => Some(float_less(*x, *y)),
        _ => None,
    }
}

pub fn values_less_eq(a: &LuaValue, b: &LuaValue) -> (r: Option<bool>)
    ensures
        r == le_spec(a@, b@),
{
    match (a, b) {
        (LuaValue::Str(x), LuaValue::Str(y)) => Some(
            !bytes_less(y.as_str().as_bytes(), x.as_str().as_bytes()),
        ),
        (LuaValue::Integer(x), LuaValue::Integer(y)) => Some(*x <= *y),
        (LuaValue::Integer(x), LuaValue::Number(y)) => Some(
            float_less_eq(integer_to_float(*x), *y),
        ),
        (LuaValue::Number(x), LuaValue::Integer(y)) => Some(
            float_less_eq(*x, integer_to_float(*y)),
        ),
        (LuaValue::Number(x), LuaValue::Number(y)) => Some(float_less_eq(*x, *y)),
        _ => None,
    }
}

/// Compares two values under `==`, `<` or `<=`.
pub fn compare_values(a: &LuaValue, b: &LuaValue, op: u8) -> (r: Result<bool, ValueError>)
    ensures
        r == compare_spec(a@, b@, op),
{
    if op == LUA_OPEQ {
        Ok(values_equal(a, b))
    } else if op == LUA_OPLT {
        match values_less(a, b) {
            Some(r) => Ok(r),
            None => Err(ValueError::Comparison),
        }
    } else if op == LUA_OPLE {
        match values_less_eq(a, b) {
            Some(r) => Ok(r),
            None => Err(ValueError::Comparison),
        }
    } else {
        Err(ValueError::Opcode)
    }
}

} // verus!
