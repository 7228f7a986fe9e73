use luavm::arith::{
    arith, compare_values, values_equal, values_less, values_less_eq, LUA_OPADD, LUA_OPBAND,
    LUA_OPBNOT, LUA_OPBOR, LUA_OPBXOR, LUA_OPDIV, LUA_OPEQ, LUA_OPIDIV, LUA_OPLE, LUA_OPLT,
    LUA_OPMOD, LUA_OPMUL, LUA_OPPOW, LUA_OPSHL, LUA_OPSHR, LUA_OPSUB, LUA_OPUNM,
};
use luavm::error::ValueError;
use luavm::host::{FloatAnswers, FloatOp, FloatTask, Pause};
use luavm::value::LuaValue;

fn num(i: i64) -> LuaValue {
    LuaValue::Integer(i)
}

fn float(x: f64) -> LuaValue {
    LuaValue::Number(x.to_bits())
}

fn text(s: &str) -> LuaValue {
    LuaValue::Str(s.to_string())
}

fn on_integers(op: u8, x: i64, y: i64) -> Result<LuaValue, Pause> {
    arith(&num(x), &num(y), op, &FloatAnswers::new())
}

#[test]
fn integer_arithmetic_wraps_round() {
    assert_eq!(on_integers(LUA_OPADD, 2, 3), Ok(num(5)));
    assert_eq!(on_integers(LUA_OPADD, i64::MAX, 1), Ok(num(i64::MIN)));
    assert_eq!(on_integers(LUA_OPADD, i64::MIN, -1), Ok(num(i64::MAX)));
    assert_eq!(on_integers(LUA_OPSUB, 2, 3), Ok(num(-1)));
    assert_eq!(on_integers(LUA_OPSUB, i64::MIN, 1), Ok(num(i64::MAX)));
    assert_eq!(on_integers(LUA_OPMUL, -4, 5), Ok(num(-20)));
    assert_eq!(on_integers(LUA_OPMUL, i64::MAX, 2), Ok(num(-2)));
    assert_eq!(on_integers(LUA_OPMUL, i64::MIN, -1), Ok(num(i64::MIN)));
    assert_eq!(on_integers(LUA_OPMUL, 1 << 32, 1 << 32), Ok(num(0)));
    assert_eq!(on_integers(LUA_OPUNM, 5, 5), Ok(num(-5)));
    assert_eq!(on_integers(LUA_OPUNM, i64::MIN, i64::MIN), Ok(num(i64::MIN)));
}

#[test]
fn integer_division_goes_by_the_floor() {
    assert_eq!(on_integers(LUA_OPIDIV, 7, 2), Ok(num(3)));
    assert_eq!(on_integers(LUA_OPIDIV, -7, 2), Ok(num(-4)));
    assert_eq!(on_integers(LUA_OPIDIV, 7, -2), Ok(num(-4)));
    assert_eq!(on_integers(LUA_OPIDIV, i64::MIN, -1), Ok(num(i64::MIN)));
    assert_eq!(on_integers(LUA_OPMOD, 7, 3), Ok(num(1)));
    assert_eq!(on_integers(LUA_OPMOD, -7, 3), Ok(num(2)));
    assert_eq!(on_integers(LUA_OPMOD, 7, -3), Ok(num(-2)));
    assert_eq!(on_integers(LUA_OPMOD, i64::MIN, -1), Ok(num(0)));
    assert_eq!(on_integers(LUA_OPIDIV, 1, 0), Err(Pause::Fault(ValueError::DivideByZero)));
    assert_eq!(on_integers(LUA_OPMOD, 1, 0), Err(Pause::Fault(ValueError::DivideByZero)));
}

#[test]
fn bitwise_operators_work_on_the_bits() {
    assert_eq!(on_integers(LUA_OPBAND, 0b1100, 0b1010), Ok(num(0b1000)));
    assert_eq!(on_integers(LUA_OPBOR, 0b1100, 0b1010), Ok(num(0b1110)));
    assert_eq!(on_integers(LUA_OPBXOR, 0b1100, 0b1010), Ok(num(0b0110)));
    assert_eq!(on_integers(LUA_OPBAND, -1, 0xff), Ok(num(0xff)));
    assert_eq!(on_integers(LUA_OPBXOR, -1, 0), Ok(num(-1)));
    assert_eq!(on_integers(LUA_OPSHL, 1, 10), Ok(num(1024)));
    assert_eq!(on_integers(LUA_OPSHR, -1, 60), Ok(num(15)));
    assert_eq!(on_integers(LUA_OPSHL, 1, 64), Ok(num(0)));
    assert_eq!(on_integers(LUA_OPSHR, 1024, -2), Ok(num(4096)));
    assert_eq!(on_integers(LUA_OPBNOT, 0, 0), Ok(num(-1)));
    assert_eq!(on_integers(LUA_OPBNOT, i64::MIN, 0), Ok(num(i64::MAX)));
    assert_eq!(on_integers(LUA_OPBNOT, 5, 0), Ok(num(!5)));
}

#[test]
fn bitwise_operators_take_whole_floats_and_integer_strings() {
    let none = FloatAnswers::new();
    assert_eq!(arith(&float(6.0), &num(3), LUA_OPBAND, &none), Ok(num(2)));
    assert_eq!(arith(&text("6"), &text("3"), LUA_OPBOR, &none), Ok(num(7)));
    assert_eq!(
        arith(&float(6.5), &num(3), LUA_OPBAND, &none),
        Err(Pause::Fault(ValueError::Arithmetic))
    );
    assert_eq!(
        arith(&num(1), &LuaValue::Nil, LUA_OPSHL, &none),
        Err(Pause::Fault(ValueError::Arithmetic))
    );
    assert_eq!(
        arith(&text("6.0"), &num(3), LUA_OPBAND, &none),
        Err(Pause::Need(FloatTask::Parse("6.0".to_string())))
    );
    let mut answers = FloatAnswers::new();
    answers.record_parse("6.0".to_string(), Some(6.0f64.to_bits()));
    assert_eq!(arith(&text("6.0"), &num(3), LUA_OPBAND, &answers), Ok(num(2)));
}

#[test]
fn division_and_power_are_always_on_floats() {
    let mut answers = FloatAnswers::new();
    let (x, y) = (6.0f64.to_bits(), 3.0f64.to_bits());
    assert_eq!(
        arith(&num(6), &num(3), LUA_OPDIV, &answers),
        Err(Pause::Need(FloatTask::Arith(FloatOp::Div, x, y)))
    );
    assert_eq!(
        arith(&num(6), &num(3), LUA_OPPOW, &answers),
        Err(Pause::Need(FloatTask::Arith(FloatOp::Pow, x, y)))
    );
    answers.record_arith(FloatOp::Div, x, y, 2.0f64.to_bits());
    answers.record_arith(FloatOp::Pow, x, y, 216.0f64.to_bits());
    assert_eq!(arith(&num(6), &num(3), LUA_OPDIV, &answers), Ok(float(2.0)));
    assert_eq!(arith(&num(6), &num(3), LUA_OPPOW, &answers), Ok(float(216.0)));
}

#[test]
fn a_float_operand_makes_the_operation_one_on_floats() {
    let mut answers = FloatAnswers::new();
    let cases = [
        (LUA_OPADD, FloatOp::Add),
        (LUA_OPSUB, FloatOp::Sub),
        (LUA_OPMUL, FloatOp::Mul),
        (LUA_OPMOD, FloatOp::Mod),
        (LUA_OPIDIV, FloatOp::IDiv),
    ];
    for (n, (op, fop)) in cases.iter().enumerate() {
        let task = FloatTask::Arith(*fop, 7.0f64.to_bits(), 0.5f64.to_bits());
        assert_eq!(arith(&num(7), &float(0.5), *op, &answers), Err(Pause::Need(task)));
        answers.record_arith(*fop, 7.0f64.to_bits(), 0.5f64.to_bits(), (n as f64).to_bits());
        assert_eq!(arith(&num(7), &float(0.5), *op, &answers), Ok(float(n as f64)));
    }
    assert_eq!(arith(&float(0.5), &float(0.5), LUA_OPUNM, &answers), Ok(float(-0.5)));
    assert_eq!(arith(&float(-0.0), &float(-0.0), LUA_OPUNM, &answers), Ok(float(0.0)));
}

#[test]
fn strings_are_read_as_floats_first_operand_first() {
    let mut answers = FloatAnswers::new();
    assert_eq!(
        arith(&text("10"), &text("x"), LUA_OPADD, &answers),
        Err(Pause::Need(FloatTask::Parse("10".to_string())))
    );
    answers.record_parse("10".to_string(), Some(10.0f64.to_bits()));
    assert_eq!(
        arith(&text("10"), &text("x"), LUA_OPADD, &answers),
        Err(Pause::Need(FloatTask::Parse("x".to_string())))
    );
    answers.record_parse("x".to_string(), None);
    assert_eq!(
        arith(&text("10"), &text("x"), LUA_OPADD, &answers),
        Err(Pause::Fault(ValueError::Arithmetic))
    );
    assert_eq!(
        arith(&text("10"), &num(1), LUA_OPADD, &answers),
        Err(Pause::Need(FloatTask::Arith(FloatOp::Add, 10.0f64.to_bits(), 1.0f64.to_bits())))
    );
}

#[test]
fn what_is_no_number_cannot_be_computed_with() {
    let none = FloatAnswers::new();
    for bad in [LuaValue::Nil, LuaValue::Boolean(true), LuaValue::Table(0)] {
        assert_eq!(
            arith(&bad, &num(1), LUA_OPADD, &none),
            Err(Pause::Fault(ValueError::Arithmetic))
        );
        assert_eq!(
            arith(&num(1), &bad, LUA_OPMUL, &none),
            Err(Pause::Fault(ValueError::Arithmetic))
        );
        assert_eq!(
            arith(&bad, &bad, LUA_OPBNOT, &none),
            Err(Pause::Fault(ValueError::Arithmetic))
        );
    }
    assert_eq!(arith(&num(1), &num(1), 14, &none), Err(Pause::Fault(ValueError::Opcode)));
    assert_eq!(arith(&num(1), &num(1), 255, &none), Err(Pause::Fault(ValueError::Opcode)));
}

#[test]
fn equality_lets_an_integer_equal_a_float() {
    assert!(values_equal(&num(1), &float(1.0)));
    assert!(values_equal(&float(1.0), &num(1)));
    assert!(!values_equal(&num(1), &float(1.5)));
    assert!(values_equal(&num(0), &float(-0.0)));
    assert!(!values_equal(&num(0), &float(f64::NAN)));
    assert!(values_equal(&num((1 << 53) + 1), &float(9007199254740992.0)));
    assert!(values_equal(&text("a"), &text("a")));
    assert!(!values_equal(&text("1"), &num(1)));
    assert!(values_equal(&LuaValue::Nil, &LuaValue::Nil));
    assert!(!values_equal(&LuaValue::Nil, &LuaValue::Boolean(false)));
    assert!(values_equal(&LuaValue::Table(1), &LuaValue::Table(1)));
    assert!(!values_equal(&LuaValue::Table(1), &LuaValue::Table(2)));
    assert!(!values_equal(&float(f64::NAN), &float(f64::NAN)));
}

#[test]
fn numbers_are_ordered_by_value() {
    assert_eq!(values_less(&num(1), &num(2)), Some(true));
    assert_eq!(values_less(&num(2), &num(2)), Some(false));
    assert_eq!(values_less_eq(&num(2), &num(2)), Some(true));
    assert_eq!(values_less(&num(1), &float(1.5)), Some(true));
    assert_eq!(values_less(&float(1.5), &num(1)), Some(false));
    assert_eq!(values_less_eq(&float(1.0), &num(1)), Some(true));
    assert_eq!(values_less(&float(-1.0), &float(-0.5)), Some(true));
    assert_eq!(values_less(&float(f64::NAN), &num(1)), Some(false));
    assert_eq!(values_less_eq(&num(1), &float(f64::NAN)), Some(false));
    assert_eq!(values_less(&num(i64::MIN), &float(f64::NEG_INFINITY)), Some(false));
    assert_eq!(values_less(&num(i64::MAX), &float(f64::INFINITY)), Some(true));
}

#[test]
fn strings_are_ordered_by_their_bytes() {
    let order = ["", "A", "Z", "a", "aa", "ab", "b", "\u{e9}", "\u{4e16}"];
    for (i, x) in order.iter().enumerate() {
        for (j, y) in order.iter().enumerate() {
            assert_eq!(values_less(&text(x), &text(y)), Some(i < j), "{:?} < {:?}", x, y);
            assert_eq!(values_less_eq(&text(x), &text(y)), Some(i <= j), "{:?} <= {:?}", x, y);
        }
    }
}

#[test]
fn other_values_have_no_order() {
    assert_eq!(values_less(&text("1"), &num(2)), None);
    assert_eq!(values_less(&num(2), &text("1")), None);
    assert_eq!(values_less(&LuaValue::Nil, &LuaValue::Nil), None);
    assert_eq!(values_less_eq(&LuaValue::Boolean(false), &LuaValue::Boolean(true)), None);
    assert_eq!(values_less_eq(&LuaValue::Table(0), &LuaValue::Table(1)), None);
    assert_eq!(
        compare_values(&LuaValue::Nil, &num(1), LUA_OPLT),
        Err(ValueError::Comparison)
    );
    assert_eq!(
        compare_values(&LuaValue::Nil, &num(1), LUA_OPLE),
        Err(ValueError::Comparison)
    );
    assert_eq!(compare_values(&LuaValue::Nil, &num(1), LUA_OPEQ), Ok(false));
    assert_eq!(compare_values(&num(1), &num(2), LUA_OPLT), Ok(true));
    assert_eq!(compare_values(&num(3), &num(2), LUA_OPLE), Ok(false));
    assert_eq!(compare_values(&num(1), &num(2), 9), Err(ValueError::Opcode));
}
