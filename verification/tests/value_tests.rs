use luavm::host::{FloatAnswers, FloatTask};
use luavm::value::{
    string_to_integer, LuaValue, LUA_TBOOLEAN, LUA_TNIL, LUA_TNUMBER, LUA_TSTRING, LUA_TTABLE,
};

fn text(s: &str) -> LuaValue {
    LuaValue::Str(s.to_string())
}

fn float(x: f64) -> LuaValue {
    LuaValue::Number(x.to_bits())
}

#[test]
fn only_nil_and_false_are_false() {
    assert!(!LuaValue::Nil.to_boolean());
    assert!(!LuaValue::Boolean(false).to_boolean());
    assert!(LuaValue::Boolean(true).to_boolean());
    assert!(LuaValue::Integer(0).to_boolean());
    assert!(float(0.0).to_boolean());
    assert!(float(f64::NAN).to_boolean());
    assert!(text("").to_boolean());
    assert!(LuaValue::Table(0).to_boolean());
}

#[test]
fn type_ids_follow_the_api() {
    assert_eq!(LuaValue::Nil.type_id(), LUA_TNIL);
    assert_eq!(LuaValue::Boolean(true).type_id(), LUA_TBOOLEAN);
    assert_eq!(LuaValue::Integer(1).type_id(), LUA_TNUMBER);
    assert_eq!(float(1.0).type_id(), LUA_TNUMBER);
    assert_eq!(text("x").type_id(), LUA_TSTRING);
    assert_eq!(LuaValue::Table(3).type_id(), LUA_TTABLE);
    assert!(LuaValue::Nil.is_nil());
    assert!(!LuaValue::Boolean(false).is_nil());
}

#[test]
fn to_integer_of_floats() {
    let none = FloatAnswers::new();
    assert_eq!(float(3.0).to_integer(&none), Ok(Some(3)));
    assert_eq!(float(3.5).to_integer(&none), Ok(None));
    assert_eq!(float(-0.0).to_integer(&none), Ok(Some(0)));
    assert_eq!(float(f64::NAN).to_integer(&none), Ok(None));
    assert_eq!(LuaValue::Integer(-9).to_integer(&none), Ok(Some(-9)));
    assert_eq!(LuaValue::Nil.to_integer(&none), Ok(None));
    assert_eq!(LuaValue::Boolean(true).to_integer(&none), Ok(None));
    assert_eq!(LuaValue::Table(0).to_integer(&none), Ok(None));
}

#[test]
fn to_number_of_numbers() {
    let none = FloatAnswers::new();
    assert_eq!(LuaValue::Integer(3).to_number(&none), Ok(Some(3.0f64.to_bits())));
    assert_eq!(LuaValue::Integer(-1).to_number(&none), Ok(Some((-1.0f64).to_bits())));
    assert_eq!(float(2.5).to_number(&none), Ok(Some(2.5f64.to_bits())));
    assert_eq!(LuaValue::Nil.to_number(&none), Ok(None));
    assert_eq!(LuaValue::Table(1).to_number(&none), Ok(None));
    assert_eq!(LuaValue::Boolean(true).to_number(&none), Ok(None));
}

#[test]
fn to_number_of_a_string_asks_the_host_once() {
    let mut answers = FloatAnswers::new();
    assert_eq!(
        text("3.5").to_number(&answers),
        Err(FloatTask::Parse("3.5".to_string()))
    );
    answers.record_parse("3.5".to_string(), "3.5".parse::<f64>().ok().map(f64::to_bits));
    assert_eq!(text("3.5").to_number(&answers), Ok(Some(3.5f64.to_bits())));
    assert_eq!(
        text("abc").to_number(&answers),
        Err(FloatTask::Parse("abc".to_string()))
    );
    answers.record_parse("abc".to_string(), "abc".parse::<f64>().ok().map(f64::to_bits));
    assert_eq!(text("abc").to_number(&answers), Ok(None));
    assert_eq!(text("3.5").to_number(&answers), Ok(Some(3.5f64.to_bits())));
}

#[test]
fn to_integer_of_a_string_that_writes_an_integer_needs_no_host() {
    let none = FloatAnswers::new();
    assert_eq!(text("42").to_integer(&none), Ok(Some(42)));
    assert_eq!(text("-7").to_integer(&none), Ok(Some(-7)));
    assert_eq!(text("+5").to_integer(&none), Ok(Some(5)));
    assert_eq!(text("007").to_integer(&none), Ok(Some(7)));
    assert_eq!(text("9223372036854775807").to_integer(&none), Ok(Some(i64::MAX)));
    assert_eq!(text("-9223372036854775808").to_integer(&none), Ok(Some(i64::MIN)));
    assert_eq!(string_to_integer(&"123".to_string(), &none), Ok(Some(123)));
}

#[test]
fn to_integer_of_any_other_string_goes_by_the_float_it_writes() {
    let mut answers = FloatAnswers::new();
    for s in ["3.0", "3.5", "abc", "", " 5", "5 ", "0x10", "--5", "+", "-", "9223372036854775808", "1e2"] {
        assert_eq!(
            text(s).to_integer(&answers),
            Err(FloatTask::Parse(s.to_string())),
            "{:?}",
            s
        );
    }
    answers.record_parse("3.0".to_string(), Some(3.0f64.to_bits()));
    answers.record_parse("3.5".to_string(), Some(3.5f64.to_bits()));
    answers.record_parse("abc".to_string(), None);
    answers.record_parse("1e2".to_string(), Some(100.0f64.to_bits()));
    answers.record_parse(
        "9223372036854775808".to_string(),
        Some(9223372036854775808.0f64.to_bits()),
    );
    assert_eq!(text("3.0").to_integer(&answers), Ok(Some(3)));
    assert_eq!(text("3.5").to_integer(&answers), Ok(None));
    assert_eq!(text("abc").to_integer(&answers), Ok(None));
    assert_eq!(text("1e2").to_integer(&answers), Ok(Some(100)));
    assert_eq!(text("9223372036854775808").to_integer(&answers), Ok(None));
}

#[test]
fn equality_is_by_kind_and_content() {
    assert_eq!(LuaValue::Nil, LuaValue::Nil);
    assert_eq!(LuaValue::Boolean(true), LuaValue::Boolean(true));
    assert_ne!(LuaValue::Boolean(true), LuaValue::Boolean(false));
    assert_eq!(LuaValue::Integer(4), LuaValue::Integer(4));
    assert_ne!(LuaValue::Integer(4), float(4.0));
    assert_eq!(float(0.0), float(-0.0));
    assert_ne!(float(f64::NAN), float(f64::NAN));
    assert_eq!(text("a"), text("a"));
    assert_ne!(text("a"), text("b"));
    assert_eq!(LuaValue::Table(2), LuaValue::Table(2));
    assert_ne!(LuaValue::Table(2), LuaValue::Table(3));
    assert_ne!(LuaValue::Nil, LuaValue::Boolean(false));
}

#[test]
fn sameness_takes_floats_bit_by_bit() {
    assert!(float(1.5).same(&float(1.5)));
    assert!(!float(0.0).same(&float(-0.0)));
    assert!(float(f64::NAN).same(&float(f64::NAN)));
    assert!(!LuaValue::Integer(1).same(&float(1.0)));
    assert!(text("k").same(&text("k")));
    assert!(!text("k").same(&text("K")));
    assert!(LuaValue::Nil.same(&LuaValue::Nil));
    assert!(LuaValue::Table(1).same(&LuaValue::Table(1)));
    assert!(!LuaValue::Boolean(true).same(&LuaValue::Boolean(false)));
}

#[test]
fn a_clone_is_the_same_value() {
    for v in [LuaValue::Nil, LuaValue::Integer(5), float(2.5), text("abc"), LuaValue::Table(7)] {
        assert!(v.clone().same(&v));
    }
}
