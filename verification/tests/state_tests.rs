use luavm::arith::{
    LUA_OPADD, LUA_OPBAND, LUA_OPBNOT, LUA_OPEQ, LUA_OPIDIV, LUA_OPLE, LUA_OPLT, LUA_OPMOD,
    LUA_OPMUL, LUA_OPSHL, LUA_OPSUB, LUA_OPUNM,
};
use luavm::chunk::{Constant, ProtoType};
use luavm::error::ValueError;
use luavm::host::{FloatOp, FloatTask, Pause};
use luavm::state::{new_lua_state, LuaState, LuaVM, MAX_STACK};
use luavm::value::{
    LuaValue, LUA_TBOOLEAN, LUA_TNIL, LUA_TNONE, LUA_TNUMBER, LUA_TSTRING, LUA_TTABLE,
};

fn proto(code: Vec<u32>, constants: Vec<Constant>) -> ProtoType {
    ProtoType {
        source: "@test".to_string(),
        line_defined: 0,
        last_line_defined: 0,
        num_params: 0,
        is_var_arg: 0,
        stack_size: 8,
        code,
        constants,
        upval: vec![],
        protos: vec![],
        line_info: vec![],
        loc_vars: vec![],
        upvalue_names: vec![],
    }
}

fn state() -> LuaState {
    new_lua_state(
        16,
        proto(
            vec![11, 22, 33],
            vec![
                Constant::Integer(7),
                Constant::SString("k".to_string()),
                Constant::Number(2.5f64.to_bits()),
                Constant::Nil,
                Constant::Boolean(true),
                Constant::LString("long".to_string()),
            ],
        ),
    )
}

fn text(s: &str) -> LuaValue {
    LuaValue::Str(s.to_string())
}

fn stack_of(ls: &LuaState) -> Vec<LuaValue> {
    (1..=ls.get_top()).map(|i| ls.value(i)).collect()
}

#[test]
fn a_new_state_is_empty_and_at_the_start() {
    let ls = state();
    assert_eq!(ls.get_top(), 0);
    assert_eq!(ls.pc(), 0);
    assert!(!ls.is_valid(1));
    assert!(!ls.is_valid(0));
    assert!(!ls.is_valid(-1));
}

#[test]
fn push_and_pop_work_at_the_top() {
    let mut ls = state();
    ls.push_nil();
    ls.push_boolean(true);
    ls.push_integer(5);
    ls.push_number(1.5f64.to_bits());
    ls.push_string("s".to_string());
    assert_eq!(ls.get_top(), 5);
    assert_eq!(
        stack_of(&ls),
        vec![
            LuaValue::Nil,
            LuaValue::Boolean(true),
            LuaValue::Integer(5),
            LuaValue::Number(1.5f64.to_bits()),
            text("s"),
        ]
    );
    ls.pop(2);
    assert_eq!(ls.get_top(), 3);
    assert_eq!(ls.value(-1), LuaValue::Integer(5));
    ls.pop(0);
    assert_eq!(ls.get_top(), 3);
    ls.pop(3);
    assert_eq!(ls.get_top(), 0);
}

#[test]
fn negative_indices_count_from_the_top() {
    let mut ls = state();
    for i in 1..=4 {
        ls.push_integer(i * 10);
    }
    assert_eq!(ls.abs_index(1), 1);
    assert_eq!(ls.abs_index(4), 4);
    assert_eq!(ls.abs_index(-1), 4);
    assert_eq!(ls.abs_index(-4), 1);
    assert_eq!(ls.abs_index(-5), 0);
    assert_eq!(ls.value(-1), LuaValue::Integer(40));
    assert_eq!(ls.value(-4), LuaValue::Integer(10));
    assert_eq!(ls.value(2), LuaValue::Integer(20));
    assert!(ls.is_valid(4) && ls.is_valid(-4));
    assert!(!ls.is_valid(5) && !ls.is_valid(-5) && !ls.is_valid(0));
}

#[test]
fn copy_push_value_replace_and_set() {
    let mut ls = state();
    for i in 1..=3 {
        ls.push_integer(i);
    }
    ls.copy(1, 3);
    assert_eq!(stack_of(&ls), vec![LuaValue::Integer(1), LuaValue::Integer(2), LuaValue::Integer(1)]);
    ls.push_value(2);
    assert_eq!(ls.get_top(), 4);
    assert_eq!(ls.value(-1), LuaValue::Integer(2));
    ls.push_string("top".to_string());
    ls.replace(1);
    assert_eq!(ls.get_top(), 4);
    assert_eq!(ls.value(1), text("top"));
    ls.push_boolean(false);
    ls.replace(-1);
    assert_eq!(ls.get_top(), 4);
    assert_eq!(ls.value(4), LuaValue::Boolean(false));
    ls.set(-2, LuaValue::Nil);
    assert_eq!(ls.value(3), LuaValue::Nil);
}

#[test]
fn set_top_cuts_or_fills_with_nil() {
    let mut ls = state();
    ls.push_integer(1);
    ls.push_integer(2);
    ls.set_top(5);
    assert_eq!(
        stack_of(&ls),
        vec![LuaValue::Integer(1), LuaValue::Integer(2), LuaValue::Nil, LuaValue::Nil, LuaValue::Nil]
    );
    ls.set_top(1);
    assert_eq!(stack_of(&ls), vec![LuaValue::Integer(1)]);
    ls.push_integer(2);
    ls.push_integer(3);
    ls.set_top(-2);
    assert_eq!(stack_of(&ls), vec![LuaValue::Integer(1), LuaValue::Integer(2)]);
    ls.set_top(0);
    assert_eq!(ls.get_top(), 0);
}

#[test]
fn check_stack_raises_the_limit_up_to_the_maximum() {
    let mut ls = new_lua_state(2, proto(vec![], vec![]));
    ls.push_nil();
    ls.push_nil();
    assert!(ls.check_stack(3));
    ls.push_nil();
    ls.push_nil();
    ls.push_nil();
    assert_eq!(ls.get_top(), 5);
    assert!(ls.check_stack(0));
    assert!(ls.check_stack(MAX_STACK - 5));
    assert!(!ls.check_stack(MAX_STACK - 4));
    assert!(!ls.check_stack(usize::MAX));
    assert_eq!(ls.get_top(), 5);
}

#[test]
fn kinds_of_the_values_on_the_stack() {
    let mut ls = state();
    ls.push_nil();
    ls.push_boolean(false);
    ls.push_integer(0);
    ls.push_number(0.5f64.to_bits());
    ls.push_string(String::new());
    ls.create_table(0, 0);
    let kinds: Vec<i8> = (1..=7).map(|i| ls.type_id(i)).collect();
    assert_eq!(
        kinds,
        vec![LUA_TNIL, LUA_TBOOLEAN, LUA_TNUMBER, LUA_TNUMBER, LUA_TSTRING, LUA_TTABLE, LUA_TNONE]
    );
    assert_eq!(ls.type_id(0), LUA_TNONE);
    assert!(ls.is_none(7) && !ls.is_none(1));
    assert!(ls.is_nil(1) && !ls.is_nil(2) && !ls.is_nil(7));
    assert!(ls.is_none_or_nil(1) && ls.is_none_or_nil(7) && !ls.is_none_or_nil(3));
    assert!(ls.is_boolean(2) && !ls.is_boolean(1));
    assert!(ls.is_integer(3) && !ls.is_integer(4) && !ls.is_integer(7));
    assert!(ls.is_string(5) && ls.is_string(3) && ls.is_string(4) && !ls.is_string(6));
    assert!(ls.is_table(6) && !ls.is_table(5));
    let truths: Vec<bool> = (1..=7).map(|i| ls.to_boolean(i)).collect();
    assert_eq!(truths, vec![false, false, true, true, true, true, false]);
}

#[test]
fn kind_names() {
    let ls = state();
    assert_eq!(ls.kind_name(LUA_TNONE), "no value");
    assert_eq!(ls.kind_name(LUA_TNIL), "nil");
    assert_eq!(ls.kind_name(LUA_TBOOLEAN), "boolean");
    assert_eq!(ls.kind_name(LUA_TNUMBER), "number");
    assert_eq!(ls.kind_name(LUA_TSTRING), "string");
    assert_eq!(ls.kind_name(LUA_TTABLE), "table");
    assert_eq!(ls.kind_name(6), "function");
    assert_eq!(ls.kind_name(8), "thread");
    assert_eq!(ls.kind_name(7), "userdata");
    assert_eq!(ls.kind_name(2), "userdata");
}

#[test]
fn conversions_at_an_index() {
    let mut ls = state();
    ls.push_integer(4);
    ls.push_number(4.0f64.to_bits());
    ls.push_number(4.5f64.to_bits());
    ls.push_string("12".to_string());
    ls.push_nil();
    assert_eq!(ls.to_integerx(1), Ok(Some(4)));
    assert_eq!(ls.to_integerx(2), Ok(Some(4)));
    assert_eq!(ls.to_integerx(3), Ok(None));
    assert_eq!(ls.to_integerx(4), Ok(Some(12)));
    assert_eq!(ls.to_integerx(5), Ok(None));
    assert_eq!(ls.to_integerx(9), Ok(None));
    assert_eq!(ls.to_numberx(1), Ok(Some(4.0f64.to_bits())));
    assert_eq!(ls.to_numberx(3), Ok(Some(4.5f64.to_bits())));
    assert_eq!(ls.to_numberx(4), Err(FloatTask::Parse("12".to_string())));
    ls.record_parse("12".to_string(), Some(12.0f64.to_bits()));
    assert_eq!(ls.to_numberx(4), Ok(Some(12.0f64.to_bits())));
    assert_eq!(ls.to_numberx(5), Ok(None));
    assert_eq!(ls.to_numberx(-9), Ok(None));
}

#[test]
fn fetch_hands_out_the_code_in_order() {
    let mut ls = state();
    assert_eq!(ls.fetch(), Some(11));
    assert_eq!(ls.pc(), 1);
    assert_eq!(ls.fetch(), Some(22));
    assert_eq!(ls.fetch(), Some(33));
    assert_eq!(ls.pc(), 3);
    assert_eq!(ls.fetch(), None);
    assert_eq!(ls.pc(), 3);
    ls.add_pc(-2);
    assert_eq!(ls.pc(), 1);
    assert_eq!(ls.fetch(), Some(22));
    ls.add_pc(1);
    assert_eq!(ls.fetch(), None);
}

#[test]
fn can_jump_keeps_the_counter_in_the_code() {
    let mut ls = state();
    ls.add_pc(1);
    assert!(ls.can_jump(0) && ls.can_jump(2) && ls.can_jump(-1));
    assert!(!ls.can_jump(3) && !ls.can_jump(-2));
    assert!(!ls.can_jump(isize::MAX) && !ls.can_jump(isize::MIN));
    assert_eq!(ls.instruction(0), Some(11));
    assert_eq!(ls.instruction(2), Some(33));
    assert_eq!(ls.instruction(3), None);
    assert_eq!(ls.instruction(-1), None);
}

#[test]
fn get_const_pushes_a_constant() {
    let mut ls = state();
    assert_eq!(ls.get_const(0), Ok(()));
    assert_eq!(ls.get_const(1), Ok(()));
    assert_eq!(ls.get_const(2), Ok(()));
    assert_eq!(ls.get_const(3), Ok(()));
    assert_eq!(ls.get_const(4), Ok(()));
    assert_eq!(ls.get_const(5), Ok(()));
    assert_eq!(
        stack_of(&ls),
        vec![
            LuaValue::Integer(7),
            text("k"),
            LuaValue::Number(2.5f64.to_bits()),
            LuaValue::Nil,
            LuaValue::Boolean(true),
            text("long"),
        ]
    );
    assert_eq!(ls.get_const(6), Err(ValueError::Constant));
    assert_eq!(ls.get_const(-1), Err(ValueError::Constant));
    assert_eq!(ls.get_top(), 6);
}

#[test]
fn get_rk_pushes_a_register_or_a_constant() {
    let mut ls = state();
    ls.push_integer(100);
    ls.push_integer(200);
    assert_eq!(ls.get_rk(0), Ok(()));
    assert_eq!(ls.value(-1), LuaValue::Integer(100));
    assert_eq!(ls.get_rk(1), Ok(()));
    assert_eq!(ls.value(-1), LuaValue::Integer(200));
    assert_eq!(ls.get_rk(0x100), Ok(()));
    assert_eq!(ls.value(-1), LuaValue::Integer(7));
    assert_eq!(ls.get_rk(0x101), Ok(()));
    assert_eq!(ls.value(-1), text("k"));
    assert_eq!(ls.get_top(), 6);
    assert_eq!(ls.get_rk(0x106), Err(ValueError::Constant));
    assert_eq!(ls.get_rk(6), Err(ValueError::Register));
    assert_eq!(ls.get_rk(0xff), Err(ValueError::Register));
    assert_eq!(ls.get_rk(-1), Err(ValueError::Register));
    assert_eq!(ls.get_top(), 6);
    assert_eq!(ls.rk(0x102), Ok(LuaValue::Number(2.5f64.to_bits())));
    assert_eq!(ls.rk(1), Ok(LuaValue::Integer(200)));
}

#[test]
fn arith_on_integers_replaces_the_operands() {
    let mut ls = state();
    ls.push_integer(99);
    ls.push_integer(7);
    ls.push_integer(3);
    assert_eq!(ls.arith(LUA_OPSUB), Ok(()));
    assert_eq!(stack_of(&ls), vec![LuaValue::Integer(99), LuaValue::Integer(4)]);
    assert_eq!(ls.arith(LUA_OPMUL), Ok(()));
    assert_eq!(stack_of(&ls), vec![LuaValue::Integer(396)]);
    assert_eq!(ls.arith(LUA_OPUNM), Ok(()));
    assert_eq!(stack_of(&ls), vec![LuaValue::Integer(-396)]);
    assert_eq!(ls.arith(LUA_OPBNOT), Ok(()));
    assert_eq!(stack_of(&ls), vec![LuaValue::Integer(395)]);
    ls.push_integer(0);
    assert_eq!(ls.arith(LUA_OPIDIV), Err(Pause::Fault(ValueError::DivideByZero)));
    assert_eq!(ls.arith(LUA_OPMOD), Err(Pause::Fault(ValueError::DivideByZero)));
    assert_eq!(stack_of(&ls), vec![LuaValue::Integer(395), LuaValue::Integer(0)]);
    ls.push_nil();
    assert_eq!(ls.arith(LUA_OPADD), Err(Pause::Fault(ValueError::Arithmetic)));
    assert_eq!(ls.arith(LUA_OPBAND), Err(Pause::Fault(ValueError::Arithmetic)));
    assert_eq!(ls.arith(LUA_OPUNM), Err(Pause::Fault(ValueError::Arithmetic)));
    assert_eq!(ls.arith(14), Err(Pause::Fault(ValueError::Opcode)));
    assert_eq!(ls.get_top(), 3);
}

#[test]
fn arith_on_floats_waits_for_the_host() {
    let mut ls = state();
    ls.push_number(1.5f64.to_bits());
    ls.push_integer(2);
    let task = FloatTask::Arith(FloatOp::Add, 1.5f64.to_bits(), 2.0f64.to_bits());
    assert_eq!(ls.arith(LUA_OPADD), Err(Pause::Need(task)));
    assert_eq!(ls.get_top(), 2);
    ls.record_arith(FloatOp::Add, 1.5f64.to_bits(), 2.0f64.to_bits(), 3.5f64.to_bits());
    assert_eq!(ls.arith(LUA_OPADD), Ok(()));
    assert_eq!(stack_of(&ls), vec![LuaValue::Number(3.5f64.to_bits())]);
    assert_eq!(ls.arith(LUA_OPUNM), Ok(()));
    assert_eq!(stack_of(&ls), vec![LuaValue::Number((-3.5f64).to_bits())]);
    ls.push_integer(1);
    assert_eq!(ls.arith(LUA_OPSHL), Err(Pause::Fault(ValueError::Arithmetic)));
}

#[test]
fn compare_at_two_indices() {
    let mut ls = state();
    ls.push_integer(1);
    ls.push_number(1.0f64.to_bits());
    ls.push_integer(2);
    ls.push_string("a".to_string());
    ls.push_string("b".to_string());
    ls.push_nil();
    assert_eq!(ls.compare(1, 2, LUA_OPEQ), Ok(true));
    assert_eq!(ls.compare(1, 3, LUA_OPEQ), Ok(false));
    assert_eq!(ls.compare(1, 3, LUA_OPLT), Ok(true));
    assert_eq!(ls.compare(3, 2, LUA_OPLT), Ok(false));
    assert_eq!(ls.compare(2, 1, LUA_OPLE), Ok(true));
    assert_eq!(ls.compare(4, 5, LUA_OPLT), Ok(true));
    assert_eq!(ls.compare(5, 4, LUA_OPLE), Ok(false));
    assert_eq!(ls.compare(4, 4, LUA_OPLE), Ok(true));
    assert_eq!(ls.compare(1, 4, LUA_OPEQ), Ok(false));
    assert_eq!(ls.compare(1, 4, LUA_OPLT), Err(ValueError::Comparison));
    assert_eq!(ls.compare(6, 6, LUA_OPLE), Err(ValueError::Comparison));
    assert_eq!(ls.compare(6, 6, LUA_OPEQ), Ok(true));
    assert_eq!(ls.compare(1, 9, LUA_OPLT), Ok(false));
    assert_eq!(ls.compare(0, 1, LUA_OPEQ), Ok(false));
    assert_eq!(ls.compare(1, 2, 3), Err(ValueError::Opcode));
}

#[test]
fn len_pushes_the_length() {
    let mut ls = state();
    ls.push_string("h\u{e9}llo".to_string());
    assert_eq!(ls.len(1), Ok(()));
    assert_eq!(ls.value(-1), LuaValue::Integer(6));
    ls.create_table(0, 0);
    assert_eq!(ls.len(3), Ok(()));
    assert_eq!(ls.value(-1), LuaValue::Integer(0));
    assert_eq!(ls.len(2), Err(ValueError::Length));
    ls.push_value(3);
    ls.push_integer(1);
    ls.push_string("first".to_string());
    assert_eq!(ls.set_table(3), Ok(()));
    assert_eq!(ls.len(3), Ok(()));
    assert_eq!(ls.value(-1), LuaValue::Integer(1));
    ls.push(LuaValue::Table(55));
    assert_eq!(ls.len(-1), Err(ValueError::Table));
}

#[test]
fn concat_joins_the_topmost_values() {
    let mut ls = state();
    ls.push_string("keep".to_string());
    ls.push_string("a".to_string());
    ls.push_integer(-12);
    ls.push_string("".to_string());
    ls.push_integer(0);
    ls.push_string("z".to_string());
    assert_eq!(ls.concat(5), Ok(()));
    assert_eq!(stack_of(&ls), vec![text("keep"), text("a-120z")]);
    assert_eq!(ls.concat(1), Ok(()));
    assert_eq!(ls.get_top(), 2);
    assert_eq!(ls.concat(0), Ok(()));
    assert_eq!(stack_of(&ls), vec![text("keep"), text("a-120z"), text("")]);
    ls.push_integer(i64::MIN);
    ls.push_integer(i64::MAX);
    assert_eq!(ls.concat(2), Ok(()));
    assert_eq!(ls.value(-1), text("-92233720368547758089223372036854775807"));
}

#[test]
fn concat_asks_the_host_for_the_text_of_a_float() {
    let mut ls = state();
    ls.push_string("x=".to_string());
    ls.push_number(1.5f64.to_bits());
    assert_eq!(ls.concat(2), Err(Pause::Need(FloatTask::Format(1.5f64.to_bits()))));
    assert_eq!(ls.get_top(), 2);
    ls.record_format(1.5f64.to_bits(), format!("{}", 1.5f64));
    assert_eq!(ls.concat(2), Ok(()));
    assert_eq!(stack_of(&ls), vec![text("x=1.5")]);
    ls.push_boolean(true);
    assert_eq!(ls.concat(2), Err(Pause::Fault(ValueError::Concat)));
    assert_eq!(ls.get_top(), 2);
}

#[test]
fn tables_are_shared_through_their_handles() {
    let mut ls = state();
    ls.new_table();
    ls.push_value(1);
    ls.create_table(2, 2);
    assert_eq!(ls.compare(1, 2, LUA_OPEQ), Ok(true));
    assert_eq!(ls.compare(1, 3, LUA_OPEQ), Ok(false));
    ls.push_string("key".to_string());
    ls.push_integer(42);
    assert_eq!(ls.set_table(1), Ok(()));
    assert_eq!(ls.get_top(), 3);
    ls.push_string("key".to_string());
    assert_eq!(ls.get_table(2), Ok(()));
    assert_eq!(ls.value(-1), LuaValue::Integer(42));
    ls.push_string("key".to_string());
    assert_eq!(ls.get_table(3), Ok(()));
    assert_eq!(ls.value(-1), LuaValue::Nil);
    ls.push_nil();
    ls.push_integer(1);
    assert_eq!(ls.set_table(1), Err(ValueError::TableIndexNil));
    assert_eq!(ls.get_top(), 7);
    ls.pop(2);
    ls.push_number(f64::NAN.to_bits());
    ls.push_integer(1);
    assert_eq!(ls.set_table(1), Err(ValueError::TableIndexNan));
    assert_eq!(ls.set_table(4), Err(ValueError::Table));
    assert_eq!(ls.get_table(4), Err(ValueError::Table));
    let made = LuaValue::new_table(&mut ls, 0, 0);
    assert_eq!(made, LuaValue::Table(2));
    assert_eq!(ls.store(&made, text("a"), LuaValue::Integer(1)), Ok(()));
    assert_eq!(ls.index(&made, &text("a")), Ok(LuaValue::Integer(1)));
    assert_eq!(ls.index(&LuaValue::Table(3), &text("a")), Err(ValueError::Table));
    assert_eq!(ls.index(&LuaValue::Nil, &text("a")), Err(ValueError::Table));
    let other = ls.alloc_table(0, 0);
    assert_eq!(other, LuaValue::Table(3));
}

#[test]
fn a_stack_size_beyond_the_maximum_is_cut_down() {
    let mut ls = LuaState::new(usize::MAX, proto(vec![], vec![]));
    assert!(ls.check_stack(MAX_STACK));
    assert!(!ls.check_stack(MAX_STACK + 1));
    assert!(ls.answers().arith(FloatOp::Add, 0, 0).is_none());
    assert_eq!(ls.constant(0), None);
    assert!(!ls.has_register(0));
    ls.push_nil();
    assert!(ls.has_register(0) && !ls.has_register(1) && !ls.has_register(-1));
    assert_eq!(ls.length_of_value(&text("abc")), Ok(LuaValue::Integer(3)));
    assert_eq!(ls.text_of_range(0, 0), Ok(String::new()));
}
