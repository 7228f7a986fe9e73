//! The values that the machine computes with.

use vstd::prelude::*;
use vstd::std_specs::cmp::PartialEqSpecImpl;
use crate::host::{FloatAnswers, FloatAnswersView, FloatTask, FloatTaskView};
use crate::number::{
    float_eq, float_equal, float_to_int, float_to_integer, int_to_float, integer_to_float,
    parse_int, parse_integer,
};

verus! {

pub const LUA_TNONE: i8 = -1;

pub const LUA_TNIL: i8 = 0;

pub const LUA_TBOOLEAN: i8 = 1;

pub const LUA_TLIGHTUSERDATA: i8 = 2;

pub const LUA_TNUMBER: i8 = 3;

pub const LUA_TSTRING: i8 = 4;

pub const LUA_TTABLE: i8 = 5;

pub const LUA_TFUNCTION: i8 = 6;

pub const LUA_TUSERDATA: i8 = 7;

pub const LUA_TTHREAD: i8 = 8;

/// A value. A float is held as the bit pattern of a double. A table is held
/// as a handle: two values are the same table exactly if their handles are
/// equal, and the tables themselves live with the state that made them.
#[derive(Debug)]
pub enum LuaValue {
    Nil,
    Boolean(bool),
    Number(u64),
    Integer(i64),
    Str(String),
    Table(usize),
}

/// A value with its text as a sequence of characters.
pub enum ValueView {
    Nil,
    Boolean(bool),
    Number(u64),
    Integer(i64),
    Str(Seq<char>),
    Table(usize),
}

impl View for LuaValue {
    type V = ValueView;

    open spec fn view(&self) -> ValueView {
        match self {
            LuaValue::Nil => ValueView::Nil,
            LuaValue::Boolean(b) => ValueView::Boolean(*b),
            LuaValue::Number(n) => ValueView::Number(*n),
            LuaValue::Integer(i) => ValueView::Integer(*i),
            LuaValue::Str(s) => ValueView::Str(s@),
            LuaValue::Table(t) => ValueView::Table(*t),
        }
    }
}

/// The views of a sequence of values.
pub open spec fn values_view(v: Seq<LuaValue>) -> Seq<ValueView> {
    v.map_values(|x: LuaValue| x@)
}

impl ValueView {
    /// Equality of values: of the same kind and with equal content. Floats
    /// are equal as doubles are, so a NaN equals nothing and the two zeros
    /// are equal; an integer never equals a float.
    pub open spec fn equals(self, other: ValueView) -> bool {
        match (self, other) {
            (ValueView::Nil, ValueView::Nil) => true,
            (ValueView::Boolean(x), ValueView::Boolean(y)) => x == y,
            (ValueView::Integer(x), ValueView::Integer(y)) => x == y,
            (ValueView::Number(x), ValueView::Number(y)) => float_eq(x, y),
            (ValueView::Str(x), ValueView::Str(y)) => x == y,
            (ValueView::Table(x), ValueView::Table(y)) => x == y,
            _ => false,
        }
    }

    /// The kind of the value, as a type tag of the Lua API.
    pub open spec fn type_id(self) -> i8 {
        match self {
            ValueView::Nil => LUA_TNIL,
            ValueView::Boolean(_) => LUA_TBOOLEAN,
            ValueView::Number(_) => LUA_TNUMBER,
            ValueView::Integer(_) => LUA_TNUMBER,
            ValueView::Str(_) => LUA_TSTRING,
            ValueView::Table(_) => LUA_TTABLE,
        }
    }

    /// Truth: everything but nil and false is true.
    pub open spec fn truth(self) -> bool {
        match self {
            ValueView::Nil => false,
            ValueView::Boolean(b) => b,
            _ => true,
        }
    }

    /// The value as a float. A string needs the host's reading of it: where
    /// that is missing, the task to read it is the result.
    pub open spec fn to_number(self, answers: FloatAnswersView) -> Result<
        Option<u64>,
        FloatTaskView,
    > {
        match self {
            ValueView::Integer(i) => Ok(Some(int_to_float(i))),
            ValueView::Number(n) => Ok(Some(n)),
            ValueView::Str(s) => if answers.parse.contains_key(s) {
                Ok(answers.parse[s])
            } else {
                Err(FloatTaskView::Parse(s))
            },
            _ => Ok(None),
        }
    }

    /// The value as an integer: an integer itself, a float that is a whole
    /// number in range, a string that writes either.
    pub open spec fn to_integer(self, answers: FloatAnswersView) -> Result<
        Option<i64>,
        FloatTaskView,
    > {
        match self {
            ValueView::Integer(i) => Ok(Some(i)),
            ValueView::Number(n) => Ok(float_to_int(n)),
            ValueView::Str(s) => text_to_integer(s, answers),
            _ => Ok(None),
        }
    }
}

/// A text as an integer: the integer it writes; else the float it writes,
/// where that is a whole number in range.
pub open spec fn text_to_integer(s: Seq<char>, answers: FloatAnswersView) -> Result<
    Option<i64>,
    FloatTaskView,
> {
    match parse_int(s) {
        Some(i) => Ok(Some(i)),
        None => if answers.parse.contains_key(s) {
            match answers.parse[s] {
                Some(bits) => Ok(float_to_int(bits)),
                None => Ok(None),
            }
        } else {
            Err(FloatTaskView::Parse(s))
        },
    }
}

/// The view of a result that may be a task for the host.
pub open spec fn or_task<T>(r: Result<T, FloatTask>) -> Result<T, FloatTaskView> {
    match r {
        Ok(v) => Ok(v),
        Err(t) => Err(t@),
    }
}

impl Clone for LuaValue {
    fn clone(&self) -> (r: Self)
        ensures
            r == *self,
    {
        match self {
            LuaValue::Nil => LuaValue::Nil,
            LuaValue::Boolean(b) => LuaValue::Boolean(*b),
            LuaValue::Number(n) => LuaValue::Number(*n),
            LuaValue::Integer(i) => LuaValue::Integer(*i),
            LuaValue::Str(s) => LuaValue::Str(s.clone()),
            LuaValue::Table(t) => LuaValue::Table(*t),
        }
    }
}

impl PartialEq for LuaValue {
    fn eq(&self, other: &LuaValue) -> (r: bool) {
        match (self, other) {
            (LuaValue::Nil, LuaValue::Nil) => true,
            (LuaValue::Boolean(x), LuaValue::Boolean(y)) => *x == *y,
            (LuaValue::Integer(x), LuaValue::Integer(y)) => *x == *y,
            (LuaValue::Number(x), LuaValue::Number(y)) => float_equal(*x, *y),
            (LuaValue::Str(x), LuaValue::Str(y)) => *x == *y,
            (LuaValue::Table(x), LuaValue::Table(y)) => *x == *y,
            _ => false,
        }
    }
}

impl PartialEqSpecImpl for LuaValue {
    open spec fn obeys_eq_spec() -> bool {
        true
    }

    open spec fn eq_spec(&self, other: &LuaValue) -> bool {
        self@.equals(other@)
    }
}

impl LuaValue {
    pub fn is_nil(&self) -> (r: bool)
        ensures
            r == (self@ is Nil),
    {
        match self {
            LuaValue::Nil => true,
            _ => false,
        }
    }

    pub fn type_id(&self) -> (r: i8)
        ensures
            r == self@.type_id(),
    {
        match self {
            LuaValue::Nil => LUA_TNIL,
            LuaValue::Boolean(_) => LUA_TBOOLEAN,
            LuaValue::Number(_) => LUA_TNUMBER,
            LuaValue::Integer(_) => LUA_TNUMBER,
            LuaValue::Str(_) => LUA_TSTRING,
            LuaValue::Table(_) => LUA_TTABLE,
        }
    }

    pub fn to_boolean(&self) -> (r: bool)
        ensures
            r == self@.truth(),
    {
        match self {
            LuaValue::Nil => false,
            LuaValue::Boolean(b) => *b,
            _ => true,
        }
    }

    /// Whether the two values have the same view: the same kind and the
    /// same content, floats taken bit by bit. This is the identity of table
    /// keys.
    pub fn same(&self, other: &LuaValue) -> (r: bool)
        ensures
            r == (self@ == other@),
    {
        match (self, other) {
            (LuaValue::Nil, LuaValue::Nil) => true,
            (LuaValue::Boolean(x), LuaValue::Boolean(y)) => *x == *y,
            (LuaValue::Integer(x), LuaValue::Integer(y)) => *x == *y,
            (LuaValue::Number(x), LuaValue::Number(y)) => *x == *y,
            (LuaValue::Str(x), LuaValue::Str(y)) => *x == *y,
            (LuaValue::Table(x), LuaValue::Table(y)) => *x == *y,
            _ => false,
        }
    }

    pub fn to_number(&self, answers: &FloatAnswers) -> (r: Result<Option<u64>, FloatTask>)
        requires
            answers.wf(),
        ensures
            or_task(r) == self@.to_number(answers@),
    {
        match self {
            LuaValue::Integer(i) => Ok(Some(integer_to_float(*i))),
            LuaValue::Number(n) => Ok(Some(*n)),
            LuaValue::Str(s) => match answers.parsed(s) {
                Some(a) => Ok(a),
                None => Err(FloatTask::Parse(s.clone())),
            },
            _ => Ok(None),
        }
    }

    pub fn to_integer(&self, answers: &FloatAnswers) -> (r: Result<Option<i64>, FloatTask>)
        requires
            answers.wf(),
        ensures
            or_task(r) == self@.to_integer(answers@),
    {
        match self {
            LuaValue::Integer(i) => Ok(Some(*i)),
            LuaValue::Number(n) => Ok(float_to_integer(*n)),
            LuaValue::Str(s) => string_to_integer(s, answers),
            _ => Ok(None),
        }
    }
}

pub fn string_to_integer(s: &String, answers: &FloatAnswers) -> (r: Result<
    Option<i64>,
    FloatTask,
>)
    requires
        answers.wf(),
    ensures
        or_task(r) == text_to_integer(s@, answers@),
{
    if let Some(i) = parse_integer(s.as_str()) {
        Ok(Some(i))
    } else {
        match answers.parsed(s) {
            Some(Some(bits)) => Ok(float_to_integer(bits)),
            Some(None) => Ok(None),
            None => Err(FloatTask::Parse(s.clone())),
        }
    }
}

} // verus!
