//! The state of one running function: its registers, which are the bottom of
//! a stack of values, its program counter, the tables it has made, and the
//! answers that the host has given.

use vstd::prelude::*;
use vstd::utf8::encode_utf8;
use vstd::string::StringExecFns;
use crate::arith::{arith, arith_spec, compare_spec, compare_values};
use crate::chunk::{Constant, ConstantView, ProtoType, ProtoView};
use crate::error::ValueError;
use crate::host::{
    FloatAnswers, FloatAnswersView, FloatOp, FloatTask, FloatTaskView, Pause, PauseView,
};
use crate::number::{int_text, integer_to_string};
use crate::table::{LuaTable, TableView};
use crate::value::{
    or_task, values_view, LuaValue, ValueView, LUA_TBOOLEAN, LUA_TFUNCTION, LUA_TNIL, LUA_TNONE,
    LUA_TNUMBER, LUA_TSTRING, LUA_TTABLE, LUA_TTHREAD,
};

verus! {

/// The greatest number of values that a stack may be made to hold.
pub const MAX_STACK: usize = 1_000_000;

/// The state as mathematics sees it.
pub struct StateView {
    /// The stack, bottom first. The value with index 1 is element 0.
    pub stack: Seq<ValueView>,
    /// How many values the stack may hold before it has to be made larger.
    pub limit: int,
    /// The place in the code of the instruction that is fetched next.
    pub pc: int,
    pub proto: ProtoView,
    /// The tables made so far; a table value holds the place of its table.
    pub tables: Seq<TableView>,
    pub answers: FloatAnswersView,
}

/// The value that a constant of the pool stands for.
pub open spec fn constant_value(c: ConstantView) -> ValueView {
    match c {
        ConstantView::Nil => ValueView::Nil,
        ConstantView::Boolean(b) => ValueView::Boolean(b),
        ConstantView::Number(n) => ValueView::Number(n),
        ConstantView::Integer(i) => ValueView::Integer(i),
        ConstantView::SString(s) => ValueView::Str(s),
        ConstantView::LString(s) => ValueView::Str(s),
    }
}

/// The text of a value that can be concatenated: a string itself, an
/// integer in decimal, a float as the host writes it.
pub open spec fn text_of(v: ValueView, answers: FloatAnswersView) -> Result<Seq<char>, PauseView> {
    match v {
        ValueView::Str(s) => Ok(s),
        ValueView::Integer(i) => Ok(int_text(i as int)),
        ValueView::Number(x) => if answers.format.contains_key(x) {
            Ok(answers.format[x])
        } else {
            Err(PauseView::Need(FloatTaskView::Format(x)))
        },
        _ => Err(PauseView::Fault(ValueError::Concat)),
    }
}

/// The texts of the values, one behind the other. The first value that has
/// no text, or whose text the host has yet to give, decides the pause.
pub open spec fn concat_text(vals: Seq<ValueView>, answers: FloatAnswersView) -> Result<
    Seq<char>,
    PauseView,
>
    decreases vals.len(),
{
    if vals.len() == 0 {
        Ok(Seq::empty())
    } else {
        match concat_text(vals.drop_last(), answers) {
            Err(p) => Err(p),
            Ok(t) => match text_of(vals.last(), answers) {
                Err(p) => Err(p),
                Ok(s) => Ok(t + s),
            },
        }
    }
}

/// The length of a value: of a string the number of its bytes, of a table
/// the length of its array part.
pub open spec fn length_of(v: ValueView, tables: Seq<TableView>) -> Result<ValueView, ValueError> {
    match v {
        ValueView::Str(s) => if encode_utf8(s).len() <= i64::MAX {
            Ok(ValueView::Integer(encode_utf8(s).len() as i64))
        } else {
            Err(ValueError::Length)
        },
        ValueView::Table(h) => if h < tables.len() {
            Ok(ValueView::Integer(tables[h as int].arr.len() as i64))
        } else {
            Err(ValueError::Table)
        },
        _ => Err(ValueError::Length),
    }
}

impl StateView {
    /// The number of values on the stack, which is also the index of the
    /// topmost.
    pub open spec fn top(self) -> int {
        self.stack.len() as int
    }

    /// An index counted from the bottom: a negative index counts from the
    /// top, -1 being the topmost value.
    pub open spec fn abs_index(self, idx: int) -> int {
        if idx >= 0 {
            idx
        } else {
            idx + self.top() + 1
        }
    }

    /// Whether the index names a value of the stack.
    pub open spec fn valid(self, idx: int) -> bool {
        1 <= self.abs_index(idx) <= self.top()
    }

    /// The value at an index.
    pub open spec fn at(self, idx: int) -> ValueView {
        self.stack[self.abs_index(idx) - 1]
    }

    /// The value at an index, and nil where the index names none.
    pub open spec fn at_or_nil(self, idx: int) -> ValueView {
        if self.valid(idx) {
            self.at(idx)
        } else {
            ValueView::Nil
        }
    }

    /// Whether one more value can be pushed.
    pub open spec fn room(self) -> bool {
        self.top() < self.limit
    }

    pub open spec fn with_stack(self, stack: Seq<ValueView>) -> StateView {
        StateView { stack, ..self }
    }

    pub open spec fn push(self, v: ValueView) -> StateView {
        self.with_stack(self.stack.push(v))
    }

    /// The state without its `n` topmost values.
    pub open spec fn pop(self, n: int) -> StateView {
        self.with_stack(self.stack.take(self.top() - n))
    }

    /// The state with `v` at the index.
    pub open spec fn set(self, idx: int, v: ValueView) -> StateView {
        self.with_stack(self.stack.update(self.abs_index(idx) - 1, v))
    }

    /// The state with the program counter moved by `n`.
    pub open spec fn jump(self, n: int) -> StateView {
        StateView { pc: self.pc + n, ..self }
    }

    /// Whether a move of the program counter by `n` stays in the code or at
    /// its end.
    pub open spec fn can_jump(self, n: int) -> bool {
        0 <= self.pc + n <= self.proto.code.len()
    }

    /// The state with `n` values on the stack: values are taken off the top,
    /// or nils are pushed.
    pub open spec fn with_top(self, n: int) -> StateView {
        if n <= self.top() {
            self.with_stack(self.stack.take(n))
        } else {
            self.with_stack(self.stack + Seq::new((n - self.top()) as nat, |i: int| ValueView::Nil))
        }
    }

    /// The constant with the given place in the pool.
    pub open spec fn constant(self, k: int) -> ValueView {
        constant_value(self.proto.constants[k])
    }

    pub open spec fn has_constant(self, k: int) -> bool {
        0 <= k < self.proto.constants.len()
    }

    /// What an operand that names a register or a constant stands for: above
    /// 255 the constant with the place in the low eight bits, else the
    /// register with that number, which is the stack index one greater.
    pub open spec fn rk(self, x: int) -> Result<ValueView, ValueError> {
        if x > 0xff {
            if self.has_constant(x % 0x100) {
                Ok(self.constant(x % 0x100))
            } else {
                Err(ValueError::Constant)
            }
        } else if 0 <= x && x + 1 <= self.top() {
            Ok(self.stack[x])
        } else {
            Err(ValueError::Register)
        }
    }

    /// The state with the host's answer to a task on two doubles.
    pub open spec fn with_arith(self, op: FloatOp, x: u64, y: u64, result: u64) -> StateView {
        StateView {
            answers: FloatAnswersView {
                arith: self.answers.arith.insert((op, x, y), result),
                ..self.answers
            },
            ..self
        }
    }

    /// The state with the host's reading of a text.
    pub open spec fn with_parse(self, text: Seq<char>, value: Option<u64>) -> StateView {
        StateView {
            answers: FloatAnswersView {
                parse: self.answers.parse.insert(text, value),
                ..self.answers
            },
            ..self
        }
    }

    /// The state with the host's text of a double.
    pub open spec fn with_format(self, x: u64, text: Seq<char>) -> StateView {
        StateView {
            answers: FloatAnswersView {
                format: self.answers.format.insert(x, text),
                ..self.answers
            },
            ..self
        }
    }
}

/// Whether the operator takes one operand.
pub open spec fn one_place(op: u8) -> bool {
    op == crate::arith::LUA_OPUNM || op == crate::arith::LUA_OPBNOT
}

impl StateView {
    /// The state after an operator has taken its operands off the stack and
    /// pushed its result. A one-place operator takes the topmost value, any
    /// other the two topmost, the first operand below the second.
    pub open spec fn arith(self, op: u8) -> Result<StateView, PauseView> {
        if one_place(op) {
            match arith_spec(self.stack.last(), self.stack.last(), op, self.answers) {
                Ok(v) => Ok(self.pop(1).push(v)),
                Err(p) => Err(p),
            }
        } else {
            match arith_spec(self.at(-2), self.at(-1), op, self.answers) {
                Ok(v) => Ok(self.pop(2).push(v)),
                Err(p) => Err(p),
            }
        }
    }

    /// The outcome of comparing the values at two indices. An index that
    /// names no value makes the comparison false.
    pub open spec fn compare(self, idx1: int, idx2: int, op: u8) -> Result<bool, ValueError> {
        if !self.valid(idx1) || !self.valid(idx2) {
            Ok(false)
        } else {
            compare_spec(self.at(idx1), self.at(idx2), op)
        }
    }

    /// The state after the length of the value at an index has been pushed.
    pub open spec fn len(self, idx: int) -> Result<StateView, ValueError> {
        match length_of(self.at(idx), self.tables) {
            Ok(v) => Ok(self.push(v)),
            Err(e) => Err(e),
        }
    }

    /// The `n` topmost values, the lowest first.
    pub open spec fn topmost(self, n: int) -> Seq<ValueView> {
        self.stack.subrange(self.top() - n, self.top())
    }

    /// The state after the `n` topmost values have been replaced by the
    /// string that their texts make. With no value that is the empty string;
    /// a single value stays as it is.
    pub open spec fn concat(self, n: int) -> Result<StateView, PauseView> {
        if n == 1 {
            Ok(self)
        } else {
            match concat_text(self.topmost(n), self.answers) {
                Ok(t) => Ok(self.pop(n).push(ValueView::Str(t))),
                Err(p) => Err(p),
            }
        }
    }

    /// The state after an empty table has been made and pushed.
    pub open spec fn create_table(self) -> StateView {
        StateView {
            stack: self.stack.push(ValueView::Table(self.tables.len() as usize)),
            tables: self.tables.push(
                TableView { arr: Seq::empty(), map: Map::empty() },
            ),
            ..self
        }
    }

    /// The table that a value names.
    pub open spec fn table_of(self, v: ValueView) -> Result<TableView, ValueError> {
        match v {
            ValueView::Table(h) => if h < self.tables.len() {
                Ok(self.tables[h as int])
            } else {
                Err(ValueError::Table)
            },
            _ => Err(ValueError::Table),
        }
    }

    /// What a table gives under a key.
    pub open spec fn index(self, t: ValueView, k: ValueView) -> Result<ValueView, ValueError> {
        match self.table_of(t) {
            Ok(table) => Ok(table.get(k)),
            Err(e) => Err(e),
        }
    }

    /// The state after a value has been put into a table under a key.
    pub open spec fn store(self, t: ValueView, k: ValueView, v: ValueView) -> Result<
        StateView,
        ValueError,
    > {
        match self.table_of(t) {
            Err(e) => Err(e),
            Ok(table) => if k is Nil {
                Err(ValueError::TableIndexNil)
            } else if !crate::table::key_ok(k) {
                Err(ValueError::TableIndexNan)
            } else {
                Ok(
                    StateView {
                        tables: self.tables.update(t->Table_0 as int, table.put(k, v)),
                        ..self
                    },
                )
            },
        }
    }

    /// The state after the key on top of the stack has been replaced by what
    /// the table at the index gives under it.
    pub open spec fn get_table(self, idx: int) -> Result<StateView, ValueError> {
        match self.index(self.at(idx), self.stack.last()) {
            Ok(v) => Ok(self.pop(1).push(v)),
            Err(e) => Err(e),
        }
    }

    /// The state after the value on top of the stack has been put into the
    /// table at the index under the key below it, and both have been taken
    /// off.
    pub open spec fn set_table(self, idx: int) -> Result<StateView, ValueError> {
        match self.store(self.at(idx), self.at(-2), self.at(-1)) {
            Ok(s) => Ok(s.pop(2)),
            Err(e) => Err(e),
        }
    }
}

/// What a step owes that may pause: where the state can move on, it has
/// moved on; where it cannot, the pause is returned and the state is as it
/// was.
pub open spec fn stepped(
    before: StateView,
    after: StateView,
    got: Result<(), Pause>,
    want: Result<StateView, PauseView>,
) -> bool {
    match want {
        Ok(s) => got is Ok && after == s,
        Err(p) => got is Err && got->Err_0@ == p && after == before,
    }
}

/// What a step owes that may fail.
pub open spec fn moved(
    before: StateView,
    after: StateView,
    got: Result<(), ValueError>,
    want: Result<StateView, ValueError>,
) -> bool {
    match want {
        Ok(s) => got is Ok && after == s,
        Err(e) => got == Err::<(), ValueError>(e) && after == before,
    }
}

/// Once a value has no text, the row has none however many values follow.
pub proof fn lemma_concat_fails(vals: Seq<ValueView>, i: int, answers: FloatAnswersView)
    requires
        0 <= i <= vals.len(),
        concat_text(vals.take(i), answers) is Err,
    ensures
        concat_text(vals, answers) == concat_text(vals.take(i), answers),
    decreases vals.len(),
{
    if i < vals.len() {
        assert(vals.drop_last().take(i) =~= vals.take(i));
        lemma_concat_fails(vals.drop_last(), i, answers);
    } else {
        assert(vals.take(i) =~= vals);
    }
}

/// The part of the machine that the instructions drive.
pub trait LuaVM {
    /// The state of the machine.
    spec fn machine(&self) -> StateView;

    /// Whether the machine is in order.
    spec fn sound(&self) -> bool;

    /// The place in the code of the next instruction.
    fn pc(&self) -> (r: isize)
        requires
            self.sound(),
        ensures
            r == self.machine().pc,
    ;

    /// Moves the program counter by `n`.
    fn add_pc(&mut self, n: isize)
        requires
            old(self).sound(),
            old(self).machine().can_jump(n as int),
        ensures
            final(self).sound(),
            final(self).machine() == old(self).machine().jump(n as int),
    ;

    /// The next instruction, with the program counter moved behind it; at
    /// the end of the code nothing, and nothing changes.
    fn fetch(&mut self) -> (r: Option<u32>)
        requires
            old(self).sound(),
        ensures
            final(self).sound(),
            match r {
                Some(w) => old(self).machine().pc < old(self).machine().proto.code.len() && w
                    == old(self).machine().proto.code[old(self).machine().pc]
                    && final(self).machine() == old(self).machine().jump(1),
                None => old(self).machine().pc == old(self).machine().proto.code.len()
                    && final(self).machine() == old(self).machine(),
            },
    ;

    /// Pushes the constant with the given place in the pool.
    fn get_const(&mut self, idx: isize) -> (r: Result<(), ValueError>)
        requires
            old(self).sound(),
            old(self).machine().room(),
        ensures
            final(self).sound(),
            moved(
                old(self).machine(),
                final(self).machine(),
                r,
                if old(self).machine().has_constant(idx as int) {
                    Ok(old(self).machine().push(old(self).machine().constant(idx as int)))
                } else {
                    Err(ValueError::Constant)
                },
            ),
    ;

    /// Pushes what an operand stands for that names a register or a
    /// constant.
    fn get_rk(&mut self, rk: isize) -> (r: Result<(), ValueError>)
        requires
            old(self).sound(),
            old(self).machine().room(),
        ensures
            final(self).sound(),
            moved(
                old(self).machine(),
                final(self).machine(),
                r,
                match old(self).machine().rk(rk as int) {
                    Ok(v) => Ok(old(self).machine().push(v)),
                    Err(e) => Err(e),
                },
            ),
    ;
}

/// The views of a sequence of tables.
pub open spec fn tables_view(v: Seq<LuaTable>) -> Seq<TableView> {
    v.map_values(|t: LuaTable| t@)
}

/// The state of one running function.
pub struct LuaState {
    stack: Vec<LuaValue>,
    limit: usize,
    proto: ProtoType,
    pc: usize,
    tables: Vec<LuaTable>,
    answers: FloatAnswers,
}

impl View for LuaState {
    type V = StateView;

    closed spec fn view(&self) -> StateView {
        StateView {
            stack: values_view(self.stack@),
            limit: self.limit as int,
            pc: self.pc as int,
            proto: self.proto@,
            tables: tables_view(self.tables@),
            answers: self.answers@,
        }
    }
}

/// The value of a constant.
pub fn constant_to_value(c: &Constant) -> (r: LuaValue)
    ensures
        r@ == constant_value(c@),
{
    match c {
        Constant::Nil => LuaValue::Nil,
        Constant::Boolean(b) => LuaValue::Boolean(*b),
        Constant::Number(n) => LuaValue::Number(*n),
        Constant::Integer(i) => LuaValue::Integer(*i),
        Constant::SString(s) => LuaValue::Str(s.clone()),
        Constant::LString(s) => LuaValue::Str(s.clone()),
    }
}

/// The name of a kind of value.
pub open spec fn kind_name_of(tp: i8) -> &'static str {
    if tp == LUA_TNONE {
        "no value"
    } else if tp == LUA_TNIL {
        "nil"
    } else if tp == LUA_TBOOLEAN {
        "boolean"
    } else if tp == LUA_TNUMBER {
        "number"
    } else if tp == LUA_TSTRING {
        "string"
    } else if tp == LUA_TTABLE {
        "table"
    } else if tp == LUA_TFUNCTION {
        "function"
    } else if tp == LUA_TTHREAD {
        "thread"
    } else {
        "userdata"
    }
}

impl LuaState {
    /// What holds of every state: the stack is within its limit and the
    /// limit within `MAX_STACK`; the program counter stands in the code or at
    /// its end; the tables and the answers are well formed.
    pub closed spec fn wf(&self) -> bool {
        &&& self.stack@.len() <= self.limit <= MAX_STACK
        &&& self.pc <= self.proto.code@.len() <= isize::MAX
        &&& self.answers.wf()
        &&& forall|i: int| 0 <= i < self.tables@.len() ==> (#[trigger] self.tables@[i]).wf()
    }

    /// What `wf` says of the view.
    pub proof fn lemma_wf(&self)
        requires
            self.wf(),
        ensures
            0 <= self@.top() <= self@.limit <= MAX_STACK,
            0 <= self@.pc <= self@.proto.code.len() <= isize::MAX,
            forall|i: int| 0 <= i < self@.tables.len() ==> (#[trigger] self@.tables[i]).wf(),
    {
        assert forall|i: int| 0 <= i < self@.tables.len() implies (
        #[trigger] self@.tables[i]).wf() by {
            assert(self.tables@[i].wf());
        }
    }

    /// A state at the start of the code, with an empty stack that may grow
    /// to `stack_size` values, or to `MAX_STACK` where that is less.
    pub fn new(stack_size: usize, proto: ProtoType) -> (r: LuaState)
        requires
            proto@.code.len() <= isize::MAX,
        ensures
            r.wf(),
            r@.stack == Seq::<ValueView>::empty(),
            r@.limit == if stack_size <= MAX_STACK {
                stack_size
            } else {
                MAX_STACK
            },
            r@.pc == 0,
            r@.proto == proto@,
            r@.tables == Seq::<TableView>::empty(),
            r@.answers.arith == Map::<(FloatOp, u64, u64), u64>::empty(),
            r@.answers.parse == Map::<Seq<char>, Option<u64>>::empty(),
            r@.answers.format == Map::<u64, Seq<char>>::empty(),
    {
        let limit: usize = if stack_size <= MAX_STACK {
            stack_size
        } else {
            MAX_STACK
        };
        let r = LuaState {
            stack: Vec::new(),
            limit,
            proto,
            pc: 0,
            tables: Vec::new(),
            answers: FloatAnswers::new(),
        };
        assert(r@.stack =~= Seq::<ValueView>::empty());
        assert(r@.tables =~= Seq::<TableView>::empty());
        r
    }

    pub fn get_top(&self) -> (r: isize)
        requires
            self.wf(),
        ensures
            r == self@.top(),
    {
        self.stack.len() as isize
    }

    pub fn abs_index(&self, idx: isize) -> (r: isize)
        requires
            self.wf(),
        ensures
            r == self@.abs_index(idx as int),
    {
        if idx >= 0 {
            idx
        } else {
            idx + self.stack.len() as isize + 1
        }
    }

    /// Whether the index names a value of the stack.
    pub fn is_valid(&self, idx: isize) -> (r: bool)
        requires
            self.wf(),
        ensures
            r == self@.valid(idx as int),
    {
        let abs: isize = self.abs_index(idx);
        abs >= 1 && abs <= self.stack.len() as isize
    }

    /// Makes room for `n` more values. Where that would take the stack
    /// beyond `MAX_STACK`, nothing changes and the answer is `false`.
    pub fn check_stack(&mut self, n: usize) -> (r: bool)
        requires
            old(self).wf(),
        ensures
            final(self).wf(),
            r == (old(self)@.top() + n <= MAX_STACK),
            final(self)@ == (StateView {
                limit: if r && old(self)@.limit < old(self)@.top() + n {
                    old(self)@.top() + n
                } else {
                    old(self)@.limit
                },
                ..old(self)@
            }),
    {
        if n > MAX_STACK - self.stack.len() {
            return false;
        }
        if self.limit < self.stack.len() + n {
            self.limit = self.stack.len() + n;
        }
        true
    }

    /// Takes the `n` topmost values off the stack.
    pub fn pop(&mut self, n: usize)
        requires
            old(self).wf(),
            n <= old(self)@.top(),
        ensures
            final(self).wf(),
            final(self)@ == old(self)@.pop(n as int),
    {
        let len: usize = self.stack.len() - n;
        self.stack.truncate(len);
        assert(values_view(self.stack@) =~= values_view(old(self).stack@).take(len as int));
    }

    /// A copy of the value at an index.
    pub fn value(&self, idx: isize) -> (r: LuaValue)
        requires
            self.wf(),
            self@.valid(idx as int),
        ensures
            r@ == self@.at(idx as int),
    {
        let abs: isize = self.abs_index(idx);
        self.stack[(abs - 1) as usize].clone()
    }

    /// Puts a value at an index.
    pub fn set(&mut self, idx: isize, val: LuaValue)
        requires
            old(self).wf(),
            old(self)@.valid(idx as int),
        ensures
            final(self).wf(),
            final(self)@ == old(self)@.set(idx as int, val@),
    {
        let abs: isize = self.abs_index(idx);
        self.stack[(abs - 1) as usize] = val;
        assert(values_view(self.stack@) =~= values_view(old(self).stack@).update(
            abs - 1,
            val@,
        ));
    }

    /// Pushes a value.
    pub fn push(&mut self, val: LuaValue)
        requires
            old(self).wf(),
            old(self)@.room(),
        ensures
            final(self).wf(),
            final(self)@ == old(self)@.push(val@),
    {
        self.stack.push(val);
        assert(values_view(self.stack@) =~= values_view(old(self).stack@).push(val@));
    }

    /// Copies the value at one index to another.
    pub fn copy(&mut self, from_idx: isize, to_idx: isize)
        requires
            old(self).wf(),
            old(self)@.valid(from_idx as int),
            old(self)@.valid(to_idx as int),
        ensures
            final(self).wf(),
            final(self)@ == old(self)@.set(to_idx as int, old(self)@.at(from_idx as int)),
    {
        let val = self.value(from_idx);
        self.set(to_idx, val);
    }

    /// Pushes a copy of the value at an index.
    pub fn push_value(&mut self, idx: isize)
        requires
            old(self).wf(),
            old(self)@.valid(idx as int),
            old(self)@.room(),
        ensures
            final(self).wf(),
            final(self)@ == old(self)@.push(old(self)@.at(idx as int)),
    {
        let val = self.value(idx);
        self.push(val);
    }

    /// Takes the topmost value off the stack and puts it at an index, which
    /// is read on the stack without that value.
    pub fn replace(&mut self, idx: isize)
        requires
            old(self).wf(),
            old(self)@.top() >= 1,
            old(self)@.pop(1).valid(idx as int),
        ensures
            final(self).wf(),
            final(self)@ == old(self)@.pop(1).set(idx as int, old(self)@.stack.last()),
    {
        let val = self.value(-1);
        self.pop(1);
        self.set(idx, val);
    }

    /// Makes the stack hold as many values as the index says: values are
    /// taken off the top, or nils are pushed.
    #[verifier::rlimit(50)]
    pub fn set_top(&mut self, idx: isize)
        requires
            old(self).wf(),
            0 <= old(self)@.abs_index(idx as int) <= old(self)@.limit,
        ensures
            final(self).wf(),
            final(self)@ == old(self)@.with_top(old(self)@.abs_index(idx as int)),
    {
        let new_top: usize = self.abs_index(idx) as usize;
        if new_top <= self.stack.len() {
            self.stack.truncate(new_top);
            assert(values_view(self.stack@) =~= values_view(old(self).stack@).take(
                new_top as int,
            ));
        } else {
            let ghost want = old(self)@.with_top(new_top as int).stack;
            while self.stack.len() < new_top
                invariant
                    self.stack@.len() <= new_top <= self.limit,
                    self.limit == old(self).limit,
                    self.proto == old(self).proto,
                    self.pc == old(self).pc,
                    self.tables == old(self).tables,
                    self.answers == old(self).answers,
                    old(self).wf(),
                    old(self).stack@.len() <= self.stack@.len(),
                    want.len() == new_top,
                    values_view(self.stack@) == want.take(self.stack@.len() as int),
                    forall|i: int| old(self).stack@.len() <= i < new_top ==> want[i] is Nil,
                decreases new_top - self.stack@.len(),
            {
                let ghost before = values_view(self.stack@);
                self.stack.push(LuaValue::Nil);
                assert(values_view(self.stack@) =~= before.push(ValueView::Nil));
                assert(values_view(self.stack@) =~= want.take(self.stack@.len() as int));
            }
            assert(values_view(self.stack@) =~= want);
        }
    }

    pub fn push_nil(&mut self)
        requires
            old(self).wf(),
            old(self)@.room(),
        ensures
            final(self).wf(),
            final(self)@ == old(self)@.push(ValueView::Nil),
    {
        self.push(LuaValue::Nil);
    }

    pub fn push_boolean(&mut self, b: bool)
        requires
            old(self).wf(),
            old(self)@.room(),
        ensures
            final(self).wf(),
            final(self)@ == old(self)@.push(ValueView::Boolean(b)),
    {
        self.push(LuaValue::Boolean(b));
    }

    pub fn push_integer(&mut self, n: i64)
        requires
            old(self).wf(),
            old(self)@.room(),
        ensures
            final(self).wf(),
            final(self)@ == old(self)@.push(ValueView::Integer(n)),
    {
        self.push(LuaValue::Integer(n));
    }

    /// Pushes a float, given as the bit pattern of a double.
    pub fn push_number(&mut self, n: u64)
        requires
            old(self).wf(),
            old(self)@.room(),
        ensures
            final(self).wf(),
            final(self)@ == old(self)@.push(ValueView::Number(n)),
    {
        self.push(LuaValue::Number(n));
    }

    pub fn push_string(&mut self, s: String)
        requires
            old(self).wf(),
            old(self)@.room(),
        ensures
            final(self).wf(),
            final(self)@ == old(self)@.push(ValueView::Str(s@)),
    {
        self.push(LuaValue::Str(s));
    }

    pub fn kind_name(&self, tp: i8) -> (r: &'static str)
        ensures
            r@ == kind_name_of(tp)@,
    {
        if tp == LUA_TNONE {
            "no value"
        } else if tp == LUA_TNIL {
            "nil"
        } else if tp == LUA_TBOOLEAN {
            "boolean"
        } else if tp == LUA_TNUMBER {
            "number"
        } else if tp == LUA_TSTRING {
            "string"
        } else if tp == LUA_TTABLE {
            "table"
        } else if tp == LUA_TFUNCTION {
            "function"
        } else if tp == LUA_TTHREAD {
            "thread"
        } else {
            "userdata"
        }
    }

    /// The kind of the value at an index; `LUA_TNONE` where the index names
    /// no value.
    pub fn type_id(&self, idx: isize) -> (r: i8)
        requires
            self.wf(),
        ensures
            r == if self@.valid(idx as int) {
                self@.at(idx as int).type_id()
            } else {
                LUA_TNONE
            },
    {
        if self.is_valid(idx) {
            let abs: isize = self.abs_index(idx);
            self.stack[(abs - 1) as usize].type_id()
        } else {
            LUA_TNONE
        }
    }

    pub fn is_none(&self, idx: isize) -> (r: bool)
        requires
            self.wf(),
        ensures
            r == !self@.valid(idx as int),
    {
        self.type_id(idx) == LUA_TNONE
    }

    pub fn is_nil(&self, idx: isize) -> (r: bool)
        requires
            self.wf(),
        ensures
            r == (self@.valid(idx as int) && self@.at(idx as int) is Nil),
    {
        self.type_id(idx) == LUA_TNIL
    }

    pub fn is_none_or_nil(&self, idx: isize) -> (r: bool)
        requires
            self.wf(),
        ensures
            r == (self@.at_or_nil(idx as int) is Nil),
    {
        self.type_id(idx) <= LUA_TNIL
    }

    pub fn is_boolean(&self, idx: isize) -> (r: bool)
        requires
            self.wf(),
        ensures
            r == (self@.at_or_nil(idx as int) is Boolean),
    {
        self.type_id(idx) == LUA_TBOOLEAN
    }

    pub fn is_table(&self, idx: isize) -> (r: bool)
        requires
            self.wf(),
        ensures
            r == (self@.at_or_nil(idx as int) is Table),
    {
        self.type_id(idx) == LUA_TTABLE
    }

    pub fn is_string(&self, idx: isize) -> (r: bool)
        requires
            self.wf(),
        ensures
            r == (self@.at_or_nil(idx as int) is Str || self@.at_or_nil(idx as int).type_id()
                == LUA_TNUMBER),
    {
        let t: i8 = self.type_id(idx);
        t == LUA_TSTRING || t == LUA_TNUMBER
    }

    pub fn is_integer(&self, idx: isize) -> (r: bool)
        requires
            self.wf(),
        ensures
            r == (self@.at_or_nil(idx as int) is Integer),
    {
        if self.is_valid(idx) {
            let abs: isize = self.abs_index(idx);
            match &self.stack[(abs - 1) as usize] {
                LuaValue::Integer(_) => true,
                _ => false,
            }
        } else {
            false
        }
    }

    /// The truth of the value at an index; an index that names no value
    /// counts as nil.
    pub fn to_boolean(&self, idx: isize) -> (r: bool)
        requires
            self.wf(),
        ensures
            r == self@.at_or_nil(idx as int).truth(),
    {
        if self.is_valid(idx) {
            let abs: isize = self.abs_index(idx);
            self.stack[(abs - 1) as usize].to_boolean()
        } else {
            false
        }
    }

    /// The value at an index as a float, where it can be taken as one.
    pub fn to_numberx(&self, idx: isize) -> (r: Result<Option<u64>, FloatTask>)
        requires
            self.wf(),
        ensures
            or_task(r) == self@.at_or_nil(idx as int).to_number(self@.answers),
    {
        if self.is_valid(idx) {
            let abs: isize = self.abs_index(idx);
            self.stack[(abs - 1) as usize].to_number(&self.answers)
        } else {
            Ok(None)
        }
    }

    /// The value at an index as an integer, where it can be taken as one.
    pub fn to_integerx(&self, idx: isize) -> (r: Result<Option<i64>, FloatTask>)
        requires
            self.wf(),
        ensures
            or_task(r) == self@.at_or_nil(idx as int).to_integer(self@.answers),
    {
        if self.is_valid(idx) {
            let abs: isize = self.abs_index(idx);
            self.stack[(abs - 1) as usize].to_integer(&self.answers)
        } else {
            Ok(None)
        }
    }

    /// Applies an operator to the topmost values and puts the result in
    /// their place.
    pub fn arith(&mut self, op: u8) -> (r: Result<(), Pause>)
        requires
            old(self).wf(),
            old(self)@.top() >= (if one_place(op) {
                1int
            } else {
                2int
            }),
        ensures
            final(self).wf(),
            stepped(old(self)@, final(self)@, r, old(self)@.arith(op)),
    {
        let top: usize = self.stack.len();
        if op == crate::arith::LUA_OPUNM || op == crate::arith::LUA_OPBNOT {
            let v = arith(&self.stack[top - 1], &self.stack[top - 1], op, &self.answers)?;
            self.pop(1);
            self.push(v);
        } else {
            let v = arith(&self.stack[top - 2], &self.stack[top - 1], op, &self.answers)?;
            self.pop(2);
            self.push(v);
        }
        Ok(())
    }

    /// Compares the values at two indices under `==`, `<` or `<=`.
    pub fn compare(&self, idx1: isize, idx2: isize, op: u8) -> (r: Result<bool, ValueError>)
        requires
            self.wf(),
        ensures
            r == self@.compare(idx1 as int, idx2 as int, op),
    {
        if !self.is_valid(idx1) || !self.is_valid(idx2) {
            return Ok(false);
        }
        let a: isize = self.abs_index(idx1);
        let b: isize = self.abs_index(idx2);
        compare_values(&self.stack[(a - 1) as usize], &self.stack[(b - 1) as usize], op)
    }

    /// The length of a value.
    pub fn length_of_value(&self, val: &LuaValue) -> (r: Result<LuaValue, ValueError>)
        requires
            self.wf(),
        ensures
            match r {
                Ok(v) => length_of(val@, self@.tables) == Ok::<ValueView, ValueError>(v@),
                Err(e) => length_of(val@, self@.tables) == Err::<ValueView, ValueError>(e),
            },
    {
        match val {
            LuaValue::Str(s) => {
                let n: usize = s.as_str().as_bytes().len();
                if n as u64 <= i64::MAX as u64 {
                    Ok(LuaValue::Integer(n as i64))
                } else {
                    Err(ValueError::Length)
                }
            },
            LuaValue::Table(h) => {
                if *h < self.tables.len() {
                    proof {
                        self.lemma_wf();
                    }
                    assert(self.tables@[*h as int]@ == self@.tables[*h as int]);
                    Ok(LuaValue::Integer(self.tables[*h].len() as i64))
                } else {
                    Err(ValueError::Table)
                }
            },
            _ => Err(ValueError::Length),
        }
    }

    /// Pushes the length of the value at an index.
    pub fn len(&mut self, idx: isize) -> (r: Result<(), ValueError>)
        requires
            old(self).wf(),
            old(self)@.valid(idx as int),
            old(self)@.room(),
        ensures
            final(self).wf(),
            moved(old(self)@, final(self)@, r, old(self)@.len(idx as int)),
    {
        let abs: isize = self.abs_index(idx);
        let v = self.length_of_value(&self.stack[(abs - 1) as usize])?;
        self.push(v);
        Ok(())
    }

    /// The text that the values from place `from` up to, not including,
    /// place `to` of the stack make, the bottom of the stack being place 0.
    #[verifier::rlimit(50)]
    pub fn text_of_range(&self, from: usize, to: usize) -> (r: Result<String, Pause>)
        requires
            self.wf(),
            from <= to <= self@.top(),
        ensures
            match r {
                Ok(t) => concat_text(self@.stack.subrange(from as int, to as int), self@.answers)
                    == Ok::<Seq<char>, PauseView>(t@),
                Err(p) => concat_text(self@.stack.subrange(from as int, to as int), self@.answers)
                    == Err::<Seq<char>, PauseView>(p@),
            },
    {
        let ghost vals = self@.stack.subrange(from as int, to as int);
        let mut text = String::new();
        let mut i: usize = from;
        assert(vals.take(0) =~= Seq::<ValueView>::empty());
        while i < to
            invariant
                self.wf(),
                from <= i <= to <= self.stack@.len(),
                vals == self@.stack.subrange(from as int, to as int),
                concat_text(vals.take(i - from), self@.answers) == Ok::<Seq<char>, PauseView>(
                    text@,
                ),
            decreases to - i,
        {
            let ghost before = vals.take(i - from);
            let ghost after = vals.take(i - from + 1);
            assert(after.drop_last() =~= before);
            assert(after.last() == self.stack@[i as int]@);
            match &self.stack[i] {
                LuaValue::Str(s) => {
                    text.append(s.as_str());
                },
                LuaValue::Integer(v) => {
                    let t = integer_to_string(*v);
                    text.append(t.as_str());
                },
                LuaValue::Number(x) => {
                    match self.answers.formatted(*x) {
                        Some(t) => {
                            text.append(t.as_str());
                        },
                        None => {
                            proof {
                                lemma_concat_fails(vals, i - from + 1, self@.answers);
                            }
                            return Err(Pause::Need(FloatTask::Format(*x)));
                        },
                    }
                },
                _ => {
                    proof {
                        lemma_concat_fails(vals, i - from + 1, self@.answers);
                    }
                    return Err(Pause::Fault(ValueError::Concat));
                },
            }
            i += 1;
        }
        assert(vals.take(to - from) =~= vals);
        Ok(text)
    }

    /// Puts the string that the `n` topmost values make in their place.
    pub fn concat(&mut self, n: usize) -> (r: Result<(), Pause>)
        requires
            old(self).wf(),
            n <= old(self)@.top(),
            n == 0 ==> old(self)@.room(),
        ensures
            final(self).wf(),
            stepped(old(self)@, final(self)@, r, old(self)@.concat(n as int)),
    {
        if n == 1 {
            return Ok(());
        }
        let top: usize = self.stack.len();
        let text = self.text_of_range(top - n, top)?;
        self.pop(n);
        self.push(LuaValue::Str(text));
        Ok(())
    }

    /// Makes an empty table and pushes it. The two numbers say how many
    /// entries its two parts are expected to get.
    pub fn create_table(&mut self, narr: usize, nrec: usize)
        requires
            old(self).wf(),
            old(self)@.room(),
        ensures
            final(self).wf(),
            final(self)@ == old(self)@.create_table(),
    {
        let handle: usize = self.tables.len();
        let table = LuaTable::new(narr, nrec);
        let ghost tables = tables_view(self.tables@);
        self.tables.push(table);
        assert(tables_view(self.tables@) =~= tables.push(table@));
        self.stack.push(LuaValue::Table(handle));
        assert(values_view(self.stack@) =~= values_view(old(self).stack@).push(
            ValueView::Table(handle),
        ));
    }

    /// Makes an empty table and returns the value that names it.
    pub fn alloc_table(&mut self, narr: usize, nrec: usize) -> (r: LuaValue)
        requires
            old(self).wf(),
        ensures
            final(self).wf(),
            r@ == ValueView::Table(old(self)@.tables.len() as usize),
            final(self)@ == (StateView {
                tables: old(self)@.tables.push(TableView { arr: Seq::empty(), map: Map::empty() }),
                ..old(self)@
            }),
    {
        let handle: usize = self.tables.len();
        let table = LuaTable::new(narr, nrec);
        let ghost tables = tables_view(self.tables@);
        self.tables.push(table);
        assert(tables_view(self.tables@) =~= tables.push(table@));
        LuaValue::Table(handle)
    }

    pub fn new_table(&mut self)
        requires
            old(self).wf(),
            old(self)@.room(),
        ensures
            final(self).wf(),
            final(self)@ == old(self)@.create_table(),
    {
        self.create_table(0, 0);
    }

    /// What a table gives under a key.
    pub fn index(&self, t: &LuaValue, k: &LuaValue) -> (r: Result<LuaValue, ValueError>)
        requires
            self.wf(),
        ensures
            match r {
                Ok(v) => self@.index(t@, k@) == Ok::<ValueView, ValueError>(v@),
                Err(e) => self@.index(t@, k@) == Err::<ValueView, ValueError>(e),
            },
    {
        match t {
            LuaValue::Table(h) => {
                if *h < self.tables.len() {
                    assert(self.tables@[*h as int]@ == self@.tables[*h as int]);
                    assert(self.tables@[*h as int].wf());
                    Ok(self.tables[*h].get(k))
                } else {
                    Err(ValueError::Table)
                }
            },
            _ => Err(ValueError::Table),
        }
    }

    /// Puts a value into a table under a key.
    #[verifier::rlimit(50)]
    pub fn store(&mut self, t: &LuaValue, k: LuaValue, v: LuaValue) -> (r: Result<(), ValueError>)
        requires
            old(self).wf(),
        ensures
            final(self).wf(),
            moved(old(self)@, final(self)@, r, old(self)@.store(t@, k@, v@)),
    {
        match t {
            LuaValue::Table(h) => {
                if *h < self.tables.len() {
                    let ghost tables = tables_view(self.tables@);
                    assert(self.tables@[*h as int]@ == tables[*h as int]);
                    assert(self.tables@[*h as int].wf());
                    let mut table = LuaTable::new(0, 0);
                    std::mem::swap(&mut table, &mut self.tables[*h]);
                    let r = table.put(k, v);
                    std::mem::swap(&mut table, &mut self.tables[*h]);
                    assert(tables_view(self.tables@) =~= if r is Ok {
                        tables.update(*h as int, tables[*h as int].put(k@, v@))
                    } else {
                        tables
                    });
                    r
                } else {
                    Err(ValueError::Table)
                }
            },
            _ => Err(ValueError::Table),
        }
    }

    /// Replaces the key on top of the stack by what the table at the index
    /// gives under it.
    pub fn get_table(&mut self, idx: isize) -> (r: Result<(), ValueError>)
        requires
            old(self).wf(),
            old(self)@.valid(idx as int),
        ensures
            final(self).wf(),
            moved(old(self)@, final(self)@, r, old(self)@.get_table(idx as int)),
    {
        let abs: isize = self.abs_index(idx);
        let top: usize = self.stack.len();
        let v = self.index(&self.stack[(abs - 1) as usize], &self.stack[top - 1])?;
        self.pop(1);
        self.push(v);
        Ok(())
    }

    /// Puts the value on top of the stack into the table at the index, under
    /// the key below it, and takes both off.
    pub fn set_table(&mut self, idx: isize) -> (r: Result<(), ValueError>)
        requires
            old(self).wf(),
            old(self)@.valid(idx as int),
            old(self)@.top() >= 2,
        ensures
            final(self).wf(),
            moved(old(self)@, final(self)@, r, old(self)@.set_table(idx as int)),
    {
        let t = self.value(idx);
        let k = self.value(-2);
        let v = self.value(-1);
        self.store(&t, k, v)?;
        self.pop(2);
        Ok(())
    }

    /// Whether the stack holds the register with the given number, which is
    /// the value with the index one greater.
    pub fn has_register(&self, n: isize) -> (r: bool)
        requires
            self.wf(),
        ensures
            r == (0 <= n < self@.top()),
    {
        n >= 0 && (n as usize) < self.stack.len()
    }

    /// The instruction at a place in the code.
    pub fn instruction(&self, at: isize) -> (r: Option<u32>)
        requires
            self.wf(),
        ensures
            r == if 0 <= at < self@.proto.code.len() {
                Some(self@.proto.code[at as int])
            } else {
                None
            },
    {
        if at >= 0 && (at as usize) < self.proto.code.len() {
            Some(self.proto.code[at as usize])
        } else {
            None
        }
    }

    /// Whether a move of the program counter by `n` stays in the code or at
    /// its end.
    pub fn can_jump(&self, n: isize) -> (r: bool)
        requires
            self.wf(),
        ensures
            r == self@.can_jump(n as int),
    {
        let pc: isize = self.pc as isize;
        let len: isize = self.proto.code.len() as isize;
        if n >= 0 {
            n <= len - pc
        } else {
            -pc <= n
        }
    }

    /// The constant with the given place in the pool.
    pub fn constant(&self, idx: isize) -> (r: Option<LuaValue>)
        requires
            self.wf(),
        ensures
            match r {
                Some(v) => self@.has_constant(idx as int) && v@ == self@.constant(idx as int),
                None => !self@.has_constant(idx as int),
            },
    {
        if idx >= 0 && (idx as usize) < self.proto.constants.len() {
            let c = constant_to_value(&self.proto.constants[idx as usize]);
            assert(self@.proto.constants[idx as int] == self.proto.constants@[idx as int]@);
            Some(c)
        } else {
            None
        }
    }

    /// What an operand stands for that names a register or a constant.
    pub fn rk(&self, rk: isize) -> (r: Result<LuaValue, ValueError>)
        requires
            self.wf(),
        ensures
            match r {
                Ok(v) => self@.rk(rk as int) == Ok::<ValueView, ValueError>(v@),
                Err(e) => self@.rk(rk as int) == Err::<ValueView, ValueError>(e),
            },
    {
        if rk > 0xff {
            match self.constant(rk % 0x100) {
                Some(v) => Ok(v),
                None => Err(ValueError::Constant),
            }
        } else if rk >= 0 && (rk as usize) < self.stack.len() {
            Ok(self.stack[rk as usize].clone())
        } else {
            Err(ValueError::Register)
        }
    }

    /// Records the host's answer to a task on two doubles.
    pub fn record_arith(&mut self, op: FloatOp, x: u64, y: u64, result: u64)
        requires
            old(self).wf(),
        ensures
            final(self).wf(),
            final(self)@ == old(self)@.with_arith(op, x, y, result),
    {
        self.answers.record_arith(op, x, y, result);
    }

    /// Records the host's reading of a text as a double: the double, or
    /// that the text is none.
    pub fn record_parse(&mut self, text: String, value: Option<u64>)
        requires
            old(self).wf(),
        ensures
            final(self).wf(),
            final(self)@ == old(self)@.with_parse(text@, value),
    {
        self.answers.record_parse(text, value);
    }

    /// Records the host's text of a double.
    pub fn record_format(&mut self, x: u64, text: String)
        requires
            old(self).wf(),
        ensures
            final(self).wf(),
            final(self)@ == old(self)@.with_format(x, text@),
    {
        self.answers.record_format(x, text);
    }

    /// The answers that the host has given.
    pub fn answers(&self) -> (r: &FloatAnswers)
        requires
            self.wf(),
        ensures
            r.wf(),
            r@ == self@.answers,
    {
        &self.answers
    }
}

pub fn new_lua_state(stack_size: usize, proto: ProtoType) -> (r: LuaState)
    requires
        proto@.code.len() <= isize::MAX,
    ensures
        r.wf(),
        r@.stack == Seq::<ValueView>::empty(),
        r@.limit == if stack_size <= MAX_STACK {
            stack_size
        } else {
            MAX_STACK
        },
        r@.pc == 0,
        r@.proto == proto@,
        r@.tables == Seq::<TableView>::empty(),
        r@.answers.arith == Map::<(FloatOp, u64, u64), u64>::empty(),
        r@.answers.parse == Map::<Seq<char>, Option<u64>>::empty(),
        r@.answers.format == Map::<u64, Seq<char>>::empty(),
{
    LuaState::new(stack_size, proto)
}

impl LuaVM for LuaState {
    open spec fn machine(&self) -> StateView {
        self@
    }

    open spec fn sound(&self) -> bool {
        self.wf()
    }

    fn pc(&self) -> (r: isize) {
        self.pc as isize
    }

    fn add_pc(&mut self, n: isize) {
        self.pc = (self.pc as isize + n) as usize;
    }

    fn fetch(&mut self) -> (r: Option<u32>) {
        if self.pc < self.proto.code.len() {
            let w: u32 = self.proto.code[self.pc];
            self.pc += 1;
            Some(w)
        } else {
            None
        }
    }

    fn get_const(&mut self, idx: isize) -> (r: Result<(), ValueError>) {
        match self.constant(idx) {
            Some(v) => {
                self.push(v);
                Ok(())
            },
            None => Err(ValueError::Constant),
        }
    }

    fn get_rk(&mut self, rk: isize) -> (r: Result<(), ValueError>) {
        let v = self.rk(rk)?;
        self.push(v);
        Ok(())
    }
}

impl LuaValue {
    /// Makes an empty table in the state and returns the value that names
    /// it. The two numbers say how many entries its two parts are expected to
    /// get.
    pub fn new_table(state: &mut LuaState, narr: usize, nrec: usize) -> (r: LuaValue)
        requires
            old(state).wf(),
        ensures
            final(state).wf(),
            r@ == ValueView::Table(old(state)@.tables.len() as usize),
            final(state)@ == (StateView {
                tables: old(state)@.tables.push(
                    TableView { arr: Seq::empty(), map: Map::empty() },
                ),
                ..old(state)@
            }),
    {
        state.alloc_table(narr, nrec)
    }
}

} // verus!
