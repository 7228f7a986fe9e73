//! Work on doubles that this library hands to its host.
//!
//! The library holds a double as its bit pattern and does itself whatever the
//! bits decide. Arithmetic that rounds, and the conversion between doubles
//! and text, it asks of the host: a function that needs such a result looks
//! it up among the answers given so far, and where it is missing returns the
//! task. The host carries the task out, records the answer and calls again.

use vstd::prelude::*;
use crate::assoc::{as_map, distinct_keys, has_key, lemma_entry, lemma_push, lemma_update};
use crate::error::ValueError;

verus! {

/// The operations on two doubles that round.
#[derive(Clone, Copy, Debug, PartialEq, Eq, Structural)]
pub enum FloatOp {
    Add,
    Sub,
    Mul,
    /// The remainder of floor division.
    Mod,
    Pow,
    Div,
    /// The quotient rounded towards minus infinity.
    IDiv,
}

/// One piece of work for the host.
#[derive(Debug, PartialEq, Eq)]
pub enum FloatTask {
    /// Apply the operation to the two doubles.
    Arith(FloatOp, u64, u64),
    /// Read the text as a double, if it is the text of one.
    Parse(String),
    /// Write the double as text.
    Format(u64),
}

pub enum FloatTaskView {
    Arith(FloatOp, u64, u64),
    Parse(Seq<char>),
    Format(u64),
}

impl View for FloatTask {
    type V = FloatTaskView;

    open spec fn view(&self) -> FloatTaskView {
        match self {
            FloatTask::Arith(op, x, y) => FloatTaskView::Arith(*op, *x, *y),
            FloatTask::Parse(s) => FloatTaskView::Parse(s@),
            FloatTask::Format(x) => FloatTaskView::Format(*x),
        }
    }
}

/// Why a function returns before its work is done: it needs an answer from
/// the host, or the work cannot be done at all.
#[derive(Debug, PartialEq, Eq)]
pub enum Pause {
    Need(FloatTask),
    Fault(ValueError),
}

pub enum PauseView {
    Need(FloatTaskView),
    Fault(ValueError),
}

impl View for Pause {
    type V = PauseView;

    open spec fn view(&self) -> PauseView {
        match self {
            Pause::Need(t) => PauseView::Need(t@),
            Pause::Fault(e) => PauseView::Fault(*e),
        }
    }
}

/// The answers that the host has given.
pub struct FloatAnswers {
    arith: Vec<((FloatOp, u64, u64), u64)>,
    parse: Vec<(String, Option<u64>)>,
    format: Vec<(u64, String)>,
}

/// The answers as three maps, from what was asked to what was answered.
pub struct FloatAnswersView {
    pub arith: Map<(FloatOp, u64, u64), u64>,
    pub parse: Map<Seq<char>, Option<u64>>,
    pub format: Map<u64, Seq<char>>,
}

impl FloatAnswersView {
    /// Whether the task has an answer.
    pub open spec fn answers(&self, task: FloatTaskView) -> bool {
        match task {
            FloatTaskView::Arith(op, x, y) => self.arith.contains_key((op, x, y)),
            FloatTaskView::Parse(s) => self.parse.contains_key(s),
            FloatTaskView::Format(x) => self.format.contains_key(x),
        }
    }
}

pub open spec fn parse_pairs(v: Seq<(String, Option<u64>)>) -> Seq<(Seq<char>, Option<u64>)> {
    v.map_values(|e: (String, Option<u64>)| (e.0@, e.1))
}

pub open spec fn format_pairs(v: Seq<(u64, String)>) -> Seq<(u64, Seq<char>)> {
    v.map_values(|e: (u64, String)| (e.0, e.1@))
}

impl View for FloatAnswers {
    type V = FloatAnswersView;

    closed spec fn view(&self) -> FloatAnswersView {
        FloatAnswersView {
            arith: as_map(self.arith@),
            parse: as_map(parse_pairs(self.parse@)),
            format: as_map(format_pairs(self.format@)),
        }
    }
}

impl FloatAnswers {
    /// Nothing is recorded twice.
    pub closed spec fn wf(&self) -> bool {
        &&& distinct_keys(self.arith@)
        &&& distinct_keys(parse_pairs(self.parse@))
        &&& distinct_keys(format_pairs(self.format@))
    }

    pub fn new() -> (r: Self)
        ensures
            r.wf(),
            r@.arith == Map::<(FloatOp, u64, u64), u64>::empty(),
            r@.parse == Map::<Seq<char>, Option<u64>>::empty(),
            r@.format == Map::<u64, Seq<char>>::empty(),
    {
        let r = FloatAnswers { arith: Vec::new(), parse: Vec::new(), format: Vec::new() };
        assert(r@.arith =~= Map::<(FloatOp, u64, u64), u64>::empty());
        assert(r@.parse =~= Map::<Seq<char>, Option<u64>>::empty());
        assert(r@.format =~= Map::<u64, Seq<char>>::empty());
        r
    }

    fn find_arith(&self, op: FloatOp, x: u64, y: u64) -> (r: Option<usize>)
        ensures
            match r {
                Some(i) => i < self.arith@.len() && self.arith@[i as int].0 == (op, x, y),
                None => !has_key(self.arith@, (op, x, y)),
            },
    {
        let mut i: usize = 0;
        while i < self.arith.len()
            invariant
                i <= self.arith@.len(),
                forall|j: int| 0 <= j < i ==> (#[trigger] self.arith@[j]).0 != (op, x, y),
            decreases self.arith@.len() - i,
        {
            let key = self.arith[i].0;
            if key.0 == op && key.1 == x && key.2 == y {
                return Some(i);
            }
            i += 1;
        }
        None
    }

    fn find_parse(&self, text: &String) -> (r: Option<usize>)
        ensures
            match r {
                Some(i) => i < self.parse@.len() && parse_pairs(self.parse@)[i as int].0 == text@,
                None => !has_key(parse_pairs(self.parse@), text@),
            },
    {
        let mut i: usize = 0;
        while i < self.parse.len()
            invariant
                i <= self.parse@.len(),
                forall|j: int| 0 <= j < i ==> (#[trigger] parse_pairs(self.parse@)[j]).0 != text@,
            decreases self.parse@.len() - i,
        {
            if self.parse[i].0 == *text {
                return Some(i);
            }
            i += 1;
        }
        None
    }

    fn find_format(&self, x: u64) -> (r: Option<usize>)
        ensures
            match r {
                Some(i) => i < self.format@.len() && format_pairs(self.format@)[i as int].0 == x,
                None => !has_key(format_pairs(self.format@), x),
            },
    {
        let mut i: usize = 0;
        while i < self.format.len()
            invariant
                i <= self.format@.len(),
                forall|j: int| 0 <= j < i ==> (#[trigger] format_pairs(self.format@)[j]).0 != x,
            decreases self.format@.len() - i,
        {
            if self.format[i].0 == x {
                return Some(i);
            }
            i += 1;
        }
        None
    }

    /// The recorded result of an operation on two doubles.
    pub fn arith(&self, op: FloatOp, x: u64, y: u64) -> (r: Option<u64>)
        requires
            self.wf(),
        ensures
            r == if self@.arith.contains_key((op, x, y)) {
                Some(self@.arith[(op, x, y)])
            } else {
                None
            },
    {
        match self.find_arith(op, x, y) {
            Some(i) => {
                proof {
                    lemma_entry(self.arith@, i as int);
                }
                Some(self.arith[i].1)
            },
            None => None,
        }
    }

    /// The recorded reading of a text as a double: the double, or that the
    /// text is none.
    pub fn parsed(&self, text: &String) -> (r: Option<Option<u64>>)
        requires
            self.wf(),
        ensures
            r == if self@.parse.contains_key(text@) {
                Some(self@.parse[text@])
            } else {
                None
            },
    {
        match self.find_parse(text) {
            Some(i) => {
                proof {
                    lemma_entry(parse_pairs(self.parse@), i as int);
                }
                Some(self.parse[i].1)
            },
            None => None,
        }
    }

    /// The recorded text of a double.
    pub fn formatted(&self, x: u64) -> (r: Option<String>)
        requires
            self.wf(),
        ensures
            match r {
                Some(s) => self@.format.contains_key(x) && s@ == self@.format[x],
                None => !self@.format.contains_key(x),
            },
    {
        match self.find_format(x) {
            Some(i) => {
                proof {
                    lemma_entry(format_pairs(self.format@), i as int);
                }
                Some(self.format[i].1.clone())
            },
            None => None,
        }
    }

    /// Records the result of an operation on two doubles.
    pub fn record_arith(&mut self, op: FloatOp, x: u64, y: u64, result: u64)
        requires
            old(self).wf(),
        ensures
            final(self).wf(),
            final(self)@ == (FloatAnswersView {
                arith: old(self)@.arith.insert((op, x, y), result),
                ..old(self)@
            }),
    {
        match self.find_arith(op, x, y) {
            Some(i) => {
                proof {
                    lemma_update(self.arith@, i as int, result);
                }
                self.arith[i] = ((op, x, y), result);
            },
            None => {
                proof {
                    lemma_push(self.arith@, (op, x, y), result);
                }
                self.arith.push(((op, x, y), result));
            },
        }
    }

    /// Records how a text reads as a double: the double, or that the text is
    /// none.
    pub fn record_parse(&mut self, text: String, value: Option<u64>)
        requires
            old(self).wf(),
        ensures
            final(self).wf(),
            final(self)@ == (FloatAnswersView {
                parse: old(self)@.parse.insert(text@, value),
                ..old(self)@
            }),
    {
        let ghost before = parse_pairs(self.parse@);
        match self.find_parse(&text) {
            Some(i) => {
                proof {
                    lemma_update(before, i as int, value);
                }
                self.parse[i] = (text, value);
                assert(parse_pairs(self.parse@) =~= before.update(i as int, (text@, value)));
            },
            None => {
                proof {
                    lemma_push(before, text@, value);
                }
                self.parse.push((text, value));
                assert(parse_pairs(self.parse@) =~= before.push((text@, value)));
            },
        }
    }

    /// Records the text of a double.
    pub fn record_format(&mut self, x: u64, text: String)
        requires
            old(self).wf(),
        ensures
            final(self).wf(),
            final(self)@ == (FloatAnswersView {
                format: old(self)@.format.insert(x, text@),
                ..old(self)@
            }),
    {
        let ghost before = format_pairs(self.format@);
        match self.find_format(x) {
            Some(i) => {
                proof {
                    lemma_update(before, i as int, text@);
                }
                self.format[i] = (x, text);
                assert(format_pairs(self.format@) =~= before.update(i as int, (x, text@)));
            },
            None => {
                proof {
                    lemma_push(before, x, text@);
                }
                self.format.push((x, text));
                assert(format_pairs(self.format@) =~= before.push((x, text@)));
            },
        }
    }
}

} // verus!
