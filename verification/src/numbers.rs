//! Single-precision arithmetic is not done here: wherever an evaluation needs
//! it, it takes the next of a list of replies, and when the list is used up it
//! stops and hands back the question. Whoever drives the evaluation answers the
//! question with IEEE-754 arithmetic and runs the evaluation again with the
//! longer list. A number is carried as the bit pattern of the single.

use vstd::prelude::*;
use crate::error::EvalError;

verus! {

/// A question that only single-precision arithmetic can answer.
pub enum Query {
    /// Does the text read as a number (`str::parse::<f32>`), and which?
    ParseNumber(String),
    /// The result of `left op right` for an operator among `+ - * /`.
    Arithmetic(char, u32, u32),
    /// The sum of the numbers, in order.
    Sum(Vec<u32>),
    /// Is the first number at least the second?
    AtLeast(u32, u32),
}

/// The mathematical content of a `Query`.
pub enum QueryView {
    ParseNumber(Seq<char>),
    Arithmetic(char, u32, u32),
    Sum(Seq<u32>),
    AtLeast(u32, u32),
}

impl View for Query {
    type V = QueryView;

    open spec fn view(&self) -> QueryView {
        match self {
            Query::ParseNumber(s) => QueryView::ParseNumber(s@),
            Query::Arithmetic(op, a, b) => QueryView::Arithmetic(*op, *a, *b),
            Query::Sum(v) => QueryView::Sum(v@),
            Query::AtLeast(a, b) => QueryView::AtLeast(*a, *b),
        }
    }
}

/// The answer to a `Query`.
#[derive(Debug, Clone, Copy, PartialEq, Eq)]
pub enum Reply {
    /// The answer to `Arithmetic` and to `Sum`.
    Number(u32),
    /// The answer to `ParseNumber`: the number, or `None` for a text that is none.
    Parsed(Option<u32>),
    /// The answer to `AtLeast`.
    Truth(bool),
}

/// Why an evaluation stopped before its end.
pub enum Halt {
    /// The cell cannot be evaluated.
    Failed(EvalError),
    /// The replies are used up; this question comes next.
    Ask(Query),
}

/// The mathematical content of a `Halt`.
pub enum HaltView {
    Failed(EvalError),
    Ask(QueryView),
}

impl View for Halt {
    type V = HaltView;

    open spec fn view(&self) -> HaltView {
        match self {
            Halt::Failed(e) => HaltView::Failed(*e),
            Halt::Ask(q) => HaltView::Ask(q@),
        }
    }
}

/// The outcome is no failure: a result, or a question still to be answered.
pub open spec fn not_failed<T>(r: Result<T, HaltView>) -> bool {
    !(r matches Err(HaltView::Failed(_)))
}

pub open spec fn fail<T>(e: EvalError) -> Result<T, HaltView> {
    Err(HaltView::Failed(e))
}

/// The replies given so far, and how many of them an evaluation has taken.
pub struct Answers {
    pub replies: Vec<Reply>,
    pub used: usize,
}

/// The next reply, which must be a number.
pub open spec fn spec_number_reply(replies: Seq<Reply>, pos: nat, q: QueryView) -> Result<(u32, nat), HaltView> {
    if pos >= replies.len() {
        Err(HaltView::Ask(q))
    } else {
        match replies[pos as int] {
            Reply::Number(x) => Ok((x, pos + 1)),
            _ => fail(EvalError::UnexpectedReply),
        }
    }
}

/// The next reply, which must be the reading of a text as a number.
pub open spec fn spec_parsed_reply(replies: Seq<Reply>, pos: nat, q: QueryView) -> Result<(Option<u32>, nat), HaltView> {
    if pos >= replies.len() {
        Err(HaltView::Ask(q))
    } else {
        match replies[pos as int] {
            Reply::Parsed(x) => Ok((x, pos + 1)),
            _ => fail(EvalError::UnexpectedReply),
        }
    }
}

/// The next reply, which must be a truth value.
pub open spec fn spec_truth_reply(replies: Seq<Reply>, pos: nat, q: QueryView) -> Result<(bool, nat), HaltView> {
    if pos >= replies.len() {
        Err(HaltView::Ask(q))
    } else {
        match replies[pos as int] {
            Reply::Truth(x) => Ok((x, pos + 1)),
            _ => fail(EvalError::UnexpectedReply),
        }
    }
}

impl Answers {
    pub fn new(replies: Vec<Reply>) -> (res: Answers)
        ensures
            res.replies@ == replies@,
            res.used == 0,
    {
        Answers { replies, used: 0 }
    }

    /// Takes the next reply as a number.
    pub fn number(&mut self, q: Query) -> (res: Result<u32, Halt>)
        ensures
            final(self).replies@ == old(self).replies@,
            match spec_number_reply(old(self).replies@, old(self).used as nat, q@) {
                Ok((x, p)) => res == Ok::<u32, Halt>(x) && final(self).used == p,
                Err(h) => res is Err && res->Err_0@ == h,
            },
    {
        if self.used >= self.replies.len() {
            return Err(Halt::Ask(q));
        }
        match self.replies[self.used] {
            Reply::Number(x) => {
                self.used = self.used + 1;
                Ok(x)
            },
            _ => Err(Halt::Failed(EvalError::UnexpectedReply)),
        }
    }

    /// Takes the next reply as the reading of a text as a number.
    pub fn parsed(&mut self, q: Query) -> (res: Result<Option<u32>, Halt>)
        ensures
            final(self).replies@ == old(self).replies@,
            match spec_parsed_reply(old(self).replies@, old(self).used as nat, q@) {
                Ok((x, p)) => res == Ok::<Option<u32>, Halt>(x) && final(self).used == p,
                Err(h) => res is Err && res->Err_0@ == h,
            },
    {
        if self.used >= self.replies.len() {
            return Err(Halt::Ask(q));
        }
        match self.replies[self.used] {
            Reply::Parsed(x) => {
                self.used = self.used + 1;
                Ok(x)
            },
            _ => Err(Halt::Failed(EvalError::UnexpectedReply)),
        }
    }

    /// Takes the next reply as a truth value.
    pub fn truth(&mut self, q: Query) -> (res: Result<bool, Halt>)
        ensures
            final(self).replies@ == old(self).replies@,
            match spec_truth_reply(old(self).replies@, old(self).used as nat, q@) {
                Ok((x, p)) => res == Ok::<bool, Halt>(x) && final(self).used == p,
                Err(h) => res is Err && res->Err_0@ == h,
            },
    {
        if self.used >= self.replies.len() {
            return Err(Halt::Ask(q));
        }
        match self.replies[self.used] {
            Reply::Truth(x) => {
                self.used = self.used + 1;
                Ok(x)
            },
            _ => Err(Halt::Failed(EvalError::UnexpectedReply)),
        }
    }
}

} // verus!
