//! Why reading a sheet or evaluating a cell stopped.

use vstd::prelude::*;

verus! {

/// A sheet text that cannot be read into columns.
#[derive(Debug, Clone, Copy, PartialEq, Eq, Structural)]
pub enum SheetError {
    /// A head row holds a cell that does not start with `!`.
    InvalidHead,
    /// Two heads carry the same column name.
    DuplicateColumn,
    /// A data row holds a value in a position that has no head.
    CellWithoutHead,
    /// A head sits so far right that no column letter can be formed for it.
    TooManyColumns,
    /// The sheet has more rows than a row number can count.
    TooManyRows,
}

/// A cell whose evaluation cannot be completed.
#[derive(Debug, Clone, Copy, PartialEq, Eq, Structural)]
pub enum EvalError {
    /// The cell is empty or starts with a character wider than one byte.
    UnreadableCell,
    /// A formula holds a character wider than one byte.
    NonAsciiFormula,
    /// A formula holds a character that starts no token.
    UnknownSymbol,
    /// A formula ends where a further character is needed.
    UnexpectedEnd,
    /// A cell reference has none of the accepted shapes.
    BadReference,
    /// A number in a formula does not fit in a `usize`.
    NumberTooLarge,
    /// A referenced cell does not exist or has no value yet.
    MissingCell,
    /// A referenced column does not exist.
    MissingColumn,
    /// The evaluation needed an item that the stack does not hold.
    StackUnderflow,
    /// The stack holds an item of another kind than the one needed.
    UnexpectedItem,
    /// A function or an operator got a wrong number of arguments.
    WrongArity,
    /// A value lacks the kind of content that an operation needs.
    MissingValue,
    /// The separator of `split` is not one single-byte character.
    BadSeparator,
    /// A text that was to be read as a number is none.
    NotANumber,
    /// Brackets do not pair up.
    UnmatchedZone,
    /// The formula does not reduce to one value.
    InvalidExpression,
    /// A counter left the range of a `usize`.
    Overflow,
    /// A row number below the first row was needed.
    RowUnderflow,
    /// The pattern that finds the row references was refused.
    PatternRejected,
    /// A reply of another kind than the one asked for.
    UnexpectedReply,
}

} // verus!
