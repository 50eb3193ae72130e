//! A small spreadsheet engine: a `|`-separated sheet with `!head` rows is read
//! into named, lettered columns, and the cells that hold formulas are evaluated.

pub mod str_utils;
pub mod io_utils;
pub mod error;
pub mod eval_laws;
pub mod formula_laws;
pub mod keys;
pub mod logic_utils;
pub mod numbers;
pub mod reply_laws;
pub mod regex_helpers;
pub mod semantics;
pub mod table;
pub mod table_factory;
pub mod text;
