//! Splitting of raw text into entries.

use vstd::prelude::*;
use crate::str_utils::{split_by, split_on, views_of};

verus! {

/// The entries of `data` between occurrences of `separator`, in order.
pub fn str_to_vector(data: &str, separator: char) -> (res: Vec<&str>)
    ensures
        views_of(res@) == split_on(data@, separator),
{
    split_by(data, separator)
}

} // verus!
