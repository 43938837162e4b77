//! Worksheets as the library reads them: rows of cells, each cell given by
//! the text the workbook shows for it, or by nothing where it is empty.

use vstd::prelude::*;
use crate::text::{chars_of, trim_chars, trim_seq};

verus! {

/// The text of cell `k` of a row; empty where the row has no such cell or
/// the cell is empty.
pub open spec fn cell_raw(row: Seq<Option<String>>, k: int) -> Seq<char> {
    if 0 <= k < row.len() {
        match row[k] {
            Some(s) => s@,
            None => Seq::empty(),
        }
    } else {
        Seq::empty()
    }
}

/// The text of cell `k` without leading and trailing white space.
pub open spec fn cell_text(row: Seq<Option<String>>, k: int) -> Seq<char> {
    trim_seq(cell_raw(row, k))
}

pub fn raw_chars(row: &Vec<Option<String>>, k: usize) -> (r: Vec<char>)
    ensures
        r@ == cell_raw(row@, k as int),
{
    if k < row.len() {
        match &row[k] {
            Some(s) => chars_of(s.as_str()),
            None => Vec::new(),
        }
    } else {
        Vec::new()
    }
}

pub fn text_chars(row: &Vec<Option<String>>, k: usize) -> (r: Vec<char>)
    ensures
        r@ == cell_text(row@, k as int),
{
    let raw = raw_chars(row, k);
    trim_chars(&raw)
}

} // verus!
