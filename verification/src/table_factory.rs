//! Reading a sheet text into columns.
//!
//! The text has one row per line and one cell per `|`-separated piece; cells
//! are trimmed of white space. A row whose first cell starts with `!` is a head
//! row: each of its non-empty cells names a column (`!name`), whose letter is
//! `A` for the first position, `B` for the second, and so on. The non-empty
//! cells of the other rows go, under row number `line index + 1`, into the
//! column named at the same position of the last head row.

use vstd::prelude::*;
use crate::error::SheetError;
use crate::str_utils::{StrUtils, split_on, views_of, chars_of};
use crate::table::{TableData, TableDataGetter, ColumnView, Column, LiteralView, name_index, new_column, strings_view, lemma_name_index_from, names_distinct, law_add_column_keeps_names_distinct};

verus! {

broadcast use vstd::std_specs::hash::group_hash_axioms;

/// The characters that have the Unicode `White_Space` property.
pub open spec fn is_white_space(c: char) -> bool {
    let u = c as u32;
    (0x9 <= u && u <= 0xd) || u == 0x20 || u == 0x85 || u == 0xa0 || u == 0x1680
        || (0x2000 <= u && u <= 0x200a) || u == 0x2028 || u == 0x2029 || u == 0x202f
        || u == 0x205f || u == 0x3000
}

pub fn is_white_space_exec(c: char) -> (res: bool)
    ensures
        res == is_white_space(c),
{
    let u = c as u32;
    (0x9 <= u && u <= 0xd) || u == 0x20 || u == 0x85 || u == 0xa0 || u == 0x1680
        || (0x2000 <= u && u <= 0x200a) || u == 0x2028 || u == 0x2029 || u == 0x202f
        || u == 0x205f || u == 0x3000
}

/// `s` without the white space at its start.
pub open spec fn trim_start(s: Seq<char>) -> Seq<char>
    decreases s.len(),
{
    if s.len() > 0 && is_white_space(s[0]) {
        trim_start(s.drop_first())
    } else {
        s
    }
}

/// `s` without the white space at its end.
pub open spec fn trim_end(s: Seq<char>) -> Seq<char>
    decreases s.len(),
{
    if s.len() > 0 && is_white_space(s.last()) {
        trim_end(s.drop_last())
    } else {
        s
    }
}

/// `s` without the white space at either end.
pub open spec fn trimmed(s: Seq<char>) -> Seq<char> {
    trim_end(trim_start(s))
}

pub proof fn lemma_trim_start(s: Seq<char>, i: int)
    requires
        0 <= i <= s.len(),
        forall|j: int| 0 <= j < i ==> is_white_space(s[j]),
    ensures
        trim_start(s) == trim_start(s.subrange(i, s.len() as int)),
    decreases i,
{
    if i > 0 {
        assert(s.drop_first().subrange(i - 1, s.drop_first().len() as int) =~= s.subrange(i, s.len() as int));
        lemma_trim_start(s.drop_first(), i - 1);
    } else {
        assert(s.subrange(0, s.len() as int) =~= s);
    }
}

pub proof fn lemma_trim_end(s: Seq<char>, e: int)
    requires
        0 <= e <= s.len(),
        forall|j: int| e <= j < s.len() ==> is_white_space(s[j]),
    ensures
        trim_end(s) == trim_end(s.subrange(0, e)),
    decreases s.len() - e,
{
    if e < s.len() {
        assert(s.drop_last().subrange(0, e) =~= s.subrange(0, e));
        lemma_trim_end(s.drop_last(), e);
    } else {
        assert(s.subrange(0, e) =~= s);
    }
}

proof fn lemma_trim_start_shape(s: Seq<char>)
    ensures
        trim_start(s).len() == 0 || !is_white_space(trim_start(s)[0]),
        exists|k: int| 0 <= k <= s.len() && trim_start(s) == s.subrange(k, s.len() as int),
    decreases s.len(),
{
    if s.len() > 0 && is_white_space(s[0]) {
        lemma_trim_start_shape(s.drop_first());
        let k = choose|k: int| 0 <= k <= s.drop_first().len() && trim_start(s.drop_first()) == s.drop_first().subrange(k, s.drop_first().len() as int);
        assert(s.drop_first().subrange(k, s.drop_first().len() as int) =~= s.subrange(k + 1, s.len() as int));
    } else {
        assert(s.subrange(0, s.len() as int) =~= s);
    }
}

proof fn lemma_trim_end_shape(s: Seq<char>)
    ensures
        trim_end(s).len() == 0 || !is_white_space(trim_end(s).last()),
        trim_end(s).len() <= s.len(),
        trim_end(s) == s.subrange(0, trim_end(s).len() as int),
    decreases s.len(),
{
    if s.len() > 0 && is_white_space(s.last()) {
        lemma_trim_end_shape(s.drop_last());
        assert(s.drop_last().subrange(0, trim_end(s).len() as int) =~= s.subrange(0, trim_end(s).len() as int));
    } else {
        assert(s.subrange(0, s.len() as int) =~= s);
    }
}

/// A trimmed text neither starts nor ends with white space, is a stretch of
/// the text, and trimming it again changes nothing.
pub proof fn law_trim(s: Seq<char>)
    ensures
        trimmed(s).len() == 0 || (!is_white_space(trimmed(s)[0]) && !is_white_space(trimmed(s).last())),
        exists|a: int, b: int| 0 <= a <= b <= s.len() && trimmed(s) == s.subrange(a, b),
        trimmed(trimmed(s)) == trimmed(s),
{
    let x = trim_start(s);
    lemma_trim_start_shape(s);
    lemma_trim_end_shape(x);
    let r = trim_end(x);
    let k = choose|k: int| 0 <= k <= s.len() && x == s.subrange(k, s.len() as int);
    assert(r =~= s.subrange(k, k + r.len()));
    if r.len() > 0 {
        assert(r[0] == x[0]);
    }
    assert(trim_start(r) == r);
    assert(trim_end(r) == r);
}

/// `s` without the white space at either end.
pub fn trim(s: &str) -> (res: &str)
    ensures
        res@ == trimmed(s@),
{
    let chars = chars_of(s);
    let n = chars.len();
    let mut start: usize = 0;
    while start < n && is_white_space_exec(chars[start])
        invariant
            chars@ == s@,
            n == s@.len(),
            start <= n,
            forall|j: int| 0 <= j < start ==> is_white_space(s@[j]),
        decreases n - start,
    {
        start = start + 1;
    }
    proof { lemma_trim_start(s@, start as int); }
    let ghost rest = s@.subrange(start as int, n as int);
    assert(rest.len() == 0 || !is_white_space(rest[0]));
    let mut end: usize = n;
    while end > start && is_white_space_exec(chars[end - 1])
        invariant
            chars@ == s@,
            n == s@.len(),
            start <= end <= n,
            forall|j: int| end <= j < n ==> is_white_space(s@[j]),
        decreases end - start,
    {
        end = end - 1;
    }
    proof {
        lemma_trim_end(rest, end - start);
        assert(rest.subrange(0, end - start) =~= s@.subrange(start as int, end as int));
    }
    s.substring_char(start, end)
}

/// Whether a cell names a column: it starts with `!`.
pub open spec fn spec_is_head(col: Seq<char>) -> bool {
    col.len() > 0 && col[0] == '!'
}

/// Whether a cell names a column.
pub fn is_head(col: &str) -> (res: bool)
    ensures
        res == spec_is_head(col@),
{
    col.unicode_len() > 0 && col.get_char(0) == '!'
}

/// The head-row cells `cols[ci..]` add their columns to `t` and their names
/// to `head`.
pub open spec fn head_row(cols: Seq<Seq<char>>, ci: int, t: Seq<ColumnView>, head: Seq<Seq<char>>) -> Result<(Seq<ColumnView>, Seq<Seq<char>>), SheetError>
    decreases cols.len() - ci,
{
    if ci < 0 || ci >= cols.len() {
        Ok((t, head))
    } else {
        let c = trimmed(cols[ci]);
        if c.len() == 0 {
            head_row(cols, ci + 1, t, head)
        } else if !spec_is_head(c) {
            Err(SheetError::InvalidHead)
        } else if ci % 256 > 190 {
            Err(SheetError::TooManyColumns)
        } else if name_index(t, c.drop_first()) is Some {
            Err(SheetError::DuplicateColumn)
        } else {
            head_row(cols, ci + 1, t.push(new_column(c.drop_first(), ci as usize)), head.push(c.drop_first()))
        }
    }
}

/// The sheet with the text `value` in column `k` at row `row`.
pub open spec fn with_cell(t: Seq<ColumnView>, k: int, row: u32, value: Seq<char>) -> Seq<ColumnView> {
    t.update(k, ColumnView {
        name: t[k].name,
        letter: t[k].letter,
        cells: t[k].cells.insert(row, value),
        resolved: t[k].resolved,
    })
}

/// The data-row cells `cols[ci..]` of line `ri` go into the columns named by
/// `head` at the same positions.
pub open spec fn data_row(cols: Seq<Seq<char>>, ci: int, t: Seq<ColumnView>, head: Seq<Seq<char>>, ri: int) -> Result<Seq<ColumnView>, SheetError>
    decreases cols.len() - ci,
{
    if ci < 0 || ci >= cols.len() {
        Ok(t)
    } else {
        let c = trimmed(cols[ci]);
        if c.len() == 0 {
            data_row(cols, ci + 1, t, head, ri)
        } else if ci >= head.len() {
            Err(SheetError::CellWithoutHead)
        } else {
            match name_index(t, head[ci]) {
                None => Err(SheetError::CellWithoutHead),
                Some(k) => if ri + 1 > u32::MAX {
                    Err(SheetError::TooManyRows)
                } else {
                    data_row(cols, ci + 1, with_cell(t, k, (ri + 1) as u32, c), head, ri)
                },
            }
        }
    }
}

/// The lines `rows[ri..]` read into `t`, with `head` the names of the last
/// head row.
pub open spec fn sheet_rows(rows: Seq<Seq<char>>, ri: int, t: Seq<ColumnView>, head: Seq<Seq<char>>) -> Result<Seq<ColumnView>, SheetError>
    decreases rows.len() - ri,
{
    if ri < 0 || ri >= rows.len() {
        Ok(t)
    } else {
        let cols = split_on(rows[ri], '|');
        if cols.len() > 0 && spec_is_head(trimmed(cols[0])) {
            match head_row(cols, 0, t, Seq::empty()) {
                Err(e) => Err(e),
                Ok((t2, h2)) => sheet_rows(rows, ri + 1, t2, h2),
            }
        } else {
            match data_row(cols, 0, t, head, ri) {
                Err(e) => Err(e),
                Ok(t2) => sheet_rows(rows, ri + 1, t2, head),
            }
        }
    }
}

/// The columns that a sheet text gives.
pub open spec fn spec_lines_to_table(csv: Seq<char>) -> Result<Seq<ColumnView>, SheetError> {
    sheet_rows(split_on(csv, '\n'), 0, Seq::empty(), Seq::empty())
}

pub proof fn lemma_strings_view_push(s: Seq<String>, x: String)
    ensures
        strings_view(s.push(x)) == strings_view(s).push(x@),
{
    assert(strings_view(s.push(x)) =~= strings_view(s).push(x@));
}

/// Reads a sheet text into columns (see the head of this module). Nothing is
/// evaluated here.
pub fn lines_to_table(csv_str: &str) -> (res: TableData)
    requires
        spec_lines_to_table(csv_str@) is Ok,
    ensures
        spec_lines_to_table(csv_str@) == Ok::<Seq<ColumnView>, SheetError>(res@),
{
    try_lines_to_table(csv_str).unwrap()
}

/// Reads a sheet text into columns, or says why it cannot be read.
pub fn try_lines_to_table(csv_str: &str) -> (res: Result<TableData, SheetError>)
    ensures
        match spec_lines_to_table(csv_str@) {
            Ok(t) => res is Ok && res->Ok_0@ == t,
            Err(e) => res == Err::<TableData, SheetError>(e),
        },
{
    let rows = csv_str.split_to_vect('\n');
    let ghost rows_v = views_of(rows@);
    let ghost goal = spec_lines_to_table(csv_str@);
    let mut table = TableData { columns: Vec::new() };
    let mut current_head: Vec<String> = Vec::new();
    assert(table@ =~= Seq::<ColumnView>::empty());
    assert(strings_view(current_head@) =~= Seq::<Seq<char>>::empty());
    let mut row_index: usize = 0;
    while row_index < rows.len()
        invariant
            rows_v == views_of(rows@),
            row_index <= rows.len(),
            goal == spec_lines_to_table(csv_str@),
            goal == sheet_rows(rows_v, row_index as int, table@, strings_view(current_head@)),
        decreases rows.len() - row_index,
    {
        let line: &str = rows[row_index];
        let columns = line.split_to_vect('|');
        let ghost cols_v = views_of(columns@);
        proof { crate::str_utils::lemma_split_on_nonempty(line@, '|'); }
        assert(cols_v == split_on(rows_v[row_index as int], '|'));
        let first = trim(columns[0]);
        if is_head(first) {
            current_head = Vec::new();
            assert(strings_view(current_head@) =~= Seq::<Seq<char>>::empty());
            let ghost row_goal = head_row(cols_v, 0, table@, Seq::empty());
            let mut column_index: usize = 0;
            while column_index < columns.len()
                invariant
                    cols_v == views_of(columns@),
                    column_index <= columns.len(),
                    goal == spec_lines_to_table(csv_str@),
                    goal == match row_goal {
                        Err(e) => Err(e),
                        Ok((t2, h2)) => sheet_rows(rows_v, row_index + 1, t2, h2),
                    },
                    row_goal == head_row(cols_v, column_index as int, table@, strings_view(current_head@)),
                decreases columns.len() - column_index,
            {
                let column = trim(columns[column_index]);
                if column.unicode_len() == 0 {
                    column_index = column_index + 1;
                    continue;
                }
                if !is_head(column) {
                    return Err(SheetError::InvalidHead);
                }
                if column_index % 256 > 190 {
                    return Err(SheetError::TooManyColumns);
                }
                let name = column.remove_first_symbol();
                if table.position_of(name).is_some() {
                    return Err(SheetError::DuplicateColumn);
                }
                let owned = name.to_owned();
                proof { lemma_strings_view_push(current_head@, owned); }
                current_head.push(owned);
                table.add_column(name, column_index);
                column_index = column_index + 1;
            }
        } else {
            let ghost row_goal = data_row(cols_v, 0, table@, strings_view(current_head@), row_index as int);
            let mut column_index: usize = 0;
            while column_index < columns.len()
                invariant
                    cols_v == views_of(columns@),
                    column_index <= columns.len(),
                    goal == spec_lines_to_table(csv_str@),
                    goal == match row_goal {
                        Err(e) => Err(e),
                        Ok(t2) => sheet_rows(rows_v, row_index + 1, t2, strings_view(current_head@)),
                    },
                    row_goal == data_row(cols_v, column_index as int, table@, strings_view(current_head@), row_index as int),
                decreases columns.len() - column_index,
            {
                let column = trim(columns[column_index]);
                if column.unicode_len() == 0 {
                    column_index = column_index + 1;
                    continue;
                }
                if column_index >= current_head.len() {
                    return Err(SheetError::CellWithoutHead);
                }
                let name: &str = current_head[column_index].as_str();
                assert(name@ == strings_view(current_head@)[column_index as int]);
                match table.position_of(name) {
                    None => {
                        return Err(SheetError::CellWithoutHead);
                    },
                    Some(_) => {},
                }
                if row_index >= 4294967295 {
                    return Err(SheetError::TooManyRows);
                }
                let row_number: u32 = (row_index as u32) + 1;
                let value = column.to_owned();
                let ghost k = name_index(table@, name@)->0;
                proof { lemma_name_index_from(table@, name@, 0); }
                let x = table.get_by_name(name);
                let ghost x0 = x@;
                x.string_values.insert(row_number, value);
                assert(x.string_values@.map_values(|s: String| s@) =~= x0.cells.insert(row_number, value@));
                assert(x@ =~= ColumnView {
                    name: x0.name,
                    letter: x0.letter,
                    cells: x0.cells.insert(row_number, value@),
                    resolved: x0.resolved,
                });
                column_index = column_index + 1;
            }
        }
        row_index = row_index + 1;
    }
    Ok(table)
}

/// What a sheet just read holds: distinct column names, no values yet, and
/// cells that are non-empty, trimmed texts at row numbers from 1 on.
pub open spec fn freshly_read(t: Seq<ColumnView>) -> bool {
    &&& names_distinct(t)
    &&& forall|i: int| 0 <= i < t.len() ==> #[trigger] t[i].resolved == Map::<u32, LiteralView>::empty()
    &&& forall|i: int, r: u32|
        0 <= i < t.len() && #[trigger] t[i].cells.contains_key(r) ==> r >= 1 && t[i].cells[r].len() > 0
            && trimmed(t[i].cells[r]) == t[i].cells[r]
}

proof fn lemma_head_row_fresh(cols: Seq<Seq<char>>, ci: int, t: Seq<ColumnView>, head: Seq<Seq<char>>)
    requires
        freshly_read(t),
    ensures
        head_row(cols, ci, t, head) matches Ok((t2, _)) ==> freshly_read(t2),
    decreases cols.len() - ci,
{
    if 0 <= ci < cols.len() {
        let c = trimmed(cols[ci]);
        if c.len() == 0 {
            lemma_head_row_fresh(cols, ci + 1, t, head);
        } else if spec_is_head(c) && ci % 256 <= 190 && name_index(t, c.drop_first()) is None {
            let u = t.push(new_column(c.drop_first(), ci as usize));
            law_add_column_keeps_names_distinct(t, c.drop_first(), ci as usize);
            assert forall|i: int| 0 <= i < u.len() implies #[trigger] u[i].resolved == Map::<u32, LiteralView>::empty() by {
                if i < t.len() {
                    assert(u[i] == t[i]);
                }
            }
            assert forall|i: int, r: u32| 0 <= i < u.len() && #[trigger] u[i].cells.contains_key(r) implies r >= 1
                && u[i].cells[r].len() > 0 && trimmed(u[i].cells[r]) == u[i].cells[r] by {
                assert(i < t.len());
                assert(u[i] == t[i]);
            }
            lemma_head_row_fresh(cols, ci + 1, u, head.push(c.drop_first()));
        }
    }
}

proof fn lemma_data_row_fresh(cols: Seq<Seq<char>>, ci: int, t: Seq<ColumnView>, head: Seq<Seq<char>>, ri: int)
    requires
        freshly_read(t),
        ri >= 0,
    ensures
        data_row(cols, ci, t, head, ri) matches Ok(t2) ==> freshly_read(t2),
    decreases cols.len() - ci,
{
    if 0 <= ci < cols.len() {
        let c = trimmed(cols[ci]);
        if c.len() == 0 {
            lemma_data_row_fresh(cols, ci + 1, t, head, ri);
        } else if ci < head.len() && name_index(t, head[ci]) is Some && ri + 1 <= u32::MAX {
            let k = name_index(t, head[ci])->0;
            lemma_name_index_from(t, head[ci], 0);
            law_trim(cols[ci]);
            let u = with_cell(t, k, (ri + 1) as u32, c);
            assert forall|i: int, j: int| 0 <= i < j < u.len() implies u[i].name != u[j].name by {
                assert(u[i].name == t[i].name);
                assert(u[j].name == t[j].name);
            }
            assert forall|i: int| 0 <= i < u.len() implies #[trigger] u[i].resolved == Map::<u32, LiteralView>::empty() by {
                assert(u[i].resolved == t[i].resolved);
            }
            assert forall|i: int, r: u32| 0 <= i < u.len() && #[trigger] u[i].cells.contains_key(r) implies r >= 1
                && u[i].cells[r].len() > 0 && trimmed(u[i].cells[r]) == u[i].cells[r] by {
                if i == k && r == (ri + 1) as u32 {
                } else {
                    assert(t[i].cells.contains_key(r));
                }
            }
            lemma_data_row_fresh(cols, ci + 1, u, head, ri);
        }
    }
}

proof fn lemma_sheet_rows_fresh(rows: Seq<Seq<char>>, ri: int, t: Seq<ColumnView>, head: Seq<Seq<char>>)
    requires
        freshly_read(t),
        ri >= 0,
    ensures
        sheet_rows(rows, ri, t, head) matches Ok(t2) ==> freshly_read(t2),
    decreases rows.len() - ri,
{
    if ri < rows.len() {
        let cols = split_on(rows[ri], '|');
        if cols.len() > 0 && spec_is_head(trimmed(cols[0])) {
            lemma_head_row_fresh(cols, 0, t, Seq::empty());
            if let Ok((t2, h2)) = head_row(cols, 0, t, Seq::empty()) {
                lemma_sheet_rows_fresh(rows, ri + 1, t2, h2);
            }
        } else {
            lemma_data_row_fresh(cols, 0, t, head, ri);
            if let Ok(t2) = data_row(cols, 0, t, head, ri) {
                lemma_sheet_rows_fresh(rows, ri + 1, t2, head);
            }
        }
    }
}

/// A sheet that reads without error has distinct column names, no values yet
/// (reading evaluates nothing), and only non-empty, trimmed cell texts, at row
/// numbers from 1 on.
pub proof fn law_read_sheet_is_fresh(csv: Seq<char>)
    ensures
        spec_lines_to_table(csv) matches Ok(t) ==> freshly_read(t),
{
    lemma_sheet_rows_fresh(split_on(csv, '\n'), 0, Seq::empty(), Seq::empty());
}

} // verus!
