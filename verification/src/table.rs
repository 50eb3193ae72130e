//! The sheet: named, lettered columns of raw cell texts and of evaluated values,
//! and the items that the formula evaluator keeps on its stack.
//!
//! A number is carried as the bit pattern of an IEEE-754 single: the library moves
//! such numbers around but never computes with them (see `numbers`).

use vstd::prelude::*;
use std::collections::HashMap;

verus! {

broadcast use vstd::std_specs::hash::group_hash_axioms;

/// A value of a cell or of an expression. The constructors of the library set
/// exactly one field.
pub struct LiteralValue {
    pub value_as_string: Option<String>,
    pub value_as_float: Option<u32>,
    pub value_as_int: Option<usize>,
    pub value_as_str_array: Option<Vec<String>>,
    pub value_as_float_array: Option<Vec<u32>>,
}

/// The mathematical content of a `LiteralValue`.
#[verifier::ext_equal]
pub struct LiteralView {
    pub text: Option<Seq<char>>,
    pub number: Option<u32>,
    pub count: Option<usize>,
    pub texts: Option<Seq<Seq<char>>>,
    pub numbers: Option<Seq<u32>>,
}

pub open spec fn text_view(o: Option<String>) -> Option<Seq<char>> {
    match o {
        Some(s) => Some(s@),
        None => None,
    }
}

pub open spec fn strings_view(v: Seq<String>) -> Seq<Seq<char>> {
    v.map_values(|s: String| s@)
}

impl View for LiteralValue {
    type V = LiteralView;

    open spec fn view(&self) -> LiteralView {
        LiteralView {
            text: text_view(self.value_as_string),
            number: self.value_as_float,
            count: self.value_as_int,
            texts: match self.value_as_str_array {
                Some(v) => Some(strings_view(v@)),
                None => None,
            },
            numbers: match self.value_as_float_array {
                Some(v) => Some(v@),
                None => None,
            },
        }
    }
}

/// A value that holds only a text.
pub open spec fn text_value(s: Seq<char>) -> LiteralView {
    LiteralView { text: Some(s), number: None, count: None, texts: None, numbers: None }
}

/// A value that holds only a number.
pub open spec fn number_value(x: u32) -> LiteralView {
    LiteralView { text: None, number: Some(x), count: None, texts: None, numbers: None }
}

/// A value that holds only a count.
pub open spec fn count_value(n: usize) -> LiteralView {
    LiteralView { text: None, number: None, count: Some(n), texts: None, numbers: None }
}

/// A value that holds only a list of texts.
pub open spec fn texts_value(v: Seq<Seq<char>>) -> LiteralView {
    LiteralView { text: None, number: None, count: None, texts: Some(v), numbers: None }
}

/// A value that holds only a list of numbers.
pub open spec fn numbers_value(v: Seq<u32>) -> LiteralView {
    LiteralView { text: None, number: None, count: None, texts: None, numbers: Some(v) }
}

pub fn clone_strings(v: &Vec<String>) -> (res: Vec<String>)
    ensures
        strings_view(res@) == strings_view(v@),
{
    let mut res: Vec<String> = Vec::new();
    let mut i: usize = 0;
    while i < v.len()
        invariant
            i <= v.len(),
            strings_view(res@) =~= strings_view(v@.take(i as int)),
        decreases v.len() - i,
    {
        let ghost before = res@;
        let s = v[i].clone();
        res.push(s);
        assert(res@ =~= before.push(s));
        assert(v@.take(i + 1) =~= v@.take(i as int).push(v@[i as int]));
        assert(strings_view(res@) =~= strings_view(before).push(s@));
        i = i + 1;
    }
    assert(v@.take(v.len() as int) =~= v@);
    res
}

pub fn clone_numbers(v: &Vec<u32>) -> (res: Vec<u32>)
    ensures
        res@ == v@,
{
    let mut res: Vec<u32> = Vec::new();
    let mut i: usize = 0;
    while i < v.len()
        invariant
            i <= v.len(),
            res@ =~= v@.take(i as int),
        decreases v.len() - i,
    {
        res.push(v[i]);
        assert(v@.take(i + 1) =~= v@.take(i as int).push(v@[i as int]));
        i = i + 1;
    }
    assert(v@.take(v.len() as int) =~= v@);
    res
}

impl Clone for LiteralValue {
    fn clone(&self) -> (res: Self)
        ensures
            res@ == self@,
    {
        let value_as_string = match &self.value_as_string {
            Some(s) => Some(s.clone()),
            None => None,
        };
        let value_as_str_array = match &self.value_as_str_array {
            Some(v) => Some(clone_strings(v)),
            None => None,
        };
        let value_as_float_array = match &self.value_as_float_array {
            Some(v) => Some(clone_numbers(v)),
            None => None,
        };
        LiteralValue {
            value_as_string,
            value_as_float: self.value_as_float,
            value_as_int: self.value_as_int,
            value_as_str_array,
            value_as_float_array,
        }
    }
}

} // verus!

verus! {

use crate::error::EvalError;

/// What the formula evaluator keeps on its stack.
pub enum Item {
    Literal(LiteralValue),
    Token(String),
    Operator(char),
    ZoneStart(char),
    ZoneEnd(char),
}

/// The mathematical content of an `Item`.
pub enum ItemView {
    Literal(LiteralView),
    Token(Seq<char>),
    Operator(char),
    ZoneStart(char),
    ZoneEnd(char),
}

impl View for Item {
    type V = ItemView;

    open spec fn view(&self) -> ItemView {
        match self {
            Item::Literal(v) => ItemView::Literal(v@),
            Item::Token(s) => ItemView::Token(s@),
            Item::Operator(c) => ItemView::Operator(*c),
            Item::ZoneStart(c) => ItemView::ZoneStart(*c),
            Item::ZoneEnd(c) => ItemView::ZoneEnd(*c),
        }
    }
}

pub open spec fn items_view(s: Seq<Item>) -> Seq<ItemView> {
    s.map_values(|i: Item| i@)
}

/// The count that a literal item holds.
pub open spec fn spec_literal_as_number(item: ItemView) -> Result<usize, EvalError> {
    match item {
        ItemView::Literal(v) => match v.count {
            Some(n) => Ok(n),
            None => Err(EvalError::MissingValue),
        },
        _ => Err(EvalError::UnexpectedItem),
    }
}

/// The character of a closing item.
pub open spec fn spec_end_zone_character(item: ItemView) -> Result<char, EvalError> {
    match item {
        ItemView::ZoneEnd(c) => Ok(c),
        _ => Err(EvalError::UnexpectedItem),
    }
}

/// The value of a literal item.
pub open spec fn spec_literal(item: ItemView) -> Result<LiteralView, EvalError> {
    match item {
        ItemView::Literal(v) => Ok(v),
        _ => Err(EvalError::UnexpectedItem),
    }
}

/// The text of a token item.
pub open spec fn spec_token(item: ItemView) -> Result<Seq<char>, EvalError> {
    match item {
        ItemView::Token(s) => Ok(s),
        _ => Err(EvalError::UnexpectedItem),
    }
}

/// Whether the item opens a zone with the character `c`.
pub open spec fn spec_start_of(item: ItemView, c: char) -> Result<(), EvalError> {
    match item {
        ItemView::ZoneStart(d) => if d == c {
            Ok(())
        } else {
            Err(EvalError::UnmatchedZone)
        },
        _ => Err(EvalError::UnexpectedItem),
    }
}

impl Item {
    /// The count that a literal item holds; an error for another item or value.
    pub fn try_literal_as_number(&self) -> (res: Result<usize, EvalError>)
        ensures
            res == spec_literal_as_number(self@),
    {
        match self {
            Item::Literal(value) => match value.value_as_int {
                Some(n) => Ok(n),
                None => Err(EvalError::MissingValue),
            },
            _ => Err(EvalError::UnexpectedItem),
        }
    }

    pub fn conduct_string_literal(val: String) -> (res: Item)
        ensures
            res@ == ItemView::Literal(text_value(val@)),
    {
        Item::Literal(Item::conduct_str_literal_value(val))
    }

    pub fn conduct_float_literal(val: u32) -> (res: Item)
        ensures
            res@ == ItemView::Literal(number_value(val)),
    {
        Item::Literal(Item::conduct_float_literal_value(val))
    }

    pub fn conduct_int_literal_value(val: usize) -> (res: LiteralValue)
        ensures
            res@ == count_value(val),
    {
        LiteralValue {
            value_as_string: None,
            value_as_str_array: None,
            value_as_float: None,
            value_as_int: Some(val),
            value_as_float_array: None,
        }
    }

    pub fn conduct_float_literal_value(val: u32) -> (res: LiteralValue)
        ensures
            res@ == number_value(val),
    {
        LiteralValue {
            value_as_string: None,
            value_as_str_array: None,
            value_as_float: Some(val),
            value_as_int: None,
            value_as_float_array: None,
        }
    }

    pub fn conduct_str_literal_value(val: String) -> (res: LiteralValue)
        ensures
            res@ == text_value(val@),
    {
        LiteralValue {
            value_as_string: Some(val),
            value_as_str_array: None,
            value_as_float: None,
            value_as_int: None,
            value_as_float_array: None,
        }
    }

    pub fn conduct_int_literal(val: usize) -> (res: Item)
        ensures
            res@ == ItemView::Literal(count_value(val)),
    {
        Item::Literal(Item::conduct_int_literal_value(val))
    }

    /// The character of a closing item; an error for another item.
    pub fn try_end_zone_character(&self) -> (res: Result<char, EvalError>)
        ensures
            res == spec_end_zone_character(self@),
    {
        match self {
            Item::ZoneEnd(c) => Ok(*c),
            _ => Err(EvalError::UnexpectedItem),
        }
    }

    /// The value of a literal item; an error for another item.
    pub fn try_literal(&self) -> (res: Result<&LiteralValue, EvalError>)
        ensures
            match res {
                Ok(v) => spec_literal(self@) == Ok::<LiteralView, EvalError>(v@),
                Err(e) => spec_literal(self@) == Err::<LiteralView, EvalError>(e),
            },
    {
        match self {
            Item::Literal(value) => Ok(value),
            _ => Err(EvalError::UnexpectedItem),
        }
    }

    /// The text of a token item; an error for another item.
    pub fn try_token(&self) -> (res: Result<String, EvalError>)
        ensures
            match res {
                Ok(s) => spec_token(self@) == Ok::<Seq<char>, EvalError>(s@),
                Err(e) => spec_token(self@) == Err::<Seq<char>, EvalError>(e),
            },
    {
        match self {
            Item::Token(s) => Ok(s.clone()),
            _ => Err(EvalError::UnexpectedItem),
        }
    }

    /// Whether the item opens a zone with `char_value`: an error where it does not.
    pub fn check_start_of(&self, char_value: char) -> (res: Result<(), EvalError>)
        ensures
            res == spec_start_of(self@, char_value),
    {
        match self {
            Item::ZoneStart(c) => if *c == char_value {
                Ok(())
            } else {
                Err(EvalError::UnmatchedZone)
            },
            _ => Err(EvalError::UnexpectedItem),
        }
    }

    /// The count that a literal item holds.
    pub fn get_literal_as_number(&self) -> (res: usize)
        requires
            spec_literal_as_number(self@) is Ok,
        ensures
            spec_literal_as_number(self@) == Ok::<usize, EvalError>(res),
    {
        self.try_literal_as_number().unwrap()
    }

    /// The character of a closing item.
    pub fn get_end_zone_character(&self) -> (res: char)
        requires
            self@ is ZoneEnd,
        ensures
            self@ == ItemView::ZoneEnd(res),
    {
        self.try_end_zone_character().unwrap()
    }

    /// The character of an operator item.
    pub fn get_as_operator(&self) -> (res: char)
        requires
            self@ is Operator,
        ensures
            self@ == ItemView::Operator(res),
    {
        match self {
            Item::Operator(c) => *c,
            _ => unreached(),
        }
    }

    /// The value of a literal item.
    pub fn get_literal(&self) -> (res: &LiteralValue)
        requires
            self@ is Literal,
        ensures
            self@ == ItemView::Literal(res@),
    {
        self.try_literal().unwrap()
    }

    /// The text of a token item.
    pub fn get_token(&self) -> (res: String)
        requires
            self@ is Token,
        ensures
            self@ == ItemView::Token(res@),
    {
        self.try_token().unwrap()
    }

    /// Checks that the item opens a zone with `char_value`.
    pub fn expect_start_of(&self, char_value: char)
        requires
            self@ == ItemView::ZoneStart(char_value),
    {
    }
}

} // verus!

verus! {

use crate::keys::{sorted_keys, max_key, sorted_keys_of, max_key_of, strictly_increasing};

/// A column of the sheet: its name, its letter, the raw text of each of its
/// cells by row number, and the value of each evaluated cell by row number.
pub struct Column {
    pub name: String,
    pub letter: char,
    pub string_values: HashMap<u32, String>,
    pub resolved_value: HashMap<u32, LiteralValue>,
}

/// The mathematical content of a `Column`.
#[verifier::ext_equal]
pub struct ColumnView {
    pub name: Seq<char>,
    pub letter: char,
    pub cells: Map<u32, Seq<char>>,
    pub resolved: Map<u32, LiteralView>,
}

impl View for Column {
    type V = ColumnView;

    open spec fn view(&self) -> ColumnView {
        ColumnView {
            name: self.name@,
            letter: self.letter,
            cells: self.string_values@.map_values(|s: String| s@),
            resolved: self.resolved_value@.map_values(|v: LiteralValue| v@),
        }
    }
}

/// The sheet: its columns, left to right in the order they were added.
pub struct TableData {
    pub columns: Vec<Column>,
}

impl View for TableData {
    type V = Seq<ColumnView>;

    open spec fn view(&self) -> Seq<ColumnView> {
        self.columns@.map_values(|c: Column| c@)
    }
}

pub open spec fn literal_view(o: Option<LiteralValue>) -> Option<LiteralView> {
    match o {
        Some(v) => Some(v@),
        None => None,
    }
}

/// The value that the `index`-th cell of a column (counted from 1, rows in
/// increasing order) holds.
pub open spec fn spec_cell_by_index(c: ColumnView, index: usize) -> Option<LiteralView> {
    let keys = sorted_keys(c.cells.dom());
    if index == 0 || index - 1 >= keys.len() {
        None
    } else if c.resolved.contains_key(keys[index - 1]) {
        Some(c.resolved[keys[index - 1]])
    } else {
        None
    }
}

/// The largest row number of a column that holds a cell.
pub open spec fn spec_last_cell_index(c: ColumnView) -> Option<u32> {
    if c.cells.dom().len() == 0 {
        None
    } else {
        Some(max_key(c.cells.dom()))
    }
}

/// Reading of the cells of a column.
pub trait ColumnGetter: View<V = ColumnView> + Sized {
    /// The row numbers that hold a cell, smallest first.
    fn get_sorted_keys(&self) -> (res: Vec<u32>)
        ensures
            res@ == sorted_keys(self@.cells.dom()),
            strictly_increasing(res@),
            res@.to_set() == self@.cells.dom(),
    ;

    /// The value of the `index`-th cell, counted from 1.
    fn get_cell_by_index(&self, index: usize) -> (res: LiteralValue)
        requires
            spec_cell_by_index(self@, index) is Some,
        ensures
            spec_cell_by_index(self@, index) == Some(res@),
    ;

    /// The largest row number that holds a cell.
    fn get_last_cell_index(&self) -> (res: u32)
        requires
            spec_last_cell_index(self@) is Some,
        ensures
            spec_last_cell_index(self@) == Some(res),
    ;
}

impl Column {
    /// The value of the `index`-th cell, counted from 1; `None` when there is
    /// no such cell or it has no value.
    pub fn find_cell_by_index(&self, index: usize) -> (res: Option<LiteralValue>)
        ensures
            literal_view(res) == spec_cell_by_index(self@, index),
    {
        let keys = self.get_sorted_keys();
        if index == 0 || index - 1 >= keys.len() {
            return None;
        }
        let key = keys[index - 1];
        match self.resolved_value.get(&key) {
            Some(v) => Some(v.clone()),
            None => None,
        }
    }

    /// The largest row number that holds a cell; `None` for an empty column.
    pub fn find_last_cell_index(&self) -> (res: Option<u32>)
        ensures
            res == spec_last_cell_index(self@),
    {
        assert(self@.cells.dom() =~= self.string_values@.dom());
        max_key_of(&self.string_values)
    }
}

impl ColumnGetter for Column {
    fn get_sorted_keys(&self) -> (res: Vec<u32>) {
        assert(self@.cells.dom() =~= self.string_values@.dom());
        sorted_keys_of(&self.string_values)
    }

    fn get_cell_by_index(&self, index: usize) -> (res: LiteralValue) {
        self.find_cell_by_index(index).unwrap()
    }

    fn get_last_cell_index(&self) -> (res: u32) {
        self.find_last_cell_index().unwrap()
    }
}

/// The letter of the column added at position `index`.
pub open spec fn column_letter(index: usize) -> char {
    (65 + index % 256) as char
}

/// A column with no cells yet.
pub open spec fn new_column(name: Seq<char>, index: usize) -> ColumnView {
    ColumnView {
        name: name,
        letter: column_letter(index),
        cells: Map::empty(),
        resolved: Map::empty(),
    }
}

/// The position of the first column named `name`, looking from `from` on.
pub open spec fn name_index_from(t: Seq<ColumnView>, name: Seq<char>, from: int) -> Option<int>
    decreases t.len() - from,
{
    if from < 0 || from >= t.len() {
        None
    } else if t[from].name == name {
        Some(from)
    } else {
        name_index_from(t, name, from + 1)
    }
}

pub proof fn lemma_name_index_from(t: Seq<ColumnView>, name: Seq<char>, from: int)
    requires
        0 <= from,
    ensures
        name_index_from(t, name, from) matches Some(i) ==> from <= i < t.len() && t[i].name == name,
        name_index_from(t, name, from) is None ==> forall|j: int| from <= j < t.len() ==> t[j].name != name,
    decreases t.len() - from,
{
    if 0 <= from < t.len() && t[from].name != name {
        lemma_name_index_from(t, name, from + 1);
    }
}

/// The position of the first column named `name`.
pub open spec fn name_index(t: Seq<ColumnView>, name: Seq<char>) -> Option<int> {
    name_index_from(t, name, 0)
}

/// The value at row `row` of the first column, looking from `from` on, that
/// has the letter `letter` and a value at that row.
pub open spec fn spec_coordinate(t: Seq<ColumnView>, letter: char, row: u32, from: int) -> Option<LiteralView>
    decreases t.len() - from,
{
    if from < 0 || from >= t.len() {
        None
    } else if t[from].letter == letter && t[from].resolved.contains_key(row) {
        Some(t[from].resolved[row])
    } else {
        spec_coordinate(t, letter, row, from + 1)
    }
}

/// Among the columns with letter `letter`, from `from` on, the value at the
/// largest row number of a column whose largest row number exceeds all those
/// before it; `best` and `found` are what the columns before `from` gave.
/// `None` when a column with that letter has no cells, when the value that
/// would be taken is not there, or when no column has the letter.
pub open spec fn last_value_from(
    t: Seq<ColumnView>,
    letter: char,
    from: int,
    best: u32,
    found: Option<LiteralView>,
) -> Option<LiteralView>
    decreases t.len() - from,
{
    if from < 0 || from >= t.len() {
        found
    } else if t[from].letter != letter {
        last_value_from(t, letter, from + 1, best, found)
    } else if t[from].cells.dom().len() == 0 {
        None
    } else {
        let k = max_key(t[from].cells.dom());
        if k > best {
            if t[from].resolved.contains_key(k) {
                last_value_from(t, letter, from + 1, k, Some(t[from].resolved[k]))
            } else {
                None
            }
        } else {
            last_value_from(t, letter, from + 1, best, found)
        }
    }
}

/// The value at the bottom of the columns with letter `letter`.
pub open spec fn spec_last_value(t: Seq<ColumnView>, letter: char) -> Option<LiteralView> {
    last_value_from(t, letter, 0, 0, None)
}

/// Column `c` has the letter `letter`, holds cells, and no column with that
/// letter has its last row below the last row of `c`.
pub open spec fn lowest_with_letter(t: Seq<ColumnView>, letter: char, c: int) -> bool {
    &&& 0 <= c < t.len()
    &&& t[c].letter == letter
    &&& t[c].cells.dom().len() > 0
    &&& forall|j: int|
        0 <= j < t.len() && #[trigger] t[j].letter == letter ==> max_key(t[j].cells.dom()) <= max_key(
            t[c].cells.dom(),
        )
}

/// The value of column `c` at its last row is `v`.
pub open spec fn last_row_value(t: Seq<ColumnView>, c: int, v: LiteralView) -> bool {
    &&& t[c].resolved.contains_key(max_key(t[c].cells.dom()))
    &&& t[c].resolved[max_key(t[c].cells.dom())] == v
}

proof fn lemma_last_value_from(
    t: Seq<ColumnView>,
    letter: char,
    from: int,
    best: u32,
    found: Option<LiteralView>,
)
    requires
        0 <= from <= t.len(),
        forall|j: int|
            0 <= j < from && #[trigger] t[j].letter == letter ==> t[j].cells.dom().len() > 0
                && max_key(t[j].cells.dom()) <= best,
        found is Some ==> exists|c: int|
            0 <= c < from && t[c].letter == letter && t[c].cells.dom().len() > 0 && max_key(
                t[c].cells.dom(),
            ) == best && #[trigger] last_row_value(t, c, found->0),
    ensures
        last_value_from(t, letter, from, best, found) matches Some(v) ==> exists|c: int|
            lowest_with_letter(t, letter, c) && #[trigger] last_row_value(t, c, v),
    decreases t.len() - from,
{
    if from >= t.len() {
        if found is Some {
            let c = choose|c: int|
                0 <= c < from && t[c].letter == letter && t[c].cells.dom().len() > 0 && max_key(
                    t[c].cells.dom(),
                ) == best && #[trigger] last_row_value(t, c, found->0);
            assert(lowest_with_letter(t, letter, c));
        }
    } else if t[from].letter != letter {
        lemma_last_value_from(t, letter, from + 1, best, found);
    } else if t[from].cells.dom().len() == 0 {
    } else {
        let k = max_key(t[from].cells.dom());
        if k > best {
            if t[from].resolved.contains_key(k) {
                let f = Some(t[from].resolved[k]);
                assert(last_row_value(t, from, f->0));
                lemma_last_value_from(t, letter, from + 1, k, f);
            }
        } else {
            lemma_last_value_from(t, letter, from + 1, best, found);
        }
    }
}

/// Where several columns share a letter, the value at the bottom of that
/// letter is the value at the last row of the column that reaches lowest.
pub proof fn law_last_value_is_lowest(t: Seq<ColumnView>, letter: char)
    ensures
        spec_last_value(t, letter) matches Some(v) ==> exists|c: int|
            lowest_with_letter(t, letter, c) && #[trigger] last_row_value(t, c, v),
{
    lemma_last_value_from(t, letter, 0, 0, None);
}

/// No two columns share a name.
pub open spec fn names_distinct(t: Seq<ColumnView>) -> bool {
    forall|i: int, j: int| 0 <= i < j < t.len() ==> t[i].name != t[j].name
}

/// Adding a column under a name that no column has keeps the names distinct,
/// and the name then finds the new column.
pub proof fn law_add_column_keeps_names_distinct(t: Seq<ColumnView>, name: Seq<char>, index: usize)
    requires
        names_distinct(t),
        name_index(t, name) is None,
    ensures
        names_distinct(t.push(new_column(name, index))),
        name_index(t.push(new_column(name, index)), name) == Some(t.len() as int),
{
    let u = t.push(new_column(name, index));
    lemma_name_index_from(t, name, 0);
    lemma_name_index_from(u, name, 0);
    assert forall|j: int| 0 <= j < t.len() implies u[j].name != name by {
        assert(u[j] == t[j]);
    }
    assert(u[t.len() as int].name == name);
}

/// Whether two texts are equal.
pub fn str_eq(a: &str, b: &str) -> (res: bool)
    ensures
        res == (a@ == b@),
{
    let x = a.to_owned();
    let y = b.to_owned();
    x == y
}

/// Adding columns and finding cells by column name and by letter.
pub trait TableDataGetter: View<V = Seq<ColumnView>> + Sized {
    /// Adds an empty column named `name` whose letter follows from `index`
    /// (0 gives `A`, 1 gives `B`, ...).
    fn add_column(&mut self, name: &str, index: usize)
        requires
            name_index(old(self)@, name@) is None,
            index % 256 <= 190,
        ensures
            final(self)@ == old(self)@.push(new_column(name@, index)),
    ;

    /// The column named `name`, to be changed.
    fn get_by_name<'a>(&'a mut self, name: &str) -> (res: &'a mut Column)
        requires
            name_index(old(self)@, name@) is Some,
        ensures
            res@ == old(self)@[name_index(old(self)@, name@)->0],
            final(self)@ == old(self)@.update(name_index(old(self)@, name@)->0, final(res)@),
    ;

    /// The column named `name`.
    fn get_by_name_unmut<'a>(&'a self, name: &str) -> (res: &'a Column)
        requires
            name_index(self@, name@) is Some,
        ensures
            res@ == self@[name_index(self@, name@)->0],
    ;

    /// The value at row `row_number` of the first column with letter `letter`
    /// that has one there.
    fn get_by_coordinate(&self, letter: char, row_number: &u32) -> (res: LiteralValue)
        requires
            spec_coordinate(self@, letter, *row_number, 0) is Some,
        ensures
            spec_coordinate(self@, letter, *row_number, 0) == Some(res@),
    ;

    /// The value at the bottom of the columns with letter `letter`: that of
    /// the column whose last row lies lowest, at that row.
    fn get_last_value_of_the_column(&self, letter: char) -> (res: LiteralValue)
        requires
            spec_last_value(self@, letter) is Some,
        ensures
            spec_last_value(self@, letter) == Some(res@),
    ;
}

impl TableData {
    /// The position of the first column named `name`.
    pub fn position_of(&self, name: &str) -> (res: Option<usize>)
        ensures
            match res {
                Some(i) => name_index(self@, name@) == Some(i as int),
                None => name_index(self@, name@) is None,
            },
    {
        let mut i: usize = 0;
        while i < self.columns.len()
            invariant
                i <= self.columns.len(),
                name_index(self@, name@) == name_index_from(self@, name@, i as int),
            decreases self.columns.len() - i,
        {
            if str_eq(self.columns[i].name.as_str(), name) {
                return Some(i);
            }
            i = i + 1;
        }
        None
    }
}

impl TableDataGetter for TableData {
    fn add_column(&mut self, name: &str, index: usize) {
        let low = index as u8;
        assert(low == index % 256) by (bit_vector)
            requires low == index as u8;
        let code: u8 = 65u8 + low;
        let letter = code as char;
        assert(letter == column_letter(index));
        let column = Column {
            letter,
            name: name.to_owned(),
            string_values: HashMap::new(),
            resolved_value: HashMap::new(),
        };
        assert(column@ =~= new_column(name@, index));
        self.columns.push(column);
        assert(self@ =~= old(self)@.push(new_column(name@, index)));
    }

    fn get_by_name<'a>(&'a mut self, name: &str) -> (res: &'a mut Column) {
        let i = self.position_of(name).unwrap();
        proof { lemma_name_index_from(old(self)@, name@, 0); }
        &mut self.columns[i]
    }

    fn get_by_name_unmut<'a>(&'a self, name: &str) -> (res: &'a Column) {
        let i = self.position_of(name).unwrap();
        proof { lemma_name_index_from(self@, name@, 0); }
        &self.columns[i]
    }

    fn get_by_coordinate(&self, letter: char, row_number: &u32) -> (res: LiteralValue) {
        self.find_by_coordinate(letter, row_number).unwrap()
    }

    fn get_last_value_of_the_column(&self, letter: char) -> (res: LiteralValue) {
        self.find_last_value_of_the_column(letter).unwrap()
    }
}

impl TableData {
    /// The value at row `row_number` of the first column with letter `letter`
    /// that has one there; `None` where no such column has one.
    pub fn find_by_coordinate(&self, letter: char, row_number: &u32) -> (res: Option<LiteralValue>)
        ensures
            literal_view(res) == spec_coordinate(self@, letter, *row_number, 0),
    {
        let mut i: usize = 0;
        while i < self.columns.len()
            invariant
                i <= self.columns.len(),
                spec_coordinate(self@, letter, *row_number, 0) == spec_coordinate(self@, letter, *row_number, i as int),
            decreases self.columns.len() - i,
        {
            let column = &self.columns[i];
            if column.letter == letter {
                match column.resolved_value.get(row_number) {
                    Some(v) => {
                        return Some(v.clone());
                    },
                    None => {},
                }
            }
            i = i + 1;
        }
        None
    }

    /// The value at the bottom of the columns with letter `letter`; `None`
    /// where no column has the letter, one of them has no cells, or the value
    /// to be taken is not there.
    pub fn find_last_value_of_the_column(&self, letter: char) -> (res: Option<LiteralValue>)
        ensures
            literal_view(res) == spec_last_value(self@, letter),
    {
        let mut best: u32 = 0;
        let mut found: Option<LiteralValue> = None;
        let mut i: usize = 0;
        while i < self.columns.len()
            invariant
                i <= self.columns.len(),
                spec_last_value(self@, letter) == last_value_from(self@, letter, i as int, best, literal_view(found)),
            decreases self.columns.len() - i,
        {
            let column = &self.columns[i];
            if column.letter == letter {
                let last = column.find_last_cell_index();
                match last {
                    None => {
                        return None;
                    },
                    Some(new_index) => {
                        if new_index > best {
                            match column.resolved_value.get(&new_index) {
                                Some(v) => {
                                    best = new_index;
                                    found = Some(v.clone());
                                },
                                None => {
                                    return None;
                                },
                            }
                        }
                    },
                }
            }
            i = i + 1;
        }
        found
    }
}

} // verus!
