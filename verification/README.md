# spreadsheet

Reads a spreadsheet written as text (cells separated by `|`, head rows whose
cells start with `!`) and evaluates its formulas: cell references such as `D2`,
`E^` and `E^v`, column references such as `@adjusted_cost<1>`, arithmetic, and
the functions `incFrom`, `split`, `spread`, `sum`, `text`, `concat` and `bte`.

## Layout

- `src/` is the library, verified with Verus.
  - `table_factory`: reading the text into a table of named, lettered columns.
  - `table`: the table, its columns and values, and the lookups by name, by
    coordinate and by letter.
  - `semantics`: what evaluating a formula and filling the table give, as
    spec functions; `logic_utils` computes them.
  - `numbers`: the questions on single-precision numbers that the library hands
    to its caller, and the replies it takes back.
  - `eval_laws`, `reply_laws`: laws of evaluation and filling (the `incFrom`
    counter, filling twice, supplying more replies).
  - `regex_helpers`: moving row references in a repeated formula (`=^^`), with
    the `regex` crate.
  - `str_utils`, `io_utils`, `text`, `keys`: texts, numerals and row numbers.
- `tests/` runs the library on concrete sheets.
- `app/` is the command-line program: it reads the file, answers the library's
  questions with `f32` arithmetic and prints the values.

The library never computes with floating point: where filling needs a number
read, added, multiplied or compared, `fill_data` stops with the question, and
the caller runs it again with one more reply. Everything else, from the reading
of the sheet to the order in which cells are filled, is verified.
