use std::collections::VecDeque;

use spreadsheet::error::{EvalError, SheetError};
use spreadsheet::io_utils::str_to_vector;
use spreadsheet::logic_utils::LogicExecutor;
use spreadsheet::numbers::{Answers, Halt, Query, Reply};
use spreadsheet::regex_helpers::try_increase_column_digits;
use spreadsheet::str_utils::StrUtils;
use spreadsheet::table::{ColumnGetter, Item, LiteralValue, TableData, TableDataGetter};
use spreadsheet::str_utils::chars_of;
use spreadsheet::table_factory::{lines_to_table, trim, try_lines_to_table};
use spreadsheet::text::{decimal_string, parse_digits};

const EXAMPLE: &str = "!date|!transaction_id|!tokens|!token_prices|!total_cost
2022-02-20|=concat(\"t_\", text(incFrom(1)))|btc,eth,dai|38341.88,2643.77,1.0003|=sum(spread(split(D2, \",\")))
2022-02-21|=^^|bch,eth,dai|304.38,2621.15,1.0001|=E^+sum(spread(split(D3, \",\")))
2022-02-22|=^^|sol,eth,dai|85,2604.17,0.9997|=^^
!fee|!cost_threshold|||
0.09|10000|||
!adjusted_cost||||
=E^v+(E^v*A6)||||
!cost_too_high||||
=text(bte(@adjusted_cost<1>, @cost_threshold<1>)||||";

/// Answers a question with IEEE-754 single-precision arithmetic.
fn answer(q: &Query) -> Reply {
    match q {
        Query::ParseNumber(s) => Reply::Parsed(s.parse::<f32>().ok().map(|x| x.to_bits())),
        Query::Arithmetic(op, a, b) => {
            let a = f32::from_bits(*a);
            let b = f32::from_bits(*b);
            let c = match op {
                '+' => a + b,
                '-' => a - b,
                '*' => a * b,
                _ => a / b,
            };
            Reply::Number(c.to_bits())
        }
        Query::Sum(v) => Reply::Number(v.iter().map(|x| f32::from_bits(*x)).sum::<f32>().to_bits()),
        Query::AtLeast(a, b) => Reply::Truth(f32::from_bits(*a) >= f32::from_bits(*b)),
    }
}

/// Reads and fills a sheet, answering every question; gives the table as it
/// stands at the end and the failure, if any.
fn fill(csv: &str) -> (TableData, Option<EvalError>) {
    let mut replies: Vec<Reply> = Vec::new();
    loop {
        let mut table = try_lines_to_table(csv).unwrap();
        match table.try_fill_data(replies.clone()) {
            Ok(()) => return (table, None),
            Err(Halt::Ask(q)) => replies.push(answer(&q)),
            Err(Halt::Failed(e)) => return (table, Some(e)),
        }
    }
}

fn value<'a>(table: &'a TableData, name: &str, row: u32) -> &'a LiteralValue {
    table.get_by_name_unmut(name).resolved_value.get(&row).unwrap()
}

fn text(table: &TableData, name: &str, row: u32) -> String {
    value(table, name, row).value_as_string.clone().unwrap()
}

fn number(table: &TableData, name: &str, row: u32) -> f32 {
    f32::from_bits(value(table, name, row).value_as_float.unwrap())
}

#[test]
fn splits_entries() {
    assert_eq!(str_to_vector("a|b||c", '|'), vec!["a", "b", "", "c"]);
    assert_eq!(str_to_vector("", '|'), vec![""]);
    assert_eq!("x,y,".split_to_vect(','), vec!["x", "y", ""]);
}

#[test]
fn string_helpers() {
    assert_eq!("abc".at(1), 'b');
    assert_eq!("!name".remove_first_symbol(), "name");
    assert_eq!("@adjusted_cost<1>".next_word_length_underscore(1), Some(13));
    assert_eq!("@cost".next_word_length_underscore(1), None);
}

#[test]
fn reads_heads_and_cells() {
    let table = lines_to_table(EXAMPLE);
    let names: Vec<String> = table.columns.iter().map(|c| c.name.clone()).collect();
    assert_eq!(names, vec!["date", "transaction_id", "tokens", "token_prices", "total_cost", "fee", "cost_threshold", "adjusted_cost", "cost_too_high"]);
    let letters: Vec<char> = table.columns.iter().map(|c| c.letter).collect();
    assert_eq!(letters, vec!['A', 'B', 'C', 'D', 'E', 'A', 'B', 'A', 'A']);
    let prices = table.get_by_name_unmut("token_prices");
    assert_eq!(prices.get_sorted_keys(), vec![2, 3, 4]);
    assert_eq!(prices.string_values.get(&3).unwrap(), "304.38,2621.15,1.0001");
    assert_eq!(table.get_by_name_unmut("fee").string_values.get(&6).unwrap(), "0.09");
    assert_eq!(table.get_by_name_unmut("cost_too_high").get_last_cell_index(), 10);
    assert_eq!(table.get_by_name_unmut("cost_too_high").find_last_cell_index(), Some(10));
}

#[test]
fn trims_cells() {
    let table = lines_to_table(" !a | !b \n 1 |  x  ");
    assert_eq!(table.get_by_name_unmut("a").string_values.get(&2).unwrap(), "1");
    assert_eq!(table.get_by_name_unmut("b").string_values.get(&2).unwrap(), "x");
}

#[test]
fn rejects_bad_sheets() {
    assert_eq!(try_lines_to_table("!a|b").err(), Some(SheetError::InvalidHead));
    assert_eq!(try_lines_to_table("!a|!a").err(), Some(SheetError::DuplicateColumn));
    assert_eq!(try_lines_to_table("!a\n1|2").err(), Some(SheetError::CellWithoutHead));
    assert_eq!(try_lines_to_table("1").err(), Some(SheetError::CellWithoutHead));
}

#[test]
fn fills_the_example() {
    let (table, failure) = fill(EXAMPLE);
    // the last cell leaves the parenthesis of `text(` open
    assert_eq!(failure, Some(EvalError::UnmatchedZone));
    assert_eq!(text(&table, "date", 2), "2022-02-20");
    assert_eq!(text(&table, "transaction_id", 2), "t_1");
    assert_eq!(text(&table, "transaction_id", 3), "t_2");
    assert_eq!(text(&table, "transaction_id", 4), "t_3");
    let e2: f32 = [38341.88f32, 2643.77, 1.0003].iter().sum();
    assert_eq!(number(&table, "total_cost", 2), e2);
    let e3: f32 = [304.38f32, 2621.15, 1.0001].iter().sum::<f32>() + e2;
    assert_eq!(number(&table, "total_cost", 3), e3);
    let e4: f32 = [85f32, 2604.17, 0.9997].iter().sum::<f32>() + e3;
    assert_eq!(number(&table, "total_cost", 4), e4);
    assert_eq!(number(&table, "fee", 6), 0.09);
    assert_eq!(number(&table, "cost_threshold", 6), 10000.0);
    assert_eq!(number(&table, "adjusted_cost", 8), 0.09f32 * e4 + e4);
}

#[test]
fn fills_a_closed_comparison() {
    let csv = EXAMPLE.replace("@cost_threshold<1>)", "@cost_threshold<1>))");
    let (table, failure) = fill(&csv);
    assert_eq!(failure, None);
    assert_eq!(text(&table, "cost_too_high", 10), "true");
}

#[test]
fn asks_before_it_computes() {
    let mut table = lines_to_table("!a\n2.5");
    match table.fill_data(Vec::new()) {
        Err(Halt::Ask(Query::ParseNumber(s))) => assert_eq!(s, "2.5"),
        _ => panic!("expected a question"),
    }
    let mut table = lines_to_table("!a\n2.5");
    assert!(matches!(table.try_fill_data(vec![Reply::Truth(true)]), Err(Halt::Failed(EvalError::UnexpectedReply))));
}

#[test]
fn subtraction_takes_the_right_operand_first() {
    let (table, failure) = fill("!a|!b\n8|=A2-A2\n2|=A3-A2");
    assert_eq!(failure, None);
    assert_eq!(number(&table, "b", 3), 8.0 - 2.0);
}

#[test]
fn counts_with_inc_from() {
    let (table, failure) = fill("!a|!b\n=text(incFrom(2))|=text(incFrom(3))\n=incFrom(1)|");
    assert_eq!(failure, None);
    assert_eq!(text(&table, "a", 2), "2");
    assert_eq!(value(&table, "a", 3).value_as_int, Some(3));
    assert_eq!(text(&table, "b", 2), "6");
}

#[test]
fn unknown_function_names_itself() {
    let (table, failure) = fill("!a\n=foo(\"x\")");
    assert_eq!(failure, None);
    assert_eq!(text(&table, "a", 2), "[foo(wtf)]");
}

#[test]
fn error_variants() {
    assert_eq!(fill("!a\n=)").1, Some(EvalError::StackUnderflow));
    assert_eq!(fill("!a\n=1+").1, Some(EvalError::WrongArity));
    assert_eq!(fill("!a\n=+1").1, Some(EvalError::UnexpectedItem));
    assert_eq!(fill("!a\n=#").1, Some(EvalError::UnknownSymbol));
    assert_eq!(fill("!a\n=\"é\"").1, Some(EvalError::NonAsciiFormula));
    assert_eq!(fill("!a\né").1, Some(EvalError::UnreadableCell));
    assert_eq!(fill("!a\n=Z9").1, Some(EvalError::MissingCell));
    assert_eq!(fill("!a\n=A").1, Some(EvalError::UnexpectedEnd));
    assert_eq!(fill("!a\n=A^").1, Some(EvalError::MissingCell));
    assert_eq!(fill("!a\n=Ax ").1, Some(EvalError::UnexpectedItem));
    assert_eq!(fill("!a\n=A%1").1, Some(EvalError::BadReference));
    assert_eq!(fill("!a\n=99999999999999999999999").1, Some(EvalError::NumberTooLarge));
    assert_eq!(fill("!a\n=@b<1>").1, Some(EvalError::MissingColumn));
    assert_eq!(fill("!a\n=text(1, 2)").1, Some(EvalError::WrongArity));
    assert_eq!(fill("!a\n=sum(\"x\")").1, Some(EvalError::MissingValue));
    assert_eq!(fill("!a\n=spread(split(\"1,x\", \",\"))").1, Some(EvalError::NotANumber));
    assert_eq!(fill("!a\n=split(\"1,x\", \",,\")").1, Some(EvalError::BadSeparator));
    assert_eq!(fill("!a\n=(1 2)").1, Some(EvalError::UnmatchedZone));
    assert_eq!(fill("!a\n=").1, Some(EvalError::InvalidExpression));
    assert_eq!(fill("!a\n=^^").1, Some(EvalError::UnreadableCell));
    assert_eq!(fill("!a\n=incFrom(18446744073709551615)\n=incFrom(1)").1, Some(EvalError::Overflow));
}

#[test]
fn moves_row_references_down() {
    let moved = TableData::increase_column_digits("sum(spread(split(D2, \",\")))".to_string(), 2);
    assert_eq!(moved, "sum(spread(split(D3, \",\")))");
    let moved = TableData::increase_column_digits("A12+B122+C1".to_string(), 12);
    assert_eq!(moved, "A13+B13+C1");
    let moved = try_increase_column_digits("=E^+sum(spread(split(D3, \",\")))".to_string(), 3);
    assert_eq!(moved, Some("=E^+sum(spread(split(D4, \",\")))".to_string()));
    assert_eq!(try_increase_column_digits("A1".to_string(), u32::MAX), None);
}

#[test]
fn repeats_the_formula_above() {
    let (table, failure) = fill("!a|!b\n1|=A2\n2|=^^\n3|=^^");
    assert_eq!(failure, None);
    assert_eq!(number(&table, "b", 3), 2.0);
    // `=^^` repeats the last formula that is not `=^^` itself, moved by one
    // row from the row above: `=A2` seen from row 4 has no reference to row 3
    assert_eq!(number(&table, "b", 4), 1.0);
}

#[test]
fn items_give_their_parts() {
    let item = Item::conduct_int_literal(4);
    assert_eq!(item.get_literal_as_number(), 4);
    assert_eq!(item.try_literal_as_number(), Ok(4));
    assert_eq!(item.get_literal().value_as_int, Some(4));
    assert_eq!(Item::conduct_string_literal("s".to_string()).try_literal_as_number(), Err(EvalError::MissingValue));
    assert_eq!(Item::Operator('+').get_as_operator(), '+');
    assert_eq!(Item::ZoneEnd(')').get_end_zone_character(), ')');
    assert_eq!(Item::ZoneStart('(').try_end_zone_character(), Err(EvalError::UnexpectedItem));
    Item::ZoneStart('<').expect_start_of('<');
    assert_eq!(Item::ZoneStart('(').check_start_of('<'), Err(EvalError::UnmatchedZone));
    assert_eq!(Item::ZoneStart('<').check_start_of('<'), Ok(()));
    assert_eq!(Item::Token("x".to_string()).get_token(), "x");
    assert_eq!(Item::Operator('+').try_token(), Err(EvalError::UnexpectedItem));
    assert!(Item::Operator('+').try_literal().is_err());
}

#[test]
fn column_cells_by_index() {
    let (table, _) = fill("!a\n5\n\n7");
    let column = table.get_by_name_unmut("a");
    assert_eq!(column.get_sorted_keys(), vec![2, 4]);
    assert_eq!(column.get_cell_by_index(2).value_as_float, Some(7.0f32.to_bits()));
    assert_eq!(column.get_cell_by_index(1).value_as_float, Some(5.0f32.to_bits()));
    assert!(column.find_cell_by_index(0).is_none());
    assert!(column.find_cell_by_index(3).is_none());
    assert_eq!(table.get_by_coordinate('A', &4).value_as_float, Some(7.0f32.to_bits()));
    assert!(table.find_by_coordinate('A', &3).is_none());
    assert!(table.find_by_coordinate('B', &4).is_none());
    assert_eq!(table.get_last_value_of_the_column('A').value_as_float, Some(7.0f32.to_bits()));
}

#[test]
fn answers_are_taken_in_order() {
    let mut answers = Answers::new(vec![Reply::Number(1), Reply::Truth(false)]);
    assert_eq!(answers.number(Query::Sum(vec![])).ok(), Some(1));
    assert_eq!(answers.truth(Query::AtLeast(0, 0)).ok(), Some(false));
    assert!(matches!(answers.number(Query::Sum(vec![])), Err(Halt::Ask(_))));
}

#[test]
fn row_above_the_first() {
    let mut table = TableData { columns: Vec::new() };
    table.add_column("a", 0);
    table.get_by_name("a").string_values.insert(0, "=A^ ".to_string());
    assert!(matches!(table.try_fill_data(Vec::new()), Err(Halt::Failed(EvalError::RowUnderflow))));
}

#[test]
fn split_then_join_gives_the_text_back() {
    for s in ["a|b||c", "", "|", "x", "||y|"] {
        let pieces = str_to_vector(s, '|');
        assert_eq!(pieces.join("|"), s);
        assert!(pieces.iter().all(|p| !p.contains('|')));
    }
}

#[test]
fn decimals_read_back() {
    for n in [0usize, 7, 10, 305, 4096, 123456789] {
        let numeral = decimal_string(n);
        assert_eq!(numeral, n.to_string());
        let chars = chars_of(&numeral);
        assert_eq!(parse_digits(&chars, 0, chars.len()), Some(n));
    }
}

#[test]
fn trimming_is_what_str_trim_does() {
    for s in ["  a b  ", "\t\nx\u{3000}", "", "   ", "y"] {
        assert_eq!(trim(s), s.trim());
    }
}

#[test]
fn added_columns_keep_distinct_names() {
    let mut table = TableData { columns: Vec::new() };
    table.add_column("a", 0);
    table.add_column("b", 1);
    assert_eq!(table.position_of("a"), Some(0));
    assert_eq!(table.position_of("b"), Some(1));
    assert_eq!(table.position_of("c"), None);
    assert_eq!(table.get_by_name_unmut("b").letter, 'B');
}

#[test]
fn last_value_comes_from_the_lowest_column() {
    let mut table = TableData { columns: Vec::new() };
    table.add_column("upper", 0);
    table.add_column("lower", 0);
    table.get_by_name("upper").string_values.insert(3, "=text(1)".to_string());
    table.get_by_name("lower").string_values.insert(5, "=text(2)".to_string());
    table.get_by_name("lower").string_values.insert(1, "=text(3)".to_string());
    assert!(table.fill_data(Vec::new()).is_ok());
    let last = table.get_last_value_of_the_column('A');
    assert_eq!(last.value_as_string, Some("2".to_string()));
    assert!(table.find_last_value_of_the_column('B').is_none());
    table.add_column("empty", 0);
    assert!(table.find_last_value_of_the_column('A').is_none());
}

fn text_literal(s: &str) -> LiteralValue {
    Item::conduct_str_literal_value(s.to_string())
}

#[test]
fn functions_on_values() {
    let table = lines_to_table("!a\nx");
    // the arguments come last first, as they leave the stack
    let parts = table.split(vec![text_literal(","), text_literal("1,2,")]);
    assert_eq!(parts.value_as_str_array, Some(vec!["1".to_string(), "2".to_string(), "".to_string()]));
    assert_eq!(table.concat(vec![text_literal("b"), text_literal("a")]).value_as_string, Some("ab".to_string()));
    assert_eq!(table.text(vec![Item::conduct_int_literal_value(12)]).value_as_string, Some("12".to_string()));
    assert_eq!(table.text(vec![text_literal("q")]).value_as_string, Some("q".to_string()));
    let mut counter = 5usize;
    assert_eq!(table.inc_from(vec![Item::conduct_int_literal_value(2)], &mut counter).value_as_int, Some(7));
    assert_eq!(counter, 7);
}

#[test]
fn references_resolve_to_cells() {
    let (table, failure) = fill("!a|!b\n1|2\n3|4");
    assert_eq!(failure, None);
    let (v, len) = table.resolve_literal_at("A3+B^", 0, 3);
    assert_eq!((v.value_as_float, len), (Some(3.0f32.to_bits()), 2));
    let (v, len) = table.resolve_literal_at("A3+B^+1", 3, 3);
    assert_eq!((v.value_as_float, len), (Some(2.0f32.to_bits()), 2));
    let (v, len) = table.resolve_literal_at("B^", 0, 3);
    assert_eq!((v.value_as_float, len), (Some(2.0f32.to_bits()), 2));
    let (v, len) = table.resolve_literal_at("B^v*2", 0, 2);
    assert_eq!((v.value_as_float, len), (Some(4.0f32.to_bits()), 3));
    let mut stack: VecDeque<Item> = VecDeque::new();
    stack.push_back(Item::Token("@b".to_string()));
    stack.push_back(Item::ZoneStart('<'));
    stack.push_back(Item::conduct_int_literal(2));
    table.evaluate_column_reference(&mut stack);
    assert_eq!(stack.len(), 1);
    assert_eq!(stack[0].get_literal().value_as_float, Some(4.0f32.to_bits()));
}

#[test]
fn cell_above_ends_a_formula() {
    let (table, failure) = fill("!a|!b\n7|\n|=A^");
    assert_eq!(failure, None);
    assert_eq!(number(&table, "b", 3), 7.0);
}

/// Reads and fills a sheet, answering every question; gives the table and the
/// replies that the fill took.
fn fill_with_replies(csv: &str) -> (TableData, Vec<Reply>) {
    let mut replies: Vec<Reply> = Vec::new();
    loop {
        let mut table = try_lines_to_table(csv).unwrap();
        match table.try_fill_data(replies.clone()) {
            Ok(()) => return (table, replies),
            Err(Halt::Ask(q)) => replies.push(answer(&q)),
            Err(Halt::Failed(e)) => panic!("unexpected failure {:?}", e),
        }
    }
}

#[test]
fn formula_without_inc_from_keeps_the_counter() {
    let table = lines_to_table("!a\nx");
    let mut counter = 5usize;
    let mut answers = Answers::new(Vec::new());
    let v = table.execute_str("concat(\"a\", text(12))", 2, &mut counter, &mut answers).ok().unwrap();
    assert_eq!(v.value_as_string, Some("a12".to_string()));
    assert_eq!(counter, 5);
    let v = table.execute_str("text(incFrom(2))", 2, &mut counter, &mut answers).ok().unwrap();
    assert_eq!(v.value_as_string, Some("7".to_string()));
    assert_eq!(counter, 7);
}

#[test]
fn filling_again_changes_nothing() {
    let csv = EXAMPLE.replace("@cost_threshold<1>)", "@cost_threshold<1>))");
    let (mut table, replies) = fill_with_replies(&csv);
    let before: Vec<Vec<(u32, String)>> = table
        .columns
        .iter()
        .map(|c| c.get_sorted_keys().iter().map(|k| (*k, format!("{:?}", render_value(c.resolved_value.get(k).unwrap())))).collect())
        .collect();
    assert!(table.try_fill_data(replies.clone()).is_ok());
    let after: Vec<Vec<(u32, String)>> = table
        .columns
        .iter()
        .map(|c| c.get_sorted_keys().iter().map(|k| (*k, format!("{:?}", render_value(c.resolved_value.get(k).unwrap())))).collect())
        .collect();
    assert_eq!(before, after);
    assert_eq!(text(&table, "transaction_id", 4), "t_3");
}

fn render_value(v: &LiteralValue) -> (Option<String>, Option<u32>, Option<usize>, Option<Vec<String>>, Option<Vec<u32>>) {
    (v.value_as_string.clone(), v.value_as_float, v.value_as_int, v.value_as_str_array.clone(), v.value_as_float_array.clone())
}

#[test]
fn more_replies_change_no_finished_fill() {
    let (_, replies) = fill_with_replies("!a|!b\n1|=A2+A2");
    let mut longer = replies.clone();
    longer.push(Reply::Truth(true));
    let mut table = lines_to_table("!a|!b\n1|=A2+A2");
    assert!(table.try_fill_data(longer).is_ok());
    assert_eq!(number(&table, "b", 2), 2.0);
    let mut table = lines_to_table("!a|!b\n1|=A2+A2");
    let shorter = replies[..replies.len() - 1].to_vec();
    assert!(matches!(table.try_fill_data(shorter), Err(Halt::Ask(_))));
}

#[test]
fn quoted_inc_from_is_no_call() {
    let table = lines_to_table("!a\nx");
    let mut counter = 3usize;
    let mut answers = Answers::new(Vec::new());
    let v = table.execute_str("concat(\"incFrom\", \"(1)\")", 2, &mut counter, &mut answers).ok().unwrap();
    assert_eq!(v.value_as_string, Some("incFrom(1)".to_string()));
    assert_eq!(counter, 3);
}

#[test]
fn filled_rows_are_the_cell_rows() {
    let (table, failure) = fill("!a|!b\n1|\n|=A2\n3|");
    assert_eq!(failure, None);
    for column in &table.columns {
        let mut rows: Vec<u32> = column.resolved_value.keys().copied().collect();
        rows.sort();
        assert_eq!(rows, column.get_sorted_keys());
    }
}
