use michael_visualizer::number_text::is_float_text;
use michael_visualizer::table::{join_cells, parse_table, to_csv, RawTable, TableError};
use michael_visualizer::text::{chars_of, is_white_space, lines, split, trimmed};

fn chars(s: &str) -> Vec<char> {
    s.chars().collect()
}

fn strings(pieces: Vec<Vec<char>>) -> Vec<String> {
    pieces.into_iter().map(|p| p.into_iter().collect()).collect()
}

fn parsed(text: &str) -> Result<RawTable, TableError> {
    parse_table(text.as_bytes().to_vec())
}

const EXAMPLE_A: &str = "Example A
X;Y;Test03;Test04
-;1;-;1
-;-;2;2
no boundaries;only lower boundary;only upper boundary;both boundaries
0;0;0;0
1;1;1;1
2;2;2;2
3;3;3;3
4;4;4;4";

const EXAMPLE_B: &str = "Example B
X;Y;Test03;Test04;Test05
-;1;-;1;1
-;-;2;2;2
no boundaries;only lower boundary;only upper boundary;both boundaries;both boundaries
0;0;0;0;0
0.5;0.5;0.5;0.5;0.5
1;1;1;1;1
1.5;1.5;1.5;1.5;1.5
2;2;2;2;2
2.5;2.5;2.5;2.5;2.5
3;3;3;3;3
3.5;3.5;3.5;3.5;3.5
4;4;4;4;4";

#[test]
fn parse_example_a() {
    let table = parsed(EXAMPLE_A).ok().expect("example A is a measurement file");
    assert_eq!(table.header, "Example A");
    assert_eq!(table.limit_rows.len(), 4);
    assert_eq!(table.limit_rows[0], vec!["X", "Y", "Test03", "Test04"]);
    assert_eq!(table.limit_rows[1], vec!["-", "1", "-", "1"]);
    assert_eq!(table.limit_rows[2], vec!["-", "-", "2", "2"]);
    assert_eq!(table.data_rows.len(), 5);
    assert_eq!(table.data_rows[4], vec!["4", "4", "4", "4"]);
}

#[test]
fn parse_example_b() {
    let table = parsed(EXAMPLE_B).ok().expect("example B is a measurement file");
    assert_eq!(table.header, "Example B");
    assert_eq!(table.limit_rows[3][4], "both boundaries");
    assert_eq!(table.data_rows.len(), 9);
    assert_eq!(table.data_rows[1], vec!["0.5"; 5]);
}

#[test]
fn chars_of_keeps_every_character() {
    assert_eq!(chars_of("añb\n"), vec!['a', 'ñ', 'b', '\n']);
    assert!(chars_of("").is_empty());
}

#[test]
fn lines_follow_str_lines() {
    for text in ["", "\n", "a", "a\n", "a\r\nb", "a\n\nb\n", "a\r", "\r\n\r\n", "x\ry\n"] {
        let expected: Vec<String> = text.lines().map(|l| l.to_string()).collect();
        assert_eq!(strings(lines(&chars(text))), expected, "lines of {text:?}");
    }
}

#[test]
fn split_follows_str_split() {
    for text in ["", ";", "a;b", ";a;", "a;;b", "abc"] {
        let expected: Vec<String> = text.split(';').map(|p| p.to_string()).collect();
        assert_eq!(strings(split(&chars(text), ';')), expected, "pieces of {text:?}");
    }
}

#[test]
fn trimmed_follows_str_trim() {
    for text in ["", "  ", " a ", "\ta b\n", "a", "\u{3000}x\u{a0}", " \u{2003}"] {
        let expected: String = text.trim().to_string();
        let got: String = trimmed(&chars(text)).into_iter().collect();
        assert_eq!(got, expected, "trim of {text:?}");
    }
}

#[test]
fn float_texts_follow_str_parse() {
    let samples = [
        "0", "1", "-1.5", "+.5", "5.", ".", "", "-", "+", "1e10", "1E-3", "1e+4", "1e", "e5",
        "1.2.3", " 1", "1 ", "1_000", "inf", "-Infinity", "INF", "NaN", "nan", "infinit",
        "0x10", "12a", "--1", "1.5e3.2", "١",
    ];
    for s in samples {
        assert_eq!(
            is_float_text(&chars(s)),
            s.parse::<f32>().is_ok(),
            "float text {s:?}"
        );
    }
}

#[test]
fn cells_are_trimmed() {
    let table = parsed("head\n a ; b \n-;-\n-;-\ni;j\n 1 ;2.5 \n")
        .ok()
        .expect("a small measurement file");
    assert_eq!(table.header, "head");
    assert_eq!(table.limit_rows[0], vec!["a", "b"]);
    assert_eq!(table.data_rows, vec![vec!["1", "2.5"]]);
}

#[test]
fn invalid_utf8_is_an_encoding_error() {
    assert!(matches!(
        parse_table(vec![0x48, 0xff, 0x0a]),
        Err(TableError::Encoding(_))
    ));
}

#[test]
fn a_short_description_row_is_refused() {
    assert!(matches!(
        parsed("h\na;b\n-\n-;-\ni;j\n1;2"),
        Err(TableError::NotEnoughColumns(1))
    ));
}

#[test]
fn a_cell_that_is_no_number_is_refused() {
    match parsed("h\na;b\n-;-\n-;-\ni;j\n1;2\n3;x;5") {
        Err(TableError::BadNumber { row, column, text }) => {
            assert_eq!((row, column), (5, 1));
            assert_eq!(text, "x");
        }
        _ => panic!("expected a bad number"),
    }
}

#[test]
fn a_bad_number_comes_before_a_bad_width_in_the_same_row() {
    assert!(matches!(
        parsed("h\na;b\n-;-\n-;-\ni;j\nq"),
        Err(TableError::BadNumber { row: 4, column: 0, .. })
    ));
    assert!(matches!(
        parsed("h\na;b\n-;-\n-;-\ni;j\n1\n2;q"),
        Err(TableError::NotEnoughColumns(4))
    ));
}

#[test]
fn a_file_without_data_is_refused() {
    assert!(matches!(parsed(""), Err(TableError::NoData)));
    assert!(matches!(parsed("h\na;b\n-;-\n-;-\ni;j\n"), Err(TableError::NoData)));
}

#[test]
fn bad_bounds_are_found_from_the_last_column() {
    match parsed("h\na;b;c\nlow;-;1\n-;-;high\ni;j;k\n1;2;3") {
        Err(TableError::BadBound { text }) => assert_eq!(text, "high"),
        _ => panic!("expected a bad bound"),
    }
    match parsed("h\na;b\nlow;x\n-;-\ni;j\n1;2") {
        Err(TableError::BadBound { text }) => assert_eq!(text, "x"),
        _ => panic!("expected a bad bound"),
    }
}

#[test]
fn white_space_is_what_char_is_whitespace_says() {
    for code in 0..=0x10FFFFu32 {
        if let Some(c) = char::from_u32(code) {
            assert_eq!(is_white_space(c), c.is_whitespace(), "white space {code:#x}");
        }
    }
}

#[test]
fn an_encoding_error_carries_the_debug_text() {
    let bytes = vec![0x48, 0xff, 0x0a];
    let expected = format!("{:?}", String::from_utf8(bytes.clone()).unwrap_err());
    match parse_table(bytes) {
        Err(TableError::Encoding(text)) => assert_eq!(text, expected),
        _ => panic!("expected an encoding error"),
    }
}

#[test]
fn join_cells_puts_semicolons_between() {
    let cells = |c: &[&str]| c.iter().map(|s| s.to_string()).collect::<Vec<String>>();
    assert_eq!(join_cells(&cells(&["a", "b", "c"])), "a;b;c");
    assert_eq!(join_cells(&cells(&["x"])), "x");
    assert_eq!(join_cells(&cells(&["", ""])), ";");
    assert_eq!(join_cells(&Vec::new()), "");
}

#[test]
fn to_csv_writes_what_parse_table_reads() {
    let table = parsed(EXAMPLE_A).ok().expect("example A is a measurement file");
    let lines = to_csv(&table);
    assert_eq!(lines.join("\n"), EXAMPLE_A);
    let again = parsed(&lines.join("\n")).ok().expect("written file is read back");
    assert_eq!(again.header, table.header);
    assert_eq!(again.limit_rows, table.limit_rows);
    assert_eq!(again.data_rows, table.data_rows);
}
