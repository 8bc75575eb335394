use vstd::prelude::*;
use crate::number_text::{float_text, is_float_text};
use crate::text::{
    chars_of, joined, law_lines_after_join, law_split_after_join, lines, lines_of, plain_line, split,
    split_on, trim, trimmed,
};

verus! {

/// The debug text of the error that `String::from_utf8` returns for the
/// bytes (it names the bytes and where the first invalid sequence starts).
pub uninterp spec fn utf8_error_text(bytes: Seq<u8>) -> Seq<char>;

/// The text that the bytes encode in UTF-8, if they are valid UTF-8.
pub open spec fn utf8_text(bytes: Seq<u8>) -> Option<Seq<char>> {
    if vstd::utf8::valid_utf8(bytes) {
        Some(vstd::utf8::decode_utf8(bytes))
    } else {
        None
    }
}

/// `String::from_utf8`: the string that valid UTF-8 bytes encode; on
/// invalid bytes, the debug text of the error.
#[verifier::external_body]
fn decode_utf8(bytes: Vec<u8>) -> (r: Result<String, String>)
    ensures
        match utf8_text(bytes@) {
            Some(text) => r matches Ok(s) && s@ == text,
            None => r matches Err(m) && m@ == utf8_error_text(bytes@),
        },
{
    match String::from_utf8(bytes) {
        Ok(s) => Ok(s),
        Err(e) => Err(format!("{e:?}")),
    }
}

/// `String::from_iter` over the characters: the string that holds them,
/// in order.
#[verifier::external_body]
fn string_of(chars: &[char]) -> (r: String)
    ensures
        r@ == chars@,
{
    String::from_iter(chars.iter())
}

/// The number of rows after the header that describe the columns: labels,
/// lower bounds, upper bounds and descriptions.
pub const DESCRIPTION_ROWS: usize = 4;

/// A measurement file split into its parts, every number checked.
pub struct RawTable {
    /// The first line.
    pub header: String,
    /// The cells of the rows that describe the columns.
    pub limit_rows: Vec<Vec<String>>,
    /// The cells of the rows of data.
    pub data_rows: Vec<Vec<String>>,
}

/// Why a measurement file was refused.
pub enum TableError {
    /// The bytes are not UTF-8; the debug text of the decoding error
    /// (`utf8_error_text`).
    Encoding(String),
    /// The row (counted from 0 after the header) has another number of
    /// cells than the first.
    NotEnoughColumns(usize),
    /// A cell of a data row is no number.
    BadNumber { row: usize, column: usize, text: String },
    /// A bound is neither empty, `-`, nor a number.
    BadBound { text: String },
    /// There is no row of data.
    NoData,
}

/// Why a text is no measurement file, as plain values.
pub enum TableFault {
    NotEnoughColumns(int),
    BadNumber(int, int, Seq<char>),
    BadBound(Seq<char>),
    NoData,
}

/// The cells of a line: the pieces between semicolons, trimmed.
pub open spec fn cells_of(line: Seq<char>) -> Seq<Seq<char>> {
    split_on(line, ';').map_values(|c: Seq<char>| trim(c))
}

/// The first line of the text, or nothing.
pub open spec fn header_of(text: Seq<char>) -> Seq<char> {
    let ls = lines_of(text);
    if ls.len() > 0 {
        ls[0]
    } else {
        Seq::empty()
    }
}

/// The cells of each line after the first.
pub open spec fn table_rows(text: Seq<char>) -> Seq<Seq<Seq<char>>> {
    let ls = lines_of(text);
    if ls.len() > 0 {
        ls.drop_first().map_values(|l: Seq<char>| cells_of(l))
    } else {
        Seq::empty()
    }
}

/// The position of the first cell that is no number.
pub open spec fn first_bad_cell(cells: Seq<Seq<char>>) -> Option<int>
    decreases cells.len(),
{
    if cells.len() == 0 {
        None
    } else {
        match first_bad_cell(cells.drop_last()) {
            Some(c) => Some(c),
            None => if !float_text(cells.last()) {
                Some(cells.len() - 1)
            } else {
                None
            },
        }
    }
}

/// What is wrong with row `r` on its own: a description row needs as many
/// cells as the first one; a data row needs numbers, then as many cells as
/// the first description row.
pub open spec fn row_fault(rows: Seq<Seq<Seq<char>>>, r: int) -> Option<TableFault> {
    if r < DESCRIPTION_ROWS {
        if r > 0 && rows[r].len() != rows[0].len() {
            Some(TableFault::NotEnoughColumns(r))
        } else {
            None
        }
    } else {
        match first_bad_cell(rows[r]) {
            Some(c) => Some(TableFault::BadNumber(r, c, rows[r][c])),
            None => if rows[r].len() != rows[0].len() {
                Some(TableFault::NotEnoughColumns(r))
            } else {
                None
            },
        }
    }
}

/// The first fault among the first `n` rows.
pub open spec fn rows_fault(rows: Seq<Seq<Seq<char>>>, n: int) -> Option<TableFault>
    decreases n,
{
    if n <= 0 {
        None
    } else {
        match rows_fault(rows, n - 1) {
            Some(f) => Some(f),
            None => row_fault(rows, n - 1),
        }
    }
}

/// A bound is empty, `-`, or a number.
pub open spec fn bound_ok(text: Seq<char>) -> bool {
    text.len() == 0 || text == seq!['-'] || float_text(text)
}

/// The first bad bound among the first `n` columns, looking from the last
/// of them to the first, the lower bound of a column before its upper one.
pub open spec fn bounds_fault(rows: Seq<Seq<Seq<char>>>, n: int) -> Option<TableFault>
    decreases n,
{
    if n <= 0 {
        None
    } else if !bound_ok(rows[1][n - 1]) {
        Some(TableFault::BadBound(rows[1][n - 1]))
    } else if !bound_ok(rows[2][n - 1]) {
        Some(TableFault::BadBound(rows[2][n - 1]))
    } else {
        bounds_fault(rows, n - 1)
    }
}

/// What is wrong with the rows of a measurement file, if anything: the
/// first faulty row, else a missing row of data, else a bad bound.
pub open spec fn table_fault(rows: Seq<Seq<Seq<char>>>) -> Option<TableFault> {
    match rows_fault(rows, rows.len() as int) {
        Some(f) => Some(f),
        None => if rows.len() <= DESCRIPTION_ROWS {
            Some(TableFault::NoData)
        } else {
            bounds_fault(rows, rows[0].len() as int)
        },
    }
}

/// The error says what the fault says.
pub open spec fn error_is(e: TableError, f: TableFault) -> bool {
    match (e, f) {
        (TableError::NotEnoughColumns(r), TableFault::NotEnoughColumns(r2)) => r == r2,
        (TableError::BadNumber { row, column, text }, TableFault::BadNumber(r, c, t)) => row == r
            && column == c && text@ == t,
        (TableError::BadBound { text }, TableFault::BadBound(t)) => text@ == t,
        (TableError::NoData, TableFault::NoData) => true,
        _ => false,
    }
}

/// The cells of rows of strings, as plain values.
pub open spec fn rows_view(rows: Seq<Vec<String>>) -> Seq<Seq<Seq<char>>> {
    rows.map_values(|row: Vec<String>| row@.map_values(|c: String| c@))
}

/// The cells of rows of characters, as plain values.
pub open spec fn char_rows_view(rows: Seq<Vec<Vec<char>>>) -> Seq<Seq<Seq<char>>> {
    rows.map_values(|row: Vec<Vec<char>>| row@.map_values(|c: Vec<char>| c@))
}

/// Mapping a sequence with one more element at its end maps that element
/// at the end.
proof fn lemma_map_push<A, B>(s: Seq<A>, x: A, f: spec_fn(A) -> B)
    ensures
        s.push(x).map_values(f) == s.map_values(f).push(f(x)),
{
    assert(s.push(x).map_values(f) =~= s.map_values(f).push(f(x)));
}

/// The cells of a line.
fn cells(line: &[char]) -> (r: Vec<Vec<char>>)
    ensures
        r@.map_values(|c: Vec<char>| c@) == cells_of(line@),
{
    let pieces = split(line, ';');
    let mut r: Vec<Vec<char>> = Vec::new();
    let mut i: usize = 0;
    while i < pieces.len()
        invariant
            i <= pieces@.len(),
            pieces@.map_values(|l: Vec<char>| l@) == split_on(line@, ';'),
            r@.map_values(|c: Vec<char>| c@) == split_on(line@, ';').take(i as int).map_values(
                |c: Seq<char>| trim(c),
            ),
        decreases pieces@.len() - i,
    {
        let t = trimmed(pieces[i].as_slice());
        let ghost before = r@;
        r.push(t);
        proof {
            let parts = split_on(line@, ';');
            assert(pieces@.map_values(|l: Vec<char>| l@)[i as int] == pieces@[i as int]@);
            lemma_map_push(before, t, |c: Vec<char>| c@);
            assert(parts.take(i + 1) =~= parts.take(i as int).push(parts[i as int]));
            lemma_map_push(parts.take(i as int), parts[i as int], |c: Seq<char>| trim(c));
        }
        i = i + 1;
    }
    proof {
        assert(split_on(line@, ';').take(i as int) =~= split_on(line@, ';'));
    }
    r
}

/// The strings of the cells.
fn strings(cells: &Vec<Vec<char>>) -> (r: Vec<String>)
    ensures
        r@.map_values(|c: String| c@) == cells@.map_values(|c: Vec<char>| c@),
{
    let mut r: Vec<String> = Vec::new();
    let mut i: usize = 0;
    while i < cells.len()
        invariant
            i <= cells@.len(),
            r@.map_values(|c: String| c@) == cells@.take(i as int).map_values(|c: Vec<char>| c@),
        decreases cells@.len() - i,
    {
        let x = string_of(cells[i].as_slice());
        let ghost before = r@;
        r.push(x);
        proof {
            lemma_map_push(before, x, |c: String| c@);
            assert(cells@.take(i + 1) =~= cells@.take(i as int).push(cells@[i as int]));
            lemma_map_push(cells@.take(i as int), cells@[i as int], |c: Vec<char>| c@);
        }
        i = i + 1;
    }
    proof {
        assert(cells@.take(i as int) =~= cells@);
    }
    r
}

/// Whether a bound is empty, `-`, or a number.
fn bound_is_ok(text: &Vec<char>) -> (r: bool)
    ensures
        r == bound_ok(text@),
{
    if text.len() == 0 {
        true
    } else if text.len() == 1 && text[0] == '-' {
        proof {
            assert(text@ =~= seq!['-']);
        }
        true
    } else {
        is_float_text(text.as_slice())
    }
}

/// A fault among the first `k` rows is the fault among any more rows.
proof fn lemma_rows_fault_stays(rows: Seq<Seq<Seq<char>>>, k: int, m: int)
    requires
        0 <= k <= m,
        rows_fault(rows, k) is Some,
    ensures
        rows_fault(rows, m) == rows_fault(rows, k),
    decreases m - k,
{
    if k < m {
        lemma_rows_fault_stays(rows, k, m - 1);
    }
}

/// Without a fault among the first `m` rows, no row before `m` is faulty.
proof fn lemma_rows_fault_none(rows: Seq<Seq<Seq<char>>>, m: int, k: int)
    requires
        rows_fault(rows, m) is None,
        0 <= k < m,
    ensures
        row_fault(rows, k) is None,
    decreases m,
{
    if k < m - 1 {
        lemma_rows_fault_none(rows, m - 1, k);
    }
}

/// A bad cell found in a prefix is the first bad cell of the whole row.
proof fn lemma_first_bad_cell_prefix(cells: Seq<Seq<char>>, n: int)
    requires
        0 <= n <= cells.len(),
        first_bad_cell(cells.take(n)) is Some,
    ensures
        first_bad_cell(cells) == first_bad_cell(cells.take(n)),
    decreases cells.len() - n,
{
    if n < cells.len() {
        assert(cells.take(n + 1).drop_last() =~= cells.take(n));
        lemma_first_bad_cell_prefix(cells, n + 1);
    } else {
        assert(cells.take(n) =~= cells);
    }
}

/// Checks the cells of a data row: the position of the first cell that is
/// no number, if any.
fn bad_cell(cells: &Vec<Vec<char>>) -> (r: Option<usize>)
    ensures
        match r {
            Some(c) => c < cells@.len() && first_bad_cell(cells@.map_values(|c: Vec<char>| c@)) == Some(
                c as int,
            ),
            None => first_bad_cell(cells@.map_values(|c: Vec<char>| c@)) is None,
        },
{
    let ghost view = cells@.map_values(|c: Vec<char>| c@);
    let mut c: usize = 0;
    while c < cells.len()
        invariant
            c <= cells@.len(),
            view == cells@.map_values(|c: Vec<char>| c@),
            first_bad_cell(view.take(c as int)) is None,
        decreases cells@.len() - c,
    {
        proof {
            assert(view.take(c + 1).drop_last() =~= view.take(c as int));
            assert(view.take(c + 1).last() == cells@[c as int]@);
        }
        if !is_float_text(cells[c].as_slice()) {
            proof {
                lemma_first_bad_cell_prefix(view, c + 1);
            }
            return Some(c);
        }
        c = c + 1;
    }
    proof {
        assert(view.take(c as int) =~= view);
    }
    None
}

/// Splits the bytes of a measurement file into its header, the rows that
/// describe the columns and the rows of data, checking it on the way.
///
/// The first line is the header.  Each further line is a row of cells,
/// separated by semicolons and trimmed.  The first four rows describe the
/// columns (labels, lower bounds, upper bounds, descriptions) and need as
/// many cells as the first; each later row holds one number per column.
/// The rows are checked in order, a data row's numbers before its width;
/// then at least one data row is needed; then each bound must be empty,
/// `-` or a number, looking from the last column to the first.
pub fn parse_table(bytes: Vec<u8>) -> (r: Result<RawTable, TableError>)
    ensures
        match utf8_text(bytes@) {
            None => r matches Err(TableError::Encoding(m)) && m@ == utf8_error_text(bytes@),
            Some(text) => match table_fault(table_rows(text)) {
                Some(f) => r matches Err(e) && error_is(e, f),
                None => r matches Ok(t) && {
                    &&& t.header@ == header_of(text)
                    &&& rows_view(t.limit_rows@) == table_rows(text).take(DESCRIPTION_ROWS as int)
                    &&& rows_view(t.data_rows@) == table_rows(text).skip(DESCRIPTION_ROWS as int)
                },
            },
        },
{
    let decoded = decode_utf8(bytes);
    let text = match decoded {
        Ok(t) => t,
        Err(msg) => {
            return Err(TableError::Encoding(msg));
        },
    };
    let chars = chars_of(text.as_str());
    let lines = lines(chars.as_slice());
    let ghost lines_view = lines@.map_values(|l: Vec<char>| l@);
    let ghost rows = table_rows(text@);
    proof {
        assert(lines_view == lines_of(text@));
        if lines@.len() > 0 {
            assert forall|i: int| 0 <= i < rows.len() implies #[trigger] rows[i] == cells_of(
                lines@[i + 1]@,
            ) by {
                assert(lines_view[i + 1] == lines@[i + 1]@);
            }
        }
    }
    let header = if lines.len() > 0 {
        proof {
            assert(lines_view[0] == lines@[0]@);
        }
        string_of(lines[0].as_slice())
    } else {
        String::new()
    };
    let mut limit_cells: Vec<Vec<Vec<char>>> = Vec::new();
    let mut limit_rows: Vec<Vec<String>> = Vec::new();
    let mut data_rows: Vec<Vec<String>> = Vec::new();
    let mut n: usize = 0;
    while lines.len() > 0 && n < lines.len() - 1
        invariant
            utf8_text(bytes@) == Some(text@),
            rows == table_rows(text@),
            lines@.len() == 0 ==> n == 0 && rows.len() == 0,
            lines@.len() > 0 ==> n < lines@.len() && rows.len() == lines@.len() - 1,
            forall|i: int| 0 <= i < rows.len() ==> #[trigger] rows[i] == cells_of(lines@[i + 1]@),
            rows_fault(rows, n as int) is None,
            n <= DESCRIPTION_ROWS ==> char_rows_view(limit_cells@) == rows.take(n as int),
            n > DESCRIPTION_ROWS ==> char_rows_view(limit_cells@) == rows.take(DESCRIPTION_ROWS as int),
            rows_view(limit_rows@) == char_rows_view(limit_cells@),
            n <= DESCRIPTION_ROWS ==> data_rows@.len() == 0,
            n > DESCRIPTION_ROWS ==> rows_view(data_rows@) == rows.subrange(DESCRIPTION_ROWS as int, n as int),
        decreases lines@.len() - n,
    {
        let row = cells(lines[n + 1].as_slice());
        let ghost row_view = row@.map_values(|c: Vec<char>| c@);
        proof {
            assert(row_view == rows[n as int]);
            assert(rows_fault(rows, n + 1) == row_fault(rows, n as int));
        }
        if n < DESCRIPTION_ROWS {
            if n > 0 && row.len() != limit_cells[0].len() {
                proof {
                    assert(char_rows_view(limit_cells@)[0] == limit_cells@[0]@.map_values(|c: Vec<char>| c@));
                    assert(rows.take(n as int)[0] == rows[0]);
                    lemma_rows_fault_stays(rows, n + 1, rows.len() as int);
                }
                return Err(TableError::NotEnoughColumns(n));
            }
            if n > 0 {
                proof {
                    assert(char_rows_view(limit_cells@)[0] == limit_cells@[0]@.map_values(|c: Vec<char>| c@));
                    assert(rows.take(n as int)[0] == rows[0]);
                }
            }
            let strings_of_row = strings(&row);
            limit_rows.push(strings_of_row);
            limit_cells.push(row);
            proof {
                assert(char_rows_view(limit_cells@) =~= rows.take(n + 1));
                assert(rows_view(limit_rows@) =~= char_rows_view(limit_cells@));
            }
        } else {
            match bad_cell(&row) {
                Some(c) => {
                    proof {
                        lemma_rows_fault_stays(rows, n + 1, rows.len() as int);
                        assert(row_view[c as int] == row@[c as int]@);
                    }
                    return Err(
                        TableError::BadNumber {
                            row: n,
                            column: c,
                            text: string_of(row[c].as_slice()),
                        },
                    );
                },
                None => {},
            }
            proof {
                assert(char_rows_view(limit_cells@)[0] == limit_cells@[0]@.map_values(|c: Vec<char>| c@));
                assert(rows.take(DESCRIPTION_ROWS as int)[0] == rows[0]);
            }
            if row.len() != limit_cells[0].len() {
                proof {
                    lemma_rows_fault_stays(rows, n + 1, rows.len() as int);
                }
                return Err(TableError::NotEnoughColumns(n));
            }
            let strings_of_row = strings(&row);
            data_rows.push(strings_of_row);
            proof {
                assert(rows_view(data_rows@) =~= rows.subrange(DESCRIPTION_ROWS as int, n + 1));
            }
        }
        n = n + 1;
    }
    proof {
        assert(n == rows.len());
    }
    if data_rows.len() == 0 {
        proof {
            if rows.len() > DESCRIPTION_ROWS {
                assert(rows.subrange(DESCRIPTION_ROWS as int, n as int).len() > 0);
            }
        }
        return Err(TableError::NoData);
    }
    proof {
        lemma_rows_fault_none(rows, rows.len() as int, 1);
        lemma_rows_fault_none(rows, rows.len() as int, 2);
        assert(char_rows_view(limit_cells@)[0] == limit_cells@[0]@.map_values(|c: Vec<char>| c@));
        assert(char_rows_view(limit_cells@)[1] == limit_cells@[1]@.map_values(|c: Vec<char>| c@));
        assert(char_rows_view(limit_cells@)[2] == limit_cells@[2]@.map_values(|c: Vec<char>| c@));
    }
    let width = limit_cells[0].len();
    let mut c: usize = width;
    while c > 0
        invariant
            utf8_text(bytes@) == Some(text@),
            rows == table_rows(text@),
            rows_fault(rows, rows.len() as int) is None,
            c <= width,
            width == rows[0].len(),
            rows[1].len() == width,
            rows[2].len() == width,
            rows.len() > DESCRIPTION_ROWS,
            limit_cells@.len() == DESCRIPTION_ROWS,
            char_rows_view(limit_cells@) == rows.take(DESCRIPTION_ROWS as int),
            bounds_fault(rows, width as int) == bounds_fault(rows, c as int),
        decreases c,
    {
        c = c - 1;
        proof {
            assert(char_rows_view(limit_cells@)[1] == limit_cells@[1]@.map_values(|c: Vec<char>| c@));
            assert(char_rows_view(limit_cells@)[2] == limit_cells@[2]@.map_values(|c: Vec<char>| c@));
            assert(limit_cells@[1]@.map_values(|c: Vec<char>| c@)[c as int] == limit_cells@[1]@[c as int]@);
            assert(limit_cells@[2]@.map_values(|c: Vec<char>| c@)[c as int] == limit_cells@[2]@[c as int]@);
        }
        if !bound_is_ok(&limit_cells[1][c]) {
            return Err(TableError::BadBound { text: string_of(limit_cells[1][c].as_slice()) });
        }
        if !bound_is_ok(&limit_cells[2][c]) {
            return Err(TableError::BadBound { text: string_of(limit_cells[2][c].as_slice()) });
        }
    }
    proof {
        assert(rows.subrange(DESCRIPTION_ROWS as int, n as int) =~= rows.skip(DESCRIPTION_ROWS as int));
    }
    Ok(RawTable { header, limit_rows, data_rows })
}

/// The first bad cell of a row of numbers does not exist.
proof fn lemma_no_bad_cell(cells: Seq<Seq<char>>, c: int)
    requires
        first_bad_cell(cells) is None,
        0 <= c < cells.len(),
    ensures
        float_text(cells[c]),
    decreases cells.len(),
{
    if c < cells.len() - 1 {
        assert(cells.drop_last()[c] == cells[c]);
        lemma_no_bad_cell(cells.drop_last(), c);
    }
}

/// Without a bad bound among the first `n` columns, every one of them has
/// good bounds.
proof fn lemma_no_bad_bound(rows: Seq<Seq<Seq<char>>>, n: int, c: int)
    requires
        bounds_fault(rows, n) is None,
        0 <= c < n,
    ensures
        bound_ok(rows[1][c]),
        bound_ok(rows[2][c]),
    decreases n,
{
    if c < n - 1 {
        lemma_no_bad_bound(rows, n - 1, c);
    }
}

/// The rows of a measurement file without faults form a table: there is a
/// row of data, every row has the width of the first, every data cell is a
/// number and every bound is empty, `-` or a number.
pub proof fn law_accepted_rows_are_a_table(rows: Seq<Seq<Seq<char>>>)
    requires
        table_fault(rows) is None,
    ensures
        rows.len() > DESCRIPTION_ROWS,
        forall|r: int| 0 <= r < rows.len() ==> #[trigger] rows[r].len() == rows[0].len(),
        forall|r: int, c: int|
            DESCRIPTION_ROWS <= r < rows.len() && 0 <= c < rows[r].len() ==> float_text(#[trigger] rows[r][c]),
        forall|c: int| 0 <= c < rows[0].len() ==> bound_ok(#[trigger] rows[1][c]) && bound_ok(rows[2][c]),
{
    assert forall|r: int| 0 <= r < rows.len() implies #[trigger] rows[r].len() == rows[0].len() by {
        lemma_rows_fault_none(rows, rows.len() as int, r);
    }
    assert forall|r: int, c: int|
        DESCRIPTION_ROWS <= r < rows.len() && 0 <= c < rows[r].len() implies float_text(
        #[trigger] rows[r][c],
    ) by {
        lemma_rows_fault_none(rows, rows.len() as int, r);
        lemma_no_bad_cell(rows[r], c);
    }
    assert forall|c: int| 0 <= c < rows[0].len() implies bound_ok(#[trigger] rows[1][c]) && bound_ok(
        rows[2][c],
    ) by {
        lemma_no_bad_bound(rows, rows[0].len() as int, c);
    }
}

/// The cells joined into one line, a semicolon between each two.
pub fn join_cells(cells: &Vec<String>) -> (r: String)
    ensures
        r@ == joined(cells@.map_values(|c: String| c@), ';'),
{
    let ghost view = cells@.map_values(|c: String| c@);
    let mut line: Vec<char> = Vec::new();
    let mut i: usize = 0;
    while i < cells.len()
        invariant
            i <= cells@.len(),
            view == cells@.map_values(|c: String| c@),
            line@ == joined(view.take(i as int), ';'),
        decreases cells@.len() - i,
    {
        let cell = chars_of(cells[i].as_str());
        proof {
            assert(view[i as int] == cells@[i as int]@);
            assert(view.take(i + 1).drop_last() =~= view.take(i as int));
            assert(view.take(i + 1).last() == view[i as int]);
        }
        if i > 0 {
            line.push(';');
        }
        let ghost before = line@;
        let mut j: usize = 0;
        while j < cell.len()
            invariant
                j <= cell@.len(),
                line@ == before + cell@.take(j as int),
            decreases cell@.len() - j,
        {
            line.push(cell[j]);
            j = j + 1;
            proof {
                assert(line@ =~= before + cell@.take(j as int));
            }
        }
        proof {
            assert(cell@.take(j as int) =~= cell@);
            if i == 0 {
                assert(line@ =~= view.take(1)[0]);
            } else {
                assert(line@ =~= joined(view.take(i as int), ';').push(';') + view[i as int]);
            }
        }
        i = i + 1;
    }
    proof {
        assert(view.take(i as int) =~= view);
    }
    string_of(line.as_slice())
}

/// The lines of a measurement file that holds the table: the header, then
/// each description row and each data row with its cells joined by
/// semicolons.
pub fn to_csv(table: &RawTable) -> (r: Vec<String>)
    ensures
        r@.map_values(|l: String| l@) == csv_lines(
            table.header@,
            rows_view(table.limit_rows@),
            rows_view(table.data_rows@),
        ),
{
    let mut r: Vec<String> = Vec::new();
    r.push(table.header.clone());
    let ghost head = seq![table.header@];
    proof {
        assert(r@.map_values(|l: String| l@) =~= head);
    }
    let mut i: usize = 0;
    while i < table.limit_rows.len()
        invariant
            i <= table.limit_rows@.len(),
            r@.map_values(|l: String| l@) == head + rows_view(table.limit_rows@).take(i as int).map_values(
                |row: Seq<Seq<char>>| joined(row, ';'),
            ),
        decreases table.limit_rows@.len() - i,
    {
        let line = join_cells(&table.limit_rows[i]);
        let ghost before = r@;
        r.push(line);
        proof {
            lemma_map_push(before, line, |l: String| l@);
            assert(rows_view(table.limit_rows@)[i as int] == table.limit_rows@[i as int]@.map_values(
                |c: String| c@,
            ));
            assert(r@.map_values(|l: String| l@) =~= head + rows_view(table.limit_rows@).take(i + 1).map_values(
                |row: Seq<Seq<char>>| joined(row, ';'),
            ));
        }
        i = i + 1;
    }
    proof {
        assert(rows_view(table.limit_rows@).take(i as int) =~= rows_view(table.limit_rows@));
    }
    let ghost middle = head + rows_view(table.limit_rows@).map_values(
        |row: Seq<Seq<char>>| joined(row, ';'),
    );
    let mut k: usize = 0;
    while k < table.data_rows.len()
        invariant
            k <= table.data_rows@.len(),
            r@.map_values(|l: String| l@) == middle + rows_view(table.data_rows@).take(k as int).map_values(
                |row: Seq<Seq<char>>| joined(row, ';'),
            ),
        decreases table.data_rows@.len() - k,
    {
        let line = join_cells(&table.data_rows[k]);
        let ghost before = r@;
        r.push(line);
        proof {
            lemma_map_push(before, line, |l: String| l@);
            assert(rows_view(table.data_rows@)[k as int] == table.data_rows@[k as int]@.map_values(
                |c: String| c@,
            ));
            assert(r@.map_values(|l: String| l@) =~= middle + rows_view(table.data_rows@).take(k + 1).map_values(
                |row: Seq<Seq<char>>| joined(row, ';'),
            ));
        }
        k = k + 1;
    }
    proof {
        assert(rows_view(table.data_rows@).take(k as int) =~= rows_view(table.data_rows@));
    }
    r
}

/// A line written from trimmed cells without semicolons is read back as
/// the same cells.
pub proof fn law_cells_read_back(cells: Seq<Seq<char>>)
    requires
        cells.len() > 0,
        forall|i: int| 0 <= i < cells.len() ==> !(#[trigger] cells[i]).contains(';') && trim(cells[i])
            == cells[i],
    ensures
        cells_of(joined(cells, ';')) == cells,
{
    law_split_after_join(cells, ';');
    assert(cells_of(joined(cells, ';')) =~= cells);
}

/// The lines of a measurement file: the header, then each description row
/// and each data row with its cells joined by semicolons.
pub open spec fn csv_lines(
    header: Seq<char>,
    limit_rows: Seq<Seq<Seq<char>>>,
    data_rows: Seq<Seq<Seq<char>>>,
) -> Seq<Seq<char>> {
    seq![header] + limit_rows.map_values(|row: Seq<Seq<char>>| joined(row, ';')) + data_rows.map_values(
        |row: Seq<Seq<char>>| joined(row, ';'),
    )
}

/// A cell that a line can hold and give back: no semicolon, no line feed or
/// carriage return, no white space at either end.
pub open spec fn writable_cell(c: Seq<char>) -> bool {
    !c.contains(';') && plain_line(c) && trim(c) == c
}

/// A table that a measurement file can hold: a plain header, four
/// description rows and at least one data row, all of one width of at least
/// one, writable cells, numbers in the data rows and bounds that are empty,
/// `-` or numbers.
pub open spec fn writable_table(
    header: Seq<char>,
    limit_rows: Seq<Seq<Seq<char>>>,
    data_rows: Seq<Seq<Seq<char>>>,
) -> bool {
    &&& plain_line(header)
    &&& limit_rows.len() == DESCRIPTION_ROWS
    &&& data_rows.len() > 0
    &&& limit_rows[0].len() > 0
    &&& forall|r: int| 0 <= r < limit_rows.len() ==> #[trigger] limit_rows[r].len() == limit_rows[0].len()
    &&& forall|r: int| 0 <= r < data_rows.len() ==> #[trigger] data_rows[r].len() == limit_rows[0].len()
    &&& forall|r: int, c: int|
        0 <= r < limit_rows.len() && 0 <= c < limit_rows[r].len() ==> writable_cell(
            #[trigger] limit_rows[r][c],
        )
    &&& forall|r: int, c: int|
        0 <= r < data_rows.len() && 0 <= c < data_rows[r].len() ==> writable_cell(#[trigger] data_rows[r][c])
            && float_text(data_rows[r][c])
    &&& forall|c: int|
        0 <= c < limit_rows[0].len() ==> bound_ok(#[trigger] limit_rows[1][c]) && bound_ok(limit_rows[2][c])
}

proof fn lemma_joined_plain(p: Seq<Seq<char>>)
    requires
        forall|i: int| 0 <= i < p.len() ==> plain_line(#[trigger] p[i]),
    ensures
        plain_line(joined(p, ';')),
        p.len() > 0 ==> joined(p, ';').len() >= p.last().len(),
    decreases p.len(),
{
    if p.len() == 1 {
        assert(plain_line(p[0]));
    } else if p.len() > 1 {
        let front = p.drop_last();
        assert forall|i: int| 0 <= i < front.len() implies plain_line(#[trigger] front[i]) by {
            assert(front[i] == p[i]);
        }
        lemma_joined_plain(front);
        let a = joined(front, ';').push(';');
        let b = p.last();
        assert(plain_line(p[p.len() - 1]));
        assert forall|x: char| x == '\n' || x == '\r' implies !(a + b).contains(x) by {
            if (a + b).contains(x) {
                let t = choose|t: int| 0 <= t < (a + b).len() && (a + b)[t] == x;
                if t < a.len() - 1 {
                    assert(joined(front, ';')[t] == x);
                } else if t >= a.len() {
                    assert(b[t - a.len()] == x);
                }
            }
        }
    }
}

proof fn lemma_no_bad_cells(cells: Seq<Seq<char>>)
    requires
        forall|c: int| 0 <= c < cells.len() ==> float_text(#[trigger] cells[c]),
    ensures
        first_bad_cell(cells) is None,
    decreases cells.len(),
{
    if cells.len() > 0 {
        let front = cells.drop_last();
        assert forall|c: int| 0 <= c < front.len() implies float_text(#[trigger] front[c]) by {
            assert(front[c] == cells[c]);
        }
        lemma_no_bad_cells(front);
        assert(float_text(cells[cells.len() - 1]));
    }
}

proof fn lemma_rows_fault_clear(rows: Seq<Seq<Seq<char>>>, n: int)
    requires
        forall|r: int| 0 <= r < n ==> (#[trigger] row_fault(rows, r)) is None,
    ensures
        rows_fault(rows, n) is None,
    decreases n,
{
    if n > 0 {
        lemma_rows_fault_clear(rows, n - 1);
        assert(row_fault(rows, n - 1) is None);
    }
}

proof fn lemma_bounds_clear(rows: Seq<Seq<Seq<char>>>, n: int)
    requires
        forall|c: int| 0 <= c < n ==> bound_ok(#[trigger] rows[1][c]) && bound_ok(rows[2][c]),
    ensures
        bounds_fault(rows, n) is None,
    decreases n,
{
    if n > 0 {
        assert(bound_ok(rows[1][n - 1]));
        lemma_bounds_clear(rows, n - 1);
    }
}

/// What a table's file is read back as: the text of the lines that
/// `to_csv` writes for the table, joined by line feeds, has the table's
/// header, no fault, and the table's description and data rows, so
/// `parse_table` returns the table for the bytes of that text.
pub proof fn law_table_read_back(
    header: Seq<char>,
    limit_rows: Seq<Seq<Seq<char>>>,
    data_rows: Seq<Seq<Seq<char>>>,
)
    requires
        writable_table(header, limit_rows, data_rows),
    ensures
        ({
            let text = joined(csv_lines(header, limit_rows, data_rows), '\n');
            &&& header_of(text) == header
            &&& table_fault(table_rows(text)) is None
            &&& table_rows(text).take(DESCRIPTION_ROWS as int) == limit_rows
            &&& table_rows(text).skip(DESCRIPTION_ROWS as int) == data_rows
        }),
{
    let rows = limit_rows + data_rows;
    let width = limit_rows[0].len();
    let ls = csv_lines(header, limit_rows, data_rows);
    assert(ls.len() == rows.len() + 1);
    assert forall|r: int| 0 <= r < rows.len() implies #[trigger] rows[r].len() == width && (forall|c: int|
        0 <= c < width ==> writable_cell(#[trigger] rows[r][c])) && ls[r + 1] == joined(rows[r], ';') by {
        if r < limit_rows.len() {
            assert(rows[r] == limit_rows[r]);
            assert forall|c: int| 0 <= c < width implies writable_cell(#[trigger] rows[r][c]) by {
                assert(writable_cell(limit_rows[r][c]));
            }
        } else {
            assert(rows[r] == data_rows[r - limit_rows.len()]);
            assert forall|c: int| 0 <= c < width implies writable_cell(#[trigger] rows[r][c]) by {
                assert(writable_cell(data_rows[r - limit_rows.len()][c]));
            }
        }
    }
    assert forall|i: int| 0 <= i < ls.len() implies plain_line(#[trigger] ls[i]) by {
        if i > 0 {
            let row = rows[i - 1];
            assert forall|c: int| 0 <= c < row.len() implies plain_line(#[trigger] row[c]) by {
                assert(writable_cell(row[c]));
            }
            lemma_joined_plain(row);
        }
    }
    let last_row = rows[rows.len() - 1];
    assert(last_row == data_rows[data_rows.len() - 1]);
    assert(ls.last() == joined(last_row, ';'));
    assert(last_row.last().len() > 0) by {
        assert(float_text(data_rows[data_rows.len() - 1][width - 1]));
        assert(last_row.last() == last_row[width - 1]);
    }
    assert forall|c: int| 0 <= c < last_row.len() implies plain_line(#[trigger] last_row[c]) by {
        assert(writable_cell(last_row[c]));
    }
    lemma_joined_plain(last_row);
    law_lines_after_join(ls);
    let text = joined(ls, '\n');
    assert forall|r: int| 0 <= r < rows.len() implies #[trigger] table_rows(text)[r] == rows[r] by {
        assert(ls.drop_first()[r] == ls[r + 1]);
        let row = rows[r];
        assert forall|c: int| 0 <= c < row.len() implies !(#[trigger] row[c]).contains(';') && trim(
            row[c],
        ) == row[c] by {
            assert(writable_cell(row[c]));
        }
        law_cells_read_back(row);
    }
    assert(table_rows(text) =~= rows);
    assert forall|r: int| 0 <= r < rows.len() implies (#[trigger] row_fault(rows, r)) is None by {
        if r >= DESCRIPTION_ROWS {
            let row = rows[r];
            assert(row == data_rows[r - DESCRIPTION_ROWS]);
            assert forall|c: int| 0 <= c < row.len() implies float_text(#[trigger] row[c]) by {
                assert(float_text(data_rows[r - DESCRIPTION_ROWS][c]));
            }
            lemma_no_bad_cells(row);
        }
    }
    lemma_rows_fault_clear(rows, rows.len() as int);
    assert(rows[0] == limit_rows[0]);
    assert forall|c: int| 0 <= c < rows[0].len() implies bound_ok(#[trigger] rows[1][c]) && bound_ok(
        rows[2][c],
    ) by {
        assert(rows[1] == limit_rows[1]);
        assert(rows[2] == limit_rows[2]);
    }
    lemma_bounds_clear(rows, width as int);
    assert(rows.take(DESCRIPTION_ROWS as int) =~= limit_rows);
    assert(rows.skip(DESCRIPTION_ROWS as int) =~= data_rows);
}

} // verus!
