//! Reading a board from text: nine lines of nine characters, each a digit
//! from 1 to 9 or `_` for an empty cell.

use vstd::prelude::*;
use crate::board::{cell_ok, digit_char};
use crate::grid::{Cell, Grid, SIZE};
use crate::parse_error::ParseError;

verus! {

/// White space as `char::is_whitespace` reads it (Unicode White_Space).
pub open spec fn is_space(c: char) -> bool {
    let u = c as u32;
    (0x9 <= u <= 0xD) || u == 0x20 || u == 0x85 || u == 0xA0 || u == 0x1680
        || (0x2000 <= u <= 0x200A) || u == 0x2028 || u == 0x2029 || u == 0x202F
        || u == 0x205F || u == 0x3000
}

/// The lines of `s` from the line that starts at `start`, the scan having
/// reached `j`: lines end at `'\n'`, and a last line that is empty is not one.
pub open spec fn lines_from(s: Seq<char>, start: int, j: int) -> Seq<Seq<char>>
    decreases s.len() - j,
{
    if j >= s.len() {
        if start < s.len() {
            seq![s.subrange(start, s.len() as int)]
        } else {
            Seq::empty()
        }
    } else if s[j] == '\n' {
        seq![s.subrange(start, j)] + lines_from(s, j + 1, j + 1)
    } else {
        lines_from(s, start, j + 1)
    }
}

/// The lines of text `s`.
pub open spec fn text_lines(s: Seq<char>) -> Seq<Seq<char>> {
    lines_from(s, 0, 0)
}

/// At most the first nine lines.
pub open spec fn first_lines(ls: Seq<Seq<char>>) -> Seq<Seq<char>> {
    if ls.len() <= 9 {
        ls
    } else {
        ls.take(9)
    }
}

/// Length of `l.take(k)` once white space at its end is dropped.
pub open spec fn trimmed_len(l: Seq<char>, k: int) -> int
    decreases k,
{
    if k <= 0 {
        0
    } else if is_space(l[k - 1]) {
        trimmed_len(l, k - 1)
    } else {
        k
    }
}

/// `l` without white space at its end.
pub open spec fn trim_end(l: Seq<char>) -> Seq<char> {
    l.take(trimmed_len(l, l.len() as int))
}

/// A digit from 1 to 9.
pub open spec fn is_digit_char(c: char) -> bool {
    49 <= c as u32 <= 57
}

/// A character a line may hold: a digit from 1 to 9, or `_`.
pub open spec fn valid_char(c: char) -> bool {
    is_digit_char(c) || c == '_'
}

/// The cell a valid character stands for.
pub open spec fn char_value(c: char) -> Option<u32> {
    if is_digit_char(c) {
        Some((c as u32 - 48) as u32)
    } else {
        None
    }
}

/// Position of the first character of `l` at or after `j` that is not
/// valid, or the length of `l`.
pub open spec fn first_invalid(l: Seq<char>, j: int) -> int
    decreases l.len() - j,
{
    if j >= l.len() {
        l.len() as int
    } else if !valid_char(l[j]) {
        j
    } else {
        first_invalid(l, j + 1)
    }
}

/// What is wrong with the trimmed line `l`, number `nr`, if anything.
pub open spec fn line_error(l: Seq<char>, nr: int) -> Option<ParseError> {
    if l.len() != 9 {
        Some(ParseError::InvalidLineLength(nr as usize, 9, l.len() as usize))
    } else if first_invalid(l, 0) < 9 {
        Some(ParseError::InvalidCharacter(nr as usize, l[first_invalid(l, 0)]))
    } else {
        None
    }
}

/// The cells of a valid trimmed line.
pub open spec fn line_cells(l: Seq<char>) -> Seq<Option<u32>> {
    l.map_values(|c: char| char_value(c))
}

/// Reads lines `ls` from number `i` on, `acc` holding the cells of the lines
/// before: the first line that is wrong gives its error; otherwise there
/// must be nine lines.
pub open spec fn parse_rows(ls: Seq<Seq<char>>, i: int, acc: Seq<Option<u32>>) -> Result<
    Seq<Option<u32>>,
    ParseError,
>
    decreases ls.len() - i,
{
    if i >= ls.len() {
        if ls.len() == 9 {
            Ok(acc)
        } else {
            Err(ParseError::InvalidRowCount(9, ls.len() as usize))
        }
    } else {
        match line_error(trim_end(ls[i]), i + 1) {
            Some(e) => Err(e),
            None => parse_rows(ls, i + 1, acc + line_cells(trim_end(ls[i]))),
        }
    }
}

/// The board that text `s` describes, or what is wrong with it. Lines after
/// the ninth are not read.
pub open spec fn parse_text(s: Seq<char>) -> Result<Seq<Option<u32>>, ParseError> {
    parse_rows(first_lines(text_lines(s)), 0, Seq::empty())
}

/// The contents of a list of lines.
pub open spec fn lines_view(v: Seq<Vec<char>>) -> Seq<Seq<char>> {
    v.map_values(|l: Vec<char>| l@)
}

/// The cell values of a list of cells.
pub open spec fn cells_view(v: Seq<Cell>) -> Seq<Option<u32>> {
    v.map_values(|c: Cell| c.value)
}

/// Everything from `j` on is valid when the scan from `j` finds nothing.
pub proof fn lemma_first_invalid(l: Seq<char>, j: int)
    requires
        0 <= j <= l.len(),
        first_invalid(l, j) == l.len(),
    ensures
        forall|i: int| j <= i < l.len() ==> valid_char(#[trigger] l[i]),
    decreases l.len() - j,
{
    if j < l.len() {
        lemma_first_invalid(l, j + 1);
    }
}

/// A line without error gives nine cells, each empty or a digit.
pub proof fn lemma_line_cells_ok(l: Seq<char>, nr: int)
    requires
        line_error(l, nr) is None,
    ensures
        line_cells(l).len() == 9,
        forall|m: int| 0 <= m < 9 ==> cell_ok(#[trigger] line_cells(l)[m]),
{
    lemma_first_invalid_bound(l, 0);
    lemma_first_invalid(l, 0);
    assert forall|m: int| 0 <= m < 9 implies cell_ok(#[trigger] line_cells(l)[m]) by {
        assert(valid_char(l[m]));
    }
}

/// The scan from `j` ends between `j` and the end.
pub proof fn lemma_first_invalid_bound(l: Seq<char>, j: int)
    requires
        0 <= j <= l.len(),
    ensures
        j <= first_invalid(l, j) <= l.len(),
    decreases l.len() - j,
{
    if j < l.len() {
        lemma_first_invalid_bound(l, j + 1);
    }
}

/// Whether `c` is white space.
pub fn is_whitespace(c: char) -> (r: bool)
    ensures
        r == is_space(c),
{
    let u = c as u32;
    (0x9 <= u && u <= 0xD) || u == 0x20 || u == 0x85 || u == 0xA0 || u == 0x1680
        || (0x2000 <= u && u <= 0x200A) || u == 0x2028 || u == 0x2029 || u == 0x202F
        || u == 0x205F || u == 0x3000
}

/// The characters of `s`, in order.
pub fn chars_of(s: &str) -> (r: Vec<char>)
    ensures
        r@ == s@,
{
    let n = s.unicode_len();
    let mut v: Vec<char> = Vec::with_capacity(n);
    for i in 0..n
        invariant
            n == s@.len(),
            v@ == s@.take(i as int),
    {
        v.push(s.get_char(i));
        proof {
            assert(v@ =~= s@.take(i + 1));
        }
    }
    proof {
        assert(v@ =~= s@);
    }
    v
}

/// Splits text into its lines.
pub fn split_lines(s: &Vec<char>) -> (r: Vec<Vec<char>>)
    ensures
        lines_view(r@) == text_lines(s@),
{
    let mut out: Vec<Vec<char>> = Vec::new();
    let mut cur: Vec<char> = Vec::new();
    let mut start: usize = 0;
    for j in 0..s.len()
        invariant
            start <= j,
            cur@ == s@.subrange(start as int, j as int),
            text_lines(s@) == lines_view(out@) + lines_from(s@, start as int, j as int),
    {
        if s[j] == '\n' {
            proof {
                assert(lines_view(out@.push(cur)) =~= lines_view(out@).push(cur@));
                assert(lines_view(out@) + lines_from(s@, start as int, j as int) =~= lines_view(
                    out@,
                ).push(cur@) + lines_from(s@, j + 1, j + 1));
            }
            out.push(cur);
            cur = Vec::new();
            start = j + 1;
            proof {
                assert(cur@ =~= s@.subrange(start as int, j + 1));
            }
        } else {
            cur.push(s[j]);
            proof {
                assert(cur@ =~= s@.subrange(start as int, j + 1));
            }
        }
    }
    if cur.len() > 0 {
        proof {
            assert(lines_view(out@.push(cur)) =~= lines_view(out@).push(cur@));
            assert(lines_view(out@) + lines_from(s@, start as int, s@.len() as int) =~= lines_view(
                out@,
            ).push(cur@));
        }
        out.push(cur);
    } else {
        proof {
            assert(lines_view(out@) + lines_from(s@, start as int, s@.len() as int) =~= lines_view(
                out@,
            ));
        }
    }
    out
}

/// Checks one line, number `nr`, and appends its cells to `cells`.
pub fn parse_line(line: &Vec<char>, nr: usize, cells: &mut Vec<Cell>) -> (r: Result<(), ParseError>)
    ensures
        match line_error(trim_end(line@), nr as int) {
            Some(e) => r == Err::<(), ParseError>(e),
            None => r is Ok && cells_view(final(cells)@) == cells_view(old(cells)@) + line_cells(
                trim_end(line@),
            ),
        },
{
    let mut e: usize = line.len();
    while e > 0 && is_whitespace(line[e - 1])
        invariant
            e <= line@.len(),
            trimmed_len(line@, line@.len() as int) == trimmed_len(line@, e as int),
        decreases e,
    {
        e = e - 1;
    }
    let ghost l = trim_end(line@);
    proof {
        assert(l =~= line@.take(e as int));
    }
    if e != SIZE {
        return Err(ParseError::InvalidLineLength(nr, SIZE, e));
    }
    for j in 0..SIZE
        invariant
            e == 9,
            9 <= line@.len(),
            l == line@.take(9),
            l == trim_end(line@),
            first_invalid(l, 0) == first_invalid(l, j as int),
            cells_view(cells@) == cells_view(old(cells)@) + line_cells(l.take(j as int)),
    {
        let ch = line[j];
        let u = ch as u32;
        let ghost prev = cells@;
        proof {
            assert(l[j as int] == ch);
        }
        if 49 <= u && u <= 57 {
            cells.push(Cell::new(Some(u - 48)));
        } else if ch == '_' {
            cells.push(Cell::new(None));
        } else {
            proof {
                assert(first_invalid(l, j as int) == j);
            }
            return Err(ParseError::InvalidCharacter(nr, ch));
        }
        proof {
            assert(cells_view(cells@) =~= cells_view(prev).push(char_value(ch)));
            assert(l.take(j + 1) =~= l.take(j as int).push(ch));
            assert(line_cells(l.take(j + 1)) =~= line_cells(l.take(j as int)).push(char_value(ch)));
            assert(cells_view(cells@) =~= cells_view(old(cells)@) + line_cells(l.take(j + 1)));
        }
    }
    proof {
        assert(l.take(9) =~= l);
    }
    Ok(())
}

impl Grid {
    /// Reads a board from text.
    ///
    /// Each of the first nine lines, without the white space at its end,
    /// must be nine characters long, each a digit from 1 to 9 or `_`; there
    /// must be nine lines. Lines after the ninth are not read. The first
    /// line that is wrong gives the error, its length before its characters.
    pub fn from_str(s: &str) -> (r: Result<Grid, ParseError>)
        ensures
            match r {
                Ok(g) => g.wf() && parse_text(s@) == Ok::<Seq<Option<u32>>, ParseError>(g@),
                Err(e) => parse_text(s@) == Err::<Seq<Option<u32>>, ParseError>(e),
            },
    {
        let chars = chars_of(s);
        let lines = split_lines(&chars);
        let ghost first = first_lines(text_lines(s@));
        let k: usize = if lines.len() < SIZE {
            lines.len()
        } else {
            SIZE
        };
        let mut cells: Vec<Cell> = Vec::with_capacity(SIZE * SIZE);
        for i in 0..k
            invariant
                k == first.len(),
                k <= lines@.len(),
                lines_view(lines@) == text_lines(s@),
                first == first_lines(text_lines(s@)),
                parse_text(s@) == parse_rows(first, i as int, cells_view(cells@)),
                cells@.len() == 9 * i,
                forall|m: int| 0 <= m < cells@.len() ==> cell_ok(#[trigger] cells_view(cells@)[m]),
        {
            proof {
                assert(first[i as int] == lines@[i as int]@);
            }
            match parse_line(&lines[i], i + 1, &mut cells) {
                Err(e) => {
                    return Err(e);
                },
                Ok(()) => {
                    proof {
                        lemma_line_cells_ok(trim_end(lines@[i as int]@), i + 1);
                    }
                },
            }
        }
        if k != SIZE {
            return Err(ParseError::InvalidRowCount(SIZE, k));
        }
        let g = Grid { cells };
        proof {
            assert(g@ =~= cells_view(cells@));
        }
        Ok(g)
    }
}

/// Lines joined with `'\n'` between them.
pub open spec fn join_lines(rows: Seq<Seq<char>>) -> Seq<char>
    decreases rows.len(),
{
    if rows.len() == 0 {
        Seq::empty()
    } else if rows.len() == 1 {
        rows[0]
    } else {
        rows[0] + seq!['\n'] + join_lines(rows.drop_first())
    }
}

/// The character that shows a cell: its digit, or `_` when it is empty.
pub open spec fn cell_char(v: Option<u32>) -> char {
    match v {
        Some(n) => digit_char(n),
        None => '_',
    }
}

/// A board written as text: nine lines of nine characters.
pub open spec fn board_text(b: Seq<Option<u32>>) -> Seq<char> {
    join_lines(Seq::new(9, |y: int| Seq::new(9, |x: int| cell_char(b[x + 9 * y]))))
}

/// Nine lines of nine characters, each a digit from 1 to 9 or `_`.
pub open spec fn well_formed_rows(rows: Seq<Seq<char>>) -> bool {
    &&& rows.len() == 9
    &&& forall|y: int| 0 <= y < 9 ==> (#[trigger] rows[y]).len() == 9
    &&& forall|y: int, x: int| 0 <= y < 9 && 0 <= x < 9 ==> valid_char(#[trigger] rows[y][x])
}

/// The lines read from `j` on depend only on the text from some `k <= start` on.
proof fn lemma_lines_from_skip(s: Seq<char>, k: int, start: int, j: int)
    requires
        0 <= k <= start <= j,
        k <= s.len(),
    ensures
        lines_from(s, start, j) == lines_from(s.skip(k), start - k, j - k),
    decreases s.len() - j,
{
    let t = s.skip(k);
    if j >= s.len() {
        if start < s.len() {
            assert(s.subrange(start, s.len() as int) =~= t.subrange(start - k, t.len() as int));
        }
    } else {
        assert(s[j] == t[j - k]);
        if s[j] == '\n' {
            assert(s.subrange(start, j) =~= t.subrange(start - k, j - k));
            lemma_lines_from_skip(s, k, j + 1, j + 1);
        } else {
            lemma_lines_from_skip(s, k, start, j + 1);
        }
    }
}

/// Scanning over characters that are not `'\n'` leaves the lines as they are.
proof fn lemma_lines_from_scan(s: Seq<char>, start: int, j: int, e: int)
    requires
        start <= j <= e <= s.len(),
        forall|i: int| j <= i < e ==> #[trigger] s[i] != '\n',
    ensures
        lines_from(s, start, j) == lines_from(s, start, e),
    decreases e - j,
{
    if j < e {
        lemma_lines_from_scan(s, start, j + 1, e);
    }
}

/// Splitting joined lines gives the lines back, when none is empty or holds
/// a `'\n'`.
proof fn lemma_text_lines_join(rows: Seq<Seq<char>>)
    requires
        forall|y: int| 0 <= y < rows.len() ==> (#[trigger] rows[y]).len() > 0,
        forall|y: int, x: int|
            0 <= y < rows.len() && 0 <= x < rows[y].len() ==> #[trigger] rows[y][x] != '\n',
    ensures
        text_lines(join_lines(rows)) == rows,
    decreases rows.len(),
{
    let s = join_lines(rows);
    if rows.len() == 0 {
        assert(text_lines(s) =~= rows);
    } else {
        let r0 = rows[0];
        let n = r0.len() as int;
        if rows.len() == 1 {
            assert forall|i: int| 0 <= i < n implies #[trigger] s[i] != '\n' by {
                assert(s[i] == rows[0][i]);
            }
            lemma_lines_from_scan(s, 0, 0, n);
            assert(s.subrange(0, n) =~= r0);
            assert(text_lines(s) =~= rows);
        } else {
            let rest = rows.drop_first();
            assert forall|y: int| 0 <= y < rest.len() implies (#[trigger] rest[y]).len() > 0 by {
                assert(rest[y] == rows[y + 1]);
            }
            assert forall|y: int, x: int|
                0 <= y < rest.len() && 0 <= x < rest[y].len() implies #[trigger] rest[y][x]
                != '\n' by {
                assert(rest[y] == rows[y + 1]);
            }
            lemma_text_lines_join(rest);
            assert forall|i: int| 0 <= i < n implies #[trigger] s[i] != '\n' by {
                assert(s[i] == rows[0][i]);
            }
            lemma_lines_from_scan(s, 0, 0, n);
            assert(s[n] == '\n');
            assert(s.subrange(0, n) =~= r0);
            lemma_lines_from_skip(s, n + 1, n + 1, n + 1);
            assert(s.skip(n + 1) =~= join_lines(rest));
            assert(text_lines(s) =~= seq![r0] + rest);
            assert(seq![r0] + rest =~= rows);
        }
    }
}

/// A line of valid characters has nothing to trim and no invalid character.
proof fn lemma_valid_line(l: Seq<char>, j: int)
    requires
        0 <= j <= l.len(),
        forall|x: int| 0 <= x < l.len() ==> valid_char(#[trigger] l[x]),
    ensures
        first_invalid(l, j) == l.len(),
    decreases l.len() - j,
{
    if j < l.len() {
        lemma_valid_line(l, j + 1);
    }
}

/// Reading well-formed lines from `i` on appends their cells, row by row.
proof fn lemma_parse_rows_ok(rows: Seq<Seq<char>>, i: int, acc: Seq<Option<u32>>)
    requires
        well_formed_rows(rows),
        0 <= i <= 9,
        acc.len() == 9 * i,
    ensures
        parse_rows(rows, i, acc) is Ok,
        parse_rows(rows, i, acc)->Ok_0.len() == 81,
        forall|m: int| 0 <= m < acc.len() ==> parse_rows(rows, i, acc)->Ok_0[m] == #[trigger] acc[m],
        forall|y: int, x: int|
            i <= y < 9 && 0 <= x < 9 ==> parse_rows(rows, i, acc)->Ok_0[x + 9 * y] == char_value(
                #[trigger] rows[y][x],
            ),
    decreases 9 - i,
{
    if i < 9 {
        let l = rows[i];
        assert(!is_space(l[8]));
        assert(trimmed_len(l, 9) == 9);
        assert(trim_end(l) =~= l);
        lemma_valid_line(l, 0);
        let acc2 = acc + line_cells(l);
        lemma_parse_rows_ok(rows, i + 1, acc2);
        let v = parse_rows(rows, i + 1, acc2)->Ok_0;
        assert forall|y: int, x: int| i <= y < 9 && 0 <= x < 9 implies v[x + 9 * y] == char_value(
            #[trigger] rows[y][x],
        ) by {
            if y == i {
                assert(acc2[x + 9 * y] == line_cells(l)[x]);
            }
        }
        assert forall|m: int| 0 <= m < acc.len() implies v[m] == #[trigger] acc[m] by {
            assert(acc2[m] == acc[m]);
        }
    }
}

/// A valid character shows the cell it stands for.
proof fn lemma_cell_char(c: char)
    requires
        valid_char(c),
    ensures
        cell_char(char_value(c)) == c,
{
}

/// Reading well-formed text and writing the board back gives the text:
/// nine lines of nine characters, each a digit from 1 to 9 or `_`, joined
/// with `'\n'`, read into a board whose cells are then shown as their digit
/// or `_` give the same text.
pub proof fn lemma_parse_round_trip(rows: Seq<Seq<char>>)
    requires
        well_formed_rows(rows),
    ensures
        parse_text(join_lines(rows)) is Ok,
        board_text(parse_text(join_lines(rows))->Ok_0) == join_lines(rows),
{
    assert forall|y: int, x: int|
        0 <= y < rows.len() && 0 <= x < rows[y].len() implies #[trigger] rows[y][x] != '\n' by {
        assert(valid_char(rows[y][x]));
    }
    lemma_text_lines_join(rows);
    assert(first_lines(rows) == rows);
    lemma_parse_rows_ok(rows, 0, Seq::empty());
    let v = parse_text(join_lines(rows))->Ok_0;
    let shown = Seq::new(9, |y: int| Seq::new(9, |x: int| cell_char(v[x + 9 * y])));
    assert forall|y: int| 0 <= y < 9 implies #[trigger] shown[y] == rows[y] by {
        assert forall|x: int| 0 <= x < 9 implies shown[y][x] == rows[y][x] by {
            let c = rows[y][x];
            assert(v[x + 9 * y] == char_value(c));
            assert(valid_char(c));
            lemma_cell_char(c);
            assert(shown[y][x] == cell_char(v[x + 9 * y]));
        }
        assert(shown[y] =~= rows[y]);
    }
    assert(shown =~= rows);
}

} // verus!
