//! Reading a grid from its text layout.
//!
//! A layout is a block of text. Its lines with an even number (counting
//! from zero) hold the cells, three characters each: the kind, the colour
//! of a button or bridge, and `-` where a road leads to the cell on the
//! right. Its lines with an odd number hold `|` below each cell from which
//! a road leads down. The first empty line ends the layout.

use vstd::prelude::*;
use crate::elem::{kind_known, type_of_chars, Cell, Dir, Elem, Type};
use crate::enumerate::listed;
use crate::map::Grid;
use crate::vec2d::Vec2D;

verus! {

/// The position of the first line break at or after `from`, or the length
/// of the text if there is none.
pub open spec fn line_end(s: Seq<char>, from: int) -> int
    decreases s.len() - from,
{
    if from < 0 || from >= s.len() || s[from] == '\n' {
        from
    } else {
        line_end(s, from + 1)
    }
}

/// The lines of the text from position `from` on, up to the first empty
/// line.
pub open spec fn rows_from(s: Seq<char>, from: int) -> Seq<Seq<char>>
    decreases s.len() - from,
{
    let end = line_end(s, from);
    if from < 0 || end <= from {
        Seq::empty()
    } else if end >= s.len() {
        seq![s.subrange(from, end)]
    } else {
        seq![s.subrange(from, end)] + rows_from(s, end + 1)
    }
}

/// The lines of the text up to the first empty line.
pub open spec fn rows_of(s: Seq<char>) -> Seq<Seq<char>> {
    rows_from(s, 0)
}

/// The character at column `c` of line `r`, or a blank where the layout
/// has none.
pub open spec fn glyph(rows: Seq<Seq<char>>, r: int, c: int) -> char {
    if 0 <= r < rows.len() && 0 <= c < rows[r].len() {
        rows[r][c]
    } else {
        ' '
    }
}

/// The number of columns of the grid that a layout describes.
pub open spec fn grid_cols(s: Seq<char>) -> int {
    (line_end(s, 0) + 2) / 3
}

/// The number of rows of the grid that a layout describes.
pub open spec fn grid_rows(s: Seq<char>) -> int {
    (s.len() as int / line_end(s, 0) + 2) / 2
}

/// The cell at column `x` of row `y` that a layout describes.
pub open spec fn layout_cell(rows: Seq<Seq<char>>, x: int, y: int) -> Cell {
    Cell {
        up: y > 0 && glyph(rows, 2 * y - 1, 3 * x) == '|',
        right: glyph(rows, 2 * y, 3 * x + 2) == '-',
        down: glyph(rows, 2 * y + 1, 3 * x) == '|',
        left: x > 0 && glyph(rows, 2 * y, 3 * x - 1) == '-',
        typ: match type_of_chars(glyph(rows, 2 * y, 3 * x), glyph(rows, 2 * y, 3 * x + 1)) {
            Some(t) => t,
            None => Type::Empty,
        },
        occupied: false,
    }
}

/// What the character at column `c` of line `r` asks of a grid with
/// `cols` columns and `nrows` rows: a cell lies inside the grid and names
/// a kind, and a road joins two cells of the grid.
pub open spec fn spot_ok(rows: Seq<Seq<char>>, cols: int, nrows: int, r: int, c: int) -> bool {
    &&& r % 2 == 0 && c % 3 == 0 ==> c / 3 < cols && r / 2 < nrows && type_of_chars(
        rows[r][c],
        glyph(rows, r, c + 1),
    ) is Some
    &&& r % 2 == 0 && c % 3 == 2 && rows[r][c] == '-' ==> c / 3 + 1 < cols && r / 2 < nrows
    &&& r % 2 == 1 && c % 3 == 0 && rows[r][c] == '|' ==> c / 3 < cols && r / 2 + 1 < nrows
}

/// Every character of the lines asks what the grid can give.
pub open spec fn rows_fit(rows: Seq<Seq<char>>, cols: int, nrows: int) -> bool {
    forall|r: int, c: int|
        0 <= r < rows.len() && 0 <= c < rows[r].len() ==> #[trigger] spot_ok(
            rows,
            cols,
            nrows,
            r,
            c,
        )
}

/// Whether a text is a layout: its first line is not empty, every cell
/// and every road lies inside the grid whose size the text gives, and
/// every button and bridge names its colour.
pub open spec fn fits(s: Seq<char>) -> bool {
    &&& line_end(s, 0) > 0
    &&& rows_fit(rows_of(s), grid_cols(s), grid_rows(s))
}

/// Whether `g` is the grid that the layout `s` describes.
pub open spec fn laid_out(s: Seq<char>, g: Grid) -> bool {
    &&& g.wf()
    &&& g.width == grid_cols(s)
    &&& g.height == grid_rows(s)
    &&& forall|x: int, y: int|
        g.in_bounds(x, y) ==> #[trigger] g.at(x, y) == layout_cell(rows_of(s), x, y)
}

/// The end of a line is at or after its start and inside the text, no
/// line break lies before it, and it is the same from every position of
/// the line.
pub proof fn lemma_line_end(s: Seq<char>, from: int)
    requires
        0 <= from <= s.len(),
    ensures
        from <= line_end(s, from) <= s.len(),
        line_end(s, from) < s.len() ==> s[line_end(s, from)] == '\n',
        forall|j: int| from <= j < line_end(s, from) ==> s[j] != '\n',
        forall|j: int| from <= j <= line_end(s, from) ==> line_end(s, j) == line_end(s, from),
    decreases s.len() - from,
{
    if from < s.len() && s[from] != '\n' {
        lemma_line_end(s, from + 1);
    }
}

/// The grid of a layout has no more cells than the layout has characters.
pub proof fn lemma_grid_size(n: int, w: int)
    requires
        0 < w <= n,
    ensures
        0 <= (w + 2) / 3,
        0 <= (n / w + 2) / 2,
        ((w + 2) / 3) * ((n / w + 2) / 2) <= n,
{
    let h = n / w;
    let cols = (w + 2) / 3;
    let nrows = (h + 2) / 2;
    assert(h >= 1 && h * w <= n) by (nonlinear_arith)
        requires
            0 < w <= n,
            h == n / w,
    ;
    assert(cols <= w);
    assert(nrows <= h);
    assert(cols * nrows <= w * h) by (nonlinear_arith)
        requires
            0 <= cols <= w,
            0 <= nrows <= h,
    ;
    assert(w * h == h * w) by (nonlinear_arith);
}

/// The grid that a layout describes is contained: every road that the
/// layout draws leads to a cell of the grid.
pub proof fn lemma_laid_out_contained(s: Seq<char>, g: Grid)
    requires
        fits(s),
        laid_out(s, g),
    ensures
        g.contained(),
{
    let rows = rows_of(s);
    let cols = grid_cols(s);
    let nrows = grid_rows(s);
    assert forall|x: int, y: int, d: Dir|
        g.in_bounds(x, y) && #[trigger] g.at(x, y).connected(d) implies g.in_bounds(
        x + d.dx(),
        y + d.dy(),
    ) by {
        let cell = layout_cell(rows, x, y);
        assert(g.at(x, y) == cell);
        match d {
            Dir::Up => {},
            Dir::Left => {},
            Dir::Right => {
                assert(spot_ok(rows, cols, nrows, 2 * y, 3 * x + 2));
            },
            Dir::Down => {
                assert(spot_ok(rows, cols, nrows, 2 * y + 1, 3 * x));
            },
        }
    }
}

/// In a layout every cell of the grid names a kind.
pub proof fn lemma_fits_kinds(rows: Seq<Seq<char>>, cols: int, nrows: int, x: int, y: int)
    requires
        rows_fit(rows, cols, nrows),
        0 <= x,
        0 <= y,
    ensures
        type_of_chars(glyph(rows, 2 * y, 3 * x), glyph(rows, 2 * y, 3 * x + 1)) is Some,
{
    if 2 * y < rows.len() && 3 * x < rows[2 * y].len() {
        assert(spot_ok(rows, cols, nrows, 2 * y, 3 * x));
    }
}

/// Splits a text into its lines, up to the first empty line.
fn split_rows(map: &str) -> (rows: Vec<Vec<char>>)
    ensures
        listed(rows@) == rows_of(map@),
{
    let n = map.unicode_len();
    let ghost s = map@;
    let mut rows: Vec<Vec<char>> = Vec::new();
    let mut pos: usize = 0;
    let mut done = false;
    assert(listed(rows@) + rows_from(s, 0) =~= rows_of(s));
    while !done
        invariant
            pos <= n,
            n == s.len(),
            s == map@,
            listed(rows@) + rows_from(s, pos as int) == rows_of(s),
            done ==> rows_from(s, pos as int).len() == 0,
        decreases n - pos + if done { 0int } else { 1int },
    {
        let mut cur: Vec<char> = Vec::new();
        let mut j: usize = pos;
        while j < n && map.get_char(j) != '\n'
            invariant
                pos <= j <= n,
                n == s.len(),
                s == map@,
                cur@ == s.subrange(pos as int, j as int),
                line_end(s, pos as int) == line_end(s, j as int),
            decreases n - j,
        {
            cur.push(map.get_char(j));
            j += 1;
            assert(cur@ =~= s.subrange(pos as int, j as int));
        }
        assert(line_end(s, pos as int) == j);
        if j == pos {
            done = true;
        } else {
            let ghost before = listed(rows@);
            let ghost line = cur@;
            rows.push(cur);
            assert(listed(rows@) =~= before.push(line));
            if j >= n {
                assert(rows_from(s, pos as int) =~= seq![line]);
                pos = n;
                done = true;
                assert(rows_from(s, n as int) =~= Seq::<Seq<char>>::empty());
                assert(listed(rows@) + rows_from(s, n as int) =~= rows_of(s));
            } else {
                assert(rows_from(s, pos as int) == seq![line] + rows_from(s, j + 1));
                assert(before.push(line) + rows_from(s, j + 1) =~= before + (seq![line]
                    + rows_from(s, j + 1)));
                pos = j + 1;
            }
        }
    }
    assert(listed(rows@) + Seq::<Seq<char>>::empty() =~= listed(rows@));
    assert(rows_from(s, pos as int) =~= Seq::<Seq<char>>::empty());
    rows
}

/// The character at column `3 * x + off` of line `2 * y + odd`, or a
/// blank where the layout has none.
fn pick(rows: &Vec<Vec<char>>, y: usize, odd: usize, x: usize, off: usize) -> (c: char)
    requires
        odd < 2,
        off < 3,
    ensures
        c == glyph(listed(rows@), 2 * y + odd, 3 * x + off),
{
    let nr = rows.len();
    if nr > odd && y <= (nr - 1 - odd) / 2 {
        let line = &rows[2 * y + odd];
        let len = line.len();
        if len > off && x <= (len - 1 - off) / 3 {
            line[3 * x + off]
        } else {
            ' '
        }
    } else {
        ' '
    }
}

/// The cell at column `x` of row `y` that the lines describe.
fn cell(rows: &Vec<Vec<char>>, x: usize, y: usize) -> (e: Elem)
    requires
        type_of_chars(
            glyph(listed(rows@), 2 * y, 3 * x),
            glyph(listed(rows@), 2 * y, 3 * x + 1),
        ) is Some,
    ensures
        e@ == layout_cell(listed(rows@), x as int, y as int),
{
    let kind = pick(rows, y, 0, x, 0);
    let extra = pick(rows, y, 0, x, 1);
    let mut e = Elem::from_char(kind, extra);
    if pick(rows, y, 0, x, 2) == '-' {
        e.connect(Dir::Right);
    }
    if x > 0 && pick(rows, y, 0, x - 1, 2) == '-' {
        e.connect(Dir::Left);
    }
    if pick(rows, y, 1, x, 0) == '|' {
        e.connect(Dir::Down);
    }
    if y > 0 && pick(rows, y - 1, 1, x, 0) == '|' {
        e.connect(Dir::Up);
    }
    e
}

/// Every cell of a row comes before every cell of the rows below it.
proof fn lemma_row_major(cols: int, x: int, y: int, below: int)
    requires
        0 <= x < cols,
        0 <= y < below,
    ensures
        0 <= y * cols + x < below * cols,
{
    assert(y * cols + x < below * cols && 0 <= y * cols) by (nonlinear_arith)
        requires
            0 <= x < cols,
            0 <= y < below,
    ;
}

/// A text has a first line exactly if its first line is not empty, and
/// that line is as long as the text before its first line break.
pub proof fn lemma_first_row(s: Seq<char>)
    ensures
        rows_of(s).len() > 0 <==> line_end(s, 0) > 0,
        line_end(s, 0) > 0 ==> rows_of(s)[0].len() == line_end(s, 0),
        0 <= line_end(s, 0) <= s.len(),
{
    lemma_line_end(s, 0);
    let end = line_end(s, 0);
    if end > 0 {
        let first = s.subrange(0, end);
        if end >= s.len() {
            assert(rows_of(s) == seq![first]);
        } else {
            assert(rows_of(s) == seq![first] + rows_from(s, end + 1));
        }
        assert(rows_of(s)[0] == first);
    }
}

/// Builds the grid of `cols` columns and `nrows` rows that the lines
/// describe.
fn build(rows: &Vec<Vec<char>>, cols: usize, nrows: usize) -> (m: Vec2D<Elem>)
    requires
        cols * nrows <= usize::MAX,
        rows_fit(listed(rows@), cols as int, nrows as int),
    ensures
        m.wf(),
        m.width == cols,
        m.height == nrows,
        forall|x: int, y: int|
            m@.in_bounds(x, y) ==> #[trigger] m@.at(x, y) == layout_cell(listed(rows@), x, y),
{
    let ghost lines = listed(rows@);
    let mut undl: Vec<Elem> = Vec::new();
    let mut y: usize = 0;
    assert(0 * cols == 0) by (nonlinear_arith);
    while y < nrows
        invariant
            y <= nrows,
            lines == listed(rows@),
            rows_fit(lines, cols as int, nrows as int),
            undl@.len() == y * cols,
            forall|xx: int, yy: int|
                0 <= xx < cols && 0 <= yy < y ==> (#[trigger] undl@[yy * cols + xx])@
                    == layout_cell(lines, xx, yy),
        decreases nrows - y,
    {
        let mut x: usize = 0;
        while x < cols
            invariant
                x <= cols,
                y < nrows,
                lines == listed(rows@),
                rows_fit(lines, cols as int, nrows as int),
                undl@.len() == y * cols + x,
                forall|xx: int, yy: int|
                    0 <= xx < cols && 0 <= yy < y ==> (#[trigger] undl@[yy * cols + xx])@
                        == layout_cell(lines, xx, yy),
                forall|xx: int|
                    0 <= xx < x ==> (#[trigger] undl@[y * cols + xx])@ == layout_cell(
                        lines,
                        xx,
                        y as int,
                    ),
            decreases cols - x,
        {
            proof {
                lemma_fits_kinds(lines, cols as int, nrows as int, x as int, y as int);
            }
            let e = cell(rows, x, y);
            let ghost before = undl@;
            undl.push(e);
            proof {
                assert forall|xx: int, yy: int| 0 <= xx < cols && 0 <= yy < y implies (
                #[trigger] undl@[yy * cols + xx])@ == layout_cell(lines, xx, yy) by {
                    lemma_row_major(cols as int, xx, yy, y as int);
                    assert(undl@[yy * cols + xx] == before[yy * cols + xx]);
                }
                assert forall|xx: int| 0 <= xx < x + 1 implies (#[trigger] undl@[y * cols + xx])@
                    == layout_cell(lines, xx, y as int) by {
                    if xx < x {
                        assert(undl@[y * cols + xx] == before[y * cols + xx]);
                    }
                }
            }
            x += 1;
        }
        assert((y + 1) * cols == y * cols + cols) by (nonlinear_arith);
        y += 1;
    }
    let m = Vec2D { width: cols, height: nrows, undl };
    proof {
        assert(nrows * cols == cols * nrows) by (nonlinear_arith);
        assert forall|x: int, y: int| m@.in_bounds(x, y) implies #[trigger] m@.at(x, y)
            == layout_cell(lines, x, y) by {
            lemma_row_major(cols as int, x, y, nrows as int);
            assert(m@.at(x, y) == m.undl@[y * cols + x]@);
        }
    }
    m
}

/// Whether every character of the lines asks what a grid of `cols`
/// columns and `nrows` rows can give.
fn check_rows(rows: &Vec<Vec<char>>, cols: usize, nrows: usize) -> (ok: bool)
    ensures
        ok == rows_fit(listed(rows@), cols as int, nrows as int),
{
    let ghost lines = listed(rows@);
    let mut r: usize = 0;
    while r < rows.len()
        invariant
            r <= rows.len(),
            lines == listed(rows@),
            forall|rr: int, cc: int|
                0 <= rr < r && 0 <= cc < lines[rr].len() ==> #[trigger] spot_ok(
                    lines,
                    cols as int,
                    nrows as int,
                    rr,
                    cc,
                ),
        decreases rows.len() - r,
    {
        let line = &rows[r];
        let mut c: usize = 0;
        while c < line.len()
            invariant
                c <= line.len(),
                r < rows.len(),
                line@ == lines[r as int],
                lines == listed(rows@),
                forall|rr: int, cc: int|
                    0 <= rr < r && 0 <= cc < lines[rr].len() ==> #[trigger] spot_ok(
                        lines,
                        cols as int,
                        nrows as int,
                        rr,
                        cc,
                    ),
                forall|cc: int|
                    0 <= cc < c ==> #[trigger] spot_ok(lines, cols as int, nrows as int, r as int, cc),
            decreases line.len() - c,
        {
            let ch = line[c];
            let mut good = true;
            if r % 2 == 0 && c % 3 == 0 {
                let extra = if c + 1 < line.len() { line[c + 1] } else { ' ' };
                good = c / 3 < cols && r / 2 < nrows && kind_known(ch, extra);
            } else if r % 2 == 0 && c % 3 == 2 && ch == '-' {
                good = c / 3 + 1 < cols && r / 2 < nrows;
            } else if r % 2 == 1 && c % 3 == 0 && ch == '|' {
                good = c / 3 < cols && r / 2 + 1 < nrows;
            }
            assert(good == spot_ok(lines, cols as int, nrows as int, r as int, c as int));
            if !good {
                return false;
            }
            c += 1;
        }
        r += 1;
    }
    true
}

impl Vec2D<Elem> {
    /// Whether `map` is a layout: see [`fits`].
    pub fn is_layout(map: &str) -> (ok: bool)
        ensures
            ok == fits(map@),
    {
        let rows = split_rows(map);
        proof {
            lemma_first_row(map@);
            assert(listed(rows@).len() == rows@.len());
        }
        if rows.len() == 0 {
            return false;
        }
        let n = map.unicode_len();
        let width = rows[0].len();
        proof {
            assert(listed(rows@)[0] == rows@[0]@);
            lemma_grid_size(n as int, width as int);
        }
        let height = n / width;
        let nrows = height / 2 + 1;
        let cols = if width % 3 == 0 { width / 3 } else { width / 3 + 1 };
        check_rows(&rows, cols, nrows)
    }

    /// The grid that the layout `map` describes: the cell at column `x` of
    /// row `y` is [`layout_cell`]`(rows_of(map), x, y)`, with no car on it.
    pub fn from_str(map: &str) -> (m: Vec2D<Elem>)
        requires
            fits(map@),
        ensures
            m.wf(),
            laid_out(map@, m@),
            m@.contained(),
    {
        let rows = split_rows(map);
        let n = map.unicode_len();
        proof {
            lemma_first_row(map@);
            assert(listed(rows@).len() == rows@.len());
        }
        let width = rows[0].len();
        proof {
            assert(listed(rows@)[0] == rows@[0]@);
            lemma_grid_size(n as int, width as int);
        }
        let height = n / width;
        let nrows = height / 2 + 1;
        let cols = if width % 3 == 0 { width / 3 } else { width / 3 + 1 };
        let m = build(&rows, cols, nrows);
        proof {
            lemma_laid_out_contained(map@, m@);
        }
        m
    }

    /// The grid that `map` describes, or `None` where `map` is no layout.
    pub fn parse(map: &str) -> (r: Option<Vec2D<Elem>>)
        ensures
            r is Some <==> fits(map@),
            r matches Some(m) ==> m.wf() && laid_out(map@, m@) && m@.contained(),
    {
        if Self::is_layout(map) {
            Some(Self::from_str(map))
        } else {
            None
        }
    }
}

} // verus!
