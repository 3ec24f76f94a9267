//! Text for the terminal: cells, cars and grids, and the runs of equal
//! moves by which a car's path is summed up.

use vstd::prelude::*;
use vstd::std_specs::cmp::PartialEqSpec;
use crate::elem::{Car, Cell, Color, Dir, Elem, Type};
use crate::map::Grid;
use crate::vec2d::Vec2D;

verus! {

/// The items that a list of runs stands for: each item as often as its
/// run is long.
pub open spec fn expand<T>(runs: Seq<(T, usize)>) -> Seq<T>
    decreases runs.len(),
{
    if runs.len() == 0 {
        Seq::empty()
    } else {
        expand(runs.drop_last()) + Seq::new(runs.last().1 as nat, |i: int| runs.last().0)
    }
}

/// Sums up a list as runs of equal items: each run is an item and the
/// number of times it stands in a row. No run is empty, and two runs that
/// follow each other hold different items.
pub fn group<T: Eq + Copy>(v: Vec<T>) -> (r: Vec<(T, usize)>)
    requires
        T::obeys_eq_spec(),
        forall|a: T, b: T| #[trigger] a.eq_spec(&b) <==> a == b,
    ensures
        expand(r@) == v@,
        forall|i: int| 0 <= i < r@.len() ==> (#[trigger] r@[i]).1 >= 1,
        forall|i: int| 0 <= i < r@.len() - 1 ==> (#[trigger] r@[i]).0 != r@[i + 1].0,
{
    let mut r: Vec<(T, usize)> = Vec::new();
    if v.len() == 0 {
        assert(expand(r@) =~= v@);
        return r;
    }
    let mut last: T = v[0];
    let mut n: usize = 1;
    let mut i: usize = 1;
    assert(expand(r@) + Seq::new(1, |k: int| last) =~= v@.take(1));
    while i < v.len()
        invariant
            1 <= i <= v.len(),
            1 <= n <= i,
            T::obeys_eq_spec(),
            forall|a: T, b: T| #[trigger] a.eq_spec(&b) <==> a == b,
            expand(r@) + Seq::new(n as nat, |k: int| last) == v@.take(i as int),
            forall|k: int| 0 <= k < r@.len() ==> (#[trigger] r@[k]).1 >= 1,
            forall|k: int| 0 <= k < r@.len() - 1 ==> (#[trigger] r@[k]).0 != r@[k + 1].0,
            r@.len() > 0 ==> r@.last().0 != last,
        decreases v.len() - i,
    {
        let x = v[i];
        let ghost done = expand(r@);
        let ghost run = Seq::new(n as nat, |k: int| last);
        if x != last {
            let ghost before = r@;
            r.push((last, n));
            proof {
                assert(r@.drop_last() =~= before);
                assert(expand(r@) == done + run);
                assert(expand(r@) + Seq::new(1, |k: int| x) =~= v@.take(i + 1));
            }
            n = 0;
            last = x;
        } else {
            proof {
                assert(x.eq_spec(&last));
                assert(v@.take(i + 1) =~= v@.take(i as int).push(x));
                assert(done + Seq::new((n + 1) as nat, |k: int| last) =~= (done + run).push(x));
            }
        }
        n += 1;
        i += 1;
    }
    let ghost before = r@;
    let ghost done = expand(r@);
    let ghost run = Seq::new(n as nat, |k: int| last);
    r.push((last, n));
    proof {
        assert(r@.drop_last() =~= before);
        assert(expand(r@) == done + run);
        assert(v@.take(v@.len() as int) =~= v@);
    }
    r
}

/// The character of a decimal digit.
pub open spec fn digit_text(d: nat) -> Seq<char> {
    if d == 0 {
        "0"@
    } else if d == 1 {
        "1"@
    } else if d == 2 {
        "2"@
    } else if d == 3 {
        "3"@
    } else if d == 4 {
        "4"@
    } else if d == 5 {
        "5"@
    } else if d == 6 {
        "6"@
    } else if d == 7 {
        "7"@
    } else if d == 8 {
        "8"@
    } else {
        "9"@
    }
}

/// A number in decimal notation, without leading zeros.
pub open spec fn decimal_text(n: nat) -> Seq<char>
    decreases n,
{
    if n < 10 {
        digit_text(n)
    } else {
        decimal_text(n / 10) + digit_text(n % 10)
    }
}

/// The runs in which a car moves, each as its length and the arrow of its
/// direction, followed by a blank. Runs in which the car waits are left
/// out.
pub open spec fn runs_text(runs: Seq<(Option<Dir>, usize)>) -> Seq<char>
    decreases runs.len(),
{
    if runs.len() == 0 {
        Seq::empty()
    } else {
        runs_text(runs.drop_last()) + match runs.last().0 {
            Some(d) => decimal_text(runs.last().1 as nat) + d.arrow() + " "@,
            None => Seq::empty(),
        }
    }
}

/// A number in decimal notation: see [`decimal_text`].
pub fn decimal(n: usize) -> (r: String)
    ensures
        r@ == decimal_text(n as nat),
    decreases n,
{
    let digit = match n % 10 {
        0 => "0",
        1 => "1",
        2 => "2",
        3 => "3",
        4 => "4",
        5 => "5",
        6 => "6",
        7 => "7",
        8 => "8",
        _ => "9",
    };
    if n < 10 {
        String::from_str(digit)
    } else {
        let mut r = decimal(n / 10);
        r.append(digit);
        r
    }
}

/// The moves of a car, summed up run by run: see [`runs_text`].
pub fn moves_text(runs: &Vec<(Option<Dir>, usize)>) -> (r: String)
    ensures
        r@ == runs_text(runs@),
{
    let mut out = String::new();
    let mut i: usize = 0;
    assert(runs@.take(0) =~= Seq::empty());
    while i < runs.len()
        invariant
            i <= runs.len(),
            out@ == runs_text(runs@.take(i as int)),
        decreases runs.len() - i,
    {
        let (dir, n) = runs[i];
        proof {
            assert(runs@.take(i + 1).drop_last() =~= runs@.take(i as int));
            assert(runs@.take(i + 1).last() == runs@[i as int]);
        }
        let ghost before = out@;
        if let Some(d) = dir {
            out.append(decimal(n).as_str());
            out.append(d.to_text().as_str());
            out.append(" ");
            assert(out@ =~= before + (decimal_text(n as nat) + d.arrow() + " "@));
        } else {
            assert(out@ =~= before + Seq::<char>::empty());
        }
        i += 1;
    }
    assert(runs@.take(runs@.len() as int) =~= runs@);
    out
}

/// The text that stands for a cell.
pub open spec fn cell_text(cell: Cell) -> Seq<char> {
    match cell.typ {
        Type::Empty => " "@,
        Type::Road => "x"@,
        Type::DropOn => "D"@,
        Type::DropOff => "d"@,
        Type::PushedButton(c) => c.colorized("🔳"@),
        Type::ArmedButton(c) => c.colorized("🔲"@),
        Type::OpenBridge(c) => c.colorized("≋"@),
        Type::ClosedBridge(c) => c.colorized("⌒"@),
        Type::Cube(c) => c.colorized("📦"@),
        Type::House(c) => c.colorized("🏫"@),
        Type::FullHouse(c) => c.colorized("🏫"@),
    }
}

/// The text that stands for a car of colour `c`.
pub open spec fn car_text(c: Color) -> Seq<char> {
    c.colorized("🚚"@)
}

/// The cells `0..upto` of row `y`, each followed by `--` where a road
/// leads right and by two blanks where none does.
pub open spec fn row_text(g: Grid, y: int, upto: int) -> Seq<char>
    decreases upto,
{
    if upto <= 0 {
        Seq::empty()
    } else {
        row_text(g, y, upto - 1) + cell_text(g.at(upto - 1, y)) + if g.at(upto - 1, y).right {
            "--"@
        } else {
            "  "@
        }
    }
}

/// The line below the cells `0..upto` of row `y`: `|` where a road leads
/// down and a blank where none does, each followed by two blanks.
pub open spec fn below_text(g: Grid, y: int, upto: int) -> Seq<char>
    decreases upto,
{
    if upto <= 0 {
        Seq::empty()
    } else {
        below_text(g, y, upto - 1) + (if g.at(upto - 1, y).down {
            "|"@
        } else {
            " "@
        }) + "  "@
    }
}

/// The rows `0..upto` of the grid: for each row the line of its cells and
/// the line below it, with a line break between them and between rows.
pub open spec fn grid_text(g: Grid, upto: int) -> Seq<char>
    decreases upto,
{
    if upto <= 0 {
        Seq::empty()
    } else {
        grid_text(g, upto - 1) + (if upto > 1 {
            "\n"@
        } else {
            ""@
        }) + row_text(g, upto - 1, g.width) + "\n"@ + below_text(g, upto - 1, g.width)
    }
}

impl Elem {
    /// The text that stands for this cell.
    pub fn to_text(&self) -> (r: String)
        ensures
            r@ == cell_text(self@),
    {
        match self.typ {
            Type::Empty => String::from_str(" "),
            Type::Road => String::from_str("x"),
            Type::DropOn => String::from_str("D"),
            Type::DropOff => String::from_str("d"),
            Type::PushedButton(c) => c.colorize("🔳"),
            Type::ArmedButton(c) => c.colorize("🔲"),
            Type::OpenBridge(c) => c.colorize("≋"),
            Type::ClosedBridge(c) => c.colorize("⌒"),
            Type::Cube(c) => c.colorize("📦"),
            Type::House(c) => c.colorize("🏫"),
            Type::FullHouse(c) => c.colorize("🏫"),
        }
    }
}

impl Car {
    /// The text that stands for this car.
    pub fn to_text(&self) -> (r: String)
        ensures
            r@ == car_text(self@.color),
    {
        self.color.colorize("🚚")
    }
}

impl Vec2D<Elem> {
    /// The grid as text: see [`grid_text`].
    pub fn to_text(&self) -> (r: String)
        requires
            self.wf(),
            self.width > 0,
        ensures
            r@ == grid_text(self@, self@.height),
    {
        let mut out = String::new();
        let mut y: usize = 0;
        assert(out@ =~= grid_text(self@, 0));
        while y < self.height
            invariant
                y <= self.height,
                self.wf(),
                out@ == grid_text(self@, y as int),
            decreases self.height - y,
        {
            let ghost start = out@;
            if y > 0 {
                out.append("\n");
            } else {
                proof {
                    reveal_strlit("");
                }
                assert(out@ =~= start + ""@);
            }
            let ghost head = out@;
            let mut x: usize = 0;
            assert(out@ =~= head + row_text(self@, y as int, 0));
            while x < self.width
                invariant
                    x <= self.width,
                    y < self.height,
                    self.wf(),
                    out@ == head + row_text(self@, y as int, x as int),
                decreases self.width - x,
            {
                let e = self.get(x, y);
                proof {
                    self@.lemma_index(x as int, y as int);
                    assert(self@.at(x as int, y as int) == e@);
                }
                let ghost line = out@;
                out.append(e.to_text().as_str());
                if e.connected(Dir::Right) {
                    out.append("--");
                } else {
                    out.append("  ");
                }
                x += 1;
                assert(out@ =~= head + row_text(self@, y as int, x as int));
            }
            out.append("\n");
            let ghost mid = out@;
            let mut x: usize = 0;
            assert(out@ =~= mid + below_text(self@, y as int, 0));
            while x < self.width
                invariant
                    x <= self.width,
                    y < self.height,
                    self.wf(),
                    out@ == mid + below_text(self@, y as int, x as int),
                decreases self.width - x,
            {
                let e = self.get(x, y);
                proof {
                    self@.lemma_index(x as int, y as int);
                    assert(self@.at(x as int, y as int) == e@);
                }
                if e.connected(Dir::Down) {
                    out.append("|");
                } else {
                    out.append(" ");
                }
                out.append("  ");
                x += 1;
                assert(out@ =~= mid + below_text(self@, y as int, x as int));
            }
            y += 1;
            assert(out@ =~= grid_text(self@, y as int));
        }
        out
    }
}

} // verus!
