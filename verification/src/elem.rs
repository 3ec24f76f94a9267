//! Cells, cars and directions.

use vstd::prelude::*;
use vstd::std_specs::cmp::PartialEqSpecImpl;

verus! {

/// The colours a cube, house, button, bridge or car can have.
#[derive(Copy, Clone, Debug, PartialEq, Eq, Structural)]
pub enum Color {
    Red,
    Green,
    Blue,
    Yellow,
    White,
    Orange,
    Violet,
    Pink,
    Cream,
}

/// The colour a letter stands for, if any.
pub open spec fn color_of_char(c: char) -> Option<Color> {
    if c == 'r' {
        Some(Color::Red)
    } else if c == 'g' {
        Some(Color::Green)
    } else if c == 'b' {
        Some(Color::Blue)
    } else if c == 'y' {
        Some(Color::Yellow)
    } else if c == 'w' {
        Some(Color::White)
    } else if c == 'o' {
        Some(Color::Orange)
    } else if c == 'v' {
        Some(Color::Violet)
    } else if c == 'p' {
        Some(Color::Pink)
    } else if c == 'c' {
        Some(Color::Cream)
    } else {
        None
    }
}

impl Color {
    /// The terminal escape sequence that switches to this colour.
    pub open spec fn escape(self) -> Seq<char> {
        match self {
            Color::Red => "\x1b[38;5;9m"@,
            Color::Green => "\x1b[38;5;10m"@,
            Color::Blue => "\x1b[38;5;4m"@,
            Color::Yellow => "\x1b[38;5;11m"@,
            Color::White => "\x1b[38;5;234m"@,
            Color::Orange => "\x1b[38;5;202m"@,
            Color::Violet => "\x1b[38;5;5m"@,
            Color::Pink => "\x1b[38;5;207m"@,
            Color::Cream => "\x1b[38;5;223m"@,
        }
    }

    /// `s` wrapped in this colour's escape sequence and a reset.
    pub open spec fn colorized(self, s: Seq<char>) -> Seq<char> {
        self.escape() + s + "\x1b[0m"@
    }

    /// Wraps `s` in this colour's escape sequence and a reset.
    pub fn colorize(&self, s: &str) -> (r: String)
        ensures
            r@ == self.colorized(s@),
    {
        let code = match *self {
            Color::Red => "\x1b[38;5;9m",
            Color::Green => "\x1b[38;5;10m",
            Color::Blue => "\x1b[38;5;4m",
            Color::Yellow => "\x1b[38;5;11m",
            Color::White => "\x1b[38;5;234m",
            Color::Orange => "\x1b[38;5;202m",
            Color::Violet => "\x1b[38;5;5m",
            Color::Pink => "\x1b[38;5;207m",
            Color::Cream => "\x1b[38;5;223m",
        };
        let mut r = String::from_str(code);
        r.append(s);
        r.append("\x1b[0m");
        r
    }

    /// The colour a letter stands for, if any.
    pub fn from_char(c: char) -> (r: Option<Color>)
        ensures
            r == color_of_char(c),
    {
        match c {
            'r' => Some(Color::Red),
            'g' => Some(Color::Green),
            'b' => Some(Color::Blue),
            'y' => Some(Color::Yellow),
            'w' => Some(Color::White),
            'o' => Some(Color::Orange),
            'v' => Some(Color::Violet),
            'p' => Some(Color::Pink),
            'c' => Some(Color::Cream),
            _ => None,
        }
    }
}

/// The four directions a car can move in.
#[derive(Copy, Clone, Debug, Eq)]
pub enum Dir {
    Up,
    Right,
    Down,
    Left,
}

impl PartialEq for Dir {
    fn eq(&self, other: &Dir) -> (r: bool) {
        match (*self, *other) {
            (Dir::Up, Dir::Up) => true,
            (Dir::Right, Dir::Right) => true,
            (Dir::Down, Dir::Down) => true,
            (Dir::Left, Dir::Left) => true,
            _ => false,
        }
    }
}

impl PartialEqSpecImpl for Dir {
    open spec fn obeys_eq_spec() -> bool {
        true
    }

    open spec fn eq_spec(&self, other: &Dir) -> bool {
        *self == *other
    }
}

impl Dir {
    /// Position of this direction in a cell's connectivity flags.
    pub open spec fn slot(self) -> int {
        match self {
            Dir::Up => 0,
            Dir::Right => 1,
            Dir::Down => 2,
            Dir::Left => 3,
        }
    }

    /// The opposite direction.
    pub open spec fn spec_rev(self) -> Dir {
        match self {
            Dir::Up => Dir::Down,
            Dir::Right => Dir::Left,
            Dir::Down => Dir::Up,
            Dir::Left => Dir::Right,
        }
    }

    /// Change of the x coordinate when moving one cell in this direction.
    pub open spec fn dx(self) -> int {
        match self {
            Dir::Left => -1,
            Dir::Right => 1,
            _ => 0,
        }
    }

    /// Change of the y coordinate when moving one cell in this direction.
    pub open spec fn dy(self) -> int {
        match self {
            Dir::Up => -1,
            Dir::Down => 1,
            _ => 0,
        }
    }

    /// The arrow that stands for this direction.
    pub open spec fn arrow(self) -> Seq<char> {
        match self {
            Dir::Up => "↑"@,
            Dir::Right => "→"@,
            Dir::Down => "↓"@,
            Dir::Left => "←"@,
        }
    }

    /// Position of this direction in a cell's connectivity flags.
    pub fn index(&self) -> (i: usize)
        ensures
            i == self.slot(),
            i < 4,
    {
        match *self {
            Dir::Up => 0,
            Dir::Right => 1,
            Dir::Down => 2,
            Dir::Left => 3,
        }
    }

    /// The opposite direction.
    pub fn rev(&self) -> (r: Dir)
        ensures
            r == self.spec_rev(),
    {
        match *self {
            Dir::Up => Dir::Down,
            Dir::Right => Dir::Left,
            Dir::Down => Dir::Up,
            Dir::Left => Dir::Right,
        }
    }

    /// The arrow that stands for this direction, as text.
    pub fn to_text(&self) -> (r: String)
        ensures
            r@ == self.arrow(),
    {
        match *self {
            Dir::Up => String::from_str("↑"),
            Dir::Right => String::from_str("→"),
            Dir::Down => String::from_str("↓"),
            Dir::Left => String::from_str("←"),
        }
    }
}

/// What a cell holds.
#[derive(Copy, Clone, Debug, PartialEq, Eq, Structural)]
pub enum Type {
    Empty,
    Road,
    DropOn,
    DropOff,
    PushedButton(Color),
    ArmedButton(Color),
    OpenBridge(Color),
    ClosedBridge(Color),
    Cube(Color),
    House(Color),
    FullHouse(Color),
}

/// Mathematical model of a cell: one flag per direction, the kind, and
/// whether a car stands on it.
pub struct Cell {
    pub up: bool,
    pub right: bool,
    pub down: bool,
    pub left: bool,
    pub typ: Type,
    pub occupied: bool,
}

impl Cell {
    /// Whether the road segment leaving this cell in direction `dir` is open.
    pub open spec fn connected(self, dir: Dir) -> bool {
        match dir {
            Dir::Up => self.up,
            Dir::Right => self.right,
            Dir::Down => self.down,
            Dir::Left => self.left,
        }
    }

    /// This cell with the segment in direction `dir` set to `open`.
    pub open spec fn with_conn(self, dir: Dir, open: bool) -> Cell {
        match dir {
            Dir::Up => Cell { up: open, ..self },
            Dir::Right => Cell { right: open, ..self },
            Dir::Down => Cell { down: open, ..self },
            Dir::Left => Cell { left: open, ..self },
        }
    }

    /// This cell with another kind.
    pub open spec fn with_typ(self, typ: Type) -> Cell {
        Cell { typ, ..self }
    }

    /// This cell with another occupancy flag.
    pub open spec fn with_occupied(self, occupied: bool) -> Cell {
        Cell { occupied, ..self }
    }

    /// How many of the four segments are open.
    pub open spec fn open_segments(self) -> nat {
        (if self.up { 1nat } else { 0nat }) + (if self.right { 1nat } else { 0nat })
            + (if self.down { 1nat } else { 0nat }) + (if self.left { 1nat } else { 0nat })
    }

    /// A cell of kind `typ` with no open segment and no car.
    pub open spec fn isolated(typ: Type) -> Cell {
        Cell { up: false, right: false, down: false, left: false, typ, occupied: false }
    }
}

/// The kind that a pair of layout characters stands for: `c` names the
/// kind, `x` the colour of a button or bridge. `None` where a button or
/// bridge has no valid colour letter.
pub open spec fn type_of_chars(c: char, x: char) -> Option<Type> {
    if c == 'x' {
        Some(Type::Road)
    } else if c == 'r' {
        Some(Type::Cube(Color::Red))
    } else if c == 'R' {
        Some(Type::House(Color::Red))
    } else if c == 'g' {
        Some(Type::Cube(Color::Green))
    } else if c == 'G' {
        Some(Type::House(Color::Green))
    } else if c == 'b' {
        Some(Type::Cube(Color::Blue))
    } else if c == 'B' {
        Some(Type::House(Color::Blue))
    } else if c == 'y' {
        Some(Type::Cube(Color::Yellow))
    } else if c == 'Y' {
        Some(Type::House(Color::Yellow))
    } else if c == 'v' {
        match color_of_char(x) {
            Some(k) => Some(Type::PushedButton(k)),
            None => None,
        }
    } else if c == '^' {
        match color_of_char(x) {
            Some(k) => Some(Type::ArmedButton(k)),
            None => None,
        }
    } else if c == '~' {
        match color_of_char(x) {
            Some(k) => Some(Type::OpenBridge(k)),
            None => None,
        }
    } else if c == '#' {
        match color_of_char(x) {
            Some(k) => Some(Type::ClosedBridge(k)),
            None => None,
        }
    } else {
        Some(Type::Empty)
    }
}

/// Mathematical model of a car: its colour, its position, and the cargo
/// it holds, the most recently loaded item last.
pub struct CarModel {
    pub color: Color,
    pub x: int,
    pub y: int,
    pub cubes: Seq<Type>,
}

impl CarModel {
    /// The car holds at most three items.
    pub open spec fn within_capacity(self) -> bool {
        self.cubes.len() <= 3
    }

    /// This car one cell further in direction `dir`.
    pub open spec fn rolled(self, dir: Dir) -> CarModel {
        CarModel { x: self.x + dir.dx(), y: self.y + dir.dy(), ..self }
    }

    /// This car with `t` loaded on top of its cargo.
    pub open spec fn loaded(self, t: Type) -> CarModel {
        CarModel { cubes: self.cubes.push(t), ..self }
    }

    /// This car without the top item of its cargo.
    pub open spec fn unloaded(self) -> CarModel {
        CarModel { cubes: self.cubes.drop_last(), ..self }
    }
}

/// A car: its colour, its position as (column, row), and its cargo.
#[derive(Debug)]
pub struct Car {
    pub color: Color,
    pub coord: (usize, usize),
    pub cubes: Vec<Type>,
}

impl View for Car {
    type V = CarModel;

    open spec fn view(&self) -> CarModel {
        CarModel {
            color: self.color,
            x: self.coord.0 as int,
            y: self.coord.1 as int,
            cubes: self.cubes@,
        }
    }
}

impl Clone for Car {
    fn clone(&self) -> (r: Car)
        ensures
            r@ == self@,
    {
        let mut cubes: Vec<Type> = Vec::new();
        let mut i: usize = 0;
        while i < self.cubes.len()
            invariant
                i <= self.cubes.len(),
                cubes@ == self.cubes@.subrange(0, i as int),
            decreases self.cubes.len() - i,
        {
            cubes.push(self.cubes[i]);
            i += 1;
            assert(cubes@ =~= self.cubes@.subrange(0, i as int));
        }
        assert(cubes@ =~= self.cubes@);
        Car { color: self.color, coord: self.coord, cubes }
    }
}

impl Car {
    /// An empty car of the given colour at column `x` of row `y`.
    pub fn new(x: usize, y: usize, color: Color) -> (r: Car)
        ensures
            r@ == (CarModel { color, x: x as int, y: y as int, cubes: Seq::empty() }),
    {
        Car { color, coord: (x, y), cubes: Vec::new() }
    }

    /// Moves the car one cell in direction `dir`.
    pub fn roll(&mut self, dir: Dir)
        requires
            0 <= old(self)@.x + dir.dx() <= usize::MAX,
            0 <= old(self)@.y + dir.dy() <= usize::MAX,
        ensures
            final(self)@ == old(self)@.rolled(dir),
    {
        match dir {
            Dir::Left => self.coord.0 -= 1,
            Dir::Up => self.coord.1 -= 1,
            Dir::Right => self.coord.0 += 1,
            Dir::Down => self.coord.1 += 1,
        }
    }
}

/// Whether a pair of layout characters stands for a kind: a button or a
/// bridge needs a colour letter, everything else is known.
pub fn kind_known(c: char, x: char) -> (r: bool)
    ensures
        r == type_of_chars(c, x) is Some,
{
    match c {
        'v' | '^' | '~' | '#' => Color::from_char(x).is_some(),
        _ => true,
    }
}

/// One grid position: which of its four road segments are still open
/// (indexed by [`Dir::index`]), what it holds, and whether a car stands on
/// it.
#[derive(Copy, Clone, Debug)]
pub struct Elem {
    pub conn: [bool; 4],
    pub typ: Type,
    pub occupied: bool,
}

impl View for Elem {
    type V = Cell;

    open spec fn view(&self) -> Cell {
        Cell {
            up: self.conn@[0],
            right: self.conn@[1],
            down: self.conn@[2],
            left: self.conn@[3],
            typ: self.typ,
            occupied: self.occupied,
        }
    }
}

impl Elem {
    /// The cell that a pair of layout characters stands for, with no open
    /// segment and no car on it.
    pub fn from_char(c: char, x: char) -> (r: Elem)
        requires
            type_of_chars(c, x) is Some,
        ensures
            r@ == Cell::isolated(type_of_chars(c, x)->0),
    {
        let typ = match c {
            'x' => Type::Road,
            'r' => Type::Cube(Color::Red),
            'R' => Type::House(Color::Red),
            'g' => Type::Cube(Color::Green),
            'G' => Type::House(Color::Green),
            'b' => Type::Cube(Color::Blue),
            'B' => Type::House(Color::Blue),
            'y' => Type::Cube(Color::Yellow),
            'Y' => Type::House(Color::Yellow),
            'v' => Type::PushedButton(Color::from_char(x).unwrap()),
            '^' => Type::ArmedButton(Color::from_char(x).unwrap()),
            '~' => Type::OpenBridge(Color::from_char(x).unwrap()),
            '#' => Type::ClosedBridge(Color::from_char(x).unwrap()),
            _ => Type::Empty,
        };
        Elem { conn: [false, false, false, false], typ, occupied: false }
    }

    /// Opens the segment in direction `dir`.
    pub fn connect(&mut self, dir: Dir)
        ensures
            final(self)@ == old(self)@.with_conn(dir, true),
    {
        self.conn[dir.index()] = true;
    }

    /// Closes the segment in direction `dir`.
    pub fn disconnect(&mut self, dir: Dir)
        ensures
            final(self)@ == old(self)@.with_conn(dir, false),
    {
        self.conn[dir.index()] = false;
    }

    /// Whether the segment in direction `dir` is open.
    pub fn connected(&self, dir: Dir) -> (r: bool)
        ensures
            r == self@.connected(dir),
    {
        self.conn[dir.index()]
    }
}

impl Default for Elem {
    /// An empty cell with no open segment and no car.
    fn default() -> (r: Elem)
        ensures
            r@ == Cell::isolated(Type::Empty),
    {
        Elem { conn: [false, false, false, false], typ: Type::Empty, occupied: false }
    }
}

} // verus!
