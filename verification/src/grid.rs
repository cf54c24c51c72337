//! The coordinate system: positions, directions, and the fixed-size grid
//! that maps positions to row-major indices and moves them one step at a
//! time without ever leaving the grid.

use vstd::prelude::*;
use vstd::string::StrSliceExecFns;

verus! {

/// State of one cell of the visible buffer.
#[derive(Clone, Copy, Debug, PartialEq, Eq, Structural)]
pub enum Cell {
    Inactive,
    Active,
}

/// A cell of the grid, by column `x` and row `y`. Row 0 is the top row.
#[derive(Clone, Copy, Debug, PartialEq, Eq, Structural)]
pub struct Position {
    pub x: u32,
    pub y: u32,
}

/// The four cardinal directions. `Up` is towards row 0.
#[derive(Clone, Copy, Debug, PartialEq, Eq, Structural)]
pub enum Direction {
    Up,
    Right,
    Down,
    Left,
}

/// A position lies outside the grid.
#[derive(Clone, Copy, Debug, PartialEq, Eq, Structural)]
pub struct BoundsError;

/// A movement token is none of "up", "right", "down", "left".
#[derive(Clone, Copy, Debug, PartialEq, Eq, Structural)]
pub struct InvalidDirection;

/// A rectangular grid of `width` columns and `height` rows.
#[derive(Clone, Copy, Debug, PartialEq, Eq, Structural)]
pub struct Grid {
    pub height: u32,
    pub width: u32,
}

impl Position {
    /// The cell in column `x` of row `y`.
    pub fn new(x: u32, y: u32) -> (position: Position)
        ensures
            position.x == x,
            position.y == y,
    {
        Position { x, y }
    }
}

impl Direction {
    /// The direction that a movement token names, if it names one.
    pub open spec fn parse(token: Seq<char>) -> Option<Direction> {
        if token == "up"@ {
            Some(Direction::Up)
        } else if token == "right"@ {
            Some(Direction::Right)
        } else if token == "down"@ {
            Some(Direction::Down)
        } else if token == "left"@ {
            Some(Direction::Left)
        } else {
            None
        }
    }

    /// Parses a movement token: "up", "right", "down" or "left". Any other
    /// token is reported as `InvalidDirection`.
    pub fn from_str(input: &str) -> (result: Result<Direction, InvalidDirection>)
        ensures
            result == match Direction::parse(input@) {
                Some(direction) => Ok::<Direction, InvalidDirection>(direction),
                None => Err(InvalidDirection),
            },
    {
        if same_text(input, "up") {
            Ok(Direction::Up)
        } else if same_text(input, "right") {
            Ok(Direction::Right)
        } else if same_text(input, "down") {
            Ok(Direction::Down)
        } else if same_text(input, "left") {
            Ok(Direction::Left)
        } else {
            Err(InvalidDirection)
        }
    }
}

/// Whether two strings hold the same characters.
fn same_text(a: &str, b: &str) -> (same: bool)
    ensures
        same == (a@ == b@),
{
    let n = a.unicode_len();
    if n != b.unicode_len() {
        return false;
    }
    let mut i: usize = 0;
    while i < n
        invariant
            i <= n,
            n == a@.len(),
            n == b@.len(),
            forall|j: int| 0 <= j < i ==> a@[j] == b@[j],
        decreases n - i,
    {
        if a.get_char(i) != b.get_char(i) {
            return false;
        }
        i += 1;
    }
    assert(a@ =~= b@);
    true
}

impl Grid {
    /// A grid has at least one cell, and the index of every cell fits in 32 bits.
    pub open spec fn wf(&self) -> bool {
        &&& self.width >= 1
        &&& self.height >= 1
        &&& self.width * self.height <= u32::MAX
    }

    /// Number of cells.
    pub open spec fn area(&self) -> int {
        self.width * self.height
    }

    /// Whether `p` is a cell of this grid.
    pub open spec fn contains(&self, p: Position) -> bool {
        p.x < self.width && p.y < self.height
    }

    /// Row-major index of column `x` in row `y`.
    pub open spec fn index_of(&self, x: int, y: int) -> int {
        y * self.width + x
    }

    /// Row-major index of `p`.
    pub open spec fn index(&self, p: Position) -> int {
        self.index_of(p.x as int, p.y as int)
    }

    /// The cell whose row-major index is `i`.
    pub open spec fn position_at(&self, i: int) -> Position {
        Position { x: (i % (self.width as int)) as u32, y: (i / (self.width as int)) as u32 }
    }

    /// One step from `p` in direction `d`, clamped at each edge: a step that
    /// would carry a coordinate past an edge leaves the position unchanged.
    pub open spec fn step(&self, p: Position, d: Direction) -> Position {
        match d {
            Direction::Up => if p.y == 0 {
                p
            } else {
                Position { x: p.x, y: (p.y - 1) as u32 }
            },
            Direction::Right => if p.x + 1 >= self.width {
                p
            } else {
                Position { x: (p.x + 1) as u32, y: p.y }
            },
            Direction::Down => if p.y + 1 >= self.height {
                p
            } else {
                Position { x: p.x, y: (p.y + 1) as u32 }
            },
            Direction::Left => if p.x == 0 {
                p
            } else {
                Position { x: (p.x - 1) as u32, y: p.y }
            },
        }
    }

    /// The cell reached from `p` by `n` steps in direction `d`.
    pub open spec fn steps(&self, p: Position, d: Direction, n: nat) -> Position
        decreases n,
    {
        if n == 0 {
            p
        } else {
            self.step(self.steps(p, d, (n - 1) as nat), d)
        }
    }

    /// Number of steps that a cell `p` of the grid can make in direction `d`
    /// before the edge stops it.
    pub open spec fn room(&self, p: Position, d: Direction) -> int {
        match d {
            Direction::Up => p.y as int,
            Direction::Right => self.width - 1 - p.x,
            Direction::Down => self.height - 1 - p.y,
            Direction::Left => p.x as int,
        }
    }

    /// Whether `p` sits on the edge that a step in direction `d` runs into.
    pub open spec fn at_edge(&self, p: Position, d: Direction) -> bool {
        match d {
            Direction::Up => p.y == 0,
            Direction::Right => p.x + 1 == self.width,
            Direction::Down => p.y + 1 == self.height,
            Direction::Left => p.x == 0,
        }
    }

    /// A grid of `width` columns and `height` rows.
    pub fn new(width: u32, height: u32) -> (grid: Grid)
        ensures
            grid.width == width,
            grid.height == height,
    {
        Grid { width, height }
    }

    /// Whether the grid has at least one cell and no more than 32 bits can
    /// count: what the universe asks of its grid.
    pub fn is_valid(&self) -> (valid: bool)
        ensures
            valid == self.wf(),
    {
        if self.width == 0 || self.height == 0 {
            return false;
        }
        match self.width.checked_mul(self.height) {
            Some(_) => true,
            None => false,
        }
    }

    /// Whether `position` is a cell of the grid.
    pub fn holds(&self, position: &Position) -> (inside: bool)
        ensures
            inside == self.contains(*position),
    {
        position.x < self.width && position.y < self.height
    }

    /// Row-major index `row * width + column`.
    pub fn get_index(&self, column: u32, row: u32) -> (index: usize)
        requires
            row * self.width + column <= usize::MAX,
        ensures
            index == self.index_of(column as int, row as int),
    {
        assert(row * self.width <= usize::MAX) by (nonlinear_arith)
            requires
                row * self.width + column <= usize::MAX,
                column >= 0,
        ;
        (row as usize) * (self.width as usize) + (column as usize)
    }

    /// The position one step from `position` in `direction`, or `position`
    /// itself where the step would cross an edge of the grid.
    pub fn position_in_direction(&self, position: &Position, direction: &Direction) -> (moved:
        Position)
        ensures
            moved == self.step(*position, *direction),
            self.contains(*position) ==> self.contains(moved),
    {
        match direction {
            Direction::Up => {
                if position.y == 0 {
                    Position { x: position.x, y: position.y }
                } else {
                    Position { x: position.x, y: position.y - 1 }
                }
            },
            Direction::Right => {
                if position.x >= self.width || position.x == self.width - 1 {
                    Position { x: position.x, y: position.y }
                } else {
                    Position { x: position.x + 1, y: position.y }
                }
            },
            Direction::Down => {
                if position.y >= self.height || position.y == self.height - 1 {
                    Position { x: position.x, y: position.y }
                } else {
                    Position { x: position.x, y: position.y + 1 }
                }
            },
            Direction::Left => {
                if position.x == 0 {
                    Position { x: position.x, y: position.y }
                } else {
                    Position { x: position.x - 1, y: position.y }
                }
            },
        }
    }

    /// Row-major index of `position`, or `BoundsError` where it lies outside
    /// the grid.
    pub fn get_index_from_position(&self, position: &Position) -> (result: Result<
        usize,
        BoundsError,
    >)
        requires
            self.wf(),
        ensures
            result.is_ok() <==> self.contains(*position),
            result matches Ok(index) ==> index == self.index(*position) && index < self.area(),
    {
        if position.x >= self.width {
            return Err(BoundsError);
        }
        if position.y >= self.height {
            return Err(BoundsError);
        }
        proof {
            lemma_index_in_range(*self, *position);
        }
        Ok(self.get_index(position.x, position.y))
    }
}

/// The cell that lies `n` cells from `p` in direction `d`.
pub open spec fn offset(p: Position, d: Direction, n: int) -> Position {
    match d {
        Direction::Up => Position { x: p.x, y: (p.y - n) as u32 },
        Direction::Right => Position { x: (p.x + n) as u32, y: p.y },
        Direction::Down => Position { x: p.x, y: (p.y + n) as u32 },
        Direction::Left => Position { x: (p.x - n) as u32, y: p.y },
    }
}

/// Clamping is idempotent: a step that an edge stops changes nothing, so at
/// an edge two steps give what one step gives.
pub proof fn lemma_step_idempotent_at_edge(grid: Grid, p: Position, d: Direction)
    requires
        grid.at_edge(p, d),
    ensures
        grid.step(p, d) == p,
        grid.step(grid.step(p, d), d) == grid.step(p, d),
{
}

/// At an edge, any number of steps towards it leaves a position where it is.
pub proof fn lemma_steps_stop_at_edge(grid: Grid, p: Position, d: Direction, n: nat)
    requires
        grid.at_edge(p, d),
    ensures
        grid.steps(p, d, n) == p,
    decreases n,
{
    if n > 0 {
        lemma_steps_stop_at_edge(grid, p, d, (n - 1) as nat);
    }
}

/// Steps never leave the grid and never overshoot: from a cell of the grid,
/// `n` steps lead `n` cells away while there is room, and to the cell at
/// the edge from then on.
pub proof fn lemma_steps_clamp(grid: Grid, p: Position, d: Direction, n: nat)
    requires
        grid.contains(p),
    ensures
        grid.contains(grid.steps(p, d, n)),
        grid.steps(p, d, n) == if n <= grid.room(p, d) {
            offset(p, d, n as int)
        } else {
            offset(p, d, grid.room(p, d))
        },
    decreases n,
{
    if n > 0 {
        lemma_steps_clamp(grid, p, d, (n - 1) as nat);
    }
}

/// Every cell of the grid has an index below the number of cells.
pub proof fn lemma_index_in_range(grid: Grid, p: Position)
    requires
        grid.contains(p),
    ensures
        0 <= grid.index(p) < grid.area(),
{
    let (x, y, w, h) = (p.x as int, p.y as int, grid.width as int, grid.height as int);
    assert(y * w + x < w * h) by (nonlinear_arith)
        requires
            0 <= x < w,
            0 <= y < h,
    ;
    assert(0 <= y * w + x) by (nonlinear_arith)
        requires
            0 <= x,
            0 <= y,
            0 <= w,
    ;
}

/// The index determines the cell: `position_at` undoes `index`.
pub proof fn lemma_position_at_index(grid: Grid, p: Position)
    requires
        grid.contains(p),
    ensures
        grid.position_at(grid.index(p)) == p,
{
    let (x, y, w) = (p.x as int, p.y as int, grid.width as int);
    vstd::arithmetic::div_mod::lemma_fundamental_div_mod_converse(y * w + x, w, y, x);
}

/// Every index below the number of cells belongs to a cell of the grid:
/// `index` undoes `position_at`.
pub proof fn lemma_index_position_at(grid: Grid, i: int)
    requires
        grid.wf(),
        0 <= i < grid.area(),
    ensures
        grid.contains(grid.position_at(i)),
        grid.index(grid.position_at(i)) == i,
{
    let (w, h) = (grid.width as int, grid.height as int);
    vstd::arithmetic::div_mod::lemma_fundamental_div_mod(i, w);
    vstd::arithmetic::div_mod::lemma_mod_bound(i, w);
    let (q, r) = (i / w, i % w);
    assert(0 <= q < h) by (nonlinear_arith)
        requires
            0 <= i < w * h,
            i == w * q + r,
            0 <= r < w,
    ;
    assert(w * q == q * w) by (nonlinear_arith);
}

} // verus!
