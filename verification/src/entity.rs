//! What the simulated objects have in common, the cells they occupy, and
//! the bullet: a projectile that flies one cell per step until it meets an
//! edge of the grid.

use crate::grid::{offset, Direction, Grid, Position};
use vstd::prelude::*;

verus! {

/// An object that occupies cells of the grid.
pub trait Renderable {
    /// The cells that the object occupies, in the order in which `render`
    /// lists them.
    spec fn occupied(&self) -> Seq<Position>;

    /// The cells that the object occupies. An object that lists none is not
    /// drawn and takes part in no collision.
    fn render(&self) -> (cells: Vec<&Position>)
        ensures
            cells@.len() == self.occupied().len(),
            forall|i: int| 0 <= i < cells@.len() ==> *cells@[i] == self.occupied()[i],
    ;
}

/// A projectile. An inactive bullet occupies no cell.
#[derive(Clone, Copy, Debug, PartialEq, Eq, Structural)]
pub struct Bullet {
    pub active: bool,
    pub position: Position,
    pub direction: Direction,
}

impl Bullet {
    /// The bullet after one step of flight: a cell further in its direction,
    /// or inactive where the grid ends. An inactive bullet stays as it is.
    pub open spec fn advanced(self, grid: Grid) -> Bullet {
        if !self.active {
            self
        } else if grid.step(self.position, self.direction) == self.position {
            Bullet { active: false, position: self.position, direction: self.direction }
        } else {
            Bullet {
                active: true,
                position: grid.step(self.position, self.direction),
                direction: self.direction,
            }
        }
    }

    /// The bullet after `n` steps of flight.
    pub open spec fn advanced_by(self, grid: Grid, n: nat) -> Bullet
        decreases n,
    {
        if n == 0 {
            self
        } else {
            self.advanced_by(grid, (n - 1) as nat).advanced(grid)
        }
    }

    /// A bullet at rest: inactive, in the top left cell, pointing up.
    pub fn new() -> (bullet: Bullet)
        ensures
            bullet == (Bullet {
                active: false,
                position: Position { x: 0, y: 0 },
                direction: Direction::Up,
            }),
    {
        Bullet { active: false, position: Position { x: 0, y: 0 }, direction: Direction::Up }
    }

    /// Moves an active bullet one cell in its direction. A bullet whose
    /// step is stopped by an edge of the grid becomes inactive where it is.
    pub fn advance(&mut self, grid: &Grid)
        ensures
            *final(self) == old(self).advanced(*grid),
            grid.contains(old(self).position) ==> grid.contains(final(self).position),
    {
        if !self.active {
            return ;
        }
        let new_position = grid.position_in_direction(&self.position, &self.direction);
        if new_position == self.position {
            self.active = false;
        } else {
            self.position = new_position;
        }
    }
}

impl Renderable for Bullet {
    open spec fn occupied(&self) -> Seq<Position> {
        if self.active {
            seq![self.position]
        } else {
            Seq::empty()
        }
    }

    fn render(&self) -> (cells: Vec<&Position>) {
        if !self.active {
            return Vec::new();
        }
        let mut cells: Vec<&Position> = Vec::new();
        cells.push(&self.position);
        cells
    }
}

/// A bullet becomes inactive exactly in the step that the edge stops, and
/// never before.
pub proof fn lemma_advanced_stops_at_edge(grid: Grid, bullet: Bullet)
    requires
        bullet.active,
    ensures
        bullet.advanced(grid).active <==> grid.step(bullet.position, bullet.direction)
            != bullet.position,
        grid.contains(bullet.position) ==> (bullet.advanced(grid).active <==> !grid.at_edge(
            bullet.position,
            bullet.direction,
        )),
        grid.contains(bullet.position) ==> grid.contains(bullet.advanced(grid).position),
{
}

/// The flight of a bullet towards an edge. An active bullet on a cell of the
/// grid that has room for `r` steps is, after `n` steps of flight, `n` cells
/// further and active where `n <= r`; after more steps it is inactive on the
/// cell at the edge. It never leaves the grid.
pub proof fn lemma_flight(grid: Grid, bullet: Bullet, n: nat)
    requires
        bullet.active,
        grid.contains(bullet.position),
    ensures
        grid.contains(bullet.advanced_by(grid, n).position),
        bullet.advanced_by(grid, n) == if n <= grid.room(bullet.position, bullet.direction) {
            Bullet {
                active: true,
                position: offset(bullet.position, bullet.direction, n as int),
                direction: bullet.direction,
            }
        } else {
            Bullet {
                active: false,
                position: offset(
                    bullet.position,
                    bullet.direction,
                    grid.room(bullet.position, bullet.direction),
                ),
                direction: bullet.direction,
            }
        },
    decreases n,
{
    if n > 0 {
        lemma_flight(grid, bullet, (n - 1) as nat);
    }
}

/// The first cell of `ours` that also occurs in `theirs`.
pub open spec fn first_common(ours: Seq<Position>, theirs: Seq<Position>) -> Option<Position>
    decreases ours.len(),
{
    if ours.len() == 0 {
        None
    } else if theirs.contains(ours.first()) {
        Some(ours.first())
    } else {
        first_common(ours.drop_first(), theirs)
    }
}

/// Two objects have a cell in common exactly if `first_common` finds one.
pub proof fn lemma_first_common(ours: Seq<Position>, theirs: Seq<Position>)
    ensures
        first_common(ours, theirs) matches Some(p) ==> ours.contains(p) && theirs.contains(p),
        first_common(ours, theirs) is None ==> forall|i: int|
            0 <= i < ours.len() ==> !theirs.contains(#[trigger] ours[i]),
    decreases ours.len(),
{
    if ours.len() > 0 {
        if theirs.contains(ours.first()) {
        } else {
            let rest = ours.drop_first();
            lemma_first_common(rest, theirs);
            if first_common(rest, theirs) is Some {
                let p = first_common(rest, theirs).unwrap();
            } else {
                assert forall|i: int| 0 <= i < ours.len() implies !theirs.contains(
                    #[trigger] ours[i],
                ) by {
                    if i > 0 {
                        assert(rest[i - 1] == ours[i]);
                    }
                }
            }
        }
    }
}

/// Whether `position` occurs in `list`.
fn position_in(list: &Vec<&Position>, position: &Position) -> (found: bool)
    ensures
        found == exists|j: int| 0 <= j < list@.len() && *list@[j] == *position,
{
    let mut j: usize = 0;
    while j < list.len()
        invariant
            j <= list@.len(),
            forall|k: int| 0 <= k < j ==> *list@[k] != *position,
        decreases list@.len() - j,
    {
        if *list[j] == *position {
            return true;
        }
        j += 1;
    }
    false
}

impl Grid {
    /// The first cell of `obj1`, in the order of its `render`, that `obj2`
    /// occupies too; `None` exactly where they have no cell in common.
    pub fn check_collision<A: Renderable, B: Renderable>(&self, obj1: &A, obj2: &B) -> (hit:
        Option<Position>)
        ensures
            hit == first_common(obj1.occupied(), obj2.occupied()),
            hit matches Some(p) ==> obj1.occupied().contains(p) && obj2.occupied().contains(p),
            hit is None ==> forall|i: int|
                0 <= i < obj1.occupied().len() ==> !obj2.occupied().contains(
                    #[trigger] obj1.occupied()[i],
                ),
    {
        let ours = obj1.render();
        let theirs = obj2.render();
        let mut i: usize = 0;
        proof {
            lemma_first_common(obj1.occupied(), obj2.occupied());
            assert(obj1.occupied().skip(0) =~= obj1.occupied());
        }
        while i < ours.len()
            invariant
                i <= ours@.len(),
                ours@.len() == obj1.occupied().len(),
                forall|k: int| 0 <= k < ours@.len() ==> *ours@[k] == obj1.occupied()[k],
                theirs@.len() == obj2.occupied().len(),
                forall|k: int| 0 <= k < theirs@.len() ==> *theirs@[k] == obj2.occupied()[k],
                first_common(obj1.occupied(), obj2.occupied()) == first_common(
                    obj1.occupied().skip(i as int),
                    obj2.occupied(),
                ),
                first_common(obj1.occupied(), obj2.occupied()) matches Some(p)
                    ==> obj1.occupied().contains(p) && obj2.occupied().contains(p),
            decreases ours@.len() - i,
        {
            let ghost rest = obj1.occupied().skip(i as int);
            assert(rest.drop_first() =~= obj1.occupied().skip(i + 1));
            if position_in(&theirs, ours[i]) {
                return Some(*ours[i]);
            }
            assert(!obj2.occupied().contains(rest.first())) by {
                if obj2.occupied().contains(rest.first()) {
                    let j = choose|j: int|
                        0 <= j < obj2.occupied().len() && obj2.occupied()[j] == rest.first();
                    assert(*theirs@[j] == *ours@[i as int]);
                }
            }
            i += 1;
        }
        None
    }
}

} // verus!
