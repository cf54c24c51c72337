//! Asteroids: rigid bodies made of grid cells. A bullet removes the cell it
//! hits; where the cells on either side of the gap are left facing each
//! other along one axis only, the body breaks into the parts that can be
//! reached from each of them.

use crate::connectivity::{
    adjacent, closed_in, component, connected_in, is_connected, is_path, lemma_adjacent_is_step,
    lemma_closed_covers_component, lemma_component_connected, lemma_component_subset,
    lemma_components_equal_or_disjoint, lemma_connected_extend, lemma_connected_reflexive,
    lemma_connected_symmetric, lemma_rectangle_connected, lemma_step_is_adjacent, links,
    rectangle,
};
use crate::entity::Renderable;
use crate::grid::{Direction, Grid, Position};
use vstd::prelude::*;

verus! {

/// A body of cells. No cell is listed twice.
pub struct Asteroid {
    positions: Vec<Position>,
}

impl View for Asteroid {
    type V = Seq<Position>;

    /// The cells of the body, in the order in which they are stored.
    closed spec fn view(&self) -> Seq<Position> {
        self.positions@
    }
}

/// The solid square of side `diameter` whose top left cell is `origin`.
pub open spec fn block(origin: Position, diameter: int) -> Set<Position> {
    Set::new(
        |p: Position|
            origin.x <= p.x < origin.x + diameter && origin.y <= p.y < origin.y + diameter,
    )
}

/// A solid block is connected.
pub proof fn lemma_block_connected(origin: Position, diameter: int)
    ensures
        is_connected(block(origin, diameter)),
{
    let (x, y) = (origin.x as int, origin.y as int);
    lemma_rectangle_connected(x, y, x + diameter, y + diameter);
    assert(block(origin, diameter) =~= rectangle(x, y, x + diameter, y + diameter));
}

/// The part of a solid block that lies in a grid is connected.
pub proof fn lemma_clipped_block_connected(origin: Position, diameter: int, grid: Grid)
    ensures
        is_connected(block(origin, diameter).filter(|p: Position| grid.contains(p))),
{
    let (x, y) = (origin.x as int, origin.y as int);
    let right = if x + diameter < grid.width {
        x + diameter
    } else {
        grid.width as int
    };
    let bottom = if y + diameter < grid.height {
        y + diameter
    } else {
        grid.height as int
    };
    lemma_rectangle_connected(x, y, right, bottom);
    assert(block(origin, diameter).filter(|p: Position| grid.contains(p)) =~= rectangle(
        x,
        y,
        right,
        bottom,
    ));
}

/// The two cells from which the parts of a broken body are searched, where
/// `rest`, a body that has just lost the cell `hit`, breaks: its cells above
/// and below `hit` with none to the left or right (upper first), or its
/// cells to the right and left with none above or below (right first).
pub open spec fn split_seeds(rest: Set<Position>, grid: Grid, hit: Position) -> Option<
    (Position, Position),
> {
    let up = grid.step(hit, Direction::Up);
    let right = grid.step(hit, Direction::Right);
    let down = grid.step(hit, Direction::Down);
    let left = grid.step(hit, Direction::Left);
    if rest.contains(up) && rest.contains(down) && !rest.contains(left) && !rest.contains(right) {
        Some((up, down))
    } else if rest.contains(right) && rest.contains(left) && !rest.contains(up) && !rest.contains(
        down,
    ) {
        Some((right, left))
    } else {
        None
    }
}

/// The two bodies that `rest` breaks into after the loss of `hit`: what can
/// be reached inside `rest` from each of the two seeds. `None` where it
/// stays in one piece.
pub open spec fn fragments(rest: Set<Position>, grid: Grid, hit: Position) -> Option<
    (Set<Position>, Set<Position>),
> {
    match split_seeds(rest, grid, hit) {
        Some((first, second)) => Some((component(rest, first), component(rest, second))),
        None => None,
    }
}

/// Number of the four neighbours of `hit` that `rest` holds.
pub open spec fn neighbors_present(rest: Set<Position>, grid: Grid, hit: Position) -> int {
    let count = |d: Direction|
        if rest.contains(grid.step(hit, d)) {
            1int
        } else {
            0int
        };
    count(Direction::Up) + count(Direction::Right) + count(Direction::Down) + count(
        Direction::Left,
    )
}

/// A body breaks exactly where two of the four neighbours of the lost cell
/// are left and these two face each other: the ones above and below, or the
/// ones to the left and right. With none, one, three or four neighbours
/// left, or with two that meet at a corner, it stays in one piece.
pub proof fn lemma_split_rule(rest: Set<Position>, grid: Grid, hit: Position)
    ensures
        fragments(rest, grid, hit) is Some <==> neighbors_present(rest, grid, hit) == 2 && ((
            rest.contains(grid.step(hit, Direction::Up)) && rest.contains(
                grid.step(hit, Direction::Down),
            )) || (rest.contains(grid.step(hit, Direction::Right)) && rest.contains(
            grid.step(hit, Direction::Left),
        ))),
{
}

/// The parts that a body breaks into hold cells of the body only, each part
/// hangs together, and two parts that share a cell are the same part.
pub proof fn lemma_fragments_connected(rest: Set<Position>, grid: Grid, hit: Position)
    requires
        fragments(rest, grid, hit) is Some,
    ensures
        ({
            let (first, second) = fragments(rest, grid, hit).unwrap();
            &&& first.subset_of(rest)
            &&& second.subset_of(rest)
            &&& is_connected(first)
            &&& is_connected(second)
            &&& first == second || first.disjoint(second)
        }),
{
    let (a, b) = split_seeds(rest, grid, hit).unwrap();
    lemma_component_subset(rest, a);
    lemma_component_subset(rest, b);
    lemma_component_connected(rest, a);
    lemma_component_connected(rest, b);
    lemma_components_equal_or_disjoint(rest, a, b);
}

/// Where a connected body breaks and the two cells across the gap can no
/// longer reach each other, the two parts divide what is left of the body
/// between them: together they hold every cell of the body but the lost
/// one, they share none, and each hangs together.
pub proof fn lemma_fragments_partition(parent: Set<Position>, grid: Grid, hit: Position)
    requires
        forall|p: Position| parent.contains(p) ==> grid.contains(p),
        parent.contains(hit),
        is_connected(parent),
        split_seeds(parent.remove(hit), grid, hit) matches Some((a, b)) && !connected_in(
            parent.remove(hit),
            a,
            b,
        ),
    ensures
        ({
            let (first, second) = fragments(parent.remove(hit), grid, hit).unwrap();
            &&& first.union(second) == parent.remove(hit)
            &&& first.disjoint(second)
            &&& is_connected(first)
            &&& is_connected(second)
        }),
{
    let rest = parent.remove(hit);
    let (a, b) = split_seeds(rest, grid, hit).unwrap();
    let (first, second) = fragments(rest, grid, hit).unwrap();
    lemma_fragments_connected(rest, grid, hit);
    lemma_fragments_cover(parent, grid, hit);
    if first == second {
        lemma_connected_reflexive(rest, b);
    }
}

/// Where a connected body breaks, every cell that is left of it can be
/// reached from one of the two cells across the gap.
pub proof fn lemma_fragments_cover(parent: Set<Position>, grid: Grid, hit: Position)
    requires
        forall|p: Position| parent.contains(p) ==> grid.contains(p),
        parent.contains(hit),
        is_connected(parent),
        fragments(parent.remove(hit), grid, hit) is Some,
    ensures
        ({
            let (first, second) = fragments(parent.remove(hit), grid, hit).unwrap();
            first.union(second) == parent.remove(hit)
        }),
{
    let rest = parent.remove(hit);
    let (a, b) = split_seeds(rest, grid, hit).unwrap();
    let (first, second) = fragments(rest, grid, hit).unwrap();
    lemma_component_subset(rest, a);
    lemma_component_subset(rest, b);
    assert forall|c: Position| rest.contains(c) implies first.union(second).contains(c) by {
        assert(connected_in(parent, c, hit));
        let path = choose|path: Seq<Position>| is_path(parent, path, c, hit);
        let k = first_occurrence(path, hit, path.len() - 1);
        let q = path[k - 1];
        assert(links(path, k - 1));
        let before = path.take(k);
        assert forall|i: int| 0 <= i < before.len() - 1 implies #[trigger] links(before, i) by {
            assert(links(path, i));
        }
        assert(is_path(rest, before, c, q));
        lemma_connected_symmetric(rest, c, q);
        lemma_adjacent_is_step(grid, hit, q);
    }
}

/// The first place at which `target` occurs on `path`.
proof fn first_occurrence(path: Seq<Position>, target: Position, upto: int) -> (k: int)
    requires
        0 <= upto < path.len(),
        path[upto] == target,
    ensures
        0 <= k <= upto,
        path[k] == target,
        forall|i: int| 0 <= i < k ==> path[i] != target,
    decreases upto,
{
    if exists|i: int| 0 <= i < upto && path[i] == target {
        let i = choose|i: int| 0 <= i < upto && path[i] == target;
        first_occurrence(path, target, i)
    } else {
        upto
    }
}

/// Whether `position` occurs in `list`.
fn contains_position(list: &Vec<Position>, position: &Position) -> (found: bool)
    ensures
        found == list@.contains(*position),
{
    let mut j: usize = 0;
    while j < list.len()
        invariant
            j <= list@.len(),
            forall|k: int| 0 <= k < j ==> list@[k] != *position,
        decreases list@.len() - j,
    {
        if list[j] == *position {
            return true;
        }
        j += 1;
    }
    false
}

/// Removing one entry from a list without repetitions removes that cell
/// from the set of its entries, and nothing else.
proof fn lemma_remove_distinct(s: Seq<Position>, i: int)
    requires
        s.no_duplicates(),
        0 <= i < s.len(),
    ensures
        s.remove(i).no_duplicates(),
        s.remove(i).to_set() == s.to_set().remove(s[i]),
{
    let r = s.remove(i);
    s.remove_ensures(i);
    assert forall|p: Position| r.to_set().contains(p) <==> s.to_set().remove(s[i]).contains(
        p,
    ) by {
        if s.contains(p) && p != s[i] {
            let k = choose|k: int| 0 <= k < s.len() && s[k] == p;
            if k < i {
                assert(r[k] == p);
            } else {
                assert(r[k - 1] == p);
            }
        }
    }
}

/// A list without repetitions whose entries all occur in another list is no
/// longer than that list.
proof fn lemma_distinct_sublist_len(a: Seq<Position>, b: Seq<Position>)
    requires
        a.no_duplicates(),
        forall|i: int| 0 <= i < a.len() ==> b.contains(#[trigger] a[i]),
    ensures
        a.len() <= b.len(),
{
    a.unique_seq_to_set();
    b.lemma_cardinality_of_set();
    vstd::seq_lib::seq_to_set_is_finite(b);
    vstd::set_lib::lemma_len_subset(a.to_set(), b.to_set());
}

/// What holds while the cells reachable from `seed` are collected: `found`
/// lists reachable cells only, each once; `unchecked` lists found cells
/// whose neighbours are still to be looked at; and of every other found
/// cell but `current`, the neighbours inside `cells` are found already.
spec fn searching(
    cells: Set<Position>,
    grid: Grid,
    seed: Position,
    found: Seq<Position>,
    unchecked: Seq<Position>,
    current: Option<Position>,
) -> bool {
    &&& found.no_duplicates()
    &&& found.contains(seed)
    &&& forall|i: int| 0 <= i < found.len() ==> connected_in(cells, seed, #[trigger] found[i])
    &&& forall|j: int| 0 <= j < unchecked.len() ==> found.contains(#[trigger] unchecked[j])
    &&& forall|p: Position, d: Direction|
        found.contains(p) && !unchecked.contains(p) && Some(p) != current && cells.contains(
            #[trigger] grid.step(p, d),
        ) ==> found.contains(grid.step(p, d))
}

/// The lists after one neighbour of `position` has been looked at.
spec fn explored(
    cells: Set<Position>,
    grid: Grid,
    found: Seq<Position>,
    unchecked: Seq<Position>,
    position: Position,
    direction: Direction,
) -> (Seq<Position>, Seq<Position>) {
    let next = grid.step(position, direction);
    if cells.contains(next) && !found.contains(next) {
        (found.push(next), unchecked.push(next))
    } else {
        (found, unchecked)
    }
}

/// Looking at one neighbour of a found cell keeps the search in order.
proof fn lemma_explored(
    cells: Set<Position>,
    grid: Grid,
    seed: Position,
    found: Seq<Position>,
    unchecked: Seq<Position>,
    position: Position,
    direction: Direction,
)
    requires
        searching(cells, grid, seed, found, unchecked, Some(position)),
        found.contains(position),
    ensures
        ({
            let (found2, unchecked2) = explored(cells, grid, found, unchecked, position, direction);
            &&& searching(cells, grid, seed, found2, unchecked2, Some(position))
            &&& cells.contains(grid.step(position, direction)) ==> found2.contains(
                grid.step(position, direction),
            )
            &&& forall|p: Position| found.contains(p) ==> found2.contains(p)
            &&& found2.len() - found.len() == unchecked2.len() - unchecked.len()
            &&& found2.len() >= found.len()
        }),
{
    let next = grid.step(position, direction);
    let (found2, unchecked2) = explored(cells, grid, found, unchecked, position, direction);
    if cells.contains(next) && !found.contains(next) {
        let n = found.len() as int;
        assert(found2[n] == next);
        assert forall|p: Position| found.contains(p) implies found2.contains(p) by {
            let k = choose|k: int| 0 <= k < found.len() && found[k] == p;
            assert(found2[k] == p);
        }
        assert forall|p: Position| unchecked.contains(p) implies unchecked2.contains(p) by {
            let k = choose|k: int| 0 <= k < unchecked.len() && unchecked[k] == p;
            assert(unchecked2[k] == p);
        }
        assert(unchecked2[unchecked.len() as int] == next);
        assert(connected_in(cells, seed, next)) by {
            lemma_step_is_adjacent(grid, position, direction);
            lemma_connected_extend(cells, seed, position, next);
        }
    }
}

impl Asteroid {
    /// The set of cells of the body.
    pub open spec fn cells(&self) -> Set<Position> {
        self@.to_set()
    }

    /// No cell is listed twice.
    pub open spec fn distinct(&self) -> bool {
        self@.no_duplicates()
    }

    /// Every cell of the body is a cell of `grid`.
    pub open spec fn within(&self, grid: Grid) -> bool {
        forall|i: int| 0 <= i < self@.len() ==> grid.contains(#[trigger] self@[i])
    }

    /// The body lies in `grid` and lists no cell twice.
    pub open spec fn wf(&self, grid: Grid) -> bool {
        self.distinct() && self.within(grid)
    }

    /// The cells of the body.
    pub fn positions(&self) -> (positions: &Vec<Position>)
        ensures
            positions@ == self@,
    {
        &self.positions
    }

    /// Whether the body has no cell left.
    pub fn is_empty(&self) -> (empty: bool)
        ensures
            empty == (self@.len() == 0),
            empty == (self.cells() == Set::<Position>::empty()),
    {
        proof {
            if self@.len() > 0 {
                assert(self.cells().contains(self@[0]));
            } else {
                assert(self.cells() =~= Set::<Position>::empty());
            }
        }
        self.positions.len() == 0
    }

    /// A solid square block of side `diameter` whose top left cell is
    /// `position`.
    pub fn new(position: Position, diameter: u32) -> (asteroid: Asteroid)
        requires
            position.x + diameter <= u32::MAX,
            position.y + diameter <= u32::MAX,
        ensures
            asteroid.distinct(),
            asteroid.cells() == block(position, diameter as int),
            is_connected(asteroid.cells()),
    {
        proof {
            lemma_block_connected(position, diameter as int);
        }
        let mut positions: Vec<Position> = Vec::new();
        let mut y: u32 = position.y;
        while y < position.y + diameter
            invariant
                position.x + diameter <= u32::MAX,
                position.y + diameter <= u32::MAX,
                position.y <= y <= position.y + diameter,
                positions@.no_duplicates(),
                forall|p: Position|
                    positions@.contains(p) <==> (position.x <= p.x < position.x + diameter
                        && position.y <= p.y < y),
            decreases position.y + diameter - y,
        {
            let mut x: u32 = position.x;
            while x < position.x + diameter
                invariant
                    position.x + diameter <= u32::MAX,
                    position.y <= y < position.y + diameter,
                    position.x <= x <= position.x + diameter,
                    positions@.no_duplicates(),
                    forall|p: Position|
                        positions@.contains(p) <==> (position.x <= p.x < position.x + diameter
                            && (position.y <= p.y < y || (p.y == y && p.x < x))),
                decreases position.x + diameter - x,
            {
                let ghost before = positions@;
                positions.push(Position { x: x, y: y });
                proof {
                    let cell = Position { x: x, y: y };
                    assert(!before.contains(cell));
                    assert(positions@[before.len() as int] == cell);
                    assert forall|p: Position|
                        positions@.contains(p) <==> (position.x <= p.x < position.x + diameter
                            && (position.y <= p.y < y || (p.y == y && p.x < x + 1))) by {
                        if before.contains(p) {
                            let k = choose|k: int| 0 <= k < before.len() && before[k] == p;
                            assert(positions@[k] == p);
                        }
                    }
                }
                x += 1;
            }
            y += 1;
        }
        Asteroid { positions }
    }

    /// Drops the cells that lie outside `grid`.
    pub fn clip_to(&mut self, grid: &Grid)
        requires
            old(self).distinct(),
        ensures
            final(self).wf(*grid),
            final(self).cells() == old(self).cells().filter(|p: Position| grid.contains(p)),
    {
        let mut kept: Vec<Position> = Vec::new();
        let mut i: usize = 0;
        while i < self.positions.len()
            invariant
                i <= self.positions@.len(),
                self.positions@.no_duplicates(),
                kept@.no_duplicates(),
                forall|k: int| 0 <= k < kept@.len() ==> grid.contains(#[trigger] kept@[k]),
                forall|p: Position|
                    kept@.contains(p) <==> (grid.contains(p) && exists|k: int|
                        0 <= k < i && self.positions@[k] == p),
            decreases self.positions@.len() - i,
        {
            let position = self.positions[i];
            if position.x < grid.width && position.y < grid.height {
                let ghost before = kept@;
                kept.push(position);
                proof {
                    assert(kept@[before.len() as int] == position);
                    assert forall|p: Position|
                        kept@.contains(p) <==> (grid.contains(p) && exists|k: int|
                            0 <= k < i + 1 && self.positions@[k] == p) by {
                        if before.contains(p) {
                            let k = choose|k: int| 0 <= k < before.len() && before[k] == p;
                            assert(kept@[k] == p);
                        }
                    }
                }
            }
            i += 1;
        }
        self.positions = kept;
    }

    /// The body that is left of `parent_asteroid` around `position`: the
    /// cells of the parent that can be reached from there.
    pub fn generate_asteroid_from_position(
        parent_asteroid: &Asteroid,
        position: &Position,
        map: &Grid,
    ) -> (asteroid: Asteroid)
        requires
            parent_asteroid.within(*map),
        ensures
            asteroid.wf(*map),
            asteroid.cells() == component(parent_asteroid.cells(), *position),
    {
        let new_asteroid_positions = Asteroid::find_related_positions(
            *position,
            parent_asteroid,
            map,
        );
        let asteroid = Asteroid { positions: new_asteroid_positions };
        proof {
            lemma_component_subset(parent_asteroid.cells(), *position);
            assert forall|i: int| 0 <= i < asteroid@.len() implies map.contains(
                #[trigger] asteroid@[i],
            ) by {
                assert(asteroid.cells().contains(asteroid@[i]));
            }
        }
        asteroid
    }

    /// Takes the cell that a bullet hit out of the body, and breaks the body
    /// in two where that leaves cells facing each other across the gap along
    /// one axis and none along the other. The two parts are returned, the
    /// upper or the right one first; the body itself is left holding all
    /// that remains. In every other case the body stays in one piece,
    /// whether or not its cells still hang together.
    pub fn process_collision(&mut self, collision_position: &Position, map: &Grid) -> (broken:
        Option<(Asteroid, Asteroid)>)
        requires
            old(self).wf(*map),
            old(self).cells().contains(*collision_position),
        ensures
            final(self).wf(*map),
            final(self).cells() == old(self).cells().remove(*collision_position),
            match broken {
                Some((first, second)) => {
                    &&& first.wf(*map)
                    &&& second.wf(*map)
                    &&& fragments(final(self).cells(), *map, *collision_position) == Some(
                        (first.cells(), second.cells()),
                    )
                    &&& is_connected(first.cells())
                    &&& is_connected(second.cells())
                },
                None => fragments(final(self).cells(), *map, *collision_position) is None,
            },
    {
        let mut collision_position_index: Option<usize> = None;
        let mut i: usize = 0;
        while i < self.positions.len()
            invariant
                i <= self.positions@.len(),
                self.positions@ == old(self)@,
                match collision_position_index {
                    Some(index) => index < i && self.positions@[index as int]
                        == *collision_position,
                    None => forall|k: int| 0 <= k < i ==> self.positions@[k] != *collision_position,
                },
            decreases self.positions@.len() - i,
        {
            if self.positions[i] == *collision_position {
                collision_position_index = Some(i);
            }
            i += 1;
        }
        let collision_position_index = collision_position_index.unwrap();
        proof {
            lemma_remove_distinct(self.positions@, collision_position_index as int);
            self.positions@.remove_ensures(collision_position_index as int);
        }
        self.positions.remove(collision_position_index);

        let up = map.position_in_direction(collision_position, &Direction::Up);
        let right = map.position_in_direction(collision_position, &Direction::Right);
        let down = map.position_in_direction(collision_position, &Direction::Down);
        let left = map.position_in_direction(collision_position, &Direction::Left);
        let has_up = contains_position(&self.positions, &up);
        let has_right = contains_position(&self.positions, &right);
        let has_down = contains_position(&self.positions, &down);
        let has_left = contains_position(&self.positions, &left);
        proof {
            if fragments(self.cells(), *map, *collision_position) is Some {
                lemma_fragments_connected(self.cells(), *map, *collision_position);
            }
        }
        if has_up && has_down && !has_left && !has_right {
            let asteroid_1 = Asteroid::generate_asteroid_from_position(self, &up, map);
            let asteroid_2 = Asteroid::generate_asteroid_from_position(self, &down, map);
            return Some((asteroid_1, asteroid_2));
        } else if has_right && has_left && !has_up && !has_down {
            let asteroid_1 = Asteroid::generate_asteroid_from_position(self, &right, map);
            let asteroid_2 = Asteroid::generate_asteroid_from_position(self, &left, map);
            return Some((asteroid_1, asteroid_2));
        }
        None
    }

    /// The cells of `parent` that can be reached from `seed` through cells of
    /// `parent`, each step going to a cell that shares a side. The search
    /// keeps a list of found cells whose neighbours are still to be looked
    /// at, and looks at no cell twice.
    pub fn find_related_positions(seed: Position, parent: &Asteroid, grid: &Grid) -> (related:
        Vec<Position>)
        requires
            parent.within(*grid),
        ensures
            related@.no_duplicates(),
            related@.to_set() == component(parent.cells(), seed),
    {
        let mut found: Vec<Position> = Vec::new();
        let mut unchecked: Vec<Position> = Vec::new();
        let ghost cells = parent.cells();
        if !contains_position(&parent.positions, &seed) {
            proof {
                lemma_component_subset(cells, seed);
            }
            return found;
        }
        found.push(seed);
        unchecked.push(seed);
        proof {
            lemma_connected_reflexive(cells, seed);
            assert(unchecked@[0] == seed);
        }
        while unchecked.len() > 0
            invariant
                cells == parent.cells(),
                parent.within(*grid),
                searching(cells, *grid, seed, found@, unchecked@, None),
                found@.len() <= parent@.len(),
            decreases parent@.len() - found@.len(), unchecked@.len(),
        {
            let ghost unchecked0 = unchecked@;
            let position = unchecked.pop().unwrap();
            proof {
                assert forall|p: Position|
                    unchecked0.contains(p) && p != position implies unchecked@.contains(p) by {
                    let k = choose|k: int| 0 <= k < unchecked0.len() && unchecked0[k] == p;
                    assert(unchecked@[k] == p);
                }
                lemma_explored(cells, *grid, seed, found@, unchecked@, position, Direction::Up);
            }
            Asteroid::explore(&mut found, &mut unchecked, parent, grid, position, Direction::Up);
            proof {
                lemma_explored(cells, *grid, seed, found@, unchecked@, position, Direction::Right);
            }
            Asteroid::explore(&mut found, &mut unchecked, parent, grid, position, Direction::Right);
            proof {
                lemma_explored(cells, *grid, seed, found@, unchecked@, position, Direction::Down);
            }
            Asteroid::explore(&mut found, &mut unchecked, parent, grid, position, Direction::Down);
            proof {
                lemma_explored(cells, *grid, seed, found@, unchecked@, position, Direction::Left);
            }
            Asteroid::explore(&mut found, &mut unchecked, parent, grid, position, Direction::Left);
            proof {
                assert forall|p: Position, d: Direction|
                    found@.contains(p) && !unchecked@.contains(p) && cells.contains(
                        #[trigger] grid.step(p, d),
                    ) implies found@.contains(grid.step(p, d)) by {
                    if p == position {
                        match d {
                            Direction::Up => {},
                            Direction::Right => {},
                            Direction::Down => {},
                            Direction::Left => {},
                        }
                    }
                }
                lemma_component_subset(cells, seed);
                lemma_distinct_sublist_len(found@, parent@);
            }
        }
        proof {
            let inner = found@.to_set();
            lemma_component_subset(cells, seed);
            assert(closed_in(cells, inner)) by {
                assert forall|a: Position, b: Position|
                    inner.contains(a) && cells.contains(b) && adjacent(a, b) implies inner.contains(
                    b,
                ) by {
                    lemma_adjacent_is_step(*grid, a, b);
                }
            }
            lemma_closed_covers_component(cells, inner, seed);
        }
        found
    }

    /// Looks at the neighbour of `position` in `direction`: a cell of
    /// `parent` that has not been found yet is found now, and its own
    /// neighbours are to be looked at later.
    fn explore(
        found: &mut Vec<Position>,
        unchecked: &mut Vec<Position>,
        parent: &Asteroid,
        grid: &Grid,
        position: Position,
        direction: Direction,
    )
        ensures
            (final(found)@, final(unchecked)@) == explored(
                parent.cells(),
                *grid,
                old(found)@,
                old(unchecked)@,
                position,
                direction,
            ),
    {
        let next = grid.position_in_direction(&position, &direction);
        if contains_position(&parent.positions, &next) && !contains_position(found, &next) {
            found.push(next);
            unchecked.push(next);
        }
    }
}

impl Renderable for Asteroid {
    open spec fn occupied(&self) -> Seq<Position> {
        self@
    }

    fn render(&self) -> (cells: Vec<&Position>) {
        let mut indexes: Vec<&Position> = Vec::new();
        let mut i: usize = 0;
        while i < self.positions.len()
            invariant
                i <= self.positions@.len(),
                indexes@.len() == i,
                forall|k: int| 0 <= k < i ==> *indexes@[k] == self.positions@[k],
            decreases self.positions@.len() - i,
        {
            indexes.push(&self.positions[i]);
            i += 1;
        }
        indexes
    }
}

} // verus!
