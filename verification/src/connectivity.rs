//! Connectivity of sets of grid cells under 4-adjacency: paths, the cells
//! reachable from a seed, and the facts about them that the fragmentation
//! of an asteroid rests on.

use crate::grid::{Direction, Grid, Position};
use vstd::prelude::*;

verus! {

/// Two cells share a side.
pub open spec fn adjacent(a: Position, b: Position) -> bool {
    ||| a.x == b.x && (a.y + 1 == b.y || b.y + 1 == a.y)
    ||| a.y == b.y && (a.x + 1 == b.x || b.x + 1 == a.x)
}

/// Cell `i` of `path` and the one after it share a side.
pub open spec fn links(path: Seq<Position>, i: int) -> bool {
    adjacent(path[i], path[i + 1])
}

/// `path` leads from `from` to `to` through cells of `cells` only, each
/// sharing a side with the next.
pub open spec fn is_path(
    cells: Set<Position>,
    path: Seq<Position>,
    from: Position,
    to: Position,
) -> bool {
    &&& path.len() >= 1
    &&& path.first() == from
    &&& path.last() == to
    &&& forall|i: int| 0 <= i < path.len() ==> cells.contains(#[trigger] path[i])
    &&& forall|i: int| 0 <= i < path.len() - 1 ==> #[trigger] links(path, i)
}

/// `to` can be reached from `from` without leaving `cells`.
pub open spec fn connected_in(cells: Set<Position>, from: Position, to: Position) -> bool {
    exists|path: Seq<Position>| is_path(cells, path, from, to)
}

/// The cells of `cells` that can be reached from `seed` without leaving
/// `cells`. Empty where `seed` is not in `cells`.
pub open spec fn component(cells: Set<Position>, seed: Position) -> Set<Position> {
    Set::new(|p: Position| connected_in(cells, seed, p))
}

/// Every cell of `cells` can be reached from every other without leaving
/// `cells`.
pub open spec fn is_connected(cells: Set<Position>) -> bool {
    forall|a: Position, b: Position|
        cells.contains(a) && cells.contains(b) ==> connected_in(cells, a, b)
}

/// No step from a cell of `inner` to an adjacent cell of `cells` leaves
/// `inner`.
pub open spec fn closed_in(cells: Set<Position>, inner: Set<Position>) -> bool {
    forall|a: Position, b: Position|
        inner.contains(a) && cells.contains(b) && adjacent(a, b) ==> inner.contains(b)
}

/// A cell is reachable from itself.
pub proof fn lemma_connected_reflexive(cells: Set<Position>, p: Position)
    requires
        cells.contains(p),
    ensures
        connected_in(cells, p, p),
{
    assert(is_path(cells, seq![p], p, p));
}

/// A path can be extended by one adjacent cell.
pub proof fn lemma_connected_extend(cells: Set<Position>, a: Position, b: Position, c: Position)
    requires
        connected_in(cells, a, b),
        cells.contains(c),
        adjacent(b, c),
    ensures
        connected_in(cells, a, c),
{
    let path = choose|path: Seq<Position>| is_path(cells, path, a, b);
    let longer = path.push(c);
    assert forall|i: int| 0 <= i < longer.len() - 1 implies #[trigger] links(longer, i) by {
        if i < path.len() - 1 {
            assert(links(path, i));
        }
    }
    assert(is_path(cells, longer, a, c));
}

/// Reachability runs both ways.
pub proof fn lemma_connected_symmetric(cells: Set<Position>, a: Position, b: Position)
    requires
        connected_in(cells, a, b),
    ensures
        connected_in(cells, b, a),
{
    let path = choose|path: Seq<Position>| is_path(cells, path, a, b);
    let n = path.len() as int;
    let back = Seq::new(path.len(), |i: int| path[n - 1 - i]);
    assert forall|i: int| 0 <= i < back.len() - 1 implies #[trigger] links(back, i) by {
        assert(links(path, n - 2 - i));
    }
    assert(is_path(cells, back, b, a));
}

/// Reachability carries over two legs.
pub proof fn lemma_connected_transitive(cells: Set<Position>, a: Position, b: Position, c: Position)
    requires
        connected_in(cells, a, b),
        connected_in(cells, b, c),
    ensures
        connected_in(cells, a, c),
{
    let first = choose|path: Seq<Position>| is_path(cells, path, a, b);
    let second = choose|path: Seq<Position>| is_path(cells, path, b, c);
    let n = first.len() as int;
    let joined = first + second.subrange(1, second.len() as int);
    assert forall|i: int| 0 <= i < joined.len() - 1 implies #[trigger] links(joined, i) by {
        if i < n - 1 {
            assert(links(first, i));
        } else {
            assert(links(second, i - n + 1));
        }
    }
    assert(is_path(cells, joined, a, c));
}

/// Every cell on a path is reachable from the path's start.
pub proof fn lemma_path_prefix(
    cells: Set<Position>,
    path: Seq<Position>,
    from: Position,
    to: Position,
    k: int,
)
    requires
        is_path(cells, path, from, to),
        0 <= k < path.len(),
    ensures
        is_path(cells, path.take(k + 1), from, path[k]),
        connected_in(cells, from, path[k]),
{
    let prefix = path.take(k + 1);
    assert forall|i: int| 0 <= i < prefix.len() - 1 implies #[trigger] links(prefix, i) by {
        assert(links(path, i));
    }
}

/// The cells reachable from a seed belong to the set they were searched in.
pub proof fn lemma_component_subset(cells: Set<Position>, seed: Position)
    ensures
        component(cells, seed).subset_of(cells),
{
}

/// A set that holds the seed and that no step inside `cells` leaves holds
/// everything reachable from the seed.
pub proof fn lemma_closed_covers_component(
    cells: Set<Position>,
    inner: Set<Position>,
    seed: Position,
)
    requires
        inner.contains(seed),
        closed_in(cells, inner),
    ensures
        component(cells, seed).subset_of(inner),
{
    assert forall|p: Position| component(cells, seed).contains(p) implies inner.contains(p) by {
        let path = choose|path: Seq<Position>| is_path(cells, path, seed, p);
        lemma_path_inside_closed(cells, inner, path, seed, p, path.len() - 1);
    }
}

proof fn lemma_path_inside_closed(
    cells: Set<Position>,
    inner: Set<Position>,
    path: Seq<Position>,
    from: Position,
    to: Position,
    k: int,
)
    requires
        is_path(cells, path, from, to),
        inner.contains(from),
        closed_in(cells, inner),
        0 <= k < path.len(),
    ensures
        inner.contains(path[k]),
    decreases k,
{
    if k > 0 {
        lemma_path_inside_closed(cells, inner, path, from, to, k - 1);
        assert(links(path, k - 1));
    }
}

/// The cells reachable from a seed form a connected set.
pub proof fn lemma_component_connected(cells: Set<Position>, seed: Position)
    ensures
        is_connected(component(cells, seed)),
{
    let part = component(cells, seed);
    assert forall|a: Position, b: Position| part.contains(a) && part.contains(
        b,
    ) implies connected_in(part, a, b) by {
        lemma_reachable_inside_component(cells, seed, a);
        lemma_reachable_inside_component(cells, seed, b);
        lemma_connected_symmetric(part, seed, a);
        lemma_connected_transitive(part, a, seed, b);
    }
}

/// A cell reachable from the seed is reachable through reachable cells only.
pub proof fn lemma_reachable_inside_component(cells: Set<Position>, seed: Position, p: Position)
    requires
        connected_in(cells, seed, p),
    ensures
        connected_in(component(cells, seed), seed, p),
{
    let path = choose|path: Seq<Position>| is_path(cells, path, seed, p);
    assert forall|i: int| 0 <= i < path.len() implies component(cells, seed).contains(
        #[trigger] path[i],
    ) by {
        lemma_path_prefix(cells, path, seed, p, i);
    }
    assert(is_path(component(cells, seed), path, seed, p));
}

/// Two seeds that can reach each other have the same reachable cells.
pub proof fn lemma_component_of_connected_seeds(cells: Set<Position>, a: Position, b: Position)
    requires
        connected_in(cells, a, b),
    ensures
        component(cells, a) == component(cells, b),
{
    lemma_connected_symmetric(cells, a, b);
    assert forall|p: Position| component(cells, a).contains(p) <==> component(cells, b).contains(
        p,
    ) by {
        if connected_in(cells, a, p) {
            lemma_connected_transitive(cells, b, a, p);
        }
        if connected_in(cells, b, p) {
            lemma_connected_transitive(cells, a, b, p);
        }
    }
}

/// The cells reachable from two seeds are the same cells or have none in
/// common.
pub proof fn lemma_components_equal_or_disjoint(cells: Set<Position>, a: Position, b: Position)
    ensures
        component(cells, a) == component(cells, b) || component(cells, a).disjoint(
            component(cells, b),
        ),
{
    if exists|p: Position| component(cells, a).contains(p) && component(cells, b).contains(p) {
        let p = choose|p: Position|
            component(cells, a).contains(p) && component(cells, b).contains(p);
        lemma_connected_symmetric(cells, b, p);
        lemma_connected_transitive(cells, a, p, b);
        lemma_component_of_connected_seeds(cells, a, b);
    }
}

/// The cells in columns `left` up to but not `right`, of rows `top` up to
/// but not `bottom`.
pub open spec fn rectangle(left: int, top: int, right: int, bottom: int) -> Set<Position> {
    Set::new(|p: Position| left <= p.x < right && top <= p.y < bottom)
}

/// Every cell of a rectangle can be reached from its top left cell.
proof fn lemma_rectangle_from_corner(left: int, top: int, right: int, bottom: int, p: Position)
    requires
        rectangle(left, top, right, bottom).contains(p),
        0 <= left,
        0 <= top,
    ensures
        connected_in(
            rectangle(left, top, right, bottom),
            Position { x: left as u32, y: top as u32 },
            p,
        ),
    decreases (p.x - left) + (p.y - top),
{
    let cells = rectangle(left, top, right, bottom);
    let corner = Position { x: left as u32, y: top as u32 };
    if p.x > left {
        let q = Position { x: (p.x - 1) as u32, y: p.y };
        lemma_rectangle_from_corner(left, top, right, bottom, q);
        lemma_connected_extend(cells, corner, q, p);
    } else if p.y > top {
        let q = Position { x: p.x, y: (p.y - 1) as u32 };
        lemma_rectangle_from_corner(left, top, right, bottom, q);
        lemma_connected_extend(cells, corner, q, p);
    } else {
        lemma_connected_reflexive(cells, p);
    }
}

/// A rectangle is connected.
pub proof fn lemma_rectangle_connected(left: int, top: int, right: int, bottom: int)
    requires
        0 <= left,
        0 <= top,
    ensures
        is_connected(rectangle(left, top, right, bottom)),
{
    let cells = rectangle(left, top, right, bottom);
    let corner = Position { x: left as u32, y: top as u32 };
    assert forall|a: Position, b: Position| cells.contains(a) && cells.contains(
        b,
    ) implies connected_in(cells, a, b) by {
        lemma_rectangle_from_corner(left, top, right, bottom, a);
        lemma_rectangle_from_corner(left, top, right, bottom, b);
        lemma_connected_symmetric(cells, corner, a);
        lemma_connected_transitive(cells, a, corner, b);
    }
}

/// Inside the grid, the cells that share a side with `p` are among those
/// that a single step from `p` reaches.
pub proof fn lemma_adjacent_is_step(grid: Grid, p: Position, q: Position)
    requires
        grid.contains(p),
        grid.contains(q),
        adjacent(p, q),
    ensures
        q == grid.step(p, Direction::Up) || q == grid.step(p, Direction::Right) || q == grid.step(
            p,
            Direction::Down,
        ) || q == grid.step(p, Direction::Left),
{
}

/// A step either stays in place or lands on a cell that shares a side.
pub proof fn lemma_step_is_adjacent(grid: Grid, p: Position, d: Direction)
    ensures
        grid.step(p, d) == p || adjacent(p, grid.step(p, d)),
{
}

} // verus!
