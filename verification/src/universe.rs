//! The universe: the grid, the player, the pool of bullets and the list of
//! asteroids, together with the buffer of cells that shows them. Commands
//! change the player and the bullets at once; a step moves the bullets,
//! lets them strike the asteroids, and draws the buffer anew.

use crate::asteroid::{block, fragments, lemma_clipped_block_connected, Asteroid};
use crate::connectivity::is_connected;
use crate::entity::{first_common, Bullet, Renderable};
use crate::grid::{
    lemma_index_in_range, lemma_index_position_at, lemma_position_at_index, BoundsError, Cell,
    Direction, Grid, InvalidDirection, Position,
};
use vstd::prelude::*;

verus! {

/// Number of bullets in the pool.
pub const POOL_SIZE: usize = 100;

/// Top left cell and side of the asteroid that a new universe holds.
pub const SEED_X: u32 = 45;

pub const SEED_Y: u32 = 45;

pub const SEED_DIAMETER: u32 = 9;

/// The universe as a mathematical value.
#[verifier::ext_equal]
pub struct UniverseView {
    pub grid: Grid,
    /// The buffer, row by row.
    pub cells: Seq<Cell>,
    pub player_pos: Position,
    pub player_direction: Direction,
    /// The pool of bullets, by slot.
    pub bullets: Seq<Bullet>,
    /// The slot that was fired last.
    pub cursor: int,
    /// The asteroids in list order, each as the set of its cells.
    pub asteroids: Seq<Set<Position>>,
}

/// A buffer of `n` inactive cells.
pub open spec fn blank(n: nat) -> Seq<Cell> {
    Seq::new(n, |i: int| Cell::Inactive)
}

/// The buffer `cells` with the cells of `chosen` made active.
pub open spec fn marked(cells: Seq<Cell>, grid: Grid, chosen: Set<Position>) -> Seq<Cell> {
    Seq::new(
        cells.len(),
        |i: int|
            if chosen.contains(grid.position_at(i)) {
                Cell::Active
            } else {
                cells[i]
            },
    )
}

/// The buffer that shows exactly the cells of `occupied` as active.
pub open spec fn rendering(grid: Grid, occupied: Set<Position>) -> Seq<Cell> {
    marked(blank(grid.area() as nat), grid, occupied)
}

/// The cells that a list of column and row pairs names.
pub open spec fn located(cell_locs: Seq<(u32, u32)>) -> Set<Position> {
    Set::new(
        |p: Position|
            exists|k: int| 0 <= k < cell_locs.len() && #[trigger] cell_locs[k] == (p.x, p.y),
    )
}

/// The slot after `cursor`, going round the pool.
pub open spec fn next_slot(cursor: int) -> int {
    (cursor + 1) % (POOL_SIZE as int)
}

/// The pool and the cursor after `shot` has been fired: the cursor moves on
/// to the next slot, and that slot, whatever it held, now holds `shot`.
pub open spec fn fire_into(bullets: Seq<Bullet>, cursor: int, shot: Bullet) -> (Seq<Bullet>, int) {
    (bullets.update(next_slot(cursor), shot), next_slot(cursor))
}

/// The pool and the cursor after `shots` have been fired one after the
/// other.
pub open spec fn volley(bullets: Seq<Bullet>, cursor: int, shots: Seq<Bullet>) -> (
    Seq<Bullet>,
    int,
)
    decreases shots.len(),
{
    if shots.len() == 0 {
        (bullets, cursor)
    } else {
        let (pool, cursor) = volley(bullets, cursor, shots.drop_last());
        fire_into(pool, cursor, shots.last())
    }
}

/// The asteroids of a list, each as the set of its cells.
pub open spec fn bodies(asteroids: Seq<Asteroid>) -> Seq<Set<Position>> {
    Seq::new(asteroids.len(), |j: int| asteroids[j].cells())
}

/// The part of the default block that lies in `grid`, if any of it does.
pub open spec fn seeded(grid: Grid) -> Seq<Set<Position>> {
    let body = block(Position { x: SEED_X, y: SEED_Y }, SEED_DIAMETER as int).filter(
        |p: Position| grid.contains(p),
    );
    if body == Set::<Position>::empty() {
        Seq::empty()
    } else {
        seq![body]
    }
}

/// The asteroid of a new universe is connected.
pub proof fn lemma_seeded_connected(grid: Grid)
    ensures
        forall|j: int| 0 <= j < seeded(grid).len() ==> is_connected(#[trigger] seeded(grid)[j]),
{
    lemma_clipped_block_connected(Position { x: SEED_X, y: SEED_Y }, SEED_DIAMETER as int, grid);
}

/// The index of the first asteroid at or after `from` that holds the cell
/// `p`; the length of the list where none does.
pub open spec fn first_hit_from(asteroids: Seq<Set<Position>>, p: Position, from: int) -> int
    decreases asteroids.len() - from,
{
    if from >= asteroids.len() {
        asteroids.len() as int
    } else if asteroids[from].contains(p) {
        from
    } else {
        first_hit_from(asteroids, p, from + 1)
    }
}

/// The list after a bullet has struck the asteroid at `index` in the cell
/// `hit`. The asteroid loses that cell. Where it breaks, it leaves the list
/// and its two parts join the end of the list; else it keeps its place.
pub open spec fn struck(
    asteroids: Seq<Set<Position>>,
    grid: Grid,
    index: int,
    hit: Position,
) -> Seq<Set<Position>> {
    let rest = asteroids[index].remove(hit);
    match fragments(rest, grid, hit) {
        Some((first, second)) => asteroids.remove(index).push(first).push(second),
        None => asteroids.update(index, rest),
    }
}

/// A struck asteroid that does not break keeps its place in the list: the
/// list is as long as before, the asteroid has lost the cell that was hit
/// and no other, and every other asteroid is as it was.
pub proof fn lemma_struck_unbroken(
    asteroids: Seq<Set<Position>>,
    grid: Grid,
    index: int,
    hit: Position,
)
    requires
        0 <= index < asteroids.len(),
        fragments(asteroids[index].remove(hit), grid, hit) is None,
    ensures
        struck(asteroids, grid, index, hit).len() == asteroids.len(),
        struck(asteroids, grid, index, hit)[index] == asteroids[index].remove(hit),
        forall|j: int|
            0 <= j < asteroids.len() && j != index ==> #[trigger] struck(
                asteroids,
                grid,
                index,
                hit,
            )[j] == asteroids[j],
{
}

/// A struck asteroid that breaks leaves the list to its two parts: the
/// asteroids before it keep their places, those after it move up by one, and
/// the two parts stand at the end.
pub proof fn lemma_struck_broken(
    asteroids: Seq<Set<Position>>,
    grid: Grid,
    index: int,
    hit: Position,
)
    requires
        0 <= index < asteroids.len(),
        fragments(asteroids[index].remove(hit), grid, hit) is Some,
    ensures
        ({
            let list = struck(asteroids, grid, index, hit);
            let (first, second) = fragments(asteroids[index].remove(hit), grid, hit).unwrap();
            &&& list.len() == asteroids.len() + 1
            &&& list[list.len() - 2] == first
            &&& list[list.len() - 1] == second
            &&& forall|j: int| 0 <= j < index ==> #[trigger] list[j] == asteroids[j]
            &&& forall|j: int|
                index <= j < asteroids.len() - 1 ==> #[trigger] list[j] == asteroids[j + 1]
        }),
{
}

/// One step of one bullet. An active bullet flies one cell; where it is
/// still active then and lies on a cell of an asteroid, it strikes the first
/// such asteroid of the list and becomes inactive.
pub open spec fn bullet_stepped(grid: Grid, bullet: Bullet, asteroids: Seq<Set<Position>>) -> (
    Bullet,
    Seq<Set<Position>>,
) {
    let flown = bullet.advanced(grid);
    let index = first_hit_from(asteroids, flown.position, 0);
    if flown.active && index < asteroids.len() {
        (
            Bullet { active: false, position: flown.position, direction: flown.direction },
            struck(asteroids, grid, index, flown.position),
        )
    } else {
        (flown, asteroids)
    }
}

/// The pool and the list after the first `n` bullets of the pool have made
/// their step, one after the other, each meeting the list as the ones before
/// it left it.
pub open spec fn bullets_stepped(
    grid: Grid,
    bullets: Seq<Bullet>,
    asteroids: Seq<Set<Position>>,
    n: nat,
) -> (Seq<Bullet>, Seq<Set<Position>>)
    decreases n,
{
    if n == 0 {
        (bullets, asteroids)
    } else {
        let (pool, list) = bullets_stepped(grid, bullets, asteroids, (n - 1) as nat);
        let (bullet, list) = bullet_stepped(grid, pool[n - 1], list);
        (pool.update(n - 1, bullet), list)
    }
}

/// The asteroids that have a cell left, in their order.
pub open spec fn surviving(asteroids: Seq<Set<Position>>) -> Seq<Set<Position>> {
    asteroids.filter(|body: Set<Position>| body != Set::<Position>::empty())
}

impl UniverseView {
    /// The cells that the player, the active bullets and the asteroids
    /// occupy.
    pub open spec fn occupied(self) -> Set<Position> {
        Set::new(
            |p: Position|
                {
                    ||| p == self.player_pos
                    ||| exists|i: int|
                        0 <= i < self.bullets.len() && (#[trigger] self.bullets[i]).active
                            && self.bullets[i].position == p
                    ||| exists|j: int|
                        0 <= j < self.asteroids.len() && #[trigger] self.asteroids[j].contains(p)
                },
        )
    }

    /// Everything lies in the grid, the buffer has one cell for each cell of
    /// the grid, the pool is complete, and no asteroid is empty.
    pub open spec fn wf(self) -> bool {
        &&& self.grid.wf()
        &&& self.cells.len() == self.grid.area()
        &&& self.grid.contains(self.player_pos)
        &&& self.bullets.len() == POOL_SIZE
        &&& 0 <= self.cursor < POOL_SIZE
        &&& forall|i: int|
            0 <= i < self.bullets.len() ==> self.grid.contains(
                (#[trigger] self.bullets[i]).position,
            )
        &&& forall|j: int, p: Position|
            0 <= j < self.asteroids.len() && #[trigger] self.asteroids[j].contains(p)
                ==> self.grid.contains(p)
        &&& forall|j: int|
            0 <= j < self.asteroids.len() ==> #[trigger] self.asteroids[j] != Set::<
                Position,
            >::empty()
    }

    /// A new universe on `grid`: the player in the middle, facing up; every
    /// bullet at rest; the default asteroid as far as it lies in the grid;
    /// and a buffer that shows the player alone.
    pub open spec fn initial(grid: Grid) -> UniverseView {
        let player_pos = Position { x: grid.width / 2, y: grid.height / 2 };
        UniverseView {
            grid,
            cells: rendering(grid, set![player_pos]),
            player_pos,
            player_direction: Direction::Up,
            bullets: Seq::new(
                POOL_SIZE as nat,
                |i: int|
                    Bullet {
                        active: false,
                        position: Position { x: 0, y: 0 },
                        direction: Direction::Up,
                    },
            ),
            cursor: 0,
            asteroids: seeded(grid),
        }
    }

    /// The buffer drawn anew from the player, the bullets and the
    /// asteroids.
    pub open spec fn rendered(self) -> UniverseView {
        UniverseView { cells: rendering(self.grid, self.occupied()), ..self }
    }

    /// One step of the simulation: every bullet makes its step, in pool
    /// order; asteroids without a cell leave the list; and the buffer is
    /// drawn anew.
    pub open spec fn ticked(self) -> UniverseView {
        let (bullets, asteroids) = bullets_stepped(
            self.grid,
            self.bullets,
            self.asteroids,
            self.bullets.len(),
        );
        (UniverseView { bullets, asteroids: surviving(asteroids), ..self }).rendered()
    }

    /// The player turned to `direction` and moved one step that way.
    pub open spec fn moved(self, direction: Direction) -> UniverseView {
        UniverseView {
            player_direction: direction,
            player_pos: self.grid.step(self.player_pos, direction),
            ..self
        }
    }

    /// The bullet that the player fires: one step ahead, flying the way the
    /// player faces.
    pub open spec fn shot(self) -> Bullet {
        Bullet {
            active: true,
            position: self.grid.step(self.player_pos, self.player_direction),
            direction: self.player_direction,
        }
    }

    /// A bullet fired: the next slot of the pool, whatever it held, now
    /// holds the new bullet.
    pub open spec fn fired(self) -> UniverseView {
        let (bullets, cursor) = fire_into(self.bullets, self.cursor, self.shot());
        UniverseView { bullets, cursor, ..self }
    }
}

/// The slot that the shot with number `j`, counted from 0, goes to when the
/// cursor stood at `cursor` before the first shot.
pub open spec fn slot_of(cursor: int, j: int) -> int {
    (cursor + 1 + j) % (POOL_SIZE as int)
}

/// Two shots go to the same slot only if a whole number of rounds lies
/// between them.
proof fn lemma_slots_differ(cursor: int, i: int, j: int)
    requires
        0 <= cursor,
        0 <= i < j < i + POOL_SIZE,
    ensures
        slot_of(cursor, i) != slot_of(cursor, j),
        0 <= slot_of(cursor, i) < POOL_SIZE,
        slot_of(cursor, i + 1) == next_slot(slot_of(cursor, i)),
        slot_of(cursor, 0) == next_slot(cursor),
{
}

/// A slot is reached by the shot whose number is its distance from the
/// cursor, and by no earlier shot.
proof fn lemma_slot_distance(cursor: int, slot: int, j: int)
    requires
        0 <= cursor < POOL_SIZE,
        0 <= slot < POOL_SIZE,
        0 <= j,
        slot_of(cursor, j) == slot,
    ensures
        (slot - cursor - 1) % (POOL_SIZE as int) <= j,
{
}

/// The pool is used round robin. After any number of shots the cursor has
/// gone that many slots round the pool; each of the last shots, as many as
/// the pool has slots, lies in its slot; and a slot that no shot reached
/// holds what it held.
pub proof fn lemma_volley(bullets: Seq<Bullet>, cursor: int, shots: Seq<Bullet>)
    requires
        bullets.len() == POOL_SIZE,
        0 <= cursor < POOL_SIZE,
    ensures
        ({
            let (pool, last) = volley(bullets, cursor, shots);
            &&& pool.len() == POOL_SIZE
            &&& last == (cursor + shots.len()) % (POOL_SIZE as int)
            &&& forall|j: int|
                0 <= j < shots.len() && shots.len() - j <= POOL_SIZE ==> pool[slot_of(cursor, j)]
                    == #[trigger] shots[j]
            &&& forall|slot: int|
                0 <= slot < POOL_SIZE && (slot - cursor - 1) % (POOL_SIZE as int) >= shots.len()
                    ==> #[trigger] pool[slot] == bullets[slot]
        }),
    decreases shots.len(),
{
    if shots.len() > 0 {
        let earlier = shots.drop_last();
        let newest = shots.len() - 1;
        lemma_volley(bullets, cursor, earlier);
        let (before, cursor_before) = volley(bullets, cursor, earlier);
        let (pool, last) = volley(bullets, cursor, shots);
        assert(next_slot(cursor_before) == slot_of(cursor, newest));
        assert(pool == before.update(slot_of(cursor, newest), shots[newest]));
        assert(last == slot_of(cursor, newest));
        assert forall|j: int|
            0 <= j < shots.len() && shots.len() - j <= POOL_SIZE implies pool[slot_of(cursor, j)]
                == #[trigger] shots[j] by {
            if j < newest {
                lemma_slots_differ(cursor, j, newest);
                assert(earlier[j] == shots[j]);
            } else {
                lemma_slots_differ(cursor, j, j + 1);
            }
        }
        assert forall|slot: int|
            0 <= slot < POOL_SIZE && (slot - cursor - 1) % (POOL_SIZE as int)
                >= shots.len() implies #[trigger] pool[slot] == bullets[slot] by {
            if slot == slot_of(cursor, newest) {
                lemma_slot_distance(cursor, slot, newest);
            }
            assert(before[slot] == bullets[slot]);
        }
    }
}

/// Firing once more than the pool has slots loses the bullet that was fired
/// first: the last shot takes the slot that the first shot took.
pub proof fn lemma_pool_overwrite(bullets: Seq<Bullet>, cursor: int, shots: Seq<Bullet>)
    requires
        bullets.len() == POOL_SIZE,
        0 <= cursor < POOL_SIZE,
        shots.len() == POOL_SIZE + 1,
    ensures
        volley(bullets, cursor, shots.take(1)).0[next_slot(cursor)] == shots[0],
        volley(bullets, cursor, shots).0[next_slot(cursor)] == shots[POOL_SIZE as int],
{
    lemma_volley(bullets, cursor, shots.take(1));
    assert(shots.take(1)[0] == shots[0]);
    lemma_volley(bullets, cursor, shots);
    assert(slot_of(cursor, 0) == next_slot(cursor));
    assert(slot_of(cursor, POOL_SIZE as int) == next_slot(cursor));
    assert(shots[POOL_SIZE as int] == shots[POOL_SIZE as int]);
}

/// A list in which every entry passes a filter passes it whole.
proof fn lemma_filter_keeps_all(s: Seq<Set<Position>>, keep: spec_fn(Set<Position>) -> bool)
    requires
        forall|i: int| 0 <= i < s.len() ==> keep(#[trigger] s[i]),
    ensures
        s.filter(keep) == s,
    decreases s.len(),
{
    reveal(Seq::filter);
    if s.len() > 0 {
        lemma_filter_keeps_all(s.drop_last(), keep);
    }
}

/// Bullets at rest stay at rest, and leave the asteroids alone.
proof fn lemma_idle_bullets(
    grid: Grid,
    bullets: Seq<Bullet>,
    asteroids: Seq<Set<Position>>,
    n: nat,
)
    requires
        n <= bullets.len(),
        forall|i: int| 0 <= i < bullets.len() ==> !(#[trigger] bullets[i]).active,
    ensures
        bullets_stepped(grid, bullets, asteroids, n) == (bullets, asteroids),
    decreases n,
{
    if n > 0 {
        lemma_idle_bullets(grid, bullets, asteroids, (n - 1) as nat);
    }
}

/// A step with no bullet in flight moves nothing: it only draws the buffer
/// anew. With no asteroid, the buffer then shows the player alone; and a
/// buffer that showed the universe as it is stays as it was.
pub proof fn lemma_idle_tick(v: UniverseView)
    requires
        v.wf(),
        forall|i: int| 0 <= i < v.bullets.len() ==> !(#[trigger] v.bullets[i]).active,
    ensures
        v.ticked() == v.rendered(),
        v.asteroids.len() == 0 ==> v.ticked().cells == rendering(v.grid, set![v.player_pos]),
        v.cells == rendering(v.grid, v.occupied()) ==> v.ticked() == v,
{
    lemma_idle_bullets(v.grid, v.bullets, v.asteroids, v.bullets.len());
    lemma_filter_keeps_all(v.asteroids, |body: Set<Position>| body != Set::<Position>::empty());
}

/// A bullet fired into a slot at rest shows as one more active cell, the
/// cell one step ahead of the player, once the buffer is drawn; the player's
/// own cell shows as before. Firing itself leaves the buffer as it is.
pub proof fn lemma_fired_shows(v: UniverseView)
    requires
        v.wf(),
        !v.bullets[next_slot(v.cursor)].active,
    ensures
        v.fired().cells == v.cells,
        v.fired().occupied() == v.occupied().insert(v.shot().position),
        v.fired().rendered().cells == v.rendered().cells.update(
            v.grid.index(v.shot().position),
            Cell::Active,
        ),
        v.fired().rendered().cells[v.grid.index(v.player_pos)] == Cell::Active,
{
    let w = v.fired();
    let slot = next_slot(v.cursor);
    let front = v.shot().position;
    assert forall|p: Position| w.occupied().contains(p) <==> v.occupied().insert(front).contains(
        p,
    ) by {
        if exists|i: int|
            0 <= i < v.bullets.len() && (#[trigger] v.bullets[i]).active && v.bullets[i].position
                == p {
            let i = choose|i: int|
                0 <= i < v.bullets.len() && (#[trigger] v.bullets[i]).active
                    && v.bullets[i].position == p;
            assert(w.bullets[i].active && w.bullets[i].position == p);
        }
        if p == front {
            assert(w.bullets[slot].active && w.bullets[slot].position == p);
        }
    }
    lemma_marked_insert(blank(v.grid.area() as nat), v.grid, v.occupied(), front);
    lemma_index_in_range(v.grid, v.player_pos);
    lemma_position_at_index(v.grid, v.player_pos);
}

/// Making one more cell of the grid active changes the buffer at the index
/// of that cell, and nowhere else.
pub proof fn lemma_marked_insert(cells: Seq<Cell>, grid: Grid, chosen: Set<Position>, p: Position)
    requires
        grid.wf(),
        cells.len() == grid.area(),
        grid.contains(p),
    ensures
        0 <= grid.index(p) < cells.len(),
        marked(cells, grid, chosen.insert(p)) == marked(cells, grid, chosen).update(
            grid.index(p),
            Cell::Active,
        ),
{
    lemma_index_in_range(grid, p);
    lemma_position_at_index(grid, p);
    let a = marked(cells, grid, chosen.insert(p));
    let b = marked(cells, grid, chosen).update(grid.index(p), Cell::Active);
    assert forall|i: int| 0 <= i < a.len() implies a[i] == b[i] by {
        lemma_index_position_at(grid, i);
    }
}

/// Makes the cells of `positions` active in the buffer.
fn paint(cells: &mut Vec<Cell>, grid: &Grid, positions: &Vec<Position>)
    requires
        grid.wf(),
        old(cells)@.len() == grid.area(),
        forall|k: int| 0 <= k < positions@.len() ==> grid.contains(#[trigger] positions@[k]),
    ensures
        final(cells)@ == marked(old(cells)@, *grid, positions@.to_set()),
{
    let mut k: usize = 0;
    while k < positions.len()
        invariant
            k <= positions@.len(),
            grid.wf(),
            cells@.len() == grid.area(),
            old(cells)@.len() == grid.area(),
            forall|k: int| 0 <= k < positions@.len() ==> grid.contains(#[trigger] positions@[k]),
            cells@ == marked(old(cells)@, *grid, positions@.take(k as int).to_set()),
        decreases positions@.len() - k,
    {
        let position = positions[k];
        proof {
            let done = positions@.take(k as int).to_set();
            lemma_marked_insert(old(cells)@, *grid, done, position);
            assert(positions@.take(k + 1).to_set() =~= done.insert(position)) by {
                assert forall|p: Position|
                    positions@.take(k + 1).to_set().contains(p) <==> done.insert(position).contains(
                        p,
                    ) by {
                    let longer = positions@.take(k + 1);
                    let shorter = positions@.take(k as int);
                    assert(longer[k as int] == position);
                }
            }
        }
        let index = grid.get_index_from_position(&position).unwrap();
        cells.set(index, Cell::Active);
        k += 1;
    }
    assert(positions@.take(positions@.len() as int) =~= positions@);
}

/// Adds the cells that `object` occupies to `alive`.
fn gather<R: Renderable>(alive: &mut Vec<Position>, object: &R)
    ensures
        final(alive)@ == old(alive)@ + object.occupied(),
{
    let cells = object.render();
    let mut k: usize = 0;
    while k < cells.len()
        invariant
            k <= cells@.len(),
            cells@.len() == object.occupied().len(),
            forall|i: int| 0 <= i < cells@.len() ==> *cells@[i] == object.occupied()[i],
            alive@ == old(alive)@ + object.occupied().take(k as int),
        decreases cells@.len() - k,
    {
        alive.push(*cells[k]);
        k += 1;
    }
}

/// No asteroid that survives is without a cell.
proof fn lemma_survivors_hold_cells(kept: Seq<Set<Position>>, all: Seq<Set<Position>>, j: int)
    requires
        kept == surviving(all),
        0 <= j < kept.len(),
    ensures
        kept[j] != Set::<Position>::empty(),
{
    let keep = |body: Set<Position>| body != Set::<Position>::empty();
    all.lemma_filter_pred(keep, j);
}

/// Makes every cell of the buffer inactive.
fn clear(cells: &mut Vec<Cell>)
    ensures
        final(cells)@ == blank(old(cells)@.len()),
{
    let mut idx: usize = 0;
    while idx < cells.len()
        invariant
            idx <= cells@.len(),
            cells@.len() == old(cells)@.len(),
            forall|i: int| 0 <= i < idx ==> cells@[i] == Cell::Inactive,
        decreases cells@.len() - idx,
    {
        cells.set(idx, Cell::Inactive);
        idx += 1;
    }
}

/// A cell occurs in two lists joined exactly if it occurs in one of them.
proof fn lemma_contains_joined(a: Seq<Position>, b: Seq<Position>, p: Position)
    ensures
        (a + b).contains(p) <==> a.contains(p) || b.contains(p),
{
    let joined = a + b;
    if a.contains(p) {
        let k = choose|k: int| 0 <= k < a.len() && a[k] == p;
        assert(joined[k] == p);
    }
    if b.contains(p) {
        let k = choose|k: int| 0 <= k < b.len() && b[k] == p;
        assert(joined[a.len() + k] == p);
    }
}

/// A bullet lies on a cell of an asteroid exactly if the two have a cell in
/// common; that cell is then the bullet's.
proof fn lemma_bullet_meets(bullet: Bullet, asteroid: Asteroid)
    ensures
        first_common(bullet.occupied(), asteroid.occupied()) == if bullet.active
            && asteroid.cells().contains(bullet.position) {
            Some(bullet.position)
        } else {
            None
        },
{
    let ours = bullet.occupied();
    if bullet.active {
        assert(first_common(ours.drop_first(), asteroid.occupied()) is None);
    }
}

/// One step of `bullet`: its flight, and its strike where it meets an
/// asteroid.
fn fly(bullet: &mut Bullet, asteroids: &mut Vec<Asteroid>, grid: &Grid)
    requires
        grid.contains(old(bullet).position),
        forall|j: int| 0 <= j < old(asteroids)@.len() ==> (#[trigger] old(asteroids)@[j]).wf(*grid),
    ensures
        (*final(bullet), bodies(final(asteroids)@)) == bullet_stepped(
            *grid,
            *old(bullet),
            bodies(old(asteroids)@),
        ),
        grid.contains(final(bullet).position),
        forall|j: int|
            0 <= j < final(asteroids)@.len() ==> (#[trigger] final(asteroids)@[j]).wf(*grid),
{
    if !bullet.active {
        return ;
    }
    bullet.advance(grid);
    let ghost list = bodies(asteroids@);
    let mut j: usize = 0;
    while j < asteroids.len()
        invariant
            j <= asteroids@.len(),
            asteroids@ == old(asteroids)@,
            list == bodies(asteroids@),
            *bullet == old(bullet).advanced(*grid),
            grid.contains(bullet.position),
            forall|j: int| 0 <= j < asteroids@.len() ==> (#[trigger] asteroids@[j]).wf(*grid),
            first_hit_from(list, bullet.position, 0) == first_hit_from(
                list,
                bullet.position,
                j as int,
            ),
        decreases asteroids@.len() - j,
    {
        proof {
            lemma_bullet_meets(*bullet, asteroids@[j as int]);
        }
        match grid.check_collision(&*bullet, &asteroids[j]) {
            None => {
                if bullet.active {
                    j += 1;
                } else {
                    return ;
                }
            },
            Some(collision_position) => {
                let mut asteroid = asteroids.remove(j);
                let broken = asteroid.process_collision(&collision_position, grid);
                bullet.active = false;
                match broken {
                    Some((asteroid_1, asteroid_2)) => {
                        asteroids.push(asteroid_1);
                        asteroids.push(asteroid_2);
                    },
                    None => {
                        asteroids.insert(j, asteroid);
                    },
                }
                return ;
            },
        }
    }
}

/// Takes the asteroids without a cell out of the list.
fn drop_empty(asteroids: &mut Vec<Asteroid>)
    ensures
        bodies(final(asteroids)@) == surviving(bodies(old(asteroids)@)),
        forall|j: int|
            0 <= j < final(asteroids)@.len() ==> exists|k: int|
                0 <= k < old(asteroids)@.len()
                    && old(asteroids)@[k] == #[trigger] final(asteroids)@[j],
{
    let ghost before = bodies(asteroids@);
    let ghost keep = |body: Set<Position>| body != Set::<Position>::empty();
    let ghost mut seen: int = 0;
    let mut j: usize = 0;
    proof {
        reveal(Seq::filter);
    }
    while j < asteroids.len()
        invariant
            j <= asteroids@.len(),
            0 <= seen <= old(asteroids)@.len(),
            before == bodies(old(asteroids)@),
            keep == |body: Set<Position>| body != Set::<Position>::empty(),
            asteroids@.len() - j == old(asteroids)@.len() - seen,
            asteroids@.skip(j as int) == old(asteroids)@.skip(seen),
            bodies(asteroids@.take(j as int)) == before.take(seen).filter(keep),
            forall|a: int|
                0 <= a < j ==> exists|k: int|
                    0 <= k < old(asteroids)@.len()
                        && old(asteroids)@[k] == #[trigger] asteroids@[a],
        decreases asteroids@.len() - j,
    {
        let ghost now = asteroids@;
        proof {
            reveal(Seq::filter);
            assert(now[j as int] == now.skip(j as int)[0]);
            assert(before.take(seen + 1).drop_last() =~= before.take(seen));
        }
        if asteroids[j].is_empty() {
            asteroids.remove(j);
            proof {
                let tail = asteroids@.skip(j as int);
                let expected = old(asteroids)@.skip(seen + 1);
                assert forall|a: int| 0 <= a < tail.len() implies #[trigger] tail[a]
                    == expected[a] by {
                    assert(now.skip(j as int)[a + 1] == old(asteroids)@.skip(seen)[a + 1]);
                }
                seen = seen + 1;
            }
        } else {
            proof {
                let tail = asteroids@.skip(j + 1);
                let expected = old(asteroids)@.skip(seen + 1);
                assert forall|a: int| 0 <= a < tail.len() implies #[trigger] tail[a]
                    == expected[a] by {
                    assert(now.skip(j as int)[a + 1] == old(asteroids)@.skip(seen)[a + 1]);
                }
                assert(bodies(now.take(j + 1)) =~= bodies(now.take(j as int)).push(
                    now[j as int].cells(),
                ));
                seen = seen + 1;
            }
            j += 1;
        }
    }
    proof {
        assert(before.take(seen) =~= before);
    }
}

/// The simulated world.
pub struct Universe {
    map: Grid,
    cells: Vec<Cell>,
    player_pos: Position,
    player_direction: Direction,
    bullets: Vec<Bullet>,
    cur_bullet_index: usize,
    asteroids: Vec<Asteroid>,
}

impl View for Universe {
    type V = UniverseView;

    closed spec fn view(&self) -> UniverseView {
        UniverseView {
            grid: self.map,
            cells: self.cells@,
            player_pos: self.player_pos,
            player_direction: self.player_direction,
            bullets: self.bullets@,
            cursor: self.cur_bullet_index as int,
            asteroids: bodies(self.asteroids@),
        }
    }
}

impl Universe {
    /// The universe is in order: its value is, and no asteroid lists a cell
    /// twice.
    pub closed spec fn wf(&self) -> bool {
        &&& self@.wf()
        &&& forall|j: int|
            0 <= j < self.asteroids@.len() ==> (#[trigger] self.asteroids@[j]).wf(self.map)
    }

    /// The grid of the universe.
    pub fn grid(&self) -> (grid: Grid)
        ensures
            grid == self@.grid,
    {
        self.map
    }

    /// Number of columns of the grid.
    pub fn width(&self) -> (width: u32)
        ensures
            width == self@.grid.width,
    {
        self.map.width
    }

    /// Number of rows of the grid.
    pub fn height(&self) -> (height: u32)
        ensures
            height == self@.grid.height,
    {
        self.map.height
    }

    /// The buffer, row by row: one cell for each cell of the grid.
    pub fn get_cells(&self) -> (cells: &Vec<Cell>)
        ensures
            cells@ == self@.cells,
    {
        &self.cells
    }

    /// The cell that the player stands on.
    pub fn player_position(&self) -> (position: Position)
        ensures
            position == self@.player_pos,
    {
        self.player_pos
    }

    /// The direction that the player faces.
    pub fn player_direction(&self) -> (direction: Direction)
        ensures
            direction == self@.player_direction,
    {
        self.player_direction
    }

    /// The pool of bullets, by slot.
    pub fn bullets(&self) -> (bullets: &Vec<Bullet>)
        ensures
            bullets@ == self@.bullets,
    {
        &self.bullets
    }

    /// The asteroids, in list order.
    pub fn asteroids(&self) -> (asteroids: &Vec<Asteroid>)
        ensures
            bodies(asteroids@) == self@.asteroids,
    {
        &self.asteroids
    }

    /// A universe on `map`: the player in the middle, facing up; a pool of
    /// bullets at rest; one asteroid, the default block as far as it lies in
    /// the grid. The buffer shows the player.
    pub fn new(map: Grid) -> (universe: Universe)
        requires
            map.wf(),
        ensures
            universe.wf(),
            universe@ == UniverseView::initial(map),
    {
        let player_pos = Position { x: map.width / 2, y: map.height / 2 };
        let player_direction = Direction::Up;

        let mut asteroid = Asteroid::new(Position { x: SEED_X, y: SEED_Y }, SEED_DIAMETER);
        asteroid.clip_to(&map);
        let mut asteroids: Vec<Asteroid> = Vec::new();
        if !asteroid.is_empty() {
            asteroids.push(asteroid);
        }

        let count = map.width * map.height;
        let mut cells: Vec<Cell> = Vec::new();
        let mut i: u32 = 0;
        while i < count
            invariant
                i <= count,
                cells@.len() == i,
                forall|k: int| 0 <= k < i ==> cells@[k] == Cell::Inactive,
            decreases count - i,
        {
            cells.push(Cell::Inactive);
            i += 1;
        }
        let mut alive_positions: Vec<Position> = Vec::new();
        alive_positions.push(player_pos);
        assert(alive_positions@[0] == player_pos);
        paint(&mut cells, &map, &alive_positions);

        let mut bullets: Vec<Bullet> = Vec::with_capacity(POOL_SIZE);
        let mut n: usize = 0;
        while n < POOL_SIZE
            invariant
                n <= POOL_SIZE,
                bullets@.len() == n,
                forall|k: int|
                    0 <= k < n ==> bullets@[k] == (Bullet {
                        active: false,
                        position: Position { x: 0, y: 0 },
                        direction: Direction::Up,
                    }),
            decreases POOL_SIZE - n,
        {
            bullets.push(Bullet::new());
            n += 1;
        }
        let cur_bullet_index: usize = 0;

        let universe = Universe {
            cells,
            player_pos,
            player_direction,
            bullets,
            cur_bullet_index,
            asteroids,
            map,
        };
        universe
    }

    /// A universe on the default grid of 64 by 64 cells.
    pub fn new_default() -> (universe: Universe)
        ensures
            universe.wf(),
            universe@ == UniverseView::initial(Grid { height: 64, width: 64 }),
    {
        let height: u32 = 64;
        let width: u32 = 64;
        let map = Grid::new(width, height);
        Universe::new(map)
    }

    /// The cells that the player, the active bullets and the asteroids
    /// occupy: the cells that the buffer is to show.
    fn alive_positions(&self) -> (alive: Vec<Position>)
        requires
            self.wf(),
        ensures
            alive@.to_set() == self@.occupied(),
            forall|k: int| 0 <= k < alive@.len() ==> self@.grid.contains(#[trigger] alive@[k]),
    {
        let mut alive: Vec<Position> = Vec::new();
        alive.push(self.player_pos);
        assert(alive@[0] == self.player_pos);
        let mut i: usize = 0;
        while i < self.bullets.len()
            invariant
                self.wf(),
                i <= self.bullets@.len(),
                forall|k: int| 0 <= k < alive@.len() ==> self.map.contains(#[trigger] alive@[k]),
                forall|p: Position|
                    alive@.contains(p) <==> (p == self.player_pos || exists|b: int|
                        0 <= b < i && (#[trigger] self.bullets@[b]).active
                            && self.bullets@[b].position == p),
            decreases self.bullets@.len() - i,
        {
            let ghost before = alive@;
            gather(&mut alive, &self.bullets[i]);
            proof {
                let added = self.bullets@[i as int].occupied();
                assert forall|p: Position|
                    alive@.contains(p) <==> (p == self.player_pos || exists|b: int|
                        0 <= b < i + 1 && (#[trigger] self.bullets@[b]).active
                            && self.bullets@[b].position == p) by {
                    lemma_contains_joined(before, added, p);
                    if self.bullets@[i as int].active && self.bullets@[i as int].position == p {
                        assert(added[0] == p);
                    }
                }
            }
            i += 1;
        }
        let mut j: usize = 0;
        while j < self.asteroids.len()
            invariant
                self.wf(),
                j <= self.asteroids@.len(),
                forall|k: int| 0 <= k < alive@.len() ==> self.map.contains(#[trigger] alive@[k]),
                forall|p: Position|
                    alive@.contains(p) <==> (p == self.player_pos || (exists|b: int|
                        0 <= b < self.bullets@.len() && (#[trigger] self.bullets@[b]).active
                            && self.bullets@[b].position == p) || (exists|a: int|
                        0 <= a < j && #[trigger] self.asteroids@[a]@.contains(p))),
            decreases self.asteroids@.len() - j,
        {
            let ghost before = alive@;
            gather(&mut alive, &self.asteroids[j]);
            proof {
                let added = self.asteroids@[j as int]@;
                assert forall|p: Position|
                    alive@.contains(p) <==> (p == self.player_pos || (exists|b: int|
                        0 <= b < self.bullets@.len() && (#[trigger] self.bullets@[b]).active
                            && self.bullets@[b].position == p) || (exists|a: int|
                        0 <= a < j + 1 && #[trigger] self.asteroids@[a]@.contains(p))) by {
                    lemma_contains_joined(before, added, p);
                }
            }
            j += 1;
        }
        proof {
            assert forall|p: Position| alive@.to_set().contains(p) <==> self@.occupied().contains(
                p,
            ) by {
                if exists|a: int|
                    0 <= a < self.asteroids@.len() && #[trigger] self.asteroids@[a]@.contains(p) {
                    let a = choose|a: int|
                        0 <= a < self.asteroids@.len() && #[trigger] self.asteroids@[a]@.contains(
                            p,
                        );
                    assert(self@.asteroids[a].contains(p));
                }
            }
        }
        alive
    }

    /// Draws the buffer anew: every cell inactive but those of the player,
    /// of the active bullets and of the asteroids.
    pub fn render(&mut self)
        requires
            old(self).wf(),
        ensures
            final(self).wf(),
            final(self)@ == old(self)@.rendered(),
    {
        let alive_positions = self.alive_positions();
        clear(&mut self.cells);
        paint(&mut self.cells, &self.map, &alive_positions);
    }

    /// Makes the listed cells, each given by column and row, active in the
    /// buffer, whatever the universe holds there. Where a listed cell lies
    /// outside the grid nothing is changed.
    pub fn set_cells(&mut self, cell_locs: &[(u32, u32)]) -> (result: Result<(), BoundsError>)
        requires
            old(self).wf(),
        ensures
            final(self).wf(),
            result.is_err() <==> exists|k: int|
                0 <= k < cell_locs@.len() && !old(self)@.grid.contains(
                    Position { x: (#[trigger] cell_locs@[k]).0, y: cell_locs@[k].1 },
                ),
            final(self)@ == if result.is_ok() {
                UniverseView {
                    cells: marked(old(self)@.cells, old(self)@.grid, located(cell_locs@)),
                    ..old(self)@
                }
            } else {
                old(self)@
            },
    {
        let mut positions: Vec<Position> = Vec::new();
        let mut k: usize = 0;
        while k < cell_locs.len()
            invariant
                *self == *old(self),
                self.wf(),
                k <= cell_locs@.len(),
                positions@.len() == k,
                forall|i: int|
                    0 <= i < k ==> (#[trigger] positions@[i]) == (Position {
                        x: cell_locs@[i].0,
                        y: cell_locs@[i].1,
                    }) && self.map.contains(positions@[i]),
            decreases cell_locs@.len() - k,
        {
            let cell_loc = cell_locs[k];
            let position = Position { x: cell_loc.0, y: cell_loc.1 };
            if self.map.get_index_from_position(&position).is_err() {
                return Err(BoundsError);
            }
            positions.push(position);
            k += 1;
        }
        proof {
            assert forall|p: Position| positions@.to_set().contains(p) <==> located(
                cell_locs@,
            ).contains(p) by {
                if located(cell_locs@).contains(p) {
                    let i = choose|i: int|
                        0 <= i < cell_locs@.len() && #[trigger] cell_locs@[i] == (p.x, p.y);
                    assert(positions@[i] == p);
                }
            }
            assert forall|i: int| 0 <= i < cell_locs@.len() implies self.map.contains(
                Position { x: (#[trigger] cell_locs@[i]).0, y: cell_locs@[i].1 },
            ) by {
                assert(self.map.contains(positions@[i]));
            }
        }
        paint(&mut self.cells, &self.map, &positions);
        Ok(())
    }

    /// Puts the player on `position`, whatever lies between.
    pub fn set_player_position(&mut self, position: Position)
        requires
            old(self).wf(),
            old(self)@.grid.contains(position),
        ensures
            final(self).wf(),
            final(self)@ == (UniverseView { player_pos: position, ..old(self)@ }),
    {
        self.player_pos = position;
    }

    /// Moves on to the next slot of the pool, going round, and returns it.
    fn next_bullet_index(&mut self) -> (next_index: usize)
        requires
            old(self).wf(),
        ensures
            final(self).wf(),
            next_index == next_slot(old(self)@.cursor),
            final(self)@ == (UniverseView { cursor: next_index as int, ..old(self)@ }),
    {
        let mut next_index = self.cur_bullet_index + 1;
        let bullets_len = self.bullets.len();
        if next_index > bullets_len - 1 {
            next_index = 0;
        }
        self.cur_bullet_index = next_index;
        next_index
    }

    /// Fires a bullet from the player's cell in the direction the player
    /// faces. It takes the next slot of the pool, and a bullet still in
    /// flight there is lost.
    pub fn shoot(&mut self)
        requires
            old(self).wf(),
        ensures
            final(self).wf(),
            final(self)@ == old(self)@.fired(),
    {
        let i = self.next_bullet_index();
        let direction = self.player_direction;
        let position = self.map.position_in_direction(&self.player_pos, &direction);
        self.bullets.set(i, Bullet { active: true, position: position, direction: direction });
    }

    /// One step of the simulation. Every active bullet flies one cell, and
    /// is spent where the grid ends or where it strikes an asteroid; a
    /// struck asteroid loses the cell and may break in two. The bullets
    /// take their turn in pool order, each meeting the asteroids as the
    /// bullets before it left them. Then the buffer is drawn anew.
    pub fn tick(&mut self)
        requires
            old(self).wf(),
        ensures
            final(self).wf(),
            final(self)@ == old(self)@.ticked(),
    {
        let mut i: usize = 0;
        while i < self.bullets.len()
            invariant
                i <= self.bullets@.len(),
                self.bullets@.len() == POOL_SIZE,
                self.map == old(self).map,
                self.map.wf(),
                self.cells == old(self).cells,
                self.player_pos == old(self).player_pos,
                self.player_direction == old(self).player_direction,
                self.cur_bullet_index == old(self).cur_bullet_index,
                forall|b: int|
                    0 <= b < self.bullets@.len() ==> self.map.contains(
                        (#[trigger] self.bullets@[b]).position,
                    ),
                forall|j: int|
                    0 <= j < self.asteroids@.len() ==> (#[trigger] self.asteroids@[j]).wf(self.map),
                (self.bullets@, bodies(self.asteroids@)) == bullets_stepped(
                    self.map,
                    old(self).bullets@,
                    bodies(old(self).asteroids@),
                    i as nat,
                ),
            decreases self.bullets@.len() - i,
        {
            let mut bullet = self.bullets[i];
            fly(&mut bullet, &mut self.asteroids, &self.map);
            self.bullets.set(i, bullet);
            i += 1;
        }
        drop_empty(&mut self.asteroids);
        proof {
            let list = bodies(self.asteroids@);
            assert forall|j: int| 0 <= j < list.len() implies #[trigger] list[j] != Set::<
                Position,
            >::empty() by {
                lemma_survivors_hold_cells(
                    bodies(self.asteroids@),
                    bullets_stepped(
                        self.map,
                        old(self).bullets@,
                        bodies(old(self).asteroids@),
                        POOL_SIZE as nat,
                    ).1,
                    j,
                );
            }
        }
        self.render();
    }

    /// Turns the player the way `command` names and moves it one step; a
    /// command that names no direction is reported and changes nothing.
    pub fn move_player(&mut self, command: String) -> (result: Result<(), InvalidDirection>)
        requires
            old(self).wf(),
        ensures
            final(self).wf(),
            match Direction::parse(command@) {
                Some(direction) => result.is_ok() && final(self)@ == old(self)@.moved(direction),
                None => result.is_err() && final(self)@ == old(self)@,
            },
    {
        match Direction::from_str(command.as_str()) {
            Ok(direction) => {
                self.player_direction = direction;
                self.player_pos = self.map.position_in_direction(
                    &self.player_pos,
                    &self.player_direction,
                );
                Ok(())
            },
            Err(error) => Err(error),
        }
    }
}

} // verus!
