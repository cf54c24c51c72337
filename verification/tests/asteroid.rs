use asteroids::{Asteroid, Bullet, Direction, Grid, Position, Renderable};

fn cells(asteroid: &Asteroid) -> Vec<(u32, u32)> {
    let mut cells: Vec<(u32, u32)> = asteroid.positions().iter().map(|p| (p.x, p.y)).collect();
    cells.sort();
    cells
}

fn sorted(mut cells: Vec<(u32, u32)>) -> Vec<(u32, u32)> {
    cells.sort();
    cells
}

#[test]
fn a_new_asteroid_is_a_solid_block() {
    let asteroid = Asteroid::new(Position::new(2, 3), 2);
    assert_eq!(cells(&asteroid), vec![(2, 3), (2, 4), (3, 3), (3, 4)]);
    let big = Asteroid::new(Position::new(45, 45), 9);
    assert_eq!(big.positions().len(), 81);
    for y in 45..54 {
        for x in 45..54 {
            assert!(big.positions().contains(&Position::new(x, y)));
        }
    }
}

#[test]
fn an_asteroid_of_diameter_zero_is_empty() {
    let asteroid = Asteroid::new(Position::new(2, 3), 0);
    assert!(asteroid.is_empty());
    assert!(asteroid.render().is_empty());
}

#[test]
fn render_lists_every_cell_once() {
    let asteroid = Asteroid::new(Position::new(1, 1), 3);
    let rendered = asteroid.render();
    assert_eq!(rendered.len(), 9);
    for (i, p) in rendered.iter().enumerate() {
        for q in rendered.iter().skip(i + 1) {
            assert_ne!(p, q);
        }
    }
    assert!(!asteroid.is_empty());
}

#[test]
fn clipping_keeps_the_cells_inside_the_grid() {
    let mut asteroid = Asteroid::new(Position::new(3, 3), 3);
    asteroid.clip_to(&Grid::new(5, 4));
    assert_eq!(cells(&asteroid), vec![(3, 3), (4, 3)]);
    let mut outside = Asteroid::new(Position::new(45, 45), 9);
    outside.clip_to(&Grid::new(5, 5));
    assert!(outside.is_empty());
    let mut inside = Asteroid::new(Position::new(45, 45), 9);
    inside.clip_to(&Grid::new(64, 64));
    assert_eq!(inside.positions().len(), 81);
}

#[test]
fn a_hit_with_four_neighbours_leaves_one_body() {
    let grid = Grid::new(8, 8);
    let mut asteroid = Asteroid::new(Position::new(2, 2), 3);
    let broken = asteroid.process_collision(&Position::new(3, 3), &grid);
    assert!(broken.is_none());
    assert_eq!(
        cells(&asteroid),
        vec![(2, 2), (2, 3), (2, 4), (3, 2), (3, 4), (4, 2), (4, 3), (4, 4)]
    );
}

#[test]
fn a_hit_with_three_neighbours_leaves_one_body() {
    let grid = Grid::new(8, 8);
    let mut asteroid = Asteroid::new(Position::new(2, 2), 3);
    let broken = asteroid.process_collision(&Position::new(3, 2), &grid);
    assert!(broken.is_none());
    assert_eq!(
        cells(&asteroid),
        vec![(2, 2), (2, 3), (2, 4), (3, 3), (3, 4), (4, 2), (4, 3), (4, 4)]
    );
}

#[test]
fn a_hit_with_two_neighbours_round_a_corner_leaves_one_body() {
    let grid = Grid::new(8, 8);
    let mut asteroid = Asteroid::new(Position::new(2, 2), 2);
    let broken = asteroid.process_collision(&Position::new(2, 2), &grid);
    assert!(broken.is_none());
    assert_eq!(cells(&asteroid), vec![(2, 3), (3, 2), (3, 3)]);
}

#[test]
fn a_body_round_a_corner_stays_one_body_though_it_falls_apart() {
    let grid = Grid::new(8, 8);
    let mut asteroid = Asteroid::new(Position::new(2, 2), 2);
    assert!(asteroid.process_collision(&Position::new(2, 2), &grid).is_none());
    // (3, 3) has a neighbour above and one to the left
    let broken = asteroid.process_collision(&Position::new(3, 3), &grid);
    assert!(broken.is_none());
    assert_eq!(cells(&asteroid), vec![(2, 3), (3, 2)]);
}

#[test]
fn a_hit_with_one_neighbour_leaves_one_body() {
    let grid = Grid::new(8, 8);
    let mut asteroid = Asteroid::new(Position::new(2, 2), 2);
    assert!(asteroid.process_collision(&Position::new(2, 2), &grid).is_none());
    let broken = asteroid.process_collision(&Position::new(3, 2), &grid);
    assert!(broken.is_none());
    assert_eq!(cells(&asteroid), vec![(2, 3), (3, 3)]);
    let broken = asteroid.process_collision(&Position::new(2, 3), &grid);
    assert!(broken.is_none());
    assert_eq!(cells(&asteroid), vec![(3, 3)]);
}

#[test]
fn a_hit_with_no_neighbour_leaves_an_empty_body() {
    let grid = Grid::new(8, 8);
    let mut asteroid = Asteroid::new(Position::new(5, 5), 1);
    let broken = asteroid.process_collision(&Position::new(5, 5), &grid);
    assert!(broken.is_none());
    assert!(asteroid.is_empty());
}

#[test]
fn a_body_breaks_between_left_and_right() {
    let grid = Grid::new(8, 8);
    let mut asteroid = Asteroid::new(Position::new(2, 2), 3);
    assert!(asteroid.process_collision(&Position::new(3, 2), &grid).is_none());
    assert!(asteroid.process_collision(&Position::new(3, 3), &grid).is_none());
    let broken = asteroid.process_collision(&Position::new(3, 4), &grid);
    let (first, second) = broken.expect("the body breaks");
    assert_eq!(cells(&first), vec![(4, 2), (4, 3), (4, 4)]);
    assert_eq!(cells(&second), vec![(2, 2), (2, 3), (2, 4)]);
    assert_eq!(
        cells(&asteroid),
        vec![(2, 2), (2, 3), (2, 4), (4, 2), (4, 3), (4, 4)]
    );
    // the parts share no cell and hold all that is left
    let mut both = cells(&first);
    both.extend(cells(&second));
    assert_eq!(sorted(both), cells(&asteroid));
}

#[test]
fn a_body_breaks_between_above_and_below() {
    let grid = Grid::new(8, 8);
    let mut asteroid = Asteroid::new(Position::new(2, 2), 3);
    assert!(asteroid.process_collision(&Position::new(2, 3), &grid).is_none());
    assert!(asteroid.process_collision(&Position::new(3, 3), &grid).is_none());
    let broken = asteroid.process_collision(&Position::new(4, 3), &grid);
    let (first, second) = broken.expect("the body breaks");
    assert_eq!(cells(&first), vec![(2, 2), (3, 2), (4, 2)]);
    assert_eq!(cells(&second), vec![(2, 4), (3, 4), (4, 4)]);
}

#[test]
fn a_broken_ring_yields_the_same_part_twice() {
    let grid = Grid::new(8, 8);
    let mut asteroid = Asteroid::new(Position::new(2, 2), 3);
    assert!(asteroid.process_collision(&Position::new(3, 3), &grid).is_none());
    let broken = asteroid.process_collision(&Position::new(3, 2), &grid);
    let (first, second) = broken.expect("left and right face each other across the gap");
    let rest = vec![(2, 2), (2, 3), (2, 4), (3, 4), (4, 2), (4, 3), (4, 4)];
    assert_eq!(cells(&first), rest);
    assert_eq!(cells(&second), rest);
}

#[test]
fn a_body_breaks_at_the_edge_of_the_grid() {
    let grid = Grid::new(3, 3);
    let mut asteroid = Asteroid::new(Position::new(0, 0), 3);
    assert!(asteroid.process_collision(&Position::new(1, 0), &grid).is_none());
    assert!(asteroid.process_collision(&Position::new(1, 1), &grid).is_none());
    // (1, 2) lies on the bottom edge: nothing below, nothing left above
    let broken = asteroid.process_collision(&Position::new(1, 2), &grid);
    let (first, second) = broken.expect("the body breaks");
    assert_eq!(cells(&first), vec![(2, 0), (2, 1), (2, 2)]);
    assert_eq!(cells(&second), vec![(0, 0), (0, 1), (0, 2)]);
}

#[test]
fn related_positions_are_those_that_can_be_reached() {
    let grid = Grid::new(8, 8);
    let mut asteroid = Asteroid::new(Position::new(0, 0), 3);
    assert!(asteroid.process_collision(&Position::new(1, 0), &grid).is_none());
    assert!(asteroid.process_collision(&Position::new(1, 1), &grid).is_none());
    let _ = asteroid.process_collision(&Position::new(1, 2), &grid);
    let left = Asteroid::find_related_positions(Position::new(0, 1), &asteroid, &grid);
    let mut left: Vec<(u32, u32)> = left.iter().map(|p| (p.x, p.y)).collect();
    left.sort();
    assert_eq!(left, vec![(0, 0), (0, 1), (0, 2)]);
    let right = Asteroid::generate_asteroid_from_position(&asteroid, &Position::new(2, 2), &grid);
    assert_eq!(cells(&right), vec![(2, 0), (2, 1), (2, 2)]);
}

#[test]
fn nothing_is_related_to_a_cell_outside_the_body() {
    let grid = Grid::new(8, 8);
    let asteroid = Asteroid::new(Position::new(0, 0), 2);
    let related = Asteroid::find_related_positions(Position::new(5, 5), &asteroid, &grid);
    assert!(related.is_empty());
    let next_to = Asteroid::find_related_positions(Position::new(2, 0), &asteroid, &grid);
    assert!(next_to.is_empty());
}

#[test]
fn the_whole_of_a_solid_block_is_related() {
    let grid = Grid::new(64, 64);
    let asteroid = Asteroid::new(Position::new(45, 45), 9);
    let related = Asteroid::find_related_positions(Position::new(49, 49), &asteroid, &grid);
    assert_eq!(related.len(), 81);
    let part = Asteroid::generate_asteroid_from_position(&asteroid, &Position::new(45, 53), &grid);
    assert_eq!(cells(&part), cells(&asteroid));
}

#[test]
fn a_collision_is_the_first_common_cell() {
    let grid = Grid::new(8, 8);
    let asteroid = Asteroid::new(Position::new(2, 2), 2);
    let on = Bullet { active: true, position: Position::new(3, 2), direction: Direction::Up };
    let off = Bullet { active: true, position: Position::new(4, 2), direction: Direction::Up };
    let spent = Bullet { active: false, position: Position::new(3, 2), direction: Direction::Up };
    assert_eq!(grid.check_collision(&on, &asteroid), Some(Position::new(3, 2)));
    assert_eq!(grid.check_collision(&asteroid, &on), Some(Position::new(3, 2)));
    assert_eq!(grid.check_collision(&off, &asteroid), None);
    assert_eq!(grid.check_collision(&spent, &asteroid), None);
    let other = Asteroid::new(Position::new(3, 3), 2);
    assert_eq!(grid.check_collision(&asteroid, &other), Some(Position::new(3, 3)));
    // the first cell of the first object, in its own order, that the second holds too
    let wide = Asteroid::new(Position::new(1, 1), 3);
    assert_eq!(grid.check_collision(&wide, &asteroid), Some(Position::new(2, 2)));
    assert_eq!(grid.check_collision(&asteroid, &wide), Some(Position::new(2, 2)));
}
