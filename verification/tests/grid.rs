use asteroids::{BoundsError, Direction, Grid, InvalidDirection, Position};

const ALL: [Direction; 4] = [Direction::Up, Direction::Right, Direction::Down, Direction::Left];

#[test]
fn index_is_row_major() {
    let grid = Grid::new(5, 4);
    assert_eq!(grid.get_index(0, 0), 0);
    assert_eq!(grid.get_index(4, 0), 4);
    assert_eq!(grid.get_index(0, 1), 5);
    assert_eq!(grid.get_index(3, 2), 13);
    assert_eq!(grid.get_index(4, 3), 19);
}

#[test]
fn index_from_position_matches_index() {
    let grid = Grid::new(7, 3);
    for y in 0..3 {
        for x in 0..7 {
            let expected = (y * 7 + x) as usize;
            assert_eq!(grid.get_index_from_position(&Position::new(x, y)), Ok(expected));
            assert_eq!(grid.get_index(x, y), expected);
        }
    }
}

#[test]
fn index_from_position_rejects_positions_outside() {
    let grid = Grid::new(5, 4);
    assert_eq!(grid.get_index_from_position(&Position::new(5, 0)), Err(BoundsError));
    assert_eq!(grid.get_index_from_position(&Position::new(0, 4)), Err(BoundsError));
    assert_eq!(grid.get_index_from_position(&Position::new(5, 4)), Err(BoundsError));
    assert_eq!(grid.get_index_from_position(&Position::new(u32::MAX, u32::MAX)), Err(BoundsError));
    assert_eq!(grid.get_index_from_position(&Position::new(4, 3)), Ok(19));
}

#[test]
fn step_moves_to_the_adjacent_cell() {
    let grid = Grid::new(5, 5);
    let p = Position::new(2, 2);
    assert_eq!(grid.position_in_direction(&p, &Direction::Up), Position::new(2, 1));
    assert_eq!(grid.position_in_direction(&p, &Direction::Right), Position::new(3, 2));
    assert_eq!(grid.position_in_direction(&p, &Direction::Down), Position::new(2, 3));
    assert_eq!(grid.position_in_direction(&p, &Direction::Left), Position::new(1, 2));
}

#[test]
fn step_is_clamped_at_each_edge() {
    let grid = Grid::new(5, 4);
    let top_left = Position::new(0, 0);
    let bottom_right = Position::new(4, 3);
    assert_eq!(grid.position_in_direction(&top_left, &Direction::Up), top_left);
    assert_eq!(grid.position_in_direction(&top_left, &Direction::Left), top_left);
    assert_eq!(grid.position_in_direction(&top_left, &Direction::Right), Position::new(1, 0));
    assert_eq!(grid.position_in_direction(&top_left, &Direction::Down), Position::new(0, 1));
    assert_eq!(grid.position_in_direction(&bottom_right, &Direction::Down), bottom_right);
    assert_eq!(grid.position_in_direction(&bottom_right, &Direction::Right), bottom_right);
    assert_eq!(grid.position_in_direction(&bottom_right, &Direction::Up), Position::new(4, 2));
    assert_eq!(grid.position_in_direction(&bottom_right, &Direction::Left), Position::new(3, 3));
}

#[test]
fn clamping_is_idempotent() {
    let grid = Grid::new(6, 3);
    for y in 0..3 {
        for x in 0..6 {
            let p = Position::new(x, y);
            for d in ALL.iter() {
                let once = grid.position_in_direction(&p, d);
                if once == p {
                    let twice = grid.position_in_direction(&once, d);
                    assert_eq!(twice, once);
                }
            }
        }
    }
}

#[test]
fn steps_never_leave_the_grid() {
    let grid = Grid::new(4, 6);
    for d in ALL.iter() {
        let mut p = Position::new(1, 2);
        for _ in 0..10 {
            p = grid.position_in_direction(&p, d);
            assert!(p.x < 4 && p.y < 6);
        }
        let edge = match d {
            Direction::Up => Position::new(1, 0),
            Direction::Right => Position::new(3, 2),
            Direction::Down => Position::new(1, 5),
            Direction::Left => Position::new(0, 2),
        };
        assert_eq!(p, edge);
    }
}

#[test]
fn a_grid_of_one_cell_holds_every_step() {
    let grid = Grid::new(1, 1);
    let p = Position::new(0, 0);
    for d in ALL.iter() {
        assert_eq!(grid.position_in_direction(&p, d), p);
    }
}

#[test]
fn a_position_beyond_an_edge_is_not_carried_further() {
    let grid = Grid::new(5, 5);
    let p = Position::new(u32::MAX, u32::MAX);
    assert_eq!(grid.position_in_direction(&p, &Direction::Right), p);
    assert_eq!(grid.position_in_direction(&p, &Direction::Down), p);
}

#[test]
fn tokens_name_directions() {
    assert_eq!(Direction::from_str("up"), Ok(Direction::Up));
    assert_eq!(Direction::from_str("right"), Ok(Direction::Right));
    assert_eq!(Direction::from_str("down"), Ok(Direction::Down));
    assert_eq!(Direction::from_str("left"), Ok(Direction::Left));
}

#[test]
fn other_tokens_are_invalid() {
    for token in ["", "Up", "UP", "u", "upp", " up", "up ", "north", "rightt", "lef", "dowm", "左"] {
        assert_eq!(Direction::from_str(token), Err(InvalidDirection));
    }
}

#[test]
fn position_new_keeps_coordinates() {
    let p = Position::new(7, 9);
    assert_eq!(p.x, 7);
    assert_eq!(p.y, 9);
    assert_eq!(p, Position { x: 7, y: 9 });
    assert_ne!(p, Position::new(9, 7));
}

#[test]
fn grid_new_keeps_dimensions() {
    let grid = Grid::new(64, 32);
    assert_eq!(grid.width, 64);
    assert_eq!(grid.height, 32);
}

#[test]
fn a_grid_is_valid_with_one_to_u32_max_cells() {
    assert!(Grid::new(1, 1).is_valid());
    assert!(Grid::new(64, 64).is_valid());
    assert!(Grid::new(65535, 65537).is_valid());
    assert!(Grid::new(u32::MAX, 1).is_valid());
    assert!(!Grid::new(0, 5).is_valid());
    assert!(!Grid::new(5, 0).is_valid());
    assert!(!Grid::new(65536, 65536).is_valid());
    assert!(!Grid::new(u32::MAX, 2).is_valid());
}

#[test]
fn a_grid_holds_its_cells_only() {
    let grid = Grid::new(5, 4);
    assert!(grid.holds(&Position::new(0, 0)));
    assert!(grid.holds(&Position::new(4, 3)));
    assert!(!grid.holds(&Position::new(5, 3)));
    assert!(!grid.holds(&Position::new(4, 4)));
}
