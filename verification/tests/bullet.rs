use asteroids::{Bullet, Direction, Grid, Position, Renderable};

#[test]
fn a_new_bullet_is_at_rest() {
    let bullet = Bullet::new();
    assert!(!bullet.active);
    assert_eq!(bullet.position, Position::new(0, 0));
    assert_eq!(bullet.direction, Direction::Up);
    assert!(bullet.render().is_empty());
}

#[test]
fn an_active_bullet_occupies_its_cell() {
    let bullet = Bullet { active: true, position: Position::new(3, 4), direction: Direction::Left };
    assert_eq!(bullet.render(), vec![&Position::new(3, 4)]);
}

#[test]
fn a_bullet_flies_one_cell_per_step() {
    let grid = Grid::new(5, 5);
    let mut bullet =
        Bullet { active: true, position: Position::new(1, 2), direction: Direction::Right };
    bullet.advance(&grid);
    assert_eq!(
        bullet,
        Bullet { active: true, position: Position::new(2, 2), direction: Direction::Right }
    );
}

#[test]
fn a_bullet_becomes_inactive_when_the_edge_stops_it() {
    let grid = Grid::new(5, 5);
    let mut bullet = Bullet { active: true, position: Position::new(3, 2), direction: Direction::Up };
    bullet.advance(&grid);
    assert_eq!(bullet, Bullet { active: true, position: Position::new(3, 1), direction: Direction::Up });
    bullet.advance(&grid);
    assert_eq!(bullet, Bullet { active: true, position: Position::new(3, 0), direction: Direction::Up });
    bullet.advance(&grid);
    assert_eq!(
        bullet,
        Bullet { active: false, position: Position::new(3, 0), direction: Direction::Up }
    );
    bullet.advance(&grid);
    assert_eq!(
        bullet,
        Bullet { active: false, position: Position::new(3, 0), direction: Direction::Up }
    );
}

#[test]
fn a_bullet_is_active_exactly_while_it_has_room() {
    let grid = Grid::new(7, 4);
    let cases = [
        (Direction::Up, 2u32),
        (Direction::Right, 3),
        (Direction::Down, 1),
        (Direction::Left, 3),
    ];
    for (direction, room) in cases.iter() {
        let mut bullet = Bullet { active: true, position: Position::new(3, 2), direction: *direction };
        for n in 1..10u32 {
            let before = bullet;
            bullet.advance(&grid);
            assert_eq!(bullet.active, n <= *room);
            assert!(bullet.position.x < 7 && bullet.position.y < 4);
            if before.active {
                let next = grid.position_in_direction(&before.position, &before.direction);
                assert_eq!(bullet.active, next != before.position);
                assert_eq!(bullet.position, next);
            } else {
                assert_eq!(bullet, before);
            }
        }
    }
}

#[test]
fn an_inactive_bullet_does_not_move() {
    let grid = Grid::new(5, 5);
    let mut bullet =
        Bullet { active: false, position: Position::new(2, 2), direction: Direction::Down };
    bullet.advance(&grid);
    assert_eq!(
        bullet,
        Bullet { active: false, position: Position::new(2, 2), direction: Direction::Down }
    );
}
