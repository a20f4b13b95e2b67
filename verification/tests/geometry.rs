use rogue_gym_core::dungeon::rogue::Surface;
use rogue_gym_core::dungeon::{Coord, Direction};

#[test]
fn directions_step_and_reverse() {
    let steps = [
        (Direction::Up, 0, -1, Direction::Down),
        (Direction::Right, 1, 0, Direction::Left),
        (Direction::Left, -1, 0, Direction::Right),
        (Direction::Down, 0, 1, Direction::Up),
        (Direction::LeftUp, -1, -1, Direction::RightDown),
        (Direction::RightUp, 1, -1, Direction::LeftDown),
        (Direction::LeftDown, -1, 1, Direction::RightUp),
        (Direction::RightDown, 1, 1, Direction::LeftUp),
        (Direction::Stay, 0, 0, Direction::Stay),
    ];
    for (d, x, y, back) in steps {
        assert_eq!(d.to_cd(), Coord::new(x, y));
        assert_eq!(d.reverse(), back);
        assert_eq!(Coord::new(10, 20).step(d), Coord::new(10 + x, 20 + y));
    }
}

#[test]
fn coordinates_compare() {
    let cd = Coord::new(3, -4);
    assert!(cd.is_lefter(Coord::new(4, -9)));
    assert!(!cd.is_lefter(Coord::new(3, 0)));
    assert!(cd.is_upper(Coord::new(0, -3)));
    assert!(!cd.is_upper(Coord::new(0, -4)));
}

#[test]
fn walls_and_rock_block_the_way() {
    for s in [Surface::WallX, Surface::WallY, Surface::Blank] {
        assert!(!s.can_walk());
    }
    for s in [Surface::Passage, Surface::Floor, Surface::Stair, Surface::Door, Surface::Trap] {
        assert!(s.can_walk());
    }
}
