use hyperbf::errors::MovError;
use hyperbf::locator::{Direction, Loc};

#[test]
fn new_locator_sits_at_origin() {
    let l = Loc::new(8);
    assert_eq!(l.x, 0);
    assert_eq!(l.y, 0);
    assert_eq!(l.z, 0);
    assert_eq!(l.w, 0);
}

#[test]
fn positive_moves_walk_each_axis() {
    let mut l = Loc::new(4);
    assert!(l.mov(Direction::XPos, 1).is_ok());
    assert!(l.mov(Direction::YPos, 2).is_ok());
    assert!(l.mov(Direction::ZPos, 3).is_ok());
    assert!(l.mov(Direction::WPos, 1).is_ok());
    assert_eq!((l.x, l.y, l.z, l.w), (1, 2, 3, 1));
}

#[test]
fn negative_moves_walk_back() {
    let mut l = Loc::new(4);
    l.mov(Direction::XPos, 3).unwrap();
    l.mov(Direction::XNeg, 2).unwrap();
    assert_eq!(l.x, 1);
}

#[test]
fn move_to_last_cell_succeeds() {
    // The greatest valid coordinate is count - 1.
    let mut l = Loc::new(8);
    assert!(l.mov(Direction::XPos, 7).is_ok());
    assert_eq!(l.x, 7);
}

#[test]
fn move_off_positive_edge_fails_and_keeps_position() {
    let mut l = Loc::new(8);
    l.mov(Direction::XPos, 7).unwrap();
    let err = l.mov(Direction::XPos, 1).unwrap_err();
    assert_eq!(err, MovError { direction: Direction::XPos });
    assert_eq!(l.x, 7);
}

#[test]
fn move_onto_bound_fails() {
    // A move must land strictly inside the cube: x + steps >= count fails.
    let mut l = Loc::new(8);
    let err = l.mov(Direction::YPos, 8).unwrap_err();
    assert_eq!(err, MovError { direction: Direction::YPos });
    assert_eq!(l.y, 0);
}

#[test]
fn negative_moves_at_origin_fail_per_axis() {
    let mut l = Loc::new(8);
    assert_eq!(
        l.mov(Direction::XNeg, 1).unwrap_err(),
        MovError { direction: Direction::XNeg }
    );
    assert_eq!(
        l.mov(Direction::YNeg, 1).unwrap_err(),
        MovError { direction: Direction::YNeg }
    );
    assert_eq!(
        l.mov(Direction::ZNeg, 1).unwrap_err(),
        MovError { direction: Direction::ZNeg }
    );
    assert_eq!(
        l.mov(Direction::WNeg, 1).unwrap_err(),
        MovError { direction: Direction::WNeg }
    );
    assert_eq!((l.x, l.y, l.z, l.w), (0, 0, 0, 0));
}

#[test]
fn zero_steps_stay_put() {
    let mut l = Loc::new(8);
    assert!(l.mov(Direction::XNeg, 0).is_ok());
    assert!(l.mov(Direction::XPos, 0).is_ok());
    assert_eq!(l.x, 0);
}

#[test]
fn failed_move_then_valid_move() {
    let mut l = Loc::new(3);
    assert!(l.mov(Direction::ZPos, 5).is_err());
    assert!(l.mov(Direction::ZPos, 2).is_ok());
    assert_eq!(l.z, 2);
}
