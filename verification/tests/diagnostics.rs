use hyperbf::errors::{LoopError, LoopSide, MovError};
use hyperbf::locator::Direction;

#[test]
fn beginning_error_message() {
    let e = LoopError { side: LoopSide::Beginning, count: 5 };
    assert_eq!(
        e.message(),
        "ERROR: The loop ending at instruction '5' has no beginning."
    );
}

#[test]
fn ending_error_message() {
    let e = LoopError { side: LoopSide::Ending, count: 0 };
    assert_eq!(
        e.message(),
        "ERROR: The loop starting at instruction '0' has no ending."
    );
}

#[test]
fn error_message_with_several_digits() {
    let e = LoopError { side: LoopSide::Ending, count: 120 };
    assert_eq!(
        e.message(),
        "ERROR: The loop starting at instruction '120' has no ending."
    );
}

#[test]
fn movement_error_message() {
    let e = MovError { direction: Direction::XPos };
    assert_eq!(
        e.message(),
        "ERROR: Fell off the hypercube, in the XPos direction"
    );
}

#[test]
fn movement_error_message_other_axes() {
    assert_eq!(
        MovError { direction: Direction::WNeg }.message(),
        "ERROR: Fell off the hypercube, in the WNeg direction"
    );
    assert_eq!(
        MovError { direction: Direction::ZPos }.message(),
        "ERROR: Fell off the hypercube, in the ZPos direction"
    );
}
