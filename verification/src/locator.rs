use vstd::prelude::*;
use crate::errors::MovError;

verus! {

/// The current position of the program inside the memory cube.
#[derive(Debug, Clone, Copy)]
pub struct Loc {
    pub x: usize,
    pub y: usize,
    pub z: usize,
    pub w: usize,
    pub count: usize,
}

/// The eight directions in which the position can move, one polarity for
/// each of the four axes.
#[derive(Debug, Clone, Copy, PartialEq, Eq, Structural)]
pub enum Direction {
    XPos,
    XNeg,
    YPos,
    YNeg,
    ZPos,
    ZNeg,
    WPos,
    WNeg,
}

pub open spec fn positive(d: Direction) -> bool {
    match d {
        Direction::XPos | Direction::YPos | Direction::ZPos | Direction::WPos => true,
        _ => false,
    }
}

impl Loc {
    /// The coordinate along the axis that `d` moves.
    pub open spec fn axis(&self, d: Direction) -> usize {
        match d {
            Direction::XPos | Direction::XNeg => self.x,
            Direction::YPos | Direction::YNeg => self.y,
            Direction::ZPos | Direction::ZNeg => self.z,
            Direction::WPos | Direction::WNeg => self.w,
        }
    }

    /// `self` with the coordinate along `d`'s axis replaced by `v`.
    pub open spec fn with_axis(&self, d: Direction, v: usize) -> Loc {
        match d {
            Direction::XPos | Direction::XNeg => Loc { x: v, ..*self },
            Direction::YPos | Direction::YNeg => Loc { y: v, ..*self },
            Direction::ZPos | Direction::ZNeg => Loc { z: v, ..*self },
            Direction::WPos | Direction::WNeg => Loc { w: v, ..*self },
        }
    }

    /// What a move does: on a positive axis the new coordinate must land
    /// strictly inside the cube, on a negative axis it must not pass zero;
    /// otherwise the move fails and names the direction that fell off.
    pub open spec fn mov_spec(self, d: Direction, steps: int) -> Result<Loc, MovError> {
        if positive(d) {
            if self.axis(d) + steps >= self.count {
                Err(MovError { direction: d })
            } else {
                Ok(self.with_axis(d, (self.axis(d) + steps) as usize))
            }
        } else {
            if self.axis(d) - steps < 0 {
                Err(MovError { direction: d })
            } else {
                Ok(self.with_axis(d, (self.axis(d) - steps) as usize))
            }
        }
    }

    /// Every coordinate lies inside the cube.
    pub open spec fn wf(&self) -> bool {
        self.x < self.count && self.y < self.count && self.z < self.count
            && self.w < self.count
    }

    /// A locator at the origin of a cube with side length `count`.
    pub fn new(count: usize) -> (r: Self)
        ensures
            r.x == 0 && r.y == 0 && r.z == 0 && r.w == 0,
            r.count == count,
    {
        Loc { x: 0, y: 0, z: 0, w: 0, count }
    }

    /// Move `steps` cells in direction `direction`, failing without moving
    /// when the move would leave the cube.
    pub fn mov(&mut self, direction: Direction, steps: isize) -> (r: Result<(), MovError>)
        requires
            steps >= 0,
        ensures
            match old(self).mov_spec(direction, steps as int) {
                Ok(l2) => r == Ok::<(), MovError>(()) && *final(self) == l2,
                Err(e) => r == Err::<(), MovError>(e) && *final(self) == *old(self),
            },
    {
        let s = steps as usize;
        match direction {
            Direction::XPos => {
                match self.x.checked_add(s) {
                    Some(t) => {
                        if t < self.count {
                            self.x = t;
                            Ok(())
                        } else {
                            Err(MovError { direction: Direction::XPos })
                        }
                    },
                    None => Err(MovError { direction: Direction::XPos }),
                }
            },
            Direction::XNeg => {
                if s > self.x {
                    Err(MovError { direction: Direction::XNeg })
                } else {
                    self.x = self.x - s;
                    Ok(())
                }
            },
            Direction::YPos => {
                match self.y.checked_add(s) {
                    Some(t) => {
                        if t < self.count {
                            self.y = t;
                            Ok(())
                        } else {
                            Err(MovError { direction: Direction::YPos })
                        }
                    },
                    None => Err(MovError { direction: Direction::YPos }),
                }
            },
            Direction::YNeg => {
                if s > self.y {
                    Err(MovError { direction: Direction::YNeg })
                } else {
                    self.y = self.y - s;
                    Ok(())
                }
            },
            Direction::ZPos => {
                match self.z.checked_add(s) {
                    Some(t) => {
                        if t < self.count {
                            self.z = t;
                            Ok(())
                        } else {
                            Err(MovError { direction: Direction::ZPos })
                        }
                    },
                    None => Err(MovError { direction: Direction::ZPos }),
                }
            },
            Direction::ZNeg => {
                if s > self.z {
                    Err(MovError { direction: Direction::ZNeg })
                } else {
                    self.z = self.z - s;
                    Ok(())
                }
            },
            Direction::WPos => {
                match self.w.checked_add(s) {
                    Some(t) => {
                        if t < self.count {
                            self.w = t;
                            Ok(())
                        } else {
                            Err(MovError { direction: Direction::WPos })
                        }
                    },
                    None => Err(MovError { direction: Direction::WPos }),
                }
            },
            Direction::WNeg => {
                if s > self.w {
                    Err(MovError { direction: Direction::WNeg })
                } else {
                    self.w = self.w - s;
                    Ok(())
                }
            },
        }
    }
}

/// A successful move keeps every coordinate inside the cube, and a failed
/// move leaves the locator exactly as it was.
pub proof fn lemma_mov_preserves_bounds(l: Loc, d: Direction, steps: int)
    requires
        l.wf(),
        steps >= 0,
    ensures
        l.mov_spec(d, steps) matches Ok(l2) ==> l2.wf() && l2.count == l.count,
{
}

/// The locator a sequence of moves leads to, or the error of the first
/// move that falls off the cube.
pub open spec fn apply_moves(l: Loc, moves: Seq<(Direction, int)>) -> Result<Loc, MovError>
    decreases moves.len(),
{
    if moves.len() == 0 {
        Ok(l)
    } else {
        match l.mov_spec(moves[0].0, moves[0].1) {
            Ok(l2) => apply_moves(l2, moves.drop_first()),
            Err(e) => Err(e),
        }
    }
}

/// The locator invariant: after any sequence of successful moves from a
/// position inside the cube, every coordinate still lies inside the cube,
/// and the side length is unchanged.
pub proof fn lemma_moves_preserve_bounds(l: Loc, moves: Seq<(Direction, int)>)
    requires
        l.wf(),
        forall|k: int| 0 <= k < moves.len() ==> (#[trigger] moves[k]).1 >= 0,
    ensures
        apply_moves(l, moves) matches Ok(l2) ==> l2.wf() && l2.count == l.count,
    decreases moves.len(),
{
    if moves.len() > 0 {
        if let Ok(l2) = l.mov_spec(moves[0].0, moves[0].1) {
            lemma_mov_preserves_bounds(l, moves[0].0, moves[0].1);
            assert(forall|k: int|
                0 <= k < moves.drop_first().len() ==> (#[trigger] moves.drop_first()[k]).1 >= 0);
            lemma_moves_preserve_bounds(l2, moves.drop_first());
        }
    }
}

} // verus!
