use vstd::prelude::*;
use crate::locator::Direction;

verus! {

/// The run-time error of the interpreter: a move would have left the
/// memory cube ("falling off the hypercube").
#[derive(Debug, Clone, Copy, PartialEq, Eq, Structural)]
pub struct MovError {
    pub direction: Direction,
}

/// The parse-time error: a loop bracket with no partner.
#[derive(Debug, Clone, Copy, PartialEq, Eq, Structural)]
pub struct LoopError {
    pub side: LoopSide,
    pub count: usize,
}

/// The side of the loop that is missing.
#[derive(Debug, Clone, Copy, PartialEq, Eq, Structural)]
pub enum LoopSide {
    Beginning,
    Ending,
}

/// Why a run stopped before its instructions were done: a move fell off
/// the cube, the input ran dry under a read, or the step budget ran out.
#[derive(Debug, Clone, Copy, PartialEq, Eq, Structural)]
pub enum RunError {
    Move(MovError),
    InputExhausted,
    OutOfSteps,
}

/// Why a whole pipeline run stopped: the parse failed, or the run did.
#[derive(Debug, Clone, Copy, PartialEq, Eq, Structural)]
pub enum InterpretError {
    Parse(LoopError),
    Run(RunError),
}

/// The character of one decimal digit.
pub open spec fn digit_char(d: nat) -> char {
    if d == 0 {
        '0'
    } else if d == 1 {
        '1'
    } else if d == 2 {
        '2'
    } else if d == 3 {
        '3'
    } else if d == 4 {
        '4'
    } else if d == 5 {
        '5'
    } else if d == 6 {
        '6'
    } else if d == 7 {
        '7'
    } else if d == 8 {
        '8'
    } else {
        '9'
    }
}

/// The decimal digits of a number, most significant first.
pub open spec fn dec_digits(n: nat) -> Seq<char>
    decreases n,
{
    if n < 10 {
        seq![digit_char(n)]
    } else {
        dec_digits(n / 10).push(digit_char(n % 10))
    }
}

/// One decimal digit as text.
fn digit_str(d: usize) -> (r: &'static str)
    requires
        d < 10,
    ensures
        r@ == seq![digit_char(d as nat)],
{
    let r: &'static str = if d == 0 {
        "0"
    } else if d == 1 {
        "1"
    } else if d == 2 {
        "2"
    } else if d == 3 {
        "3"
    } else if d == 4 {
        "4"
    } else if d == 5 {
        "5"
    } else if d == 6 {
        "6"
    } else if d == 7 {
        "7"
    } else if d == 8 {
        "8"
    } else {
        "9"
    };
    proof {
        reveal_strlit("0");
        reveal_strlit("1");
        reveal_strlit("2");
        reveal_strlit("3");
        reveal_strlit("4");
        reveal_strlit("5");
        reveal_strlit("6");
        reveal_strlit("7");
        reveal_strlit("8");
        reveal_strlit("9");
        assert(r@ =~= seq![digit_char(d as nat)]);
    }
    r
}

/// A number written in decimal.
fn usize_to_string(n: usize) -> (s: String)
    ensures
        s@ == dec_digits(n as nat),
    decreases n,
{
    if n < 10 {
        digit_str(n).to_owned()
    } else {
        let mut s = usize_to_string(n / 10);
        s.append(digit_str(n % 10));
        proof {
            assert(s@ =~= dec_digits((n / 10) as nat).push(digit_char((n % 10) as nat)));
        }
        s
    }
}

/// The name of a direction, as its diagnostic text spells it.
pub open spec fn dir_name(d: Direction) -> Seq<char> {
    match d {
        Direction::XPos => "XPos"@,
        Direction::XNeg => "XNeg"@,
        Direction::YPos => "YPos"@,
        Direction::YNeg => "YNeg"@,
        Direction::ZPos => "ZPos"@,
        Direction::ZNeg => "ZNeg"@,
        Direction::WPos => "WPos"@,
        Direction::WNeg => "WNeg"@,
    }
}

/// The name of a direction, as executable code.
fn direction_name(d: &Direction) -> (r: &'static str)
    ensures
        r@ == dir_name(*d),
{
    match d {
        Direction::XPos => "XPos",
        Direction::XNeg => "XNeg",
        Direction::YPos => "YPos",
        Direction::YNeg => "YNeg",
        Direction::ZPos => "ZPos",
        Direction::ZNeg => "ZNeg",
        Direction::WPos => "WPos",
        Direction::WNeg => "WNeg",
    }
}

/// The diagnostic line of a movement error.
pub open spec fn mov_error_text(e: MovError) -> Seq<char> {
    "ERROR: Fell off the hypercube, in the "@ + dir_name(e.direction) + " direction"@
}

/// The diagnostic line of a structural error.
pub open spec fn loop_error_text(e: LoopError) -> Seq<char> {
    match e.side {
        LoopSide::Beginning => "ERROR: The loop ending at instruction '"@ + dec_digits(
            e.count as nat,
        ) + "' has no beginning."@,
        LoopSide::Ending => "ERROR: The loop starting at instruction '"@ + dec_digits(
            e.count as nat,
        ) + "' has no ending."@,
    }
}

impl MovError {
    /// The human-readable diagnostic for this error.
    pub fn message(&self) -> (s: String)
        ensures
            s@ == mov_error_text(*self),
    {
        let mut s = "ERROR: Fell off the hypercube, in the ".to_owned();
        s.append(direction_name(&self.direction));
        s.append(" direction");
        s
    }
}

impl LoopError {
    /// The human-readable diagnostic for this error.
    pub fn message(&self) -> (s: String)
        ensures
            s@ == loop_error_text(*self),
    {
        match self.side {
            LoopSide::Beginning => {
                let mut s = "ERROR: The loop ending at instruction '".to_owned();
                s.append(usize_to_string(self.count).as_str());
                s.append("' has no beginning.");
                s
            },
            LoopSide::Ending => {
                let mut s = "ERROR: The loop starting at instruction '".to_owned();
                s.append(usize_to_string(self.count).as_str());
                s.append("' has no ending.");
                s
            },
        }
    }
}

} // verus!
