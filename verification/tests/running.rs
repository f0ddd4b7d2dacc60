use hyperbf::cube::Cube;
use hyperbf::errors::{InterpretError, LoopError, LoopSide, MovError, RunError};
use hyperbf::interp::{interpret, run};
use hyperbf::io::IoBuffer;
use hyperbf::lexer::lex;
use hyperbf::locator::{Direction, Loc};
use hyperbf::parser::parse;

const BUDGET: u64 = 1_000_000;

fn go(src: &str, count: usize, input: Vec<u8>) -> (Result<(), InterpretError>, Vec<u8>) {
    interpret(src.to_string(), count, input, BUDGET)
}

#[test]
fn three_increments_write_control_byte() {
    // "+++." on a cube of side 8 increments the origin cell to 3 and
    // writes it: one byte of output, the control character 0x03.
    let (res, out) = go("+++.", 8, vec![]);
    assert!(res.is_ok());
    assert_eq!(out, vec![3u8]);
}

#[test]
fn increment_loop_decrement_ends_at_zero() {
    // "+[-]": the cell rises to 1, the cube is non-zero so the loop body
    // runs once, the re-check finds the cube all zero, and the run stops
    // with the cell back at 0 and no output.
    let instrs = parse(lex("+[-]".to_string())).unwrap();
    let mut mem = Cube::zeros(8);
    let mut locator = Loc::new(8);
    let mut io = IoBuffer::new(vec![]);
    let res = run(&instrs, &mut mem, &mut locator, &mut io, BUDGET);
    assert!(res.is_ok());
    assert_eq!(mem.get(0, 0, 0, 0), 0);
    assert!(mem.all_cells_zero());
    assert_eq!(io.output().len(), 0);
}

#[test]
fn run_returns_unspent_budget() {
    // "+[-]" reaches four instructions: the increment, the loop twice
    // (once entering, once finding the cube zero), and the decrement.
    let instrs = parse(lex("+[-]".to_string())).unwrap();
    let mut mem = Cube::zeros(8);
    let mut locator = Loc::new(8);
    let mut io = IoBuffer::new(vec![]);
    let left = run(&instrs, &mut mem, &mut locator, &mut io, 10).unwrap();
    assert_eq!(left, 6);
}

#[test]
fn loop_on_zero_cube_runs_zero_iterations() {
    // The cube is all zero when the loop is reached, so its body never
    // runs: the cell it would increment stays zero.
    let (res, out) = go("[+].", 8, vec![]);
    assert!(res.is_ok());
    assert_eq!(out, vec![0u8]);
}

#[test]
fn loop_condition_reads_the_whole_cube() {
    // ">+<[>-<]>." leaves a 1 at x = 1 and returns to the origin, whose
    // cell is zero. The classic rule would skip the loop; the global rule
    // enters it because the cube holds a non-zero cell, and the body
    // clears that cell. The final write must see 0.
    let (res, out) = go(">+<[>-<]>.", 8, vec![]);
    assert!(res.is_ok());
    assert_eq!(out, vec![0u8]);
}

#[test]
fn decrement_wraps_to_255() {
    let (res, out) = go("-.", 8, vec![]);
    assert!(res.is_ok());
    assert_eq!(out, vec![255u8]);
}

#[test]
fn increment_wraps_past_255() {
    // 255 increments, then one more: the cell wraps to 0.
    let mut src = String::new();
    for _ in 0..256 {
        src.push('+');
    }
    src.push('.');
    let (res, out) = interpret(src, 2, vec![], BUDGET);
    assert!(res.is_ok());
    assert_eq!(out, vec![0u8]);
}

#[test]
fn read_stores_input_byte() {
    let (res, out) = go(",.", 8, vec![65]);
    assert!(res.is_ok());
    assert_eq!(out, vec![65u8]);
}

#[test]
fn reads_consume_input_in_order() {
    let (res, out) = go(",.>,.", 8, vec![7, 9]);
    assert!(res.is_ok());
    assert_eq!(out, vec![7u8, 9u8]);
}

#[test]
fn read_on_empty_input_fails() {
    let (res, out) = go(",", 8, vec![]);
    assert_eq!(res, Err(InterpretError::Run(RunError::InputExhausted)));
    assert_eq!(out, vec![]);
}

#[test]
fn cells_on_other_axes_are_independent() {
    // Increment at the origin, then at (0,1,0,0), and write both.
    let (res, out) = go("+.^++.", 8, vec![]);
    assert!(res.is_ok());
    assert_eq!(out, vec![1u8, 2u8]);
}

#[test]
fn moving_off_the_cube_aborts_the_run() {
    // "+[<]": the cube is non-zero, so the loop body runs and at once
    // falls off the cube on the X axis; the whole run aborts.
    let (res, _) = go("+[<]", 8, vec![]);
    assert_eq!(
        res,
        Err(InterpretError::Run(RunError::Move(MovError {
            direction: Direction::XNeg
        })))
    );
}

#[test]
fn output_before_a_failure_is_kept() {
    let (res, out) = go("+.<", 8, vec![]);
    assert_eq!(
        res,
        Err(InterpretError::Run(RunError::Move(MovError {
            direction: Direction::XNeg
        })))
    );
    assert_eq!(out, vec![1u8]);
}

#[test]
fn parse_failure_stops_before_any_run() {
    let (res, out) = go(".].", 8, vec![]);
    assert_eq!(
        res,
        Err(InterpretError::Parse(LoopError {
            side: LoopSide::Beginning,
            count: 1
        }))
    );
    assert_eq!(out, vec![]);
}

#[test]
fn endless_loop_exhausts_the_budget() {
    // "+[]" never makes the cube zero again, so the run stops only when
    // the step budget is spent.
    let (res, _) = interpret("+[]".to_string(), 2, vec![], 1000);
    assert_eq!(res, Err(InterpretError::Run(RunError::OutOfSteps)));
}

#[test]
fn loop_body_runs_until_cube_is_zero() {
    // "++[-].": the loop body runs twice before the cube is all zero.
    let (res, out) = go("++[-].", 8, vec![]);
    assert!(res.is_ok());
    assert_eq!(out, vec![0u8]);
}

#[test]
fn nested_loops_run_to_completion() {
    // The inner loop clears the cell, then both loops see an all-zero
    // cube and stop.
    let (res, out) = go("+[[-]].", 8, vec![]);
    assert!(res.is_ok());
    assert_eq!(out, vec![0u8]);
}

#[test]
fn tiny_cube_of_one_cell() {
    let (res, out) = go("+++.", 1, vec![]);
    assert!(res.is_ok());
    assert_eq!(out, vec![3u8]);
    let (res2, _) = go(">", 1, vec![]);
    assert_eq!(
        res2,
        Err(InterpretError::Run(RunError::Move(MovError {
            direction: Direction::XPos
        })))
    );
}

#[test]
fn walks_every_axis_to_the_far_corner() {
    // Two steps along each axis on a cube of side 3, then write.
    let (res, out) = go(">>^^**@@+.", 3, vec![]);
    assert!(res.is_ok());
    assert_eq!(out, vec![1u8]);
}
