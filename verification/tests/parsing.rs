use hyperbf::errors::{LoopError, LoopSide};
use hyperbf::lexer::lex;
use hyperbf::parser::{parse, Instruction};

fn parse_source(src: &str) -> Result<Vec<Instruction>, LoopError> {
    parse(lex(src.to_string()))
}

#[test]
fn simple_instructions_map_one_for_one() {
    let instrs = parse_source("+-.").unwrap();
    assert_eq!(instrs.len(), 3);
    assert!(matches!(instrs[0], Instruction::Increment));
    assert!(matches!(instrs[1], Instruction::Decrement));
    assert!(matches!(instrs[2], Instruction::Write));
}

#[test]
fn increment_then_loop_with_decrement() {
    // The tree of "+[-]" is an increment followed by one loop whose body
    // is a single decrement.
    let instrs = parse_source("+[-]").unwrap();
    assert_eq!(instrs.len(), 2);
    assert!(matches!(instrs[0], Instruction::Increment));
    match &instrs[1] {
        Instruction::Loop(body) => {
            assert_eq!(body.len(), 1);
            assert!(matches!(body[0], Instruction::Decrement));
        }
        other => panic!("expected a loop, got {:?}", other),
    }
}

#[test]
fn nested_loops() {
    let instrs = parse_source("[+[>]]").unwrap();
    assert_eq!(instrs.len(), 1);
    match &instrs[0] {
        Instruction::Loop(outer) => {
            assert_eq!(outer.len(), 2);
            assert!(matches!(outer[0], Instruction::Increment));
            match &outer[1] {
                Instruction::Loop(inner) => {
                    assert_eq!(inner.len(), 1);
                    assert!(matches!(inner[0], Instruction::IncrementX));
                }
                other => panic!("expected an inner loop, got {:?}", other),
            }
        }
        other => panic!("expected a loop, got {:?}", other),
    }
}

#[test]
fn empty_loop_body() {
    let instrs = parse_source("[]").unwrap();
    assert_eq!(instrs.len(), 1);
    match &instrs[0] {
        Instruction::Loop(body) => assert_eq!(body.len(), 0),
        other => panic!("expected a loop, got {:?}", other),
    }
}

#[test]
fn lone_loop_end_fails_at_index_zero() {
    let err = parse_source("]").unwrap_err();
    assert_eq!(
        err,
        LoopError { side: LoopSide::Beginning, count: 0 }
    );
}

#[test]
fn lone_loop_begin_fails_at_index_zero() {
    let err = parse_source("[").unwrap_err();
    assert_eq!(err, LoopError { side: LoopSide::Ending, count: 0 });
}

#[test]
fn loop_end_after_instructions_reports_its_index() {
    let err = parse_source("+>]").unwrap_err();
    assert_eq!(
        err,
        LoopError { side: LoopSide::Beginning, count: 2 }
    );
}

#[test]
fn loop_end_after_closed_loop_reports_its_index() {
    let err = parse_source("[]]").unwrap_err();
    assert_eq!(
        err,
        LoopError { side: LoopSide::Beginning, count: 2 }
    );
}

#[test]
fn unclosed_loop_after_instructions_reports_its_index() {
    let err = parse_source("++[").unwrap_err();
    assert_eq!(err, LoopError { side: LoopSide::Ending, count: 2 });
}

#[test]
fn unclosed_outer_loop_reports_outer_index() {
    // The outer bracket at index 0 never closes; the inner pair does.
    let err = parse_source("[[]").unwrap_err();
    assert_eq!(err, LoopError { side: LoopSide::Ending, count: 0 });
}

#[test]
fn balanced_nesting_parses() {
    assert!(parse_source("[[]][[[]]]").is_ok());
    assert!(parse_source("+[>[-]<]").is_ok());
}

#[test]
fn comments_do_not_disturb_indices() {
    // The lexer drops unrecognized characters before parsing, so the
    // error index counts tokens, not source characters.
    let err = parse_source("remark + ]").unwrap_err();
    assert_eq!(
        err,
        LoopError { side: LoopSide::Beginning, count: 1 }
    );
}

#[test]
fn empty_program_parses_to_nothing() {
    let instrs = parse_source("").unwrap();
    assert_eq!(instrs.len(), 0);
}
