use hyperbf::lexer::{lex, Token};

#[test]
fn maps_every_symbol() {
    let tokens = lex("+-><^V*O@?.,[]".to_string());
    assert_eq!(
        tokens,
        vec![
            Token::Increment,
            Token::Decrement,
            Token::IncrementX,
            Token::DecrementX,
            Token::IncrementY,
            Token::DecrementY,
            Token::IncrementZ,
            Token::DecrementZ,
            Token::IncrementW,
            Token::DecrementW,
            Token::Write,
            Token::Read,
            Token::LoopBegin,
            Token::LoopEnd,
        ]
    );
}

#[test]
fn lowercase_variants() {
    let tokens = lex("vVoO".to_string());
    assert_eq!(
        tokens,
        vec![
            Token::DecrementY,
            Token::DecrementY,
            Token::DecrementZ,
            Token::DecrementZ,
        ]
    );
}

#[test]
fn skips_unrecognized_characters() {
    let tokens = lex("abc def=!{}\n\t_".to_string());
    assert_eq!(tokens, vec![]);
}

#[test]
fn output_length_counts_recognized_symbols() {
    // Seven recognized symbols buried in comment text.
    let tokens = lex("say + and - then > but < halts ^ and . and ,".to_string());
    assert_eq!(tokens.len(), 7);
}

#[test]
fn comments_between_tokens() {
    let tokens = lex("+ (shift right) > [cycle] hmm".to_string());
    assert_eq!(
        tokens,
        vec![
            Token::Increment,
            Token::IncrementX,
            Token::LoopBegin,
            Token::LoopEnd,
        ]
    );
}

#[test]
fn empty_source_gives_no_tokens() {
    assert_eq!(lex(String::new()), vec![]);
}
