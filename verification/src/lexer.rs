use vstd::prelude::*;

verus! {

/// The tokens of the source language, one for each meaningful symbol.
#[derive(Debug, Clone, Copy, PartialEq, Eq, Structural)]
pub enum Token {
    IncrementX,
    DecrementX,
    IncrementY,
    DecrementY,
    IncrementZ,
    DecrementZ,
    IncrementW,
    DecrementW,
    Increment,
    Decrement,
    Write,
    Read,
    LoopBegin,
    LoopEnd,
}

/// The fixed symbol table of the language: the token a character stands
/// for, or `None` for a character that is a comment.
pub open spec fn token_of(c: char) -> Option<Token> {
    if c == '+' {
        Some(Token::Increment)
    } else if c == '-' {
        Some(Token::Decrement)
    } else if c == '>' {
        Some(Token::IncrementX)
    } else if c == '<' {
        Some(Token::DecrementX)
    } else if c == '^' {
        Some(Token::IncrementY)
    } else if c == 'V' || c == 'v' {
        Some(Token::DecrementY)
    } else if c == '*' {
        Some(Token::IncrementZ)
    } else if c == 'O' || c == 'o' {
        Some(Token::DecrementZ)
    } else if c == '@' {
        Some(Token::IncrementW)
    } else if c == '?' {
        Some(Token::DecrementW)
    } else if c == '.' {
        Some(Token::Write)
    } else if c == ',' {
        Some(Token::Read)
    } else if c == '[' {
        Some(Token::LoopBegin)
    } else if c == ']' {
        Some(Token::LoopEnd)
    } else {
        None
    }
}

/// A character that stands for a token.
pub open spec fn recognized(c: char) -> bool {
    token_of(c) is Some
}

/// The token sequence of a source text: the tokens of its recognized
/// characters, in source order.
pub open spec fn lex_spec(s: Seq<char>) -> Seq<Token>
    decreases s.len(),
{
    if s.len() == 0 {
        Seq::empty()
    } else {
        lex_spec(s.drop_last()) + match token_of(s.last()) {
            Some(t) => seq![t],
            None => Seq::empty(),
        }
    }
}

/// The token a character maps to, as executable code.
fn classify(c: char) -> (t: Option<Token>)
    ensures
        t == token_of(c),
{
    match c {
        '+' => Some(Token::Increment),
        '-' => Some(Token::Decrement),
        '>' => Some(Token::IncrementX),
        '<' => Some(Token::DecrementX),
        '^' => Some(Token::IncrementY),
        'V' | 'v' => Some(Token::DecrementY),
        '*' => Some(Token::IncrementZ),
        'O' | 'o' => Some(Token::DecrementZ),
        '@' => Some(Token::IncrementW),
        '?' => Some(Token::DecrementW),
        '.' => Some(Token::Write),
        ',' => Some(Token::Read),
        '[' => Some(Token::LoopBegin),
        ']' => Some(Token::LoopEnd),
        _ => None,
    }
}

/// Turn a source string into its token sequence. Unrecognized characters
/// are skipped with no effect, so the lexer never fails.
pub fn lex(source: String) -> (tokens: Vec<Token>)
    ensures
        tokens@ == lex_spec(source@),
{
    broadcast use vstd::string::axiom_spec_iter;

    let mut tokens: Vec<Token> = Vec::new();
    for symbol in it: source.as_str().chars()
        invariant
            it.seq() == source@,
            tokens@ == lex_spec(it.seq().take(it.index())),
    {
        proof {
            assert(symbol == it.seq()[it.index()]);
            assert(it.seq().take(it.index() + 1).drop_last() =~= it.seq().take(it.index()));
        }
        match classify(symbol) {
            Some(token) => tokens.push(token),
            None => (),
        }
    }
    proof {
        assert(source@.take(source@.len() as int) =~= source@);
    }
    tokens
}

/// The lexer never fails, and its output holds exactly one token for each
/// recognized character of the source: its length is the number of
/// recognized characters.
pub proof fn lemma_lex_len(s: Seq<char>)
    ensures
        lex_spec(s).len() == s.filter(|c: char| recognized(c)).len(),
    decreases s.len(),
{
    reveal(Seq::filter);
    if s.len() > 0 {
        lemma_lex_len(s.drop_last());
    }
}

} // verus!
