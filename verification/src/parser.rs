use vstd::prelude::*;
use crate::errors::{LoopError, LoopSide};
use crate::lexer::Token;

verus! {

/// The instructions of a program: every non-bracket token one for one, and
/// a `Loop` holding the instructions parsed from the span between a
/// matching bracket pair.
#[derive(Debug)]
pub enum Instruction {
    IncrementX,
    DecrementX,
    IncrementY,
    DecrementY,
    IncrementZ,
    DecrementZ,
    IncrementW,
    DecrementW,
    Increment,
    Decrement,
    Write,
    Read,
    Loop(Vec<Instruction>),
}

/// The mathematical form of an instruction tree, with a `Seq` in place of
/// each `Vec`; contracts speak of instruction trees through this type.
pub ghost enum SpecInstr {
    IncrementX,
    DecrementX,
    IncrementY,
    DecrementY,
    IncrementZ,
    DecrementZ,
    IncrementW,
    DecrementW,
    Increment,
    Decrement,
    Write,
    Read,
    Loop(Seq<SpecInstr>),
}

/// The mathematical form of one instruction.
pub open spec fn view_instr(i: Instruction) -> SpecInstr
    decreases i,
{
    match i {
        Instruction::IncrementX => SpecInstr::IncrementX,
        Instruction::DecrementX => SpecInstr::DecrementX,
        Instruction::IncrementY => SpecInstr::IncrementY,
        Instruction::DecrementY => SpecInstr::DecrementY,
        Instruction::IncrementZ => SpecInstr::IncrementZ,
        Instruction::DecrementZ => SpecInstr::DecrementZ,
        Instruction::IncrementW => SpecInstr::IncrementW,
        Instruction::DecrementW => SpecInstr::DecrementW,
        Instruction::Increment => SpecInstr::Increment,
        Instruction::Decrement => SpecInstr::Decrement,
        Instruction::Write => SpecInstr::Write,
        Instruction::Read => SpecInstr::Read,
        Instruction::Loop(body) => SpecInstr::Loop(view_instrs(body@)),
    }
}

/// The mathematical form of an instruction sequence.
pub open spec fn view_instrs(s: Seq<Instruction>) -> Seq<SpecInstr>
    decreases s,
{
    if s.len() == 0 {
        Seq::empty()
    } else {
        view_instrs(s.drop_last()).push(view_instr(s.last()))
    }
}

/// How a token changes the bracket nesting depth.
pub open spec fn bracket_delta(t: Token) -> int {
    match t {
        Token::LoopBegin => 1,
        Token::LoopEnd => -1,
        _ => 0,
    }
}

/// The total change of bracket nesting depth over the tokens in
/// `[from, to)`.
pub open spec fn depth_change(t: Seq<Token>, from: int, to: int) -> int
    decreases to - from,
{
    if from >= to || from < 0 || to > t.len() {
        0
    } else {
        bracket_delta(t[from]) + depth_change(t, from + 1, to)
    }
}

/// The index of the loop-end that closes an open loop: scanning from `i`
/// at nesting depth `depth`, the first position whose loop-end brings the
/// depth back to zero, or `None` when the scan runs off the end.
pub open spec fn match_end(t: Seq<Token>, i: int, depth: int) -> Option<int>
    decreases t.len() - i,
{
    if i < 0 || i >= t.len() {
        None
    } else if t[i] is LoopEnd && depth == 1 {
        Some(i)
    } else {
        match_end(t, i + 1, depth + bracket_delta(t[i]))
    }
}

/// The instruction a non-bracket token maps to. The parser never consults
/// it for a bracket token; on those its value is immaterial.
pub open spec fn instr_of(t: Token) -> SpecInstr {
    match t {
        Token::IncrementX => SpecInstr::IncrementX,
        Token::DecrementX => SpecInstr::DecrementX,
        Token::IncrementY => SpecInstr::IncrementY,
        Token::DecrementY => SpecInstr::DecrementY,
        Token::IncrementZ => SpecInstr::IncrementZ,
        Token::DecrementZ => SpecInstr::DecrementZ,
        Token::IncrementW => SpecInstr::IncrementW,
        Token::DecrementW => SpecInstr::DecrementW,
        Token::Increment => SpecInstr::Increment,
        Token::Decrement => SpecInstr::Decrement,
        Token::Write => SpecInstr::Write,
        Token::Read => SpecInstr::Read,
        Token::LoopBegin => SpecInstr::Loop(Seq::empty()),
        Token::LoopEnd => SpecInstr::Loop(Seq::empty()),
    }
}

/// An error of a sub-parse, re-indexed into the enclosing token sequence.
pub open spec fn shift_err(e: LoopError, off: int) -> LoopError {
    LoopError { side: e.side, count: (e.count + off) as usize }
}

/// What parsing a token sequence yields. A loop-end with no open loop is a
/// `Beginning` error at its own index; a loop-begin whose scan for the
/// matching loop-end runs off the end is an `Ending` error at its own
/// index; otherwise the tokens up to the matching loop-end become one
/// `Loop` instruction over the recursively parsed span between the pair,
/// and every other token becomes its instruction one for one.
pub open spec fn parse_spec(t: Seq<Token>) -> Result<Seq<SpecInstr>, LoopError>
    decreases t.len(),
    via parse_spec_decreases
{
    if t.len() == 0 {
        Ok(Seq::empty())
    } else {
        match t[0] {
            Token::LoopEnd => Err(LoopError { side: LoopSide::Beginning, count: 0 }),
            Token::LoopBegin => {
                match match_end(t, 1, 1) {
                    None => Err(LoopError { side: LoopSide::Ending, count: 0 }),
                    Some(j) => {
                        match (parse_spec(t.subrange(1, j)), parse_spec(t.skip(j + 1))) {
                            (Ok(inner), Ok(rest)) => Ok(seq![SpecInstr::Loop(inner)] + rest),
                            (Err(e), _) => Err(shift_err(e, 1)),
                            (_, Err(e)) => Err(shift_err(e, j + 1)),
                        }
                    },
                }
            },
            _ => {
                match parse_spec(t.skip(1)) {
                    Ok(rest) => Ok(seq![instr_of(t[0])] + rest),
                    Err(e) => Err(shift_err(e, 1)),
                }
            },
        }
    }
}

#[via_fn]
proof fn parse_spec_decreases(t: Seq<Token>) {
    if t.len() > 0 && t[0] is LoopBegin {
        lemma_match_end_bounds(t, 1, 1);
    }
}

/// Where a scan for a matching loop-end succeeds, it stops on a loop-end
/// inside the sequence, the depth changes sum to one step down, and the
/// running depth never reaches zero before the stop.
pub proof fn lemma_match_end_bounds(t: Seq<Token>, i: int, depth: int)
    requires
        depth >= 1,
    ensures
        match_end(t, i, depth) matches Some(j) ==> {
            &&& i <= j < t.len()
            &&& t[j] is LoopEnd
            &&& depth + depth_change(t, i, j) == 1
            &&& forall|p: int| i <= p <= j ==> depth + #[trigger] depth_change(t, i, p) >= 1
        },
    decreases t.len() - i,
{
    if 0 <= i < t.len() && !(t[i] is LoopEnd && depth == 1) {
        lemma_match_end_bounds(t, i + 1, depth + bracket_delta(t[i]));
        if let Some(j) = match_end(t, i, depth) {
            assert forall|p: int| i <= p <= j implies depth + #[trigger] depth_change(t, i, p)
                >= 1 by {
                if p > i {
                    assert(depth_change(t, i, p) == bracket_delta(t[i]) + depth_change(
                        t,
                        i + 1,
                        p,
                    ));
                }
            }
        }
    }
}

/// The depth change over a single token is that token's delta.
pub proof fn lemma_depth_change_one(t: Seq<Token>, p: int)
    requires
        0 <= p < t.len(),
    ensures
        depth_change(t, p, p + 1) == bracket_delta(t[p]),
{
    assert(depth_change(t, p + 1, p + 1) == 0);
}

/// Depth changes add over adjacent ranges.
pub proof fn lemma_depth_change_concat(t: Seq<Token>, a: int, b: int, c: int)
    requires
        0 <= a <= b <= c <= t.len(),
    ensures
        depth_change(t, a, c) == depth_change(t, a, b) + depth_change(t, b, c),
    decreases b - a,
{
    if a < b {
        lemma_depth_change_concat(t, a + 1, b, c);
    }
}

/// A depth change inside a subrange equals the depth change over the same
/// tokens of the whole sequence.
pub proof fn lemma_depth_change_subrange(t: Seq<Token>, x: int, y: int, a: int, b: int)
    requires
        0 <= x <= y <= t.len(),
        0 <= a <= b <= y - x,
    ensures
        depth_change(t.subrange(x, y), a, b) == depth_change(t, x + a, x + b),
    decreases b - a,
{
    if a < b {
        lemma_depth_change_subrange(t, x, y, a + 1, b);
    }
}

/// Scanning a suffix for a matching loop-end is the whole-sequence scan
/// with its indices shifted.
pub proof fn lemma_match_end_skip(t: Seq<Token>, k: int, i: int, depth: int)
    requires
        0 <= k <= t.len(),
        0 <= i,
    ensures
        match_end(t.skip(k), i, depth) == match match_end(t, k + i, depth) {
            Some(j) => Some(j - k),
            None => None::<int>,
        },
    decreases t.len() - (k + i),
{
    if k + i < t.len() && !(t[k + i] is LoopEnd && depth == 1) {
        lemma_match_end_skip(t, k, i + 1, depth + bracket_delta(t[k + i]));
    }
}

/// A scan that starts at a positive depth whose depth changes sum to zero
/// or below by position `q` finds a matching loop-end before `q`.
pub proof fn lemma_match_end_some(t: Seq<Token>, i: int, depth: int, q: int)
    requires
        0 <= i <= q <= t.len(),
        depth >= 1,
        depth + depth_change(t, i, q) <= 0,
    ensures
        match_end(t, i, depth) matches Some(m) && m < q,
    decreases t.len() - i,
{
    if i < q && !(t[i] is LoopEnd && depth == 1) {
        lemma_match_end_some(t, i + 1, depth + bracket_delta(t[i]), q);
    }
}

/// A parse error's index lies inside the sequence parsed.
pub proof fn lemma_parse_err_bound(t: Seq<Token>)
    requires
        t.len() <= usize::MAX,
    ensures
        parse_spec(t) matches Err(e) ==> e.count < t.len(),
    decreases t.len(),
{
    if t.len() > 0 {
        match t[0] {
            Token::LoopEnd => {},
            Token::LoopBegin => {
                lemma_match_end_bounds(t, 1, 1);
                if let Some(j) = match_end(t, 1, 1) {
                    lemma_parse_err_bound(t.subrange(1, j));
                    lemma_parse_err_bound(t.skip(j + 1));
                }
            },
            _ => {
                lemma_parse_err_bound(t.skip(1));
            },
        }
    }
}

/// Balanced, properly nested brackets: the depth changes sum to zero and
/// no prefix of the sequence closes more loops than it has opened.
pub open spec fn balanced(t: Seq<Token>) -> bool {
    depth_change(t, 0, t.len() as int) == 0 && forall|p: int|
        0 <= p <= t.len() ==> #[trigger] depth_change(t, 0, p) >= 0
}

/// A token sequence with balanced, properly nested brackets parses
/// successfully.
pub proof fn lemma_balanced_parses(u: Seq<Token>)
    requires
        balanced(u),
    ensures
        parse_spec(u) is Ok,
    decreases u.len(),
{
    let n = u.len() as int;
    if u.len() > 0 {
        match u[0] {
            Token::LoopEnd => {
                lemma_depth_change_one(u, 0);
                assert(depth_change(u, 0, 1) == -1);
            },
            Token::LoopBegin => {
                assert(depth_change(u, 0, n) == 1 + depth_change(u, 1, n));
                lemma_match_end_some(u, 1, 1, n);
                lemma_match_end_bounds(u, 1, 1);
                if let Some(j) = match_end(u, 1, 1) {
                    let inner = u.subrange(1, j);
                    assert(depth_change(u, 1, j) == 0);
                    assert(balanced(inner)) by {
                        lemma_depth_change_subrange(u, 1, j, 0, j - 1);
                        assert forall|p: int| 0 <= p <= inner.len() implies #[trigger]
                            depth_change(inner, 0, p) >= 0 by {
                            lemma_depth_change_subrange(u, 1, j, 0, p);
                        }
                    }
                    lemma_balanced_parses(inner);
                    let rest = u.skip(j + 1);
                    assert(depth_change(u, 0, j + 1) == 0) by {
                        lemma_depth_change_concat(u, 1, j, j + 1);
                        lemma_depth_change_one(u, j);
                        assert(depth_change(u, j, j + 1) == -1);
                        assert(depth_change(u, 0, j + 1) == 1 + depth_change(u, 1, j + 1));
                    }
                    assert(rest =~= u.subrange(j + 1, n));
                    assert(balanced(rest)) by {
                        lemma_depth_change_subrange(u, j + 1, n, 0, n - j - 1);
                        lemma_depth_change_concat(u, 0, j + 1, n);
                        assert forall|p: int| 0 <= p <= rest.len() implies #[trigger]
                            depth_change(rest, 0, p) >= 0 by {
                            lemma_depth_change_subrange(u, j + 1, n, 0, p);
                            lemma_depth_change_concat(u, 0, j + 1, j + 1 + p);
                        }
                    }
                    lemma_balanced_parses(rest);
                }
            },
            _ => {
                let rest = u.skip(1);
                assert(rest =~= u.subrange(1, n));
                assert(balanced(rest)) by {
                    lemma_depth_change_subrange(u, 1, n, 0, n - 1);
                    assert(depth_change(u, 0, n) == bracket_delta(u[0]) + depth_change(u, 1, n));
                    assert forall|p: int| 0 <= p <= rest.len() implies #[trigger] depth_change(
                        rest,
                        0,
                        p,
                    ) >= 0 by {
                        lemma_depth_change_subrange(u, 1, n, 0, p);
                        assert(depth_change(u, 0, p + 1) == bracket_delta(u[0]) + depth_change(
                            u,
                            1,
                            p + 1,
                        ));
                    }
                }
                lemma_balanced_parses(rest);
            },
        }
    }
}

/// The bracket-nesting depth of one instruction tree node.
pub open spec fn instr_depth(i: SpecInstr) -> nat
    decreases i,
{
    match i {
        SpecInstr::Loop(body) => 1 + seq_depth(body),
        _ => 0,
    }
}

/// The greatest nesting depth among a sequence of instruction trees.
pub open spec fn seq_depth(s: Seq<SpecInstr>) -> nat
    decreases s,
{
    if s.len() == 0 {
        0
    } else if instr_depth(s[0]) >= seq_depth(s.drop_first()) {
        instr_depth(s[0])
    } else {
        seq_depth(s.drop_first())
    }
}

/// The greatest bracket depth met scanning the tokens of `[i, m)` from
/// depth `d`, the starting depth included.
pub open spec fn max_depth(t: Seq<Token>, i: int, m: int, d: int) -> int
    decreases m - i,
{
    if i >= m || i < 0 || m > t.len() {
        d
    } else {
        let rest = max_depth(t, i + 1, m, d + bracket_delta(t[i]));
        if d >= rest {
            d
        } else {
            rest
        }
    }
}

/// The scan's maximum is at least its starting depth.
pub proof fn lemma_max_depth_ge(t: Seq<Token>, i: int, m: int, d: int)
    ensures
        max_depth(t, i, m, d) >= d,
    decreases m - i,
{
    if !(i >= m || i < 0 || m > t.len()) {
        lemma_max_depth_ge(t, i + 1, m, d + bracket_delta(t[i]));
    }
}

/// Raising the starting depth raises the whole scan by as much.
pub proof fn lemma_max_depth_offset(t: Seq<Token>, i: int, m: int, d: int, c: int)
    ensures
        max_depth(t, i, m, d + c) == max_depth(t, i, m, d) + c,
    decreases m - i,
{
    if !(i >= m || i < 0 || m > t.len()) {
        lemma_max_depth_offset(t, i + 1, m, d + bracket_delta(t[i]), c);
    }
}

/// A scan splits at any midpoint: its maximum is the larger of the two
/// halves', the second half starting at the depth the first has reached.
pub proof fn lemma_max_depth_split(t: Seq<Token>, i: int, m: int, e: int, d: int)
    requires
        0 <= i <= m <= e <= t.len(),
    ensures
        max_depth(t, i, e, d) == {
            let a = max_depth(t, i, m, d);
            let b = max_depth(t, m, e, d + depth_change(t, i, m));
            if a >= b {
                a
            } else {
                b
            }
        },
    decreases m - i,
{
    if i < m {
        lemma_max_depth_split(t, i + 1, m, e, d + bracket_delta(t[i]));
    } else {
        lemma_max_depth_ge(t, m, e, d);
    }
}

/// A scan inside a subrange equals the scan over the same tokens of the
/// whole sequence.
pub proof fn lemma_max_depth_subrange(t: Seq<Token>, x: int, y: int, a: int, b: int, d: int)
    requires
        0 <= x <= y <= t.len(),
        0 <= a <= b <= y - x,
    ensures
        max_depth(t.subrange(x, y), a, b, d) == max_depth(t, x + a, x + b, d),
    decreases b - a,
{
    if a < b {
        lemma_max_depth_subrange(t, x, y, a + 1, b, d + bracket_delta(t[x + a]));
    }
}

/// A token sequence with balanced, properly nested brackets parses into a
/// tree whose bracket-nesting depth equals the greatest nesting depth the
/// input's brackets reach.
pub proof fn lemma_balanced_parse_depth(u: Seq<Token>)
    requires
        balanced(u),
    ensures
        parse_spec(u) matches Ok(s) && seq_depth(s) == max_depth(u, 0, u.len() as int, 0),
    decreases u.len(),
{
    lemma_balanced_parses(u);
    let n = u.len() as int;
    if u.len() == 0 {
        assert(parse_spec(u) == Ok::<Seq<SpecInstr>, LoopError>(Seq::empty()));
        assert(seq_depth(Seq::<SpecInstr>::empty()) == 0);
        assert(max_depth(u, 0, 0, 0) == 0);
    } else {
        match u[0] {
            Token::LoopEnd => {
                lemma_depth_change_one(u, 0);
                assert(depth_change(u, 0, 1) == -1);
                assert(false);
            },
            Token::LoopBegin => {
                assert(depth_change(u, 0, n) == 1 + depth_change(u, 1, n));
                lemma_match_end_some(u, 1, 1, n);
                lemma_match_end_bounds(u, 1, 1);
                if let Some(j) = match_end(u, 1, 1) {
                    let inner = u.subrange(1, j);
                    assert(balanced(inner)) by {
                        lemma_depth_change_subrange(u, 1, j, 0, j - 1);
                        assert forall|p: int| 0 <= p <= inner.len() implies #[trigger]
                            depth_change(inner, 0, p) >= 0 by {
                            lemma_depth_change_subrange(u, 1, j, 0, p);
                        }
                    }
                    lemma_balanced_parse_depth(inner);
                    let rest = u.skip(j + 1);
                    assert(depth_change(u, 0, j + 1) == 0) by {
                        lemma_depth_change_concat(u, 1, j, j + 1);
                        lemma_depth_change_one(u, j);
                        assert(depth_change(u, 0, j + 1) == 1 + depth_change(u, 1, j + 1));
                    }
                    assert(rest =~= u.subrange(j + 1, n));
                    assert(balanced(rest)) by {
                        lemma_depth_change_subrange(u, j + 1, n, 0, n - j - 1);
                        lemma_depth_change_concat(u, 0, j + 1, n);
                        assert forall|p: int| 0 <= p <= rest.len() implies #[trigger]
                            depth_change(rest, 0, p) >= 0 by {
                            lemma_depth_change_subrange(u, j + 1, n, 0, p);
                            lemma_depth_change_concat(u, 0, j + 1, j + 1 + p);
                        }
                    }
                    lemma_balanced_parse_depth(rest);
                    if let Ok(inner_s) = parse_spec(inner) {
                        if let Ok(rest_s) = parse_spec(rest) {
                            let s = seq![SpecInstr::Loop(inner_s)] + rest_s;
                            assert(s[0] == SpecInstr::Loop(inner_s));
                            assert(s.drop_first() =~= rest_s);
                            let din = seq_depth(inner_s);
                            let drest = seq_depth(rest_s);
                            lemma_max_depth_split(u, 1, j, n, 1);
                            lemma_max_depth_offset(u, 1, j, 0, 1);
                            lemma_max_depth_subrange(u, 1, j, 0, j - 1, 0);
                            assert(max_depth(u, 1, j, 1) == 1 + din);
                            lemma_max_depth_split(u, j, j + 1, n, 1);
                            lemma_depth_change_one(u, j);
                            assert(max_depth(u, j + 1, j + 1, 0) == 0);
                            assert(max_depth(u, j, j + 1, 1) == 1);
                            lemma_max_depth_subrange(u, j + 1, n, 0, n - j - 1, 0);
                            assert(max_depth(u, j + 1, n, 0) == drest);
                            assert(max_depth(u, 0, n, 0) == if 1 + din >= drest {
                                (1 + din) as int
                            } else {
                                drest as int
                            });
                            assert(instr_depth(s[0]) == 1 + din);
                            assert(seq_depth(s.drop_first()) == drest);
                            assert(seq_depth(s) == if 1 + din >= drest {
                                (1 + din) as nat
                            } else {
                                drest
                            });
                            assert(parse_spec(u) == Ok::<Seq<SpecInstr>, LoopError>(s));
                        }
                    }
                }
            },
            _ => {
                lemma_depth_change_one(u, 0);
                let rest = u.skip(1);
                assert(rest =~= u.subrange(1, n));
                assert(balanced(rest)) by {
                    lemma_depth_change_subrange(u, 1, n, 0, n - 1);
                    assert(depth_change(u, 0, n) == bracket_delta(u[0]) + depth_change(u, 1, n));
                    assert forall|p: int| 0 <= p <= rest.len() implies #[trigger] depth_change(
                        rest,
                        0,
                        p,
                    ) >= 0 by {
                        lemma_depth_change_subrange(u, 1, n, 0, p);
                        assert(depth_change(u, 0, p + 1) == bracket_delta(u[0]) + depth_change(
                            u,
                            1,
                            p + 1,
                        ));
                    }
                }
                lemma_balanced_parse_depth(rest);
                if let Ok(rest_s) = parse_spec(rest) {
                    let s = seq![instr_of(u[0])] + rest_s;
                    assert(s[0] == instr_of(u[0]));
                    assert(instr_depth(s[0]) == 0);
                    assert(s.drop_first() =~= rest_s);
                    lemma_max_depth_subrange(u, 1, n, 0, n - 1, 0);
                    lemma_max_depth_ge(u, 1, n, 0);
                    assert(seq_depth(s) == seq_depth(rest_s));
                    assert(max_depth(u, 0, n, 0) == max_depth(u, 1, n, 0 + bracket_delta(u[0])));
                    assert(parse_spec(u) == Ok::<Seq<SpecInstr>, LoopError>(s));
                }
            },
        }
    }
}

/// A loop-end with no open loop before it: where token `j` is a loop-end
/// and the brackets before it are balanced, parsing fails with a
/// `Beginning` error at exactly that token's index.
pub proof fn lemma_unmatched_loop_end(t: Seq<Token>, j: int)
    requires
        t.len() <= usize::MAX,
        0 <= j < t.len(),
        t[j] is LoopEnd,
        depth_change(t, 0, j) == 0,
        forall|p: int| 0 <= p <= j ==> #[trigger] depth_change(t, 0, p) >= 0,
    ensures
        parse_spec(t) == Err::<Seq<SpecInstr>, LoopError>(
            (LoopError { side: LoopSide::Beginning, count: j as usize }),
        ),
    decreases t.len(),
{
    let n = t.len() as int;
    if j > 0 {
        match t[0] {
            Token::LoopEnd => {
                lemma_depth_change_one(t, 0);
                assert(depth_change(t, 0, 1) == -1);
                assert(false);
            },
            Token::LoopBegin => {
                lemma_depth_change_one(t, 0);
                lemma_depth_change_one(t, j);
                lemma_depth_change_concat(t, 0, j, j + 1);
                lemma_depth_change_concat(t, 0, 1, j + 1);
                lemma_match_end_some(t, 1, 1, j + 1);
                lemma_match_end_bounds(t, 1, 1);
                if let Some(m) = match_end(t, 1, 1) {
                    lemma_depth_change_concat(t, 0, 1, m);
                    assert(depth_change(t, 0, m) == 1);
                    assert(m < j);
                    lemma_matched_span_balanced(t, 1, m);
                    lemma_balanced_parses(t.subrange(1, m));
                    lemma_depth_change_one(t, m);
                    lemma_depth_change_concat(t, 1, m, m + 1);
                    lemma_depth_change_concat(t, 0, 1, m + 1);
                    assert(depth_change(t, 0, m + 1) == 0);
                    let rest = t.skip(m + 1);
                    assert(rest =~= t.subrange(m + 1, n));
                    let j2 = j - (m + 1);
                    assert(rest[j2] == t[j]);
                    assert(depth_change(rest, 0, j2) == 0) by {
                        lemma_depth_change_subrange(t, m + 1, n, 0, j2);
                        lemma_depth_change_concat(t, 0, m + 1, j);
                    }
                    assert forall|p: int| 0 <= p <= j2 implies #[trigger] depth_change(
                        rest,
                        0,
                        p,
                    ) >= 0 by {
                        lemma_depth_change_subrange(t, m + 1, n, 0, p);
                        lemma_depth_change_concat(t, 0, m + 1, m + 1 + p);
                    }
                    lemma_unmatched_loop_end(rest, j2);
                }
            },
            _ => {
                lemma_depth_change_one(t, 0);
                let rest = t.skip(1);
                assert(rest =~= t.subrange(1, n));
                assert(rest[j - 1] == t[j]);
                assert(depth_change(rest, 0, j - 1) == 0) by {
                    lemma_depth_change_subrange(t, 1, n, 0, j - 1);
                    lemma_depth_change_concat(t, 0, 1, j);
                }
                assert forall|p: int| 0 <= p <= j - 1 implies #[trigger] depth_change(
                    rest,
                    0,
                    p,
                ) >= 0 by {
                    lemma_depth_change_subrange(t, 1, n, 0, p);
                    lemma_depth_change_concat(t, 0, 1, p + 1);
                }
                lemma_unmatched_loop_end(rest, j - 1);
            },
        }
    }
}

/// A loop-begin that is never closed: where token `s` opens a loop at
/// bracket depth zero and the depth never returns to zero after it,
/// parsing fails with an `Ending` error at exactly that token's index.
pub proof fn lemma_unmatched_loop_begin(t: Seq<Token>, s: int)
    requires
        t.len() <= usize::MAX,
        0 <= s < t.len(),
        t[s] is LoopBegin,
        depth_change(t, 0, s) == 0,
        forall|p: int| 0 <= p <= t.len() ==> #[trigger] depth_change(t, 0, p) >= 0,
        forall|p: int| s < p <= t.len() ==> #[trigger] depth_change(t, 0, p) >= 1,
    ensures
        parse_spec(t) == Err::<Seq<SpecInstr>, LoopError>(
            (LoopError { side: LoopSide::Ending, count: s as usize }),
        ),
    decreases t.len(),
{
    let n = t.len() as int;
    if t[0] is LoopEnd {
        lemma_depth_change_one(t, 0);
        assert(depth_change(t, 0, 1) == -1);
        assert(false);
    } else if s == 0 {
        lemma_depth_change_one(t, 0);
        lemma_match_end_bounds(t, 1, 1);
        if let Some(m) = match_end(t, 1, 1) {
            lemma_depth_change_one(t, m);
            lemma_depth_change_concat(t, 1, m, m + 1);
            lemma_depth_change_concat(t, 0, 1, m + 1);
            assert(depth_change(t, 0, m + 1) == 0);
            assert(false);
        }
    } else {
        match t[0] {
            Token::LoopBegin => {
                lemma_depth_change_one(t, 0);
                lemma_depth_change_concat(t, 0, 1, s);
                lemma_match_end_some(t, 1, 1, s);
                lemma_match_end_bounds(t, 1, 1);
                if let Some(m) = match_end(t, 1, 1) {
                    lemma_matched_span_balanced(t, 1, m);
                    lemma_balanced_parses(t.subrange(1, m));
                    lemma_depth_change_one(t, m);
                    lemma_depth_change_concat(t, 1, m, m + 1);
                    lemma_depth_change_concat(t, 0, 1, m + 1);
                    assert(depth_change(t, 0, m + 1) == 0);
                    let rest = t.skip(m + 1);
                    assert(rest =~= t.subrange(m + 1, n));
                    let s2 = s - (m + 1);
                    assert(rest[s2] == t[s]);
                    assert(depth_change(rest, 0, s2) == 0) by {
                        lemma_depth_change_subrange(t, m + 1, n, 0, s2);
                        lemma_depth_change_concat(t, 0, m + 1, s);
                    }
                    assert forall|p: int| 0 <= p <= rest.len() implies #[trigger] depth_change(
                        rest,
                        0,
                        p,
                    ) >= 0 by {
                        lemma_depth_change_subrange(t, m + 1, n, 0, p);
                        lemma_depth_change_concat(t, 0, m + 1, m + 1 + p);
                    }
                    assert forall|p: int| s2 < p <= rest.len() implies #[trigger] depth_change(
                        rest,
                        0,
                        p,
                    ) >= 1 by {
                        lemma_depth_change_subrange(t, m + 1, n, 0, p);
                        lemma_depth_change_concat(t, 0, m + 1, m + 1 + p);
                    }
                    lemma_unmatched_loop_begin(rest, s2);
                }
            },
            _ => {
                lemma_depth_change_one(t, 0);
                let rest = t.skip(1);
                assert(rest =~= t.subrange(1, n));
                assert(rest[s - 1] == t[s]);
                assert(depth_change(rest, 0, s - 1) == 0) by {
                    lemma_depth_change_subrange(t, 1, n, 0, s - 1);
                    lemma_depth_change_concat(t, 0, 1, s);
                }
                assert forall|p: int| 0 <= p <= rest.len() implies #[trigger] depth_change(
                    rest,
                    0,
                    p,
                ) >= 0 by {
                    lemma_depth_change_subrange(t, 1, n, 0, p);
                    lemma_depth_change_concat(t, 0, 1, p + 1);
                }
                assert forall|p: int| s - 1 < p <= rest.len() implies #[trigger] depth_change(
                    rest,
                    0,
                    p,
                ) >= 1 by {
                    lemma_depth_change_subrange(t, 1, n, 0, p);
                    lemma_depth_change_concat(t, 0, 1, p + 1);
                }
                lemma_unmatched_loop_begin(rest, s - 1);
            },
        }
    }
}

/// The view of an instruction sequence is the view of each instruction,
/// in order.
pub proof fn lemma_view_instrs_pointwise(s: Seq<Instruction>)
    ensures
        view_instrs(s).len() == s.len(),
        forall|i: int| 0 <= i < s.len() ==> view_instrs(s)[i] == view_instr(#[trigger] s[i]),
    decreases s.len(),
{
    if s.len() > 0 {
        lemma_view_instrs_pointwise(s.drop_last());
        assert forall|i: int| 0 <= i < s.len() implies view_instrs(s)[i] == view_instr(
            #[trigger] s[i],
        ) by {
            if i < s.len() - 1 {
                assert(s.drop_last()[i] == s[i]);
            }
        }
    }
}

/// The span strictly between a loop-begin and the loop-end found for it is
/// balanced.
pub proof fn lemma_matched_span_balanced(t: Seq<Token>, i: int, j: int)
    requires
        0 <= i,
        match_end(t, i, 1) == Some(j),
    ensures
        i <= j < t.len(),
        t[j] is LoopEnd,
        balanced(t.subrange(i, j)),
{
    lemma_match_end_bounds(t, i, 1);
    let inner = t.subrange(i, j);
    lemma_depth_change_subrange(t, i, j, 0, j - i);
    assert forall|p: int| 0 <= p <= inner.len() implies #[trigger] depth_change(inner, 0, p)
        >= 0 by {
        lemma_depth_change_subrange(t, i, j, 0, p);
    }
}

/// A sequence viewed after a push is the view with the new element's view
/// at its end.
proof fn lemma_view_instrs_push(s: Seq<Instruction>, x: Instruction)
    ensures
        view_instrs(s.push(x)) == view_instrs(s).push(view_instr(x)),
{
    assert(s.push(x).drop_last() =~= s);
    assert(s.push(x).last() == x);
}

/// A sub-parse result placed after `acc` instructions that begin at token
/// offset `off` of the enclosing sequence.
spec fn compose_at(
    acc: Seq<SpecInstr>,
    res: Result<Seq<SpecInstr>, LoopError>,
    off: int,
) -> Result<Seq<SpecInstr>, LoopError> {
    match res {
        Ok(tail) => Ok(acc + tail),
        Err(e) => Err(shift_err(e, off)),
    }
}

/// A copy of the tokens in `[from, to)`.
fn subvec(v: &Vec<Token>, from: usize, to: usize) -> (r: Vec<Token>)
    requires
        from <= to <= v.len(),
    ensures
        r@ == v@.subrange(from as int, to as int),
{
    let mut r: Vec<Token> = Vec::new();
    let mut i: usize = from;
    while i < to
        invariant
            from <= i <= to <= v.len(),
            r@ == v@.subrange(from as int, i as int),
        decreases to - i,
    {
        r.push(v[i]);
        i = i + 1;
        proof {
            assert(v@.subrange(from as int, i as int) =~= v@.subrange(
                from as int,
                i - 1,
            ).push(v@[i - 1]));
        }
    }
    r
}

/// The instruction a non-bracket token becomes.
fn simple_instruction(token: Token) -> (r: Instruction)
    requires
        !(token is LoopBegin),
        !(token is LoopEnd),
    ensures
        view_instr(r) == instr_of(token),
{
    match token {
        Token::IncrementX => Instruction::IncrementX,
        Token::DecrementX => Instruction::DecrementX,
        Token::IncrementY => Instruction::IncrementY,
        Token::DecrementY => Instruction::DecrementY,
        Token::IncrementZ => Instruction::IncrementZ,
        Token::DecrementZ => Instruction::DecrementZ,
        Token::IncrementW => Instruction::IncrementW,
        Token::DecrementW => Instruction::DecrementW,
        Token::Increment => Instruction::Increment,
        Token::Decrement => Instruction::Decrement,
        Token::Write => Instruction::Write,
        Token::Read => Instruction::Read,
        // The bracket arms are unreachable: the contract rules brackets out.
        Token::LoopBegin | Token::LoopEnd => Instruction::Read,
    }
}

/// Parse a token sequence into an instruction tree, or report the first
/// unmatched bracket with its token index.
pub fn parse(tokens: Vec<Token>) -> (r: Result<Vec<Instruction>, LoopError>)
    ensures
        match parse_spec(tokens@) {
            Ok(s) => r matches Ok(v) && view_instrs(v@) == s,
            Err(e) => r == Err::<Vec<Instruction>, LoopError>(e),
        },
    decreases tokens@.len(),
{
    let ghost t = tokens@;
    let mut instructions: Vec<Instruction> = Vec::new();
    let mut loop_stack: usize = 0;
    let mut loop_start: usize = 0;
    let n = tokens.len();
    let mut idx: usize = 0;

    proof {
        assert(t.skip(0) =~= t);
        if let Ok(s0) = parse_spec(t) {
            assert(view_instrs(instructions@) + s0 =~= s0);
        }
    }
    while idx < n
        invariant
            idx <= n,
            n == t.len(),
            tokens@ == t,
            loop_stack <= idx,
            loop_stack == 0 ==> parse_spec(t) == compose_at(
                view_instrs(instructions@),
                parse_spec(t.skip(idx as int)),
                idx as int,
            ),
            loop_stack > 0 ==> {
                &&& loop_start < idx
                &&& t[loop_start as int] is LoopBegin
                &&& match_end(t, loop_start + 1, 1) == match_end(
                    t,
                    idx as int,
                    loop_stack as int,
                )
                &&& parse_spec(t) == (match match_end(t, idx as int, loop_stack as int) {
                    None => Err::<Seq<SpecInstr>, LoopError>(
                        (LoopError { side: LoopSide::Ending, count: loop_start }),
                    ),
                    Some(j) => match (
                        parse_spec(t.subrange(loop_start + 1, j)),
                        parse_spec(t.skip(j + 1)),
                    ) {
                        (Ok(inner), Ok(rest)) => Ok(
                            view_instrs(instructions@) + seq![SpecInstr::Loop(inner)] + rest,
                        ),
                        (Err(e), _) => Err(shift_err(e, loop_start + 1)),
                        (_, Err(e)) => Err(shift_err(e, j + 1)),
                    },
                })
            },
        decreases n - idx,
    {
        let token = tokens[idx];
        if loop_stack == 0 {
            match token {
                Token::LoopBegin => {
                    proof {
                        assert(t.skip(idx as int)[0] == t[idx as int]);
                        lemma_match_end_skip(t, idx as int, 1, 1);
                        lemma_match_end_bounds(t, idx + 1, 1);
                        if let Some(j) = match_end(t, idx + 1, 1) {
                            assert(t.skip(idx as int).subrange(1, j - idx) =~= t.subrange(
                                idx + 1,
                                j,
                            ));
                            assert(t.skip(idx as int).skip(j - idx + 1) =~= t.skip(j + 1));
                            lemma_parse_err_bound(t.subrange(idx + 1, j));
                            lemma_parse_err_bound(t.skip(j + 1));
                            if let Ok(inner) = parse_spec(t.subrange(idx + 1, j)) {
                                if let Ok(rest) = parse_spec(t.skip(j + 1)) {
                                    assert(view_instrs(instructions@) + (seq![
                                        SpecInstr::Loop(inner),
                                    ] + rest) =~= view_instrs(instructions@) + seq![
                                        SpecInstr::Loop(inner),
                                    ] + rest);
                                }
                            }
                        }
                    }
                    loop_start = idx;
                    loop_stack = 1;
                },
                Token::LoopEnd => {
                    proof {
                        assert(t.skip(idx as int)[0] == t[idx as int]);
                        assert(parse_spec(t) == Err::<Seq<SpecInstr>, LoopError>(
                            (LoopError { side: LoopSide::Beginning, count: idx }),
                        ));
                    }
                    return Err(LoopError { side: LoopSide::Beginning, count: idx });
                },
                _ => {
                    let instr = simple_instruction(token);
                    proof {
                        assert(t.skip(idx as int)[0] == t[idx as int]);
                        assert(t.skip(idx as int).skip(1) =~= t.skip(idx + 1));
                        lemma_parse_err_bound(t.skip(idx + 1));
                        lemma_view_instrs_push(instructions@, instr);
                        if let Ok(rest) = parse_spec(t.skip(idx + 1)) {
                            assert(view_instrs(instructions@) + (seq![instr_of(t[idx as int])]
                                + rest) =~= view_instrs(instructions@).push(
                                view_instr(instr),
                            ) + rest);
                        }
                    }
                    instructions.push(instr);
                },
            }
        } else {
            match token {
                Token::LoopBegin => {
                    loop_stack = loop_stack + 1;
                },
                Token::LoopEnd => {
                    if loop_stack == 1 {
                        proof {
                            assert(match_end(t, idx as int, 1) == Some(idx as int));
                            lemma_matched_span_balanced(t, loop_start + 1, idx as int);
                            lemma_balanced_parses(t.subrange(loop_start + 1, idx as int));
                        }
                        loop_stack = 0;
                        let body = subvec(&tokens, loop_start + 1, idx);
                        match parse(body) {
                            Ok(inner) => {
                                proof {
                                    lemma_view_instrs_push(
                                        instructions@,
                                        Instruction::Loop(inner),
                                    );
                                    if let Ok(inner_s) = parse_spec(
                                        t.subrange(loop_start + 1, idx as int),
                                    ) {
                                        if let Ok(rest) = parse_spec(t.skip(idx + 1)) {
                                            assert(view_instrs(instructions@) + seq![
                                                SpecInstr::Loop(inner_s),
                                            ] + rest =~= view_instrs(instructions@).push(
                                                SpecInstr::Loop(inner_s),
                                            ) + rest);
                                        }
                                    }
                                }
                                instructions.push(Instruction::Loop(inner));
                            },
                            Err(e) => {
                                // Unreachable: the span between a matched
                                // bracket pair always parses.
                                proof {
                                    assert(false);
                                }
                                return Err(e);
                            },
                        }
                    } else {
                        loop_stack = loop_stack - 1;
                    }
                },
                _ => {},
            }
        }
        idx = idx + 1;
    }

    if loop_stack != 0 {
        proof {
            assert(match_end(t, idx as int, loop_stack as int) is None);
        }
        return Err(LoopError { side: LoopSide::Ending, count: loop_start });
    }
    proof {
        assert(t.skip(n as int).len() == 0);
        assert(view_instrs(instructions@) + Seq::<SpecInstr>::empty() =~= view_instrs(
            instructions@,
        ));
    }
    Ok(instructions)
}

} // verus!
