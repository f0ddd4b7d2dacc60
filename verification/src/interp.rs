use vstd::prelude::*;
use crate::cube::{Cube, cells, side, in_bounds};
use crate::errors::{InterpretError, MovError, RunError};
use crate::io::IoBuffer;
use crate::locator::{Direction, Loc};
use crate::lexer::lex_spec;
use crate::parser::{Instruction, SpecInstr, parse_spec, view_instr, view_instrs};

verus! {

/// The whole state of a run in mathematical form: the cube's cells, the
/// position, and the two byte streams.
pub ghost struct State {
    pub cells: Map<(int, int, int, int), u8>,
    pub loc: Loc,
    pub input: Seq<u8>,
    pub output: Seq<u8>,
}

/// What a run of an instruction sequence comes to: it finishes with fuel
/// to spare, a move falls off the cube, a read finds no input, or the
/// fuel runs out. The state carried is the state at that moment.
pub ghost enum SpecOutcome {
    Done { st: State, fuel: nat },
    MoveFail { err: MovError, st: State },
    InputFail { st: State },
    OutOfSteps { st: State },
}

impl State {
    /// The coordinates of the cell under the locator.
    pub open spec fn key(self) -> (int, int, int, int) {
        (self.loc.x as int, self.loc.y as int, self.loc.z as int, self.loc.w as int)
    }

    /// The byte of the cell under the locator.
    pub open spec fn cur_cell(self) -> u8 {
        self.cells[self.key()]
    }

    /// The state with the cell under the locator replaced.
    pub open spec fn with_cell(self, v: u8) -> State {
        State { cells: self.cells.insert(self.key(), v), ..self }
    }

    /// Every cell of the cube is zero.
    pub open spec fn all_zero(self) -> bool {
        forall|x: int, y: int, z: int, w: int|
            in_bounds(x, y, z, w, self.loc.count as nat) ==> #[trigger] self.cells[(x, y, z, w)]
                == 0u8
    }
}

/// The state a cube, a locator and an I/O buffer stand for.
pub open spec fn state_of(mem: Cube, loc: Loc, io: IoBuffer) -> State {
    State { cells: cells(mem), loc, input: io.in_rest(), output: io.out_seq() }
}

/// The direction a movement instruction moves in, or `None` for the
/// instructions that do not move.
pub open spec fn move_dir(i: SpecInstr) -> Option<Direction> {
    match i {
        SpecInstr::IncrementX => Some(Direction::XPos),
        SpecInstr::DecrementX => Some(Direction::XNeg),
        SpecInstr::IncrementY => Some(Direction::YPos),
        SpecInstr::DecrementY => Some(Direction::YNeg),
        SpecInstr::IncrementZ => Some(Direction::ZPos),
        SpecInstr::DecrementZ => Some(Direction::ZNeg),
        SpecInstr::IncrementW => Some(Direction::WPos),
        SpecInstr::DecrementW => Some(Direction::WNeg),
        _ => None,
    }
}

/// One byte stepped up, wrapping past its width.
pub open spec fn inc_byte(b: u8) -> u8 {
    if b == 255 {
        0
    } else {
        (b + 1) as u8
    }
}

/// One byte stepped down, wrapping past zero.
pub open spec fn dec_byte(b: u8) -> u8 {
    if b == 0 {
        255
    } else {
        (b - 1) as u8
    }
}

/// What running an instruction sequence does, one unit of fuel per
/// instruction reached. Movement delegates to the locator and a failure
/// there ends the run with the state as it stands. A loop runs while any
/// cell of the whole cube is non-zero, re-checked before every repetition:
/// its body is laid in front of the loop itself, so the loop is met again
/// when the body has finished.
pub open spec fn run_spec(instrs: Seq<SpecInstr>, st: State, fuel: nat) -> SpecOutcome
    decreases fuel,
{
    if instrs.len() == 0 {
        SpecOutcome::Done { st, fuel }
    } else if fuel == 0 {
        SpecOutcome::OutOfSteps { st }
    } else {
        let rest = instrs.drop_first();
        let f2 = (fuel - 1) as nat;
        match move_dir(instrs[0]) {
            Some(d) => match st.loc.mov_spec(d, 1) {
                Ok(l2) => run_spec(rest, State { loc: l2, ..st }, f2),
                Err(e) => SpecOutcome::MoveFail { err: e, st },
            },
            None => match instrs[0] {
                SpecInstr::Increment => run_spec(rest, st.with_cell(inc_byte(st.cur_cell())), f2),
                SpecInstr::Decrement => run_spec(rest, st.with_cell(dec_byte(st.cur_cell())), f2),
                SpecInstr::Write => run_spec(
                    rest,
                    State { output: st.output.push(st.cur_cell()), ..st },
                    f2,
                ),
                SpecInstr::Read => if st.input.len() == 0 {
                    SpecOutcome::InputFail { st }
                } else {
                    run_spec(
                        rest,
                        State { input: st.input.drop_first(), ..st }.with_cell(st.input[0]),
                        f2,
                    )
                },
                SpecInstr::Loop(body) => if st.all_zero() {
                    run_spec(rest, st, f2)
                } else {
                    run_spec(body + instrs, st, f2)
                },
                // The movement instructions are all handled above.
                _ => arbitrary(),
            },
        }
    }
}

/// A finished run cannot return more fuel than it was given.
pub proof fn lemma_run_spec_fuel(instrs: Seq<SpecInstr>, st: State, fuel: nat)
    ensures
        run_spec(instrs, st, fuel) matches SpecOutcome::Done { st: st2, fuel: f2 } ==> f2
            <= fuel,
    decreases fuel,
{
    if instrs.len() > 0 && fuel > 0 {
        let rest = instrs.drop_first();
        let f2 = (fuel - 1) as nat;
        match move_dir(instrs[0]) {
            Some(d) => {
                if let Ok(l2) = st.loc.mov_spec(d, 1) {
                    lemma_run_spec_fuel(rest, State { loc: l2, ..st }, f2);
                }
            },
            None => match instrs[0] {
                SpecInstr::Increment => {
                    lemma_run_spec_fuel(rest, st.with_cell(inc_byte(st.cur_cell())), f2);
                },
                SpecInstr::Decrement => {
                    lemma_run_spec_fuel(rest, st.with_cell(dec_byte(st.cur_cell())), f2);
                },
                SpecInstr::Write => {
                    lemma_run_spec_fuel(
                        rest,
                        State { output: st.output.push(st.cur_cell()), ..st },
                        f2,
                    );
                },
                SpecInstr::Read => {
                    if st.input.len() > 0 {
                        lemma_run_spec_fuel(
                            rest,
                            State { input: st.input.drop_first(), ..st }.with_cell(st.input[0]),
                            f2,
                        );
                    }
                },
                SpecInstr::Loop(body) => {
                    if st.all_zero() {
                        lemma_run_spec_fuel(rest, st, f2);
                    } else {
                        lemma_run_spec_fuel(body + instrs, st, f2);
                    }
                },
                _ => {},
            },
        }
    }
}

/// Running two sequences one after the other is running the first and,
/// where it finishes, running the second from the state and fuel the
/// first left behind.
pub proof fn lemma_run_spec_append(a: Seq<SpecInstr>, b: Seq<SpecInstr>, st: State, fuel: nat)
    ensures
        run_spec(a + b, st, fuel) == (match run_spec(a, st, fuel) {
            SpecOutcome::Done { st: st2, fuel: f2 } => run_spec(b, st2, f2),
            o => o,
        }),
    decreases fuel,
{
    if a.len() == 0 {
        assert(a + b =~= b);
    } else if fuel > 0 {
        let rest = a.drop_first();
        let f2 = (fuel - 1) as nat;
        assert((a + b)[0] == a[0]);
        assert((a + b).drop_first() =~= rest + b);
        match move_dir(a[0]) {
            Some(d) => {
                if let Ok(l2) = st.loc.mov_spec(d, 1) {
                    lemma_run_spec_append(rest, b, State { loc: l2, ..st }, f2);
                }
            },
            None => match a[0] {
                SpecInstr::Increment => {
                    lemma_run_spec_append(rest, b, st.with_cell(inc_byte(st.cur_cell())), f2);
                },
                SpecInstr::Decrement => {
                    lemma_run_spec_append(rest, b, st.with_cell(dec_byte(st.cur_cell())), f2);
                },
                SpecInstr::Write => {
                    lemma_run_spec_append(
                        rest,
                        b,
                        State { output: st.output.push(st.cur_cell()), ..st },
                        f2,
                    );
                },
                SpecInstr::Read => {
                    if st.input.len() > 0 {
                        lemma_run_spec_append(
                            rest,
                            b,
                            State { input: st.input.drop_first(), ..st }.with_cell(st.input[0]),
                            f2,
                        );
                    }
                },
                SpecInstr::Loop(body) => {
                    if st.all_zero() {
                        lemma_run_spec_append(rest, b, st, f2);
                    } else {
                        assert(body + (a + b) =~= (body + a) + b);
                        lemma_run_spec_append(body + a, b, st, f2);
                    }
                },
                _ => {},
            },
        }
    }
}

/// The state a run starts from: a zero-filled cube, the locator at the
/// origin, the given bytes waiting on the input, and nothing written.
pub open spec fn init_state(count: usize, input: Seq<u8>) -> State {
    State {
        cells: Map::new(
            |k: (int, int, int, int)| in_bounds(k.0, k.1, k.2, k.3, count as nat),
            |k: (int, int, int, int)| 0u8,
        ),
        loc: (Loc { x: 0, y: 0, z: 0, w: 0, count }),
        input,
        output: Seq::empty(),
    }
}

/// The whole pipeline on one source text: lex it, parse it, and run the
/// program against a fresh cube of side `count`, reading from `input`.
/// Returns the outcome and whatever output the run produced up to that
/// point; a parse failure stops the pipeline before anything runs.
pub fn interpret(source: String, count: usize, input: Vec<u8>, budget: u64) -> (r: (
    Result<(), InterpretError>,
    Vec<u8>,
))
    requires
        count >= 1,
        count * count * count * count <= isize::MAX,
    ensures
        match parse_spec(lex_spec(source@)) {
            Err(e) => r.0 == Err::<(), InterpretError>(InterpretError::Parse(e)) && r.1@
                == Seq::<u8>::empty(),
            Ok(prog) => match run_spec(prog, init_state(count, input@), budget as nat) {
                SpecOutcome::Done { st, .. } => r.0 == Ok::<(), InterpretError>(()) && r.1@
                    == st.output,
                SpecOutcome::MoveFail { err, st } => r.0 == Err::<(), InterpretError>(
                    InterpretError::Run(RunError::Move(err)),
                ) && r.1@ == st.output,
                SpecOutcome::InputFail { st } => r.0 == Err::<(), InterpretError>(
                    InterpretError::Run(RunError::InputExhausted),
                ) && r.1@ == st.output,
                SpecOutcome::OutOfSteps { st } => r.0 == Err::<(), InterpretError>(
                    InterpretError::Run(RunError::OutOfSteps),
                ) && r.1@ == st.output,
            },
        },
{
    let tokens = crate::lexer::lex(source);
    match crate::parser::parse(tokens) {
        Err(e) => (Err(InterpretError::Parse(e)), Vec::new()),
        Ok(instrs) => {
            let mut mem = Cube::zeros(count);
            let mut locator = Loc::new(count);
            let mut io = IoBuffer::new(input);
            proof {
                assert(state_of(mem, locator, io) == init_state(count, input@));
            }
            let res = run(&instrs, &mut mem, &mut locator, &mut io, budget);
            match res {
                Ok(_) => (Ok(()), io.into_output()),
                Err(e) => (Err(InterpretError::Run(e)), io.into_output()),
            }
        },
    }
}

/// A loop reached while the cube is entirely zero performs zero
/// iterations: beyond the one step spent on the check itself, it leaves
/// the state untouched and the run continues after it.
pub proof fn lemma_loop_on_zero_cube(
    body: Seq<SpecInstr>,
    rest: Seq<SpecInstr>,
    st: State,
    fuel: nat,
)
    requires
        st.all_zero(),
        fuel >= 1,
    ensures
        run_spec(seq![SpecInstr::Loop(body)] + rest, st, fuel) == run_spec(
            rest,
            st,
            (fuel - 1) as nat,
        ),
{
    let whole = seq![SpecInstr::Loop(body)] + rest;
    assert(whole[0] == SpecInstr::Loop(body));
    assert(whole.drop_first() =~= rest);
}

/// The direction a movement instruction moves in, as executable code.
fn exec_move_dir(instr: &Instruction) -> (r: Option<Direction>)
    ensures
        r == move_dir(view_instr(*instr)),
{
    match instr {
        Instruction::IncrementX => Some(Direction::XPos),
        Instruction::DecrementX => Some(Direction::XNeg),
        Instruction::IncrementY => Some(Direction::YPos),
        Instruction::DecrementY => Some(Direction::YNeg),
        Instruction::IncrementZ => Some(Direction::ZPos),
        Instruction::DecrementZ => Some(Direction::ZNeg),
        Instruction::IncrementW => Some(Direction::WPos),
        Instruction::DecrementW => Some(Direction::WNeg),
        _ => None,
    }
}

/// Run an instruction sequence against a memory cube, a locator and an
/// I/O buffer, spending one unit of the step budget per instruction
/// reached, exactly as `run_spec` says: the result and the final state
/// equal the outcome of `run_spec` on the starting state, and on success
/// the budget that is left is returned.
#[verifier::loop_isolation(false)]
pub fn run(
    instructions: &Vec<Instruction>,
    mem: &mut Cube,
    locator: &mut Loc,
    io: &mut IoBuffer,
    budget: u64,
) -> (r: Result<u64, RunError>)
    requires
        old(locator).wf(),
        side(*old(mem)) == old(locator).count as nat,
        old(io).wf(),
    ensures
        final(locator).count == old(locator).count,
        final(locator).wf(),
        side(*final(mem)) == side(*old(mem)),
        final(io).wf(),
        match run_spec(
            view_instrs(instructions@),
            state_of(*old(mem), *old(locator), *old(io)),
            budget as nat,
        ) {
            SpecOutcome::Done { st, fuel } => r matches Ok(f) && f as nat == fuel
                && state_of(*final(mem), *final(locator), *final(io)) == st,
            SpecOutcome::MoveFail { err, st } => r == Err::<u64, RunError>(RunError::Move(err))
                && state_of(*final(mem), *final(locator), *final(io)) == st,
            SpecOutcome::InputFail { st } => r == Err::<u64, RunError>(RunError::InputExhausted)
                && state_of(*final(mem), *final(locator), *final(io)) == st,
            SpecOutcome::OutOfSteps { st } => r == Err::<u64, RunError>(RunError::OutOfSteps)
                && state_of(*final(mem), *final(locator), *final(io)) == st,
        },
    decreases budget,
{
    let ghost iv = view_instrs(instructions@);
    let ghost st0 = state_of(*mem, *locator, *io);
    proof {
        crate::parser::lemma_view_instrs_pointwise(instructions@);
        assert(iv.skip(0) =~= iv);
    }
    let mut fuel: u64 = budget;
    let n = instructions.len();
    let mut i: usize = 0;
    while i < n
        invariant
            i <= n,
            locator.wf(),
            locator.count == old(locator).count,
            side(*mem) == side(*old(mem)),
            io.wf(),
            fuel <= budget,
            run_spec(iv, st0, budget as nat) == run_spec(
                iv.skip(i as int),
                state_of(*mem, *locator, *io),
                fuel as nat,
            ),
        decreases fuel,
    {
        let ghost cur = state_of(*mem, *locator, *io);
        let ghost f_pre = fuel as nat;
        proof {
            assert(iv.skip(i as int)[0] == view_instr(instructions@[i as int]));
            assert(iv.skip(i as int).drop_first() =~= iv.skip(i as int + 1));
        }
        if fuel == 0 {
            return Err(RunError::OutOfSteps);
        }
        fuel = fuel - 1;
        let instr = &instructions[i];
        match exec_move_dir(instr) {
            Some(d) => {
                match locator.mov(d, 1) {
                    Ok(_) => {},
                    Err(e) => {
                        return Err(RunError::Move(e));
                    },
                }
            },
            None => {
                match instr {
                    Instruction::Increment => {
                        let b = mem.get(locator.x, locator.y, locator.z, locator.w);
                        mem.set(locator.x, locator.y, locator.z, locator.w, b.wrapping_add(1));
                    },
                    Instruction::Decrement => {
                        let b = mem.get(locator.x, locator.y, locator.z, locator.w);
                        mem.set(locator.x, locator.y, locator.z, locator.w, b.wrapping_sub(1));
                    },
                    Instruction::Write => {
                        let b = mem.get(locator.x, locator.y, locator.z, locator.w);
                        io.write_byte(b);
                    },
                    Instruction::Read => {
                        match io.read_byte() {
                            Some(b) => {
                                mem.set(locator.x, locator.y, locator.z, locator.w, b);
                            },
                            None => {
                                return Err(RunError::InputExhausted);
                            },
                        }
                    },
                    Instruction::Loop(body) => {
                        let ghost bodyv = view_instrs(body@);
                        let mut zero = mem.all_cells_zero();
                        proof {
                            if !zero {
                                lemma_run_spec_append(bodyv, iv.skip(i as int), cur, fuel as nat);
                            }
                        }
                        while !zero
                            invariant
                                locator.wf(),
                                locator.count == old(locator).count,
                                side(*mem) == side(*old(mem)),
                                io.wf(),
                                fuel < budget,
                                (fuel as nat) < f_pre,
                                zero == state_of(*mem, *locator, *io).all_zero(),
                                run_spec(iv, st0, budget as nat) == (if zero {
                                    run_spec(
                                        iv.skip(i as int + 1),
                                        state_of(*mem, *locator, *io),
                                        fuel as nat,
                                    )
                                } else {
                                    run_spec(
                                        bodyv + iv.skip(i as int),
                                        state_of(*mem, *locator, *io),
                                        fuel as nat,
                                    )
                                }),
                            decreases fuel,
                        {
                            let ghost at_body = state_of(*mem, *locator, *io);
                            proof {
                                lemma_run_spec_append(
                                    bodyv,
                                    iv.skip(i as int),
                                    at_body,
                                    fuel as nat,
                                );
                                lemma_run_spec_fuel(bodyv, at_body, fuel as nat);
                            }
                            match run(body, mem, locator, io, fuel) {
                                Ok(f) => {
                                    fuel = f;
                                },
                                Err(e) => {
                                    return Err(e);
                                },
                            }
                            let ghost after_body = state_of(*mem, *locator, *io);
                            if fuel == 0 {
                                return Err(RunError::OutOfSteps);
                            }
                            fuel = fuel - 1;
                            zero = mem.all_cells_zero();
                            proof {
                                assert(iv.skip(i as int)[0] == SpecInstr::Loop(bodyv));
                                if !zero {
                                    lemma_run_spec_append(
                                        bodyv,
                                        iv.skip(i as int),
                                        after_body,
                                        fuel as nat,
                                    );
                                }
                            }
                        }
                    },
                    _ => {
                        // The movement instructions are all handled above.
                        proof {
                            assert(false);
                        }
                    },
                }
            },
        }
        i = i + 1;
    }
    Ok(fuel)
}

} // verus!
