use vstd::prelude::*;

use crate::defs::Token;
use crate::jit::instr_of_builtin;
use crate::jit::spec_compile;
use crate::jit::spec_fill;
use crate::jit::Instr;

verus! {

/// The fatal runtime errors; each one ends evaluation.
#[derive(Debug, PartialEq)]
pub enum EvalError {
    StackUnderflow,
    QueueUnderflow,
    DivisionByZero,
    Overflow,
    NegativeExponent,
    InvalidIndex,
    IndexOutOfBounds,
    NegativeSkip,
    EmptyDefinition,
    InvalidDefinition,
    UnexpectedDefEnd,
    Compiler,
    UnknownDefinition(String),
    NotCompiled(String),
}

/// How a run ends: clean exhaustion of the program, an explicit `quit`, the
/// step budget running out, or a fatal error.
#[derive(Debug, PartialEq)]
pub enum EvalOutcome {
    Finished,
    Quit,
    OutOfFuel,
    Failed(EvalError),
}

/// One activation of compiled code: the body being run and the index of the
/// next instruction (the address table resolves indices to code positions).
#[verifier::ext_equal]
pub ghost struct CallFrame {
    pub body: Seq<Instr>,
    pub pc: int,
}

/// The abstract machine state: every part of the interpreter and of the JIT
/// runtime that execution can observe.
#[verifier::ext_equal]
pub ghost struct Config {
    pub stack: Seq<i32>,
    pub rstack: Seq<Seq<Token>>,
    pub queue: Seq<Token>,
    pub defs: Map<Seq<char>, Seq<Token>>,
    pub jnames: Map<Seq<char>, usize>,
    pub jcells: Seq<Option<Seq<Instr>>>,
    pub frames: Seq<CallFrame>,
    pub printed: Seq<i32>,
}

/// The result of one plain (value-stack only) operation.
#[verifier::ext_equal]
pub ghost enum BStepRes {
    BOk(Seq<i32>, Seq<i32>),
    BErr(EvalError),
    BQuit,
}

/// One step of the machine: the next configuration, or the end of the run.
#[verifier::ext_equal]
pub ghost enum StepRes {
    Next(Config),
    Stop(EvalOutcome, Config),
}

/// The end of a whole run: the outcome and the final configuration.
pub ghost struct RunRes {
    pub outcome: EvalOutcome,
    pub cfg: Config,
}

/// The tokens whose effect touches only the value stack and the output:
/// everything but control flow, definitions and user-word calls.
pub open spec fn is_plain_token(t: Token) -> bool {
    !(t is DefBegin || t is DefEnd || t is Custom || t is If || t is Skip)
}

/// Exponentiation with wrap-around on overflow.
pub open spec fn pow_wrap(b: i32, e: nat) -> i32
    decreases e,
{
    if e == 0 {
        1i32
    } else {
        vstd::wrapping::i32_specs::wrapping_mul(pow_wrap(b, (e - 1) as nat), b)
    }
}

/// The meaning of one plain operation. `a` names the first value popped (the
/// top), `b` the second; division and modulus truncate toward zero.
pub open spec fn builtin_step(t: Token, stack: Seq<i32>, printed: Seq<i32>) -> BStepRes {
    match t {
        Token::Num(v) => BStepRes::BOk(stack.push(v), printed),
        Token::Add => if stack.len() < 2 {
            BStepRes::BErr(EvalError::StackUnderflow)
        } else {
            let a = stack.last();
            let b = stack[stack.len() - 2];
            BStepRes::BOk(
                stack.drop_last().drop_last().push(vstd::wrapping::i32_specs::wrapping_add(a, b)),
                printed,
            )
        },
        Token::Sub => if stack.len() < 2 {
            BStepRes::BErr(EvalError::StackUnderflow)
        } else {
            let a = stack.last();
            let b = stack[stack.len() - 2];
            BStepRes::BOk(
                stack.drop_last().drop_last().push(vstd::wrapping::i32_specs::wrapping_sub(b, a)),
                printed,
            )
        },
        Token::Mul => if stack.len() < 2 {
            BStepRes::BErr(EvalError::StackUnderflow)
        } else {
            let a = stack.last();
            let b = stack[stack.len() - 2];
            BStepRes::BOk(
                stack.drop_last().drop_last().push(vstd::wrapping::i32_specs::wrapping_mul(a, b)),
                printed,
            )
        },
        Token::Div => if stack.len() < 2 {
            BStepRes::BErr(EvalError::StackUnderflow)
        } else {
            let a = stack.last();
            let b = stack[stack.len() - 2];
            if a == 0 {
                BStepRes::BErr(EvalError::DivisionByZero)
            } else if a == -1 && b == i32::MIN {
                BStepRes::BErr(EvalError::Overflow)
            } else {
                BStepRes::BOk(
                    stack.drop_last().drop_last().push(b.checked_div(a).unwrap()),
                    printed,
                )
            }
        },
        Token::Mod => if stack.len() < 2 {
            BStepRes::BErr(EvalError::StackUnderflow)
        } else {
            let a = stack.last();
            let b = stack[stack.len() - 2];
            if a == 0 {
                BStepRes::BErr(EvalError::DivisionByZero)
            } else if a == -1 && b == i32::MIN {
                BStepRes::BErr(EvalError::Overflow)
            } else {
                BStepRes::BOk(
                    stack.drop_last().drop_last().push(b.checked_rem(a).unwrap()),
                    printed,
                )
            }
        },
        Token::Pow => if stack.len() < 2 {
            BStepRes::BErr(EvalError::StackUnderflow)
        } else {
            let a = stack.last();
            let b = stack[stack.len() - 2];
            if a < 0 {
                BStepRes::BErr(EvalError::NegativeExponent)
            } else {
                BStepRes::BOk(stack.drop_last().drop_last().push(pow_wrap(b, a as nat)), printed)
            }
        },
        Token::Less => if stack.len() < 2 {
            BStepRes::BErr(EvalError::StackUnderflow)
        } else {
            let a = stack.last();
            let b = stack[stack.len() - 2];
            BStepRes::BOk(
                stack.drop_last().drop_last().push(if b < a { 1i32 } else { 0i32 }),
                printed,
            )
        },
        Token::Swap => if stack.len() < 2 {
            BStepRes::BErr(EvalError::StackUnderflow)
        } else {
            let a = stack.last();
            let b = stack[stack.len() - 2];
            BStepRes::BOk(stack.drop_last().drop_last().push(a).push(b), printed)
        },
        Token::Rot => if stack.len() < 3 {
            BStepRes::BErr(EvalError::StackUnderflow)
        } else {
            let a = stack.last();
            let b = stack[stack.len() - 2];
            let c = stack[stack.len() - 3];
            BStepRes::BOk(
                stack.drop_last().drop_last().drop_last().push(b).push(a).push(c),
                printed,
            )
        },
        Token::Pick => if stack.len() < 1 {
            BStepRes::BErr(EvalError::StackUnderflow)
        } else {
            let n = stack.last();
            let rest = stack.drop_last();
            if n <= 0 {
                BStepRes::BErr(EvalError::InvalidIndex)
            } else if n > rest.len() {
                BStepRes::BErr(EvalError::IndexOutOfBounds)
            } else {
                BStepRes::BOk(rest.push(rest[rest.len() - n]), printed)
            }
        },
        Token::Print => if stack.len() < 1 {
            BStepRes::BErr(EvalError::StackUnderflow)
        } else {
            BStepRes::BOk(stack.drop_last(), printed.push(stack.last()))
        },
        Token::Drop => if stack.len() < 1 {
            BStepRes::BErr(EvalError::StackUnderflow)
        } else {
            BStepRes::BOk(stack.drop_last(), printed)
        },
        Token::Quit => BStepRes::BQuit,
        _ => arbitrary(),
    }
}

/// The token whose plain effect an instruction shares.
pub open spec fn token_of_instr(i: Instr) -> Token {
    match i {
        Instr::Push(v) => Token::Num(v),
        Instr::Add => Token::Add,
        Instr::Sub => Token::Sub,
        Instr::Mul => Token::Mul,
        Instr::Div => Token::Div,
        Instr::Mod => Token::Mod,
        Instr::Pow => Token::Pow,
        Instr::Less => Token::Less,
        Instr::Print => Token::Print,
        Instr::Quit => Token::Quit,
        Instr::Swap => Token::Swap,
        Instr::Rot => Token::Rot,
        Instr::Pick => Token::Pick,
        Instr::Drop => Token::Drop,
        _ => arbitrary(),
    }
}

pub open spec fn is_plain_instr(i: Instr) -> bool {
    !(i is If || i is Skip || i is Call)
}

/// The index of the first `;` in the queue, which closes the open definition.
pub open spec fn find_def_end(q: Seq<Token>) -> Option<int>
    decreases q.len(),
{
    if q.len() == 0 {
        None
    } else if q[0] is DefEnd {
        Some(0int)
    } else {
        match find_def_end(q.skip(1)) {
            Some(j) => Some(j + 1),
            None => None,
        }
    }
}

pub proof fn lemma_find_def_end_at(q: Seq<Token>, k: int)
    requires
        0 <= k < q.len(),
        q[k] is DefEnd,
        forall|i: int| 0 <= i < k ==> !(q[i] is DefEnd),
    ensures
        find_def_end(q) == Some(k),
    decreases k,
{
    if k > 0 {
        lemma_find_def_end_at(q.skip(1), k - 1);
    }
}

pub proof fn lemma_find_def_end_none(q: Seq<Token>)
    requires
        forall|i: int| 0 <= i < q.len() ==> !(q[i] is DefEnd),
    ensures
        find_def_end(q) is None,
    decreases q.len(),
{
    if q.len() > 0 {
        lemma_find_def_end_none(q.skip(1));
    }
}

/// The current frame with its program counter advanced to `pc`.
pub open spec fn with_top_pc(frames: Seq<CallFrame>, pc: int) -> Seq<CallFrame> {
    frames.update(frames.len() - 1, CallFrame { body: frames.last().body, pc })
}

/// One step of compiled code: the instruction under the top frame's counter.
pub open spec fn step_frame(c: Config) -> StepRes {
    let f = c.frames.last();
    if f.pc >= f.body.len() {
        StepRes::Next(Config { frames: c.frames.drop_last(), ..c })
    } else {
        match f.body[f.pc] {
            Instr::If => if c.stack.len() == 0 {
                StepRes::Stop(EvalOutcome::Failed(EvalError::StackUnderflow), c)
            } else {
                let cond = c.stack.last();
                let c1 = Config { stack: c.stack.drop_last(), ..c };
                if cond == 0 {
                    if f.pc + 4 > f.body.len() {
                        StepRes::Stop(EvalOutcome::Failed(EvalError::QueueUnderflow), c1)
                    } else {
                        StepRes::Next(Config { frames: with_top_pc(c.frames, f.pc + 4), ..c1 })
                    }
                } else {
                    StepRes::Next(Config { frames: with_top_pc(c.frames, f.pc + 1), ..c1 })
                }
            },
            Instr::Skip => if c.stack.len() == 0 {
                StepRes::Stop(EvalOutcome::Failed(EvalError::StackUnderflow), c)
            } else {
                let n = c.stack.last();
                let c1 = Config { stack: c.stack.drop_last(), ..c };
                if n < 0 {
                    StepRes::Stop(EvalOutcome::Failed(EvalError::NegativeSkip), c1)
                } else if f.pc + 1 + n > f.body.len() {
                    StepRes::Stop(EvalOutcome::Failed(EvalError::QueueUnderflow), c1)
                } else {
                    StepRes::Next(Config { frames: with_top_pc(c.frames, f.pc + 1 + n), ..c1 })
                }
            },
            Instr::Call(cell, name) => if cell < c.jcells.len() && c.jcells[cell as int] is Some {
                StepRes::Next(
                    Config {
                        frames: with_top_pc(c.frames, f.pc + 1).push(
                            CallFrame { body: c.jcells[cell as int].unwrap(), pc: 0 },
                        ),
                        ..c
                    },
                )
            } else {
                StepRes::Stop(EvalOutcome::Failed(EvalError::NotCompiled(name)), c)
            },
            ins => match builtin_step(token_of_instr(ins), c.stack, c.printed) {
                BStepRes::BOk(s, p) => StepRes::Next(
                    Config {
                        stack: s,
                        printed: p,
                        frames: with_top_pc(c.frames, f.pc + 1),
                        ..c
                    },
                ),
                BStepRes::BQuit => StepRes::Stop(EvalOutcome::Quit, c),
                BStepRes::BErr(e) => StepRes::Stop(EvalOutcome::Failed(e), c),
            },
        }
    }
}

/// One step on a token at the head of the queue. `c` is the configuration
/// with the token already removed.
pub open spec fn step_token(t: Token, c: Config, jit: bool) -> StepRes {
    if is_plain_token(t) {
        match builtin_step(t, c.stack, c.printed) {
            BStepRes::BOk(s, p) => StepRes::Next(Config { stack: s, printed: p, ..c }),
            BStepRes::BQuit => StepRes::Stop(EvalOutcome::Quit, c),
            BStepRes::BErr(e) => StepRes::Stop(EvalOutcome::Failed(e), c),
        }
    } else {
        match t {
            Token::If => if c.stack.len() == 0 {
                StepRes::Stop(EvalOutcome::Failed(EvalError::StackUnderflow), c)
            } else {
                let cond = c.stack.last();
                let c1 = Config { stack: c.stack.drop_last(), ..c };
                if cond == 0 {
                    if c1.queue.len() < 3 {
                        StepRes::Stop(EvalOutcome::Failed(EvalError::QueueUnderflow), c1)
                    } else {
                        StepRes::Next(Config { queue: c1.queue.skip(3), ..c1 })
                    }
                } else {
                    StepRes::Next(c1)
                }
            },
            Token::Skip => if c.stack.len() == 0 {
                StepRes::Stop(EvalOutcome::Failed(EvalError::StackUnderflow), c)
            } else {
                let n = c.stack.last();
                let c1 = Config { stack: c.stack.drop_last(), ..c };
                if n < 0 {
                    StepRes::Stop(EvalOutcome::Failed(EvalError::NegativeSkip), c1)
                } else if n > c1.queue.len() {
                    StepRes::Stop(EvalOutcome::Failed(EvalError::QueueUnderflow), c1)
                } else {
                    StepRes::Next(Config { queue: c1.queue.skip(n as int), ..c1 })
                }
            },
            Token::DefBegin => match find_def_end(c.queue) {
                None => StepRes::Stop(EvalOutcome::Failed(EvalError::QueueUnderflow), c),
                Some(j) => {
                    let segment = c.queue.take(j);
                    let rest = c.queue.skip(j + 1);
                    if segment.len() == 0 {
                        StepRes::Stop(
                            EvalOutcome::Failed(EvalError::EmptyDefinition),
                            Config { queue: rest, ..c },
                        )
                    } else {
                        match segment[0] {
                            Token::Custom(name) => {
                                let body = segment.skip(1);
                                if jit {
                                    let cr = spec_compile(body, c.jnames, c.jcells);
                                    if cr.ok {
                                        let filled = spec_fill(cr.names, cr.cells, name@, cr.code);
                                        StepRes::Next(
                                            Config {
                                                queue: rest,
                                                jnames: filled.0,
                                                jcells: filled.1,
                                                ..c
                                            },
                                        )
                                    } else {
                                        StepRes::Stop(
                                            EvalOutcome::Failed(EvalError::Compiler),
                                            Config {
                                                queue: rest,
                                                jnames: cr.names,
                                                jcells: cr.cells,
                                                ..c
                                            },
                                        )
                                    }
                                } else {
                                    StepRes::Next(
                                        Config {
                                            queue: rest,
                                            defs: c.defs.insert(name@, body),
                                            ..c
                                        },
                                    )
                                }
                            },
                            _ => StepRes::Stop(
                                EvalOutcome::Failed(EvalError::InvalidDefinition),
                                Config { queue: rest, ..c },
                            ),
                        }
                    }
                },
            },
            Token::DefEnd => StepRes::Stop(EvalOutcome::Failed(EvalError::UnexpectedDefEnd), c),
            Token::Custom(name) => if c.defs.contains_key(name@) {
                StepRes::Next(
                    Config { rstack: c.rstack.push(c.queue), queue: c.defs[name@], ..c },
                )
            } else if jit && c.jnames.contains_key(name@) {
                let cell = c.jnames[name@];
                if cell < c.jcells.len() && c.jcells[cell as int] is Some {
                    StepRes::Next(
                        Config {
                            frames: c.frames.push(
                                CallFrame { body: c.jcells[cell as int].unwrap(), pc: 0 },
                            ),
                            ..c
                        },
                    )
                } else {
                    StepRes::Stop(EvalOutcome::Failed(EvalError::NotCompiled(name)), c)
                }
            } else {
                StepRes::Stop(EvalOutcome::Failed(EvalError::UnknownDefinition(name)), c)
            },
            _ => arbitrary(),
        }
    }
}

/// Evaluation is finished when no compiled code is running and both the
/// current queue and the return stack are exhausted.
pub open spec fn is_done(c: Config) -> bool {
    c.frames.len() == 0 && c.queue.len() == 0 && c.rstack.len() == 0
}

/// One step of the whole machine: compiled code first, then reinstallment of
/// a saved queue, then the head token.
pub open spec fn step(c: Config, jit: bool) -> StepRes {
    if c.frames.len() > 0 {
        step_frame(c)
    } else if c.queue.len() == 0 {
        StepRes::Next(Config { queue: c.rstack.last(), rstack: c.rstack.drop_last(), ..c })
    } else {
        step_token(c.queue[0], Config { queue: c.queue.skip(1), ..c }, jit)
    }
}

/// A whole run with a step budget: steps until done, stopped, or out of fuel.
pub open spec fn run(c: Config, jit: bool, fuel: nat) -> RunRes
    decreases fuel,
{
    if is_done(c) {
        RunRes { outcome: EvalOutcome::Finished, cfg: c }
    } else if fuel == 0 {
        RunRes { outcome: EvalOutcome::OutOfFuel, cfg: c }
    } else {
        match step(c, jit) {
            StepRes::Next(c2) => run(c2, jit, (fuel - 1) as nat),
            StepRes::Stop(o, c2) => RunRes { outcome: o, cfg: c2 },
        }
    }
}


/// Unfold one successful step of a run.
pub proof fn lemma_run_next(c: Config, c2: Config, jit: bool, fuel: nat)
    requires
        !is_done(c),
        fuel > 0,
        step(c, jit) == StepRes::Next(c2),
    ensures
        run(c, jit, fuel) == run(c2, jit, (fuel - 1) as nat),
{
}

/// Unfold one stopping step of a run, naming its parts.
pub proof fn lemma_run_stop2(c: Config, jit: bool, fuel: nat)
    requires
        !is_done(c),
        fuel > 0,
        step(c, jit) is Stop,
    ensures
        run(c, jit, fuel).outcome == step(c, jit)->Stop_0,
        run(c, jit, fuel).cfg == step(c, jit)->Stop_1,
{
}

/// Truncating division and remainder are defined for every divisor other
/// than zero, except for the one pair whose quotient overflows.
pub proof fn lemma_checked_div_rem_some(b: i32, a: i32)
    requires
        a != 0,
        !(a == -1 && b == i32::MIN),
    ensures
        b.checked_div(a) is Some,
        b.checked_rem(a) is Some,
{
    let x = b as int;
    let d = a as int;
    if x == 0 {
    } else if x > 0 && d > 0 {
        vstd::arithmetic::div_mod::lemma_div_pos_is_pos(x, d);
        vstd::arithmetic::div_mod::lemma_div_nonincreasing(x, d);
        vstd::arithmetic::div_mod::lemma_mod_bound(x, d);
    } else if x < 0 && d < 0 {
        let xm = x * -1;
        let dm = d * -1;
        vstd::arithmetic::div_mod::lemma_div_pos_is_pos(xm, dm);
        vstd::arithmetic::div_mod::lemma_div_nonincreasing(xm, dm);
        vstd::arithmetic::div_mod::lemma_mod_bound(xm, dm);
        if xm == 0x8000_0000 {
            assert(dm >= 2);
            vstd::arithmetic::div_mod::lemma_div_is_ordered_by_denominator(xm, 2, dm);
            assert(0x8000_0000int / 2 == 0x4000_0000int);
        }
    } else if x < 0 {
        let xm = x * -1;
        vstd::arithmetic::div_mod::lemma_div_pos_is_pos(xm, d);
        vstd::arithmetic::div_mod::lemma_div_nonincreasing(xm, d);
        vstd::arithmetic::div_mod::lemma_mod_bound(xm, d);
    } else {
        let dm = d * -1;
        vstd::arithmetic::div_mod::lemma_div_pos_is_pos(x, dm);
        vstd::arithmetic::div_mod::lemma_div_nonincreasing(x, dm);
        vstd::arithmetic::div_mod::lemma_mod_bound(x, dm);
    }
}

/// Dividing and taking the remainder reconstruct the dividend: whenever the
/// quotient is defined, (b / a) * a + (b % a) equals b, and neither the
/// product nor the sum leaves the 32-bit range.
pub proof fn lemma_div_mod_reconstruct(b: i32, a: i32)
    requires
        a != 0,
        !(a == -1 && b == i32::MIN),
    ensures
        b.checked_div(a) is Some,
        b.checked_rem(a) is Some,
        b.checked_div(a).unwrap() * a + b.checked_rem(a).unwrap() == b,
        i32::MIN <= b.checked_div(a).unwrap() * a <= i32::MAX,
{
    lemma_checked_div_rem_some(b, a);
    let x = b as int;
    let d = a as int;
    let q = b.checked_div(a).unwrap() as int;
    let r = b.checked_rem(a).unwrap() as int;
    if x == 0 {
        assert(q * d == 0) by (nonlinear_arith)
            requires q == 0;
    } else if x > 0 && d > 0 {
        vstd::arithmetic::div_mod::lemma_fundamental_div_mod(x, d);
        vstd::arithmetic::div_mod::lemma_mod_bound(x, d);
        assert(q * d == x - r) by (nonlinear_arith)
            requires x == d * q + r;
    } else if x < 0 && d < 0 {
        let xm = x * -1;
        let dm = d * -1;
        vstd::arithmetic::div_mod::lemma_fundamental_div_mod(xm, dm);
        vstd::arithmetic::div_mod::lemma_mod_bound(xm, dm);
        assert(q * d == x - r) by (nonlinear_arith)
            requires q == xm / dm, r == (xm % dm) * -1, xm == dm * (xm / dm) + xm % dm, xm == x * -1, dm == d * -1;
    } else if x < 0 {
        let xm = x * -1;
        vstd::arithmetic::div_mod::lemma_fundamental_div_mod(xm, d);
        vstd::arithmetic::div_mod::lemma_mod_bound(xm, d);
        assert(q * d == x - r) by (nonlinear_arith)
            requires q == (xm / d) * -1, r == (xm % d) * -1, xm == d * (xm / d) + xm % d, xm == x * -1;
    } else {
        let dm = d * -1;
        vstd::arithmetic::div_mod::lemma_fundamental_div_mod(x, dm);
        vstd::arithmetic::div_mod::lemma_mod_bound(x, dm);
        assert(q * d == x - r) by (nonlinear_arith)
            requires q == (x / dm) * -1, r == x % dm, x == dm * (x / dm) + x % dm, dm == d * -1;
    }
}

/// Exchanging the top two values twice is the identity.
pub proof fn lemma_swap_swap(stack: Seq<i32>, printed: Seq<i32>)
    requires
        stack.len() >= 2,
    ensures
        ({
            let r1 = builtin_step(Token::Swap, stack, printed);
            &&& r1 is BOk
            &&& builtin_step(Token::Swap, r1->BOk_0, r1->BOk_1) == BStepRes::BOk(stack, printed)
        }),
{
    let r1 = builtin_step(Token::Swap, stack, printed);
    let s1 = r1->BOk_0;
    assert(s1.len() == stack.len());
    let r2 = builtin_step(Token::Swap, s1, printed);
    assert(r2->BOk_0 =~= stack);
}

/// `drop` removes exactly the top value.
pub proof fn lemma_drop_depth(stack: Seq<i32>, printed: Seq<i32>)
    requires
        stack.len() >= 1,
    ensures
        ({
            let r = builtin_step(Token::Drop, stack, printed);
            &&& r is BOk
            &&& r->BOk_0 == stack.drop_last()
            &&& r->BOk_0.len() == stack.len() - 1
            &&& r->BOk_1 == printed
        }),
{
}

/// `n pick` consumes the index and pushes the value that sat `n - 1` below
/// the rest's top, so the depth comes back to where it started.
pub proof fn lemma_pick_effect(stack: Seq<i32>, printed: Seq<i32>)
    requires
        stack.len() >= 1,
        1 <= stack.last() <= stack.len() - 1,
    ensures
        ({
            let n = stack.last();
            let rest = stack.drop_last();
            let r = builtin_step(Token::Pick, stack, printed);
            &&& r is BOk
            &&& r->BOk_0 == rest.push(rest[rest.len() - n])
            &&& r->BOk_0.len() == stack.len()
            &&& r->BOk_1 == printed
        }),
{
}

/// Translating a plain token to an instruction and reading the instruction
/// back names the same operation: the two execution modes give every plain
/// token one meaning.
pub proof fn lemma_plain_cross_mode(t: Token, stack: Seq<i32>, printed: Seq<i32>)
    requires
        is_plain_token(t),
    ensures
        token_of_instr(instr_of_builtin(t)) == t,
        builtin_step(token_of_instr(instr_of_builtin(t)), stack, printed) == builtin_step(
            t,
            stack,
            printed,
        ),
{
}


/// Iterate the machine through `n` consecutive non-stopping steps.
pub open spec fn stepn(c: Config, jit: bool, n: nat) -> Option<Config>
    decreases n,
{
    if n == 0 {
        Some(c)
    } else {
        match step(c, jit) {
            StepRes::Next(c2) => stepn(c2, jit, (n - 1) as nat),
            StepRes::Stop(_, _) => None,
        }
    }
}

/// Folding a straight line of plain operations over the stack and output.
pub open spec fn straight_run(ts: Seq<Token>, stack: Seq<i32>, printed: Seq<i32>) -> BStepRes
    decreases ts.len(),
{
    if ts.len() == 0 {
        BStepRes::BOk(stack, printed)
    } else {
        match builtin_step(ts[0], stack, printed) {
            BStepRes::BOk(s, p) => straight_run(ts.skip(1), s, p),
            other => other,
        }
    }
}

/// A straight line of plain tokens always compiles, touches no cell, and
/// translates one token to one instruction.
pub proof fn lemma_compile_plain(
    ts: Seq<Token>,
    names: Map<Seq<char>, usize>,
    cells: Seq<Option<Seq<Instr>>>,
)
    requires
        forall|i: int| 0 <= i < ts.len() ==> is_plain_token(#[trigger] ts[i]),
    ensures
        ({
            let cr = spec_compile(ts, names, cells);
            &&& cr.ok
            &&& cr.names == names
            &&& cr.cells == cells
            &&& cr.code.len() == ts.len()
            &&& forall|i: int|
                0 <= i < ts.len() ==> cr.code[i] == instr_of_builtin(#[trigger] ts[i])
        }),
    decreases ts.len(),
{
    if ts.len() > 0 {
        lemma_compile_plain(ts.drop_last(), names, cells);
        assert(forall|i: int| 0 <= i < ts.len() - 1 ==> ts.drop_last()[i] == ts[i]);
    }
}

/// Running a straight line of plain tokens from the head of the queue takes
/// one step per token and applies exactly the fold.
pub proof fn lemma_straight_interp(ts: Seq<Token>, c: Config, jit: bool)
    requires
        c.frames.len() == 0,
        ts.len() <= c.queue.len(),
        c.queue.take(ts.len() as int) == ts,
        forall|i: int| 0 <= i < ts.len() ==> is_plain_token(#[trigger] ts[i]),
        straight_run(ts, c.stack, c.printed) is BOk,
    ensures
        ({
            let r = straight_run(ts, c.stack, c.printed);
            stepn(c, jit, ts.len() as nat) == Some(
                Config {
                    queue: c.queue.skip(ts.len() as int),
                    stack: r->BOk_0,
                    printed: r->BOk_1,
                    ..c
                },
            )
        }),
    decreases ts.len(),
{
    if ts.len() == 0 {
        assert((Config { queue: c.queue.skip(0), stack: c.stack, printed: c.printed, ..c })
            =~~= c);
    } else {
        assert(ts[0] == c.queue[0]);
        let bs = builtin_step(ts[0], c.stack, c.printed);
        assert(bs is BOk);
        let c1 = Config {
            queue: c.queue.skip(1),
            stack: bs->BOk_0,
            printed: bs->BOk_1,
            ..c
        };
        assert(step(c, jit) == StepRes::Next(
            Config { stack: bs->BOk_0, printed: bs->BOk_1, ..(Config { queue: c.queue.skip(1), ..c }) },
        ));
        assert(step(c, jit) == StepRes::Next(c1));
        let ts1 = ts.skip(1);
        assert(c1.queue.take(ts1.len() as int) =~= ts1) by {
            assert forall|i: int| 0 <= i < ts1.len() implies c1.queue.take(ts1.len() as int)[i]
                == ts1[i] by {
                assert(c1.queue[i] == c.queue[i + 1]);
                assert(ts1[i] == ts[i + 1]);
                assert(c.queue.take(ts.len() as int)[i + 1] == c.queue[i + 1]);
            }
        }
        lemma_straight_interp(ts1, c1, jit);
        assert(c1.queue.skip(ts1.len() as int) =~= c.queue.skip(ts.len() as int));
        assert((Config {
            queue: c1.queue.skip(ts1.len() as int),
            stack: straight_run(ts1, c1.stack, c1.printed)->BOk_0,
            printed: straight_run(ts1, c1.stack, c1.printed)->BOk_1,
            ..c1
        }) =~~= (Config {
            queue: c.queue.skip(ts.len() as int),
            stack: straight_run(ts, c.stack, c.printed)->BOk_0,
            printed: straight_run(ts, c.stack, c.printed)->BOk_1,
            ..c
        }));
    }
}

/// Running the translation of a straight line of plain tokens inside a frame
/// takes one step per instruction and applies exactly the same fold.
pub proof fn lemma_straight_frame(ts: Seq<Token>, c: Config, pc: int, jit: bool)
    requires
        c.frames.len() >= 1,
        0 <= pc,
        pc + ts.len() <= c.frames.last().body.len(),
        c.frames.last().pc == pc,
        forall|i: int| 0 <= i < ts.len() ==> is_plain_token(#[trigger] ts[i]),
        forall|i: int|
            0 <= i < ts.len() ==> c.frames.last().body[pc + i] == instr_of_builtin(
                #[trigger] ts[i],
            ),
        straight_run(ts, c.stack, c.printed) is BOk,
    ensures
        ({
            let r = straight_run(ts, c.stack, c.printed);
            stepn(c, jit, ts.len() as nat) == Some(
                Config {
                    frames: with_top_pc(c.frames, pc + ts.len()),
                    stack: r->BOk_0,
                    printed: r->BOk_1,
                    ..c
                },
            )
        }),
    decreases ts.len(),
{
    let body = c.frames.last().body;
    if ts.len() == 0 {
        assert(with_top_pc(c.frames, pc) =~= c.frames);
        assert((Config { frames: with_top_pc(c.frames, pc), stack: c.stack, printed: c.printed, ..c })
            =~~= c);
    } else {
        let ins = body[pc];
        assert(ins == instr_of_builtin(ts[0]));
        lemma_plain_cross_mode(ts[0], c.stack, c.printed);
        let bs = builtin_step(ts[0], c.stack, c.printed);
        assert(bs is BOk);
        assert(!(ins is If || ins is Skip || ins is Call));
        let c1 = Config {
            frames: with_top_pc(c.frames, pc + 1),
            stack: bs->BOk_0,
            printed: bs->BOk_1,
            ..c
        };
        assert(step(c, jit) == StepRes::Next(c1));
        let ts1 = ts.skip(1);
        assert(c1.frames.last() == CallFrame { body, pc: pc + 1 });
        assert(forall|i: int|
            0 <= i < ts1.len() ==> c1.frames.last().body[pc + 1 + i] == instr_of_builtin(
                #[trigger] ts1[i],
            ));
        lemma_straight_frame(ts1, c1, pc + 1, jit);
        assert(with_top_pc(c1.frames, pc + 1 + ts1.len()) =~= with_top_pc(
            c.frames,
            pc + ts.len(),
        ));
        assert((Config {
            frames: with_top_pc(c1.frames, pc + 1 + ts1.len()),
            stack: straight_run(ts1, c1.stack, c1.printed)->BOk_0,
            printed: straight_run(ts1, c1.stack, c1.printed)->BOk_1,
            ..c1
        }) =~~= (Config {
            frames: with_top_pc(c.frames, pc + ts.len()),
            stack: straight_run(ts, c.stack, c.printed)->BOk_0,
            printed: straight_run(ts, c.stack, c.printed)->BOk_1,
            ..c
        }));
    }
}

/// Cross-mode agreement for straight-line code: take a body of plain
/// operations whose fold succeeds. The interpreter, consuming it from the
/// queue, and the compiled-code machine, running its translation in a single
/// frame and returning, reach the same value stack and the same output.
pub proof fn lemma_straight_cross_mode(
    ts: Seq<Token>,
    ci: Config,
    cj: Config,
    jit: bool,
)
    requires
        forall|i: int| 0 <= i < ts.len() ==> is_plain_token(#[trigger] ts[i]),
        straight_run(ts, ci.stack, ci.printed) is BOk,
        ci.frames.len() == 0,
        ci.queue == ts,
        cj.stack == ci.stack,
        cj.printed == ci.printed,
        cj.frames =~= seq![
            CallFrame { body: spec_compile(ts, cj.jnames, cj.jcells).code, pc: 0 },
        ],
    ensures
        ({
            let r = straight_run(ts, ci.stack, ci.printed);
            let fi = stepn(ci, jit, ts.len() as nat);
            let fj = stepn(cj, jit, (ts.len() + 1) as nat);
            &&& fi is Some
            &&& fj is Some
            &&& fi.unwrap().stack == r->BOk_0
            &&& fj.unwrap().stack == r->BOk_0
            &&& fi.unwrap().printed == r->BOk_1
            &&& fj.unwrap().printed == r->BOk_1
            &&& fj.unwrap().frames.len() == 0
        }),
{
    let r = straight_run(ts, ci.stack, ci.printed);
    assert(ci.queue.take(ts.len() as int) =~= ts);
    lemma_straight_interp(ts, ci, jit);
    lemma_compile_plain(ts, cj.jnames, cj.jcells);
    lemma_straight_frame(ts, cj, 0, jit);
    let cj1 = Config {
        frames: with_top_pc(cj.frames, ts.len() as int),
        stack: r->BOk_0,
        printed: r->BOk_1,
        ..cj
    };
    assert(stepn(cj, jit, ts.len() as nat) == Some(cj1));
    assert(cj1.frames.last().pc == ts.len());
    assert(step(cj1, jit) == StepRes::Next(Config { frames: cj1.frames.drop_last(), ..cj1 }));
    lemma_stepn_snoc(cj, jit, ts.len() as nat, cj1);
}

/// One more step after `n` steps.
proof fn lemma_stepn_snoc(c: Config, jit: bool, n: nat, cn: Config)
    requires
        stepn(c, jit, n) == Some(cn),
        step(cn, jit) is Next,
    ensures
        stepn(c, jit, n + 1) == Some(step(cn, jit)->Next_0),
    decreases n,
{
    if n == 0 {
        assert(cn == c);
        assert(stepn(c, jit, n + 1) == stepn(step(cn, jit)->Next_0, jit, n));
    } else {
        match step(c, jit) {
            StepRes::Next(c2) => {
                lemma_stepn_snoc(c2, jit, (n - 1) as nat, cn);
                assert(stepn(c, jit, n + 1) == stepn(c2, jit, ((n + 1) - 1) as nat));
                assert(((n + 1) - 1) as nat == (n - 1) as nat + 1);
            },
            StepRes::Stop(_, _) => {
                assert(false);
            },
        }
    }
}


/// A body of operations that compile to inline code: everything except
/// definitions and user-word calls.
pub open spec fn inline_body(body: Seq<Token>) -> bool {
    forall|k: int|
        0 <= k < body.len() ==> is_plain_token(#[trigger] body[k]) || body[k] is If || body[k]
            is Skip
}

/// The interpreter part way through a body behind a cursor, and the
/// compiled-code machine part way through its translation, in matching
/// positions with the same stack and output.
pub open spec fn body_configs_match(body: Seq<Token>, i: int, ci: Config, cj: Config) -> bool {
    &&& 0 <= i <= body.len()
    &&& ci.frames.len() == 0
    &&& ci.queue == body.skip(i)
    &&& cj.frames.len() >= 1
    &&& cj.frames.last().pc == i
    &&& cj.frames.last().body.len() == body.len()
    &&& (forall|k: int|
        0 <= k < body.len() ==> cj.frames.last().body[k] == instr_of_builtin(#[trigger] body[k]))
    &&& cj.stack == ci.stack
    &&& cj.printed == ci.printed
}

/// Step-for-step agreement of the two execution modes over a whole body,
/// control flow included: from matching positions, the interpreter reading
/// the body from its queue and the compiled code jumping through its address
/// table either move to matching positions again, with the same stack and
/// the same output, or stop with the same outcome.
pub proof fn lemma_inline_body_bisim(body: Seq<Token>, i: int, ci: Config, cj: Config, jit: bool)
    requires
        inline_body(body),
        body_configs_match(body, i, ci, cj),
        i < body.len(),
    ensures
        ({
            let si = step(ci, jit);
            let sj = step(cj, jit);
            ||| (si is Next && sj is Next && exists|i2: int|
                body_configs_match(body, i2, #[trigger] si->Next_0, sj->Next_0))
            ||| (si is Stop && sj is Stop && si->Stop_0 == sj->Stop_0)
        }),
{
    let t = body[i];
    assert(ci.queue[0] == t);
    assert(ci.queue.len() == body.len() - i);
    let f = cj.frames.last();
    let ins = f.body[i];
    assert(ins == instr_of_builtin(t));
    let c1 = Config { queue: ci.queue.skip(1), ..ci };
    assert(c1.queue =~= body.skip(i + 1));
    let si = step(ci, jit);
    let sj = step(cj, jit);
    if is_plain_token(t) {
        lemma_plain_cross_mode(t, ci.stack, ci.printed);
        assert(!(ins is If || ins is Skip || ins is Call));
        match builtin_step(t, ci.stack, ci.printed) {
            BStepRes::BOk(s, p) => {
                assert(si is Next && sj is Next);
                assert(sj->Next_0.frames.last() == CallFrame { body: f.body, pc: i + 1 });
                assert(body_configs_match(body, i + 1, si->Next_0, sj->Next_0));
            },
            BStepRes::BQuit => {},
            BStepRes::BErr(_) => {},
        }
    } else if t is If {
        if ci.stack.len() == 0 {
        } else {
            let cond = ci.stack.last();
            if cond == 0 {
                if i + 4 > body.len() {
                    assert(c1.queue.len() < 3);
                } else {
                    assert(c1.queue.len() >= 3);
                    assert(si is Next && sj is Next);
                    assert(si->Next_0.queue =~= body.skip(i + 4));
                    assert(sj->Next_0.frames.last() == CallFrame { body: f.body, pc: i + 4 });
                    assert(body_configs_match(body, i + 4, si->Next_0, sj->Next_0));
                }
            } else {
                assert(si is Next && sj is Next);
                assert(sj->Next_0.frames.last() == CallFrame { body: f.body, pc: i + 1 });
                assert(body_configs_match(body, i + 1, si->Next_0, sj->Next_0));
            }
        }
    } else {
        assert(t is Skip);
        if ci.stack.len() == 0 {
        } else {
            let n = ci.stack.last();
            if n < 0 {
            } else if n > c1.queue.len() {
                assert(i + 1 + n > body.len());
            } else {
                assert(i + 1 + n <= body.len());
                assert(si is Next && sj is Next);
                assert(si->Next_0.queue =~= body.skip(i + 1 + n));
                assert(sj->Next_0.frames.last() == CallFrame { body: f.body, pc: i + 1 + n });
                assert(body_configs_match(body, i + 1 + n, si->Next_0, sj->Next_0));
            }
        }
    }
}


/// Lockstep agreement over many steps: started from matching positions in a
/// body, the two modes either run `n` steps to matching positions, or both
/// stop on the same step, or both reach the body's end together first.
pub proof fn lemma_inline_body_bisim_many(
    body: Seq<Token>,
    i: int,
    ci: Config,
    cj: Config,
    jit: bool,
    n: nat,
)
    requires
        inline_body(body),
        body_configs_match(body, i, ci, cj),
    ensures
        ({
            let ri = stepn(ci, jit, n);
            let rj = stepn(cj, jit, n);
            ||| (ri is Some && rj is Some && exists|i2: int|
                body_configs_match(body, i2, #[trigger] ri.unwrap(), rj.unwrap()))
            ||| (ri is None && rj is None)
            ||| (exists|m: nat, i2: int|
                m < n && stepn(ci, jit, m) is Some && stepn(cj, jit, m) is Some
                    && #[trigger] body_configs_match(
                    body,
                    i2,
                    stepn(ci, jit, m).unwrap(),
                    stepn(cj, jit, m).unwrap(),
                ) && i2 == body.len())
        }),
    decreases n,
{
    if n == 0 {
        assert(body_configs_match(body, i, stepn(ci, jit, 0).unwrap(), stepn(cj, jit, 0).unwrap()));
    } else if i == body.len() {
        assert(stepn(ci, jit, 0) is Some && stepn(cj, jit, 0) is Some);
        assert(body_configs_match(
            body,
            i,
            stepn(ci, jit, 0).unwrap(),
            stepn(cj, jit, 0).unwrap(),
        ));
    } else {
        lemma_inline_body_bisim(body, i, ci, cj, jit);
        let si = step(ci, jit);
        let sj = step(cj, jit);
        if si is Next {
            let i2 = choose|i2: int| body_configs_match(body, i2, si->Next_0, sj->Next_0);
            lemma_inline_body_bisim_many(body, i2, si->Next_0, sj->Next_0, jit, (n - 1) as nat);
            let ci1 = si->Next_0;
            let cj1 = sj->Next_0;
            assert(stepn(ci, jit, n) == stepn(ci1, jit, (n - 1) as nat));
            assert(stepn(cj, jit, n) == stepn(cj1, jit, (n - 1) as nat));
            let ri1 = stepn(ci1, jit, (n - 1) as nat);
            let rj1 = stepn(cj1, jit, (n - 1) as nat);
            if ri1 is Some && rj1 is Some && exists|i3: int|
                body_configs_match(body, i3, #[trigger] ri1.unwrap(), rj1.unwrap()) {
            } else if ri1 is None && rj1 is None {
            } else {
                let (m, i3) = choose|m: nat, i3: int|
                    m < (n - 1) as nat && stepn(ci1, jit, m) is Some && stepn(
                        cj1,
                        jit,
                        m,
                    ) is Some && #[trigger] body_configs_match(
                        body,
                        i3,
                        stepn(ci1, jit, m).unwrap(),
                        stepn(cj1, jit, m).unwrap(),
                    ) && i3 == body.len();
                lemma_stepn_shift(ci, jit, m);
                lemma_stepn_shift(cj, jit, m);
                assert(stepn(ci, jit, m + 1) == stepn(ci1, jit, m));
                assert(stepn(cj, jit, m + 1) == stepn(cj1, jit, m));
                assert(m + 1 < n && stepn(ci, jit, (m + 1) as nat) is Some && stepn(
                    cj,
                    jit,
                    (m + 1) as nat,
                ) is Some && body_configs_match(
                    body,
                    i3,
                    stepn(ci, jit, (m + 1) as nat).unwrap(),
                    stepn(cj, jit, (m + 1) as nat).unwrap(),
                ) && i3 == body.len());
            }
        } else {
            assert(stepn(ci, jit, n) is None);
            assert(stepn(cj, jit, n) is None);
        }
    }
}

/// Stepping once and then `m` times is stepping `m + 1` times.
proof fn lemma_stepn_shift(c: Config, jit: bool, m: nat)
    requires
        step(c, jit) is Next,
    ensures
        stepn(c, jit, m + 1) == stepn(step(c, jit)->Next_0, jit, m),
{
    assert(stepn(c, jit, m + 1) == stepn(step(c, jit)->Next_0, jit, ((m + 1) - 1) as nat));
    assert(((m + 1) - 1) as nat == m);
}

} // verus!
