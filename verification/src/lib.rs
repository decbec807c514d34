mod defs;
mod lexer;
mod table;
pub mod jit;
pub mod machine;

pub use defs::Queue;
pub use defs::ReturnStack;
pub use defs::Stack;
pub use defs::TheQueue;
pub use defs::TheStack;
pub use defs::Token;
pub use lexer::spec_token_of_ok;
pub use lexer::token_of_lexeme;
pub use lexer::ws_split_of;
pub use machine::EvalError;
pub use machine::EvalOutcome;

use crate::jit::DefsMap;
use crate::machine::CallFrame;
use crate::machine::Config;
use crate::table::NameTable;
use vstd::prelude::*;

verus! {

/// The body a call frame runs: the contents of its cell at entry.
pub open spec fn frame_body(cells: Seq<Option<Seq<jit::Instr>>>, c: usize) -> Seq<jit::Instr> {
    if c < cells.len() && cells[c as int] is Some {
        cells[c as int].unwrap()
    } else {
        Seq::empty()
    }
}

/// The interpreted definition table as a map from names to bodies.
pub open spec fn defs_view(m: Map<Seq<char>, Queue<Token>>) -> Map<Seq<char>, Seq<Token>> {
    Map::new(|k: Seq<char>| m.contains_key(k), |k: Seq<char>| m[k]@)
}

/// One program instance: the value stack, the current queue and the return
/// stack, the two definition tables, the output so far, and the frames of
/// compiled code in flight.
pub struct State {
    defs: NameTable<Queue<Token>>,
    jitted: DefsMap,
    return_stack: ReturnStack,
    stack: TheStack,
    pub queue: TheQueue,
    printed: Vec<i32>,
    frames: Vec<(usize, usize)>,
}

impl View for State {
    type V = Config;

    closed spec fn view(&self) -> Config {
        Config {
            stack: self.stack@,
            rstack: self.return_stack@.map_values(|q: TheQueue| q@),
            queue: self.queue@,
            defs: defs_view(self.defs@),
            jnames: self.jitted.jnames(),
            jcells: self.jitted.jcells(),
            frames: self.frames@.map_values(
                |p: (usize, usize)| CallFrame {
                    body: frame_body(self.jitted.jcells(), p.0),
                    pc: p.1 as int,
                },
            ),
            printed: self.printed@,
        }
    }
}

impl State {
    pub closed spec fn wf(&self) -> bool {
        &&& self.queue.wf()
        &&& forall|i: int|
            0 <= i < self.return_stack@.len() ==> (#[trigger] self.return_stack@[i]).wf()
        &&& (self.return_stack@.len() > 0 ==> self.return_stack@[0] is Real)
        &&& (self.return_stack@.len() == 0 ==> self.queue is Real)
        &&& self.defs.wf()
        &&& self.jitted.wf()
        &&& forall|i: int|
            0 <= i < self.frames@.len() ==> {
                let p = #[trigger] self.frames@[i];
                &&& p.0 < self.jitted.jcells().len()
                &&& self.jitted.jcells()[p.0 as int] is Some
                &&& p.1 <= self.jitted.jcells()[p.0 as int].unwrap().len()
            }
    }

    pub closed spec fn queue_is_real(&self) -> bool {
        self.queue is Real
    }

    pub fn new() -> (r: Self)
        ensures
            r.wf(),
            r.queue_is_real(),
            r@.stack == Seq::<i32>::empty(),
            r@.rstack == Seq::<Seq<Token>>::empty(),
            r@.queue == Seq::<Token>::empty(),
            r@.defs == Map::<Seq<char>, Seq<Token>>::empty(),
            r@.jnames == Map::<Seq<char>, usize>::empty(),
            r@.jcells == Seq::<Option<Seq<jit::Instr>>>::empty(),
            r@.frames == Seq::<CallFrame>::empty(),
            r@.printed == Seq::<i32>::empty(),
    {
        let r = State {
            defs: NameTable::new(),
            jitted: DefsMap::new(),
            return_stack: ReturnStack::new(),
            stack: TheStack::new(),
            queue: TheQueue::new(),
            printed: Vec::new(),
            frames: Vec::new(),
        };
        proof {
            assert(r@.rstack =~= Seq::<Seq<Token>>::empty());
            assert(r@.frames =~= Seq::<CallFrame>::empty());
            assert(r@.defs =~= Map::<Seq<char>, Seq<Token>>::empty());
        }
        r
    }

    fn is_end(&self) -> (r: bool)
        requires
            self.wf(),
        ensures
            r == (self@.queue.len() == 0 && self@.rstack.len() == 0),
    {
        self.queue.is_empty() && self.return_stack.is_empty()
    }

    /// Host callback of the emitted code: pop, or fail on an empty stack.
    pub fn must_pop(&mut self) -> (r: Result<i32, EvalError>)
        ensures
            old(self)@.stack.len() == 0 ==> r == Err::<i32, EvalError>(EvalError::StackUnderflow)
                && final(self)@ == old(self)@,
            old(self)@.stack.len() > 0 ==> r == Ok::<i32, EvalError>(old(self)@.stack.last())
                && final(self)@ == (Config { stack: old(self)@.stack.drop_last(), ..old(self)@ }),
            final(self).wf() == old(self).wf(),
            final(self).queue_is_real() == old(self).queue_is_real(),
    {
        match self.stack.pop() {
            Some(v) => Ok(v),
            None => Err(EvalError::StackUnderflow),
        }
    }

    /// Host callback of the emitted code: push a value.
    pub fn push(&mut self, value: i32)
        ensures
            final(self)@ == (Config { stack: old(self)@.stack.push(value), ..old(self)@ }),
            final(self).wf() == old(self).wf(),
            final(self).queue_is_real() == old(self).queue_is_real(),
    {
        self.stack.push(value);
    }

    /// Host callback of the emitted code: the value `n` positions below the
    /// top, counting from one.
    pub fn must_pick(&self, n: usize) -> (r: Result<i32, EvalError>)
        requires
            n >= 1,
        ensures
            n <= self@.stack.len() ==> r == Ok::<i32, EvalError>(
                self@.stack[self@.stack.len() - n],
            ),
            n > self@.stack.len() ==> r == Err::<i32, EvalError>(EvalError::IndexOutOfBounds),
    {
        match self.stack.pick(n - 1) {
            Some(v) => Ok(*v),
            None => Err(EvalError::IndexOutOfBounds),
        }
    }

    /// The number of values on the stack.
    pub fn stack_len(&self) -> (r: usize)
        ensures
            r == self@.stack.len(),
    {
        self.stack.len()
    }

    /// Hand out what `print` emitted so far, oldest first, and clear it.
    pub fn take_printed(&mut self) -> (r: Vec<i32>)
        ensures
            r@ == old(self)@.printed,
            final(self)@ == (Config { printed: Seq::<i32>::empty(), ..old(self)@ }),
            final(self).wf() == old(self).wf(),
            final(self).queue_is_real() == old(self).queue_is_real(),
    {
        let mut out: Vec<i32> = Vec::new();
        core::mem::swap(&mut out, &mut self.printed);
        out
    }

    /// Append the tokens of a source line to the tail of the queue.
    pub fn parse(&mut self, input: &str)
        requires
            old(self).wf(),
            old(self).queue_is_real(),
        ensures
            final(self).wf(),
            final(self).queue_is_real(),
            final(self)@.queue.len() == old(self)@.queue.len() + ws_split_of(input@).len(),
            forall|i: int|
                0 <= i < old(self)@.queue.len() ==> final(self)@.queue[i] == old(self)@.queue[i],
            forall|i: int|
                0 <= i < ws_split_of(input@).len() ==> spec_token_of_ok(
                    ws_split_of(input@)[i],
                    final(self)@.queue[old(self)@.queue.len() + i],
                ),
            final(self)@ == (Config { queue: final(self)@.queue, ..old(self)@ }),
    {
        let mut parsed = parse(input);
        let ghost n0 = old(self)@.queue.len() as int;
        let ghost pieces = ws_split_of(input@);
        let ghost start = parsed@;
        let ghost mut taken: int = 0;
        while !parsed.is_empty()
            invariant
                self.wf(),
                self.queue is Real,
                parsed.wf(),
                0 <= taken <= start.len(),
                parsed@ == start.skip(taken),
                start.len() == pieces.len(),
                forall|k: int| 0 <= k < start.len() ==> spec_token_of_ok(pieces[k], start[k]),
                self@.queue.len() == n0 + taken,
                n0 == old(self)@.queue.len(),
                forall|i: int| 0 <= i < n0 ==> self@.queue[i] == old(self)@.queue[i],
                forall|i: int| 0 <= i < taken ==> self@.queue[n0 + i] == start[i],
                self@ == (Config { queue: self@.queue, ..old(self)@ }),
            decreases start.len() - taken,
        {
            match parsed.pop() {
                Some(token) => {
                    self.queue.push(token);
                    proof {
                        assert(start.skip(taken).len() > 0);
                        assert(start.skip(taken + 1) =~= start.skip(taken).skip(1));
                        assert(start.skip(taken)[0] == start[taken]);
                        taken = taken + 1;
                    }
                },
                None => {
                    vstd::pervasive::unreached::<()>();
                },
            }
        }
        proof {
            assert(start.skip(taken).len() == 0);
            assert(taken == start.len());
            assert forall|i: int| 0 <= i < pieces.len() implies spec_token_of_ok(
                pieces[i],
                self@.queue[n0 + i],
            ) by {
                assert(self@.queue[n0 + i] == start[i]);
            }
        }
    }


    /// Run one plain operation on the value stack. Returns whether the
    /// operation was `quit`.
    fn step_plain(&mut self, t: &Token) -> (r: Result<bool, EvalError>)
        requires
            old(self).wf(),
            machine::is_plain_token(*t),
        ensures
            final(self).wf(),
            final(self)@.queue == old(self)@.queue,
            final(self)@.rstack == old(self)@.rstack,
            final(self)@.defs == old(self)@.defs,
            final(self)@.jnames == old(self)@.jnames,
            final(self)@.jcells == old(self)@.jcells,
            final(self)@.frames == old(self)@.frames,
            final(self).queue_is_real() == old(self).queue_is_real(),
            match machine::builtin_step(*t, old(self)@.stack, old(self)@.printed) {
                machine::BStepRes::BOk(s, p) => r == Ok::<bool, EvalError>(false)
                    && final(self)@.stack == s && final(self)@.printed == p,
                machine::BStepRes::BQuit => r == Ok::<bool, EvalError>(true)
                    && final(self)@.stack == old(self)@.stack && final(self)@.printed == old(
                    self,
                )@.printed,
                machine::BStepRes::BErr(e) => r == Err::<bool, EvalError>(e),
            },
    {
        match t {
            Token::Num(v) => {
                self.stack.push(*v);
                Ok(false)
            },
            Token::Add => {
                let a = match self.stack.pop() {
                    Some(v) => v,
                    None => { return Err(EvalError::StackUnderflow); },
                };
                let b = match self.stack.pop() {
                    Some(v) => v,
                    None => { return Err(EvalError::StackUnderflow); },
                };
                self.stack.push(a.wrapping_add(b));
                Ok(false)
            },
            Token::Sub => {
                let a = match self.stack.pop() {
                    Some(v) => v,
                    None => { return Err(EvalError::StackUnderflow); },
                };
                let b = match self.stack.pop() {
                    Some(v) => v,
                    None => { return Err(EvalError::StackUnderflow); },
                };
                self.stack.push(b.wrapping_sub(a));
                Ok(false)
            },
            Token::Mul => {
                let a = match self.stack.pop() {
                    Some(v) => v,
                    None => { return Err(EvalError::StackUnderflow); },
                };
                let b = match self.stack.pop() {
                    Some(v) => v,
                    None => { return Err(EvalError::StackUnderflow); },
                };
                self.stack.push(a.wrapping_mul(b));
                Ok(false)
            },
            Token::Div => {
                let a = match self.stack.pop() {
                    Some(v) => v,
                    None => { return Err(EvalError::StackUnderflow); },
                };
                let b = match self.stack.pop() {
                    Some(v) => v,
                    None => { return Err(EvalError::StackUnderflow); },
                };
                if a == 0 {
                    return Err(EvalError::DivisionByZero);
                }
                if a == -1 && b == i32::MIN {
                    return Err(EvalError::Overflow);
                }
                proof {
                    machine::lemma_checked_div_rem_some(b, a);
                }
                let q = match b.checked_div(a) {
                    Some(q) => q,
                    None => vstd::pervasive::unreached(),
                };
                self.stack.push(q);
                Ok(false)
            },
            Token::Mod => {
                let a = match self.stack.pop() {
                    Some(v) => v,
                    None => { return Err(EvalError::StackUnderflow); },
                };
                let b = match self.stack.pop() {
                    Some(v) => v,
                    None => { return Err(EvalError::StackUnderflow); },
                };
                if a == 0 {
                    return Err(EvalError::DivisionByZero);
                }
                if a == -1 && b == i32::MIN {
                    return Err(EvalError::Overflow);
                }
                proof {
                    machine::lemma_checked_div_rem_some(b, a);
                }
                let m = match b.checked_rem(a) {
                    Some(m) => m,
                    None => vstd::pervasive::unreached(),
                };
                self.stack.push(m);
                Ok(false)
            },
            Token::Pow => {
                let a = match self.stack.pop() {
                    Some(v) => v,
                    None => { return Err(EvalError::StackUnderflow); },
                };
                let b = match self.stack.pop() {
                    Some(v) => v,
                    None => { return Err(EvalError::StackUnderflow); },
                };
                if a < 0 {
                    return Err(EvalError::NegativeExponent);
                }
                let e: u32 = a as u32;
                let mut acc: i32 = 1;
                let mut k: u32 = 0;
                while k < e
                    invariant
                        k <= e,
                        acc == machine::pow_wrap(b, k as nat),
                    decreases e - k,
                {
                    acc = acc.wrapping_mul(b);
                    k = k + 1;
                }
                self.stack.push(acc);
                Ok(false)
            },
            Token::Less => {
                let a = match self.stack.pop() {
                    Some(v) => v,
                    None => { return Err(EvalError::StackUnderflow); },
                };
                let b = match self.stack.pop() {
                    Some(v) => v,
                    None => { return Err(EvalError::StackUnderflow); },
                };
                self.stack.push(if b < a { 1 } else { 0 });
                Ok(false)
            },
            Token::Swap => {
                let a = match self.stack.pop() {
                    Some(v) => v,
                    None => { return Err(EvalError::StackUnderflow); },
                };
                let b = match self.stack.pop() {
                    Some(v) => v,
                    None => { return Err(EvalError::StackUnderflow); },
                };
                self.stack.push(a);
                self.stack.push(b);
                Ok(false)
            },
            Token::Rot => {
                let a = match self.stack.pop() {
                    Some(v) => v,
                    None => { return Err(EvalError::StackUnderflow); },
                };
                let b = match self.stack.pop() {
                    Some(v) => v,
                    None => { return Err(EvalError::StackUnderflow); },
                };
                let c = match self.stack.pop() {
                    Some(v) => v,
                    None => { return Err(EvalError::StackUnderflow); },
                };
                self.stack.push(b);
                self.stack.push(a);
                self.stack.push(c);
                Ok(false)
            },
            Token::Pick => {
                let n = match self.stack.pop() {
                    Some(v) => v,
                    None => { return Err(EvalError::StackUnderflow); },
                };
                if n <= 0 {
                    return Err(EvalError::InvalidIndex);
                }
                let n_us = n as usize;
                let val = match self.stack.pick(n_us - 1) {
                    Some(v) => *v,
                    None => { return Err(EvalError::IndexOutOfBounds); },
                };
                self.stack.push(val);
                Ok(false)
            },
            Token::Print => {
                let v = match self.stack.pop() {
                    Some(v) => v,
                    None => { return Err(EvalError::StackUnderflow); },
                };
                self.printed.push(v);
                Ok(false)
            },
            Token::Drop => {
                match self.stack.pop() {
                    Some(_) => Ok(false),
                    None => Err(EvalError::StackUnderflow),
                }
            },
            Token::Quit => Ok(true),
            _ => vstd::pervasive::unreached(),
        }
    }

    /// Reinstall the queue saved by the innermost active call.
    fn after_return(&mut self)
        requires
            old(self).wf(),
            old(self)@.rstack.len() > 0,
        ensures
            final(self).wf(),
            final(self)@ == (Config {
                queue: old(self)@.rstack.last(),
                rstack: old(self)@.rstack.drop_last(),
                ..old(self)@
            }),
    {
        match self.return_stack.pop() {
            Some(q) => {
                self.queue = q;
                proof {
                    assert(self@.rstack =~= old(self)@.rstack.drop_last());
                    assert(old(self)@.rstack.last() == old(self).return_stack@.last()@);
                }
            },
            None => vstd::pervasive::unreached(),
        }
    }
}

impl Default for State {
    fn default() -> (r: Self)
        ensures
            r.wf(),
            r.queue_is_real(),
    {
        Self::new()
    }
}

/// Split a source line into lexemes and map each to its token.
pub fn parse(input: &str) -> (q: TheQueue)
    ensures
        q.wf(),
        q is Real,
        q@.len() == ws_split_of(input@).len(),
        forall|i: int|
            0 <= i < ws_split_of(input@).len() ==> spec_token_of_ok(ws_split_of(input@)[i], q@[i]),
{
    let mut queue = TheQueue::new();
    let pieces = lexer::split_ws(input);
    let ghost piecesv = ws_split_of(input@);
    let n = pieces.len();
    let mut i: usize = 0;
    while i < n
        invariant
            queue.wf(),
            queue is Real,
            n == pieces@.len(),
            pieces@.map_values(|p: String| p@) == piecesv,
            i <= n,
            queue@.len() == i,
            forall|k: int| 0 <= k < i ==> spec_token_of_ok(piecesv[k], queue@[k]),
        decreases n - i,
    {
        proof {
            assert(pieces@.map_values(|p: String| p@)[i as int] == pieces@[i as int]@);
        }
        let t = token_of_lexeme(pieces[i].clone());
        queue.push(t);
        i = i + 1;
    }
    proof {
        assert(piecesv.len() == pieces@.map_values(|p: String| p@).len());
    }
    queue
}


/// The token whose plain effect a compiled instruction shares.
fn token_of_plain_instr(ins: &jit::Instr) -> (t: Token)
    requires
        machine::is_plain_instr(*ins),
    ensures
        t == machine::token_of_instr(*ins),
        machine::is_plain_token(t),
{
    match ins {
        jit::Instr::Push(v) => Token::Num(*v),
        jit::Instr::Add => Token::Add,
        jit::Instr::Sub => Token::Sub,
        jit::Instr::Mul => Token::Mul,
        jit::Instr::Div => Token::Div,
        jit::Instr::Mod => Token::Mod,
        jit::Instr::Pow => Token::Pow,
        jit::Instr::Less => Token::Less,
        jit::Instr::Print => Token::Print,
        jit::Instr::Quit => Token::Quit,
        jit::Instr::Swap => Token::Swap,
        jit::Instr::Rot => Token::Rot,
        jit::Instr::Pick => Token::Pick,
        jit::Instr::Drop => Token::Drop,
        _ => vstd::pervasive::unreached(),
    }
}

/// Run the machine until the program ends, `quit` is reached, a fatal error
/// occurs, or the step budget `fuel` is spent. In JIT mode a definition is
/// compiled into the cell table and a call runs the compiled body through
/// its cell; otherwise definitions are stored and run through the return
/// stack. The result and the final state are exactly those of `machine::run`
/// on the starting state; after a fatal error only the outcome is specified,
/// since every error is terminal and the state is abandoned.
#[verifier::loop_isolation(false)]
#[verifier::rlimit(60)]
pub fn eval(state: &mut State, jit: bool, fuel: u64) -> (r: EvalOutcome)
    requires
        old(state).wf(),
    ensures
        ({
            let rr = machine::run(old(state)@, jit, fuel as nat);
            &&& r == rr.outcome
            &&& !(r is Failed) ==> final(state)@ == rr.cfg && final(state).wf()
            &&& r is Finished ==> final(state).queue_is_real()
        }),
{
    let ghost c0 = state@;
    let mut rem: u64 = fuel;
    loop
        invariant
            state.wf(),
            rem <= fuel,
            c0 == old(state)@,
            machine::run(c0, jit, fuel as nat) == machine::run(state@, jit, rem as nat),
        decreases rem,
    {
        let frames_n = state.frames.len();
        if frames_n == 0 && state.is_end() {
            proof {
                assert(machine::is_done(state@));
            }
            return EvalOutcome::Finished;
        }
        proof {
            assert(!machine::is_done(state@));
        }
        if rem == 0 {
            return EvalOutcome::OutOfFuel;
        }
        let ghost pre = state@;
        let ghost fuel_pre = rem as nat;
        rem = rem - 1;
        if frames_n > 0 {
            let cellpc = state.frames[frames_n - 1];
            let cell = cellpc.0;
            let pc = cellpc.1;
            proof {
                assert(pre.frames.last() == CallFrame {
                    body: frame_body(pre.jcells, cell),
                    pc: pc as int,
                });
            }
            let blen = state.jitted.cell_len(cell);
            if pc >= blen {
                state.frames.pop();
                proof {
                    let expected = Config { frames: pre.frames.drop_last(), ..pre };
                    assert(state@.frames =~= expected.frames);
                    assert(state@ =~~= expected);
                    assert(machine::step(pre, jit) == machine::StepRes::Next(state@));
                    machine::lemma_run_next(pre, state@, jit, fuel_pre);
                }
            } else {
                let ins = state.jitted.cell_instr(cell, pc);
                match ins {
                    jit::Instr::If => {
                        let cond = match state.stack.pop() {
                            Some(c) => c,
                            None => {
                                proof {
                                    machine::lemma_run_stop2(pre, jit, fuel_pre);
                                }
                                return EvalOutcome::Failed(EvalError::StackUnderflow);
                            },
                        };
                        if cond == 0 {
                            if blen - pc < 4 {
                                proof {
                                    machine::lemma_run_stop2(pre, jit, fuel_pre);
                                }
                                return EvalOutcome::Failed(EvalError::QueueUnderflow);
                            }
                            state.frames.set(frames_n - 1, (cell, pc + 4));
                            proof {
                                let expected = Config {
                                    stack: pre.stack.drop_last(),
                                    frames: machine::with_top_pc(pre.frames, pc + 4),
                                    ..pre
                                };
                                assert(state@.frames =~= expected.frames);
                                assert(state@ =~~= expected);
                                assert(machine::step(pre, jit) == machine::StepRes::Next(state@));
                                machine::lemma_run_next(pre, state@, jit, fuel_pre);
                            }
                        } else {
                            state.frames.set(frames_n - 1, (cell, pc + 1));
                            proof {
                                let expected = Config {
                                    stack: pre.stack.drop_last(),
                                    frames: machine::with_top_pc(pre.frames, pc + 1),
                                    ..pre
                                };
                                assert(state@.frames =~= expected.frames);
                                assert(state@ =~~= expected);
                                assert(machine::step(pre, jit) == machine::StepRes::Next(state@));
                                machine::lemma_run_next(pre, state@, jit, fuel_pre);
                            }
                        }
                    },
                    jit::Instr::Skip => {
                        let n = match state.stack.pop() {
                            Some(v) => v,
                            None => {
                                proof {
                                    machine::lemma_run_stop2(pre, jit, fuel_pre);
                                }
                                return EvalOutcome::Failed(EvalError::StackUnderflow);
                            },
                        };
                        if n < 0 {
                            proof {
                                machine::lemma_run_stop2(pre, jit, fuel_pre);
                            }
                            return EvalOutcome::Failed(EvalError::NegativeSkip);
                        }
                        let n_us = n as usize;
                        if n_us > blen - (pc + 1) {
                            proof {
                                machine::lemma_run_stop2(pre, jit, fuel_pre);
                            }
                            return EvalOutcome::Failed(EvalError::QueueUnderflow);
                        }
                        state.frames.set(frames_n - 1, (cell, pc + 1 + n_us));
                        proof {
                            let expected = Config {
                                stack: pre.stack.drop_last(),
                                frames: machine::with_top_pc(pre.frames, pc + 1 + n_us),
                                ..pre
                            };
                            assert(state@.frames =~= expected.frames);
                            assert(state@ =~~= expected);
                            assert(machine::step(pre, jit) == machine::StepRes::Next(state@));
                            machine::lemma_run_next(pre, state@, jit, fuel_pre);
                        }
                    },
                    jit::Instr::Call(cell2, name) => {
                        proof {
                            state.jitted.wf_facts();
                        }
                        let filled = if cell2 < state.jitted.cells_len() {
                            state.jitted.cell_is_filled(cell2)
                        } else {
                            false
                        };
                        if filled {
                            state.frames.set(frames_n - 1, (cell, pc + 1));
                            state.frames.push((cell2, 0));
                            proof {
                                let expected = Config {
                                    frames: machine::with_top_pc(pre.frames, pc + 1).push(
                                        CallFrame { body: pre.jcells[cell2 as int].unwrap(), pc: 0 },
                                    ),
                                    ..pre
                                };
                                assert(state@.frames =~= expected.frames);
                                assert(state@ =~~= expected);
                                assert(machine::step(pre, jit) == machine::StepRes::Next(state@));
                                machine::lemma_run_next(pre, state@, jit, fuel_pre);
                            }
                        } else {
                            proof {
                                machine::lemma_run_stop2(pre, jit, fuel_pre);
                            }
                            return EvalOutcome::Failed(EvalError::NotCompiled(name));
                        }
                    },
                    jit::Instr::Quit => {
                        proof {
                            machine::lemma_run_stop2(pre, jit, fuel_pre);
                        }
                        return EvalOutcome::Quit;
                    },
                    _ => {
                        let tok = token_of_plain_instr(&ins);
                        match state.step_plain(&tok) {
                            Ok(false) => {
                                state.frames.set(frames_n - 1, (cell, pc + 1));
                                proof {
                                    let bs = machine::builtin_step(tok, pre.stack, pre.printed);
                                    let expected = Config {
                                        stack: bs->BOk_0,
                                        printed: bs->BOk_1,
                                        frames: machine::with_top_pc(pre.frames, pc + 1),
                                        ..pre
                                    };
                                    assert(state@.frames =~= expected.frames);
                                    assert(state@ =~~= expected);
                                    assert(machine::step(pre, jit) == machine::StepRes::Next(state@));
                                    machine::lemma_run_next(pre, state@, jit, fuel_pre);
                                }
                            },
                            Ok(true) => {
                                proof {
                                    machine::lemma_run_stop2(pre, jit, fuel_pre);
                                }
                                return EvalOutcome::Quit;
                            },
                            Err(e) => {
                                proof {
                                    machine::lemma_run_stop2(pre, jit, fuel_pre);
                                }
                                return EvalOutcome::Failed(e);
                            },
                        }
                    },
                }
            }
        } else if state.queue.is_empty() {
            state.after_return();
            proof {
                let expected = Config {
                    queue: pre.rstack.last(),
                    rstack: pre.rstack.drop_last(),
                    ..pre
                };
                assert(state@ =~~= expected);
                assert(machine::step(pre, jit) == machine::StepRes::Next(state@));
                machine::lemma_run_next(pre, state@, jit, fuel_pre);
            }
        } else {
            let t = match state.queue.pop() {
                Some(t) => t,
                None => vstd::pervasive::unreached(),
            };
            let ghost c1 = Config { queue: pre.queue.skip(1), ..pre };
            proof {
                assert(state@ =~~= c1);
                assert(t == pre.queue[0]);
            }
            match t {
                Token::If => {
                    let cond = match state.stack.pop() {
                        Some(c) => c,
                        None => {
                            proof {
                                machine::lemma_run_stop2(pre, jit, fuel_pre);
                            }
                            return EvalOutcome::Failed(EvalError::StackUnderflow);
                        },
                    };
                    if cond == 0 {
                        let ghost q1 = c1.queue;
                        let mut dropped: usize = 0;
                        while dropped < 3
                            invariant
                                state.wf(),
                                dropped <= 3,
                                dropped <= q1.len(),
                                state@.queue == q1.skip(dropped as int),
                                state@ == (Config {
                                    queue: state@.queue,
                                    stack: c1.stack.drop_last(),
                                    ..c1
                                }),
                                c1 == (Config { queue: pre.queue.skip(1), ..pre }),
                                pre.stack.len() > 0,
                                c1.stack.last() == 0,
                            decreases 3 - dropped,
                        {
                            match state.queue.pop() {
                                Some(_) => {
                                    proof {
                                        assert(q1.skip(dropped + 1) =~= q1.skip(
                                            dropped as int,
                                        ).skip(1));
                                    }
                                    dropped = dropped + 1;
                                },
                                None => {
                                    proof {
                                        assert(q1.len() == dropped < 3);
                                        machine::lemma_run_stop2(pre, jit, fuel_pre);
                                    }
                                    return EvalOutcome::Failed(EvalError::QueueUnderflow);
                                },
                            }
                        }
                        proof {
                            let expected = Config {
                                stack: c1.stack.drop_last(),
                                queue: c1.queue.skip(3),
                                ..c1
                            };
                            assert(state@ =~~= expected);
                            assert(machine::step(pre, jit) == machine::StepRes::Next(state@));
                            machine::lemma_run_next(pre, state@, jit, fuel_pre);
                        }
                    } else {
                        proof {
                            let expected = Config { stack: c1.stack.drop_last(), ..c1 };
                            assert(state@ =~~= expected);
                            assert(machine::step(pre, jit) == machine::StepRes::Next(state@));
                            machine::lemma_run_next(pre, state@, jit, fuel_pre);
                        }
                    }
                },
                Token::Skip => {
                    let n = match state.stack.pop() {
                        Some(v) => v,
                        None => {
                            proof {
                                machine::lemma_run_stop2(pre, jit, fuel_pre);
                            }
                            return EvalOutcome::Failed(EvalError::StackUnderflow);
                        },
                    };
                    if n < 0 {
                        proof {
                            machine::lemma_run_stop2(pre, jit, fuel_pre);
                        }
                        return EvalOutcome::Failed(EvalError::NegativeSkip);
                    }
                    let n_us = n as usize;
                    let ghost q1 = c1.queue;
                    let mut dropped: usize = 0;
                    while dropped < n_us
                        invariant
                            state.wf(),
                            dropped <= n_us,
                            dropped <= q1.len(),
                            n_us == n as usize,
                            n >= 0,
                            state@.queue == q1.skip(dropped as int),
                            state@ == (Config {
                                queue: state@.queue,
                                stack: c1.stack.drop_last(),
                                ..c1
                            }),
                            c1 == (Config { queue: pre.queue.skip(1), ..pre }),
                            pre.stack.len() > 0,
                            c1.stack.last() == n,
                        decreases n_us - dropped,
                    {
                        match state.queue.pop() {
                            Some(_) => {
                                proof {
                                    assert(q1.skip(dropped + 1) =~= q1.skip(dropped as int).skip(
                                        1,
                                    ));
                                }
                                dropped = dropped + 1;
                            },
                            None => {
                                proof {
                                    assert(q1.len() == dropped < n_us);
                                    machine::lemma_run_stop2(pre, jit, fuel_pre);
                                }
                                return EvalOutcome::Failed(EvalError::QueueUnderflow);
                            },
                        }
                    }
                    proof {
                        let expected = Config {
                            stack: c1.stack.drop_last(),
                            queue: c1.queue.skip(n as int),
                            ..c1
                        };
                        assert(state@ =~~= expected);
                        assert(machine::step(pre, jit) == machine::StepRes::Next(state@));
                        machine::lemma_run_next(pre, state@, jit, fuel_pre);
                    }
                },
                Token::DefBegin => {
                    let ghost q1 = c1.queue;
                    let mut def: Queue<Token> = Queue::new();
                    let ghost mut k: int = 0;
                    let ghost mut j: int = 0;
                    let mut closed: bool = false;
                    while !closed
                        invariant
                            state.wf(),
                            state@ == (Config { queue: state@.queue, ..c1 }),
                            c1 == (Config { queue: pre.queue.skip(1), ..pre }),
                            q1 == c1.queue,
                            pre.queue.len() > 0,
                            pre.queue[0] is DefBegin,
                            !closed ==> {
                                &&& 0 <= k <= q1.len()
                                &&& def@ == q1.take(k)
                                &&& (forall|i: int| 0 <= i < k ==> !(q1[i] is DefEnd))
                                &&& state@.queue == q1.skip(k)
                            },
                            closed ==> {
                                &&& 0 <= j < q1.len()
                                &&& q1[j] is DefEnd
                                &&& (forall|i: int| 0 <= i < j ==> !(q1[i] is DefEnd))
                                &&& def@ == q1.take(j)
                                &&& state@.queue == q1.skip(j + 1)
                            },
                        decreases q1.len() - k + 1,
                    {
                        match state.queue.pop() {
                            Some(tok) => {
                                proof {
                                    assert(q1.skip(k)[0] == q1[k]);
                                    assert(q1.skip(k + 1) =~= q1.skip(k).skip(1));
                                }
                                if matches!(tok, Token::DefEnd) {
                                    proof {
                                        j = k;
                                        k = k + 1;
                                    }
                                    closed = true;
                                } else {
                                    def.push(tok);
                                    proof {
                                        assert(q1.take(k + 1) =~= q1.take(k).push(q1[k]));
                                        k = k + 1;
                                    }
                                }
                            },
                            None => {
                                proof {
                                    assert(q1.skip(k).len() == 0);
                                    machine::lemma_find_def_end_none(q1);
                                    machine::lemma_run_stop2(pre, jit, fuel_pre);
                                }
                                return EvalOutcome::Failed(EvalError::QueueUnderflow);
                            },
                        }
                    }
                    proof {
                        machine::lemma_find_def_end_at(q1, j);
                    }
                    let ghost segment = q1.take(j);
                    if def.is_empty() {
                        proof {
                            machine::lemma_run_stop2(pre, jit, fuel_pre);
                        }
                        return EvalOutcome::Failed(EvalError::EmptyDefinition);
                    }
                    let head = match def.pop() {
                        Some(h) => h,
                        None => vstd::pervasive::unreached(),
                    };
                    proof {
                        assert(head == segment[0]);
                        assert(def@ =~= segment.skip(1));
                    }
                    match head {
                        Token::Custom(name) => {
                            let ghost namev = name@;
                            let ghost body = segment.skip(1);
                            if jit {
                                proof {
                                    state.jitted.wf_facts();
                                    jit::lemma_spec_compile_props(
                                        def@,
                                        state.jitted.jnames(),
                                        state.jitted.jcells(),
                                    );
                                }
                                let ghost cr = jit::spec_compile(body, pre.jnames, pre.jcells);
                                match jit::compile(def, &mut state.jitted) {
                                    Ok(code) => {
                                        state.jitted.fill(&name, code);
                                        proof {
                                            let filled = jit::spec_fill(
                                                cr.names,
                                                cr.cells,
                                                namev,
                                                cr.code,
                                            );
                                            let expected = Config {
                                                queue: q1.skip(j + 1),
                                                jnames: filled.0,
                                                jcells: filled.1,
                                                ..c1
                                            };
                                            assert(state@.frames =~= expected.frames);
                                            assert(state@ =~~= expected);
                                            assert(machine::step(pre, jit)
                                                == machine::StepRes::Next(state@));
                                            machine::lemma_run_next(pre, state@, jit, fuel_pre);
                                        }
                                    },
                                    Err(_) => {
                                        proof {
                                            machine::lemma_run_stop2(pre, jit, fuel_pre);
                                        }
                                        return EvalOutcome::Failed(EvalError::Compiler);
                                    },
                                }
                            } else {
                                state.defs.insert(name, def);
                                proof {
                                    let expected = Config {
                                        queue: q1.skip(j + 1),
                                        defs: c1.defs.insert(namev, body),
                                        ..c1
                                    };
                                    assert(state@.defs =~= expected.defs);
                                    assert(state@ =~~= expected);
                                    assert(machine::step(pre, jit) == machine::StepRes::Next(
                                        state@,
                                    ));
                                    machine::lemma_run_next(pre, state@, jit, fuel_pre);
                                }
                            }
                        },
                        _ => {
                            proof {
                                machine::lemma_run_stop2(pre, jit, fuel_pre);
                            }
                            return EvalOutcome::Failed(EvalError::InvalidDefinition);
                        },
                    }
                },
                Token::DefEnd => {
                    proof {
                        machine::lemma_run_stop2(pre, jit, fuel_pre);
                    }
                    return EvalOutcome::Failed(EvalError::UnexpectedDefEnd);
                },
                Token::Custom(name) => {
                    if state.defs.contains(&name) {
                        let taken = state.queue.take();
                        state.return_stack.push(taken);
                        let body_ref = match state.defs.get(&name) {
                            Some(b) => b,
                            None => vstd::pervasive::unreached(),
                        };
                        state.queue.become_iter(body_ref);
                        proof {
                            let expected = Config {
                                rstack: c1.rstack.push(c1.queue),
                                queue: c1.defs[name@],
                                ..c1
                            };
                            assert(state@.rstack =~= expected.rstack);
                            assert(state@ =~~= expected);
                            assert(machine::step(pre, jit) == machine::StepRes::Next(state@));
                            machine::lemma_run_next(pre, state@, jit, fuel_pre);
                        }
                    } else {
                        let jit_cell = if jit {
                            state.jitted.get_second(&name)
                        } else {
                            None
                        };
                        match jit_cell {
                            Some(cell) => {
                                proof {
                                    state.jitted.wf_facts();
                                }
                                if state.jitted.cell_is_filled(cell) {
                                    state.frames.push((cell, 0));
                                    proof {
                                        let expected = Config {
                                            frames: c1.frames.push(
                                                CallFrame {
                                                    body: c1.jcells[cell as int].unwrap(),
                                                    pc: 0,
                                                },
                                            ),
                                            ..c1
                                        };
                                        assert(state@.frames =~= expected.frames);
                                        assert(state@ =~~= expected);
                                        assert(machine::step(pre, jit) == machine::StepRes::Next(
                                            state@,
                                        ));
                                        machine::lemma_run_next(pre, state@, jit, fuel_pre);
                                    }
                                } else {
                                    proof {
                                        machine::lemma_run_stop2(pre, jit, fuel_pre);
                                    }
                                    return EvalOutcome::Failed(EvalError::NotCompiled(name));
                                }
                            },
                            None => {
                                proof {
                                    machine::lemma_run_stop2(pre, jit, fuel_pre);
                                }
                                return EvalOutcome::Failed(EvalError::UnknownDefinition(name));
                            },
                        }
                    }
                },
                _ => {
                    match state.step_plain(&t) {
                        Ok(false) => {
                            proof {
                                let bs = machine::builtin_step(t, c1.stack, c1.printed);
                                let expected = Config {
                                    stack: bs->BOk_0,
                                    printed: bs->BOk_1,
                                    ..c1
                                };
                                assert(state@ =~~= expected);
                                assert(machine::step(pre, jit) == machine::StepRes::Next(state@));
                                machine::lemma_run_next(pre, state@, jit, fuel_pre);
                            }
                        },
                        Ok(true) => {
                            proof {
                                machine::lemma_run_stop2(pre, jit, fuel_pre);
                            }
                            return EvalOutcome::Quit;
                        },
                        Err(e) => {
                            proof {
                                machine::lemma_run_stop2(pre, jit, fuel_pre);
                            }
                            return EvalOutcome::Failed(e);
                        },
                    }
                },
            }
        }
    }
}

} // verus!
