use clacjit::{eval, EvalError, EvalOutcome, State};

const FUEL: u64 = 1_000_000;

/// The stack from bottom to top.
fn stack_of(state: &State) -> Vec<i32> {
    let n = state.stack_len();
    let mut out = Vec::new();
    let mut i = n;
    while i >= 1 {
        out.push(state.must_pick(i).unwrap());
        i -= 1;
    }
    out
}

fn run_mode(input: &str, jit: bool) -> (EvalOutcome, State) {
    let mut state = State::new();
    state.parse(input);
    let outcome = eval(&mut state, jit, FUEL);
    (outcome, state)
}

fn run(input: &str) -> (EvalOutcome, State) {
    run_mode(input, false)
}

#[test]
fn add_two_numbers() {
    let (outcome, state) = run("3 4 +");
    assert_eq!(outcome, EvalOutcome::Finished);
    assert_eq!(stack_of(&state), vec![7]);
}

#[test]
fn sub_operand_order() {
    let (outcome, state) = run("10 3 -");
    assert_eq!(outcome, EvalOutcome::Finished);
    assert_eq!(stack_of(&state), vec![7]);
}

#[test]
fn pow_small() {
    let (outcome, state) = run("2 10 **");
    assert_eq!(outcome, EvalOutcome::Finished);
    assert_eq!(stack_of(&state), vec![1024]);
}

#[test]
fn rot_three() {
    let (outcome, state) = run("1 2 3 rot");
    assert_eq!(outcome, EvalOutcome::Finished);
    assert_eq!(stack_of(&state), vec![2, 3, 1]);
}

#[test]
fn square_definition() {
    for jit in [false, true] {
        let (outcome, state) = run_mode(": sq 1 pick * ; 5 sq", jit);
        assert_eq!(outcome, EvalOutcome::Finished);
        assert_eq!(stack_of(&state), vec![25]);
    }
}

#[test]
fn if_nonzero_falls_through() {
    let (outcome, mut state) = run("1 if 10 20 30 99 print");
    assert_eq!(outcome, EvalOutcome::Finished);
    assert_eq!(stack_of(&state), vec![10, 20, 30]);
    assert_eq!(state.take_printed(), vec![99]);
}

#[test]
fn if_zero_skips_three() {
    let (outcome, mut state) = run("0 if 10 20 30 99 print");
    assert_eq!(outcome, EvalOutcome::Finished);
    assert_eq!(stack_of(&state), Vec::<i32>::new());
    assert_eq!(state.take_printed(), vec![99]);
}

#[test]
fn recursive_countdown_quits() {
    for jit in [false, true] {
        let (outcome, _) = run_mode(": loop 1 pick 0 < if quit 0 0 1 - 1 pick 1 - loop ; 5 loop", jit);
        assert_eq!(outcome, EvalOutcome::Quit);
    }
}

#[test]
fn forward_reference_then_define() {
    for jit in [false, true] {
        let (outcome, state) = run_mode(": f g ; : g 7 ; f", jit);
        assert_eq!(outcome, EvalOutcome::Finished);
        assert_eq!(stack_of(&state), vec![7]);
    }
}

#[test]
fn undefined_callee_interpreted() {
    let (outcome, _) = run_mode(": f g ; f", false);
    assert_eq!(
        outcome,
        EvalOutcome::Failed(EvalError::UnknownDefinition("g".to_string()))
    );
}

#[test]
fn unfilled_callee_jit() {
    let (outcome, _) = run_mode(": f g ; f", true);
    assert_eq!(outcome, EvalOutcome::Failed(EvalError::NotCompiled("g".to_string())));
}

#[test]
fn redefinition_rebinds_callers() {
    for jit in [false, true] {
        let (outcome, state) = run_mode(": g 1 ; : f g ; : g 2 ; f", jit);
        assert_eq!(outcome, EvalOutcome::Finished);
        assert_eq!(stack_of(&state), vec![2]);
    }
}

#[test]
fn cross_mode_same_stack_and_output() {
    let programs = [
        "3 4 + 2 * print",
        "1 2 3 rot swap drop",
        ": sq 1 pick * ; 3 sq 4 sq +",
        "9 2 / 9 2 %",
        "0 if 1 2 3 7 print 8",
        "2 skip 5 5 11",
        ": abs 1 pick 0 < if 0 swap - ; -5 abs 5 abs",
        ": sel 2 skip 7 7 1 ; sel",
        ": out 2 skip 7 7 ; out 4",
        ": b 0 if 1 ; b",
        ": s 5 skip 1 ; s",
    ];
    for program in programs {
        let (o1, mut s1) = run_mode(program, false);
        let (o2, mut s2) = run_mode(program, true);
        assert_eq!(o1, o2, "outcomes differ for {program}");
        assert_eq!(stack_of(&s1), stack_of(&s2), "stacks differ for {program}");
        assert_eq!(s1.take_printed(), s2.take_printed(), "output differs for {program}");
    }
}

#[test]
fn pick_duplicates_from_depth() {
    let (outcome, state) = run("7 8 9 2 pick");
    assert_eq!(outcome, EvalOutcome::Finished);
    assert_eq!(stack_of(&state), vec![7, 8, 9, 8]);
}

#[test]
fn quit_stops_evaluation() {
    let (outcome, state) = run("1 quit 2");
    assert_eq!(outcome, EvalOutcome::Quit);
    assert_eq!(stack_of(&state), vec![1]);
}

#[test]
fn out_of_fuel() {
    let mut state = State::new();
    state.parse("1 2 3");
    let outcome = eval(&mut state, false, 1);
    assert_eq!(outcome, EvalOutcome::OutOfFuel);
}

#[test]
fn parse_appends_across_calls() {
    let mut state = State::new();
    state.parse("3");
    state.parse("4 +");
    let outcome = eval(&mut state, false, FUEL);
    assert_eq!(outcome, EvalOutcome::Finished);
    assert_eq!(stack_of(&state), vec![7]);
}

#[test]
fn take_printed_clears() {
    let (outcome, mut state) = run("5 print 6 print");
    assert_eq!(outcome, EvalOutcome::Finished);
    assert_eq!(state.take_printed(), vec![5, 6]);
    assert_eq!(state.take_printed(), Vec::<i32>::new());
}
