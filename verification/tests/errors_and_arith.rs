use clacjit::{eval, EvalError, EvalOutcome, State};

const FUEL: u64 = 1_000_000;

fn stack_of(state: &State) -> Vec<i32> {
    let n = state.stack_len();
    let mut out = Vec::new();
    let mut i = n;
    while i >= 1 {
        out.push(state.must_pick(i).unwrap());
        i -= 1;
    }
    out
}

fn run_mode(input: &str, jit: bool) -> (EvalOutcome, State) {
    let mut state = State::new();
    state.parse(input);
    let outcome = eval(&mut state, jit, FUEL);
    (outcome, state)
}

fn run(input: &str) -> (EvalOutcome, State) {
    run_mode(input, false)
}

#[test]
fn stack_underflow() {
    let (outcome, _) = run("+");
    assert_eq!(outcome, EvalOutcome::Failed(EvalError::StackUnderflow));
}

#[test]
fn queue_underflow_on_if() {
    let (outcome, _) = run("0 if 1 2");
    assert_eq!(outcome, EvalOutcome::Failed(EvalError::QueueUnderflow));
}

#[test]
fn queue_underflow_on_open_definition() {
    let (outcome, _) = run(": x 1");
    assert_eq!(outcome, EvalOutcome::Failed(EvalError::QueueUnderflow));
}

#[test]
fn division_by_zero() {
    let (outcome, _) = run("1 0 /");
    assert_eq!(outcome, EvalOutcome::Failed(EvalError::DivisionByZero));
}

#[test]
fn division_overflow() {
    let (outcome, _) = run("-2147483648 -1 /");
    assert_eq!(outcome, EvalOutcome::Failed(EvalError::Overflow));
}

#[test]
fn modulus_overflow() {
    let (outcome, _) = run("-2147483648 -1 %");
    assert_eq!(outcome, EvalOutcome::Failed(EvalError::Overflow));
}

#[test]
fn negative_exponent() {
    let (outcome, _) = run("2 -1 **");
    assert_eq!(outcome, EvalOutcome::Failed(EvalError::NegativeExponent));
}

#[test]
fn pick_zero_index() {
    let (outcome, _) = run("5 0 pick");
    assert_eq!(outcome, EvalOutcome::Failed(EvalError::InvalidIndex));
}

#[test]
fn pick_out_of_range() {
    let (outcome, _) = run("1 5 pick");
    assert_eq!(outcome, EvalOutcome::Failed(EvalError::IndexOutOfBounds));
}

#[test]
fn negative_skip() {
    let (outcome, _) = run("-1 skip");
    assert_eq!(outcome, EvalOutcome::Failed(EvalError::NegativeSkip));
}

#[test]
fn empty_definition() {
    let (outcome, _) = run(": ;");
    assert_eq!(outcome, EvalOutcome::Failed(EvalError::EmptyDefinition));
}

#[test]
fn invalid_definition_head() {
    let (outcome, _) = run(": 5 ;");
    assert_eq!(outcome, EvalOutcome::Failed(EvalError::InvalidDefinition));
}

#[test]
fn unexpected_definition_end() {
    let (outcome, _) = run(";");
    assert_eq!(outcome, EvalOutcome::Failed(EvalError::UnexpectedDefEnd));
}

#[test]
fn compile_rejects_nested_definition() {
    let (outcome, _) = run_mode(": a : b ; ;", true);
    assert_eq!(outcome, EvalOutcome::Failed(EvalError::Compiler));
}

#[test]
fn unknown_name() {
    let (outcome, _) = run("xyz");
    assert_eq!(
        outcome,
        EvalOutcome::Failed(EvalError::UnknownDefinition("xyz".to_string()))
    );
}

#[test]
fn division_truncates_toward_zero() {
    let cases = [
        ("7 2 /", 3),
        ("-7 2 /", -3),
        ("7 -2 /", -3),
        ("-7 -2 /", 3),
        ("7 2 %", 1),
        ("-7 2 %", -1),
        ("7 -2 %", 1),
        ("-7 -2 %", -1),
    ];
    for (program, expect) in cases {
        let (outcome, state) = run(program);
        assert_eq!(outcome, EvalOutcome::Finished, "{program}");
        assert_eq!(stack_of(&state), vec![expect], "{program}");
    }
}

#[test]
fn div_mod_reconstruct_examples() {
    for (b, a) in [(17, 5), (-17, 5), (17, -5), (-17, -5), (2147483647, 3)] {
        let program = format!("{b} {a} / {b} {a} % {b} {a} / {a} * +");
        let (outcome, state) = run(&program);
        assert_eq!(outcome, EvalOutcome::Finished, "{program}");
        let s = stack_of(&state);
        assert_eq!(*s.last().unwrap(), b, "{program}");
    }
}

#[test]
fn addition_wraps() {
    let (outcome, state) = run("2147483647 1 +");
    assert_eq!(outcome, EvalOutcome::Finished);
    assert_eq!(stack_of(&state), vec![-2147483648]);
}

#[test]
fn power_wraps() {
    let (outcome, state) = run("2 31 **");
    assert_eq!(outcome, EvalOutcome::Finished);
    assert_eq!(stack_of(&state), vec![-2147483648]);
}

#[test]
fn less_pushes_flag() {
    let (outcome, state) = run("1 2 < 2 1 <");
    assert_eq!(outcome, EvalOutcome::Finished);
    assert_eq!(stack_of(&state), vec![1, 0]);
}

#[test]
fn swap_swap_is_identity() {
    let (outcome, state) = run("1 2 swap swap");
    assert_eq!(outcome, EvalOutcome::Finished);
    assert_eq!(stack_of(&state), vec![1, 2]);
}

#[test]
fn drop_removes_top() {
    let (outcome, state) = run("1 2 drop");
    assert_eq!(outcome, EvalOutcome::Finished);
    assert_eq!(stack_of(&state), vec![1]);
}

#[test]
fn numeric_lexeme_bounds() {
    let (outcome, state) = run("-2147483648 2147483647");
    assert_eq!(outcome, EvalOutcome::Finished);
    assert_eq!(stack_of(&state), vec![-2147483648, 2147483647]);
}

#[test]
fn overflowing_literal_is_a_name() {
    let (outcome, _) = run("2147483648");
    assert_eq!(
        outcome,
        EvalOutcome::Failed(EvalError::UnknownDefinition("2147483648".to_string()))
    );
}

#[test]
fn whitespace_split_feeds_tokens() {
    let (outcome, state) = run("  3\t4\n+   ");
    assert_eq!(outcome, EvalOutcome::Finished);
    assert_eq!(stack_of(&state), vec![7]);
}

#[test]
fn skip_drops_exactly_n_tokens() {
    let (outcome, state) = run("2 skip 8 9 10");
    assert_eq!(outcome, EvalOutcome::Finished);
    assert_eq!(stack_of(&state), vec![10]);
}
