use bf_core::instruction::{Instruction, LexResult, VMResult};
use bf_core::lexer::BFLexer;
use bf_core::vm::{Step, VMSettings, BFVM};

fn lex(src: &str) -> Vec<Instruction> {
    match BFLexer::parse(src) {
        LexResult::Success(v) => v,
        other => panic!("source does not lex: {:?}", other),
    }
}

fn run(src: &str, input: &[u8], fuel: u64) -> (Option<VMResult>, Vec<u8>, BFVM) {
    let program = lex(src);
    let mut vm = BFVM::new(VMSettings::new());
    let (r, out) = vm.run_buffered(&program, &input.to_vec(), fuel);
    (r, out, vm)
}

fn is_error(r: &Option<VMResult>) -> bool {
    matches!(r, Some(VMResult::Error { .. }))
}

#[test]
fn prints_three() {
    let (r, out, _) = run("+++.", &[], 1000);
    assert_eq!(r, Some(VMResult::Success));
    assert_eq!(out, vec![3u8]);
}

#[test]
fn loop_counts_down_to_zero() {
    let (r, out, vm) = run("+[-]", &[], 1000);
    assert_eq!(r, Some(VMResult::Success));
    assert!(out.is_empty());
    assert_eq!(vm.current_cell(), 0);
}

#[test]
fn echoes_input_byte() {
    let (r, out, _) = run(",.", &[65], 1000);
    assert_eq!(r, Some(VMResult::Success));
    assert_eq!(out, vec![65u8]);
}

#[test]
fn input_at_end_of_stream_stores_zero() {
    let (r, out, _) = run("+,.", &[], 1000);
    assert_eq!(r, Some(VMResult::Success));
    assert_eq!(out, vec![0u8]);
    let (_, out, _) = run(",.,.,.", &[7, 8], 1000);
    assert_eq!(out, vec![7u8, 8, 0]);
}

#[test]
fn increment_wraps_to_zero() {
    let src = "+".repeat(255);
    let (_, _, vm) = run(&src, &[], 10_000);
    assert_eq!(vm.current_cell(), 255);
    let (r, out, _) = run(&(src + "+."), &[], 10_000);
    assert_eq!(r, Some(VMResult::Success));
    assert_eq!(out, vec![0u8]);
}

#[test]
fn decrement_wraps_to_255() {
    let (r, out, _) = run("-.", &[], 100);
    assert_eq!(r, Some(VMResult::Success));
    assert_eq!(out, vec![255u8]);
}

#[test]
fn moving_left_of_first_cell_is_an_error() {
    assert!(is_error(&run("<", &[], 100).0));
    assert!(is_error(&run("+++>+<<", &[], 100).0));
    let (r, out, vm) = run("+.<.", &[], 100);
    assert!(is_error(&r));
    assert_eq!(out, vec![1u8]);
    assert_eq!(vm.cursor(), 2);
}

#[test]
fn moving_right_grows_the_tape() {
    let src = ">".repeat(40_000) + ".+.";
    let (r, out, vm) = run(&src, &[], 100_000);
    assert_eq!(r, Some(VMResult::Success));
    assert_eq!(out, vec![0u8, 1]);
    assert_eq!(vm.pointer(), 40_000);
}

#[test]
fn loop_over_zero_cell_is_skipped() {
    let (r, out, _) = run("[+.]", &[], 100);
    assert_eq!(r, Some(VMResult::Success));
    assert!(out.is_empty());
}

#[test]
fn loop_that_keeps_its_cell_nonzero_never_ends() {
    let (r, _, vm) = run("+[]", &[], 10_000);
    assert_eq!(r, None);
    assert_eq!(vm.cursor(), 2);
    let (r, _, _) = run("+[>+<]", &[], 10_000);
    assert_eq!(r, None);
}

#[test]
fn multiplies_with_nested_loops() {
    let (r, out, _) = run("++++++++[>++++++++<-]>+.", &[], 10_000);
    assert_eq!(r, Some(VMResult::Success));
    assert_eq!(out, b"A".to_vec());
}

#[test]
fn step_reports_input_and_output() {
    let program = lex(",.");
    let mut vm = BFVM::new(VMSettings { prompt_for_input: true });
    assert_eq!(vm.step(&program), Step::NeedInput { prompt: true });
    assert_eq!(vm.cursor(), 0);
    vm.give_input(&program, Some(b'z'));
    assert_eq!(vm.step(&program), Step::Emit(b'z'));
    assert_eq!(vm.step(&program), Step::Halted(VMResult::Success));
    assert!(vm.settings().prompt_for_input);
}

#[test]
fn step_runs_plain_instructions() {
    let program = lex("+>");
    let mut vm = BFVM::new(VMSettings::new());
    assert_eq!(vm.step(&program), Step::Ran);
    assert_eq!(vm.current_cell(), 1);
    assert_eq!(vm.step(&program), Step::Ran);
    assert_eq!(vm.pointer(), 1);
    assert_eq!(vm.current_cell(), 0);
}

#[test]
fn unmatched_open_is_a_lex_failure() {
    assert!(matches!(BFLexer::parse("["), LexResult::Failure(_)));
}
