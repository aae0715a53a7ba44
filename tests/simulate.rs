use phronima::{load_module, simulate_program, Emit, Function, Machine, PhronError, Program, Stack};
use std::collections::VecDeque;

fn program(source: &str) -> Program {
    let mut p = load_module("test.phron", &source.to_string()).unwrap();
    p.resolve_blocks().unwrap();
    p
}

fn run(source: &str) -> Result<String, PhronError> {
    simulate_program(&program(source), 100_000)
}

#[test]
fn sum_prints_77() {
    assert_eq!(run("fn main  34 43 + numout end").unwrap(), "77");
}

#[test]
fn characters_print_hi() {
    assert_eq!(run("fn main  72 chout 105 chout end").unwrap(), "Hi");
}

#[test]
fn square_prints_25() {
    assert_eq!(run("fn main  5 dup * numout end").unwrap(), "25");
}

#[test]
fn taken_if_prints_a() {
    assert_eq!(run("fn main  1 if 65 chout end end").unwrap(), "A");
}

#[test]
fn else_branch_prints_b() {
    assert_eq!(run("fn main  0 if 65 chout else 66 chout end end").unwrap(), "B");
}

#[test]
fn countdown_prints_321() {
    assert_eq!(run("fn main  3 while dup numout 1 - end pop end").unwrap(), "321");
}

#[test]
fn arithmetic_wraps() {
    assert_eq!(run("fn main 200 100 + numout 3 5 - numout 16 16 * numout end").unwrap(), "442540");
}

#[test]
fn comparisons_push_flags() {
    assert_eq!(run("fn main 1 2 < numout 1 2 > numout 7 7 = numout end").unwrap(), "101");
}

#[test]
fn swap_and_not() {
    assert_eq!(run("fn main 1 2 swap numout numout 0 not numout 1 not numout 5 not numout end").unwrap(), "1210252");
}

#[test]
fn memory_round_trip() {
    assert_eq!(run("fn main initmem 10 42 write 10 read numout end").unwrap(), "42");
}

#[test]
fn stack_height_is_pushed() {
    assert_eq!(run("fn main 9 9 9 ? numout end").unwrap(), "3");
}

#[test]
fn string_literal_is_pushed_reversed_with_terminator() {
    assert_eq!(run("fn main \"Hi\" chout chout numout end").unwrap(), "Hi0");
}

#[test]
fn calls_return_to_the_caller() {
    assert_eq!(run("fn a 65 chout end fn main a 66 chout a end").unwrap(), "ABA");
}

#[test]
fn nested_call_as_last_instruction_returns() {
    let source = "fn inner 65 chout end fn outer inner end fn main outer outer 66 chout end";
    assert_eq!(run(source).unwrap(), "AAB");
}

#[test]
fn if_ending_a_called_function_returns() {
    let source = "fn f 1 if 65 chout end pop end fn main f 66 chout end";
    assert_eq!(run(source).unwrap(), "AB");
}

#[test]
fn two_dup_copies_the_top_pair() {
    let body = vec![
        Function::Push(1),
        Function::Push(2),
        Function::TwoDup(),
        Function::NumOut(),
        Function::NumOut(),
        Function::NumOut(),
        Function::NumOut(),
    ];
    let p = Program::new(VecDeque::new(), vec![("main".to_string(), body)]);
    assert_eq!(simulate_program(&p, 100).unwrap(), "2121");
}

#[test]
fn popping_an_empty_stack_fails() {
    assert!(matches!(run("fn main pop end"), Err(PhronError::StackUnderflow)));
}

#[test]
fn unknown_call_fails_at_run_time() {
    match run("fn main 1 numout nowhere end") {
        Err(PhronError::UnknownFunction { name }) => assert_eq!(name, "nowhere"),
        other => panic!("unexpected {:?}", other),
    }
}

#[test]
fn endless_loop_hits_the_step_limit() {
    assert!(matches!(run("fn main 1 while end end"), Err(PhronError::StepLimit)));
}

#[test]
fn missing_main_fails_simulation() {
    assert!(matches!(run("fn other end"), Err(PhronError::MissingMain)));
}

#[test]
fn stack_overflow_is_reported() {
    assert!(matches!(run("fn main 1 while dup end end"), Err(PhronError::StackOverflow)));
}

#[test]
fn unresolved_jump_is_reported() {
    let body = vec![Function::Push(0), Function::If(None), Function::End(None)];
    let p = Program::new(VecDeque::new(), vec![("main".to_string(), body)]);
    assert!(matches!(simulate_program(&p, 100), Err(PhronError::BadJump)));
}

#[test]
fn machine_steps_one_instruction_at_a_time() {
    let p = program("fn main 7 numout end");
    let mut m = Machine::new(&p).unwrap();
    assert!(!m.is_halted(&p));
    assert_eq!(m.step(&p).unwrap(), None);
    assert_eq!(m.step(&p).unwrap(), Some(Emit::Number(7)));
    assert!(m.is_halted(&p));
}

#[test]
fn stack_push_and_pop() {
    let mut s = Stack::new();
    s.push(3);
    s.push(9);
    assert_eq!(s.top, 2);
    assert_eq!(s.pop(), 9);
    assert_eq!(s.pop(), 3);
    assert_eq!(s.top, 0);
}
