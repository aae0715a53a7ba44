use phronima::{compile_program_from_source, PhronError};

const POP: &str = "[-]<";
const PLUS: &str = "[<+>-]<";
const MINUS: &str = "[-<->]<";
const MULT: &str = "<[->>+<<]>[->[->+<<<+>>]>[-<+>]<<]>[-]<<";
const CHAROUT: &str = ".[-]<";
const NUMOUT: &str = ">>++++++++++<<[->+>-[>+>>]>[+[-<+>]>+>>]<<<<<<]>>[-]>>>++++++++++<[->-[>+>>]>[+[-<+>]>+>>]<<<<<]>[-]>>[>++++++[-<++++++++>]<.<<+>+>[-]]<[<[->-<]++++++[->++++++++<]>.[-]]<<++++++[-<++++++++>]<.[-]<<[-<+>]<";
const WRITE: &str = ">+<<[->>>+[>[<-]<[->+<]>]>>>+>+<<<<+[<[>-]>[-<+>]<]<<<]>[->>+[>[<-]<[->+<]>]>>+<<+[<[>-]>[-<+>]<]<<]>>+[>[<-]<[->+<]>]>>>>[<[->>>>+<<<<]<[->>>>+<<<<]>>[>>>>+<<<<-]>>>>-]<<[->>>+<<<]>[[<<<<+>>>>-]<<<<-]<<<+[<[>-]>[-<+>]<]<-<<<";
const READ: &str = ">+<[->>+[>[<-]<[->+<]>]>>>+>+<<<<+[<[>-]>[-<+>]<]<<]>>+[>[<-]<[->+<]>]>>>>[<[->>>>+<<<<]>[>>>>+<<<<-]>>>>-]>[-<+<<+>>>]<[->+<]<[<[-<<<<+>>>>]>[<<<<+>>>>-]<<<<-]<[-<<+[<[>-]>[-<+>]<]<<+>>+[>[<-]<[->+<]>]>>]<<+[<[>-]>[-<+>]<]<-<";
const DUP: &str = "[->+>+<<]>>[-<<+>>]<";
const SWAP: &str = "<[->>+<<]>[-<+>]>[-<+>]<";
const NOT: &str = ">[-]<-[>-<-]>[<+>-]<";
const BLOCK_END: &str = "[-]]<";

fn push(n: usize) -> String {
    format!(">{}", "+".repeat(n))
}

fn init_memory() -> String {
    format!("{}{}{}", ">".repeat(28975), "+".repeat(82), "<".repeat(28975))
}

fn compile(source: &str) -> String {
    compile_program_from_source("test.phron", source.to_string()).unwrap()
}

fn test(source: &str, expected: &str) -> bool {
    compile(source) == expected
}

#[test]
fn push_op() {
    assert!(test("fn main\n  7 3\nend\n", &format!("{}{}", push(7), push(3))));
}

#[test]
fn pop_op() {
    assert!(test("fn main 4 pop end", &format!("{}{}", push(4), POP)));
}

#[test]
fn addition_op() {
    assert!(test("fn main 34 43 + end", &format!("{}{}{}", push(34), push(43), PLUS)));
}

#[test]
fn subtraction_op() {
    assert!(test("fn main 9 4 - end", &format!("{}{}{}", push(9), push(4), MINUS)));
}

#[test]
fn multiplication_op() {
    assert!(test("fn main 6 7 * end", &format!("{}{}{}", push(6), push(7), MULT)));
}

#[test]
fn chout_op() {
    assert!(test("fn main 72 chout end", &format!("{}{}", push(72), CHAROUT)));
}

#[test]
fn write_op() {
    let expected = format!("{}>{}{}", init_memory(), push(65), WRITE);
    assert!(test("fn main initmem mem 65 write end", &expected));
}

#[test]
fn read_op() {
    let expected = format!("{}>{}", init_memory(), READ);
    assert!(test("fn main initmem mem read end", &expected));
}

#[test]
fn mem_op() {
    assert!(test("fn main mem pop end", &format!(">{}", POP)));
}

#[test]
fn if_op() {
    let expected = format!("{}{}[{}{}{}", push(1), DUP, push(65), CHAROUT, BLOCK_END);
    assert!(test("fn main 1 if 65 chout end end", &expected));
}

#[test]
fn while_loop() {
    let expected =
        format!("{}[{}{}{}{}{}]{}", push(3), DUP, NUMOUT, POP, push(1), MINUS, POP);
    assert!(test("fn main 3 while dup numout 1 - end pop end", &expected));
}

#[test]
fn swap_op() {
    assert!(test("fn main 1 2 swap end", &format!("{}{}{}", push(1), push(2), SWAP)));
}

#[test]
fn dup_op() {
    assert!(test("fn main 5 dup end", &format!("{}{}", push(5), DUP)));
}

#[test]
fn else_op() {
    let expected = format!(
        "{}{}[{}{}{}{}{}[{}{}{}",
        push(0),
        DUP,
        push(65),
        CHAROUT,
        BLOCK_END,
        DUP,
        NOT,
        push(66),
        CHAROUT,
        BLOCK_END
    );
    assert!(test("fn main 0 if 65 chout else 66 chout end end", &expected));
}

#[test]
fn not_op() {
    assert!(test("fn main 1 not end", &format!("{}{}", push(1), NOT)));
}

#[test]
fn compile_sum_scenario() {
    let code = compile("fn main  34 43 + numout end");
    let expected = format!("{}{}{}{}{}", push(34), push(43), PLUS, NUMOUT, POP);
    assert_eq!(code, expected);
}

#[test]
fn write_before_initmem_emits_nothing() {
    assert_eq!(compile("fn main mem 1 write end"), format!(">{}", push(1)));
}

#[test]
fn initmem_emitted_once() {
    assert_eq!(compile("fn main initmem initmem end"), init_memory());
}

#[test]
fn calls_are_inlined() {
    let code = compile("fn twice dup + end fn main 4 twice twice end");
    let expected = format!("{}{}{}{}{}", push(4), DUP, PLUS, DUP, PLUS);
    assert_eq!(code, expected);
}

#[test]
fn string_literal_fragment() {
    let code = compile("fn main \"Hi\" end");
    assert_eq!(code, format!(">{}{}", push(105), push(72)));
}

#[test]
fn fragments_add_up_to_stack_depth() {
    let code = compile("fn main 1 2 swap dup pop end");
    let moves = code.chars().filter(|c| *c == '>').count() as i64
        - code.chars().filter(|c| *c == '<').count() as i64;
    assert_eq!(moves, 2);
}

#[test]
fn net_displacement_per_fragment() {
    let cases: [(&str, i64); 10] = [
        ("fn main 9 end", 1),
        ("fn main 9 pop end", 0),
        ("fn main 1 2 + end", 1),
        ("fn main 1 2 * end", 1),
        ("fn main 1 chout end", 0),
        ("fn main mem end", 1),
        ("fn main 1 dup end", 2),
        ("fn main 1 not end", 1),
        ("fn main initmem mem 1 write end", 0),
        ("fn main \"abc\" end", 4),
    ];
    for (source, expected) in cases.iter() {
        let code = compile(source);
        let moves = code.chars().filter(|c| *c == '>').count() as i64
            - code.chars().filter(|c| *c == '<').count() as i64;
        assert_eq!(moves, *expected, "{}", source);
    }
}

#[test]
fn comparison_is_not_implemented() {
    let r = compile_program_from_source("t", "fn main 1 2 < end".to_string());
    match r {
        Err(PhronError::NotImplemented { function, index }) => {
            assert_eq!(function, "main");
            assert_eq!(index, 2);
        }
        other => panic!("unexpected {:?}", other),
    }
}

#[test]
fn stack_height_is_not_implemented() {
    let r = compile_program_from_source("t", "fn main ? end".to_string());
    assert!(matches!(r, Err(PhronError::NotImplemented { .. })));
}

#[test]
fn unknown_function_fails_compilation() {
    let r = compile_program_from_source("t", "fn main nowhere end".to_string());
    match r {
        Err(PhronError::UnknownFunction { name }) => assert_eq!(name, "nowhere"),
        other => panic!("unexpected {:?}", other),
    }
}

#[test]
fn recursion_cannot_be_inlined() {
    let r = compile_program_from_source("t", "fn f f end fn main f end".to_string());
    match r {
        Err(PhronError::RecursiveCall { name }) => assert_eq!(name, "f"),
        other => panic!("unexpected {:?}", other),
    }
}

#[test]
fn missing_main_fails_compilation() {
    let r = compile_program_from_source("t", "fn start 1 end".to_string());
    assert!(matches!(r, Err(PhronError::MissingMain)));
}
