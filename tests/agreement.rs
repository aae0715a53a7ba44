use phronima::{compile_program, load_module, simulate_program, Program};

fn program(source: &str) -> Program {
    let mut p = load_module("test.phron", &source.to_string()).unwrap();
    p.resolve_blocks().unwrap();
    p
}

/// A plain Brainfuck machine: 8-bit wrapping cells, no input.
fn run_brainfuck(code: &str) -> String {
    let code: Vec<char> = code.chars().collect();
    let mut jumps = vec![0usize; code.len()];
    let mut open = vec![];
    for (i, c) in code.iter().enumerate() {
        if *c == '[' {
            open.push(i);
        } else if *c == ']' {
            let j = open.pop().unwrap();
            jumps[i] = j;
            jumps[j] = i;
        }
    }
    let mut tape = vec![0u8; 65536];
    let mut head = 0usize;
    let mut pc = 0usize;
    let mut out = String::new();
    while pc < code.len() {
        match code[pc] {
            '>' => head += 1,
            '<' => head -= 1,
            '+' => tape[head] = tape[head].wrapping_add(1),
            '-' => tape[head] = tape[head].wrapping_sub(1),
            '.' => out.push(tape[head] as char),
            '[' if tape[head] == 0 => pc = jumps[pc],
            ']' if tape[head] != 0 => pc = jumps[pc],
            _ => {}
        }
        pc += 1;
    }
    out
}

fn both(source: &str) -> (String, String) {
    let p = program(source);
    let simulated = simulate_program(&p, 100_000).unwrap();
    let compiled = run_brainfuck(&compile_program(&p).unwrap());
    (simulated, compiled)
}

#[test]
fn simulator_and_compiler_agree_on_scenarios() {
    let cases = [
        ("fn main  34 43 + numout end", "77"),
        ("fn main  72 chout 105 chout end", "Hi"),
        ("fn main  5 dup * numout end", "25"),
        ("fn main  1 if 65 chout end end", "A"),
        ("fn main  0 if 65 chout else 66 chout end end", "B"),
        ("fn main  3 while dup numout 1 - end pop end", "321"),
        ("fn main \"ok\" chout chout pop end", "ok"),
        ("fn main 200 100 + numout 3 5 - numout end", "44254"),
        ("fn show numout end fn main 7 show 1 not show 0 not show end", "701"),
        ("fn main initmem mem 9 write 1 numout end", "1"),
    ];
    for (source, expected) in cases.iter() {
        let (simulated, compiled) = both(source);
        assert_eq!(simulated, *expected, "{}", source);
        assert_eq!(compiled, *expected, "{}", source);
    }
}

#[test]
fn else_on_a_condition_other_than_zero_or_one_diverges() {
    // The generated `else` negates the condition as 1 - c, which is not zero
    // for c = 2, so the compiled program runs both branches.
    let (simulated, compiled) = both("fn main 2 if 65 chout else 66 chout end end");
    assert_eq!(simulated, "A");
    assert_eq!(compiled, "AB");
}
