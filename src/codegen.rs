use vstd::prelude::*;
use vstd::set_lib::lemma_len_subset;
use vstd::utf8::encode_utf8;

use crate::error::PhronError;
use crate::instr::{ops, Function, Op};
use crate::program::{entries_map, names, Program};
use crate::sim::{exec_op, main_name, Next, SimState};
use crate::text::push_char;

verus! {

pub const POP_CODE: &'static str = "[-]<";

pub const PLUS_CODE: &'static str = "[<+>-]<";

pub const MINUS_CODE: &'static str = "[-<->]<";

pub const MULT_CODE: &'static str = "<[->>+<<]>[->[->+<<<+>>]>[-<+>]<<]>[-]<<";

pub const CHAROUT_CODE: &'static str = ".[-]<";

/// Prints the top cell as an 8-bit decimal number and leaves it in place.
pub const NUMOUT_CODE: &'static str = ">>++++++++++<<[->+>-[>+>>]>[+[-<+>]>+>>]<<<<<<]>>[-]>>>++++++++++<[->-[>+>>]>[+[-<+>]>+>>]<<<<<]>[-]>>[>++++++[-<++++++++>]<.<<+>+>[-]]<[<[->-<]++++++[->++++++++<]>.[-]]<<++++++[-<++++++++>]<.[-]<<[-<+>]<";

/// With the byte on top and the address below it, stores the byte in the
/// memory region and removes both.
pub const WRITE_CODE: &'static str = ">+<<[->>>+[>[<-]<[->+<]>]>>>+>+<<<<+[<[>-]>[-<+>]<]<<<]>[->>+[>[<-]<[->+<]>]>>+<<+[<[>-]>[-<+>]<]<<]>>+[>[<-]<[->+<]>]>>>>[<[->>>>+<<<<]<[->>>>+<<<<]>>[>>>>+<<<<-]>>>>-]<<[->>>+<<<]>[[<<<<+>>>>-]<<<<-]<<<+[<[>-]>[-<+>]<]<-<<<";

/// Replaces the address on top with the byte stored there.
pub const READ_CODE: &'static str = ">+<[->>+[>[<-]<[->+<]>]>>>+>+<<<<+[<[>-]>[-<+>]<]<<]>>+[>[<-]<[->+<]>]>>>>[<[->>>>+<<<<]>[>>>>+<<<<-]>>>>-]>[-<+<<+>>>]<[->+<]<[<[-<<<<+>>>>]>[<<<<+>>>>-]<<<<-]<[-<<+[<[>-]>[-<+>]<]<<+>>+[>[<-]<[->+<]>]>>]<<+[<[>-]>[-<+>]<]<-<";

pub const MEM_CODE: &'static str = ">";

pub const DUP_CODE: &'static str = "[->+>+<<]>>[-<<+>>]<";

pub const TWODUP_CODE: &'static str = "<[->>+>>+<<<<]>[->>+>>+<<<<]>>>[-<<<<+>>>>]>[-<<<<+>>>>]<<";

pub const SWAP_CODE: &'static str = "<[->>+<<]>[-<+>]>[-<+>]<";

pub const NOT_CODE: &'static str = ">[-]<-[>-<-]>[<+>-]<";

pub const OPEN_CODE: &'static str = "[";

pub const LOOP_END_CODE: &'static str = "]";

/// Closes an `if` or `else` block: clears the condition copy, ends the loop
/// and steps back onto the condition.
pub const BLOCK_END_CODE: &'static str = "[-]]<";

/// Cells between the head and the memory marker that `initmem` sets.
pub const MEMORY_OFFSET: usize = 28975;

/// The value of the memory marker cell.
pub const MEMORY_MARK: usize = 82;

/// `n` copies of `c`.
pub open spec fn repeat(c: char, n: nat) -> Seq<char> {
    Seq::new(n, |i: int| c)
}

/// What the generator emits for a string literal: the terminating zero,
/// then one cell per byte, last byte first.
pub open spec fn literal_code(bytes: Seq<u8>) -> Seq<char>
    decreases bytes.len(),
{
    if bytes.len() == 0 {
        seq!['>']
    } else {
        literal_code(bytes.drop_first()) + seq!['>'] + repeat('+', bytes[0] as nat)
    }
}

/// The `initmem` code: go to the marker cell, set it, come back.
pub open spec fn init_memory_code() -> Seq<char> {
    repeat('>', MEMORY_OFFSET as nat) + repeat('+', MEMORY_MARK as nat) + repeat(
        '<',
        MEMORY_OFFSET as nat,
    )
}

/// Why code generation stops.
pub enum GenFault {
    UnknownFunction(Seq<char>),
    RecursiveCall(Seq<char>),
    NotImplemented(Seq<char>, nat),
    BadJump,
    Unreachable,
}

/// The code for instruction `i` of the function `name` (whose body is
/// `body`), other than a call, and whether memory is initialized after it.
pub open spec fn fragment(op: Op, body: Seq<Op>, name: Seq<char>, i: nat, init: bool) -> Result<
    (Seq<char>, bool),
    GenFault,
> {
    match op {
        Op::Push(n) => Ok((seq!['>'] + repeat('+', n as nat), init)),
        Op::Pop => Ok((POP_CODE@, init)),
        Op::Plus => Ok((PLUS_CODE@, init)),
        Op::Minus => Ok((MINUS_CODE@, init)),
        Op::Mult => Ok((MULT_CODE@, init)),
        Op::CharOut => Ok((CHAROUT_CODE@, init)),
        Op::NumOut => Ok((NUMOUT_CODE@ + POP_CODE@, init)),
        Op::Write => Ok((if init { WRITE_CODE@ } else { Seq::empty() }, init)),
        Op::Read => Ok((if init { READ_CODE@ } else { Seq::empty() }, init)),
        Op::Mem => Ok((MEM_CODE@, init)),
        Op::InitMem => if init {
            Ok((Seq::empty(), true))
        } else {
            Ok((init_memory_code(), true))
        },
        Op::If(_) => Ok((DUP_CODE@ + OPEN_CODE@, init)),
        Op::End(t) => match t {
            None => Err(GenFault::BadJump),
            Some(t) => if t == body.len() {
                Ok((BLOCK_END_CODE@, init))
            } else if t > body.len() {
                Err(GenFault::BadJump)
            } else if body[t as int] is While {
                Ok((LOOP_END_CODE@, init))
            } else {
                Ok((BLOCK_END_CODE@, init))
            },
        },
        Op::Else(_) => Ok((BLOCK_END_CODE@ + DUP_CODE@ + NOT_CODE@ + OPEN_CODE@, init)),
        Op::While(_) => Ok((OPEN_CODE@, init)),
        Op::Swap => Ok((SWAP_CODE@, init)),
        Op::Dup => Ok((DUP_CODE@, init)),
        Op::TwoDup => Ok((TWODUP_CODE@, init)),
        Op::Not => Ok((NOT_CODE@, init)),
        Op::StringLiteral(s) => Ok((literal_code(encode_utf8(s)), init)),
        Op::LessThan | Op::GreaterThan | Op::Equals | Op::GetStackHeight => Err(
            GenFault::NotImplemented(name, i),
        ),
        Op::FunctionCall(_) | Op::FunctionDeclaration(_) | Op::Import(_) => Err(
            GenFault::Unreachable,
        ),
    }
}

pub open spec fn prefixed(code: Seq<char>, r: Result<(Seq<char>, bool), GenFault>) -> Result<
    (Seq<char>, bool),
    GenFault,
> {
    match r {
        Ok((rest, init)) => Ok((code + rest, init)),
        Err(f) => Err(f),
    }
}

/// The code for the function `name` from instruction `i` on, with every call
/// replaced by the code of the called function; `visiting` holds the
/// functions whose code is being generated around it.
pub open spec fn gen(
    p: Map<Seq<char>, Seq<Op>>,
    name: Seq<char>,
    i: nat,
    visiting: Set<Seq<char>>,
    init: bool,
) -> Result<(Seq<char>, bool), GenFault>
    decreases p.dom().len() - visiting.len(), p[name].len() - i,
    when p.dom().finite() && visiting.subset_of(p.dom())
{
    let body = p[name];
    if i >= body.len() {
        Ok((Seq::empty(), init))
    } else {
        match body[i as int] {
            Op::FunctionCall(n) => if !p.contains_key(n) {
                Err(GenFault::UnknownFunction(n))
            } else if visiting.contains(n) {
                Err(GenFault::RecursiveCall(n))
            } else {
                proof {
                    lemma_len_subset(visiting.insert(n), p.dom());
                }
                match gen(p, n, 0, visiting.insert(n), init) {
                    Err(f) => Err(f),
                    Ok((code, init2)) => prefixed(code, gen(p, name, i + 1, visiting, init2)),
                }
            },
            op => match fragment(op, body, name, i, init) {
                Err(f) => Err(f),
                Ok((code, init2)) => prefixed(code, gen(p, name, i + 1, visiting, init2)),
            },
        }
    }
}

/// The Brainfuck program for a module: the code of `main`, calls inlined.
pub open spec fn compiled(p: Map<Seq<char>, Seq<Op>>) -> Result<Seq<char>, GenFault> {
    match gen(p, main_name(), 0, set![main_name()], false) {
        Ok((code, _)) => Ok(code),
        Err(f) => Err(f),
    }
}

/// The error that reports a generation fault.
pub open spec fn reports_gen(e: PhronError, f: GenFault) -> bool {
    match f {
        GenFault::UnknownFunction(n) => e matches PhronError::UnknownFunction { name } && name@ == n,
        GenFault::RecursiveCall(n) => e matches PhronError::RecursiveCall { name } && name@ == n,
        GenFault::NotImplemented(n, i) => e matches PhronError::NotImplemented { function, index }
            && function@ == n && index == i,
        GenFault::BadJump => e is BadJump,
        GenFault::Unreachable => e is Unreachable,
    }
}

} // verus!

verus! {

fn push_repeat(out: &mut String, c: char, n: usize)
    ensures
        final(out)@ == old(out)@ + repeat(c, n as nat),
{
    let mut k: usize = 0;
    while k < n
        invariant
            k <= n,
            out@ == old(out)@ + repeat(c, k as nat),
        decreases n - k,
    {
        push_char(out, c);
        k = k + 1;
        assert(out@ =~= old(out)@ + repeat(c, k as nat));
    }
}

fn push_literal(out: &mut String, text: &String)
    ensures
        final(out)@ == old(out)@ + literal_code(encode_utf8(text@)),
{
    let bytes = text.as_str().as_bytes();
    let n = bytes.len();
    push_char(out, '>');
    let mut k: usize = n;
    assert(bytes@.subrange(n as int, n as int) =~= Seq::<u8>::empty());
    while k > 0
        invariant
            k <= n,
            n == bytes@.len(),
            out@ == old(out)@ + literal_code(bytes@.subrange(k as int, n as int)),
        decreases k,
    {
        let ghost before = out@;
        push_char(out, '>');
        push_repeat(out, '+', bytes[k - 1] as usize);
        assert(bytes@.subrange(k - 1, n as int).drop_first() =~= bytes@.subrange(k as int, n as int));
        k = k - 1;
        assert(out@ =~= old(out)@ + literal_code(bytes@.subrange(k as int, n as int)));
    }
    assert(bytes@.subrange(0, n as int) =~= bytes@);
}

/// Appends the code for instruction `i` of `body`, which is not a call.
fn emit_fragment(
    out: &mut String,
    op: &Function,
    body: &Vec<Function>,
    name: &String,
    i: usize,
    init: &mut bool,
) -> (r: Result<(), PhronError>)
    requires
        !(op is FunctionCall),
    ensures
        match fragment(op@, ops(body@), name@, i as nat, *old(init)) {
            Ok((code, init2)) => r is Ok && final(out)@ == old(out)@ + code && *final(init)
                == init2,
            Err(f) => r is Err && reports_gen(r->Err_0, f),
        },
{
    let len = body.len();
    match op {
        Function::Push(n) => {
            push_char(out, '>');
            push_repeat(out, '+', *n as usize);
            assert(out@ =~= old(out)@ + (seq!['>'] + repeat('+', *n as nat)));
        },
        Function::Pop() => out.append(POP_CODE),
        Function::Plus() => out.append(PLUS_CODE),
        Function::Minus() => out.append(MINUS_CODE),
        Function::Mult() => out.append(MULT_CODE),
        Function::CharOut() => out.append(CHAROUT_CODE),
        Function::NumOut() => {
            out.append(NUMOUT_CODE);
            out.append(POP_CODE);
            assert(out@ =~= old(out)@ + (NUMOUT_CODE@ + POP_CODE@));
        },
        Function::Write() => {
            if *init {
                out.append(WRITE_CODE);
            } else {
                assert(out@ =~= old(out)@ + Seq::<char>::empty());
            }
        },
        Function::Read() => {
            if *init {
                out.append(READ_CODE);
            } else {
                assert(out@ =~= old(out)@ + Seq::<char>::empty());
            }
        },
        Function::Mem() => out.append(MEM_CODE),
        Function::InitMem() => {
            if !*init {
                push_repeat(out, '>', MEMORY_OFFSET);
                push_repeat(out, '+', MEMORY_MARK);
                push_repeat(out, '<', MEMORY_OFFSET);
                assert(out@ =~= old(out)@ + init_memory_code());
                *init = true;
            } else {
                assert(out@ =~= old(out)@ + Seq::<char>::empty());
            }
        },
        Function::If(_) => {
            out.append(DUP_CODE);
            out.append(OPEN_CODE);
            assert(out@ =~= old(out)@ + (DUP_CODE@ + OPEN_CODE@));
        },
        Function::End(t) => {
            match t {
                None => {
                    return Err(PhronError::BadJump);
                },
                Some(t) => {
                    let t = *t;
                    if t == len {
                        out.append(BLOCK_END_CODE);
                    } else if t > len {
                        return Err(PhronError::BadJump);
                    } else if matches!(body[t], Function::While(_)) {
                        out.append(LOOP_END_CODE);
                    } else {
                        out.append(BLOCK_END_CODE);
                    }
                },
            }
        },
        Function::Else(_) => {
            out.append(BLOCK_END_CODE);
            out.append(DUP_CODE);
            out.append(NOT_CODE);
            out.append(OPEN_CODE);
            assert(out@ =~= old(out)@ + (BLOCK_END_CODE@ + DUP_CODE@ + NOT_CODE@ + OPEN_CODE@));
        },
        Function::While(_) => out.append(OPEN_CODE),
        Function::Swap() => out.append(SWAP_CODE),
        Function::Dup() => out.append(DUP_CODE),
        Function::TwoDup() => out.append(TWODUP_CODE),
        Function::Not() => out.append(NOT_CODE),
        Function::StringLiteral(s) => push_literal(out, s),
        Function::LessThan() | Function::GreaterThan() | Function::Equals()
        | Function::GetStackHeight() => {
            return Err(PhronError::NotImplemented { function: name.clone(), index: i });
        },
        _ => {
            return Err(PhronError::Unreachable);
        },
    }
    Ok(())
}

proof fn lemma_push_to_set(s: Seq<Seq<char>>, x: Seq<char>)
    ensures
        s.push(x).to_set() == s.to_set().insert(x),
{
    assert forall|a: Seq<char>| s.push(x).contains(a) <==> s.contains(a) || a == x by {
        if s.push(x).contains(a) {
            let k = choose|k: int| 0 <= k < s.push(x).len() && s.push(x)[k] == a;
            if k < s.len() {
                assert(s[k] == a);
            }
        }
        if s.contains(a) {
            let k = choose|k: int| 0 <= k < s.len() && s[k] == a;
            assert(s.push(x)[k] == a);
        }
        if a == x {
            assert(s.push(x)[s.len() as int] == a);
        }
    }
    assert forall|a: Seq<char>| #[trigger] s.push(x).to_set().contains(a) == s.to_set().insert(
        x,
    ).contains(a) by {
        assert(s.push(x).contains(a) <==> s.contains(a) || a == x);
    }
    assert(s.push(x).to_set() =~= s.to_set().insert(x));
}

fn chain_contains(chain: &Vec<String>, n: &String) -> (r: bool)
    ensures
        r == names(chain@).to_set().contains(n@),
{
    let mut k: usize = 0;
    while k < chain.len()
        invariant
            k <= chain@.len(),
            forall|j: int| 0 <= j < k ==> chain@[j]@ != n@,
        decreases chain@.len() - k,
    {
        if chain[k] == *n {
            assert(names(chain@)[k as int] == n@);
            return true;
        }
        k = k + 1;
    }
    assert(!names(chain@).contains(n@));
    false
}

proof fn lemma_entries_map_finite(es: Seq<(String, Vec<Function>)>)
    ensures
        entries_map(es).dom().finite(),
    decreases es.len(),
{
    if es.len() > 0 {
        lemma_entries_map_finite(es.drop_last());
    }
}

/// Appends the code of the function at `cur` (named `name`), with calls
/// inlined; `chain` names the functions being generated around it.
fn gen_function(
    p: &Program,
    cur: usize,
    name: &String,
    chain: &mut Vec<String>,
    init: &mut bool,
    out: &mut String,
) -> (r: Result<(), PhronError>)
    requires
        cur < p.functions@.len(),
        p.functions_map().contains_key(name@),
        p.functions_map()[name@] == ops(p.functions@[cur as int].1@),
        p.functions_map().dom().finite(),
        names(old(chain)@).to_set().subset_of(p.functions_map().dom()),
    ensures
        final(chain)@ == old(chain)@,
        match gen(p.functions_map(), name@, 0, names(old(chain)@).to_set(), *old(init)) {
            Ok((code, init2)) => r is Ok && final(out)@ == old(out)@ + code && *final(init)
                == init2,
            Err(f) => r is Err && reports_gen(r->Err_0, f),
        },
    decreases p.functions_map().dom().len() - names(old(chain)@).to_set().len(),
{
    let ghost m = p.functions_map();
    let ghost visiting = names(chain@).to_set();
    let ghost init0 = *init;
    let ghost start = out@;
    let body = &p.functions[cur].1;
    let len = body.len();
    assert(m[name@].len() == len);
    let mut i: usize = 0;
    let ghost mut done: Seq<char> = Seq::empty();
    assert(prefixed(done, gen(m, name@, 0, visiting, init0)) == gen(m, name@, 0, visiting, init0))
        by {
        match gen(m, name@, 0, visiting, init0) {
            Ok((c, b)) => {
                assert(done + c =~= c);
            },
            Err(_) => {},
        }
    };
    while i < len
        invariant
            i <= len,
            init0 == *old(init),
            start == old(out)@,
            m.contains_key(name@),
            len == m[name@].len(),
            m == p.functions_map(),
            m.dom().finite(),
            visiting.subset_of(m.dom()),
            m[name@] == ops(body@),
            chain@ == old(chain)@,
            visiting == names(chain@).to_set(),
            out@ == start + done,
            gen(m, name@, 0, visiting, init0) == prefixed(done, gen(m, name@, i as nat, visiting, *init)),
        decreases len - i,
    {
        let ghost before = out@;
        let ghost init_before = *init;
        let op = &body[i];
        assert(m[name@][i as int] == op@);
        let ghost mut piece: Seq<char> = Seq::empty();
        match op {
            Function::FunctionCall(n) => {
                let idx = match p.find(n) {
                    None => {
                        return Err(PhronError::UnknownFunction { name: n.clone() });
                    },
                    Some(j) => j,
                };
                if chain_contains(chain, n) {
                    return Err(PhronError::RecursiveCall { name: n.clone() });
                }
                chain.push(n.clone());
                proof {
                    assert(names(chain@) =~= names(old(chain)@).push(n@));
                    lemma_push_to_set(names(old(chain)@), n@);
                    lemma_len_subset(visiting.insert(n@), m.dom());
                }
                let res = gen_function(p, idx, n, chain, init, out);
                proof {
                    if let Ok((c, _)) = gen(m, n@, 0, visiting.insert(n@), init_before) {
                        piece = c;
                    }
                }
                chain.pop();
                assert(chain@ =~= old(chain)@);
                match res {
                    Err(e) => {
                        return Err(e);
                    },
                    Ok(()) => {},
                }
            },
            _ => {
                proof {
                    if let Ok((c, _)) = fragment(op@, ops(body@), name@, i as nat, init_before) {
                        piece = c;
                    }
                }
                match emit_fragment(out, op, body, name, i, init) {
                    Err(e) => {
                        return Err(e);
                    },
                    Ok(()) => {},
                }
            },
        }
        proof {
            let code = out@.subrange(before.len() as int, out@.len() as int);
            assert(code =~= piece);
            assert(out@ =~= before + code);
            assert(gen(m, name@, i as nat, visiting, init_before) == prefixed(
                code,
                gen(m, name@, (i + 1) as nat, visiting, *init),
            ));
            match gen(m, name@, (i + 1) as nat, visiting, *init) {
                Ok((rest, b)) => {
                    assert(done + (code + rest) =~= (done + code) + rest);
                },
                Err(_) => {},
            }
            done = done + code;
            assert(out@ =~= start + done);
        }
        i = i + 1;
    }
    proof {
        assert(done + Seq::<char>::empty() =~= done);
    }
    Ok(())
}

/// Compiles the program to Brainfuck, starting from `main` and inlining
/// every call.
pub fn compile_program(program: &Program) -> (r: Result<String, PhronError>)
    ensures
        !program.functions_map().contains_key(main_name()) ==> r is Err && r->Err_0 is MissingMain,
        program.functions_map().contains_key(main_name()) ==> match compiled(
            program.functions_map(),
        ) {
            Ok(code) => r is Ok && r->Ok_0@ == code,
            Err(f) => r is Err && reports_gen(r->Err_0, f),
        },
{
    let main = String::from_str("main");
    let cur = match program.find(&main) {
        None => {
            return Err(PhronError::MissingMain);
        },
        Some(cur) => cur,
    };
    let mut chain: Vec<String> = Vec::new();
    chain.push(String::from_str("main"));
    proof {
        lemma_entries_map_finite(program.functions@);
        assert(names(chain@) =~= seq![main_name()]);
        assert(names(chain@).to_set() =~= set![main_name()]) by {
            assert(names(chain@)[0] == main_name());
        }
    }
    let mut init = false;
    let mut out = String::new();
    match gen_function(program, cur, &main, &mut chain, &mut init, &mut out) {
        Err(e) => Err(e),
        Ok(()) => {
            assert(out@ =~= Seq::<char>::empty() + out@);
            Ok(out)
        },
    }
}

} // verus!

verus! {

pub open spec fn step_of(c: char) -> int {
    if c == '>' {
        1
    } else if c == '<' {
        -1
    } else {
        0
    }
}

/// Net head movement of the first `n` characters of Brainfuck text: `>`
/// counts one up, `<` one down.
pub open spec fn disp_upto(s: Seq<char>, n: nat) -> int
    decreases n,
{
    if n == 0 {
        0
    } else {
        disp_upto(s, (n - 1) as nat) + step_of(s[n - 1])
    }
}

/// Net head movement of Brainfuck text.
pub open spec fn disp(s: Seq<char>) -> int {
    disp_upto(s, s.len())
}

proof fn lemma_disp_upto_concat(a: Seq<char>, b: Seq<char>, k: nat)
    requires
        k <= b.len(),
    ensures
        disp_upto(a + b, a.len() + k) == disp(a) + disp_upto(b, k),
    decreases k,
{
    if k == 0 {
        lemma_disp_upto_prefix(a, b, a.len());
    } else {
        lemma_disp_upto_concat(a, b, (k - 1) as nat);
        assert((a + b)[a.len() + k - 1] == b[k - 1]);
    }
}

proof fn lemma_disp_upto_prefix(a: Seq<char>, b: Seq<char>, n: nat)
    requires
        n <= a.len(),
    ensures
        disp_upto(a + b, n) == disp_upto(a, n),
    decreases n,
{
    if n > 0 {
        lemma_disp_upto_prefix(a, b, (n - 1) as nat);
        assert((a + b)[n - 1] == a[n - 1]);
    }
}

proof fn lemma_disp_concat(a: Seq<char>, b: Seq<char>)
    ensures
        disp(a + b) == disp(a) + disp(b),
{
    lemma_disp_upto_concat(a, b, b.len());
}

proof fn lemma_disp_repeat(c: char, n: nat)
    ensures
        disp(repeat(c, n)) == n * step_of(c),
    decreases n,
{
    if n > 0 {
        lemma_disp_repeat(c, (n - 1) as nat);
        assert(repeat(c, n) =~= repeat(c, (n - 1) as nat) + seq![c]);
        lemma_disp_concat(repeat(c, (n - 1) as nat), seq![c]);
        assert(disp(seq![c]) == step_of(c)) by {
            reveal_with_fuel(disp_upto, 2);
        }
        assert(n * step_of(c) == (n - 1) * step_of(c) + step_of(c)) by (nonlinear_arith);
    }
}

proof fn lemma_disp_literal(bytes: Seq<u8>)
    ensures
        disp(literal_code(bytes)) == bytes.len() + 1,
    decreases bytes.len(),
{
    if bytes.len() == 0 {
        assert(disp(seq!['>']) == 1) by {
            reveal_with_fuel(disp_upto, 2);
        }
    } else {
        lemma_disp_literal(bytes.drop_first());
        let a = literal_code(bytes.drop_first());
        lemma_disp_concat(a, seq!['>']);
        lemma_disp_concat(a + seq!['>'], repeat('+', bytes[0] as nat));
        lemma_disp_repeat('+', bytes[0] as nat);
        assert(disp(seq!['>']) == 1) by {
            reveal_with_fuel(disp_upto, 2);
        }
    }
}

proof fn lemma_disp_pop_code()
    ensures
        disp(POP_CODE@) == -1,
{
    reveal_strlit("[-]<");
    reveal_with_fuel(disp_upto, 5);
    assert(POP_CODE@ == "[-]<"@);
}

proof fn lemma_disp_plus_code()
    ensures
        disp(PLUS_CODE@) == -1,
{
    reveal_strlit("[<+>-]<");
    reveal_with_fuel(disp_upto, 8);
    assert(PLUS_CODE@ == "[<+>-]<"@);
}

proof fn lemma_disp_minus_code()
    ensures
        disp(MINUS_CODE@) == -1,
{
    reveal_strlit("[-<->]<");
    reveal_with_fuel(disp_upto, 8);
    assert(MINUS_CODE@ == "[-<->]<"@);
}

proof fn lemma_disp_mult_code()
    ensures
        disp(MULT_CODE@) == -1,
{
    reveal_strlit("<[->>+<<]>[->[->+<<<+>>]>[-<+>]<<]>[-]<<");
    reveal_with_fuel(disp_upto, 21);
    assert(MULT_CODE@ == "<[->>+<<]>[->[->+<<<+>>]>[-<+>]<<]>[-]<<"@);
    assert(disp_upto(MULT_CODE@, 20) == -1);
}

proof fn lemma_disp_charout_code()
    ensures
        disp(CHAROUT_CODE@) == -1,
{
    reveal_strlit(".[-]<");
    reveal_with_fuel(disp_upto, 6);
    assert(CHAROUT_CODE@ == ".[-]<"@);
}

proof fn lemma_disp_write_code()
    ensures
        disp(WRITE_CODE@) == -2,
{
    reveal_strlit(">+<<[->>>+[>[<-]<[->+<]>]>>>+>+<<<<+[<[>-]>[-<+>]<]<<<]>[->>+[>[<-]<[->+<]>]>>+<<+[<[>-]>[-<+>]<]<<]>>+[>[<-]<[->+<]>]>>>>[<[->>>>+<<<<]<[->>>>+<<<<]>>[>>>>+<<<<-]>>>>-]<<[->>>+<<<]>[[<<<<+>>>>-]<<<<-]<<<+[<[>-]>[-<+>]<]<-<<<");
    reveal_with_fuel(disp_upto, 21);
    assert(WRITE_CODE@ == ">+<<[->>>+[>[<-]<[->+<]>]>>>+>+<<<<+[<[>-]>[-<+>]<]<<<]>[->>+[>[<-]<[->+<]>]>>+<<+[<[>-]>[-<+>]<]<<]>>+[>[<-]<[->+<]>]>>>>[<[->>>>+<<<<]<[->>>>+<<<<]>>[>>>>+<<<<-]>>>>-]<<[->>>+<<<]>[[<<<<+>>>>-]<<<<-]<<<+[<[>-]>[-<+>]<]<-<<<"@);
    assert(disp_upto(WRITE_CODE@, 20) == 2);
    assert(disp_upto(WRITE_CODE@, 40) == 2);
    assert(disp_upto(WRITE_CODE@, 60) == 2);
    assert(disp_upto(WRITE_CODE@, 80) == 3);
    assert(disp_upto(WRITE_CODE@, 100) == 0);
    assert(disp_upto(WRITE_CODE@, 120) == 4);
    assert(disp_upto(WRITE_CODE@, 140) == 5);
    assert(disp_upto(WRITE_CODE@, 160) == 7);
    assert(disp_upto(WRITE_CODE@, 180) == 8);
    assert(disp_upto(WRITE_CODE@, 200) == 5);
    assert(disp_upto(WRITE_CODE@, 220) == 2);
}

proof fn lemma_disp_read_code()
    ensures
        disp(READ_CODE@) == 0,
{
    reveal_strlit(">+<[->>+[>[<-]<[->+<]>]>>>+>+<<<<+[<[>-]>[-<+>]<]<<]>>+[>[<-]<[->+<]>]>>>>[<[->>>>+<<<<]>[>>>>+<<<<-]>>>>-]>[-<+<<+>>>]<[->+<]<[<[-<<<<+>>>>]>[<<<<+>>>>-]<<<<-]<[-<<+[<[>-]>[-<+>]<]<<+>>+[>[<-]<[->+<]>]>>]<<+[<[>-]>[-<+>]<]<-<");
    reveal_with_fuel(disp_upto, 21);
    assert(READ_CODE@ == ">+<[->>+[>[<-]<[->+<]>]>>>+>+<<<<+[<[>-]>[-<+>]<]<<]>>+[>[<-]<[->+<]>]>>>>[<[->>>>+<<<<]>[>>>>+<<<<-]>>>>-]>[-<+<<+>>>]<[->+<]<[<[-<<<<+>>>>]>[<<<<+>>>>-]<<<<-]<[-<<+[<[>-]>[-<+>]<]<<+>>+[>[<-]<[->+<]>]>>]<<+[<[>-]>[-<+>]<]<-<"@);
    assert(disp_upto(READ_CODE@, 20) == 1);
    assert(disp_upto(READ_CODE@, 40) == 2);
    assert(disp_upto(READ_CODE@, 60) == 2);
    assert(disp_upto(READ_CODE@, 80) == 7);
    assert(disp_upto(READ_CODE@, 100) == 6);
    assert(disp_upto(READ_CODE@, 120) == 10);
    assert(disp_upto(READ_CODE@, 140) == 8);
    assert(disp_upto(READ_CODE@, 160) == 5);
    assert(disp_upto(READ_CODE@, 180) == 2);
    assert(disp_upto(READ_CODE@, 200) == 1);
    assert(disp_upto(READ_CODE@, 220) == 3);
}

proof fn lemma_disp_mem_code()
    ensures
        disp(MEM_CODE@) == 1,
{
    reveal_strlit(">");
    reveal_with_fuel(disp_upto, 2);
    assert(MEM_CODE@ == ">"@);
}

proof fn lemma_disp_dup_code()
    ensures
        disp(DUP_CODE@) == 1,
{
    reveal_strlit("[->+>+<<]>>[-<<+>>]<");
    reveal_with_fuel(disp_upto, 21);
    assert(DUP_CODE@ == "[->+>+<<]>>[-<<+>>]<"@);
}

proof fn lemma_disp_twodup_code()
    ensures
        disp(TWODUP_CODE@) == 2,
{
    reveal_strlit("<[->>+>>+<<<<]>[->>+>>+<<<<]>>>[-<<<<+>>>>]>[-<<<<+>>>>]<<");
    reveal_with_fuel(disp_upto, 21);
    assert(TWODUP_CODE@ == "<[->>+>>+<<<<]>[->>+>>+<<<<]>>>[-<<<<+>>>>]>[-<<<<+>>>>]<<"@);
    assert(disp_upto(TWODUP_CODE@, 20) == 2);
    assert(disp_upto(TWODUP_CODE@, 40) == 1);
}

proof fn lemma_disp_swap_code()
    ensures
        disp(SWAP_CODE@) == 0,
{
    reveal_strlit("<[->>+<<]>[-<+>]>[-<+>]<");
    reveal_with_fuel(disp_upto, 21);
    assert(SWAP_CODE@ == "<[->>+<<]>[-<+>]>[-<+>]<"@);
    assert(disp_upto(SWAP_CODE@, 20) == 0);
}

proof fn lemma_disp_not_code()
    ensures
        disp(NOT_CODE@) == 0,
{
    reveal_strlit(">[-]<-[>-<-]>[<+>-]<");
    reveal_with_fuel(disp_upto, 21);
    assert(NOT_CODE@ == ">[-]<-[>-<-]>[<+>-]<"@);
}

proof fn lemma_disp_open_code()
    ensures
        disp(OPEN_CODE@) == 0,
{
    reveal_strlit("[");
    reveal_with_fuel(disp_upto, 2);
    assert(OPEN_CODE@ == "["@);
}

proof fn lemma_disp_loop_end_code()
    ensures
        disp(LOOP_END_CODE@) == 0,
{
    reveal_strlit("]");
    reveal_with_fuel(disp_upto, 2);
    assert(LOOP_END_CODE@ == "]"@);
}

proof fn lemma_disp_block_end_code()
    ensures
        disp(BLOCK_END_CODE@) == -1,
{
    reveal_strlit("[-]]<");
    reveal_with_fuel(disp_upto, 6);
    assert(BLOCK_END_CODE@ == "[-]]<"@);
}
} // verus!

verus! {

/// How many cells an instruction's fragment adds to the stack region of the
/// tape. `if` keeps a copy of its condition on the stack until the `end` of
/// its block, which removes it; a loop's `end` leaves the stack as it is.
pub open spec fn depth_change(op: Op, body: Seq<Op>) -> int {
    match op {
        Op::Push(_) | Op::Mem | Op::Dup | Op::GetStackHeight | Op::If(_) => 1,
        Op::Pop | Op::Plus | Op::Minus | Op::Mult | Op::CharOut | Op::NumOut | Op::LessThan
        | Op::GreaterThan | Op::Equals => -1,
        Op::Write => -2,
        Op::TwoDup => 2,
        Op::End(Some(t)) => if t < body.len() && body[t as int] is While {
            0
        } else {
            -1
        },
        Op::StringLiteral(s) => encode_utf8(s).len() + 1int,
        _ => 0,
    }
}

/// For every instruction but the block ones and calls, the generator's
/// count of cells is the simulator's: a step that runs the instruction
/// changes the stack's length by exactly `depth_change`.
pub proof fn lemma_depth_change_agrees(p: Map<Seq<char>, Seq<Op>>, s: SimState, op: Op, body: Seq<Op>)
    requires
        !(op is If || op is Else || op is End || op is While || op is FunctionCall),
    ensures
        exec_op(p, s, op, body.len()) matches Next::Step(s2, _) ==> s2.stack.len() == s.stack.len()
            + depth_change(op, body),
{
}

/// Net displacement: every fragment that the generator emits, but that of
/// `numout`, moves the head by exactly the number of cells the instruction
/// adds to or removes from the stack.
pub proof fn lemma_fragment_displacement(op: Op, body: Seq<Op>, name: Seq<char>, i: nat, init: bool)
    requires
        !(op is NumOut),
    ensures
        fragment(op, body, name, i, init) matches Ok((code, _)) ==> (code.len() > 0 ==> disp(code)
            == depth_change(op, body)),
{
    match op {
        Op::Push(n) => {
            lemma_disp_concat(seq!['>'], repeat('+', n as nat));
            lemma_disp_repeat('+', n as nat);
            assert(disp(seq!['>']) == 1) by {
                reveal_with_fuel(disp_upto, 2);
            }
        },
        Op::Pop => lemma_disp_pop_code(),
        Op::Plus => lemma_disp_plus_code(),
        Op::Minus => lemma_disp_minus_code(),
        Op::Mult => lemma_disp_mult_code(),
        Op::CharOut => lemma_disp_charout_code(),
        Op::Write => lemma_disp_write_code(),
        Op::Read => lemma_disp_read_code(),
        Op::Mem => lemma_disp_mem_code(),
        Op::InitMem => {
            let a = repeat('>', MEMORY_OFFSET as nat);
            let b = repeat('+', MEMORY_MARK as nat);
            let c = repeat('<', MEMORY_OFFSET as nat);
            lemma_disp_repeat('>', MEMORY_OFFSET as nat);
            lemma_disp_repeat('+', MEMORY_MARK as nat);
            lemma_disp_repeat('<', MEMORY_OFFSET as nat);
            lemma_disp_concat(a, b);
            lemma_disp_concat(a + b, c);
        },
        Op::If(_) => {
            lemma_disp_dup_code();
            lemma_disp_open_code();
            lemma_disp_concat(DUP_CODE@, OPEN_CODE@);
        },
        Op::End(_) => {
            lemma_disp_block_end_code();
            lemma_disp_loop_end_code();
        },
        Op::Else(_) => {
            lemma_disp_block_end_code();
            lemma_disp_dup_code();
            lemma_disp_not_code();
            lemma_disp_open_code();
            lemma_disp_concat(BLOCK_END_CODE@, DUP_CODE@);
            lemma_disp_concat(BLOCK_END_CODE@ + DUP_CODE@, NOT_CODE@);
            lemma_disp_concat(BLOCK_END_CODE@ + DUP_CODE@ + NOT_CODE@, OPEN_CODE@);
        },
        Op::While(_) => lemma_disp_open_code(),
        Op::Swap => lemma_disp_swap_code(),
        Op::Dup => lemma_disp_dup_code(),
        Op::TwoDup => lemma_disp_twodup_code(),
        Op::Not => lemma_disp_not_code(),
        Op::StringLiteral(s) => lemma_disp_literal(encode_utf8(s)),
        _ => {},
    }
}

} // verus!
