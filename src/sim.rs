use vstd::prelude::*;
use vstd::utf8::encode_utf8;

use crate::error::PhronError;
use crate::instr::{ops, Function, Op};
use crate::program::Program;
use crate::text::{decimal, push_char, push_decimal};

verus! {

/// Cells of the operand stack's array; cell 0 is never used.
pub const STACK_SIZE: usize = 29744;

/// The most values the operand stack holds at once.
pub open spec fn capacity() -> nat {
    (STACK_SIZE - 1) as nat
}

/// The operand stack: values sit in `data[1..=top]`, the top at `data[top]`.
#[derive(Debug)]
pub struct Stack {
    pub data: [u8; STACK_SIZE],
    pub top: usize,
}

impl View for Stack {
    type V = Seq<u8>;

    open spec fn view(&self) -> Seq<u8> {
        self.data@.subrange(1, self.top as int + 1)
    }
}

impl Stack {
    pub open spec fn wf(&self) -> bool {
        self.top < STACK_SIZE
    }

    pub fn new() -> (r: Stack)
        ensures
            r.wf(),
            r@ == Seq::<u8>::empty(),
    {
        let r = Stack { data: [0u8; STACK_SIZE], top: 0 };
        assert(r@ =~= Seq::<u8>::empty());
        r
    }

    pub fn push(&mut self, byte: u8)
        requires
            old(self).wf(),
            old(self)@.len() < capacity(),
        ensures
            final(self).wf(),
            final(self)@ == old(self)@.push(byte),
    {
        self.top = self.top + 1;
        self.data[self.top] = byte;
        assert(self@ =~= old(self)@.push(byte));
    }

    pub fn pop(&mut self) -> (r: u8)
        requires
            old(self).wf(),
            old(self)@.len() >= 1,
        ensures
            final(self).wf(),
            r == old(self)@.last(),
            final(self)@ == old(self)@.drop_last(),
    {
        let byte = self.data[self.top];
        self.top = self.top - 1;
        assert(self@ =~= old(self)@.drop_last());
        byte
    }

    /// The value on top, left in place.
    pub fn peek(&self) -> (r: u8)
        requires
            self.wf(),
            self@.len() >= 1,
        ensures
            r == self@.last(),
    {
        self.data[self.top]
    }
}

/// Something a step prints: a byte as a character, or as a decimal number.
#[derive(Debug, Clone, Copy, PartialEq, Eq)]
pub enum Emit {
    Char(u8),
    Number(u8),
}

/// The text that an emitted value prints as.
pub open spec fn emit_text(e: Option<Emit>) -> Seq<char> {
    match e {
        None => Seq::empty(),
        Some(Emit::Char(b)) => seq![b as char],
        Some(Emit::Number(n)) => decimal(n),
    }
}

/// The whole state of the abstract stack machine.
pub struct SimState {
    pub stack: Seq<u8>,
    pub memory: Seq<u8>,
    /// Return points: the calling function and the index of its call.
    pub calls: Seq<(Seq<char>, nat)>,
    pub func: Seq<char>,
    pub pc: nat,
}

/// Why a run stops before its end.
pub enum Fault {
    StackUnderflow,
    StackOverflow,
    UnknownFunction(Seq<char>),
    BadJump,
    Unreachable,
}

/// What one step does.
pub enum Next {
    Halt,
    Step(SimState, Option<Emit>),
    Fail(Fault),
}

pub open spec fn main_name() -> Seq<char> {
    "main"@
}

pub open spec fn initial_state() -> SimState {
    SimState {
        stack: Seq::empty(),
        memory: Seq::new(256, |i: int| 0u8),
        calls: Seq::empty(),
        func: main_name(),
        pc: 0,
    }
}

/// The run is over: the current body is finished and there is no caller to
/// go back to, or the current function is `main`.
pub open spec fn halted(p: Map<Seq<char>, Seq<Op>>, s: SimState) -> bool {
    s.pc >= p[s.func].len() && (s.func == main_name() || s.calls.len() == 0)
}

pub open spec fn wrap(x: int) -> u8 {
    (((x % 256) + 256) % 256) as u8
}

pub open spec fn flag(b: bool) -> u8 {
    if b {
        1
    } else {
        0
    }
}

/// The next instruction with the stack replaced.
pub open spec fn advance(s: SimState, stack: Seq<u8>) -> Next {
    Next::Step(SimState { stack, pc: s.pc + 1, ..s }, None)
}

pub open spec fn jump(s: SimState, t: Option<usize>, len: nat) -> Next {
    match t {
        Some(t) => if t <= len {
            Next::Step(SimState { pc: t as nat, ..s }, None)
        } else {
            Next::Fail(Fault::BadJump)
        },
        None => Next::Fail(Fault::BadJump),
    }
}

/// Pops `b` (the top) and `a` (below it), pushes `f(a, b)`.
pub open spec fn binary(s: SimState, f: spec_fn(u8, u8) -> u8) -> Next {
    let v = s.stack;
    if v.len() >= 2 {
        advance(s, v.drop_last().drop_last().push(f(v[v.len() - 2], v.last())))
    } else {
        Next::Fail(Fault::StackUnderflow)
    }
}

/// Pushes `b` when there is room.
pub open spec fn push_one(s: SimState, b: u8) -> Next {
    if s.stack.len() < capacity() {
        advance(s, s.stack.push(b))
    } else {
        Next::Fail(Fault::StackOverflow)
    }
}

/// A byte string in reverse order.
pub open spec fn reversed(b: Seq<u8>) -> Seq<u8> {
    Seq::new(b.len(), |k: int| b[b.len() - 1 - k])
}

/// What executing `op`, the instruction at `s.pc` of a body of length `len`,
/// does.
pub open spec fn exec_op(p: Map<Seq<char>, Seq<Op>>, s: SimState, op: Op, len: nat) -> Next {
    let v = s.stack;
    match op {
        Op::Push(n) => push_one(s, n),
        Op::Pop => if v.len() >= 1 {
            advance(s, v.drop_last())
        } else {
            Next::Fail(Fault::StackUnderflow)
        },
        Op::Plus => binary(s, |a: u8, b: u8| wrap(a + b)),
        Op::Minus => binary(s, |a: u8, b: u8| wrap(a - b)),
        Op::Mult => binary(s, |a: u8, b: u8| wrap(a * b)),
        Op::CharOut => if v.len() >= 1 {
            Next::Step(SimState { stack: v.drop_last(), pc: s.pc + 1, ..s }, Some(Emit::Char(v.last())))
        } else {
            Next::Fail(Fault::StackUnderflow)
        },
        Op::NumOut => if v.len() >= 1 {
            Next::Step(
                SimState { stack: v.drop_last(), pc: s.pc + 1, ..s },
                Some(Emit::Number(v.last())),
            )
        } else {
            Next::Fail(Fault::StackUnderflow)
        },
        Op::Mem => push_one(s, 0),
        Op::InitMem => advance(s, v),
        Op::Write => if v.len() >= 2 {
            Next::Step(
                SimState {
                    stack: v.drop_last().drop_last(),
                    memory: s.memory.update(v[v.len() - 2] as int, v.last()),
                    pc: s.pc + 1,
                    ..s
                },
                None,
            )
        } else {
            Next::Fail(Fault::StackUnderflow)
        },
        Op::Read => if v.len() >= 1 {
            advance(s, v.drop_last().push(s.memory[v.last() as int]))
        } else {
            Next::Fail(Fault::StackUnderflow)
        },
        Op::If(t) | Op::While(t) => if v.len() >= 1 {
            if v.last() == 0 {
                jump(s, t, len)
            } else {
                advance(s, v)
            }
        } else {
            Next::Fail(Fault::StackUnderflow)
        },
        Op::Else(t) | Op::End(t) => jump(s, t, len),
        Op::LessThan => binary(s, |a: u8, b: u8| flag(a < b)),
        Op::GreaterThan => binary(s, |a: u8, b: u8| flag(a > b)),
        Op::Equals => binary(s, |a: u8, b: u8| flag(a == b)),
        Op::Swap => if v.len() >= 2 {
            advance(s, v.drop_last().drop_last().push(v.last()).push(v[v.len() - 2]))
        } else {
            Next::Fail(Fault::StackUnderflow)
        },
        Op::Dup => if v.len() >= 1 {
            push_one(s, v.last())
        } else {
            Next::Fail(Fault::StackUnderflow)
        },
        Op::TwoDup => if v.len() >= 2 {
            if v.len() + 2 <= capacity() {
                advance(s, v.push(v[v.len() - 2]).push(v.last()))
            } else {
                Next::Fail(Fault::StackOverflow)
            }
        } else {
            Next::Fail(Fault::StackUnderflow)
        },
        Op::GetStackHeight => push_one(s, wrap(v.len() as int)),
        Op::Not => if v.len() >= 1 {
            advance(s, v.drop_last().push(wrap(1 - v.last())))
        } else {
            Next::Fail(Fault::StackUnderflow)
        },
        Op::FunctionCall(n) => if p.contains_key(n) {
            Next::Step(
                SimState { calls: s.calls.push((s.func, s.pc)), func: n, pc: 0, ..s },
                None,
            )
        } else {
            Next::Fail(Fault::UnknownFunction(n))
        },
        Op::StringLiteral(text) => {
            let bytes = encode_utf8(text);
            if v.len() + bytes.len() + 1 <= capacity() {
                advance(s, v.push(0) + reversed(bytes))
            } else {
                Next::Fail(Fault::StackOverflow)
            }
        },
        Op::FunctionDeclaration(_) | Op::Import(_) => Next::Fail(Fault::Unreachable),
    }
}

/// One step: run the instruction at `pc`, or, past the end of a called
/// function, go back to the instruction after its call.
#[verifier::opaque]
pub open spec fn step(p: Map<Seq<char>, Seq<Op>>, s: SimState) -> Next {
    let body = p[s.func];
    if s.pc >= body.len() {
        if s.func == main_name() || s.calls.len() == 0 {
            Next::Halt
        } else {
            let c = s.calls.last();
            Next::Step(SimState { calls: s.calls.drop_last(), func: c.0, pc: c.1 + 1, ..s }, None)
        }
    } else {
        exec_op(p, s, body[s.pc as int], body.len())
    }
}

/// How a run of at most some number of steps ends.
pub enum RunEnd {
    Halted(Seq<char>),
    Failed(Fault),
    Exhausted,
}

pub open spec fn after_output(out: Seq<char>, r: RunEnd) -> RunEnd {
    match r {
        RunEnd::Halted(rest) => RunEnd::Halted(out + rest),
        _ => r,
    }
}

/// Runs from `s` for at most `fuel` steps; a halted run carries all it
/// printed.
pub open spec fn run(p: Map<Seq<char>, Seq<Op>>, s: SimState, fuel: nat) -> RunEnd
    decreases fuel,
{
    if halted(p, s) {
        RunEnd::Halted(Seq::empty())
    } else if fuel == 0 {
        RunEnd::Exhausted
    } else {
        match step(p, s) {
            Next::Halt => RunEnd::Halted(Seq::empty()),
            Next::Fail(f) => RunEnd::Failed(f),
            Next::Step(s2, e) => after_output(emit_text(e), run(p, s2, (fuel - 1) as nat)),
        }
    }
}

/// The error that reports a fault.
pub open spec fn reports(e: PhronError, f: Fault) -> bool {
    match f {
        Fault::StackUnderflow => e is StackUnderflow,
        Fault::StackOverflow => e is StackOverflow,
        Fault::UnknownFunction(n) => e matches PhronError::UnknownFunction { name } && name@ == n,
        Fault::BadJump => e is BadJump,
        Fault::Unreachable => e is Unreachable,
    }
}

} // verus!

verus! {

/// The stack machine that runs a program instruction by instruction.
pub struct Machine {
    pub stack: Stack,
    pub memory: [u8; 256],
    /// Return points: the calling function's name and the index of its call.
    pub calls: Vec<(String, usize)>,
    pub func: String,
    pub pc: usize,
    /// Where the current function's definition sits in the program.
    pub cur: usize,
}

pub open spec fn calls_view(calls: Seq<(String, usize)>) -> Seq<(Seq<char>, nat)> {
    calls.map_values(|c: (String, usize)| (c.0@, c.1 as nat))
}

/// A step's result agrees with what the step does.
pub open spec fn follows(new: SimState, r: Result<Option<Emit>, PhronError>, n: Next) -> bool {
    match n {
        Next::Step(s2, e) => r is Ok && r->Ok_0 == e && new == s2,
        Next::Fail(f) => r is Err && reports(r->Err_0, f),
        Next::Halt => false,
    }
}

impl View for Machine {
    type V = SimState;

    open spec fn view(&self) -> SimState {
        SimState {
            stack: self.stack@,
            memory: self.memory@,
            calls: calls_view(self.calls@),
            func: self.func@,
            pc: self.pc as nat,
        }
    }
}

fn main_string() -> (r: String)
    ensures
        r@ == main_name(),
{
    String::from_str("main")
}

impl Machine {
    /// The machine is in a state of a run of `p`.
    pub open spec fn inv(&self, p: &Program) -> bool {
        let m = p.functions_map();
        &&& self.stack.wf()
        &&& self.cur < p.functions@.len()
        &&& p.functions@[self.cur as int].0@ == self.func@
        &&& m.contains_key(self.func@)
        &&& m[self.func@] == ops(p.functions@[self.cur as int].1@)
        &&& self.pc <= m[self.func@].len()
        &&& forall|k: int|
            0 <= k < self.calls@.len() ==> {
                &&& #[trigger] m.contains_key(self.calls@[k].0@)
                &&& self.calls@[k].1 < m[self.calls@[k].0@].len()
            }
    }

    /// A machine at the start of `main`, or `MissingMain`.
    pub fn new(p: &Program) -> (r: Result<Machine, PhronError>)
        ensures
            match r {
                Ok(m) => p.functions_map().contains_key(main_name()) && m@ == initial_state()
                    && m.inv(p),
                Err(e) => !p.functions_map().contains_key(main_name()) && e is MissingMain,
            },
    {
        let name = main_string();
        match p.find(&name) {
            None => Err(PhronError::MissingMain),
            Some(cur) => {
                let m = Machine {
                    stack: Stack::new(),
                    memory: [0u8; 256],
                    calls: Vec::new(),
                    func: name,
                    pc: 0,
                    cur,
                };
                assert(m.memory@ =~= Seq::new(256, |i: int| 0u8));
                assert(calls_view(m.calls@) =~= Seq::empty());
                Ok(m)
            },
        }
    }

    /// Whether the run is over.
    pub fn is_halted(&self, p: &Program) -> (r: bool)
        requires
            self.inv(p),
        ensures
            r == halted(p.functions_map(), self@),
    {
        let len = p.functions[self.cur].1.len();
        if self.pc < len {
            return false;
        }
        let name = main_string();
        self.func == name || self.calls.len() == 0
    }

    fn jump(&mut self, p: &Program, t: Option<usize>, len: usize) -> (r: Result<Option<Emit>, PhronError>)
        requires
            old(self).inv(p),
            len == p.functions_map()[old(self).func@].len(),
        ensures
            r is Ok ==> final(self).inv(p),
            follows(final(self)@, r, jump(old(self)@, t, len as nat)),
            final(self).stack == old(self).stack,
            final(self).memory == old(self).memory,
            final(self).calls == old(self).calls,
            final(self).func == old(self).func,
            final(self).cur == old(self).cur,
            r is Ok ==> final(self).pc <= len,
    {
        match t {
            Some(t) => {
                if t <= len {
                    self.pc = t;
                    Ok(None)
                } else {
                    Err(PhronError::BadJump)
                }
            },
            None => Err(PhronError::BadJump),
        }
    }

    /// Goes back to the instruction after the call of the finished function.
    fn ret(&mut self, p: &Program) -> (r: Result<Option<Emit>, PhronError>)
        requires
            old(self).inv(p),
            old(self).pc >= p.functions_map()[old(self).func@].len(),
            old(self).func@ != main_name(),
            old(self).calls@.len() > 0,
        ensures
            follows(final(self)@, r, step(p.functions_map(), old(self)@)),
            r is Ok ==> final(self).inv(p),
    {
        let ghost m = p.functions_map();
        proof {
            reveal(step);
        }
        let c = self.calls.pop().unwrap();
        assert(calls_view(self.calls@) =~= calls_view(old(self).calls@).drop_last());
        let ghost k = old(self).calls@.len() - 1;
        assert(old(self).calls@.last() == old(self).calls@[k]);
        assert(m.contains_key(old(self).calls@[k].0@));
        let cur = p.find(&c.0).unwrap();
        let len = p.functions[cur].1.len();
        assert(ops(p.functions@[cur as int].1@).len() == len);
        self.cur = cur;
        self.func = c.0;
        self.pc = c.1 + 1;
        Ok(None)
    }

    /// Enters the function `name`, called from the current instruction.
    fn call(&mut self, p: &Program, name: &String) -> (r: Result<Option<Emit>, PhronError>)
        requires
            old(self).inv(p),
            old(self).pc < p.functions_map()[old(self).func@].len(),
            p.functions_map()[old(self).func@][old(self).pc as int] == Op::FunctionCall(name@),
        ensures
            follows(final(self)@, r, step(p.functions_map(), old(self)@)),
            r is Ok ==> final(self).inv(p),
    {
        let ghost m = p.functions_map();
        proof {
            reveal(step);
        }
        match p.find(name) {
            None => Err(PhronError::UnknownFunction { name: name.clone() }),
            Some(cur) => {
                let caller = self.func.clone();
                self.calls.push((caller, self.pc));
                assert(calls_view(self.calls@) =~= calls_view(old(self).calls@).push(
                    (old(self).func@, old(self).pc as nat),
                ));
                assert forall|k: int| 0 <= k < self.calls@.len() implies {
                    &&& #[trigger] m.contains_key(self.calls@[k].0@)
                    &&& self.calls@[k].1 < m[self.calls@[k].0@].len()
                } by {
                    if k < old(self).calls@.len() {
                        assert(self.calls@[k] == old(self).calls@[k]);
                    }
                }
                self.func = name.clone();
                self.cur = cur;
                self.pc = 0;
                Ok(None)
            },
        }
    }

    /// Runs an instruction that only works on the stack and the memory.
    #[verifier::rlimit(40)]
    fn data_op(&mut self, op: &Function, Ghost(m): Ghost<Map<Seq<char>, Seq<Op>>>, Ghost(len): Ghost<nat>) -> (r: Result<Option<Emit>, PhronError>)
        requires
            old(self).stack.wf(),
            old(self).pc < len,
            len <= usize::MAX,
            !(op is If || op is While || op is Else || op is End || op is FunctionCall),
        ensures
            follows(final(self)@, r, exec_op(m, old(self)@, op@, len)),
            final(self).calls == old(self).calls,
            final(self).func == old(self).func,
            final(self).cur == old(self).cur,
            r is Ok ==> final(self).stack.wf() && final(self).pc == old(self).pc + 1,
    {
        let top = self.stack.top;
        let ghost v = self.stack@;
        let mut emit: Option<Emit> = None;
        match op {
            Function::Push(n) => {
                if top >= STACK_SIZE - 1 {
                    return Err(PhronError::StackOverflow);
                }
                self.stack.push(*n);
            },
            Function::Pop() => {
                if top < 1 {
                    return Err(PhronError::StackUnderflow);
                }
                self.stack.pop();
            },
            Function::Plus() | Function::Minus() | Function::Mult() | Function::LessThan()
            | Function::GreaterThan() | Function::Equals() => {
                if top < 2 {
                    return Err(PhronError::StackUnderflow);
                }
                let b = self.stack.pop();
                let a = self.stack.pop();
                assert(a == v[v.len() - 2]);
                self.stack.push(combine(op, a, b));
            },
            Function::CharOut() => {
                if top < 1 {
                    return Err(PhronError::StackUnderflow);
                }
                emit = Some(Emit::Char(self.stack.pop()));
            },
            Function::NumOut() => {
                if top < 1 {
                    return Err(PhronError::StackUnderflow);
                }
                emit = Some(Emit::Number(self.stack.pop()));
            },
            Function::Mem() => {
                if top >= STACK_SIZE - 1 {
                    return Err(PhronError::StackOverflow);
                }
                self.stack.push(0);
            },
            Function::InitMem() => {},
            Function::Write() => {
                if top < 2 {
                    return Err(PhronError::StackUnderflow);
                }
                let a = self.stack.pop();
                let b = self.stack.pop();
                assert(b == v[v.len() - 2]);
                self.memory[b as usize] = a;
                assert(self.memory@ =~= old(self).memory@.update(b as int, a));
            },
            Function::Read() => {
                if top < 1 {
                    return Err(PhronError::StackUnderflow);
                }
                let a = self.stack.pop();
                self.stack.push(self.memory[a as usize]);
            },
            Function::Swap() => {
                if top < 2 {
                    return Err(PhronError::StackUnderflow);
                }
                let a = self.stack.pop();
                let b = self.stack.pop();
                assert(b == v[v.len() - 2]);
                self.stack.push(a);
                self.stack.push(b);
            },
            Function::Dup() => {
                if top < 1 {
                    return Err(PhronError::StackUnderflow);
                }
                if top >= STACK_SIZE - 1 {
                    return Err(PhronError::StackOverflow);
                }
                let a = self.stack.peek();
                self.stack.push(a);
            },
            Function::TwoDup() => {
                if top < 2 {
                    return Err(PhronError::StackUnderflow);
                }
                if top + 2 > STACK_SIZE - 1 {
                    return Err(PhronError::StackOverflow);
                }
                let a = self.stack.pop();
                let b = self.stack.pop();
                assert(b == v[v.len() - 2]);
                self.stack.push(b);
                self.stack.push(a);
                assert(self.stack@ =~= v);
                self.stack.push(b);
                self.stack.push(a);
            },
            Function::GetStackHeight() => {
                if top >= STACK_SIZE - 1 {
                    return Err(PhronError::StackOverflow);
                }
                assert(wrap(top as int) == (top % 256) as u8);
                self.stack.push((top % 256) as u8);
            },
            Function::Not() => {
                if top < 1 {
                    return Err(PhronError::StackUnderflow);
                }
                let a = self.stack.pop();
                assert(wrap(1 - a) == ((257 - a as u16) % 256) as u8);
                self.stack.push(((257 - a as u16) % 256) as u8);
            },
            Function::StringLiteral(text) => {
                self.push_string(text)?;
            },
            Function::FunctionDeclaration(_) | Function::Import(_) => {
                return Err(PhronError::Unreachable);
            },
            _ => {
                return Err(PhronError::Unreachable);
            },
        }
        self.pc = self.pc + 1;
        Ok(emit)
    }

    /// Pushes a terminating zero, then the string's bytes from last to first.
    fn push_string(&mut self, text: &String) -> (r: Result<(), PhronError>)
        requires
            old(self).stack.wf(),
        ensures
            final(self).stack.wf(),
            final(self).pc == old(self).pc,
            final(self).memory == old(self).memory,
            final(self).calls == old(self).calls,
            final(self).func == old(self).func,
            final(self).cur == old(self).cur,
            ({
                let bytes = encode_utf8(text@);
                if old(self)@.stack.len() + bytes.len() + 1 <= capacity() {
                    r is Ok && final(self)@.stack == old(self)@.stack.push(0) + reversed(bytes)
                } else {
                    r is Err && r->Err_0 is StackOverflow
                }
            }),
    {
        let bytes = text.as_str().as_bytes();
        let n = bytes.len();
        let top = self.stack.top;
        if n >= STACK_SIZE - 1 || top + n + 1 > STACK_SIZE - 1 {
            return Err(PhronError::StackOverflow);
        }
        let ghost base = self.stack@;
        self.stack.push(0);
        let mut i: usize = n;
        while i > 0
            invariant
                i <= n,
                n == bytes@.len(),
                self.stack.wf(),
                base.len() + n + 1 <= capacity(),
                self.pc == old(self).pc,
                self.memory == old(self).memory,
                self.calls == old(self).calls,
                self.func == old(self).func,
                self.cur == old(self).cur,
                self.stack@ == base.push(0) + Seq::new((n - i) as nat, |k: int| bytes@[n - 1 - k]),
            decreases i,
        {
            self.stack.push(bytes[i - 1]);
            i = i - 1;
            assert(self.stack@ =~= base.push(0) + Seq::new(
                (n - i) as nat,
                |k: int| bytes@[n - 1 - k],
            ));
        }
        assert(self.stack@ =~= base.push(0) + reversed(bytes@));
        Ok(())
    }

    fn next(&mut self, p: &Program)
        requires
            old(self).inv(p),
            old(self).pc < p.functions_map()[old(self).func@].len(),
        ensures
            final(self).inv(p),
            final(self)@ == (SimState { pc: old(self)@.pc + 1, ..old(self)@ }),
    {
        let len = p.functions[self.cur].1.len();
        assert(ops(p.functions@[self.cur as int].1@).len() == len);
        self.pc = self.pc + 1;
    }

    /// Runs one step of `p`.
    pub fn step(&mut self, p: &Program) -> (r: Result<Option<Emit>, PhronError>)
        requires
            old(self).inv(p),
            !halted(p.functions_map(), old(self)@),
        ensures
            follows(final(self)@, r, step(p.functions_map(), old(self)@)),
            r is Ok ==> final(self).inv(p),
    {
        let ghost m = p.functions_map();
        proof {
            reveal(step);
        }
        let body = &p.functions[self.cur].1;
        let len = body.len();
        assert(m[self.func@] == ops(body@));
        assert(m[self.func@].len() == len);
        if self.pc >= len {
            return self.ret(p);
        }
        let op = &body[self.pc];
        assert(op@ == m[self.func@][self.pc as int]);
        match op {
            Function::If(t) | Function::While(t) => {
                if self.stack.top < 1 {
                    return Err(PhronError::StackUnderflow);
                }
                if self.stack.peek() == 0 {
                    self.jump(p, *t, len)
                } else {
                    self.next(p);
                    Ok(None)
                }
            },
            Function::Else(t) | Function::End(t) => self.jump(p, *t, len),
            Function::FunctionCall(name) => self.call(p, name),
            _ => self.data_op(op, Ghost(m), Ghost(len as nat)),
        }
    }
}

/// The result of an operator that combines two values, `b` having been on
/// top.
fn combine(op: &Function, a: u8, b: u8) -> (r: u8)
    requires
        op is Plus || op is Minus || op is Mult || op is LessThan || op is GreaterThan
            || op is Equals,
    ensures
        op is Plus ==> r == wrap(a + b),
        op is Minus ==> r == wrap(a - b),
        op is Mult ==> r == wrap(a * b),
        op is LessThan ==> r == flag(a < b),
        op is GreaterThan ==> r == flag(a > b),
        op is Equals ==> r == flag(a == b),
{
    match op {
        Function::Plus() => ((a as u16 + b as u16) % 256) as u8,
        Function::Minus() => ((a as u16 + 256 - b as u16) % 256) as u8,
        Function::Mult() => {
            assert(a as u32 * b as u32 <= 65025) by (nonlinear_arith)
                requires
                    a < 256,
                    b < 256,
            ;
            ((a as u32 * b as u32) % 256) as u8
        },
        Function::LessThan() => if a < b { 1 } else { 0 },
        Function::GreaterThan() => if a > b { 1 } else { 0 },
        _ => if a == b { 1 } else { 0 },
    }
}

} // verus!

verus! {

proof fn lemma_after_output_concat(a: Seq<char>, b: Seq<char>, r: RunEnd)
    ensures
        after_output(a, after_output(b, r)) == after_output(a + b, r),
{
    match r {
        RunEnd::Halted(rest) => {
            assert(a + (b + rest) =~= (a + b) + rest);
        },
        _ => {},
    }
}

proof fn lemma_run_step(p: Map<Seq<char>, Seq<Op>>, s: SimState, fuel: nat)
    requires
        !halted(p, s),
        fuel > 0,
    ensures
        step(p, s) matches Next::Step(s2, e) ==> run(p, s, fuel) == after_output(
            emit_text(e),
            run(p, s2, (fuel - 1) as nat),
        ),
        step(p, s) matches Next::Fail(f) ==> run(p, s, fuel) == RunEnd::Failed(f),
{
    reveal(step);
}

/// Runs `program` from the start of `main` for at most `max_steps` steps
/// and returns everything it printed.
pub fn simulate_program(program: &Program, max_steps: u64) -> (r: Result<String, PhronError>)
    ensures
        !program.functions_map().contains_key(main_name()) ==> r is Err && r->Err_0 is MissingMain,
        program.functions_map().contains_key(main_name()) ==> match run(
            program.functions_map(),
            initial_state(),
            max_steps as nat,
        ) {
            RunEnd::Halted(out) => r is Ok && r->Ok_0@ == out,
            RunEnd::Failed(f) => r is Err && reports(r->Err_0, f),
            RunEnd::Exhausted => r is Err && r->Err_0 is StepLimit,
        },
{
    let ghost p = program.functions_map();
    let mut m = match Machine::new(program) {
        Ok(m) => m,
        Err(e) => {
            return Err(e);
        },
    };
    let mut out = String::new();
    let mut fuel = max_steps;
    assert(out@ + Seq::<char>::empty() =~= out@);
    while !m.is_halted(program)
        invariant
            m.inv(program),
            p == program.functions_map(),
            p.contains_key(main_name()),
            run(p, initial_state(), max_steps as nat) == after_output(out@, run(p, m@, fuel as nat)),
        decreases fuel,
    {
        if fuel == 0 {
            return Err(PhronError::StepLimit);
        }
        let ghost before = m@;
        let e = match m.step(program) {
            Ok(e) => e,
            Err(err) => {
                proof {
                    lemma_run_step(p, before, fuel as nat);
                }
                return Err(err);
            },
        };
        let ghost old_out = out@;
        match e {
            Some(Emit::Char(b)) => push_char(&mut out, b as char),
            Some(Emit::Number(n)) => push_decimal(&mut out, n),
            None => {},
        }
        assert(out@ =~= old_out + emit_text(e));
        fuel = fuel - 1;
        proof {
            lemma_run_step(p, before, fuel as nat + 1);
            lemma_after_output_concat(old_out, emit_text(e), run(p, m@, fuel as nat));
        }
    }
    assert(out@ + Seq::<char>::empty() =~= out@);
    Ok(out)
}

/// The state after `n` steps from `s`, unless the run halts or fails first.
pub open spec fn after_steps(p: Map<Seq<char>, Seq<Op>>, s: SimState, n: nat) -> Option<SimState>
    decreases n,
{
    if n == 0 {
        Some(s)
    } else {
        match step(p, s) {
            Next::Step(s2, _) => after_steps(p, s2, (n - 1) as nat),
            _ => None,
        }
    }
}

/// A step never takes the stack past its capacity: an instruction that
/// needs more room, or more values than the stack holds, fails instead.
pub proof fn lemma_step_keeps_stack_bounded(p: Map<Seq<char>, Seq<Op>>, s: SimState)
    requires
        s.stack.len() <= capacity(),
    ensures
        step(p, s) matches Next::Step(s2, _) ==> s2.stack.len() <= capacity(),
{
    reveal(step);
}

/// Stack discipline: in every state that a run of any program reaches, the
/// stack holds between zero and `capacity()` values.
pub proof fn lemma_stack_discipline(p: Map<Seq<char>, Seq<Op>>, n: nat)
    ensures
        after_steps(p, initial_state(), n) matches Some(s) ==> s.stack.len() <= capacity(),
{
    lemma_bounded_from(p, initial_state(), n);
}

proof fn lemma_bounded_from(p: Map<Seq<char>, Seq<Op>>, s: SimState, n: nat)
    requires
        s.stack.len() <= capacity(),
    ensures
        after_steps(p, s, n) matches Some(t) ==> t.stack.len() <= capacity(),
    decreases n,
{
    if n > 0 {
        lemma_step_keeps_stack_bounded(p, s);
        if let Next::Step(s2, _) = step(p, s) {
            lemma_bounded_from(p, s2, (n - 1) as nat);
        }
    }
}

} // verus!
