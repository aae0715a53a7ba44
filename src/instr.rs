use vstd::prelude::*;

verus! {

/// One instruction of a Phronima program.
///
/// The block instructions (`If`, `Else`, `End`, `While`) carry the index of
/// their jump target inside the enclosing function body, filled in by
/// block resolution.
#[derive(Debug, PartialEq, Clone)]
pub enum Function {
    Push(u8),
    Pop(),
    Plus(),
    Minus(),
    Mult(),
    NumOut(),
    CharOut(),
    Write(),
    Read(),
    Mem(),
    InitMem(),
    If(Option<usize>),
    End(Option<usize>),
    Else(Option<usize>),
    While(Option<usize>),
    LessThan(),
    GreaterThan(),
    Equals(),
    Swap(),
    Dup(),
    TwoDup(),
    GetStackHeight(),
    Not(),
    FunctionDeclaration(String),
    FunctionCall(String),
    StringLiteral(String),
    Import(String),
}

/// The mathematical value of an instruction: names and string contents are
/// sequences of characters.
pub enum Op {
    Push(u8),
    Pop,
    Plus,
    Minus,
    Mult,
    NumOut,
    CharOut,
    Write,
    Read,
    Mem,
    InitMem,
    If(Option<usize>),
    End(Option<usize>),
    Else(Option<usize>),
    While(Option<usize>),
    LessThan,
    GreaterThan,
    Equals,
    Swap,
    Dup,
    TwoDup,
    GetStackHeight,
    Not,
    FunctionDeclaration(Seq<char>),
    FunctionCall(Seq<char>),
    StringLiteral(Seq<char>),
    Import(Seq<char>),
}

impl View for Function {
    type V = Op;

    open spec fn view(&self) -> Op {
        match self {
            Function::Push(b) => Op::Push(*b),
            Function::Pop() => Op::Pop,
            Function::Plus() => Op::Plus,
            Function::Minus() => Op::Minus,
            Function::Mult() => Op::Mult,
            Function::NumOut() => Op::NumOut,
            Function::CharOut() => Op::CharOut,
            Function::Write() => Op::Write,
            Function::Read() => Op::Read,
            Function::Mem() => Op::Mem,
            Function::InitMem() => Op::InitMem,
            Function::If(t) => Op::If(*t),
            Function::End(t) => Op::End(*t),
            Function::Else(t) => Op::Else(*t),
            Function::While(t) => Op::While(*t),
            Function::LessThan() => Op::LessThan,
            Function::GreaterThan() => Op::GreaterThan,
            Function::Equals() => Op::Equals,
            Function::Swap() => Op::Swap,
            Function::Dup() => Op::Dup,
            Function::TwoDup() => Op::TwoDup,
            Function::GetStackHeight() => Op::GetStackHeight,
            Function::Not() => Op::Not,
            Function::FunctionDeclaration(s) => Op::FunctionDeclaration(s@),
            Function::FunctionCall(s) => Op::FunctionCall(s@),
            Function::StringLiteral(s) => Op::StringLiteral(s@),
            Function::Import(s) => Op::Import(s@),
        }
    }
}

/// The instructions of a body, as values.
pub open spec fn ops(body: Seq<Function>) -> Seq<Op> {
    body.map_values(|f: Function| f@)
}

impl Function {
    /// A copy of the instruction.
    pub fn duplicate(&self) -> (r: Function)
        ensures
            r == *self,
    {
        match self {
            Function::Push(b) => Function::Push(*b),
            Function::Pop() => Function::Pop(),
            Function::Plus() => Function::Plus(),
            Function::Minus() => Function::Minus(),
            Function::Mult() => Function::Mult(),
            Function::NumOut() => Function::NumOut(),
            Function::CharOut() => Function::CharOut(),
            Function::Write() => Function::Write(),
            Function::Read() => Function::Read(),
            Function::Mem() => Function::Mem(),
            Function::InitMem() => Function::InitMem(),
            Function::If(t) => Function::If(*t),
            Function::End(t) => Function::End(*t),
            Function::Else(t) => Function::Else(*t),
            Function::While(t) => Function::While(*t),
            Function::LessThan() => Function::LessThan(),
            Function::GreaterThan() => Function::GreaterThan(),
            Function::Equals() => Function::Equals(),
            Function::Swap() => Function::Swap(),
            Function::Dup() => Function::Dup(),
            Function::TwoDup() => Function::TwoDup(),
            Function::GetStackHeight() => Function::GetStackHeight(),
            Function::Not() => Function::Not(),
            Function::FunctionDeclaration(s) => Function::FunctionDeclaration(s.clone()),
            Function::FunctionCall(s) => Function::FunctionCall(s.clone()),
            Function::StringLiteral(s) => Function::StringLiteral(s.clone()),
            Function::Import(s) => Function::Import(s.clone()),
        }
    }
}

} // verus!
