use vstd::prelude::*;

verus! {

/// Everything that can go wrong between source text and a finished run or
/// compilation. Each phase reports one error and stops.
#[derive(Debug)]
pub enum PhronError {
    /// A line ended inside a string literal that starts at `col`.
    UnterminatedString { filepath: String, row: usize, col: usize },
    /// `fn` or `import` was the last token, with no name after it.
    MissingOperand { filepath: String, row: usize, col: usize },
    /// A token that starts with `"` but is not a closed string literal.
    MalformedString { filepath: String, row: usize, col: usize },
    /// Block or function delimiters do not match, at instruction `index`
    /// (the length of the stream when something was left open).
    UnmatchedBlock { index: usize },
    /// The program has no function named `main`.
    MissingMain,
    /// A call names a function that the program does not define.
    UnknownFunction { name: String },
    /// A call that would inline a function into itself.
    RecursiveCall { name: String },
    /// Instruction `index` of `function` has no Brainfuck fragment.
    NotImplemented { function: String, index: usize },
    /// An instruction took more values than the stack holds.
    StackUnderflow,
    /// The stack has no room for another value.
    StackOverflow,
    /// A block instruction without a target, or with one past the body.
    BadJump,
    /// A declaration or an import inside a function body.
    Unreachable,
    /// The run did not end within the allowed number of steps.
    StepLimit,
}

} // verus!
