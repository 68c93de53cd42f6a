use vstd::prelude::*;

verus! {

/// One instruction of the language. Jump targets are absolute indices into
/// the instruction sequence that holds the instruction.
#[derive(Clone, Copy, Debug, PartialEq, Eq, Structural)]
pub enum Instruction {
    MoveRight,
    MoveLeft,
    Increment,
    Decrement,
    Output,
    Input,
    /// Jump to the target (one past the matching close bracket) when the current cell is 0.
    JumpIfZero(usize),
    /// Jump to the target (one past the matching open bracket) when the current cell is not 0.
    JumpIfNonZero(usize),
}

/// The characters that stand for instructions; every other character is a comment.
pub open spec fn is_symbol(c: char) -> bool {
    c == '>' || c == '<' || c == '+' || c == '-' || c == '.' || c == ',' || c == '[' || c == ']'
}

impl Instruction {
    /// The source character that an instruction is written as.
    pub open spec fn symbol(self) -> char {
        match self {
            Instruction::MoveRight => '>',
            Instruction::MoveLeft => '<',
            Instruction::Increment => '+',
            Instruction::Decrement => '-',
            Instruction::Output => '.',
            Instruction::Input => ',',
            Instruction::JumpIfZero(_) => '[',
            Instruction::JumpIfNonZero(_) => ']',
        }
    }
}

/// Why a source text does not lex. Positions count characters of the source from 0.
#[derive(Clone, Copy, Debug, PartialEq, Eq, Structural)]
pub enum LexError {
    /// An open bracket that is never closed.
    UnmatchedOpen { position: usize },
    /// A close bracket with no open bracket before it.
    UnmatchedClose { position: usize },
}

/// The outcome of lexing a source text.
#[derive(Clone, Debug, PartialEq, Eq)]
pub enum LexResult {
    Success(Vec<Instruction>),
    Failure(LexError),
}

/// The outcome of running a program.
#[derive(Clone, Debug, PartialEq, Eq)]
pub enum VMResult {
    Success,
    Error { message: String },
}

} // verus!
