use vstd::prelude::*;

verus! {

/// One instruction of the compiled expression language.
///
/// A parsed expression is a sequence of these in postfix order. The
/// parenthesis markers only live on the parser's operator stack and never
/// appear in a finished sequence.
#[derive(Debug, Clone, PartialEq, Eq, Copy, Structural)]
pub enum Token {
    // -- Literals and values
    Num(u8),
    Random(u8),
    Brightness(u8),
    RGBColor(char, u8),
    Char(char),
    // -- Arithmetic operators
    Add,
    Sub,
    Mul,
    Div,
    Mod,
    Pow,
    // -- Bitwise operators
    BitAnd,
    BitOr,
    BitXor,
    BitAndNot,
    BitLShift,
    BitRShift,
    Invert,
    // -- Comparison
    Greater,
    // -- Other symbols / markers
    Weight,
    LeftParen,
    RightParen,
}

/// Why an expression string was rejected.
#[derive(Debug, Clone, PartialEq, Eq, Copy, Structural)]
pub enum ParseError {
    /// A numeric literal grew beyond 255; carries the 1-based position of the
    /// offending digit.
    NumberTooLarge { position: usize },
    /// The digits following `r`, `R`, `G`, `B` or `b` name a value above 255;
    /// carries the 1-based position of the last digit read.
    InvalidValue { position: usize },
    /// `r0` asks for a random sample of radius zero.
    ZeroRange,
    /// A character outside the language, with its 1-based position.
    InvalidCharacter { character: char, position: usize },
    /// A `(` without `)`, or a `)` without `(`.
    MismatchedParenthesis,
}

/// Why the evaluator rejected an instruction sequence.
#[derive(Debug, Clone, PartialEq, Eq, Copy, Structural)]
pub enum EvalError {
    /// A binary operator found fewer than two operands, or the sequence left
    /// nothing on the stack.
    StackUnderflow,
    /// An instruction the evaluator does not know: a parenthesis marker, a
    /// channel tag outside `R`/`G`/`B`, or an unknown variable character.
    UnknownInstruction,
}

} // verus!
