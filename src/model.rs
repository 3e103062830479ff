use vstd::prelude::*;

verus! {

/// An integer register, conventionally `x0` to `x31`.
#[derive(Clone, Copy, Debug, PartialEq, Eq)]
pub struct Register(pub u8);

/// A numeric operand, or the high or low bits of a symbol's future address.
#[derive(Clone, Debug, PartialEq, Eq)]
pub enum Constant {
    Number(i64),
    HiDataRef(String),
    LoDataRef(String),
}

/// An operand of a directive or an instruction.
#[derive(Clone, Debug, PartialEq, Eq)]
pub enum Argument {
    Register(Register),
    RegOffset(Register, Constant),
    StringLiteral(Vec<u8>),
    Constant(Constant),
    Symbol(String),
    Difference(String, String),
}

/// One statement of an assembly unit.
#[derive(Clone, Debug, PartialEq, Eq)]
pub enum Statement {
    Label(String),
    Directive(String, Vec<Argument>),
    Instruction(String, Vec<Argument>),
}

/// The ways the front end refuses its input; each one ends the pass.
#[derive(Clone, Debug, PartialEq, Eq)]
pub enum AsmError {
    /// The line grammar rejected this (trimmed) source line.
    SyntaxError(String),
    /// An object announced by `.type` never received content.
    MissingObjectData(String),
    /// `.word` was applied to an object that already held content.
    DuplicateWordAssignment(String),
    /// A `Difference` operand of an instruction, whose references are undefined.
    UnsupportedDifference,
    /// A hexadecimal escape in a string literal, which is not implemented.
    UnsupportedHexEscape,
    /// A truncated octal escape, or one with a non-octal digit or a value over 255.
    MalformedEscape,
}

} // verus!
