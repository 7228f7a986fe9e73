//! The failures that decoding a chunk or running it can report.

use vstd::prelude::*;

verus! {

/// The fields of the fixed chunk header, in the order in which they are laid
/// out.
#[derive(Clone, Copy, Debug, PartialEq, Eq, Structural)]
pub enum HeaderField {
    Signature,
    Version,
    Format,
    LuacData,
    CintSize,
    SizetSize,
    InstructionSize,
    IntegerSize,
    NumberSize,
    LuaInteger,
    LuaNumber,
}

/// Why a buffer is not a chunk this decoder accepts.
#[derive(Clone, Copy, Debug, PartialEq, Eq, Structural)]
pub enum FormatError {
    /// The buffer ends before the bytes that a read asks for.
    Truncated,
    /// A string field does not hold UTF-8.
    InvalidUtf8,
    /// A header field differs from the value this decoder requires.
    Mismatch(HeaderField),
}

/// Why the machine cannot carry out an instruction.
#[derive(Clone, Copy, Debug, PartialEq, Eq, Structural)]
pub enum ValueError {
    /// A table was indexed with nil.
    TableIndexNil,
    /// A table was indexed with a NaN.
    TableIndexNan,
    /// An operand of an arithmetic or bitwise operator is of no use to it.
    Arithmetic,
    /// An integer was divided by zero.
    DivideByZero,
    /// Two values that have no order were compared by order.
    Comparison,
    /// The length of a value that has none was asked for.
    Length,
    /// A value that is neither a string nor a number was to be concatenated.
    Concat,
    /// A value that rules a numeric loop is no number.
    ForLoop,
    /// A jump that is to close upvalues.
    Jump,
    /// A register or stack index outside the window.
    Register,
    /// An index outside the pool of constants.
    Constant,
    /// A jump, or a fetch, outside the code.
    ProgramCounter,
    /// An instruction that this machine does not carry out.
    Opcode,
    /// A table handle that names no table.
    Table,
}

} // verus!
