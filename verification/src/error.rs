use vstd::prelude::*;

verus! {

/// Errors surfaced by the core pipeline.
///
/// Linking fails with one of the two bracket errors; the interpreter fails
/// when `Read` meets end of input; the bytecode decoder fails on an opcode
/// it does not know or on a stream that ends inside an instruction.
#[derive(Clone, Copy, Debug, PartialEq, Eq, Structural)]
pub enum Error {
    /// A `]` with no matching `[`; the payload is the instruction index at
    /// which the excess `]` was found.
    MissingOpeningBracket(usize),
    /// End of the instruction sequence with at least one `[` still open; the
    /// payload is the index of the outermost unmatched `[`.
    MissingClosingBracket(usize),
    /// `Read` was executed but the input had no byte left.
    CouldNotReadInput,
    /// The bytecode decoder met an opcode byte it does not recognise.
    UnknownBytecodeOpcode,
    /// The bytecode stream ended in the middle of an instruction's payload.
    TruncatedBytecode,
}

} // verus!
