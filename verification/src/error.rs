use vstd::prelude::*;

verus! {

/// What can stop the processing of a script.
#[derive(Clone, Copy, Debug, PartialEq, Eq, Structural)]
pub enum Error {
    /// The script is ill-formed.
    ParseError,
    /// An assertion applies a connective other than
    /// `and`, `or`, `not`, `=>`, `=`, `xor`.
    UnsupportedConnective,
    /// A connective is applied to the wrong number of arguments.
    Arity,
    /// `assert`, `push` or `pop` came before `set-logic`.
    NoLogic,
    /// `set-logic` came twice.
    DoubleLogic,
    /// `pop` would remove the bottom frame.
    PopUnderflow,
    /// A name or an identifier is already in the symbol table.
    DuplicateSymbol,
    /// The identifier counter has wrapped around.
    IdExhausted,
}

} // verus!
