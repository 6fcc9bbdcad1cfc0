//! The words of the command language that the library knows.

use vstd::prelude::*;

verus! {

/// The option that asks for a reply to every command.
pub const PRINT_SUCCESS: &'static str = "print-success";

/// The option that asks for models.
pub const PRODUCE_MODELS: &'static str = "produce-models";

/// Conjunction.
pub const AND: &'static str = "and";

/// Disjunction.
pub const OR: &'static str = "or";

/// Negation.
pub const NOT: &'static str = "not";

/// Implication.
pub const IMPLICATION: &'static str = "=>";

/// Exclusive disjunction.
pub const XOR: &'static str = "xor";

/// Equality of truth values.
pub const EQUALITY: &'static str = "=";

/// Whether two strings hold the same characters.
pub fn same_text(a: &str, b: &str) -> (same: bool)
    ensures
        same == (a@ == b@),
{
    let x = a.to_owned();
    let y = b.to_owned();
    x == y
}

/// The logics that `set-logic` accepts.
#[derive(Clone, Copy, Debug, PartialEq, Eq, Structural)]
pub enum Logic {
    QfUf,
    QfLia,
}

impl Logic {
    /// Whether `logic` names a logic that is accepted.
    pub open spec fn known(logic: Seq<char>) -> bool {
        logic == "QF_UF"@ || logic == "QF_LIA"@
    }

    /// Whether `logic` names a logic that is accepted.
    pub fn recognizes(logic: &str) -> (b: bool)
        ensures
            b == Logic::known(logic@),
    {
        same_text(logic, "QF_UF") || same_text(logic, "QF_LIA")
    }

    /// The logic of the given name.
    pub fn new(logic: &str) -> (l: Logic)
        requires
            Logic::known(logic@),
        ensures
            l == if logic@ == "QF_UF"@ {
                Logic::QfUf
            } else {
                Logic::QfLia
            },
    {
        if same_text(logic, "QF_UF") {
            Logic::QfUf
        } else {
            Logic::QfLia
        }
    }
}

/// The Boolean that `"true"` or `"false"` names.
pub fn str_to_bool(sym: &str) -> (b: bool)
    requires
        sym@ == "true"@ || sym@ == "false"@,
    ensures
        b == (sym@ == "true"@),
{
    same_text(sym, "true")
}

} // verus!
