//! Structured failures: every way a canonicalization can be refused, each with
//! the byte offset of the offending construct so the host can anchor a
//! diagnostic there.

use vstd::prelude::*;

verus! {

/// Why a declaration was refused.
#[derive(Clone, Copy, Debug, PartialEq, Eq, Structural)]
pub enum ErrorKind {
    /// A configuration argument was handed to an invocation that accepts none.
    UnsupportedAttributes,
    /// Table canonicalization was applied to something that is not the
    /// table-declaration construct.
    NotTableMacro,
    /// The record has a positional (unnamed) field list.
    TupleStruct,
    /// The record has no field list at all.
    UnitStruct,
    /// The declaration is a sum type, not a record.
    EnumDecl,
    /// The declaration is a union, not a record.
    UnionDecl,
    /// The declaration body does not match the field or column grammar.
    Malformed,
}

/// A refused canonicalization: what went wrong and where in the input.
#[derive(Clone, Copy, Debug, PartialEq, Eq, Structural)]
pub struct SortError {
    pub kind: ErrorKind,
    /// Byte offset into the input at which the error is anchored.
    pub pos: usize,
}

/// The user-facing message for each kind of failure.
pub open spec fn message_of(kind: ErrorKind) -> Seq<char> {
    match kind {
        ErrorKind::UnsupportedAttributes => "this invocation doesn't support any attributes"@,
        ErrorKind::NotTableMacro => "`sort_columns` only works on the `diesel::table!` macro"@,
        ErrorKind::TupleStruct => "`sort_fields` is not allowed on tuple structs, only structs with named fields"@,
        ErrorKind::UnitStruct => "`sort_fields` is not allowed on unit structs, only structs with named fields"@,
        ErrorKind::EnumDecl => "`sort_fields` is not allowed on enums, only structs"@,
        ErrorKind::UnionDecl => "`sort_fields` is not allowed on unions, only structs"@,
        ErrorKind::Malformed => "malformed declaration"@,
    }
}

impl SortError {
    /// The diagnostic text for this failure.
    pub fn message(&self) -> (m: &'static str)
        ensures
            m@ == message_of(self.kind),
    {
        match self.kind {
            ErrorKind::UnsupportedAttributes => "this invocation doesn't support any attributes",
            ErrorKind::NotTableMacro => "`sort_columns` only works on the `diesel::table!` macro",
            ErrorKind::TupleStruct => "`sort_fields` is not allowed on tuple structs, only structs with named fields",
            ErrorKind::UnitStruct => "`sort_fields` is not allowed on unit structs, only structs with named fields",
            ErrorKind::EnumDecl => "`sort_fields` is not allowed on enums, only structs",
            ErrorKind::UnionDecl => "`sort_fields` is not allowed on unions, only structs",
            ErrorKind::Malformed => "malformed declaration",
        }
    }
}

} // verus!
