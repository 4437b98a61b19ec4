//! The error taxonomy of the library.
//!
//! Every failure of the codec or of the account resolver is one of these
//! variants; the variant is part of each function's contract, the carried
//! message is for the operator.

use vstd::prelude::*;

verus! {

/// One error kind per failure condition of the codec and resolver.
#[derive(Debug, Clone, Copy, PartialEq, Eq, Structural)]
pub enum ErrorKind {
    /// A raw string failed to parse as the declared scalar type.
    Parse,
    /// Fewer raw arguments than the instruction declares, or more.
    MissingArgument,
    /// Fewer raw accounts than the instruction declares, or more.
    MissingAccount,
    /// A `Defined` type name is absent from the schema's definitions.
    TypeNotFound,
    /// A tagged-choice literal matches none of the declared variants.
    VariantNotFound,
    /// A fixed array received the wrong number of elements.
    ArraySizeMismatch,
    /// Float or optional-wrapped types are declared but unsupported.
    UnsupportedType,
    /// Nested account groups are unsupported.
    NestedAccounts,
    /// An account literal is no keyword, no keypair file and no public key,
    /// or a signer-flagged account resolved to a bare public key.
    InvalidKeyOrPath,
    /// No instruction of the requested name exists in the schema.
    InstructionNotFound,
    /// A keypair file could not be written or read.
    File,
}

/// An error of the codec or resolver: a kind and an operator-facing message.
#[derive(Debug, Clone)]
pub struct SolanaError {
    pub kind: ErrorKind,
    pub message: String,
}

impl SolanaError {
    pub fn new(kind: ErrorKind, message: String) -> (r: SolanaError)
        ensures
            r.kind == kind,
            r.message == message,
    {
        SolanaError { kind, message }
    }

    pub fn kind(&self) -> (r: ErrorKind)
        ensures
            r == self.kind,
    {
        self.kind
    }

    pub fn message(&self) -> (r: &String)
        ensures
            r == self.message,
    {
        &self.message
    }
}

} // verus!
