//! Schema-driven calls to Solana programs.
//!
//! An interface schema names a program's instructions, their typed
//! arguments and their account requirements.  This crate turns an
//! instruction name, raw argument strings and raw account strings into
//! the binary call payload (an 8-byte method discriminator followed by
//! the encoded arguments) and the ordered, flagged account references a
//! transaction needs — and decodes a program's return data back into
//! operator-facing text.  The codec, the account resolver and their
//! supporting numeric routines are verified against the specifications
//! stated alongside them; calls into outside crates (hashing, JSON
//! parsing, keypair handling) stand behind small trusted wrappers whose
//! contracts say no more than those crates document.

pub mod b58;
mod decimal;
pub mod decode;
pub mod discriminator;
pub mod encode;
pub mod errors;
pub mod hexs;
pub mod idl;
pub mod jsons;
pub mod resolve;
mod strutil;
pub mod token;
pub mod transaction;
mod nums;
