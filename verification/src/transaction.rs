//! A configured program call, and the builder that assembles it.
//!
//! The builder collects the operator's options as plain values and
//! validates them at the end: its finalizing call reports every field
//! still missing, then parses the program address, finds the instruction,
//! encodes the call data, resolves the accounts and reads the payer
//! keypair.  Everything the transaction-submission collaborator needs —
//! the payload, the ordered account references, the signers, the new
//! accounts and the payer — sits in the finished value.

use vstd::prelude::*;

use crate::b58::{b58_bytes32, is_pubkey_b58, pubkey_from_base58};
use crate::encode::{construct_instruction_data, instruction_data_spec};
use crate::errors::{ErrorKind, SolanaError};
use crate::idl::{has_instruction, instruction_index, instruction_position, Idl, Instruction};
use crate::resolve::{construct_instruction_accounts, resolved_ok, Accounts};
use crate::strutil::concat2;
use vstd::string::StringSliceAdditionalSpecFns;
use vstd::utf8::encode_utf8;

verus! {

/// A parsed 32-byte program address.
pub struct ProgramID(pub Vec<u8>);

/// The encoded instruction payload: discriminator, then arguments.
pub struct CallData(pub Vec<u8>);

/// The fields a finalizing call found unset, one flag per mandatory
/// builder option.
#[derive(Debug, PartialEq, Eq, Structural)]
pub struct Missing {
    pub rpc_url: bool,
    pub idl: bool,
    pub program_id: bool,
    pub instruction: bool,
    pub call_data: bool,
    pub accounts: bool,
    pub payer: bool,
}

/// Why a finalizing call failed: fields were missing, or one of the
/// validation steps rejected its input.
pub enum BuildError {
    Incomplete(Missing),
    Failed(SolanaError),
}

/// A fully validated program call, ready for the submission collaborator.
pub struct SolanaTransaction {
    rpc_url: String,
    idl: Idl,
    program_id: ProgramID,
    instruction_index: usize,
    call_data: CallData,
    accounts: Accounts,
    payer: solana_sdk::signature::Keypair,
}

impl SolanaTransaction {
    /// The instruction position is inside the schema and the program
    /// address is 32 bytes.
    #[verifier::type_invariant]
    pub closed spec fn wf(self) -> bool {
        &&& self.instruction_index < self.idl.instructions@.len()
        &&& self.program_id.0@.len() == 32
    }

    pub closed spec fn spec_rpc_url(self) -> String {
        self.rpc_url
    }

    pub closed spec fn spec_idl(self) -> Idl {
        self.idl
    }

    pub closed spec fn spec_program_id(self) -> ProgramID {
        self.program_id
    }

    pub closed spec fn spec_instruction_index(self) -> usize {
        self.instruction_index
    }

    pub closed spec fn spec_call_data(self) -> CallData {
        self.call_data
    }

    pub closed spec fn spec_accounts(self) -> Accounts {
        self.accounts
    }

    /// A clean builder.
    pub fn new() -> (r: SolanaTransactionBuilder)
        ensures
            r.rpc_url is None,
            r.idl is None,
            r.program_id is None,
            r.instruction is None,
            r.call_data is None,
            r.accounts is None,
            r.payer is None,
    {
        SolanaTransactionBuilder::new()
    }

    /// The RPC endpoint the submission collaborator should talk to.
    pub fn rpc_url(&self) -> (r: &String)
        ensures
            *r == self.spec_rpc_url(),
    {
        &self.rpc_url
    }

    /// The loaded schema.
    pub fn idl(&self) -> (r: &Idl)
        ensures
            *r == self.spec_idl(),
    {
        &self.idl
    }

    /// The parsed program address.
    pub fn program_id(&self) -> (r: &ProgramID)
        ensures
            *r == self.spec_program_id(),
            r.0@.len() == 32,
    {
        proof {
            use_type_invariant(self);
        }
        &self.program_id
    }

    /// The instruction being called.
    pub fn instruction(&self) -> (r: &Instruction)
        ensures
            0 <= self.spec_instruction_index() < self.spec_idl().instructions@.len(),
            *r == self.spec_idl().instructions@[self.spec_instruction_index() as int],
    {
        proof {
            use_type_invariant(self);
        }
        &self.idl.instructions[self.instruction_index]
    }

    /// The encoded instruction payload.
    pub fn call_data(&self) -> (r: &CallData)
        ensures
            *r == self.spec_call_data(),
    {
        &self.call_data
    }

    /// The resolved accounts, signers and new accounts.
    pub fn accounts(&self) -> (r: &Accounts)
        ensures
            *r == self.spec_accounts(),
    {
        &self.accounts
    }

    /// The signers among the resolved accounts.
    pub fn signers(&self) -> (r: &Vec<solana_sdk::signature::Keypair>)
        ensures
            *r == self.spec_accounts().signers,
    {
        &self.accounts.signers
    }

    /// The accounts the resolver minted.
    pub fn new_accounts(&self) -> (r: &Vec<crate::resolve::NewAccount>)
        ensures
            *r == self.spec_accounts().new_accounts,
    {
        &self.accounts.new_accounts
    }

    /// The keypair paying the transaction fee.
    pub fn payer(&self) -> &solana_sdk::signature::Keypair {
        &self.payer
    }
}

/// Collects the call's options as plain values; `done` validates them.
pub struct SolanaTransactionBuilder {
    pub rpc_url: Option<String>,
    pub idl: Option<Idl>,
    pub program_id: Option<String>,
    pub instruction: Option<String>,
    pub call_data: Option<Vec<String>>,
    pub accounts: Option<Vec<String>>,
    pub payer: Option<String>,
}

impl SolanaTransactionBuilder {
    pub fn new() -> (r: SolanaTransactionBuilder)
        ensures
            r.rpc_url is None,
            r.idl is None,
            r.program_id is None,
            r.instruction is None,
            r.call_data is None,
            r.accounts is None,
            r.payer is None,
    {
        SolanaTransactionBuilder {
            rpc_url: None,
            idl: None,
            program_id: None,
            instruction: None,
            call_data: None,
            accounts: None,
            payer: None,
        }
    }

    /// Set the RPC endpoint for the submission collaborator.
    pub fn rpc_url(self, rpc_url: String) -> (r: Self)
        ensures
            r == (Self { rpc_url: Some(rpc_url), ..self }),
    {
        Self { rpc_url: Some(rpc_url), ..self }
    }

    /// Set the loaded schema.
    pub fn idl(self, idl: Idl) -> (r: Self)
        ensures
            r == (Self { idl: Some(idl), ..self }),
    {
        Self { idl: Some(idl), ..self }
    }

    /// Set the program address, as base58 text.
    pub fn program_id(self, program_id: String) -> (r: Self)
        ensures
            r == (Self { program_id: Some(program_id), ..self }),
    {
        Self { program_id: Some(program_id), ..self }
    }

    /// Set the name of the instruction to call.
    pub fn instruction(self, instruction: String) -> (r: Self)
        ensures
            r == (Self { instruction: Some(instruction), ..self }),
    {
        Self { instruction: Some(instruction), ..self }
    }

    /// Set the raw argument strings, one per declared argument.
    pub fn call_data(self, call_data: Vec<String>) -> (r: Self)
        ensures
            r == (Self { call_data: Some(call_data), ..self }),
    {
        Self { call_data: Some(call_data), ..self }
    }

    /// Set the raw account strings, one per declared account.
    pub fn accounts(self, accounts: Vec<String>) -> (r: Self)
        ensures
            r == (Self { accounts: Some(accounts), ..self }),
    {
        Self { accounts: Some(accounts), ..self }
    }

    /// Set the path of the payer's keypair file.
    pub fn payer(self, payer: String) -> (r: Self)
        ensures
            r == (Self { payer: Some(payer), ..self }),
    {
        Self { payer: Some(payer), ..self }
    }

    /// Whether every mandatory option has been set.
    pub open spec fn complete(self) -> bool {
        &&& self.rpc_url is Some
        &&& self.idl is Some
        &&& self.program_id is Some
        &&& self.instruction is Some
        &&& self.call_data is Some
        &&& self.accounts is Some
        &&& self.payer is Some
    }

    /// Validate the collected options and build the call.
    ///
    /// Fails with the full list of unset fields when the builder is
    /// incomplete; otherwise parses the program address, finds the
    /// instruction, encodes the call data with the verified encoder,
    /// resolves the accounts, and reads the payer keypair.  The `self`
    /// keyword among the accounts reads the keypair at
    /// `default_keypair_path`, the value the outer command took from its
    /// configuration.
    pub fn done(self, default_keypair_path: &str) -> (r: Result<SolanaTransaction, BuildError>)
        ensures
            r is Ok ==> self.complete(),
            !self.complete() <==> (r matches Err(BuildError::Incomplete(m)) && m == (Missing {
                rpc_url: self.rpc_url is None,
                idl: self.idl is None,
                program_id: self.program_id is None,
                instruction: self.instruction is None,
                call_data: self.call_data is None,
                accounts: self.accounts is None,
                payer: self.payer is None,
            })),
            (self.complete() && !is_pubkey_b58(encode_utf8(self.program_id->0@))) ==> (r matches Err(
                BuildError::Failed(e),
            ) && e.kind == ErrorKind::Parse),
            (self.complete() && is_pubkey_b58(encode_utf8(self.program_id->0@))
                && !has_instruction(self.idl->0.instructions@, self.instruction->0@)) ==> (
            r matches Err(BuildError::Failed(e)) && e.kind == ErrorKind::InstructionNotFound),
            (self.complete() && is_pubkey_b58(encode_utf8(self.program_id->0@))
                && has_instruction(self.idl->0.instructions@, self.instruction->0@)
                && self.idl->0.types@.len() < usize::MAX && instruction_data_spec(
                self.idl->0.instructions@[instruction_index(
                    self.idl->0.instructions@,
                    self.instruction->0@,
                )],
                self.call_data->0@,
                self.idl->0.types@,
            ) is Err) ==> (r matches Err(BuildError::Failed(e)) && e.kind == instruction_data_spec(
                self.idl->0.instructions@[instruction_index(
                    self.idl->0.instructions@,
                    self.instruction->0@,
                )],
                self.call_data->0@,
                self.idl->0.types@,
            )->Err_0),
            r matches Ok(t) ==> {
                &&& t.spec_rpc_url() == self.rpc_url->0
                &&& t.spec_idl() == self.idl->0
                &&& is_pubkey_b58(encode_utf8(self.program_id->0@))
                &&& t.spec_program_id().0@ == b58_bytes32(encode_utf8(self.program_id->0@))
                &&& has_instruction(self.idl->0.instructions@, self.instruction->0@)
                &&& t.spec_instruction_index() == instruction_index(
                    self.idl->0.instructions@,
                    self.instruction->0@,
                )
                &&& instruction_data_spec(
                    self.idl->0.instructions@[t.spec_instruction_index() as int],
                    self.call_data->0@,
                    self.idl->0.types@,
                ) == Ok::<Seq<u8>, ErrorKind>(t.spec_call_data().0@)
                &&& resolved_ok(
                    self.idl->0.instructions@[t.spec_instruction_index() as int].accounts@,
                    self.accounts->0@,
                    t.spec_accounts(),
                )
            },
    {
        let missing = Missing {
            rpc_url: self.rpc_url.is_none(),
            idl: self.idl.is_none(),
            program_id: self.program_id.is_none(),
            instruction: self.instruction.is_none(),
            call_data: self.call_data.is_none(),
            accounts: self.accounts.is_none(),
            payer: self.payer.is_none(),
        };
        let (rpc_url, idl, program_id, instruction, call_data, accounts, payer) = match (
            self.rpc_url,
            self.idl,
            self.program_id,
            self.instruction,
            self.call_data,
            self.accounts,
            self.payer,
        ) {
            (Some(u), Some(d), Some(p), Some(ins), Some(c), Some(a), Some(py)) => (
                u,
                d,
                p,
                ins,
                c,
                a,
                py,
            ),
            _ => {
                return Err(BuildError::Incomplete(missing));
            },
        };
        let pid = match pubkey_from_base58(program_id.as_str().as_bytes()) {
            Ok(b) => ProgramID(b),
            Err(()) => {
                return Err(
                    BuildError::Failed(
                        SolanaError::new(
                            ErrorKind::Parse,
                            concat2("the program ID is not a valid base58 address", ""),
                        ),
                    ),
                );
            },
        };
        let idx = match instruction_position(&idl, instruction.as_str()) {
            Some(i) => i,
            None => {
                return Err(
                    BuildError::Failed(
                        SolanaError::new(
                            ErrorKind::InstructionNotFound,
                            crate::strutil::concat3(
                                "instruction ",
                                instruction.as_str(),
                                " not found",
                            ),
                        ),
                    ),
                );
            },
        };
        if idl.types.len() >= usize::MAX {
            return Err(
                BuildError::Failed(
                    SolanaError::new(
                        ErrorKind::UnsupportedType,
                        concat2("the schema holds too many type definitions", ""),
                    ),
                ),
            );
        }
        let data = match construct_instruction_data(&idl.instructions[idx], &call_data, &idl.types) {
            Ok(d) => CallData(d),
            Err(e) => {
                return Err(BuildError::Failed(e));
            },
        };
        let resolved = match construct_instruction_accounts(
            &idl.instructions[idx],
            &accounts,
            default_keypair_path,
        ) {
            Ok(a) => a,
            Err(e) => {
                return Err(BuildError::Failed(e));
            },
        };
        let payer_kp = match crate::resolve::read_payer_keypair(payer.as_str()) {
            Some(kp) => kp,
            None => {
                return Err(
                    BuildError::Failed(
                        SolanaError::new(
                            ErrorKind::File,
                            concat2("could not read the payer keypair file", ""),
                        ),
                    ),
                );
            },
        };
        Ok(
            SolanaTransaction {
                rpc_url,
                idl,
                program_id: pid,
                instruction_index: idx,
                call_data: data,
                accounts: resolved,
                payer: payer_kp,
            },
        )
    }
}

} // verus!
