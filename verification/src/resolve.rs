//! The account reference resolver.
//!
//! For each account a schema instruction declares, the operator supplies a
//! string: the keyword `new` (mint a fresh keypair and persist it), `self`
//! (the operator's default keypair), `system` (the well-known system
//! program address, never a user signer), a path to a keypair file, or a
//! bare base58 public key.  The resolver turns the list into ordered
//! account references whose signer and writability flags come from the
//! schema alone, a signer list, and a record of the accounts it minted.

use vstd::prelude::*;

use crate::b58::{b58_text_of, bytes_to_base58, is_pubkey_b58, pubkey_from_base58};
use crate::errors::{ErrorKind, SolanaError};
use crate::idl::{IdlAccountItem, Instruction};
use crate::strutil::{ascii_to_string, concat3, copy_bytes, str_eq};
use solana_sdk::signer::Signer;
use vstd::string::StringExecFns;
use vstd::string::StringSliceAdditionalSpecFns;
use vstd::utf8::encode_utf8;

verus! {

#[verifier::external_type_specification]
#[verifier::external_body]
pub struct ExKeypair(solana_sdk::signature::Keypair);

/// Relies on solana_sdk's Keypair::new and Signer::pubkey: a freshly
/// generated ed25519 keypair and its public key.  The key material is
/// random, so nothing is promised beyond the public key's length.
#[verifier::external_body]
fn keypair_generate() -> (r: (solana_sdk::signature::Keypair, Vec<u8>))
    ensures
        r.1@.len() == 32,
{
    let kp = solana_sdk::signature::Keypair::new();
    let pk = kp.pubkey().to_bytes().to_vec();
    (kp, pk)
}

/// Relies on solana_sdk's write_keypair_file: persists the keypair at the
/// path.  Whether the write succeeds depends on the filesystem, so nothing
/// is promised of the result.
#[verifier::external_body]
fn keypair_write(kp: &solana_sdk::signature::Keypair, path: &str) -> bool {
    solana_sdk::signature::write_keypair_file(kp, path).is_ok()
}

/// Relies on solana_sdk's read_keypair_file and Signer::pubkey: reads key
/// material from disk.  What comes back depends on the filesystem, so only
/// the public key's length is stated.
#[verifier::external_body]
fn keypair_read(path: &str) -> (r: Option<(solana_sdk::signature::Keypair, Vec<u8>)>)
    ensures
        r matches Some(p) ==> p.1@.len() == 32,
{
    match solana_sdk::signature::read_keypair_file(path) {
        Ok(kp) => {
            let pk = kp.pubkey().to_bytes().to_vec();
            Some((kp, pk))
        },
        Err(_) => None,
    }
}

/// Read the payer's keypair from its file; what comes back depends on the
/// filesystem.
pub fn read_payer_keypair(path: &str) -> (r: Option<solana_sdk::signature::Keypair>) {
    match keypair_read(path) {
        Some((kp, _)) => Some(kp),
        None => None,
    }
}

/// The well-known system program address: 32 zero bytes.
pub open spec fn system_pubkey_bytes() -> Seq<u8> {
    Seq::new(32, |i: int| 0u8)
}

/// The system program address as a fresh vector.
pub fn system_program_id() -> (r: Vec<u8>)
    ensures
        r@ == system_pubkey_bytes(),
{
    let mut v: Vec<u8> = Vec::new();
    let mut i: usize = 0;
    while i < 32
        invariant
            0 <= i <= 32,
            v@.len() == i,
            forall|j: int| 0 <= j < i ==> v@[j] == 0u8,
        decreases 32 - i,
    {
        v.push(0);
        i = i + 1;
    }
    proof {
        assert(v@ =~= system_pubkey_bytes());
    }
    v
}

/// One resolved account reference: its address and the signer and
/// writability flags the schema declares for it.
#[derive(Debug)]
pub struct AccountMeta {
    pub pubkey: Vec<u8>,
    pub is_signer: bool,
    pub is_writable: bool,
}

/// A freshly minted account: its address and the file its keypair was
/// written to.
#[derive(Debug)]
pub struct NewAccount {
    pub pubkey: Vec<u8>,
    pub path: String,
}

/// Everything the resolver produces: the ordered account references, the
/// signers among them, and the accounts it minted.
#[derive(Debug)]
pub struct Accounts {
    pub metas: Vec<AccountMeta>,
    pub signers: Vec<solana_sdk::signature::Keypair>,
    pub new_accounts: Vec<NewAccount>,
}

/// How many signer entries a successful resolution holds: one per account
/// that the schema flags as signer, except those given as `system`, which
/// are never user signers.
pub open spec fn expected_signers(accounts: Seq<IdlAccountItem>, raws: Seq<String>) -> nat
    recommends
        accounts.len() == raws.len(),
    decreases accounts.len(),
{
    if accounts.len() == 0 || raws.len() == 0 {
        0
    } else {
        expected_signers(accounts.drop_last(), raws.drop_last()) + match accounts.last() {
            IdlAccountItem::Account(a) => if a.is_signer && raws.last()@ != "system"@ {
                1nat
            } else {
                0nat
            },
            IdlAccountItem::NestedAccounts => 0nat,
        }
    }
}

/// How many `new` keywords a raw account list holds.
pub open spec fn count_new(raws: Seq<String>) -> nat
    decreases raws.len(),
{
    if raws.len() == 0 {
        0
    } else {
        count_new(raws.drop_last()) + if raws.last()@ == "new"@ {
            1nat
        } else {
            0nat
        }
    }
}

/// The keypair file name of a minted account: `<name>-<pubkey>.json`.
pub open spec fn new_account_path_bytes(name: Seq<char>, pubkey: Seq<u8>) -> Seq<u8> {
    encode_utf8(name) + encode_utf8("-"@) + b58_text_of(pubkey) + encode_utf8(".json"@)
}

/// A well-formed resolution of an instruction's account list.
pub open spec fn resolved_ok(
    accounts: Seq<IdlAccountItem>,
    raws: Seq<String>,
    acc: Accounts,
) -> bool {
    &&& raws.len() == accounts.len()
    &&& acc.metas@.len() == accounts.len()
    &&& forall|i: int| 0 <= i < accounts.len() ==> (#[trigger] accounts[i]) is Account
    &&& forall|i: int|
        0 <= i < accounts.len() ==> (#[trigger] acc.metas@[i]).is_signer
            == accounts[i]->Account_0.is_signer && acc.metas@[i].is_writable
            == accounts[i]->Account_0.is_mut && acc.metas@[i].pubkey@.len() == 32
    &&& forall|i: int|
        0 <= i < raws.len() && (#[trigger] raws[i])@ == "system"@ ==> acc.metas@[i].pubkey@
            == system_pubkey_bytes()
    &&& acc.signers@.len() == expected_signers(accounts, raws)
    &&& acc.new_accounts@.len() == count_new(raws)
    &&& forall|i: int|
        0 <= i < raws.len() && (#[trigger] raws[i])@ == "new"@ ==> {
            let j = count_new(raws.take(i)) as int;
            &&& 0 <= j < acc.new_accounts@.len()
            &&& acc.new_accounts@[j].pubkey@ == acc.metas@[i].pubkey@
            &&& encode_utf8(acc.new_accounts@[j].path@) == new_account_path_bytes(
                accounts[i]->Account_0.name@,
                acc.metas@[i].pubkey@,
            )
        }
}

/// A position whose resolution no outside call decides: the `system`
/// keyword always succeeds, and a bare public key for a non-signer
/// descriptor succeeds whether or not the keypair-file probe finds a file
/// of that name.
pub open spec fn position_always_resolves(account: IdlAccountItem, raw: String) -> bool {
    &&& account is Account
    &&& {
        ||| raw@ == "system"@
        ||| {
            &&& raw@ != "new"@
            &&& raw@ != "self"@
            &&& raw@ != "system"@
            &&& is_pubkey_b58(encode_utf8(raw@))
            &&& !account->Account_0.is_signer
        }
    }
}

/// An error raised at an always-resolving-free position rules out any
/// nested group behind an always-resolving prefix.
proof fn lemma_error_position_blocks_nested(
    accounts: Seq<IdlAccountItem>,
    raws: Seq<String>,
    k: int,
)
    requires
        0 <= k < accounts.len(),
        accounts.len() == raws.len(),
        forall|j: int| 0 <= j <= k ==> (#[trigger] accounts[j]) is Account,
        !position_always_resolves(accounts[k], raws[k]),
    ensures
        !(exists|i: int|
            0 <= i < accounts.len() && (#[trigger] accounts[i]) is NestedAccounts && (forall|
                j: int,
            |
                0 <= j < i ==> position_always_resolves(#[trigger] accounts[j], raws[j]))),
{
    assert forall|i: int|
        !(0 <= i < accounts.len() && (#[trigger] accounts[i]) is NestedAccounts && (forall|j: int|
            0 <= j < i ==> position_always_resolves(#[trigger] accounts[j], raws[j]))) by {
        if 0 <= i < accounts.len() && accounts[i] is NestedAccounts {
            assert(i > k);
            if forall|j: int|
                0 <= j < i ==> position_always_resolves(#[trigger] accounts[j], raws[j]) {
                assert(position_always_resolves(accounts[k], raws[k]));
            }
        }
    }
}

/// A signer entry is never produced for a position given as `system`,
/// whatever the descriptor's signer flag says: the expected signer count
/// does not depend on the flag at such a position.
pub proof fn lemma_system_account_never_signs(
    accounts1: Seq<IdlAccountItem>,
    accounts2: Seq<IdlAccountItem>,
    raws: Seq<String>,
    i: int,
)
    requires
        accounts1.len() == raws.len(),
        accounts2.len() == raws.len(),
        0 <= i < raws.len(),
        raws[i]@ == "system"@,
        forall|j: int| 0 <= j < raws.len() && j != i ==> accounts1[j] == accounts2[j],
    ensures
        expected_signers(accounts1, raws) == expected_signers(accounts2, raws),
    decreases raws.len(),
{
    if raws.len() > 0 {
        if i == raws.len() - 1 {
            assert(accounts1.drop_last() =~= accounts2.drop_last());
        } else {
            assert(accounts1.last() == accounts2.last());
            assert(forall|j: int|
                0 <= j < raws.len() - 1 && j != i ==> accounts1.drop_last()[j]
                    == accounts2.drop_last()[j]);
            assert(raws.drop_last()[i] == raws[i]);
            lemma_system_account_never_signs(
                accounts1.drop_last(),
                accounts2.drop_last(),
                raws.drop_last(),
                i,
            );
        }
    }
}

/// Resolve an instruction's declared accounts from the operator's strings.
///
/// The raw count must equal the declared count; nested account groups are
/// rejected; `self` reads the keypair at `default_keypair_path`, the value
/// the outer command took from its configuration.
#[verifier::rlimit(100)]
pub fn construct_instruction_accounts(
    instr: &Instruction,
    raw_args: &Vec<String>,
    default_keypair_path: &str,
) -> (r: Result<Accounts, SolanaError>)
    ensures
        r matches Ok(acc) ==> resolved_ok(instr.accounts@, raw_args@, acc),
        raw_args@.len() != instr.accounts@.len() ==> (r matches Err(e) && e.kind
            == ErrorKind::MissingAccount),
        (exists|i: int|
            0 <= i < instr.accounts@.len() && !((#[trigger] instr.accounts@[i]) is Account))
            ==> r is Err,
        (raw_args@.len() == instr.accounts@.len() && (forall|i: int|
            0 <= i < instr.accounts@.len() ==> position_always_resolves(
                #[trigger] instr.accounts@[i],
                raw_args@[i],
            ))) ==> r is Ok,
        (raw_args@.len() == instr.accounts@.len() && (exists|i: int|
            0 <= i < instr.accounts@.len() && (#[trigger] instr.accounts@[i]) is NestedAccounts
                && (forall|j: int|
                0 <= j < i ==> position_always_resolves(
                    #[trigger] instr.accounts@[j],
                    raw_args@[j],
                )))) ==> (r matches Err(e) && e.kind == ErrorKind::NestedAccounts),
{
    if raw_args.len() != instr.accounts.len() {
        let message = if raw_args.len() < instr.accounts.len() {
            match &instr.accounts[raw_args.len()] {
                IdlAccountItem::Account(a) => crate::strutil::concat2(
                    "Missing account: ",
                    a.name.as_str(),
                ),
                IdlAccountItem::NestedAccounts => crate::strutil::concat2(
                    "Missing account",
                    "",
                ),
            }
        } else {
            crate::strutil::concat2("more accounts than the instruction declares", "")
        };
        return Err(SolanaError::new(ErrorKind::MissingAccount, message));
    }
    let n = instr.accounts.len();
    let mut metas: Vec<AccountMeta> = Vec::new();
    let mut signers: Vec<solana_sdk::signature::Keypair> = Vec::new();
    let mut new_accounts: Vec<NewAccount> = Vec::new();
    let mut i: usize = 0;
    proof {
        assert(expected_signers(instr.accounts@.take(0), raw_args@.take(0)) == 0);
        assert(count_new(raw_args@.take(0)) == 0);
    }
    while i < n
        invariant
            n == instr.accounts@.len(),
            n == raw_args@.len(),
            0 <= i <= n,
            metas@.len() == i,
            forall|k: int| 0 <= k < i ==> (#[trigger] instr.accounts@[k]) is Account,
            forall|k: int|
                0 <= k < i ==> (#[trigger] metas@[k]).is_signer
                    == instr.accounts@[k]->Account_0.is_signer && metas@[k].is_writable
                    == instr.accounts@[k]->Account_0.is_mut && metas@[k].pubkey@.len() == 32,
            forall|k: int|
                0 <= k < i && (#[trigger] raw_args@[k])@ == "system"@ ==> metas@[k].pubkey@
                    == system_pubkey_bytes(),
            signers@.len() == expected_signers(instr.accounts@.take(i as int), raw_args@.take(i as int)),
            new_accounts@.len() == count_new(raw_args@.take(i as int)),
            forall|k: int|
                0 <= k < i && (#[trigger] raw_args@[k])@ == "new"@ ==> {
                    let j = count_new(raw_args@.take(k)) as int;
                    &&& 0 <= j < new_accounts@.len()
                    &&& new_accounts@[j].pubkey@ == metas@[k].pubkey@
                    &&& encode_utf8(new_accounts@[j].path@) == new_account_path_bytes(
                        instr.accounts@[k]->Account_0.name@,
                        metas@[k].pubkey@,
                    )
                },
        decreases n - i,
    {
        proof {
            assert("new"@ != "system"@) by {
                reveal_strlit("new");
                reveal_strlit("system");
                assert("new"@.len() == 3);
                assert("system"@.len() == 6);
            }
            assert("self"@ != "system"@) by {
                reveal_strlit("self");
                reveal_strlit("system");
                assert("self"@.len() == 4);
                assert("system"@.len() == 6);
            }
            assert(instr.accounts@.take(i + 1).drop_last() =~= instr.accounts@.take(i as int));
            assert(raw_args@.take(i + 1).drop_last() =~= raw_args@.take(i as int));
            assert(instr.accounts@.take(i + 1).last() == instr.accounts@[i as int]);
            assert(raw_args@.take(i + 1).last() == raw_args@[i as int]);
        }
        let account = &instr.accounts[i];
        let a = match account {
            IdlAccountItem::Account(a) => a,
            IdlAccountItem::NestedAccounts => {
                proof {
                    assert(!position_always_resolves(
                        instr.accounts@[i as int],
                        raw_args@[i as int],
                    ));
                }
                return Err(
                    SolanaError::new(
                        ErrorKind::NestedAccounts,
                        crate::strutil::concat2("nested accounts are not supported", ""),
                    ),
                );
            },
        };
        let raw = &raw_args[i];
        if str_eq(raw.as_str(), "new") {
            let (kp, pk) = keypair_generate();
            let b58 = ascii_to_string(bytes_to_base58(pk.as_slice()));
            let mut path = concat3(a.name.as_str(), "-", b58.as_str());
            path.append(".json");
            if !keypair_write(&kp, path.as_str()) {
                proof {
                    assert(!position_always_resolves(
                        instr.accounts@[i as int],
                        raw_args@[i as int],
                    ));
                    lemma_error_position_blocks_nested(instr.accounts@, raw_args@, i as int);
                }
                return Err(
                    SolanaError::new(
                        ErrorKind::File,
                        crate::strutil::concat2("could not write the keypair file to disk", ""),
                    ),
                );
            }
            proof {
                assert(encode_utf8(path@) =~= new_account_path_bytes(a.name@, pk@)) by {
                    crate::strutil::lemma_encode_utf8_concat(a.name@ + "-"@ + b58@, ".json"@);
                    crate::strutil::lemma_encode_utf8_concat(a.name@ + "-"@, b58@);
                    crate::strutil::lemma_encode_utf8_concat(a.name@, "-"@);
                }
            }
            new_accounts.push(NewAccount { pubkey: copy_bytes(pk.as_slice()), path });
            metas.push(
                AccountMeta { pubkey: pk, is_signer: a.is_signer, is_writable: a.is_mut },
            );
            if a.is_signer {
                signers.push(kp);
            }
        } else if str_eq(raw.as_str(), "self") {
            let (kp, pk) = match keypair_read(default_keypair_path) {
                Some(p) => p,
                None => {
                    proof {
                        assert(!position_always_resolves(
                            instr.accounts@[i as int],
                            raw_args@[i as int],
                        ));
                        lemma_error_position_blocks_nested(instr.accounts@, raw_args@, i as int);
                    }
                    return Err(
                        SolanaError::new(
                            ErrorKind::File,
                            crate::strutil::concat2(
                                "could not read the default keypair file",
                                "",
                            ),
                        ),
                    );
                },
            };
            metas.push(
                AccountMeta { pubkey: pk, is_signer: a.is_signer, is_writable: a.is_mut },
            );
            if a.is_signer {
                signers.push(kp);
            }
        } else if str_eq(raw.as_str(), "system") {
            // the system program is never a user signer
            metas.push(
                AccountMeta {
                    pubkey: system_program_id(),
                    is_signer: a.is_signer,
                    is_writable: a.is_mut,
                },
            );
        } else {
            match keypair_read(raw.as_str()) {
                Some((kp, pk)) => {
                    metas.push(
                        AccountMeta { pubkey: pk, is_signer: a.is_signer, is_writable: a.is_mut },
                    );
                    if a.is_signer {
                        signers.push(kp);
                    }
                },
                None => {
                    let pk = match pubkey_from_base58(raw.as_str().as_bytes()) {
                        Ok(pk) => pk,
                        Err(()) => {
                            proof {
                                assert(!position_always_resolves(
                                    instr.accounts@[i as int],
                                    raw_args@[i as int],
                                ));
                                lemma_error_position_blocks_nested(
                                    instr.accounts@,
                                    raw_args@,
                                    i as int,
                                );
                            }
                            return Err(
                                SolanaError::new(
                                    ErrorKind::InvalidKeyOrPath,
                                    concat3(
                                        "the provided argument for account ",
                                        a.name.as_str(),
                                        " is not a valid keyword, keypair path or public key",
                                    ),
                                ),
                            );
                        },
                    };
                    if a.is_signer {
                        // a signer needs key material, not a bare public key
                        proof {
                            assert(!position_always_resolves(
                                instr.accounts@[i as int],
                                raw_args@[i as int],
                            ));
                            lemma_error_position_blocks_nested(
                                instr.accounts@,
                                raw_args@,
                                i as int,
                            );
                        }
                        return Err(
                            SolanaError::new(
                                ErrorKind::InvalidKeyOrPath,
                                concat3(
                                    "the provided argument for account ",
                                    a.name.as_str(),
                                    " is not a valid keyword, keypair path or public key",
                                ),
                            ),
                        );
                    }
                    metas.push(
                        AccountMeta { pubkey: pk, is_signer: a.is_signer, is_writable: a.is_mut },
                    );
                },
            }
        }
        i = i + 1;
    }
    proof {
        assert(instr.accounts@.take(n as int) =~= instr.accounts@);
        assert(raw_args@.take(n as int) =~= raw_args@);
    }
    Ok(Accounts { metas, signers, new_accounts })
}

} // verus!
