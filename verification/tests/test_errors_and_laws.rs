//! Error conditions, the discriminator, and the resolver's keywords.

use aqd_solana_contracts::decode::decode_return_data;
use aqd_solana_contracts::discriminator::discriminator;
use aqd_solana_contracts::encode::construct_instruction_data;
use aqd_solana_contracts::errors::ErrorKind;
use aqd_solana_contracts::idl::{
    Idl, IdlAccountItem, IdlAccount, IdlArgument, IdlType, IdlTypeDefinition, IdlTypeDefinitionTy,
    Instruction,
};
use aqd_solana_contracts::resolve::construct_instruction_accounts;
use aqd_solana_contracts::transaction::{BuildError, SolanaTransaction};

fn idl_with_arg(name: &str, ty: IdlType, types: Vec<IdlTypeDefinition>) -> Idl {
    Idl {
        instructions: vec![Instruction {
            name: name.to_string(),
            accounts: vec![],
            args: vec![IdlArgument {
                name: "value".to_string(),
                ty,
            }],
            returns: None,
        }],
        types,
    }
}

#[test]
fn discriminator_is_deterministic_and_matches() {
    // the same inputs always give the same eight bytes
    let a = discriminator("global", "new");
    let b = discriminator("global", "new");
    assert_eq!(a, b);
    assert_eq!(a, vec![135, 44, 205, 198, 25, 1, 72, 188]);
    let g = discriminator("global", "get");
    assert_eq!(g, vec![161, 224, 50, 61, 5, 210, 122, 216]);
    assert_ne!(a, g);
}

#[test]
fn fixed_array_size_mismatch_fails() {
    let idl = idl_with_arg("new", IdlType::Array(Box::new(IdlType::U8), 4), vec![]);
    let instruction = idl.find_instruction("new").unwrap();
    let data = vec!["1,2,3".to_string()];
    let err = construct_instruction_data(instruction, &data, &idl.types).unwrap_err();
    assert_eq!(err.kind(), ErrorKind::ArraySizeMismatch);
}

#[test]
fn unknown_variant_fails() {
    let color = IdlTypeDefinition {
        name: "Color".to_string(),
        ty: IdlTypeDefinitionTy::TaggedChoice {
            variants: vec!["Red".to_string(), "Green".to_string()],
        },
    };
    let idl = idl_with_arg("new", IdlType::Defined("Color".to_string()), vec![color]);
    let instruction = idl.find_instruction("new").unwrap();
    let data = vec!["\"Purple\"".to_string()];
    let err = construct_instruction_data(instruction, &data, &idl.types).unwrap_err();
    assert_eq!(err.kind(), ErrorKind::VariantNotFound);
    // the matching variant encodes to its index
    let data = vec!["\"Green\"".to_string()];
    let ok = construct_instruction_data(instruction, &data, &idl.types).unwrap();
    assert_eq!(&ok[8..], &[1]);
}

#[test]
fn missing_argument_fails() {
    let idl = idl_with_arg("new", IdlType::U8, vec![]);
    let instruction = idl.find_instruction("new").unwrap();
    let err = construct_instruction_data(instruction, &vec![], &idl.types).unwrap_err();
    assert_eq!(err.kind(), ErrorKind::MissingArgument);
}

#[test]
fn type_not_found_fails() {
    let idl = idl_with_arg("new", IdlType::Defined("Ghostly".to_string()), vec![]);
    let instruction = idl.find_instruction("new").unwrap();
    let data = vec!["{}".to_string()];
    let err = construct_instruction_data(instruction, &data, &idl.types).unwrap_err();
    assert_eq!(err.kind(), ErrorKind::TypeNotFound);
}

#[test]
fn float_is_unsupported() {
    let idl = idl_with_arg("new", IdlType::F32, vec![]);
    let instruction = idl.find_instruction("new").unwrap();
    let data = vec!["1".to_string()];
    let err = construct_instruction_data(instruction, &data, &idl.types).unwrap_err();
    assert_eq!(err.kind(), ErrorKind::UnsupportedType);
}

#[test]
fn bad_numbers_fail_to_parse() {
    let idl = idl_with_arg("new", IdlType::U8, vec![]);
    let instruction = idl.find_instruction("new").unwrap();
    for bad in ["", "abc", "256", "-1", "12x"] {
        let err =
            construct_instruction_data(instruction, &vec![bad.to_string()], &idl.types)
                .unwrap_err();
        assert_eq!(err.kind(), ErrorKind::Parse, "input {:?}", bad);
    }
    let ok = construct_instruction_data(instruction, &vec!["255".to_string()], &idl.types)
        .unwrap();
    assert_eq!(&ok[8..], &[255]);
}

fn one_account_idl(is_signer: bool) -> Idl {
    Idl {
        instructions: vec![Instruction {
            name: "get".to_string(),
            accounts: vec![IdlAccountItem::Account(IdlAccount {
                name: "dataAccount".to_string(),
                is_mut: false,
                is_signer,
            })],
            args: vec![],
            returns: None,
        }],
        types: vec![],
    }
}

#[test]
fn system_account_never_signs() {
    // even with the descriptor flagged signer, `system` adds no signer entry
    let idl = one_account_idl(true);
    let instruction = idl.find_instruction("get").unwrap();
    let resolved =
        construct_instruction_accounts(instruction, &vec!["system".to_string()], "").unwrap();
    assert_eq!(resolved.metas.len(), 1);
    assert_eq!(resolved.signers.len(), 0);
    assert_eq!(resolved.new_accounts.len(), 0);
    assert_eq!(resolved.metas[0].pubkey, vec![0u8; 32]);
    assert_eq!(resolved.metas[0].is_signer, true);
}

#[test]
fn bare_pubkey_cannot_sign() {
    let idl = one_account_idl(true);
    let instruction = idl.find_instruction("get").unwrap();
    let err = construct_instruction_accounts(
        instruction,
        &vec!["11111111111111111111111111111112".to_string()],
        "",
    )
    .unwrap_err();
    assert_eq!(err.kind(), ErrorKind::InvalidKeyOrPath);
}

#[test]
fn invalid_account_literal_fails() {
    let idl = one_account_idl(false);
    let instruction = idl.find_instruction("get").unwrap();
    let err = construct_instruction_accounts(
        instruction,
        &vec!["certainly/not/a-key".to_string()],
        "",
    )
    .unwrap_err();
    assert_eq!(err.kind(), ErrorKind::InvalidKeyOrPath);
}

#[test]
fn missing_account_fails() {
    let idl = one_account_idl(false);
    let instruction = idl.find_instruction("get").unwrap();
    let err = construct_instruction_accounts(instruction, &vec![], "").unwrap_err();
    assert_eq!(err.kind(), ErrorKind::MissingAccount);
}

#[test]
fn nested_accounts_are_rejected() {
    let idl = Idl {
        instructions: vec![Instruction {
            name: "get".to_string(),
            accounts: vec![IdlAccountItem::NestedAccounts],
            args: vec![],
            returns: None,
        }],
        types: vec![],
    };
    let instruction = idl.find_instruction("get").unwrap();
    let err = construct_instruction_accounts(instruction, &vec!["x".to_string()], "")
        .unwrap_err();
    assert_eq!(err.kind(), ErrorKind::NestedAccounts);
}

#[test]
fn builder_reports_missing_fields() {
    let builder = SolanaTransaction::new();
    match builder.done("") {
        Err(BuildError::Incomplete(m)) => {
            assert!(m.rpc_url && m.idl && m.program_id && m.instruction);
            assert!(m.call_data && m.accounts && m.payer);
        },
        _ => panic!("an empty builder must report every missing field"),
    }
}

#[test]
fn builder_runs_the_whole_pipeline() {
    let idl = one_account_idl(false);
    let builder = SolanaTransaction::new()
        .rpc_url("http://localhost:8899".to_string())
        .idl(idl)
        .program_id("1111111QLbz7JHiBTspS962RLKV8GndWFwiEaqKM".to_string())
        .instruction("get".to_string())
        .call_data(vec![])
        .accounts(vec!["system".to_string()])
        .payer("no-such-keypair-file.json".to_string());
    // everything validates until the payer keypair cannot be read
    match builder.done("") {
        Err(BuildError::Failed(e)) => assert_eq!(e.kind(), ErrorKind::File),
        _ => panic!("the payer file does not exist, so finishing must fail there"),
    }
}

#[test]
fn decode_round_trips_simple_values() {
    let types: Vec<IdlTypeDefinition> = vec![];
    let (text, used) = decode_return_data(&[1], 0, &IdlType::Bool, &types).unwrap();
    assert_eq!(text, "true");
    assert_eq!(used, 1);
    let (text, used) = decode_return_data(&[0], 0, &IdlType::Bool, &types).unwrap();
    assert_eq!(text, "false");
    assert_eq!(used, 1);
    let (text, used) =
        decode_return_data(&[210, 4, 0, 0, 0, 0, 0, 0], 0, &IdlType::U64, &types).unwrap();
    assert_eq!(text, "1234");
    assert_eq!(used, 8);
    let (text, used) = decode_return_data(&[46, 251], 0, &IdlType::I16, &types).unwrap();
    assert_eq!(text, "-1234");
    assert_eq!(used, 2);
    let (text, used) = decode_return_data(
        &[5, 0, 0, 0, 104, 101, 108, 108, 111],
        0,
        &IdlType::Str,
        &types,
    )
    .unwrap();
    assert_eq!(text, "hello");
    assert_eq!(used, 9);
    let (text, used) = decode_return_data(
        &[3, 0, 0, 0, 1, 2, 3],
        0,
        &IdlType::Vector(Box::new(IdlType::U8)),
        &types,
    )
    .unwrap();
    assert_eq!(text, "[1,2,3]");
    assert_eq!(used, 7);
    let (text, used) =
        decode_return_data(&[3, 0, 0, 0, 18, 52, 86], 0, &IdlType::Bytes, &types).unwrap();
    assert_eq!(text, "123456");
    assert_eq!(used, 7);
    let err = decode_return_data(&[1], 0, &IdlType::U64, &types).unwrap_err();
    assert_eq!(err.kind(), ErrorKind::Parse);
}

#[test]
fn decode_renders_addresses_in_base58() {
    // an address survives the trip through encoding and decoding
    let types: Vec<IdlTypeDefinition> = vec![];
    let idl = idl_with_arg("new", IdlType::PublicKey, vec![]);
    let instruction = idl.find_instruction("new").unwrap();
    let key = "1111111QLbz7JHiBTspS962RLKV8GndWFwiEaqKM";
    let payload =
        construct_instruction_data(instruction, &vec![key.to_string()], &idl.types).unwrap();
    let (text, used) = decode_return_data(&payload, 8, &IdlType::PublicKey, &types).unwrap();
    assert_eq!(text, key);
    assert_eq!(used, 32);
}

#[test]
fn new_keyword_mints_and_records_account() {
    // `new` appends exactly one entry to the new accounts whose pubkey
    // matches the resolved account reference's pubkey
    let idl = Idl {
        instructions: vec![Instruction {
            name: "new".to_string(),
            accounts: vec![IdlAccountItem::Account(IdlAccount {
                name: "/tmp/aqd-test-account".to_string(),
                is_mut: true,
                is_signer: true,
            })],
            args: vec![],
            returns: None,
        }],
        types: vec![],
    };
    let instruction = idl.find_instruction("new").unwrap();
    let resolved =
        construct_instruction_accounts(instruction, &vec!["new".to_string()], "").unwrap();
    assert_eq!(resolved.metas.len(), 1);
    assert_eq!(resolved.new_accounts.len(), 1);
    assert_eq!(resolved.new_accounts[0].pubkey, resolved.metas[0].pubkey);
    assert!(resolved.new_accounts[0].path.starts_with("/tmp/aqd-test-account-"));
    assert!(resolved.new_accounts[0].path.ends_with(".json"));
    assert_eq!(resolved.signers.len(), 1);
    assert_eq!(resolved.metas[0].is_signer, true);
    assert_eq!(resolved.metas[0].is_writable, true);
}

#[test]
fn missing_errors_name_the_first_uncovered_item() {
    let idl = one_account_idl(false);
    let instruction = idl.find_instruction("get").unwrap();
    let err = construct_instruction_accounts(instruction, &vec![], "").unwrap_err();
    assert_eq!(err.kind(), ErrorKind::MissingAccount);
    assert!(err.message().contains("dataAccount"));
    let idl = idl_with_arg("new", IdlType::U8, vec![]);
    let instruction = idl.find_instruction("new").unwrap();
    let err = construct_instruction_data(instruction, &vec![], &idl.types).unwrap_err();
    assert_eq!(err.kind(), ErrorKind::MissingArgument);
    assert!(err.message().contains("value"));
}

#[test]
fn builder_rejects_bad_inputs_in_order() {
    // an invalid program address fails the build
    let builder = SolanaTransaction::new()
        .rpc_url("http://localhost:8899".to_string())
        .idl(one_account_idl(false))
        .program_id("not-base58!".to_string())
        .instruction("get".to_string())
        .call_data(vec![])
        .accounts(vec!["system".to_string()])
        .payer("payer.json".to_string());
    match builder.done("") {
        Err(BuildError::Failed(e)) => assert_eq!(e.kind(), ErrorKind::Parse),
        _ => panic!("an invalid program address must fail the build"),
    }
    // an unknown instruction name fails the build
    let builder = SolanaTransaction::new()
        .rpc_url("http://localhost:8899".to_string())
        .idl(one_account_idl(false))
        .program_id("1111111QLbz7JHiBTspS962RLKV8GndWFwiEaqKM".to_string())
        .instruction("no-such-instruction".to_string())
        .call_data(vec![])
        .accounts(vec!["system".to_string()])
        .payer("payer.json".to_string());
    match builder.done("") {
        Err(BuildError::Failed(e)) => assert_eq!(e.kind(), ErrorKind::InstructionNotFound),
        _ => panic!("an unknown instruction must fail the build"),
    }
    // a failing encoding carries its own error kind out of the build
    let builder = SolanaTransaction::new()
        .rpc_url("http://localhost:8899".to_string())
        .idl(one_account_idl(false))
        .program_id("1111111QLbz7JHiBTspS962RLKV8GndWFwiEaqKM".to_string())
        .instruction("get".to_string())
        .call_data(vec!["excess".to_string()])
        .accounts(vec!["system".to_string()])
        .payer("payer.json".to_string());
    match builder.done("") {
        Err(BuildError::Failed(e)) => assert_eq!(e.kind(), ErrorKind::MissingArgument),
        _ => panic!("a failing encoding must fail the build"),
    }
}
