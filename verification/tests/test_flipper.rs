//! The flipper program: a boolean constructor, a getter, and a flip.

use aqd_solana_contracts::encode::construct_instruction_data;
use aqd_solana_contracts::idl::{
    Idl, IdlAccount, IdlAccountItem, IdlArgument, IdlType, Instruction,
};
use aqd_solana_contracts::resolve::construct_instruction_accounts;

fn flipper_idl() -> Idl {
    Idl {
        instructions: vec![
            Instruction {
                name: "new".to_string(),
                accounts: vec![IdlAccountItem::Account(IdlAccount {
                    name: "dataAccount".to_string(),
                    is_mut: true,
                    is_signer: true,
                })],
                args: vec![IdlArgument {
                    name: "initvalue".to_string(),
                    ty: IdlType::Bool,
                }],
                returns: None,
            },
            Instruction {
                name: "get".to_string(),
                accounts: vec![IdlAccountItem::Account(IdlAccount {
                    name: "dataAccount".to_string(),
                    is_mut: false,
                    is_signer: false,
                })],
                args: vec![],
                returns: Some(IdlType::Bool),
            },
            Instruction {
                name: "flip".to_string(),
                accounts: vec![IdlAccountItem::Account(IdlAccount {
                    name: "dataAccount".to_string(),
                    is_mut: true,
                    is_signer: false,
                })],
                args: vec![],
                returns: None,
            },
        ],
        types: vec![],
    }
}

#[test]
fn test_flipper_new_data() {
    let idl = flipper_idl();
    let instruction = idl.find_instruction("new").expect("Instruction not found: new");
    let data = vec!["true".to_string()];
    let data = construct_instruction_data(instruction, &data, &idl.types).unwrap();
    assert_eq!(data, vec![135, 44, 205, 198, 25, 1, 72, 188, 1]);
}

#[test]
fn test_flipper_get_data() {
    let idl = flipper_idl();
    let instruction = idl.find_instruction("get").expect("Instruction not found: get");
    let data: Vec<String> = vec![];
    let data = construct_instruction_data(instruction, &data, &idl.types).unwrap();
    assert_eq!(data, vec![161, 224, 50, 61, 5, 210, 122, 216]);
}

#[test]
fn test_flipper_get_accounts() {
    let idl = flipper_idl();
    let instruction = idl.find_instruction("get").expect("Instruction not found: get");
    // a valid base58 public key string referencing an existing account
    let accounts = vec!["11111111111111111111111111111112".to_string()];
    let resolved = construct_instruction_accounts(instruction, &accounts, "").unwrap();
    assert_eq!(resolved.metas.len(), 1);
    assert_eq!(resolved.signers.len(), 0);
    assert_eq!(resolved.new_accounts.len(), 0);
    assert_eq!(resolved.metas[0].is_signer, false);
    assert_eq!(resolved.metas[0].is_writable, false);
}

#[test]
fn test_flipper_flip_accounts() {
    let idl = flipper_idl();
    let instruction = idl.find_instruction("flip").expect("Instruction not found: flip");
    let accounts = vec!["11111111111111111111111111111112".to_string()];
    let resolved = construct_instruction_accounts(instruction, &accounts, "").unwrap();
    assert_eq!(resolved.metas.len(), 1);
    assert_eq!(resolved.signers.len(), 0);
    assert_eq!(resolved.new_accounts.len(), 0);
    assert_eq!(resolved.metas[0].is_signer, false);
    assert_eq!(resolved.metas[0].is_writable, true);
}
