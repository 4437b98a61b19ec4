//! Address arguments, given as base58 text.

use aqd_solana_contracts::encode::construct_instruction_data;
use aqd_solana_contracts::idl::{
    Idl, IdlAccountItem, IdlAccount, IdlArgument, IdlType, Instruction,
};

#[test]
fn test_address_new_data() {
    let idl = Idl {
        instructions: vec![Instruction {
            name: "new".to_string(),
            accounts: vec![IdlAccountItem::Account(IdlAccount {
                name: "dataAccount".to_string(),
                is_mut: true,
                is_signer: true,
            })],
            args: vec![IdlArgument {
                name: "addr".to_string(),
                ty: IdlType::PublicKey,
            }],
            returns: None,
        }],
        types: vec![],
    };
    let instruction = idl.find_instruction("new").expect("Instruction not found: new");
    let data = vec!["1111111QLbz7JHiBTspS962RLKV8GndWFwiEaqKM".to_string()];
    let data = construct_instruction_data(instruction, &data, &idl.types).unwrap();
    assert_eq!(
        data,
        vec![
            135, 44, 205, 198, 25, 1, 72, 188, 0, 0, 0, 0, 0, 0, 0, 1, 0, 0, 0, 0, 0, 0, 0, 0, 0,
            0, 0, 0, 0, 0, 0, 0, 0, 0, 0, 0, 0, 0, 0, 0
        ]
    );
}
