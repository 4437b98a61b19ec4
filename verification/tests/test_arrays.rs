//! Fixed arrays, vectors and byte strings.

use aqd_solana_contracts::encode::construct_instruction_data;
use aqd_solana_contracts::idl::{
    Idl, IdlAccountItem, IdlAccount, IdlArgument, IdlType, Instruction,
};

fn one_arg_idl(ty: IdlType) -> Idl {
    Idl {
        instructions: vec![Instruction {
            name: "new".to_string(),
            accounts: vec![IdlAccountItem::Account(IdlAccount {
                name: "dataAccount".to_string(),
                is_mut: true,
                is_signer: true,
            })],
            args: vec![IdlArgument {
                name: "value".to_string(),
                ty,
            }],
            returns: None,
        }],
        types: vec![],
    }
}

#[test]
fn test_array_data() {
    let idl = one_arg_idl(IdlType::Array(Box::new(IdlType::U8), 4));
    let instruction = idl.find_instruction("new").expect("Instruction not found: new");
    let data: Vec<String> = vec!["1,2,3,4".to_string()];
    let data = construct_instruction_data(instruction, &data, &idl.types).unwrap();
    assert_eq!(data, vec![135, 44, 205, 198, 25, 1, 72, 188, 1, 2, 3, 4]);
}

#[test]
fn test_vector_data() {
    let idl = one_arg_idl(IdlType::Vector(Box::new(IdlType::U8)));
    let instruction = idl.find_instruction("new").expect("Instruction not found: new");
    let data: Vec<String> = vec!["1,2,3".to_string()];
    let data = construct_instruction_data(instruction, &data, &idl.types).unwrap();
    assert_eq!(data, vec![135, 44, 205, 198, 25, 1, 72, 188, 3, 0, 0, 0, 1, 2, 3]);
}

#[test]
fn test_bytes_data() {
    let idl = one_arg_idl(IdlType::Bytes);
    let instruction = idl.find_instruction("new").expect("Instruction not found: new");
    let data: Vec<String> = vec!["123456".to_string()];
    let data = construct_instruction_data(instruction, &data, &idl.types).unwrap();
    assert_eq!(data, vec![135, 44, 205, 198, 25, 1, 72, 188, 3, 0, 0, 0, 18, 52, 86]);
}
