//! Integer arguments of every width.

use aqd_solana_contracts::encode::construct_instruction_data;
use aqd_solana_contracts::idl::{
    Idl, IdlAccountItem, IdlAccount, IdlArgument, IdlType, Instruction,
};

fn int_idl(tys: Vec<IdlType>) -> Idl {
    let args = tys
        .into_iter()
        .enumerate()
        .map(|(i, ty)| IdlArgument {
            name: format!("value{}", i),
            ty,
        })
        .collect();
    Idl {
        instructions: vec![Instruction {
            name: "new".to_string(),
            accounts: vec![IdlAccountItem::Account(IdlAccount {
                name: "dataAccount".to_string(),
                is_mut: true,
                is_signer: true,
            })],
            args,
            returns: None,
        }],
        types: vec![],
    }
}

#[test]
fn test_unsigned_int_data() {
    let idl = int_idl(vec![
        IdlType::U8,
        IdlType::U16,
        IdlType::U32,
        IdlType::U64,
        IdlType::U128,
        IdlType::U256,
    ]);
    let instruction = idl.find_instruction("new").expect("Instruction not found: new");
    let data: Vec<String> = vec![
        "12".to_string(),
        "1234".to_string(),
        "12345678".to_string(),
        "123456789012345".to_string(),
        "123456789012345678901234".to_string(),
        "1234567890123456789012345678901234567890".to_string(),
    ];
    let data = construct_instruction_data(instruction, &data, &idl.types).unwrap();
    assert_eq!(
        data,
        vec![
            135, 44, 205, 198, 25, 1, 72, 188, 12, 210, 4, 78, 97, 188, 0, 121, 223, 13, 134, 72,
            112, 0, 0, 242, 175, 150, 108, 160, 16, 31, 155, 36, 26, 0, 0, 0, 0, 0, 0, 210, 10, 63,
            206, 150, 95, 188, 172, 184, 243, 219, 192, 117, 32, 201, 160, 3, 0, 0, 0, 0, 0, 0, 0,
            0, 0, 0, 0, 0, 0, 0, 0
        ]
    );
}

#[test]
fn test_signed_int_data() {
    let idl = int_idl(vec![
        IdlType::I8,
        IdlType::I16,
        IdlType::I32,
        IdlType::I64,
        IdlType::I128,
        IdlType::I256,
    ]);
    let instruction = idl.find_instruction("new").expect("Instruction not found: new");
    let data: Vec<String> = vec![
        "12".to_string(),
        "-1234".to_string(),
        "12345678".to_string(),
        "-123456789012345".to_string(),
        "123456789012345678901234".to_string(),
        "-1234567890123456789012345678901234567890".to_string(),
    ];
    let data = construct_instruction_data(instruction, &data, &idl.types).unwrap();
    assert_eq!(
        data,
        vec![
            135, 44, 205, 198, 25, 1, 72, 188, 12, 46, 251, 78, 97, 188, 0, 135, 32, 242, 121, 183,
            143, 255, 255, 242, 175, 150, 108, 160, 16, 31, 155, 36, 26, 0, 0, 0, 0, 0, 0, 46, 245,
            192, 49, 105, 160, 67, 83, 71, 12, 36, 63, 138, 223, 54, 95, 252, 255, 255, 255, 255,
            255, 255, 255, 255, 255, 255, 255, 255, 255, 255, 255
        ]
    );
}
