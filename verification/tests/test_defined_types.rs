//! Record and tagged-choice arguments.

use aqd_solana_contracts::encode::construct_instruction_data;
use aqd_solana_contracts::idl::{
    Idl, IdlAccountItem, IdlAccount, IdlArgument, IdlField, IdlType, IdlTypeDefinition,
    IdlTypeDefinitionTy, Instruction,
};

pub fn defined_types_idl() -> Idl {
    Idl {
        instructions: vec![Instruction {
            name: "new".to_string(),
            accounts: vec![IdlAccountItem::Account(IdlAccount {
                name: "dataAccount".to_string(),
                is_mut: true,
                is_signer: true,
            })],
            args: vec![IdlArgument {
                name: "person".to_string(),
                ty: IdlType::Defined("Person".to_string()),
            }],
            returns: None,
        }],
        types: vec![
            IdlTypeDefinition {
                name: "Person".to_string(),
                ty: IdlTypeDefinitionTy::Record {
                    fields: vec![
                        IdlField {
                            name: "name".to_string(),
                            ty: IdlType::Str,
                        },
                        IdlField {
                            name: "age".to_string(),
                            ty: IdlType::U8,
                        },
                        IdlField {
                            name: "favoriteColor".to_string(),
                            ty: IdlType::Defined("Color".to_string()),
                        },
                    ],
                },
            },
            IdlTypeDefinition {
                name: "Color".to_string(),
                ty: IdlTypeDefinitionTy::TaggedChoice {
                    variants: vec![
                        "Red".to_string(),
                        "Green".to_string(),
                        "Blue".to_string(),
                    ],
                },
            },
        ],
    }
}

#[test]
fn test_defined_types_new_data() {
    let idl = defined_types_idl();
    let instruction = idl.find_instruction("new").expect("Instruction not found: new");
    let person = r#"
    {
        "name": "Alice",
        "age": 30,
        "favoriteColor": "Red"
      }"#
        .to_string();
    let data = vec![person];
    let data = construct_instruction_data(instruction, &data, &idl.types).unwrap();
    assert_eq!(
        data,
        vec![135, 44, 205, 198, 25, 1, 72, 188, 7, 0, 0, 0, 34, 65, 108, 105, 99, 101, 34, 30, 0]
    );
}
