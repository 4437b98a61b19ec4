//! The schema model: a loaded interface description.
//!
//! A schema holds the instructions a program offers (each with its typed
//! arguments, its account descriptors and an optional return type) and the
//! named composite type definitions those instructions may reference.
//! Type-reference and variant-name validity are checked lazily by the
//! encoder, decoder and resolver, not here.

use vstd::prelude::*;

use crate::strutil::str_eq;

verus! {

/// A type a schema can declare for an argument, a field or a return value.
///
/// Float widths and optional-wrapped types can be declared but are not
/// supported by the codec: encoding or decoding them fails explicitly.
#[derive(Debug)]
pub enum IdlType {
    Bool,
    U8,
    I8,
    U16,
    I16,
    U32,
    I32,
    U64,
    I64,
    U128,
    I128,
    U256,
    I256,
    F32,
    F64,
    Bytes,
    Str,
    PublicKey,
    Defined(String),
    Optional(Box<IdlType>),
    Vector(Box<IdlType>),
    Array(Box<IdlType>, usize),
}

/// A named, typed field of a record definition.
#[derive(Debug)]
pub struct IdlField {
    pub name: String,
    pub ty: IdlType,
}

/// The body of a named type definition: a record with ordered fields, or a
/// tagged choice whose value is one of a fixed set of variant names.
#[derive(Debug)]
pub enum IdlTypeDefinitionTy {
    Record { fields: Vec<IdlField> },
    TaggedChoice { variants: Vec<String> },
}

/// A named composite type definition of the schema.
#[derive(Debug)]
pub struct IdlTypeDefinition {
    pub name: String,
    pub ty: IdlTypeDefinitionTy,
}

/// One account a schema instruction requires: its name and whether the
/// schema declares it a signer and mutable.
#[derive(Debug)]
pub struct IdlAccount {
    pub name: String,
    pub is_mut: bool,
    pub is_signer: bool,
}

/// An entry of an instruction's account list.  Nested account groups are
/// representable so a schema that declares them can be loaded, but the
/// resolver rejects them.
#[derive(Debug)]
pub enum IdlAccountItem {
    Account(IdlAccount),
    NestedAccounts,
}

/// A named, typed argument of an instruction.
#[derive(Debug)]
pub struct IdlArgument {
    pub name: String,
    pub ty: IdlType,
}

/// One callable instruction of the schema.
#[derive(Debug)]
pub struct Instruction {
    pub name: String,
    pub accounts: Vec<IdlAccountItem>,
    pub args: Vec<IdlArgument>,
    pub returns: Option<IdlType>,
}

/// A loaded schema: the instructions and the named type definitions.
#[derive(Debug)]
pub struct Idl {
    pub instructions: Vec<Instruction>,
    pub types: Vec<IdlTypeDefinition>,
}

/// True when some instruction of the list bears this name.
pub open spec fn has_instruction(instrs: Seq<Instruction>, name: Seq<char>) -> bool {
    exists|i: int| 0 <= i < instrs.len() && (#[trigger] instrs[i]).name@ == name
}

/// Index of the first instruction bearing this name.
pub open spec fn instruction_index(instrs: Seq<Instruction>, name: Seq<char>) -> int {
    choose|i: int|
        0 <= i < instrs.len() && (#[trigger] instrs[i]).name@ == name && forall|j: int|
            0 <= j < i ==> (#[trigger] instrs[j]).name@ != name
}

impl Idl {
    /// The first instruction of the given name, if any.
    pub fn find_instruction<'a>(&'a self, name: &str) -> (r: Option<&'a Instruction>)
        ensures
            r is Some <==> has_instruction(self.instructions@, name@),
            r matches Some(ins) ==> {
                let i = instruction_index(self.instructions@, name@);
                &&& 0 <= i < self.instructions@.len()
                &&& *ins == self.instructions@[i]
                &&& self.instructions@[i].name@ == name@
                &&& forall|j: int| 0 <= j < i ==> (#[trigger] self.instructions@[j]).name@ != name@
            },
    {
        let n = self.instructions.len();
        let mut i: usize = 0;
        while i < n
            invariant
                n == self.instructions@.len(),
                0 <= i <= n,
                forall|j: int| 0 <= j < i ==> (#[trigger] self.instructions@[j]).name@ != name@,
            decreases n - i,
        {
            if str_eq(self.instructions[i].name.as_str(), name) {
                proof {
                    let ci = instruction_index(self.instructions@, name@);
                    assert(0 <= i < self.instructions@.len() && self.instructions@[
                        i as int
                    ].name@ == name@ && (forall|j: int|
                        0 <= j < i ==> (#[trigger] self.instructions@[j]).name@ != name@));
                    if ci != i {
                        if ci < i {
                            assert(self.instructions@[ci].name@ != name@);
                        } else {
                            assert(self.instructions@[i as int].name@ != name@);
                        }
                    }
                }
                return Some(&self.instructions[i]);
            }
            i = i + 1;
        }
        None
    }
}

/// Position of the first instruction of the given name, if any.
pub fn instruction_position(idl: &Idl, name: &str) -> (r: Option<usize>)
    ensures
        r is Some <==> has_instruction(idl.instructions@, name@),
        r matches Some(i) ==> i == instruction_index(idl.instructions@, name@)
            && 0 <= i < idl.instructions@.len() && idl.instructions@[i as int].name@ == name@,
{
    let n = idl.instructions.len();
    let mut i: usize = 0;
    while i < n
        invariant
            n == idl.instructions@.len(),
            0 <= i <= n,
            forall|j: int| 0 <= j < i ==> (#[trigger] idl.instructions@[j]).name@ != name@,
        decreases n - i,
    {
        if str_eq(idl.instructions[i].name.as_str(), name) {
            proof {
                let ci = instruction_index(idl.instructions@, name@);
                assert(0 <= i < idl.instructions@.len() && idl.instructions@[i as int].name@
                    == name@ && (forall|j: int|
                    0 <= j < i ==> (#[trigger] idl.instructions@[j]).name@ != name@));
                if ci != i {
                    if ci < i {
                        assert(idl.instructions@[ci].name@ != name@);
                    } else {
                        assert(idl.instructions@[i as int].name@ != name@);
                    }
                }
            }
            return Some(i);
        }
        i = i + 1;
    }
    None
}

/// True when some type definition of the list bears this name.
pub open spec fn has_type_definition(types: Seq<IdlTypeDefinition>, name: Seq<char>) -> bool {
    exists|i: int| 0 <= i < types.len() && (#[trigger] types[i]).name@ == name
}

/// Index of the first type definition bearing this name.
pub open spec fn type_def_index(types: Seq<IdlTypeDefinition>, name: Seq<char>) -> int {
    choose|i: int|
        0 <= i < types.len() && (#[trigger] types[i]).name@ == name && forall|j: int|
            0 <= j < i ==> (#[trigger] types[j]).name@ != name
}

/// The first type definition of the given name, if any.
pub fn find_type_definition<'a>(types: &'a Vec<IdlTypeDefinition>, name: &str) -> (r: Option<
    &'a IdlTypeDefinition,
>)
    ensures
        r is Some <==> has_type_definition(types@, name@),
        r matches Some(td) ==> {
            let i = type_def_index(types@, name@);
            &&& 0 <= i < types@.len()
            &&& *td == types@[i]
            &&& types@[i].name@ == name@
        },
{
    let n = types.len();
    let mut i: usize = 0;
    while i < n
        invariant
            n == types@.len(),
            0 <= i <= n,
            forall|j: int| 0 <= j < i ==> (#[trigger] types@[j]).name@ != name@,
        decreases n - i,
    {
        if str_eq(types[i].name.as_str(), name) {
            proof {
                let ci = type_def_index(types@, name@);
                assert(0 <= i < types@.len() && types@[i as int].name@ == name@ && (forall|j: int|
                    0 <= j < i ==> (#[trigger] types@[j]).name@ != name@));
                if ci != i {
                    if ci < i {
                        assert(types@[ci].name@ != name@);
                    } else {
                        assert(types@[i as int].name@ != name@);
                    }
                }
            }
            return Some(&types[i]);
        }
        i = i + 1;
    }
    None
}

} // verus!
