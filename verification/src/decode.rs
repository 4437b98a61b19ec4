//! The instruction return decoder.
//!
//! Mirrors the encoder's type switch in the opposite direction: fixed
//! width scalars read their bytes from the current offset, byte strings,
//! text and vectors read a four-byte count first, fixed arrays read
//! exactly their declared element count, a record decodes its fields in
//! order, and a tagged choice reads one byte and renders the matching
//! variant name.  The rendering is operator-facing text: decimal for
//! integers, hex for byte strings, base58 for addresses, elements joined
//! with commas inside brackets for arrays, fields inside braces for
//! records.

use vstd::prelude::*;

use crate::b58::b58_text_of;
use crate::errors::{ErrorKind, SolanaError};
use crate::idl::{
    has_type_definition, type_def_index, IdlField, IdlType, IdlTypeDefinition, IdlTypeDefinitionTy,
    find_type_definition,
};
use crate::nums::{div_small, le_int, le_nat, lemma_le_nat_bound, pow256};
use crate::strutil::{concat2, copy_bytes, extend_bytes, string_from_utf8};
use crate::encode::{fields_size, ty_size};
use vstd::string::StringSliceAdditionalSpecFns;
use vstd::utf8::{encode_utf8, valid_utf8};

verus! {

/// The decimal digits of a value, least significant first; empty for zero.
pub open spec fn dec_digits_lsb(v: nat) -> Seq<nat>
    decreases v
        via dec_digits_lsb_decreases
{
    if v == 0 {
        Seq::<nat>::empty()
    } else {
        seq![v % 10] + dec_digits_lsb(v / 10)
    }
}

#[via_fn]
proof fn dec_digits_lsb_decreases(v: nat) {
    if v > 0 {
        vstd::arithmetic::div_mod::lemma_div_decreases(v as int, 10);
    }
}

/// The decimal text of a value, most significant digit first.
pub open spec fn nat_dec_text(v: nat) -> Seq<u8> {
    if v == 0 {
        seq![48u8]
    } else {
        dec_digits_lsb(v).reverse().map(|i: int, d: nat| (d + 48) as u8)
    }
}

/// The decimal text of a signed value.
pub open spec fn int_dec_text(v: int) -> Seq<u8> {
    if v < 0 {
        seq![45u8] + nat_dec_text((-v) as nat)
    } else {
        nat_dec_text(v as nat)
    }
}

/// Lowercase hex text of bytes, two digits per byte.
pub open spec fn hex_text_of(b: Seq<u8>) -> Seq<u8> {
    Seq::new(
        2 * b.len(),
        |i: int|
            {
                let d = if i % 2 == 0 {
                    b[i / 2] / 16
                } else {
                    b[i / 2] % 16
                };
                if d < 10 {
                    (d + 48) as u8
                } else {
                    (d + 87) as u8
                }
            },
    )
}

/// Render the value of a little-endian buffer as decimal text, consuming
/// the buffer.
fn render_unsigned(buf: Vec<u8>) -> (r: Vec<u8>)
    ensures
        r@ == nat_dec_text(le_nat(buf@)),
{
    let ghost v0 = le_nat(buf@);
    let mut buf = buf;
    let mut digits: Vec<u8> = Vec::new();
    proof {
        assert(digits@.map(|i: int, d: u8| d as nat) =~= Seq::<nat>::empty());
    }
    while !crate::nums::buf_is_zero(&buf)
        invariant
            dec_digits_lsb(v0) =~= digits@.map(|i: int, d: u8| d as nat) + dec_digits_lsb(
                le_nat(buf@),
            ),
            forall|m: int| 0 <= m < digits@.len() ==> (#[trigger] digits@[m]) < 10,
        decreases le_nat(buf@),
    {
        let ghost vpre = le_nat(buf@);
        let d = div_small(&mut buf, 10);
        proof {
            vstd::arithmetic::div_mod::lemma_fundamental_div_mod_converse(
                vpre as int,
                10,
                le_nat(buf@) as int,
                d as int,
            );
            assert(digits@.push(d).map(|i: int, d2: u8| d2 as nat) =~= digits@.map(
                |i: int, d2: u8| d2 as nat,
            ).push(d as nat));
            assert(seq![vpre % 10] + dec_digits_lsb(vpre / 10) =~= dec_digits_lsb(vpre));
            assert(digits@.map(|i: int, d2: u8| d2 as nat).push(d as nat) + dec_digits_lsb(
                le_nat(buf@),
            ) =~= digits@.map(|i: int, d2: u8| d2 as nat) + (seq![vpre % 10] + dec_digits_lsb(
                vpre / 10,
            )));
        }
        digits.push(d);
    }
    let nd = digits.len();
    let mut out: Vec<u8> = Vec::new();
    if nd == 0 {
        out.push(48);
        proof {
            assert(dec_digits_lsb(v0) =~= Seq::<nat>::empty());
            assert(v0 == 0) by {
                if v0 > 0 {
                    assert(dec_digits_lsb(v0).len() > 0);
                }
            }
            assert(out@ =~= nat_dec_text(v0));
        }
        return out;
    }
    let mut i: usize = 0;
    while i < nd
        invariant
            nd == digits@.len(),
            0 <= i <= nd,
            out@.len() == i,
            forall|m: int| 0 <= m < nd ==> (#[trigger] digits@[m]) < 10,
            forall|m: int|
                0 <= m < i ==> (#[trigger] out@[m]) == (digits@[nd - 1 - m] as nat + 48) as u8,
        decreases nd - i,
    {
        let d = digits[nd - 1 - i];
        out.push(d + 48);
        i = i + 1;
    }
    proof {
        let dseq = digits@.map(|i2: int, d2: u8| d2 as nat);
        assert(dec_digits_lsb(le_nat(buf@)) =~= Seq::<nat>::empty());
        assert(dec_digits_lsb(v0) =~= dseq);
        assert(v0 != 0) by {
            if v0 == 0 {
                assert(dec_digits_lsb(v0).len() == 0);
            }
        }
        let spec_out = dec_digits_lsb(v0).reverse().map(|i2: int, d2: nat| (d2 + 48) as u8);
        assert forall|m: int| 0 <= m < out@.len() implies out@[m] == spec_out[m] by {
            assert(dseq.reverse()[m] == dseq[nd - 1 - m]);
            assert(dseq[nd - 1 - m] == digits@[nd - 1 - m] as nat);
        }
        assert(out@ =~= spec_out);
    }
    out
}

/// Render bytes as lowercase hex text.
fn render_hex(b: &[u8]) -> (r: Vec<u8>)
    ensures
        r@ == hex_text_of(b@),
{
    let n = b.len();
    let mut out: Vec<u8> = Vec::new();
    let mut i: usize = 0;
    while i < n
        invariant
            n == b@.len(),
            0 <= i <= n,
            out@.len() == 2 * i,
            forall|m: int| 0 <= m < 2 * i ==> (#[trigger] out@[m]) == hex_text_of(b@)[m],
        decreases n - i,
    {
        let byte = b[i];
        let hi = byte / 16;
        let lo = byte % 16;
        out.push(
            if hi < 10 {
                hi + 48
            } else {
                hi + 87
            },
        );
        out.push(
            if lo < 10 {
                lo + 48
            } else {
                lo + 87
            },
        );
        proof {
            assert(hex_text_of(b@)[2 * i] == out@[2 * i as int]);
            assert(hex_text_of(b@)[2 * i + 1] == out@[2 * i + 1]);
        }
        i = i + 1;
    }
    proof {
        assert(out@ =~= hex_text_of(b@));
    }
    out
}

/// What decoding one value at an offset yields: its rendered text (as
/// UTF-8 bytes) and the number of bytes consumed, or the error kind.
/// `fuel` bounds `Defined` nesting as in the encoder.
#[verifier::opaque]
pub open spec fn decode_spec(
    data: Seq<u8>,
    off: nat,
    ty: IdlType,
    types: Seq<IdlTypeDefinition>,
    fuel: nat,
) -> Result<(Seq<u8>, nat), ErrorKind>
    decreases fuel, ty_size(ty), 0nat,
{
    match ty {
        IdlType::Bool => if off + 1 > data.len() {
            Err(ErrorKind::Parse)
        } else if data[off as int] == 1 {
            Ok((encode_utf8("true"@), 1))
        } else if data[off as int] == 0 {
            Ok((encode_utf8("false"@), 1))
        } else {
            Err(ErrorKind::Parse)
        },
        IdlType::U8 => scalar_arm(data, off, 1, false),
        IdlType::U16 => scalar_arm(data, off, 2, false),
        IdlType::U32 => scalar_arm(data, off, 4, false),
        IdlType::U64 => scalar_arm(data, off, 8, false),
        IdlType::U128 => scalar_arm(data, off, 16, false),
        IdlType::U256 => scalar_arm(data, off, 32, false),
        IdlType::I8 => scalar_arm(data, off, 1, true),
        IdlType::I16 => scalar_arm(data, off, 2, true),
        IdlType::I32 => scalar_arm(data, off, 4, true),
        IdlType::I64 => scalar_arm(data, off, 8, true),
        IdlType::I128 => scalar_arm(data, off, 16, true),
        IdlType::I256 => scalar_arm(data, off, 32, true),
        IdlType::F32 => Err(ErrorKind::UnsupportedType),
        IdlType::F64 => Err(ErrorKind::UnsupportedType),
        IdlType::Optional(_) => Err(ErrorKind::UnsupportedType),
        IdlType::Bytes => {
            match prefixed_slice(data, off) {
                Err(e) => Err(e),
                Ok((b, used)) => Ok((hex_text_of(b), used)),
            }
        },
        IdlType::Str => {
            match prefixed_slice(data, off) {
                Err(e) => Err(e),
                Ok((b, used)) => if valid_utf8(b) {
                    Ok((b, used))
                } else {
                    Err(ErrorKind::Parse)
                },
            }
        },
        IdlType::PublicKey => if off + 32 > data.len() {
            Err(ErrorKind::Parse)
        } else {
            Ok((b58_text_of(data.subrange(off as int, off + 32 as int)), 32))
        },
        IdlType::Vector(elem) => {
            if off + 4 > data.len() {
                Err(ErrorKind::Parse)
            } else {
                let count = le_nat(data.subrange(off as int, off + 4 as int));
                match decode_list_spec(data, off + 4, count, *elem, types, fuel) {
                    Err(e) => Err(e),
                    Ok((text, used)) => Ok(
                        (encode_utf8("["@) + text + encode_utf8("]"@), 4 + used),
                    ),
                }
            }
        },
        IdlType::Array(elem, size) => {
            match decode_list_spec(data, off, size as nat, *elem, types, fuel) {
                Err(e) => Err(e),
                Ok((text, used)) => Ok((encode_utf8("["@) + text + encode_utf8("]"@), used)),
            }
        },
        IdlType::Defined(name) => {
            if fuel == 0 {
                Err(ErrorKind::UnsupportedType)
            } else if !has_type_definition(types, name@) {
                Err(ErrorKind::TypeNotFound)
            } else {
                let td = types[type_def_index(types, name@)];
                match td.ty {
                    IdlTypeDefinitionTy::Record { fields } => {
                        match decode_fields_spec(data, off, fields@, types, (fuel - 1) as nat) {
                            Err(e) => Err(e),
                            Ok((text, used)) => Ok(
                                (encode_utf8("{"@) + text + encode_utf8("}"@), used),
                            ),
                        }
                    },
                    IdlTypeDefinitionTy::TaggedChoice { variants } => {
                        if off + 1 > data.len() {
                            Err(ErrorKind::Parse)
                        } else if data[off as int] < variants@.len() {
                            Ok((encode_utf8(variants@[data[off as int] as int]@), 1))
                        } else {
                            Err(ErrorKind::VariantNotFound)
                        }
                    },
                }
            }
        },
    }
}

/// A fixed-width integer read at an offset, rendered as decimal text.
pub open spec fn scalar_arm(data: Seq<u8>, off: nat, w: nat, signed: bool) -> Result<
    (Seq<u8>, nat),
    ErrorKind,
> {
    if off + w > data.len() {
        Err(ErrorKind::Parse)
    } else {
        let b = data.subrange(off as int, (off + w) as int);
        if signed {
            Ok((int_dec_text(le_int(b)), w))
        } else {
            Ok((nat_dec_text(le_nat(b)), w))
        }
    }
}

/// A four-byte little-endian count, then that many bytes.
pub open spec fn prefixed_slice(data: Seq<u8>, off: nat) -> Result<(Seq<u8>, nat), ErrorKind> {
    if off + 4 > data.len() {
        Err(ErrorKind::Parse)
    } else {
        let n = le_nat(data.subrange(off as int, off + 4 as int));
        if off + 4 + n > data.len() {
            Err(ErrorKind::Parse)
        } else {
            Ok((data.subrange(off + 4 as int, (off + 4 + n) as int), 4 + n))
        }
    }
}

/// `count` elements decoded in sequence, their texts joined with commas.
#[verifier::opaque]
pub open spec fn decode_list_spec(
    data: Seq<u8>,
    off: nat,
    count: nat,
    elem: IdlType,
    types: Seq<IdlTypeDefinition>,
    fuel: nat,
) -> Result<(Seq<u8>, nat), ErrorKind>
    decreases fuel, ty_size(elem), count + 1,
{
    if count == 0 {
        Ok((Seq::<u8>::empty(), 0))
    } else {
        match decode_spec(data, off, elem, types, fuel) {
            Err(e) => Err(e),
            Ok((text, used)) => match decode_list_spec(
                data,
                off + used,
                (count - 1) as nat,
                elem,
                types,
                fuel,
            ) {
                Err(e) => Err(e),
                Ok((rest, used2)) => if count == 1 {
                    Ok((text, used))
                } else {
                    Ok((text + encode_utf8(","@) + rest, used + used2))
                },
            },
        }
    }
}

/// A record's fields decoded in order, their texts joined with commas.
#[verifier::opaque]
pub open spec fn decode_fields_spec(
    data: Seq<u8>,
    off: nat,
    fields: Seq<IdlField>,
    types: Seq<IdlTypeDefinition>,
    fuel: nat,
) -> Result<(Seq<u8>, nat), ErrorKind>
    decreases fuel, fields_size(fields), 0nat,
{
    if fields.len() == 0 {
        Ok((Seq::<u8>::empty(), 0))
    } else {
        match decode_spec(data, off, fields[0].ty, types, fuel) {
            Err(e) => Err(e),
            Ok((text, used)) => match decode_fields_spec(
                data,
                off + used,
                fields.skip(1),
                types,
                fuel,
            ) {
                Err(e) => Err(e),
                Ok((rest, used2)) => if fields.len() == 1 {
                    Ok((text, used))
                } else {
                    Ok((text + encode_utf8(","@) + rest, used + used2))
                },
            },
        }
    }
}

} // verus!
// Validity of the rendered text, and one-step unfoldings.

verus! {

/// ASCII bytes are valid UTF-8.
pub proof fn lemma_ascii_valid_utf8(b: Seq<u8>)
    requires
        forall|i: int| 0 <= i < b.len() ==> b[i] < 128,
    ensures
        valid_utf8(b),
{
    assert(valid_utf8(b.subrange(0, 0))) by {
        assert(b.subrange(0, 0) =~= Seq::<u8>::empty());
    }
    assert(vstd::utf8::partial_valid_utf8(b, 0));
    assert forall|i: int|
        0 <= 0 <= i < b.len() <= b.len() implies #[trigger] vstd::utf8::is_leading_byte_width_1(
        b[i],
    ) by {}
    vstd::utf8::partial_valid_utf8_extend_ascii_block(b, 0, b.len() as int);
    assert(b.subrange(0, b.len() as int) =~= b);
}

/// Decimal text is ASCII.
pub proof fn lemma_dec_digits_small(v: nat)
    ensures
        forall|i: int|
            0 <= i < dec_digits_lsb(v).len() ==> (#[trigger] dec_digits_lsb(v)[i]) < 10,
    decreases v,
{
    if v > 0 {
        vstd::arithmetic::div_mod::lemma_div_decreases(v as int, 10);
        lemma_dec_digits_small(v / 10);
        assert forall|i: int|
            0 <= i < dec_digits_lsb(v).len() implies (#[trigger] dec_digits_lsb(v)[i]) < 10 by {
            if i > 0 {
                assert(dec_digits_lsb(v)[i] == dec_digits_lsb(v / 10)[i - 1]);
            }
        }
    }
}

pub proof fn lemma_nat_dec_text_ascii(v: nat)
    ensures
        forall|i: int| 0 <= i < nat_dec_text(v).len() ==> (#[trigger] nat_dec_text(v)[i]) < 128,
{
    if v != 0 {
        lemma_dec_digits_small(v);
        let ds = dec_digits_lsb(v);
        assert forall|i: int|
            0 <= i < nat_dec_text(v).len() implies (#[trigger] nat_dec_text(v)[i]) < 128 by {
            assert(ds.reverse()[i] == ds[ds.len() - 1 - i]);
            assert(ds[ds.len() - 1 - i] < 10);
        }
    }
}

pub proof fn lemma_int_dec_text_ascii(v: int)
    ensures
        forall|i: int| 0 <= i < int_dec_text(v).len() ==> (#[trigger] int_dec_text(v)[i]) < 128,
{
    if v < 0 {
        lemma_nat_dec_text_ascii((-v) as nat);
        assert forall|i: int|
            0 <= i < int_dec_text(v).len() implies (#[trigger] int_dec_text(v)[i]) < 128 by {
            if i > 0 {
                assert(int_dec_text(v)[i] == nat_dec_text((-v) as nat)[i - 1]);
            }
        }
    } else {
        lemma_nat_dec_text_ascii(v as nat);
    }
}

pub proof fn lemma_hex_text_ascii(b: Seq<u8>)
    ensures
        forall|i: int| 0 <= i < hex_text_of(b).len() ==> (#[trigger] hex_text_of(b)[i]) < 128,
{
}

pub proof fn lemma_b58_text_ascii(b: Seq<u8>)
    ensures
        forall|i: int| 0 <= i < b58_text_of(b).len() ==> (#[trigger] b58_text_of(b)[i]) < 128,
{
    let ones = Seq::new(crate::b58::leading_zero_byte_count(b), |i: int| 49u8);
    let digits = crate::b58::b58_digits_of(crate::b58::be_nat(b)).reverse().map(
        |i: int, d: nat| crate::b58::b58_char_of(d),
    );
    assert forall|i: int|
        0 <= i < b58_text_of(b).len() implies (#[trigger] b58_text_of(b)[i]) < 128 by {
        if i < ones.len() {
            assert(b58_text_of(b)[i] == 49u8);
        } else {
            assert(b58_text_of(b)[i] == digits[i - ones.len()]);
            assert(digits[i - ones.len()] == crate::b58::b58_char_of(
                crate::b58::b58_digits_of(crate::b58::be_nat(b)).reverse()[i - ones.len()],
            ));
        }
    }
}

/// One unfolding of the element list decoding.
proof fn lemma_list_unfold(
    data: Seq<u8>,
    off: nat,
    count: nat,
    elem: IdlType,
    types: Seq<IdlTypeDefinition>,
    fuel: nat,
)
    requires
        count > 0,
    ensures
        decode_list_spec(data, off, count, elem, types, fuel) == (match decode_spec(
            data,
            off,
            elem,
            types,
            fuel,
        ) {
            Err(e) => Err::<(Seq<u8>, nat), ErrorKind>(e),
            Ok((text, used)) => match decode_list_spec(
                data,
                off + used,
                (count - 1) as nat,
                elem,
                types,
                fuel,
            ) {
                Err(e) => Err::<(Seq<u8>, nat), ErrorKind>(e),
                Ok((rest, used2)) => if count == 1 {
                    Ok::<(Seq<u8>, nat), ErrorKind>((text, used))
                } else {
                    Ok::<(Seq<u8>, nat), ErrorKind>(
                        (text + encode_utf8(","@) + rest, used + used2),
                    )
                },
            },
        }),
{
    reveal(decode_spec);
    reveal(decode_list_spec);
    reveal(decode_fields_spec);
}

/// One unfolding of the record field decoding.
proof fn lemma_rec_fields_unfold(
    data: Seq<u8>,
    off: nat,
    fields: Seq<IdlField>,
    types: Seq<IdlTypeDefinition>,
    fuel: nat,
)
    requires
        fields.len() > 0,
    ensures
        decode_fields_spec(data, off, fields, types, fuel) == (match decode_spec(
            data,
            off,
            fields[0].ty,
            types,
            fuel,
        ) {
            Err(e) => Err::<(Seq<u8>, nat), ErrorKind>(e),
            Ok((text, used)) => match decode_fields_spec(
                data,
                off + used,
                fields.skip(1),
                types,
                fuel,
            ) {
                Err(e) => Err::<(Seq<u8>, nat), ErrorKind>(e),
                Ok((rest, used2)) => if fields.len() == 1 {
                    Ok::<(Seq<u8>, nat), ErrorKind>((text, used))
                } else {
                    Ok::<(Seq<u8>, nat), ErrorKind>(
                        (text + encode_utf8(","@) + rest, used + used2),
                    )
                },
            },
        }),
{
    reveal(decode_spec);
    reveal(decode_list_spec);
    reveal(decode_fields_spec);
}

/// Empty lists and field sets decode to empty text.
proof fn lemma_list_empty(
    data: Seq<u8>,
    off: nat,
    elem: IdlType,
    types: Seq<IdlTypeDefinition>,
    fuel: nat,
)
    ensures
        decode_list_spec(data, off, 0, elem, types, fuel) == Ok::<(Seq<u8>, nat), ErrorKind>(
            (Seq::<u8>::empty(), 0nat),
        ),
{
    reveal(decode_spec);
    reveal(decode_list_spec);
    reveal(decode_fields_spec);
}

proof fn lemma_rec_fields_empty(
    data: Seq<u8>,
    off: nat,
    types: Seq<IdlTypeDefinition>,
    fuel: nat,
)
    ensures
        decode_fields_spec(data, off, Seq::<IdlField>::empty(), types, fuel) == Ok::<
            (Seq<u8>, nat),
            ErrorKind,
        >((Seq::<u8>::empty(), 0nat)),
{
    reveal(decode_spec);
    reveal(decode_list_spec);
    reveal(decode_fields_spec);
}

/// The value of four little-endian bytes.
pub proof fn lemma_le_nat4(s: Seq<u8>)
    requires
        s.len() == 4,
    ensures
        le_nat(s) == s[0] + 256 * (s[1] + 256 * (s[2] + 256 * (s[3] as nat))),
{
    assert(s.skip(1).skip(1).skip(1).skip(1) =~= Seq::<u8>::empty());
    assert(s.skip(1)[0] == s[1] && s.skip(1).skip(1)[0] == s[2] && s.skip(1).skip(1).skip(1)[0]
        == s[3]);
    assert(s.skip(1).skip(1) =~= s.skip(2));
    assert(s.skip(1).skip(1).skip(1) =~= s.skip(3));
    assert(s.skip(3).skip(1) =~= Seq::<u8>::empty());
    assert(s.skip(3)[0] == s[3]);
    assert(s.skip(2)[0] == s[2]);
    assert(le_nat(Seq::<u8>::empty()) == 0);
    assert(le_nat(s.skip(3)) == s[3]);
    assert(le_nat(s.skip(2)) == s[2] + 256 * le_nat(s.skip(2).skip(1)));
    assert(s.skip(2).skip(1) =~= s.skip(3));
    assert(le_nat(s.skip(1)) == s[1] + 256 * le_nat(s.skip(1).skip(1)));
}

/// Read a four-byte little-endian count at an offset.
fn read_u32_at(data: &[u8], off: usize) -> (r: Option<usize>)
    ensures
        r is Some <==> off + 4 <= data@.len(),
        r matches Some(n) ==> n == le_nat(data@.subrange(off as int, off + 4 as int))
            && n < 0x1_0000_0000,
{
    if off > data.len() || data.len() - off < 4 {
        return None;
    }
    let b0 = data[off] as usize;
    let b1 = data[off + 1] as usize;
    let b2 = data[off + 2] as usize;
    let b3 = data[off + 3] as usize;
    let n = b0 + 256 * (b1 + 256 * (b2 + 256 * b3));
    proof {
        lemma_le_nat4(data@.subrange(off as int, off + 4 as int));
    }
    Some(n)
}

} // verus!
// The executable decoder, proved against the spec above.

verus! {

/// Compose decoded text and consumed bytes with the remaining work.
pub open spec fn chain_dec(
    done: Seq<u8>,
    used: nat,
    rest: Result<(Seq<u8>, nat), ErrorKind>,
) -> Result<(Seq<u8>, nat), ErrorKind> {
    match rest {
        Ok((rt, ru)) => Ok((done + rt, used + ru)),
        Err(e) => Err(e),
    }
}

/// A decoded boolean at an offset.
pub open spec fn bool_arm(data: Seq<u8>, off: nat) -> Result<(Seq<u8>, nat), ErrorKind> {
    if off + 1 > data.len() {
        Err(ErrorKind::Parse)
    } else if data[off as int] == 1 {
        Ok((encode_utf8("true"@), 1))
    } else if data[off as int] == 0 {
        Ok((encode_utf8("false"@), 1))
    } else {
        Err(ErrorKind::Parse)
    }
}

/// A decoded tagged-choice at an offset: the variant the byte names.
pub open spec fn choice_arm(data: Seq<u8>, off: nat, variants: Seq<String>) -> Result<
    (Seq<u8>, nat),
    ErrorKind,
> {
    if off + 1 > data.len() {
        Err(ErrorKind::Parse)
    } else if data[off as int] < variants.len() {
        Ok((encode_utf8(variants[data[off as int] as int]@), 1))
    } else {
        Err(ErrorKind::VariantNotFound)
    }
}

fn short_data_error() -> (r: SolanaError)
    ensures
        r.kind == ErrorKind::Parse,
{
    SolanaError::new(ErrorKind::Parse, concat2("the return data is too short", ""))
}

/// Decode one fixed-width integer and render it as decimal text.
fn decode_scalar(data: &[u8], off: usize, w: usize, signed: bool) -> (r: Result<
    (Vec<u8>, usize),
    SolanaError,
>)
    requires
        1 <= w <= 32,
    ensures
        r matches Ok(p) ==> {
            &&& scalar_arm(data@, off as nat, w as nat, signed) == Ok::<(Seq<u8>, nat), ErrorKind>(
                (p.0@, p.1 as nat),
            )
            &&& p.1 == w
            &&& off + w <= data@.len()
            &&& valid_utf8(p.0@)
        },
        r matches Err(e) ==> scalar_arm(data@, off as nat, w as nat, signed) == Err::<
            (Seq<u8>, nat),
            ErrorKind,
        >(e.kind),
{
    if off > data.len() || data.len() - off < w {
        return Err(short_data_error());
    }
    let buf = copy_bytes(&data[off..off + w]);
    let ghost sub = data@.subrange(off as int, (off + w) as int);
    if !signed {
        let text = render_unsigned(buf);
        proof {
            lemma_nat_dec_text_ascii(le_nat(sub));
            lemma_ascii_valid_utf8(text@);
        }
        Ok((text, w))
    } else {
        let mut buf = buf;
        let top = buf[w - 1];
        if top >= 128 {
            let ghost orig = buf@;
            proof {
                crate::nums::lemma_le_nat_zero(orig);
                assert(le_nat(orig) > 0) by {
                    if le_nat(orig) == 0 {
                        assert(orig[w - 1] == 0);
                    }
                }
                lemma_le_nat_bound(orig);
            }
            crate::nums::negate_in_place(&mut buf);
            let ghost mag = le_nat(buf@);
            proof {
                assert(mag + le_nat(orig) == pow256(w as nat));
                assert(le_int(sub) == le_nat(orig) - pow256(w as nat));
                assert(le_int(sub) < 0);
                assert(mag == -le_int(sub));
            }
            let digits = render_unsigned(buf);
            let mut text: Vec<u8> = Vec::new();
            text.push(45);
            extend_bytes(&mut text, digits.as_slice());
            proof {
                assert(digits@ == nat_dec_text(mag));
                assert(text@ =~= seq![45u8] + nat_dec_text((-le_int(sub)) as nat));
                assert(text@ =~= int_dec_text(le_int(sub)));
                lemma_int_dec_text_ascii(le_int(sub));
                lemma_ascii_valid_utf8(text@);
            }
            Ok((text, w))
        } else {
            let ghost bv = buf@;
            proof {
                assert(bv == sub);
                assert(le_int(sub) == le_nat(sub));
            }
            let text = render_unsigned(buf);
            proof {
                assert(text@ == nat_dec_text(le_nat(sub)));
                assert(le_int(sub) as nat == le_nat(sub));
                assert(text@ =~= int_dec_text(le_int(sub)));
                lemma_int_dec_text_ascii(le_int(sub));
                lemma_ascii_valid_utf8(text@);
            }
            Ok((text, w))
        }
    }
}

/// Decode a boolean and render it.
fn decode_bool(data: &[u8], off: usize) -> (r: Result<(Vec<u8>, usize), SolanaError>)
    ensures
        r matches Ok(p) ==> bool_arm(data@, off as nat) == Ok::<(Seq<u8>, nat), ErrorKind>(
            (p.0@, p.1 as nat),
        ) && off + p.1 <= data@.len() && valid_utf8(p.0@),
        r matches Err(e) ==> bool_arm(data@, off as nat) == Err::<(Seq<u8>, nat), ErrorKind>(
            e.kind,
        ),
{
    if off >= data.len() {
        return Err(short_data_error());
    }
    let b = data[off];
    if b == 1 {
        let text = copy_bytes("true".as_bytes());
        proof {
            vstd::utf8::encode_utf8_valid_utf8("true"@);
        }
        Ok((text, 1))
    } else if b == 0 {
        let text = copy_bytes("false".as_bytes());
        proof {
            vstd::utf8::encode_utf8_valid_utf8("false"@);
        }
        Ok((text, 1))
    } else {
        Err(SolanaError::new(ErrorKind::Parse, concat2("the return data holds no valid boolean", "")))
    }
}

/// Decode a length-prefixed byte string and render it as hex text.
fn decode_bytes_text(data: &[u8], off: usize) -> (r: Result<(Vec<u8>, usize), SolanaError>)
    ensures
        r matches Ok(p) ==> (match prefixed_slice(data@, off as nat) {
            Err(e) => false,
            Ok((b, used)) => p.0@ == hex_text_of(b) && p.1 == used,
        }) && off + p.1 <= data@.len() && valid_utf8(p.0@),
        r matches Err(e) ==> prefixed_slice(data@, off as nat) is Err && e.kind == ErrorKind::Parse,
{
    let n = match read_u32_at(data, off) {
        Some(n) => n,
        None => {
            return Err(short_data_error());
        },
    };
    if data.len() - (off + 4) < n {
        return Err(short_data_error());
    }
    let text = render_hex(&data[off + 4..off + 4 + n]);
    proof {
        lemma_hex_text_ascii(data@.subrange(off + 4 as int, (off + 4 + n) as int));
        lemma_ascii_valid_utf8(text@);
    }
    Ok((text, 4 + n))
}

/// Decode length-prefixed text, verbatim; fails on invalid UTF-8.
fn decode_str_text(data: &[u8], off: usize) -> (r: Result<(Vec<u8>, usize), SolanaError>)
    ensures
        r matches Ok(p) ==> (match prefixed_slice(data@, off as nat) {
            Err(e) => false,
            Ok((b, used)) => p.0@ == b && p.1 == used && valid_utf8(b),
        }) && off + p.1 <= data@.len() && valid_utf8(p.0@),
        r matches Err(e) ==> e.kind == ErrorKind::Parse && (match prefixed_slice(
            data@,
            off as nat,
        ) {
            Err(_) => true,
            Ok((b, used)) => !valid_utf8(b),
        }),
{
    let n = match read_u32_at(data, off) {
        Some(n) => n,
        None => {
            return Err(short_data_error());
        },
    };
    if data.len() - (off + 4) < n {
        return Err(short_data_error());
    }
    let piece = &data[off + 4..off + 4 + n];
    if !crate::strutil::utf8_is_valid(piece) {
        return Err(
            SolanaError::new(ErrorKind::Parse, concat2("the return data holds no valid text", "")),
        );
    }
    Ok((copy_bytes(piece), 4 + n))
}

/// Decode a 32-byte address and render it as base58 text.
fn decode_pubkey_text(data: &[u8], off: usize) -> (r: Result<(Vec<u8>, usize), SolanaError>)
    ensures
        r is Ok <==> off + 32 <= data@.len(),
        r matches Ok(p) ==> p.0@ == b58_text_of(data@.subrange(off as int, off + 32 as int)) && p.1
            == 32 && valid_utf8(p.0@),
        r matches Err(e) ==> e.kind == ErrorKind::Parse,
{
    if off > data.len() || data.len() - off < 32 {
        return Err(short_data_error());
    }
    let text = crate::b58::bytes_to_base58(&data[off..off + 32]);
    proof {
        lemma_b58_text_ascii(data@.subrange(off as int, off + 32 as int));
        lemma_ascii_valid_utf8(text@);
    }
    Ok((text, 32))
}

/// Decode a tagged choice: one byte, rendered as the variant's name.
fn decode_choice(data: &[u8], off: usize, variants: &Vec<String>) -> (r: Result<
    (Vec<u8>, usize),
    SolanaError,
>)
    ensures
        r matches Ok(p) ==> choice_arm(data@, off as nat, variants@) == Ok::<
            (Seq<u8>, nat),
            ErrorKind,
        >((p.0@, p.1 as nat)) && off + p.1 <= data@.len() && valid_utf8(p.0@),
        r matches Err(e) ==> choice_arm(data@, off as nat, variants@) == Err::<
            (Seq<u8>, nat),
            ErrorKind,
        >(e.kind),
{
    if off >= data.len() {
        return Err(short_data_error());
    }
    let idx = data[off];
    if (idx as usize) < variants.len() {
        let text = copy_bytes(variants[idx as usize].as_str().as_bytes());
        proof {
            vstd::utf8::encode_utf8_valid_utf8(variants@[idx as int]@);
        }
        Ok((text, 1))
    } else {
        Err(
            SolanaError::new(
                ErrorKind::VariantNotFound,
                concat2("the return data names no declared variant", ""),
            ),
        )
    }
}

/// Wrap joined element or field text in the given brackets.
fn bracket(open_b: &str, text: Vec<u8>, close_b: &str) -> (r: Vec<u8>)
    requires
        valid_utf8(text@),
    ensures
        r@ == encode_utf8(open_b@) + text@ + encode_utf8(close_b@),
        valid_utf8(r@),
{
    let mut out = copy_bytes(open_b.as_bytes());
    extend_bytes(&mut out, text.as_slice());
    extend_bytes(&mut out, close_b.as_bytes());
    proof {
        vstd::utf8::encode_utf8_valid_utf8(open_b@);
        vstd::utf8::encode_utf8_valid_utf8(close_b@);
        vstd::utf8::valid_utf8_concat(encode_utf8(open_b@), text@);
        vstd::utf8::valid_utf8_concat(encode_utf8(open_b@) + text@, encode_utf8(close_b@));
    }
    out
}

/// The width in bytes and signedness of a fixed-width integer type.
pub open spec fn scalar_of(ty: IdlType) -> Option<(nat, bool)> {
    match ty {
        IdlType::U8 => Some((1nat, false)),
        IdlType::U16 => Some((2nat, false)),
        IdlType::U32 => Some((4nat, false)),
        IdlType::U64 => Some((8nat, false)),
        IdlType::U128 => Some((16nat, false)),
        IdlType::U256 => Some((32nat, false)),
        IdlType::I8 => Some((1nat, true)),
        IdlType::I16 => Some((2nat, true)),
        IdlType::I32 => Some((4nat, true)),
        IdlType::I64 => Some((8nat, true)),
        IdlType::I128 => Some((16nat, true)),
        IdlType::I256 => Some((32nat, true)),
        _ => None,
    }
}

/// Decoding a fixed-width integer type reads its scalar arm.
proof fn lemma_scalar_decode(
    data: Seq<u8>,
    off: nat,
    ty: IdlType,
    types: Seq<IdlTypeDefinition>,
    fuel: nat,
)
    requires
        scalar_of(ty) is Some,
    ensures
        ({
            let p = scalar_of(ty)->0;
            decode_spec(data, off, ty, types, fuel) == scalar_arm(data, off, p.0, p.1)
        }),
{
    reveal(decode_spec);
    reveal(decode_list_spec);
    reveal(decode_fields_spec);
}

/// The scalar parameters of a fixed-width integer type, if it is one.
fn scalar_width(ty: &IdlType) -> (r: Option<(usize, bool)>)
    ensures
        r matches Some(p) ==> scalar_of(*ty) == Some((p.0 as nat, p.1)) && 1 <= p.0 <= 32,
        r is None <==> scalar_of(*ty) is None,
{
    match ty {
        IdlType::U8 => Some((1, false)),
        IdlType::U16 => Some((2, false)),
        IdlType::U32 => Some((4, false)),
        IdlType::U64 => Some((8, false)),
        IdlType::U128 => Some((16, false)),
        IdlType::U256 => Some((32, false)),
        IdlType::I8 => Some((1, true)),
        IdlType::I16 => Some((2, true)),
        IdlType::I32 => Some((4, true)),
        IdlType::I64 => Some((8, true)),
        IdlType::I128 => Some((16, true)),
        IdlType::I256 => Some((32, true)),
        _ => None,
    }
}

/// Decode one value of a declared type at an offset; the result is the
/// rendered text (UTF-8 bytes) and the bytes consumed.  A record with no
/// fields consumes nothing, so the consumed count is zero whenever the
/// offset lies beyond the data.
#[verifier::rlimit(100)]
fn decode_value(
    data: &[u8],
    off: usize,
    ty: &IdlType,
    custom_types: &Vec<IdlTypeDefinition>,
    fuel: usize,
) -> (r: Result<(Vec<u8>, usize), SolanaError>)
    ensures
        r matches Ok(p) ==> {
            &&& decode_spec(data@, off as nat, *ty, custom_types@, fuel as nat) == Ok::<
                (Seq<u8>, nat),
                ErrorKind,
            >((p.0@, p.1 as nat))
            &&& (off + p.1 <= data@.len() || p.1 == 0)
            &&& valid_utf8(p.0@)
        },
        r matches Err(e) ==> decode_spec(data@, off as nat, *ty, custom_types@, fuel as nat)
            == Err::<(Seq<u8>, nat), ErrorKind>(e.kind),
    decreases fuel, ty_size(*ty), 0nat,
{
    let ghost ct = custom_types@;
    let ghost f = fuel as nat;
    let ghost me = decode_spec(data@, off as nat, *ty, ct, f);
    let dlen = data.len();
    if let Some((w, signed)) = scalar_width(ty) {
        proof {
            lemma_scalar_decode(data@, off as nat, *ty, ct, f);
        }
        return decode_scalar(data, off, w, signed);
    }
    match ty {
        IdlType::Bool => {
            proof {
                assert(me == bool_arm(data@, off as nat)) by {
                    reveal(decode_spec);
                    reveal(decode_list_spec);
                    reveal(decode_fields_spec);
                }
            }
            decode_bool(data, off)
        },
        IdlType::F32 => {
            proof {
                assert(me == Err::<(Seq<u8>, nat), ErrorKind>(ErrorKind::UnsupportedType)) by {
                    reveal(decode_spec);
                    reveal(decode_list_spec);
                    reveal(decode_fields_spec);
                }
            }
            Err(SolanaError::new(ErrorKind::UnsupportedType, concat2("float is not supported", "")))
        },
        IdlType::F64 => {
            proof {
                assert(me == Err::<(Seq<u8>, nat), ErrorKind>(ErrorKind::UnsupportedType)) by {
                    reveal(decode_spec);
                    reveal(decode_list_spec);
                    reveal(decode_fields_spec);
                }
            }
            Err(SolanaError::new(ErrorKind::UnsupportedType, concat2("float is not supported", "")))
        },
        IdlType::Optional(_) => {
            proof {
                assert(me == Err::<(Seq<u8>, nat), ErrorKind>(ErrorKind::UnsupportedType)) by {
                    reveal(decode_spec);
                    reveal(decode_list_spec);
                    reveal(decode_fields_spec);
                }
            }
            Err(
                SolanaError::new(
                    ErrorKind::UnsupportedType,
                    concat2("option is not supported", ""),
                ),
            )
        },
        IdlType::Bytes => {
            proof {
                assert(me == (match prefixed_slice(data@, off as nat) {
                    Err(e) => Err::<(Seq<u8>, nat), ErrorKind>(e),
                    Ok((b, used)) => Ok::<(Seq<u8>, nat), ErrorKind>((hex_text_of(b), used)),
                })) by {
                    reveal(decode_spec);
                    reveal(decode_list_spec);
                    reveal(decode_fields_spec);
                }
            }
            decode_bytes_text(data, off)
        },
        IdlType::Str => {
            proof {
                assert(me == (match prefixed_slice(data@, off as nat) {
                    Err(e) => Err::<(Seq<u8>, nat), ErrorKind>(e),
                    Ok((b, used)) => if valid_utf8(b) {
                        Ok::<(Seq<u8>, nat), ErrorKind>((b, used))
                    } else {
                        Err::<(Seq<u8>, nat), ErrorKind>(ErrorKind::Parse)
                    },
                })) by {
                    reveal(decode_spec);
                    reveal(decode_list_spec);
                    reveal(decode_fields_spec);
                }
            }
            decode_str_text(data, off)
        },
        IdlType::PublicKey => {
            proof {
                assert(me == (if off as nat + 32 > data@.len() {
                    Err::<(Seq<u8>, nat), ErrorKind>(ErrorKind::Parse)
                } else {
                    Ok::<(Seq<u8>, nat), ErrorKind>(
                        (b58_text_of(data@.subrange(off as int, off + 32 as int)), 32),
                    )
                })) by {
                    reveal(decode_spec);
                    reveal(decode_list_spec);
                    reveal(decode_fields_spec);
                }
            }
            decode_pubkey_text(data, off)
        },
        IdlType::Vector(elem) => {
            proof {
                assert(me == (if off as nat + 4 > data@.len() {
                    Err::<(Seq<u8>, nat), ErrorKind>(ErrorKind::Parse)
                } else {
                    match decode_list_spec(
                        data@,
                        off as nat + 4,
                        le_nat(data@.subrange(off as int, off + 4 as int)),
                        **elem,
                        ct,
                        f,
                    ) {
                        Err(e) => Err::<(Seq<u8>, nat), ErrorKind>(e),
                        Ok((text, used)) => Ok::<(Seq<u8>, nat), ErrorKind>(
                            (encode_utf8("["@) + text + encode_utf8("]"@), 4 + used),
                        ),
                    }
                })) by {
                    reveal(decode_spec);
                    reveal(decode_list_spec);
                    reveal(decode_fields_spec);
                }
            }
            let count = match read_u32_at(data, off) {
                Some(n) => n,
                None => {
                    return Err(short_data_error());
                },
            };
            proof {
                assert(off + 4 <= dlen);
            }
            match decode_elements(data, off + 4, count, elem, custom_types, fuel) {
                Ok((text, used)) => {
                    proof {
                        assert(4 + used <= dlen || used == 0);
                    }
                    Ok((bracket("[", text, "]"), 4 + used))
                },
                Err(e) => Err(e),
            }
        },
        IdlType::Array(elem, size) => {
            proof {
                assert(me == (match decode_list_spec(
                    data@,
                    off as nat,
                    *size as nat,
                    **elem,
                    ct,
                    f,
                ) {
                    Err(e) => Err::<(Seq<u8>, nat), ErrorKind>(e),
                    Ok((text, used)) => Ok::<(Seq<u8>, nat), ErrorKind>(
                        (encode_utf8("["@) + text + encode_utf8("]"@), used),
                    ),
                })) by {
                    reveal(decode_spec);
                    reveal(decode_list_spec);
                    reveal(decode_fields_spec);
                }
            }
            match decode_elements(data, off, *size, elem, custom_types, fuel) {
                Ok((text, used)) => Ok((bracket("[", text, "]"), used)),
                Err(e) => Err(e),
            }
        },
        IdlType::Defined(name) => {
            if fuel == 0 {
                proof {
                    assert(me == Err::<(Seq<u8>, nat), ErrorKind>(ErrorKind::UnsupportedType)) by {
                        reveal(decode_spec);
                        reveal(decode_list_spec);
                        reveal(decode_fields_spec);
                    }
                }
                return Err(
                    SolanaError::new(
                        ErrorKind::UnsupportedType,
                        concat2("type definitions are nested too deeply", ""),
                    ),
                );
            }
            let td = match find_type_definition(custom_types, name.as_str()) {
                Some(td) => td,
                None => {
                    proof {
                        assert(me == Err::<(Seq<u8>, nat), ErrorKind>(ErrorKind::TypeNotFound))
                            by {
                            reveal(decode_spec);
                            reveal(decode_list_spec);
                            reveal(decode_fields_spec);
                        }
                    }
                    return Err(
                        SolanaError::new(
                            ErrorKind::TypeNotFound,
                            crate::strutil::concat3(
                                "type definition with name ",
                                name.as_str(),
                                " not found",
                            ),
                        ),
                    );
                },
            };
            match &td.ty {
                IdlTypeDefinitionTy::Record { fields } => {
                    proof {
                        assert(me == (match decode_fields_spec(
                            data@,
                            off as nat,
                            fields@,
                            ct,
                            (f - 1) as nat,
                        ) {
                            Err(e) => Err::<(Seq<u8>, nat), ErrorKind>(e),
                            Ok((text, used)) => Ok::<(Seq<u8>, nat), ErrorKind>(
                                (encode_utf8("{"@) + text + encode_utf8("}"@), used),
                            ),
                        })) by {
                            reveal(decode_spec);
                            reveal(decode_list_spec);
                            reveal(decode_fields_spec);
                        }
                    }
                    match decode_record_fields(data, off, fields, custom_types, fuel - 1) {
                        Ok((text, used)) => Ok((bracket("{", text, "}"), used)),
                        Err(e) => Err(e),
                    }
                },
                IdlTypeDefinitionTy::TaggedChoice { variants } => {
                    proof {
                        assert(me == choice_arm(data@, off as nat, variants@)) by {
                            reveal(decode_spec);
                            reveal(decode_list_spec);
                            reveal(decode_fields_spec);
                        }
                    }
                    decode_choice(data, off, variants)
                },
            }
        },
        _ => {
            proof {
                assert(false);
            }
            Err(SolanaError::new(ErrorKind::Parse, concat2("", "")))
        },
    }
}

/// Decode `count` elements in sequence, joining their texts with commas.
fn decode_elements(
    data: &[u8],
    start: usize,
    count: usize,
    elem: &IdlType,
    custom_types: &Vec<IdlTypeDefinition>,
    fuel: usize,
) -> (r: Result<(Vec<u8>, usize), SolanaError>)
    ensures
        r matches Ok(p) ==> {
            &&& decode_list_spec(
                data@,
                start as nat,
                count as nat,
                *elem,
                custom_types@,
                fuel as nat,
            ) == Ok::<(Seq<u8>, nat), ErrorKind>((p.0@, p.1 as nat))
            &&& (start + p.1 <= data@.len() || p.1 == 0)
            &&& valid_utf8(p.0@)
        },
        r matches Err(e) ==> decode_list_spec(
            data@,
            start as nat,
            count as nat,
            *elem,
            custom_types@,
            fuel as nat,
        ) == Err::<(Seq<u8>, nat), ErrorKind>(e.kind),
    decreases fuel, ty_size(*elem), count + 1,
{
    let ghost ct = custom_types@;
    let ghost f = fuel as nat;
    let ghost full = decode_list_spec(data@, start as nat, count as nat, *elem, ct, f);
    let dlen = data.len();
    let mut text: Vec<u8> = Vec::new();
    let mut cur: usize = start;
    let mut k: usize = 0;
    proof {
        assert(valid_utf8(text@)) by {
            lemma_ascii_valid_utf8(text@);
        }
        if full is Ok {
            assert(Seq::<u8>::empty() + full->Ok_0.0 =~= full->Ok_0.0);
        }
    }
    while k < count
        invariant
            dlen == data@.len(),
            0 <= k <= count,
            start <= cur,
            cur <= data@.len() || cur == start,
            ct == custom_types@,
            f == fuel as nat,
            valid_utf8(text@),
            full == decode_list_spec(data@, start as nat, count as nat, *elem, ct, f),
            full == chain_dec(
                text@,
                (cur - start) as nat,
                decode_list_spec(data@, cur as nat, (count - k) as nat, *elem, ct, f),
            ),
        decreases count - k,
    {
        proof {
            lemma_list_unfold(data@, cur as nat, (count - k) as nat, *elem, ct, f);
        }
        match decode_value(data, cur, elem, custom_types, fuel) {
            Err(e) => {
                return Err(e);
            },
            Ok((t, u)) => {
                proof {
                    if k + 1 < count {
                        let rest = decode_list_spec(
                            data@,
                            cur as nat + u as nat,
                            (count - k - 1) as nat,
                            *elem,
                            ct,
                            f,
                        );
                        if rest is Ok {
                            assert(text@ + (t@ + encode_utf8(","@) + rest->Ok_0.0) =~= (text@ + t@
                                + encode_utf8(","@)) + rest->Ok_0.0);
                        }
                        vstd::utf8::encode_utf8_valid_utf8(","@);
                        vstd::utf8::valid_utf8_concat(text@, t@);
                        vstd::utf8::valid_utf8_concat(text@ + t@, encode_utf8(","@));
                    } else {
                        lemma_list_empty(data@, cur as nat + u as nat, *elem, ct, f);
                        assert(text@ + t@ + Seq::<u8>::empty() =~= text@ + t@);
                        vstd::utf8::valid_utf8_concat(text@, t@);
                    }
                }
                extend_bytes(&mut text, t.as_slice());
                if k + 1 < count {
                    extend_bytes(&mut text, ",".as_bytes());
                }
                cur = cur + u;
            },
        }
        k = k + 1;
    }
    proof {
        lemma_list_empty(data@, cur as nat, *elem, ct, f);
        assert(text@ + Seq::<u8>::empty() =~= text@);
    }
    Ok((text, cur - start))
}

/// Decode a record's fields in order, joining their texts with commas.
fn decode_record_fields(
    data: &[u8],
    start: usize,
    fields: &Vec<IdlField>,
    custom_types: &Vec<IdlTypeDefinition>,
    fuel: usize,
) -> (r: Result<(Vec<u8>, usize), SolanaError>)
    ensures
        r matches Ok(p) ==> {
            &&& decode_fields_spec(data@, start as nat, fields@, custom_types@, fuel as nat)
                == Ok::<(Seq<u8>, nat), ErrorKind>((p.0@, p.1 as nat))
            &&& (start + p.1 <= data@.len() || p.1 == 0)
            &&& valid_utf8(p.0@)
        },
        r matches Err(e) ==> decode_fields_spec(
            data@,
            start as nat,
            fields@,
            custom_types@,
            fuel as nat,
        ) == Err::<(Seq<u8>, nat), ErrorKind>(e.kind),
    decreases fuel, fields_size(fields@), 0nat,
{
    let ghost ct = custom_types@;
    let ghost f = fuel as nat;
    let ghost full = decode_fields_spec(data@, start as nat, fields@, ct, f);
    let dlen = data.len();
    let n = fields.len();
    let mut text: Vec<u8> = Vec::new();
    let mut cur: usize = start;
    let mut k: usize = 0;
    proof {
        assert(fields@.skip(0) =~= fields@);
        assert(valid_utf8(text@)) by {
            lemma_ascii_valid_utf8(text@);
        }
        if full is Ok {
            assert(Seq::<u8>::empty() + full->Ok_0.0 =~= full->Ok_0.0);
        }
    }
    while k < n
        invariant
            dlen == data@.len(),
            n == fields@.len(),
            0 <= k <= n,
            start <= cur,
            cur <= data@.len() || cur == start,
            ct == custom_types@,
            f == fuel as nat,
            valid_utf8(text@),
            full == decode_fields_spec(data@, start as nat, fields@, ct, f),
            full == chain_dec(
                text@,
                (cur - start) as nat,
                decode_fields_spec(data@, cur as nat, fields@.skip(k as int), ct, f),
            ),
        decreases n - k,
    {
        proof {
            lemma_rec_fields_unfold(data@, cur as nat, fields@.skip(k as int), ct, f);
            assert(fields@.skip(k as int)[0] == fields@[k as int]);
            assert(fields@.skip(k as int).skip(1) =~= fields@.skip(k + 1));
            crate::encode::lemma_fields_size_at(fields@, k as int);
        }
        let field = &fields[k];
        match decode_value(data, cur, &field.ty, custom_types, fuel) {
            Err(e) => {
                return Err(e);
            },
            Ok((t, u)) => {
                proof {
                    if k + 1 < n {
                        let rest = decode_fields_spec(
                            data@,
                            cur as nat + u as nat,
                            fields@.skip(k + 1),
                            ct,
                            f,
                        );
                        if rest is Ok {
                            assert(text@ + (t@ + encode_utf8(","@) + rest->Ok_0.0) =~= (text@ + t@
                                + encode_utf8(","@)) + rest->Ok_0.0);
                        }
                        vstd::utf8::encode_utf8_valid_utf8(","@);
                        vstd::utf8::valid_utf8_concat(text@, t@);
                        vstd::utf8::valid_utf8_concat(text@ + t@, encode_utf8(","@));
                    } else {
                        assert(fields@.skip(k + 1) =~= Seq::<IdlField>::empty());
                        lemma_rec_fields_empty(data@, cur as nat + u as nat, ct, f);
                        assert(text@ + t@ + Seq::<u8>::empty() =~= text@ + t@);
                        vstd::utf8::valid_utf8_concat(text@, t@);
                    }
                }
                extend_bytes(&mut text, t.as_slice());
                if k + 1 < n {
                    extend_bytes(&mut text, ",".as_bytes());
                }
                cur = cur + u;
            },
        }
        k = k + 1;
    }
    proof {
        assert(fields@.skip(n as int) =~= Seq::<IdlField>::empty());
        lemma_rec_fields_empty(data@, cur as nat, ct, f);
        assert(text@ + Seq::<u8>::empty() =~= text@);
    }
    Ok((text, cur - start))
}

/// Decode a declared return value from raw bytes at an offset, rendering
/// it as operator-facing text; the second result is how many bytes were
/// consumed.
pub fn decode_return_data(
    data: &[u8],
    offset: usize,
    ty: &IdlType,
    custom_types: &Vec<IdlTypeDefinition>,
) -> (r: Result<(String, usize), SolanaError>)
    requires
        custom_types@.len() < usize::MAX,
    ensures
        r matches Ok(p) ==> decode_spec(
            data@,
            offset as nat,
            *ty,
            custom_types@,
            (custom_types@.len() + 1) as nat,
        ) == Ok::<(Seq<u8>, nat), ErrorKind>((encode_utf8(p.0@), p.1 as nat)),
        r matches Err(e) ==> decode_spec(
            data@,
            offset as nat,
            *ty,
            custom_types@,
            (custom_types@.len() + 1) as nat,
        ) == Err::<(Seq<u8>, nat), ErrorKind>(e.kind),
{
    let fuel: usize = custom_types.len() + 1;
    match decode_value(data, offset, ty, custom_types, fuel) {
        Ok((text, used)) => {
            match string_from_utf8(text) {
                Some(s) => Ok((s, used)),
                None => {
                    proof {
                        assert(false);
                    }
                    Err(SolanaError::new(ErrorKind::Parse, concat2("", "")))
                },
            }
        },
        Err(e) => Err(e),
    }
}

} // verus!
