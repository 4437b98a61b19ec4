//! The instruction data encoder.
//!
//! `construct_instruction_data` turns an instruction's declared argument
//! list and the operator's raw strings into the wire payload: the 8-byte
//! discriminator, then each argument encoded after its declared type.  The
//! spec functions here state the whole codec — which bytes a well-formed
//! argument produces and which error kind any other argument raises — and
//! the executable encoder is proved to match them exactly.

use vstd::prelude::*;

use crate::b58::{b58_bytes32, is_pubkey_b58, pubkey_from_base58};
use crate::decimal::{
    dec_int, dec_nat, parse_signed_dec, parse_unsigned_dec, unsigned_digits, valid_signed_dec,
    valid_unsigned_dec,
};
use crate::discriminator::{discriminator, discriminator_bytes};
use crate::errors::{ErrorKind, SolanaError};
use crate::hexs::{decode_hex, hex_bytes, is_hex_text};
use crate::idl::{
    has_type_definition, type_def_index, IdlArgument, IdlField, IdlType, IdlTypeDefinition,
    IdlTypeDefinitionTy, Instruction, find_type_definition,
};
use crate::jsons::{json_is_valid, json_obj_of, lookup_field, pairs_map, parse_record_text, JsonDoc};
use crate::nums::{le_bytes, le_int, le_nat, pow256};
use crate::strutil::{bytes_eq, concat2, concat3, copy_bytes, extend_bytes};
use crate::token::{
    le32, lemma_tokens_bytes_push, lemma_wf_tokens_push, token_bytes, tokens_bytes, wf_token,
    wf_tokens, Token,
};
use vstd::string::StringSliceAdditionalSpecFns;
use vstd::utf8::encode_utf8;

verus! {

/// Structural size of a declared type: the measure for the codec's
/// recursion, together with the `Defined` fuel.
pub open spec fn ty_size(ty: IdlType) -> nat
    decreases ty,
{
    match ty {
        IdlType::Optional(e) => 1 + ty_size(*e),
        IdlType::Vector(e) => 1 + ty_size(*e),
        IdlType::Array(e, _) => 1 + ty_size(*e),
        _ => 1,
    }
}

/// Combined size of a record's field types.
pub open spec fn fields_size(fields: Seq<IdlField>) -> nat
    decreases fields.len(),
{
    if fields.len() == 0 {
        0
    } else {
        1 + ty_size(fields[0].ty) + fields_size(fields.skip(1))
    }
}

/// The UTF-8 bytes of `"true"` and `"false"`.
pub open spec fn true_bytes() -> Seq<u8> {
    seq![116u8, 114u8, 117u8, 101u8]
}

pub open spec fn false_bytes() -> Seq<u8> {
    seq![102u8, 97u8, 108u8, 115u8, 101u8]
}

/// Index of the first comma, or the length when there is none.
pub open spec fn first_comma_idx(s: Seq<u8>) -> nat
    decreases s.len(),
{
    if s.len() == 0 {
        0
    } else if s[0] == 44 {
        0
    } else {
        1 + first_comma_idx(s.skip(1))
    }
}

/// The comma-separated pieces of an argument: splitting the empty text
/// yields one empty piece, as string splitting does.
pub open spec fn split_commas(s: Seq<u8>) -> Seq<Seq<u8>>
    decreases s.len(),
{
    let i = first_comma_idx(s);
    if i >= s.len() {
        seq![s]
    } else {
        seq![s.take(i as int)] + split_commas(s.skip(i + 1 as int))
    }
}

/// The two's-complement bit pattern of a signed value, as a natural number.
pub open spec fn twos_complement(v: int, w: nat) -> nat {
    if v >= 0 {
        v as nat
    } else {
        (v + pow256(w)) as nat
    }
}

/// Encoding of unsigned decimal text at a width of `w` bytes.
pub open spec fn uint_arm(raw: Seq<u8>, w: nat) -> Result<Seq<u8>, ErrorKind> {
    if valid_unsigned_dec(raw, w) {
        Ok(le_bytes(dec_nat(unsigned_digits(raw)), w))
    } else {
        Err(ErrorKind::Parse)
    }
}

/// Encoding of signed decimal text at a width of `w` bytes.
pub open spec fn int_arm(raw: Seq<u8>, w: nat) -> Result<Seq<u8>, ErrorKind> {
    if valid_signed_dec(raw, w) {
        Ok(le_bytes(twos_complement(dec_int(raw), w), w))
    } else {
        Err(ErrorKind::Parse)
    }
}

/// The text with every double-quote character removed.
pub open spec fn strip_quotes(s: Seq<u8>) -> Seq<u8>
    decreases s.len(),
{
    if s.len() == 0 {
        Seq::<u8>::empty()
    } else if s[0] == 34 {
        strip_quotes(s.skip(1))
    } else {
        seq![s[0]] + strip_quotes(s.skip(1))
    }
}

/// Whether some declared variant bears the stripped name.
pub open spec fn has_variant(variants: Seq<String>, stripped: Seq<u8>) -> bool {
    exists|i: int| 0 <= i < variants.len() && encode_utf8((#[trigger] variants[i])@) == stripped
}

/// Index of the first variant bearing the stripped name.
pub open spec fn variant_index(variants: Seq<String>, stripped: Seq<u8>) -> int {
    choose|i: int|
        0 <= i < variants.len() && encode_utf8((#[trigger] variants[i])@) == stripped && forall|
            j: int,
        | 0 <= j < i ==> encode_utf8((#[trigger] variants[j])@) != stripped
}

/// Encoding of a tagged-choice literal: one byte, the variant's index.
pub open spec fn tagged_choice_arm(raw: Seq<u8>, variants: Seq<String>) -> Result<
    Seq<u8>,
    ErrorKind,
> {
    let stripped = strip_quotes(raw);
    if !has_variant(variants, stripped) {
        Err(ErrorKind::VariantNotFound)
    } else if variant_index(variants, stripped) > 255 {
        Err(ErrorKind::Parse)
    } else {
        Ok(seq![variant_index(variants, stripped) as u8])
    }
}

/// What one argument text encodes to under a declared type, or the error
/// kind it raises.  `fuel` bounds the nesting of `Defined` references; the
/// encoder passes one more than the number of type definitions, which only
/// a cyclic schema can exhaust.
#[verifier::opaque]
pub open spec fn encode_spec(
    raw: Seq<u8>,
    ty: IdlType,
    types: Seq<IdlTypeDefinition>,
    fuel: nat,
) -> Result<Seq<u8>, ErrorKind>
    decreases fuel, ty_size(ty), 0nat,
{
    match ty {
        IdlType::Bool => if raw == true_bytes() {
            Ok(seq![1u8])
        } else if raw == false_bytes() {
            Ok(seq![0u8])
        } else {
            Err(ErrorKind::Parse)
        },
        IdlType::U8 => uint_arm(raw, 1),
        IdlType::U16 => uint_arm(raw, 2),
        IdlType::U32 => uint_arm(raw, 4),
        IdlType::U64 => uint_arm(raw, 8),
        IdlType::U128 => uint_arm(raw, 16),
        IdlType::U256 => uint_arm(raw, 32),
        IdlType::I8 => int_arm(raw, 1),
        IdlType::I16 => int_arm(raw, 2),
        IdlType::I32 => int_arm(raw, 4),
        IdlType::I64 => int_arm(raw, 8),
        IdlType::I128 => int_arm(raw, 16),
        IdlType::I256 => int_arm(raw, 32),
        IdlType::F32 => Err(ErrorKind::UnsupportedType),
        IdlType::F64 => Err(ErrorKind::UnsupportedType),
        IdlType::Optional(_) => Err(ErrorKind::UnsupportedType),
        IdlType::Bytes => if is_hex_text(raw) && raw.len() / 2 < 0x1_0000_0000 {
            Ok(le32(raw.len() / 2) + hex_bytes(raw))
        } else {
            Err(ErrorKind::Parse)
        },
        IdlType::Str => if raw.len() < 0x1_0000_0000 {
            Ok(le32(raw.len()) + raw)
        } else {
            Err(ErrorKind::Parse)
        },
        IdlType::PublicKey => if is_pubkey_b58(raw) {
            Ok(b58_bytes32(raw))
        } else {
            Err(ErrorKind::Parse)
        },
        IdlType::Vector(elem) => {
            let pieces = split_commas(raw);
            if pieces.len() >= 0x1_0000_0000 {
                Err(ErrorKind::Parse)
            } else {
                match encode_pieces_spec(pieces, *elem, types, fuel) {
                    Ok(b) => Ok(le32(pieces.len()) + b),
                    Err(e) => Err(e),
                }
            }
        },
        IdlType::Array(elem, size) => {
            let pieces = split_commas(raw);
            if pieces.len() != size {
                Err(ErrorKind::ArraySizeMismatch)
            } else {
                encode_pieces_spec(pieces, *elem, types, fuel)
            }
        },
        IdlType::Defined(name) => {
            if fuel == 0 {
                Err(ErrorKind::UnsupportedType)
            } else if !has_type_definition(types, name@) {
                Err(ErrorKind::TypeNotFound)
            } else {
                let td = types[type_def_index(types, name@)];
                match td.ty {
                    IdlTypeDefinitionTy::Record { fields } => {
                        if !json_is_valid(raw) {
                            Err(ErrorKind::Parse)
                        } else {
                            let m = match json_obj_of(raw) {
                                Some(m) => m,
                                None => Map::<Seq<u8>, Seq<u8>>::empty(),
                            };
                            encode_fields_spec(m, fields@, types, (fuel - 1) as nat)
                        }
                    },
                    IdlTypeDefinitionTy::TaggedChoice { variants } => tagged_choice_arm(
                        raw,
                        variants@,
                    ),
                }
            }
        },
    }
}

/// The concatenated encodings of comma-split pieces, or the first error.
#[verifier::opaque]
pub open spec fn encode_pieces_spec(
    pieces: Seq<Seq<u8>>,
    ty: IdlType,
    types: Seq<IdlTypeDefinition>,
    fuel: nat,
) -> Result<Seq<u8>, ErrorKind>
    decreases fuel, ty_size(ty), pieces.len() + 1,
{
    if pieces.len() == 0 {
        Ok(Seq::<u8>::empty())
    } else {
        match encode_spec(pieces[0], ty, types, fuel) {
            Err(e) => Err(e),
            Ok(b) => match encode_pieces_spec(pieces.skip(1), ty, types, fuel) {
                Err(e) => Err(e),
                Ok(rest) => Ok(b + rest),
            },
        }
    }
}

/// The concatenated encodings of a record's fields, each looked up by name
/// in the object, or the first error.
#[verifier::opaque]
pub open spec fn encode_fields_spec(
    obj: Map<Seq<u8>, Seq<u8>>,
    fields: Seq<IdlField>,
    types: Seq<IdlTypeDefinition>,
    fuel: nat,
) -> Result<Seq<u8>, ErrorKind>
    decreases fuel, fields_size(fields), 0nat,
{
    if fields.len() == 0 {
        Ok(Seq::<u8>::empty())
    } else {
        let f = fields[0];
        if !obj.contains_key(encode_utf8(f.name@)) {
            Err(ErrorKind::Parse)
        } else {
            match encode_spec(obj[encode_utf8(f.name@)], f.ty, types, fuel) {
                Err(e) => Err(e),
                Ok(b) => match encode_fields_spec(obj, fields.skip(1), types, fuel) {
                    Err(e) => Err(e),
                    Ok(rest) => Ok(b + rest),
                },
            }
        }
    }
}

/// The UTF-8 bytes of each raw argument string.
pub open spec fn arg_texts(raws: Seq<String>) -> Seq<Seq<u8>> {
    raws.map(|i: int, s: String| encode_utf8(s@))
}

/// The encoded argument section of an instruction: every declared argument
/// in order, each from its raw text; the raw count must equal the declared
/// count.
pub open spec fn encode_args_spec(
    args: Seq<IdlArgument>,
    raws: Seq<Seq<u8>>,
    types: Seq<IdlTypeDefinition>,
    fuel: nat,
) -> Result<Seq<u8>, ErrorKind>
    decreases args.len(),
{
    if args.len() != raws.len() {
        Err(ErrorKind::MissingArgument)
    } else if args.len() == 0 {
        Ok(Seq::<u8>::empty())
    } else {
        match encode_spec(raws[0], args[0].ty, types, fuel) {
            Err(e) => Err(e),
            Ok(b) => match encode_args_spec(args.skip(1), raws.skip(1), types, fuel) {
                Err(e) => Err(e),
                Ok(rest) => Ok(b + rest),
            },
        }
    }
}

/// The full payload of an instruction call: discriminator, then arguments.
pub open spec fn instruction_data_spec(
    instr: Instruction,
    raws: Seq<String>,
    types: Seq<IdlTypeDefinition>,
) -> Result<Seq<u8>, ErrorKind> {
    match encode_args_spec(
        instr.args@,
        arg_texts(raws),
        types,
        (types.len() + 1) as nat,
    ) {
        Err(e) => Err(e),
        Ok(b) => Ok(discriminator_bytes("global"@, instr.name@) + b),
    }
}

} // verus!
// The executable encoder, proved against the spec above.

verus! {

/// Compose already-encoded bytes with the result of the remaining work.
pub open spec fn chain(done: Seq<u8>, rest: Result<Seq<u8>, ErrorKind>) -> Result<
    Seq<u8>,
    ErrorKind,
> {
    match rest {
        Ok(r) => Ok(done + r),
        Err(e) => Err(e),
    }
}

/// A vector holding one token.
fn one_token(t: Token) -> (r: Vec<Token>)
    ensures
        r@.len() == 1,
        r@[0] == t,
        tokens_bytes(r@) == token_bytes(t),
        wf_token(t) ==> wf_tokens(r@),
{
    let mut v: Vec<Token> = Vec::new();
    v.push(t);
    proof {
        assert(v@ =~= seq![t]);
        assert(v@.skip(1) =~= Seq::<Token>::empty());
        assert(tokens_bytes(v@.skip(1)) =~= Seq::<u8>::empty());
        assert(tokens_bytes(v@) =~= token_bytes(t) + Seq::<u8>::empty());
        assert(token_bytes(t) + Seq::<u8>::empty() =~= token_bytes(t));
        assert(wf_tokens(v@.skip(1)));
        assert(v@[0] == t);
    }
    v
}

/// Move every token of `src` onto the end of `dst`.
fn append_token_vec(dst: &mut Vec<Token>, src: Vec<Token>)
    ensures
        final(dst)@ == old(dst)@ + src@,
{
    let ghost src0 = src@;
    let mut src = src;
    let n0 = src.len();
    let mut moved: usize = 0;
    while src.len() > 0
        invariant
            n0 == src0.len(),
            moved + src@.len() == n0,
            dst@ == old(dst)@ + src0.take(moved as int),
            src@ =~= src0.skip(moved as int),
        decreases src@.len(),
    {
        let t = src.remove(0);
        proof {
            assert(src0.skip(moved as int)[0] == src0[moved as int]);
            assert(src0.skip(moved as int).remove(0) =~= src0.skip(moved + 1));
            assert((old(dst)@ + src0.take(moved as int)).push(src0[moved as int]) =~= old(dst)@
                + src0.take(moved + 1));
        }
        dst.push(t);
        moved = moved + 1;
    }
    proof {
        assert(src0.take(moved as int) =~= src0);
    }
}

/// Does the text read exactly `true`?
fn is_true_text(raw: &[u8]) -> (r: bool)
    ensures
        r <==> raw@ == true_bytes(),
{
    let r = raw.len() == 4 && raw[0] == 116 && raw[1] == 114 && raw[2] == 117 && raw[3] == 101;
    proof {
        if r {
            assert(raw@ =~= true_bytes());
        }
    }
    r
}

/// Does the text read exactly `false`?
fn is_false_text(raw: &[u8]) -> (r: bool)
    ensures
        r <==> raw@ == false_bytes(),
{
    let r = raw.len() == 5 && raw[0] == 102 && raw[1] == 97 && raw[2] == 108 && raw[3] == 115
        && raw[4] == 101;
    proof {
        if r {
            assert(raw@ =~= false_bytes());
        }
    }
    r
}

/// The text with every double-quote character removed.
fn strip_quotes_exec(s: &[u8]) -> (r: Vec<u8>)
    ensures
        r@ == strip_quotes(s@),
{
    let n = s.len();
    let mut out: Vec<u8> = Vec::new();
    let mut i: usize = 0;
    proof {
        assert(s@.skip(0) =~= s@);
        assert(Seq::<u8>::empty() + strip_quotes(s@) =~= strip_quotes(s@));
    }
    while i < n
        invariant
            n == s@.len(),
            0 <= i <= n,
            strip_quotes(s@) == out@ + strip_quotes(s@.skip(i as int)),
        decreases n - i,
    {
        let c = s[i];
        proof {
            assert(s@.skip(i as int)[0] == s@[i as int]);
            assert(s@.skip(i as int).skip(1) =~= s@.skip(i + 1));
            if c != 34 {
                assert(out@ + (seq![c] + strip_quotes(s@.skip(i + 1))) =~= out@.push(c)
                    + strip_quotes(s@.skip(i + 1)));
            }
        }
        if c != 34 {
            out.push(c);
        }
        i = i + 1;
    }
    proof {
        assert(s@.skip(n as int) =~= Seq::<u8>::empty());
        assert(strip_quotes(Seq::<u8>::empty()) =~= Seq::<u8>::empty());
        assert(out@ + Seq::<u8>::empty() =~= out@);
    }
    out
}

/// Split the text at every comma.
fn split_commas_exec(s: &[u8]) -> (r: Vec<Vec<u8>>)
    ensures
        r@.len() == split_commas(s@).len(),
        forall|i: int| 0 <= i < r@.len() ==> (#[trigger] r@[i])@ == split_commas(s@)[i],
        r@.len() >= 1,
    decreases s@.len(),
{
    let n = s.len();
    let mut j: usize = 0;
    while j < n && s[j] != 44
        invariant
            n == s@.len(),
            0 <= j <= n,
            forall|m: int| 0 <= m < j ==> s@[m] != 44,
        decreases n - j,
    {
        j = j + 1;
    }
    proof {
        lemma_first_comma_exec(s@, j as int);
    }
    if j == n {
        let piece = copy_bytes(s);
        let r = one_piece(piece);
        proof {
            assert(split_commas(s@) =~= seq![s@]);
        }
        r
    } else {
        let piece = copy_bytes(slice_range(s, 0, j));
        let rest_slice = slice_range(s, j + 1, n);
        let mut rest = split_commas_exec(rest_slice);
        rest.insert(0, piece);
        proof {
            let sp = split_commas(s@);
            assert(sp =~= seq![s@.take(j as int)] + split_commas(s@.skip(j + 1)));
            assert forall|i: int| 0 <= i < rest@.len() implies (#[trigger] rest@[i])@ == sp[i] by {
                if i > 0 {
                    assert(rest@[i] == rest@.skip(1)[i - 1]);
                }
            }
        }
        rest
    }
}

/// The proof bridge from the scanning loop to `first_comma_idx`.
proof fn lemma_first_comma_exec(s: Seq<u8>, j: int)
    requires
        0 <= j <= s.len(),
        forall|m: int| 0 <= m < j ==> s[m] != 44,
        j == s.len() || s[j] == 44,
    ensures
        first_comma_idx(s) == j,
    decreases s.len(),
{
    if j > 0 {
        assert(s[0] != 44);
        assert forall|m: int| 0 <= m < j - 1 implies s.skip(1)[m] != 44 by {
            assert(s.skip(1)[m] == s[m + 1]);
        }
        if j - 1 < s.skip(1).len() {
            assert(s.skip(1)[j - 1] == s[j]);
        }
        lemma_first_comma_exec(s.skip(1), j - 1);
    }
}

/// A vector holding one byte-string piece.
fn one_piece(piece: Vec<u8>) -> (r: Vec<Vec<u8>>)
    ensures
        r@.len() == 1,
        r@[0] == piece,
{
    let mut v: Vec<Vec<u8>> = Vec::new();
    v.push(piece);
    v
}

/// A borrowed subrange of a slice.
fn slice_range<'a>(s: &'a [u8], from: usize, to: usize) -> (r: &'a [u8])
    requires
        0 <= from <= to <= s@.len(),
    ensures
        r@ == s@.subrange(from as int, to as int),
{
    &s[from..to]
}

} // verus!
// The token builder and the encoder entry point.

verus! {

/// Each field's type is strictly smaller than the whole field list.
pub(crate) proof fn lemma_fields_size_at(fields: Seq<IdlField>, i: int)
    requires
        0 <= i < fields.len(),
    ensures
        ty_size(fields[i].ty) < fields_size(fields),
    decreases i,
{
    if i == 0 {
    } else {
        lemma_fields_size_at(fields.skip(1), i - 1);
        assert(fields.skip(1)[i - 1] == fields[i]);
    }
}

/// Composition of partial encodings associates.
proof fn lemma_chain_assoc(done: Seq<u8>, b: Seq<u8>, rest: Result<Seq<u8>, ErrorKind>)
    ensures
        chain(done, chain(b, rest)) == chain(done + b, rest),
{
    if rest is Ok {
        assert(done + (b + rest->Ok_0) =~= (done + b) + rest->Ok_0);
    }
}

/// One unfolding of the piece list encoding.
proof fn lemma_pieces_unfold(
    ps: Seq<Seq<u8>>,
    ty: IdlType,
    ct: Seq<IdlTypeDefinition>,
    f: nat,
)
    requires
        ps.len() > 0,
    ensures
        encode_pieces_spec(ps, ty, ct, f) == (match encode_spec(ps[0], ty, ct, f) {
            Err(e) => Err::<Seq<u8>, ErrorKind>(e),
            Ok(b) => match encode_pieces_spec(ps.skip(1), ty, ct, f) {
                Err(e2) => Err::<Seq<u8>, ErrorKind>(e2),
                Ok(rest) => Ok::<Seq<u8>, ErrorKind>(b + rest),
            },
        }),
{
    reveal(encode_spec);
    reveal(encode_pieces_spec);
    reveal(encode_fields_spec);
}

/// One unfolding of the field list encoding.
proof fn lemma_fields_unfold(
    obj: Map<Seq<u8>, Seq<u8>>,
    fields: Seq<IdlField>,
    ct: Seq<IdlTypeDefinition>,
    f: nat,
)
    requires
        fields.len() > 0,
    ensures
        encode_fields_spec(obj, fields, ct, f) == (if !obj.contains_key(
            encode_utf8(fields[0].name@),
        ) {
            Err::<Seq<u8>, ErrorKind>(ErrorKind::Parse)
        } else {
            match encode_spec(obj[encode_utf8(fields[0].name@)], fields[0].ty, ct, f) {
                Err(e) => Err::<Seq<u8>, ErrorKind>(e),
                Ok(b) => match encode_fields_spec(obj, fields.skip(1), ct, f) {
                    Err(e2) => Err::<Seq<u8>, ErrorKind>(e2),
                    Ok(rest) => Ok::<Seq<u8>, ErrorKind>(b + rest),
                },
            }
        }),
{
    reveal(encode_spec);
    reveal(encode_pieces_spec);
    reveal(encode_fields_spec);
}

/// Build the unsigned-integer token of a decimal text.
fn uint_token(raw: &[u8], w: usize, width: u32) -> (r: Result<Vec<Token>, SolanaError>)
    requires
        1 <= w <= 32,
        width == 8 * w,
        crate::token::is_int_width(width),
    ensures
        r matches Ok(ts) ==> wf_tokens(ts@) && uint_arm(raw@, w as nat) == Ok::<Seq<u8>, ErrorKind>(
            tokens_bytes(ts@),
        ),
        r matches Err(e) ==> uint_arm(raw@, w as nat) == Err::<Seq<u8>, ErrorKind>(e.kind),
{
    match parse_unsigned_dec(raw, w) {
        Ok(le) => {
            proof {
                crate::nums::lemma_le_bytes_of_le_nat(le@);
            }
            Ok(one_token(Token::Uint { width, le }))
        },
        Err(()) => Err(
            SolanaError::new(
                ErrorKind::Parse,
                concat2("the provided argument is not a valid unsigned integer", ""),
            ),
        ),
    }
}

/// Build the signed-integer token of a decimal text.
fn int_token(raw: &[u8], w: usize, width: u32) -> (r: Result<Vec<Token>, SolanaError>)
    requires
        1 <= w <= 32,
        width == 8 * w,
        crate::token::is_int_width(width),
    ensures
        r matches Ok(ts) ==> wf_tokens(ts@) && int_arm(raw@, w as nat) == Ok::<Seq<u8>, ErrorKind>(
            tokens_bytes(ts@),
        ),
        r matches Err(e) ==> int_arm(raw@, w as nat) == Err::<Seq<u8>, ErrorKind>(e.kind),
{
    match parse_signed_dec(raw, w) {
        Ok(le) => {
            proof {
                crate::nums::lemma_le_bytes_of_le_nat(le@);
                crate::nums::lemma_le_nat_bound(le@);
                let v = dec_int(raw@);
                if le@[le@.len() - 1] >= 128 {
                    assert(le_nat(le@) == v + pow256(w as nat));
                    assert(le_nat(le@) == twos_complement(v, w as nat));
                } else {
                    assert(le_nat(le@) == v);
                    assert(le_nat(le@) == twos_complement(v, w as nat));
                }
            }
            Ok(one_token(Token::Int { width, le }))
        },
        Err(()) => Err(
            SolanaError::new(
                ErrorKind::Parse,
                concat2("the provided argument is not a valid signed integer", ""),
            ),
        ),
    }
}

/// Convert one argument text into its token list after the declared type.
///
/// `fuel` bounds the nesting of `Defined` type references; the entry point
/// passes one more than the number of type definitions, which only a
/// cyclic schema can exhaust.
fn tokens_for_argument(
    raw: &[u8],
    ty: &IdlType,
    custom_types: &Vec<IdlTypeDefinition>,
    fuel: usize,
) -> (r: Result<Vec<Token>, SolanaError>)
    ensures
        r matches Ok(ts) ==> wf_tokens(ts@) && encode_spec(raw@, *ty, custom_types@, fuel as nat)
            == Ok::<Seq<u8>, ErrorKind>(tokens_bytes(ts@)),
        r matches Err(e) ==> encode_spec(raw@, *ty, custom_types@, fuel as nat) == Err::<
            Seq<u8>,
            ErrorKind,
        >(e.kind),
    decreases fuel, ty_size(*ty), 0nat,
{
    let ghost ct = custom_types@;
    let ghost f = fuel as nat;
    let ghost me = encode_spec(raw@, *ty, ct, f);
    match ty {
        IdlType::Bool => {
            proof {
                assert(me == (if raw@ == true_bytes() {
                    Ok::<Seq<u8>, ErrorKind>(seq![1u8])
                } else if raw@ == false_bytes() {
                    Ok::<Seq<u8>, ErrorKind>(seq![0u8])
                } else {
                    Err::<Seq<u8>, ErrorKind>(ErrorKind::Parse)
                })) by {
                    reveal(encode_spec);
                    reveal(encode_pieces_spec);
                    reveal(encode_fields_spec);
                }
            }
            if is_true_text(raw) {
                Ok(one_token(Token::Bool(true)))
            } else if is_false_text(raw) {
                Ok(one_token(Token::Bool(false)))
            } else {
                Err(
                    SolanaError::new(
                        ErrorKind::Parse,
                        concat2("the provided argument is not a valid boolean", ""),
                    ),
                )
            }
        },
        IdlType::U8 => {
            proof {
                assert(me == uint_arm(raw@, 1)) by {
                    reveal(encode_spec);
                    reveal(encode_pieces_spec);
                    reveal(encode_fields_spec);
                }
            }
            uint_token(raw, 1, 8)
        },
        IdlType::U16 => {
            proof {
                assert(me == uint_arm(raw@, 2)) by {
                    reveal(encode_spec);
                    reveal(encode_pieces_spec);
                    reveal(encode_fields_spec);
                }
            }
            uint_token(raw, 2, 16)
        },
        IdlType::U32 => {
            proof {
                assert(me == uint_arm(raw@, 4)) by {
                    reveal(encode_spec);
                    reveal(encode_pieces_spec);
                    reveal(encode_fields_spec);
                }
            }
            uint_token(raw, 4, 32)
        },
        IdlType::U64 => {
            proof {
                assert(me == uint_arm(raw@, 8)) by {
                    reveal(encode_spec);
                    reveal(encode_pieces_spec);
                    reveal(encode_fields_spec);
                }
            }
            uint_token(raw, 8, 64)
        },
        IdlType::U128 => {
            proof {
                assert(me == uint_arm(raw@, 16)) by {
                    reveal(encode_spec);
                    reveal(encode_pieces_spec);
                    reveal(encode_fields_spec);
                }
            }
            uint_token(raw, 16, 128)
        },
        IdlType::U256 => {
            proof {
                assert(me == uint_arm(raw@, 32)) by {
                    reveal(encode_spec);
                    reveal(encode_pieces_spec);
                    reveal(encode_fields_spec);
                }
            }
            uint_token(raw, 32, 256)
        },
        IdlType::I8 => {
            proof {
                assert(me == int_arm(raw@, 1)) by {
                    reveal(encode_spec);
                    reveal(encode_pieces_spec);
                    reveal(encode_fields_spec);
                }
            }
            int_token(raw, 1, 8)
        },
        IdlType::I16 => {
            proof {
                assert(me == int_arm(raw@, 2)) by {
                    reveal(encode_spec);
                    reveal(encode_pieces_spec);
                    reveal(encode_fields_spec);
                }
            }
            int_token(raw, 2, 16)
        },
        IdlType::I32 => {
            proof {
                assert(me == int_arm(raw@, 4)) by {
                    reveal(encode_spec);
                    reveal(encode_pieces_spec);
                    reveal(encode_fields_spec);
                }
            }
            int_token(raw, 4, 32)
        },
        IdlType::I64 => {
            proof {
                assert(me == int_arm(raw@, 8)) by {
                    reveal(encode_spec);
                    reveal(encode_pieces_spec);
                    reveal(encode_fields_spec);
                }
            }
            int_token(raw, 8, 64)
        },
        IdlType::I128 => {
            proof {
                assert(me == int_arm(raw@, 16)) by {
                    reveal(encode_spec);
                    reveal(encode_pieces_spec);
                    reveal(encode_fields_spec);
                }
            }
            int_token(raw, 16, 128)
        },
        IdlType::I256 => {
            proof {
                assert(me == int_arm(raw@, 32)) by {
                    reveal(encode_spec);
                    reveal(encode_pieces_spec);
                    reveal(encode_fields_spec);
                }
            }
            int_token(raw, 32, 256)
        },
        IdlType::F32 => {
            proof {
                assert(me == Err::<Seq<u8>, ErrorKind>(ErrorKind::UnsupportedType)) by {
                    reveal(encode_spec);
                    reveal(encode_pieces_spec);
                    reveal(encode_fields_spec);
                }
            }
            Err(SolanaError::new(ErrorKind::UnsupportedType, concat2("float is not supported", "")))
        },
        IdlType::F64 => {
            proof {
                assert(me == Err::<Seq<u8>, ErrorKind>(ErrorKind::UnsupportedType)) by {
                    reveal(encode_spec);
                    reveal(encode_pieces_spec);
                    reveal(encode_fields_spec);
                }
            }
            Err(SolanaError::new(ErrorKind::UnsupportedType, concat2("float is not supported", "")))
        },
        IdlType::Optional(_) => {
            proof {
                assert(me == Err::<Seq<u8>, ErrorKind>(ErrorKind::UnsupportedType)) by {
                    reveal(encode_spec);
                    reveal(encode_pieces_spec);
                    reveal(encode_fields_spec);
                }
            }
            Err(
                SolanaError::new(
                    ErrorKind::UnsupportedType,
                    concat2("option is not supported", ""),
                ),
            )
        },
        IdlType::Bytes => {
            proof {
                assert(me == (if is_hex_text(raw@) && raw@.len() / 2 < 0x1_0000_0000 {
                    Ok::<Seq<u8>, ErrorKind>(le32(raw@.len() / 2) + hex_bytes(raw@))
                } else {
                    Err::<Seq<u8>, ErrorKind>(ErrorKind::Parse)
                })) by {
                    reveal(encode_spec);
                    reveal(encode_pieces_spec);
                    reveal(encode_fields_spec);
                }
            }
            match decode_hex(raw) {
                Ok(v) => {
                    if (v.len() as u64) < 0x1_0000_0000u64 {
                        Ok(one_token(Token::Bytes(v)))
                    } else {
                        Err(
                            SolanaError::new(
                                ErrorKind::Parse,
                                concat2("the provided byte string is too long", ""),
                            ),
                        )
                    }
                },
                Err(()) => Err(
                    SolanaError::new(
                        ErrorKind::Parse,
                        concat2("the provided argument is not a valid hex string", ""),
                    ),
                ),
            }
        },
        IdlType::Str => {
            proof {
                assert(me == (if raw@.len() < 0x1_0000_0000 {
                    Ok::<Seq<u8>, ErrorKind>(le32(raw@.len()) + raw@)
                } else {
                    Err::<Seq<u8>, ErrorKind>(ErrorKind::Parse)
                })) by {
                    reveal(encode_spec);
                    reveal(encode_pieces_spec);
                    reveal(encode_fields_spec);
                }
            }
            if (raw.len() as u64) < 0x1_0000_0000u64 {
                Ok(one_token(Token::Str(copy_bytes(raw))))
            } else {
                Err(
                    SolanaError::new(
                        ErrorKind::Parse,
                        concat2("the provided string is too long", ""),
                    ),
                )
            }
        },
        IdlType::PublicKey => {
            proof {
                assert(me == (if is_pubkey_b58(raw@) {
                    Ok::<Seq<u8>, ErrorKind>(b58_bytes32(raw@))
                } else {
                    Err::<Seq<u8>, ErrorKind>(ErrorKind::Parse)
                })) by {
                    reveal(encode_spec);
                    reveal(encode_pieces_spec);
                    reveal(encode_fields_spec);
                }
            }
            match pubkey_from_base58(raw) {
                Ok(b) => Ok(one_token(Token::Address(b))),
                Err(()) => Err(
                    SolanaError::new(
                        ErrorKind::Parse,
                        concat2("the provided argument is not a valid base58 string", ""),
                    ),
                ),
            }
        },
        IdlType::Vector(elem) => {
            proof {
                assert(me == (if split_commas(raw@).len() >= 0x1_0000_0000 {
                    Err::<Seq<u8>, ErrorKind>(ErrorKind::Parse)
                } else {
                    match encode_pieces_spec(split_commas(raw@), **elem, ct, f) {
                        Ok(b) => Ok::<Seq<u8>, ErrorKind>(
                            le32(split_commas(raw@).len()) + b,
                        ),
                        Err(e) => Err::<Seq<u8>, ErrorKind>(e),
                    }
                })) by {
                    reveal(encode_spec);
                    reveal(encode_pieces_spec);
                    reveal(encode_fields_spec);
                }
            }
            let pieces = split_commas_exec(raw);
            let ghost sp = split_commas(raw@);
            if !((pieces.len() as u64) < 0x1_0000_0000u64) {
                return Err(
                    SolanaError::new(ErrorKind::Parse, concat2("too many vector elements", "")),
                );
            }
            match piece_tokens(&pieces, Ghost(sp), elem, custom_types, fuel) {
                Ok(elems) => {
                    proof {
                        assert(tokens_bytes(seq![Token::Array(elems)].skip(1)) =~= Seq::<
                            u8,
                        >::empty());
                    }
                    Ok(one_token(Token::Array(elems)))
                },
                Err(e) => Err(e),
            }
        },
        IdlType::Array(elem, size) => {
            proof {
                assert(me == (if split_commas(raw@).len() != *size {
                    Err::<Seq<u8>, ErrorKind>(ErrorKind::ArraySizeMismatch)
                } else {
                    encode_pieces_spec(split_commas(raw@), **elem, ct, f)
                })) by {
                    reveal(encode_spec);
                    reveal(encode_pieces_spec);
                    reveal(encode_fields_spec);
                }
            }
            let pieces = split_commas_exec(raw);
            let ghost sp = split_commas(raw@);
            if pieces.len() != *size {
                return Err(
                    SolanaError::new(
                        ErrorKind::ArraySizeMismatch,
                        concat2("the number of elements does not match the size of the array", ""),
                    ),
                );
            }
            match piece_tokens(&pieces, Ghost(sp), elem, custom_types, fuel) {
                Ok(elems) => Ok(one_token(Token::FixedArray(elems))),
                Err(e) => Err(e),
            }
        },
        IdlType::Defined(name) => {
            if fuel == 0 {
                proof {
                    assert(me == Err::<Seq<u8>, ErrorKind>(ErrorKind::UnsupportedType)) by {
                        reveal(encode_spec);
                        reveal(encode_pieces_spec);
                        reveal(encode_fields_spec);
                    }
                }
                return Err(
                    SolanaError::new(
                        ErrorKind::UnsupportedType,
                        concat2("type definitions are nested too deeply", ""),
                    ),
                );
            }
            let td = match find_type_definition(custom_types, name.as_str()) {
                Some(td) => td,
                None => {
                    proof {
                        assert(me == Err::<Seq<u8>, ErrorKind>(ErrorKind::TypeNotFound)) by {
                            reveal(encode_spec);
                            reveal(encode_pieces_spec);
                            reveal(encode_fields_spec);
                        }
                    }
                    return Err(
                        SolanaError::new(
                            ErrorKind::TypeNotFound,
                            concat3("type definition with name ", name.as_str(), " not found"),
                        ),
                    );
                },
            };
            match &td.ty {
                IdlTypeDefinitionTy::Record { fields } => {
                    proof {
                        assert(me == (if !json_is_valid(raw@) {
                            Err::<Seq<u8>, ErrorKind>(ErrorKind::Parse)
                        } else {
                            encode_fields_spec(
                                match json_obj_of(raw@) {
                                    Some(m) => m,
                                    None => Map::<Seq<u8>, Seq<u8>>::empty(),
                                },
                                fields@,
                                ct,
                                (f - 1) as nat,
                            )
                        })) by {
                            reveal(encode_spec);
                            reveal(encode_pieces_spec);
                            reveal(encode_fields_spec);
                        }
                    }
                    let ps: Vec<(Vec<u8>, Vec<u8>)> = match parse_record_text(raw) {
                        JsonDoc::Invalid => {
                            return Err(
                                SolanaError::new(
                                    ErrorKind::Parse,
                                    concat2("the provided argument is not a valid JSON object", ""),
                                ),
                            );
                        },
                        JsonDoc::NotAnObject => Vec::new(),
                        JsonDoc::Object(ps) => ps,
                    };
                    proof {
                        assert(pairs_map(Seq::<(Vec<u8>, Vec<u8>)>::empty()) =~= Map::<
                            Seq<u8>,
                            Seq<u8>,
                        >::empty());
                    }
                    record_tokens(&ps, fields, custom_types, fuel - 1)
                },
                IdlTypeDefinitionTy::TaggedChoice { variants } => {
                    proof {
                        assert(me == tagged_choice_arm(raw@, variants@)) by {
                            reveal(encode_spec);
                            reveal(encode_pieces_spec);
                            reveal(encode_fields_spec);
                        }
                    }
                    choice_token(raw, variants)
                },
            }
        },
    }
}

/// Convert every comma-split piece, gathering one token per piece: the
/// piece's own token, or its tokens grouped so that the element count of
/// the containing array is the piece count.
fn piece_tokens(
    pieces: &Vec<Vec<u8>>,
    sp: Ghost<Seq<Seq<u8>>>,
    elem: &IdlType,
    custom_types: &Vec<IdlTypeDefinition>,
    fuel: usize,
) -> (r: Result<Vec<Token>, SolanaError>)
    requires
        pieces@.len() == sp@.len(),
        forall|i: int| 0 <= i < pieces@.len() ==> (#[trigger] pieces@[i])@ == sp@[i],
    ensures
        r matches Ok(ts) ==> {
            &&& wf_tokens(ts@)
            &&& ts@.len() == sp@.len()
            &&& encode_pieces_spec(sp@, *elem, custom_types@, fuel as nat) == Ok::<
                Seq<u8>,
                ErrorKind,
            >(tokens_bytes(ts@))
        },
        r matches Err(e) ==> encode_pieces_spec(sp@, *elem, custom_types@, fuel as nat) == Err::<
            Seq<u8>,
            ErrorKind,
        >(e.kind),
    decreases fuel, ty_size(*elem), pieces@.len() + 1,
{
    let ghost ct = custom_types@;
    let ghost f = fuel as nat;
    let ghost full = encode_pieces_spec(sp@, *elem, ct, f);
    let n = pieces.len();
    let mut elems: Vec<Token> = Vec::new();
    let mut i: usize = 0;
    proof {
        assert(sp@.skip(0) =~= sp@);
        assert(tokens_bytes(elems@) =~= Seq::<u8>::empty());
        if full is Ok {
            assert(Seq::<u8>::empty() + full->Ok_0 =~= full->Ok_0);
        }
    }
    while i < n
        invariant
            n == pieces@.len(),
            n == sp@.len(),
            forall|j: int| 0 <= j < n ==> (#[trigger] pieces@[j])@ == sp@[j],
            0 <= i <= n,
            elems@.len() == i,
            wf_tokens(elems@),
            ct == custom_types@,
            f == fuel as nat,
            full == encode_pieces_spec(sp@, *elem, ct, f),
            full == chain(
                tokens_bytes(elems@),
                encode_pieces_spec(sp@.skip(i as int), *elem, ct, f),
            ),
        decreases n - i,
    {
        proof {
            lemma_pieces_unfold(sp@.skip(i as int), *elem, ct, f);
            assert(sp@.skip(i as int)[0] == sp@[i as int]);
            assert(sp@.skip(i as int).skip(1) =~= sp@.skip(i + 1));
        }
        let piece_result = tokens_for_argument(pieces[i].as_slice(), elem, custom_types, fuel);
        match piece_result {
            Err(e) => {
                return Err(e);
            },
            Ok(ts_piece) => {
                let ghost tsq = ts_piece@;
                let ghost piece_bytes = tokens_bytes(tsq);
                let t: Token = if ts_piece.len() == 1 {
                    let mut tsp = ts_piece;
                    match tsp.pop() {
                        Some(t) => {
                            proof {
                                assert(tsq[0] == t);
                                assert(tsq.skip(1) =~= Seq::<Token>::empty());
                                assert(tokens_bytes(Seq::<Token>::empty()) =~= Seq::<u8>::empty());
                                assert(tokens_bytes(tsq) =~= token_bytes(t) + Seq::<u8>::empty());
                                assert(token_bytes(t) + Seq::<u8>::empty() =~= token_bytes(t));
                                assert(wf_token(t));
                            }
                            t
                        },
                        None => {
                            proof {
                                assert(false);
                            }
                            Token::Bool(false)
                        },
                    }
                } else {
                    Token::FixedArray(ts_piece)
                };
                proof {
                    assert(token_bytes(t) == piece_bytes);
                    assert(wf_token(t));
                    lemma_tokens_bytes_push(elems@, t);
                    lemma_wf_tokens_push(elems@, t);
                    lemma_chain_assoc(
                        tokens_bytes(elems@),
                        piece_bytes,
                        encode_pieces_spec(sp@.skip(i + 1), *elem, ct, f),
                    );
                }
                elems.push(t);
            },
        }
        i = i + 1;
    }
    proof {
        assert(sp@.skip(n as int) =~= Seq::<Seq<u8>>::empty());
        assert(encode_pieces_spec(Seq::<Seq<u8>>::empty(), *elem, ct, f) == Ok::<
            Seq<u8>,
            ErrorKind,
        >(Seq::<u8>::empty())) by {
            reveal(encode_spec);
            reveal(encode_pieces_spec);
            reveal(encode_fields_spec);
        }
        assert(tokens_bytes(elems@) + Seq::<u8>::empty() =~= tokens_bytes(elems@));
    }
    Ok(elems)
}

/// Encode every declared field of a record, in field order, each looked up
/// by name in the parsed object.
fn record_tokens(
    ps: &Vec<(Vec<u8>, Vec<u8>)>,
    fields: &Vec<IdlField>,
    custom_types: &Vec<IdlTypeDefinition>,
    fuel: usize,
) -> (r: Result<Vec<Token>, SolanaError>)
    ensures
        r matches Ok(ts) ==> wf_tokens(ts@) && encode_fields_spec(
            pairs_map(ps@),
            fields@,
            custom_types@,
            fuel as nat,
        ) == Ok::<Seq<u8>, ErrorKind>(tokens_bytes(ts@)),
        r matches Err(e) ==> encode_fields_spec(pairs_map(ps@), fields@, custom_types@, fuel as nat)
            == Err::<Seq<u8>, ErrorKind>(e.kind),
    decreases fuel, fields_size(fields@), 0nat,
{
    let ghost ct = custom_types@;
    let ghost f = fuel as nat;
    let ghost m = pairs_map(ps@);
    let ghost full = encode_fields_spec(m, fields@, ct, f);
    let n = fields.len();
    let mut out: Vec<Token> = Vec::new();
    let mut i: usize = 0;
    proof {
        assert(fields@.skip(0) =~= fields@);
        assert(tokens_bytes(out@) =~= Seq::<u8>::empty());
        if full is Ok {
            assert(Seq::<u8>::empty() + full->Ok_0 =~= full->Ok_0);
        }
    }
    while i < n
        invariant
            n == fields@.len(),
            0 <= i <= n,
            wf_tokens(out@),
            ct == custom_types@,
            f == fuel as nat,
            m == pairs_map(ps@),
            full == encode_fields_spec(m, fields@, ct, f),
            full == chain(tokens_bytes(out@), encode_fields_spec(m, fields@.skip(i as int), ct, f)),
        decreases n - i,
    {
        proof {
            lemma_fields_unfold(m, fields@.skip(i as int), ct, f);
            assert(fields@.skip(i as int)[0] == fields@[i as int]);
            assert(fields@.skip(i as int).skip(1) =~= fields@.skip(i + 1));
        }
        let field = &fields[i];
        let text = match lookup_field(ps, field.name.as_str().as_bytes()) {
            Some(t) => t,
            None => {
                return Err(
                    SolanaError::new(
                        ErrorKind::Parse,
                        concat3("field ", field.name.as_str(), " not found"),
                    ),
                );
            },
        };
        proof {
            lemma_fields_size_at(fields@, i as int);
        }
        match tokens_for_argument(text.as_slice(), &field.ty, custom_types, fuel) {
            Err(e) => {
                return Err(e);
            },
            Ok(ts_field) => {
                proof {
                    lemma_chain_assoc(
                        tokens_bytes(out@),
                        tokens_bytes(ts_field@),
                        encode_fields_spec(m, fields@.skip(i + 1), ct, f),
                    );
                    lemma_tokens_bytes_concat(out@, ts_field@);
                    lemma_wf_tokens_concat(out@, ts_field@);
                }
                append_token_vec(&mut out, ts_field);
            },
        }
        i = i + 1;
    }
    proof {
        assert(fields@.skip(n as int) =~= Seq::<IdlField>::empty());
        assert(encode_fields_spec(m, Seq::<IdlField>::empty(), ct, f) == Ok::<Seq<u8>, ErrorKind>(
            Seq::<u8>::empty(),
        )) by {
            reveal(encode_spec);
            reveal(encode_pieces_spec);
            reveal(encode_fields_spec);
        }
        assert(tokens_bytes(out@) + Seq::<u8>::empty() =~= tokens_bytes(out@));
    }
    Ok(out)
}

/// Concatenation distributes over token serialization.
proof fn lemma_tokens_bytes_concat(a: Seq<Token>, b: Seq<Token>)
    ensures
        tokens_bytes(a + b) == tokens_bytes(a) + tokens_bytes(b),
    decreases b.len(),
{
    if b.len() == 0 {
        assert(a + b =~= a);
        assert(tokens_bytes(a) + tokens_bytes(b) =~= tokens_bytes(a));
    } else {
        lemma_tokens_bytes_concat(a.push(b[0]), b.skip(1));
        assert(a + b =~= a.push(b[0]) + b.skip(1));
        lemma_tokens_bytes_push(a, b[0]);
        assert(tokens_bytes(b) == token_bytes(b[0]) + tokens_bytes(b.skip(1)));
        assert((tokens_bytes(a) + token_bytes(b[0])) + tokens_bytes(b.skip(1)) =~= tokens_bytes(a)
            + (token_bytes(b[0]) + tokens_bytes(b.skip(1))));
    }
}

/// Concatenation preserves well-formedness.
proof fn lemma_wf_tokens_concat(a: Seq<Token>, b: Seq<Token>)
    requires
        wf_tokens(a),
        wf_tokens(b),
    ensures
        wf_tokens(a + b),
    decreases b.len(),
{
    if b.len() == 0 {
        assert(a + b =~= a);
    } else {
        assert(wf_token(b[0]));
        lemma_wf_tokens_push(a, b[0]);
        lemma_wf_tokens_concat(a.push(b[0]), b.skip(1));
        assert(a + b =~= a.push(b[0]) + b.skip(1));
    }
}

/// Encode a tagged-choice literal: one byte holding the variant's index.
fn choice_token(raw: &[u8], variants: &Vec<String>) -> (r: Result<Vec<Token>, SolanaError>)
    ensures
        r matches Ok(ts) ==> wf_tokens(ts@) && tagged_choice_arm(raw@, variants@) == Ok::<
            Seq<u8>,
            ErrorKind,
        >(tokens_bytes(ts@)),
        r matches Err(e) ==> tagged_choice_arm(raw@, variants@) == Err::<Seq<u8>, ErrorKind>(
            e.kind,
        ),
{
    let stripped = strip_quotes_exec(raw);
    let n = variants.len();
    let mut i: usize = 0;
    while i < n
        invariant
            n == variants@.len(),
            0 <= i <= n,
            stripped@ == strip_quotes(raw@),
            forall|j: int|
                0 <= j < i ==> encode_utf8((#[trigger] variants@[j])@) != strip_quotes(raw@),
        decreases n - i,
    {
        if bytes_eq(variants[i].as_str().as_bytes(), stripped.as_slice()) {
            proof {
                let ci = variant_index(variants@, strip_quotes(raw@));
                assert(0 <= i < variants@.len() && encode_utf8(variants@[i as int]@)
                    == strip_quotes(raw@) && (forall|j: int|
                    0 <= j < i ==> encode_utf8((#[trigger] variants@[j])@) != strip_quotes(raw@)));
                if ci != i {
                    if ci < i {
                        assert(encode_utf8(variants@[ci]@) != strip_quotes(raw@));
                    } else {
                        assert(encode_utf8(variants@[i as int]@) != strip_quotes(raw@));
                    }
                }
            }
            if i > 255 {
                return Err(
                    SolanaError::new(
                        ErrorKind::Parse,
                        concat2("the provided argument is not a valid unsigned integer", ""),
                    ),
                );
            }
            let mut le: Vec<u8> = Vec::new();
            le.push(i as u8);
            proof {
                assert(le@ =~= seq![i as u8]);
            }
            return Ok(one_token(Token::Uint { width: 8, le }));
        }
        i = i + 1;
    }
    // list the available variants for the operator
    let mut listing = concat2("variant not found; available variants: ", "");
    let mut j: usize = 0;
    while j < n
        invariant
            n == variants@.len(),
            0 <= j <= n,
        decreases n - j,
    {
        listing.append(variants[j].as_str());
        listing.append(" ");
        j = j + 1;
    }
    Err(SolanaError::new(ErrorKind::VariantNotFound, listing))
}

} // verus!
// The public entry point.

verus! {

/// Composition of encoded arguments with the remaining work.
pub open spec fn chain_args(done: Seq<u8>, rest: Result<Seq<u8>, ErrorKind>) -> Result<
    Seq<u8>,
    ErrorKind,
> {
    match rest {
        Ok(r) => Ok(done + r),
        Err(e) => Err(e),
    }
}

proof fn lemma_chain_args_assoc(done: Seq<u8>, b: Seq<u8>, rest: Result<Seq<u8>, ErrorKind>)
    ensures
        chain_args(done, chain_args(b, rest)) == chain_args(done + b, rest),
{
    if rest is Ok {
        assert(done + (b + rest->Ok_0) =~= (done + b) + rest->Ok_0);
    }
}

/// One step of the argument loop: how the whole encoding relates to the
/// work already done and the work remaining after argument `i`.
proof fn lemma_args_step(
    args: Seq<IdlArgument>,
    texts: Seq<Seq<u8>>,
    ct: Seq<IdlTypeDefinition>,
    f: nat,
    i: int,
    done: Seq<u8>,
    full: Result<Seq<u8>, ErrorKind>,
)
    requires
        0 <= i < args.len(),
        args.len() == texts.len(),
        full == chain_args(done, encode_args_spec(args.skip(i), texts.skip(i), ct, f)),
    ensures
        encode_spec(texts[i], args[i].ty, ct, f) matches Err(k) ==> full == Err::<
            Seq<u8>,
            ErrorKind,
        >(k),
        encode_spec(texts[i], args[i].ty, ct, f) matches Ok(b) ==> full == chain_args(
            done + b,
            encode_args_spec(args.skip(i + 1), texts.skip(i + 1), ct, f),
        ),
{
    assert(args.skip(i)[0] == args[i]);
    assert(texts.skip(i)[0] == texts[i]);
    assert(args.skip(i).skip(1) =~= args.skip(i + 1));
    assert(texts.skip(i).skip(1) =~= texts.skip(i + 1));
    let rest = encode_args_spec(args.skip(i + 1), texts.skip(i + 1), ct, f);
    let res = encode_spec(texts[i], args[i].ty, ct, f);
    if res is Ok {
        lemma_chain_args_assoc(done, res->Ok_0, rest);
    }
}

/// Build the full instruction payload: the instruction's discriminator
/// under the `global` namespace, then every declared argument encoded from
/// its raw string, in order.  The raw count must equal the declared count,
/// and no partial payload is returned on failure.
pub fn construct_instruction_data(
    instr: &Instruction,
    raw_args: &Vec<String>,
    custom_types: &Vec<IdlTypeDefinition>,
) -> (r: Result<Vec<u8>, SolanaError>)
    requires
        custom_types@.len() < usize::MAX,
    ensures
        r matches Ok(d) ==> instruction_data_spec(*instr, raw_args@, custom_types@) == Ok::<
            Seq<u8>,
            ErrorKind,
        >(d@),
        r matches Err(e) ==> instruction_data_spec(*instr, raw_args@, custom_types@) == Err::<
            Seq<u8>,
            ErrorKind,
        >(e.kind),
        r is Ok <==> instruction_data_spec(*instr, raw_args@, custom_types@) is Ok,
{
    let ghost ct = custom_types@;
    let ghost texts = arg_texts(raw_args@);
    let fuel: usize = custom_types.len() + 1;
    let ghost f = fuel as nat;
    let ghost full = encode_args_spec(instr.args@, texts, ct, f);
    if raw_args.len() != instr.args.len() {
        let message = if raw_args.len() < instr.args.len() {
            concat2("Missing argument ", instr.args[raw_args.len()].name.as_str())
        } else {
            concat2("more arguments than the instruction declares", "")
        };
        return Err(SolanaError::new(ErrorKind::MissingArgument, message));
    }
    let n = instr.args.len();
    let mut all: Vec<Token> = Vec::new();
    let mut i: usize = 0;
    proof {
        assert(instr.args@.skip(0) =~= instr.args@);
        assert(texts.skip(0) =~= texts);
        assert(tokens_bytes(all@) =~= Seq::<u8>::empty());
        if full is Ok {
            assert(Seq::<u8>::empty() + full->Ok_0 =~= full->Ok_0);
        }
    }
    while i < n
        invariant
            n == instr.args@.len(),
            n == raw_args@.len(),
            n == texts.len(),
            texts == arg_texts(raw_args@),
            0 <= i <= n,
            wf_tokens(all@),
            ct == custom_types@,
            f == fuel as nat,
            f == ct.len() + 1,
            full == encode_args_spec(instr.args@, texts, ct, f),
            full == chain_args(
                tokens_bytes(all@),
                encode_args_spec(instr.args@.skip(i as int), texts.skip(i as int), ct, f),
            ),
        decreases n - i,
    {
        let arg = &instr.args[i];
        proof {
            assert(texts[i as int] == encode_utf8(raw_args@[i as int]@));
            lemma_args_step(instr.args@, texts, ct, f, i as int, tokens_bytes(all@), full);
        }
        match tokens_for_argument(raw_args[i].as_str().as_bytes(), &arg.ty, custom_types, fuel) {
            Err(e) => {
                return Err(e);
            },
            Ok(ts_arg) => {
                proof {
                    lemma_tokens_bytes_concat(all@, ts_arg@);
                    lemma_wf_tokens_concat(all@, ts_arg@);
                }
                append_token_vec(&mut all, ts_arg);
            },
        }
        i = i + 1;
    }
    proof {
        assert(instr.args@.skip(n as int) =~= Seq::<IdlArgument>::empty());
        assert(texts.skip(n as int) =~= Seq::<Seq<u8>>::empty());
        assert(encode_args_spec(Seq::<IdlArgument>::empty(), Seq::<Seq<u8>>::empty(), ct, f)
            == Ok::<Seq<u8>, ErrorKind>(Seq::<u8>::empty()));
        assert(tokens_bytes(all@) + Seq::<u8>::empty() =~= tokens_bytes(all@));
    }
    let mut data = discriminator("global", instr.name.as_str());
    let arg_bytes = crate::token::encode_arguments(&all);
    extend_bytes(&mut data, arg_bytes.as_slice());
    Ok(data)
}

} // verus!
// Laws of the encoder.

verus! {

/// The value of a four-byte little-endian prefix is the number encoded.
proof fn lemma_le_nat_le32(n: nat)
    requires
        n < 0x1_0000_0000,
    ensures
        le_nat(le32(n)) == n,
{
    let s = le32(n);
    assert(s.len() == 4);
    crate::decode::lemma_le_nat4(s);
    vstd::arithmetic::div_mod::lemma_fundamental_div_mod(n as int, 256);
    vstd::arithmetic::div_mod::lemma_fundamental_div_mod((n / 256) as int, 256);
    vstd::arithmetic::div_mod::lemma_fundamental_div_mod((n / 65536) as int, 256);
    vstd::arithmetic::div_mod::lemma_div_denominator(n as int, 256, 256);
    vstd::arithmetic::div_mod::lemma_div_denominator(n as int, 65536, 256);
    assert((n / 256) / 256 == n / 65536);
    assert((n / 65536) / 256 == n / 16777216);
    assert(n / 16777216 < 256) by (nonlinear_arith)
        requires
            n < 0x1_0000_0000,
    ;
    vstd::arithmetic::div_mod::lemma_small_mod(n / 16777216, 256);
}

/// Every successfully encoded payload begins with the instruction's
/// discriminator, a deterministic function of the namespace `global` and
/// the instruction's name alone.
pub proof fn lemma_payload_starts_with_discriminator(
    instr: Instruction,
    raws: Seq<String>,
    types: Seq<IdlTypeDefinition>,
)
    requires
        instruction_data_spec(instr, raws, types) is Ok,
    ensures
        ({
            let d = instruction_data_spec(instr, raws, types)->Ok_0;
            let disc = discriminator_bytes("global"@, instr.name@);
            d.take(disc.len() as int) == disc
        }),
{
    let d = instruction_data_spec(instr, raws, types)->Ok_0;
    let disc = discriminator_bytes("global"@, instr.name@);
    assert(d.take(disc.len() as int) =~= disc);
}

/// A vector argument's first four encoded bytes hold, little-endian, the
/// number of comma-separated elements supplied.
pub proof fn lemma_vector_count_prefix(
    raw: Seq<u8>,
    ty: IdlType,
    types: Seq<IdlTypeDefinition>,
    fuel: nat,
)
    requires
        ty is Vector,
        encode_spec(raw, ty, types, fuel) is Ok,
    ensures
        ({
            let b = encode_spec(raw, ty, types, fuel)->Ok_0;
            &&& b.len() >= 4
            &&& le_nat(b.take(4)) == split_commas(raw).len()
        }),
{
    reveal(encode_spec);
    reveal(encode_pieces_spec);
    reveal(encode_fields_spec);
    let b = encode_spec(raw, ty, types, fuel)->Ok_0;
    let count = split_commas(raw).len();
    assert(b.take(4) =~= le32(count));
    lemma_le_nat_le32(count);
}

/// A fixed-array argument with an element count different from the
/// declared size fails with the array-size error and yields no output.
pub proof fn lemma_fixed_array_size_mismatch(
    raw: Seq<u8>,
    ty: IdlType,
    types: Seq<IdlTypeDefinition>,
    fuel: nat,
)
    requires
        ty is Array,
        split_commas(raw).len() != ty->Array_1,
    ensures
        encode_spec(raw, ty, types, fuel) == Err::<Seq<u8>, ErrorKind>(
            ErrorKind::ArraySizeMismatch,
        ),
{
    reveal(encode_spec);
    reveal(encode_pieces_spec);
    reveal(encode_fields_spec);
}

/// A tagged-choice argument naming none of the declared variants fails
/// with the variant-not-found error.
pub proof fn lemma_variant_not_found(
    raw: Seq<u8>,
    ty: IdlType,
    types: Seq<IdlTypeDefinition>,
    fuel: nat,
)
    requires
        fuel > 0,
        ty is Defined,
        has_type_definition(types, ty->Defined_0@),
        types[type_def_index(types, ty->Defined_0@)].ty is TaggedChoice,
        !has_variant(
            types[type_def_index(types, ty->Defined_0@)].ty->TaggedChoice_variants@,
            strip_quotes(raw),
        ),
    ensures
        encode_spec(raw, ty, types, fuel) == Err::<Seq<u8>, ErrorKind>(ErrorKind::VariantNotFound),
{
    reveal(encode_spec);
    reveal(encode_pieces_spec);
    reveal(encode_fields_spec);
}

} // verus!
