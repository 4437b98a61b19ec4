//! The runtime value representation and its byte serialization.
//!
//! A `Token` mirrors the declared types of the schema: scalars carry their
//! little-endian bytes, length-prefixed data carries its raw bytes, and
//! arrays carry their element tokens.  `token_bytes` is the wire format:
//! what one token contributes to an encoded instruction payload.

use vstd::prelude::*;

use crate::strutil::extend_bytes;

verus! {

/// A runtime value of a schema-declared type.
///
/// Integer tokens hold the little-endian bytes of their value, exactly
/// `width / 8` of them, two's complement for `Int`.  An `Array` token is a
/// dynamically sized vector and is serialized with a four-byte element
/// count; a `FixedArray` token is serialized as its elements alone.  A
/// record contributes its field tokens inline; a `FixedArray` wrapper is
/// also used to group the fields of one record when it stands as a single
/// element of an array, since the grouping serializes to nothing.
#[derive(Debug)]
pub enum Token {
    Bool(bool),
    Uint { width: u32, le: Vec<u8> },
    Int { width: u32, le: Vec<u8> },
    Bytes(Vec<u8>),
    Str(Vec<u8>),
    Address(Vec<u8>),
    Array(Vec<Token>),
    FixedArray(Vec<Token>),
}

/// A declared integer width in bits.
pub open spec fn is_int_width(w: u32) -> bool {
    w == 8 || w == 16 || w == 32 || w == 64 || w == 128 || w == 256
}

/// Four little-endian bytes of a number below 2^32.
pub open spec fn le32(n: nat) -> Seq<u8> {
    seq![
        (n % 256) as u8,
        ((n / 256) % 256) as u8,
        ((n / 65536) % 256) as u8,
        ((n / 16777216) % 256) as u8,
    ]
}

/// Well-formedness: integer buffers match their width, an address is 32
/// bytes, and whatever gets a four-byte length prefix fits that prefix.
pub open spec fn wf_token(t: Token) -> bool
    decreases t,
{
    match t {
        Token::Bool(_) => true,
        Token::Uint { width, le } => is_int_width(width) && le@.len() * 8 == width,
        Token::Int { width, le } => is_int_width(width) && le@.len() * 8 == width,
        Token::Bytes(v) => v@.len() < 0x1_0000_0000,
        Token::Str(v) => v@.len() < 0x1_0000_0000,
        Token::Address(v) => v@.len() == 32,
        Token::Array(ts) => ts@.len() < 0x1_0000_0000 && wf_tokens(ts@),
        Token::FixedArray(ts) => wf_tokens(ts@),
    }
}

pub open spec fn wf_tokens(ts: Seq<Token>) -> bool
    decreases ts,
{
    if ts.len() == 0 {
        true
    } else {
        wf_token(ts[0]) && wf_tokens(ts.skip(1))
    }
}

/// The bytes one token contributes to the wire format.
pub open spec fn token_bytes(t: Token) -> Seq<u8>
    decreases t,
{
    match t {
        Token::Bool(b) => seq![if b { 1u8 } else { 0u8 }],
        Token::Uint { width, le } => le@,
        Token::Int { width, le } => le@,
        Token::Bytes(v) => le32(v@.len()) + v@,
        Token::Str(v) => le32(v@.len()) + v@,
        Token::Address(v) => v@,
        Token::Array(ts) => le32(ts@.len()) + tokens_bytes(ts@),
        Token::FixedArray(ts) => tokens_bytes(ts@),
    }
}

/// The concatenated bytes of a token list.
pub open spec fn tokens_bytes(ts: Seq<Token>) -> Seq<u8>
    decreases ts,
{
    if ts.len() == 0 {
        Seq::<u8>::empty()
    } else {
        token_bytes(ts[0]) + tokens_bytes(ts.skip(1))
    }
}

/// Splitting a token list splits its bytes.
pub proof fn lemma_tokens_bytes_push(ts: Seq<Token>, t: Token)
    ensures
        tokens_bytes(ts.push(t)) == tokens_bytes(ts) + token_bytes(t),
    decreases ts,
{
    if ts.len() == 0 {
        assert(ts.push(t)[0] == t);
        assert(ts.push(t).skip(1) =~= Seq::<Token>::empty());
        assert(tokens_bytes(Seq::<Token>::empty()) =~= Seq::<u8>::empty());
        assert(tokens_bytes(ts.push(t)) =~= token_bytes(t));
        assert(tokens_bytes(ts) + token_bytes(t) =~= token_bytes(t));
    } else {
        lemma_tokens_bytes_push(ts.skip(1), t);
        assert(ts.push(t).skip(1) =~= ts.skip(1).push(t));
        assert(ts.push(t)[0] == ts[0]);
        assert(tokens_bytes(ts.push(t)) == token_bytes(ts[0]) + (tokens_bytes(ts.skip(1))
            + token_bytes(t)));
        assert(token_bytes(ts[0]) + (tokens_bytes(ts.skip(1)) + token_bytes(t)) =~= (token_bytes(
            ts[0],
        ) + tokens_bytes(ts.skip(1))) + token_bytes(t));
    }
}

pub proof fn lemma_wf_tokens_push(ts: Seq<Token>, t: Token)
    requires
        wf_tokens(ts),
        wf_token(t),
    ensures
        wf_tokens(ts.push(t)),
    decreases ts,
{
    if ts.len() == 0 {
        assert(ts.push(t)[0] == t);
        assert(ts.push(t).skip(1) =~= Seq::<Token>::empty());
        assert(wf_tokens(Seq::<Token>::empty()));
    } else {
        lemma_wf_tokens_push(ts.skip(1), t);
        assert(ts.push(t).skip(1) =~= ts.skip(1).push(t));
        assert(ts.push(t)[0] == ts[0]);
    }
}

/// Elementwise reading of a well-formed token list.
pub proof fn lemma_wf_tokens_index(ts: Seq<Token>)
    requires
        wf_tokens(ts),
    ensures
        forall|i: int| 0 <= i < ts.len() ==> wf_token(#[trigger] ts[i]),
    decreases ts,
{
    if ts.len() > 0 {
        lemma_wf_tokens_index(ts.skip(1));
        assert forall|i: int| 0 <= i < ts.len() implies wf_token(#[trigger] ts[i]) by {
            if i > 0 {
                assert(wf_token(ts.skip(1)[i - 1]));
            }
        }
    }
}

/// Append the four little-endian bytes of `n`.
pub fn append_u32_le(out: &mut Vec<u8>, n: u32)
    ensures
        final(out)@ == old(out)@ + le32(n as nat),
{
    out.push((n % 256) as u8);
    out.push(((n / 256) % 256) as u8);
    out.push(((n / 65536) % 256) as u8);
    out.push(((n / 16777216) % 256) as u8);
    proof {
        assert(out@ =~= old(out)@ + le32(n as nat));
    }
}

/// Append the wire bytes of one token.
pub fn append_token(out: &mut Vec<u8>, t: &Token)
    requires
        wf_token(*t),
    ensures
        final(out)@ == old(out)@ + token_bytes(*t),
    decreases *t,
{
    match t {
        Token::Bool(b) => {
            out.push(if *b {
                1
            } else {
                0
            });
            proof {
                assert(out@ =~= old(out)@ + token_bytes(*t));
            }
        },
        Token::Uint { width: _, le } => {
            extend_bytes(out, le.as_slice());
        },
        Token::Int { width: _, le } => {
            extend_bytes(out, le.as_slice());
        },
        Token::Bytes(v) => {
            append_u32_le(out, v.len() as u32);
            extend_bytes(out, v.as_slice());
            proof {
                assert(out@ =~= old(out)@ + token_bytes(*t));
            }
        },
        Token::Str(v) => {
            append_u32_le(out, v.len() as u32);
            extend_bytes(out, v.as_slice());
            proof {
                assert(out@ =~= old(out)@ + token_bytes(*t));
            }
        },
        Token::Address(v) => {
            extend_bytes(out, v.as_slice());
        },
        Token::Array(ts) => {
            append_u32_le(out, ts.len() as u32);
            append_tokens(out, ts);
            proof {
                assert(out@ =~= old(out)@ + token_bytes(*t));
            }
        },
        Token::FixedArray(ts) => {
            append_tokens(out, ts);
        },
    }
}

/// Append the wire bytes of every token in order.
pub fn append_tokens(out: &mut Vec<u8>, ts: &Vec<Token>)
    requires
        wf_tokens(ts@),
    ensures
        final(out)@ == old(out)@ + tokens_bytes(ts@),
    decreases ts@,
{
    let n = ts.len();
    let mut i: usize = 0;
    proof {
        lemma_wf_tokens_index(ts@);
    }
    while i < n
        invariant
            n == ts@.len(),
            0 <= i <= n,
            forall|j: int| 0 <= j < n ==> wf_token(#[trigger] ts@[j]),
            out@ == old(out)@ + tokens_bytes(ts@.take(i as int)),
        decreases n - i,
    {
        proof {
            assert(ts@.take(i + 1) =~= ts@.take(i as int).push(ts@[i as int]));
            lemma_tokens_bytes_push(ts@.take(i as int), ts@[i as int]);
        }
        append_token(out, &ts[i]);
        i = i + 1;
    }
    proof {
        assert(ts@.take(n as int) =~= ts@);
    }
}

/// Serialize a token list: the encoded arguments of an instruction.
pub fn encode_arguments(ts: &Vec<Token>) -> (r: Vec<u8>)
    requires
        wf_tokens(ts@),
    ensures
        r@ == tokens_bytes(ts@),
{
    let mut out: Vec<u8> = Vec::new();
    append_tokens(&mut out, ts);
    out
}

} // verus!
