//! Base58 text for 32-byte addresses.
//!
//! An address argument or an account public key arrives as base58 text
//! (Bitcoin alphabet).  Decoding accepts exactly the strings whose byte
//! form is 32 bytes long: one leading zero byte per leading `1` character,
//! then the big-endian bytes of the digits' value.  Encoding is the
//! inverse.

use vstd::prelude::*;

use crate::nums::{
    div_small, le_nat, lemma_le_nat_bound, lemma_le_nat_index, lemma_le_nat_zero, lemma_pow256_pos,
    mul_small_add, pow256,
};
use crate::decimal::zero_buf;

verus! {

/// Value of a base58 character, following the Bitcoin alphabet
/// `123456789ABCDEFGHJKLMNPQRSTUVWXYZabcdefghijkmnopqrstuvwxyz`.
pub open spec fn b58_val(c: u8) -> nat {
    if 49 <= c <= 57 {
        (c - 49) as nat
    } else if 65 <= c <= 72 {
        (c - 56) as nat
    } else if 74 <= c <= 78 {
        (c - 57) as nat
    } else if 80 <= c <= 90 {
        (c - 58) as nat
    } else if 97 <= c <= 107 {
        (c - 64) as nat
    } else if 109 <= c <= 122 {
        (c - 65) as nat
    } else {
        58
    }
}

pub open spec fn is_b58_digit(c: u8) -> bool {
    b58_val(c) < 58
}

pub open spec fn all_b58_digits(s: Seq<u8>) -> bool {
    forall|i: int| 0 <= i < s.len() ==> is_b58_digit(#[trigger] s[i])
}

/// Value of base58 text, most significant digit first.
pub open spec fn b58_nat(s: Seq<u8>) -> nat
    decreases s.len(),
{
    if s.len() == 0 {
        0
    } else {
        58 * b58_nat(s.drop_last()) + if is_b58_digit(s.last()) {
            b58_val(s.last())
        } else {
            0
        }
    }
}

/// Number of leading `1` characters: each stands for one zero byte.
pub open spec fn leading_one_count(s: Seq<u8>) -> nat
    decreases s.len(),
{
    if s.len() > 0 && s[0] == 49 {
        1 + leading_one_count(s.skip(1))
    } else {
        0
    }
}

/// Text that decodes to exactly 32 bytes: valid digits throughout, and the
/// digits' value occupies exactly `32 - z` bytes, `z` the leading ones.
pub open spec fn is_pubkey_b58(s: Seq<u8>) -> bool {
    let z = leading_one_count(s);
    let v = b58_nat(s);
    &&& all_b58_digits(s)
    &&& z <= 32
    &&& v < pow256((32 - z) as nat)
    &&& (z < 32 ==> v >= pow256((31 - z) as nat))
}

/// The 32 big-endian bytes a valid pubkey string denotes.
pub open spec fn b58_bytes32(s: Seq<u8>) -> Seq<u8> {
    Seq::new(32, |i: int| ((b58_nat(s) / pow256((31 - i) as nat)) % 256) as u8)
}

/// A longer digit string never denotes a smaller value.
proof fn lemma_b58_nat_prefix(s: Seq<u8>, k: int)
    requires
        0 <= k <= s.len(),
    ensures
        b58_nat(s.take(k)) <= b58_nat(s),
    decreases s.len() - k,
{
    if k < s.len() {
        lemma_b58_nat_prefix(s, k + 1);
        let t = s.take(k + 1);
        assert(t.drop_last() =~= s.take(k));
        assert(b58_nat(s.take(k)) <= 58 * b58_nat(t.drop_last()));
    } else {
        assert(s.take(k) =~= s);
    }
}

proof fn lemma_pow256_mono(a: nat, b: nat)
    requires
        a <= b,
    ensures
        pow256(a) <= pow256(b),
    decreases b,
{
    if a < b {
        lemma_pow256_mono(a, (b - 1) as nat);
        lemma_pow256_pos((b - 1) as nat);
    }
}

/// The value stays under `pow256(k)` exactly when every byte at index `k`
/// or above is zero.
proof fn lemma_le_nat_high_zero(b: Seq<u8>, k: int)
    requires
        0 <= k <= b.len(),
    ensures
        le_nat(b) < pow256(k as nat) <==> (forall|j: int| k <= j < b.len() ==> b[j] == 0),
    decreases b.len(),
{
    if k == 0 {
        lemma_le_nat_zero(b);
        lemma_pow256_pos(0);
    } else {
        lemma_le_nat_high_zero(b.skip(1), k - 1);
        let r = le_nat(b.skip(1));
        let p = pow256((k - 1) as nat);
        assert(le_nat(b) == b[0] + 256 * r);
        assert(pow256(k as nat) == 256 * p);
        if r < p {
            assert(b[0] + 256 * r < 256 * p) by (nonlinear_arith)
                requires
                    b[0] < 256 && r <= p - 1,
            ;
        } else {
            assert(b[0] + 256 * r >= 256 * p) by (nonlinear_arith)
                requires
                    r >= p,
            ;
        }
        assert forall|j: int| k <= j < b.len() && le_nat(b) < pow256(k as nat) implies b[j]
            == 0 by {
            assert(b.skip(1)[j - 1] == b[j]);
        }
        if forall|j: int| k <= j < b.len() ==> b[j] == 0 {
            assert forall|j: int| k - 1 <= j < b.skip(1).len() implies b.skip(1)[j] == 0 by {
                assert(b.skip(1)[j] == b[j + 1]);
            }
        }
    }
}

/// The exec count of leading ones matches the spec.
proof fn lemma_leading_one_count(s: Seq<u8>, z: int)
    requires
        0 <= z <= s.len(),
        forall|j: int| 0 <= j < z ==> s[j] == 49,
        z == s.len() || s[z] != 49,
    ensures
        leading_one_count(s) == z,
    decreases s.len(),
{
    if z > 0 {
        assert(s[0] == 49);
        assert forall|j: int| 0 <= j < z - 1 implies s.skip(1)[j] == 49 by {
            assert(s.skip(1)[j] == s[j + 1]);
        }
        if z - 1 < s.skip(1).len() {
            assert(s.skip(1)[z - 1] == s[z]);
        }
        lemma_leading_one_count(s.skip(1), z - 1);
    }
}

fn b58_digit_value(c: u8) -> (r: Option<u8>)
    ensures
        r is Some <==> is_b58_digit(c),
        r matches Some(v) ==> v == b58_val(c) && v < 58,
{
    if 49 <= c && c <= 57 {
        Some(c - 49)
    } else if 65 <= c && c <= 72 {
        Some(c - 56)
    } else if 74 <= c && c <= 78 {
        Some(c - 57)
    } else if 80 <= c && c <= 90 {
        Some(c - 58)
    } else if 97 <= c && c <= 107 {
        Some(c - 64)
    } else if 109 <= c && c <= 122 {
        Some(c - 65)
    } else {
        None
    }
}

/// Decode base58 text to exactly 32 big-endian bytes, or fail.
pub fn pubkey_from_base58(s: &[u8]) -> (r: Result<Vec<u8>, ()>)
    ensures
        r is Ok <==> is_pubkey_b58(s@),
        r matches Ok(b) ==> b@ == b58_bytes32(s@) && b@.len() == 32,
{
    let n = s.len();
    let mut buf = zero_buf(32);
    let mut i: usize = 0;
    proof {
        assert(s@.take(0) =~= Seq::<u8>::empty());
    }
    while i < n
        invariant
            n == s@.len(),
            0 <= i <= n,
            buf@.len() == 32,
            all_b58_digits(s@.take(i as int)),
            le_nat(buf@) == b58_nat(s@.take(i as int)),
        decreases n - i,
    {
        let c = s[i];
        let d = match b58_digit_value(c) {
            Some(d) => d,
            None => {
                return Err(());
            },
        };
        let carry = mul_small_add(&mut buf, 58, d);
        proof {
            assert(s@.take(i + 1).drop_last() =~= s@.take(i as int));
            assert(s@.take(i + 1).last() == c);
        }
        if carry != 0 {
            proof {
                lemma_pow256_pos(32);
                assert(pow256(32) * (carry as nat) >= pow256(32)) by (nonlinear_arith)
                    requires
                        pow256(32) >= 1 && carry >= 1,
                ;
                lemma_b58_nat_prefix(s@, i + 1);
                let z = leading_one_count(s@);
                if z <= 32 {
                    lemma_pow256_mono((32 - z) as nat, 32);
                }
            }
            return Err(());
        }
        i = i + 1;
    }
    proof {
        assert(s@.take(n as int) =~= s@);
    }
    // count the leading `1` characters
    let mut z: usize = 0;
    while z < n && s[z] == 49
        invariant
            n == s@.len(),
            0 <= z <= n,
            forall|j: int| 0 <= j < z ==> s@[j] == 49,
        decreases n - z,
    {
        z = z + 1;
    }
    proof {
        lemma_leading_one_count(s@, z as int);
    }
    if z > 32 {
        return Err(());
    }
    let k = 32 - z;
    // the value must occupy exactly k bytes
    let mut j = k;
    while j < 32
        invariant
            buf@.len() == 32,
            z <= 32,
            k == 32 - z,
            k <= j <= 32,
            le_nat(buf@) == b58_nat(s@),
            z as int == leading_one_count(s@),
            forall|m: int| k <= m < j ==> buf@[m] == 0,
        decreases 32 - j,
    {
        if buf[j] != 0 {
            proof {
                lemma_le_nat_high_zero(buf@, k as int);
                assert(!(forall|m: int| k <= m < 32 ==> buf@[m] == 0));
                assert(le_nat(buf@) >= pow256(k as nat));
                assert(!is_pubkey_b58(s@));
            }
            return Err(());
        }
        j = j + 1;
    }
    proof {
        lemma_le_nat_high_zero(buf@, k as int);
    }
    if k > 0 {
        if buf[k - 1] == 0 {
            proof {
                lemma_le_nat_high_zero(buf@, k - 1);
                assert forall|m: int| k - 1 <= m < 32 implies buf@[m] == 0 by {}
            }
            return Err(());
        }
        proof {
            lemma_le_nat_high_zero(buf@, k - 1);
        }
    }
    // reverse into big-endian order
    let mut out: Vec<u8> = Vec::new();
    let mut i2: usize = 0;
    while i2 < 32
        invariant
            buf@.len() == 32,
            0 <= i2 <= 32,
            out@.len() == i2,
            forall|m: int| 0 <= m < i2 ==> out@[m] == buf@[31 - m],
        decreases 32 - i2,
    {
        out.push(buf[31 - i2]);
        i2 = i2 + 1;
    }
    proof {
        assert forall|m: int| 0 <= m < 32 implies out@[m] == b58_bytes32(s@)[m] by {
            lemma_le_nat_index(buf@, 31 - m);
        }
        assert(out@ =~= b58_bytes32(s@));
    }
    Ok(out)
}

/// The base58 character of a digit.
pub open spec fn b58_char_of(d: nat) -> u8 {
    if d <= 8 {
        (d + 49) as u8
    } else if d <= 16 {
        (d + 56) as u8
    } else if d <= 21 {
        (d + 57) as u8
    } else if d <= 32 {
        (d + 58) as u8
    } else if d <= 43 {
        (d + 64) as u8
    } else if d <= 57 {
        (d + 65) as u8
    } else {
        49
    }
}

/// The base58 digits of a value, least significant first; empty for zero.
pub open spec fn b58_digits_of(v: nat) -> Seq<nat>
    decreases v
        via b58_digits_of_decreases
{
    if v == 0 {
        Seq::<nat>::empty()
    } else {
        seq![v % 58] + b58_digits_of(v / 58)
    }
}

#[via_fn]
proof fn b58_digits_of_decreases(v: nat) {
    if v > 0 {
        vstd::arithmetic::div_mod::lemma_div_decreases(v as int, 58);
    }
}

/// The base58 text of 32 big-endian bytes: one `1` per leading zero byte,
/// then the digits of the value, most significant first.
pub open spec fn b58_text_of(bytes: Seq<u8>) -> Seq<u8> {
    Seq::new(leading_zero_byte_count(bytes), |i: int| 49u8) + b58_digits_of(
        be_nat(bytes),
    ).reverse().map(|i: int, d: nat| b58_char_of(d))
}

/// Number of leading zero bytes.
pub open spec fn leading_zero_byte_count(bytes: Seq<u8>) -> nat
    decreases bytes.len(),
{
    if bytes.len() > 0 && bytes[0] == 0 {
        1 + leading_zero_byte_count(bytes.skip(1))
    } else {
        0
    }
}

/// Unsigned value of big-endian bytes.
pub open spec fn be_nat(bytes: Seq<u8>) -> nat {
    le_nat(bytes.reverse())
}

fn b58_char_of_digit(d: u8) -> (r: u8)
    requires
        d < 58,
    ensures
        r == b58_char_of(d as nat),
{
    if d <= 8 {
        d + 49
    } else if d <= 16 {
        d + 56
    } else if d <= 21 {
        d + 57
    } else if d <= 32 {
        d + 58
    } else if d <= 43 {
        d + 64
    } else {
        d + 65
    }
}

proof fn lemma_leading_zero_from_index(bytes: Seq<u8>, z: int)
    requires
        0 <= z <= bytes.len(),
        forall|j: int| 0 <= j < z ==> bytes[j] == 0,
        z == bytes.len() || bytes[z] != 0,
    ensures
        leading_zero_byte_count(bytes) == z,
    decreases bytes.len(),
{
    if z > 0 {
        assert(bytes[0] == 0);
        assert forall|j: int| 0 <= j < z - 1 implies bytes.skip(1)[j] == 0 by {
            assert(bytes.skip(1)[j] == bytes[j + 1]);
        }
        if z - 1 < bytes.skip(1).len() {
            assert(bytes.skip(1)[z - 1] == bytes[z]);
        }
        lemma_leading_zero_from_index(bytes.skip(1), z - 1);
    }
}

/// Encode bytes (big-endian) as base58 text.
pub fn bytes_to_base58(bytes: &[u8]) -> (r: Vec<u8>)
    ensures
        r@ == b58_text_of(bytes@),
        all_b58_digits(r@),
{
    let n = bytes.len();
    // count leading zero bytes
    let mut z: usize = 0;
    while z < n && bytes[z] == 0
        invariant
            n == bytes@.len(),
            0 <= z <= n,
            forall|j: int| 0 <= j < z ==> bytes@[j] == 0,
        decreases n - z,
    {
        z = z + 1;
    }
    proof {
        lemma_leading_zero_from_index(bytes@, z as int);
    }
    // copy reversed into a little-endian working buffer
    let mut buf: Vec<u8> = Vec::new();
    let mut i: usize = 0;
    while i < n
        invariant
            n == bytes@.len(),
            0 <= i <= n,
            buf@.len() == i,
            forall|m: int| 0 <= m < i ==> buf@[m] == bytes@[n - 1 - m],
        decreases n - i,
    {
        buf.push(bytes[n - 1 - i]);
        i = i + 1;
    }
    proof {
        assert(buf@ =~= bytes@.reverse());
    }
    // extract digits, least significant first
    let ghost v0 = le_nat(buf@);
    let mut digits: Vec<u8> = Vec::new();
    proof {
        assert(digits@.map(|i: int, d: u8| d as nat) =~= Seq::<nat>::empty());
    }
    while !crate::nums::buf_is_zero(&buf)
        invariant
            buf@.len() == bytes@.len(),
            b58_digits_of(v0) =~= digits@.map(|i: int, d: u8| d as nat) + b58_digits_of(
                le_nat(buf@),
            ),
            forall|m: int| 0 <= m < digits@.len() ==> (#[trigger] digits@[m]) < 58,
        decreases le_nat(buf@),
    {
        let ghost vpre = le_nat(buf@);
        let d = div_small(&mut buf, 58);
        proof {
            vstd::arithmetic::div_mod::lemma_fundamental_div_mod_converse(
                vpre as int,
                58,
                le_nat(buf@) as int,
                d as int,
            );
            assert(digits@.push(d).map(|i: int, d2: u8| d2 as nat) =~= digits@.map(
                |i: int, d2: u8| d2 as nat,
            ).push(d as nat));
            assert(seq![vpre % 58] + b58_digits_of(vpre / 58) =~= b58_digits_of(vpre));
            assert(digits@.map(|i: int, d2: u8| d2 as nat).push(d as nat) + b58_digits_of(
                le_nat(buf@),
            ) =~= digits@.map(|i: int, d2: u8| d2 as nat) + (seq![vpre % 58] + b58_digits_of(
                vpre / 58,
            )));
        }
        digits.push(d);
    }
    // assemble: leading ones, then the digits reversed
    let mut out: Vec<u8> = Vec::new();
    let mut i2: usize = 0;
    while i2 < z
        invariant
            0 <= i2 <= z,
            out@.len() == i2,
            forall|m: int| 0 <= m < i2 ==> out@[m] == 49u8,
        decreases z - i2,
    {
        out.push(49);
        i2 = i2 + 1;
    }
    let nd = digits.len();
    let mut i3: usize = 0;
    while i3 < nd
        invariant
            nd == digits@.len(),
            0 <= i3 <= nd,
            out@.len() == z + i3,
            forall|m: int| 0 <= m < z ==> out@[m] == 49u8,
            forall|m: int| 0 <= m < nd ==> (#[trigger] digits@[m]) < 58,
            forall|m: int|
                0 <= m < i3 ==> #[trigger] out@[z + m] == b58_char_of(digits@[nd - 1 - m] as nat),
        decreases nd - i3,
    {
        let d = digits[nd - 1 - i3];
        out.push(b58_char_of_digit(d));
        i3 = i3 + 1;
    }
    proof {
        let spec_out = b58_text_of(bytes@);
        let dseq = digits@.map(|i: int, d: u8| d as nat);
        let charseq = dseq.reverse().map(|i: int, d: nat| b58_char_of(d));
        assert(b58_digits_of(le_nat(buf@)) =~= Seq::<nat>::empty());
        assert(b58_digits_of(v0) =~= dseq);
        assert(v0 == be_nat(bytes@));
        assert(spec_out.len() == z + nd);
        assert(out@.len() == z + nd);
        assert forall|m: int| 0 <= m < out@.len() implies out@[m] == spec_out[m] by {
            if m < z {
                assert(out@[m] == 49u8);
                assert(spec_out[m] == 49u8);
            } else {
                let mm = m - z;
                assert(out@[z + mm] == b58_char_of(digits@[nd - 1 - mm] as nat));
                assert(dseq.reverse()[mm] == dseq[nd - 1 - mm]);
                assert(dseq[nd - 1 - mm] == digits@[nd - 1 - mm] as nat);
                assert(charseq[mm] == b58_char_of(dseq.reverse()[mm]));
                assert(spec_out[m] == charseq[mm]);
            }
        }
        assert(out@ =~= spec_out);
        assert forall|m: int| 0 <= m < out@.len() implies is_b58_digit(#[trigger] out@[m]) by {
            if m < z {
                assert(out@[m] == 49u8);
            } else {
                let d = digits@[nd - 1 - (m - z)] as nat;
                assert(out@[z + (m - z)] == b58_char_of(d));
                assert(d < 58);
                assert(is_b58_digit(b58_char_of(d)));
            }
        }
    }
    out
}

} // verus!
