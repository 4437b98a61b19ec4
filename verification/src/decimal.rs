//! Decimal text to little-endian bytes.
//!
//! Integer arguments arrive as decimal strings (an optional sign followed by
//! digits).  They are parsed directly into the little-endian buffer of the
//! declared width; a value that does not fit the width is rejected rather
//! than truncated.

use vstd::prelude::*;

use crate::nums::{
    le_int, le_nat, lemma_le_nat_bound, lemma_le_nat_push, lemma_le_nat_top_byte,
    lemma_le_nat_zero, lemma_pow256_pos, mul_small_add, negate_in_place, pow256,
};

verus! {

/// ASCII decimal digit.
pub open spec fn is_dec_digit(c: u8) -> bool {
    48 <= c <= 57
}

pub open spec fn all_dec_digits(s: Seq<u8>) -> bool {
    forall|i: int| 0 <= i < s.len() ==> is_dec_digit(#[trigger] s[i])
}

/// Value of a digit string, most significant digit first.
pub open spec fn dec_nat(s: Seq<u8>) -> nat
    decreases s.len(),
{
    if s.len() == 0 {
        0
    } else {
        10 * dec_nat(s.drop_last()) + if is_dec_digit(s.last()) {
            (s.last() - 48) as nat
        } else {
            0
        }
    }
}

/// The digit string with an optional leading `+` removed.
pub open spec fn unsigned_digits(s: Seq<u8>) -> Seq<u8> {
    if s.len() > 0 && s[0] == 43 {
        s.skip(1)
    } else {
        s
    }
}

/// The digit string with an optional leading `+` or `-` removed.
pub open spec fn signed_digits(s: Seq<u8>) -> Seq<u8> {
    if s.len() > 0 && (s[0] == 43 || s[0] == 45) {
        s.skip(1)
    } else {
        s
    }
}

pub open spec fn is_negative_text(s: Seq<u8>) -> bool {
    s.len() > 0 && s[0] == 45
}

/// Mathematical value of signed decimal text.
pub open spec fn dec_int(s: Seq<u8>) -> int {
    if is_negative_text(s) {
        -(dec_nat(signed_digits(s)) as int)
    } else {
        dec_nat(signed_digits(s)) as int
    }
}

/// Text that denotes an unsigned integer representable in `w` bytes.
pub open spec fn valid_unsigned_dec(s: Seq<u8>, w: nat) -> bool {
    let m = unsigned_digits(s);
    m.len() >= 1 && all_dec_digits(m) && dec_nat(m) < pow256(w)
}

/// Text that denotes a signed integer representable in `w` bytes
/// (two's complement: the value lies in `[-2^(8w-1), 2^(8w-1))`).
pub open spec fn valid_signed_dec(s: Seq<u8>, w: nat) -> bool {
    let m = signed_digits(s);
    m.len() >= 1 && all_dec_digits(m) && -pow256(w) <= 2 * dec_int(s) && 2 * dec_int(s) < pow256(w)
}

/// A longer digit string never denotes a smaller value.
proof fn lemma_dec_nat_prefix(s: Seq<u8>, k: int)
    requires
        0 <= k <= s.len(),
    ensures
        dec_nat(s.take(k)) <= dec_nat(s),
    decreases s.len() - k,
{
    if k < s.len() {
        lemma_dec_nat_prefix(s, k + 1);
        let t = s.take(k + 1);
        assert(t.drop_last() =~= s.take(k));
        assert(dec_nat(s.take(k)) <= 10 * dec_nat(t.drop_last()));
    } else {
        assert(s.take(k) =~= s);
    }
}

/// A buffer of `w` zero bytes.
pub fn zero_buf(w: usize) -> (b: Vec<u8>)
    ensures
        b@.len() == w,
        le_nat(b@) == 0,
{
    let mut b: Vec<u8> = Vec::new();
    let mut i: usize = 0;
    while i < w
        invariant
            0 <= i <= w,
            b@.len() == i,
            le_nat(b@) == 0,
        decreases w - i,
    {
        proof {
            lemma_le_nat_push(b@, 0);
            assert(pow256(b@.len()) * 0 == 0) by (nonlinear_arith);
        }
        b.push(0);
        i = i + 1;
    }
    b
}

/// Parse an unbroken run of decimal digits into exactly `w` little-endian
/// bytes; fails on an empty run, a non-digit, or a value of `w` bytes or
/// more.
fn dec_digits_to_le(s: &[u8], w: usize) -> (r: Result<Vec<u8>, ()>)
    requires
        1 <= w <= 32,
    ensures
        r matches Ok(b) ==> {
            &&& b@.len() == w
            &&& s@.len() >= 1
            &&& all_dec_digits(s@)
            &&& le_nat(b@) == dec_nat(s@)
            &&& dec_nat(s@) < pow256(w as nat)
        },
        r is Err ==> !(s@.len() >= 1 && all_dec_digits(s@) && dec_nat(s@) < pow256(w as nat)),
{
    let n = s.len();
    if n == 0 {
        return Err(());
    }
    let mut buf = zero_buf(w);
    let mut i: usize = 0;
    proof {
        assert(s@.take(0) =~= Seq::<u8>::empty());
    }
    while i < n
        invariant
            1 <= w <= 32,
            n == s@.len(),
            0 <= i <= n,
            buf@.len() == w,
            all_dec_digits(s@.take(i as int)),
            le_nat(buf@) == dec_nat(s@.take(i as int)),
        decreases n - i,
    {
        let c = s[i];
        if c < 48 || c > 57 {
            return Err(());
        }
        let carry = mul_small_add(&mut buf, 10, c - 48);
        proof {
            assert(s@.take(i + 1).drop_last() =~= s@.take(i as int));
            assert(s@.take(i + 1).last() == c);
        }
        if carry != 0 {
            proof {
                lemma_pow256_pos(w as nat);
                assert(pow256(w as nat) * (carry as nat) >= pow256(w as nat)) by (nonlinear_arith)
                    requires
                        pow256(w as nat) >= 1 && carry >= 1,
                ;
                lemma_dec_nat_prefix(s@, i + 1);
            }
            return Err(());
        }
        i = i + 1;
    }
    proof {
        assert(s@.take(n as int) =~= s@);
        lemma_le_nat_bound(buf@);
    }
    Ok(buf)
}

/// Parse unsigned decimal text (an optional `+`, then digits) into exactly
/// `w` little-endian bytes.
pub fn parse_unsigned_dec(s: &[u8], w: usize) -> (r: Result<Vec<u8>, ()>)
    requires
        1 <= w <= 32,
    ensures
        r is Ok <==> valid_unsigned_dec(s@, w as nat),
        r matches Ok(b) ==> b@.len() == w && le_nat(b@) == dec_nat(unsigned_digits(s@)),
{
    if s.len() > 0 && s[0] == 43 {
        let (_, rest) = s.split_at(1);
        proof {
            assert(rest@ =~= unsigned_digits(s@));
        }
        dec_digits_to_le(rest, w)
    } else {
        dec_digits_to_le(s, w)
    }
}

/// True when every byte below the top one is zero; used to recognise the
/// most negative representable value.
fn lower_bytes_zero(b: &Vec<u8>) -> (r: bool)
    requires
        b@.len() >= 1,
    ensures
        r <==> le_nat(b@.take(b@.len() - 1)) == 0,
{
    let n = b.len();
    let mut i: usize = 0;
    let mut all0 = true;
    while i < n - 1
        invariant
            n == b@.len(),
            n >= 1,
            0 <= i <= n - 1,
            all0 <==> (forall|j: int| 0 <= j < i ==> b@[j] == 0),
        decreases n - 1 - i,
    {
        if b[i] != 0 {
            all0 = false;
        }
        i = i + 1;
    }
    proof {
        lemma_le_nat_zero(b@.take(n - 1));
        assert(forall|j: int| 0 <= j < n - 1 ==> b@.take(n - 1)[j] == #[trigger] b@[j]);
    }
    all0
}

/// Parse signed decimal text (an optional `+` or `-`, then digits) into
/// exactly `w` little-endian bytes in two's complement.
pub fn parse_signed_dec(s: &[u8], w: usize) -> (r: Result<Vec<u8>, ()>)
    requires
        1 <= w <= 32,
    ensures
        r is Ok <==> valid_signed_dec(s@, w as nat),
        r matches Ok(b) ==> b@.len() == w && le_int(b@) == dec_int(s@),
{
    let negative = s.len() > 0 && s[0] == 45;
    let digits: &[u8] = if s.len() > 0 && (s[0] == 43 || s[0] == 45) {
        let (_, rest) = s.split_at(1);
        rest
    } else {
        s
    };
    proof {
        assert(digits@ =~= signed_digits(s@));
    }
    let mut buf = match dec_digits_to_le(digits, w) {
        Ok(b) => b,
        Err(()) => {
            return Err(());
        },
    };
    let ghost mag = dec_nat(signed_digits(s@));
    let top = buf[w - 1];
    proof {
        lemma_le_nat_top_byte(buf@);
    }
    if negative {
        // the magnitude may reach half the capacity exactly
        if top > 128 {
            proof {
                assert(buf@ =~= buf@.take(buf@.len() - 1).push(buf@.last()));
                lemma_le_nat_push(buf@.take(buf@.len() - 1), buf@.last());
                lemma_pow256_pos((w - 1) as nat);
                assert(2 * le_nat(buf@) > pow256(w as nat)) by (nonlinear_arith)
                    requires
                        le_nat(buf@) >= pow256((w - 1) as nat) * (top as nat) && top >= 129
                            && pow256((w - 1) as nat) >= 1 && pow256(w as nat) == 256 * pow256(
                            (w - 1) as nat,
                        ),
                ;
            }
            return Err(());
        }
        if top == 128 && !lower_bytes_zero(&buf) {
            proof {
                assert(buf@ =~= buf@.take(buf@.len() - 1).push(buf@.last()));
                lemma_le_nat_push(buf@.take(buf@.len() - 1), buf@.last());
                assert(2 * le_nat(buf@) > pow256(w as nat)) by (nonlinear_arith)
                    requires
                        le_nat(buf@) == le_nat(buf@.take(buf@.len() - 1)) + pow256(
                            (w - 1) as nat,
                        ) * 128 && le_nat(buf@.take(buf@.len() - 1)) >= 1 && pow256(w as nat) == 256
                            * pow256((w - 1) as nat),
                ;
            }
            return Err(());
        }
        proof {
            if top == 128 {
                assert(buf@ =~= buf@.take(buf@.len() - 1).push(buf@.last()));
                lemma_le_nat_push(buf@.take(buf@.len() - 1), buf@.last());
                assert(2 * (pow256((w - 1) as nat) * 128) == 256 * pow256((w - 1) as nat))
                    by (nonlinear_arith);
            }
            assert(2 * mag <= pow256(w as nat));
        }
        negate_in_place(&mut buf);
        proof {
            if mag > 0 {
                assert(buf@.last() >= 128) by {
                    lemma_le_nat_top_byte(buf@);
                }
            } else {
                lemma_le_nat_bound(buf@);
                assert(buf@.last() < 128) by {
                    lemma_le_nat_top_byte(buf@);
                }
            }
        }
        Ok(buf)
    } else {
        if top >= 128 {
            return Err(());
        }
        Ok(buf)
    }
}

} // verus!
