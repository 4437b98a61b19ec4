//! Little-endian byte-buffer arithmetic.
//!
//! Every integer argument of an instruction, whatever its declared width
//! (8 up to 256 bits), is carried as a little-endian byte buffer of exactly
//! `width / 8` bytes.  This module defines the mathematical value of such a
//! buffer (`le_nat` for unsigned, `le_int` for two's-complement signed) and
//! the primitive in-place operations the codec needs: multiply-by-small and
//! add (for parsing decimal digits), division by a small constant (for
//! rendering), and two's-complement negation.

use vstd::prelude::*;

verus! {

/// 256 raised to `n`: the number of values a buffer of `n` bytes can hold.
pub open spec fn pow256(n: nat) -> nat
    decreases n,
{
    if n == 0 {
        1
    } else {
        256 * pow256((n - 1) as nat)
    }
}

/// Unsigned value of a little-endian byte sequence.
pub open spec fn le_nat(b: Seq<u8>) -> nat
    decreases b.len(),
{
    if b.len() == 0 {
        0
    } else {
        b[0] as nat + 256 * le_nat(b.skip(1))
    }
}

/// Two's-complement value of a little-endian byte sequence.
pub open spec fn le_int(b: Seq<u8>) -> int
    recommends
        b.len() > 0,
{
    if b.len() > 0 && b[b.len() - 1] >= 128 {
        le_nat(b) - pow256(b.len())
    } else {
        le_nat(b) as int
    }
}

pub proof fn lemma_pow256_pos(n: nat)
    ensures
        pow256(n) >= 1,
    decreases n,
{
    if n > 0 {
        lemma_pow256_pos((n - 1) as nat);
    }
}

/// The value of a buffer is bounded by the capacity of its length.
pub proof fn lemma_le_nat_bound(b: Seq<u8>)
    ensures
        le_nat(b) < pow256(b.len()),
    decreases b.len(),
{
    if b.len() == 0 {
    } else {
        lemma_le_nat_bound(b.skip(1));
        assert(256 * le_nat(b.skip(1)) <= 256 * (pow256((b.len() - 1) as nat) - 1))
            by (nonlinear_arith)
            requires
                le_nat(b.skip(1)) <= pow256((b.len() - 1) as nat) - 1,
        ;
    }
}

/// Appending a byte adds its value scaled by the capacity of the prefix.
pub proof fn lemma_le_nat_push(b: Seq<u8>, x: u8)
    ensures
        le_nat(b.push(x)) == le_nat(b) + pow256(b.len()) * (x as nat),
    decreases b.len(),
{
    if b.len() == 0 {
        assert(b.push(x) =~= seq![x]);
        assert(le_nat(seq![x].skip(1)) == 0) by {
            assert(seq![x].skip(1) =~= Seq::<u8>::empty());
        }
        assert(le_nat(seq![x]) == x as nat + 256 * 0);
        assert(pow256(0) * (x as nat) == x as nat) by (nonlinear_arith)
            requires
                pow256(0) == 1,
        ;
    } else {
        lemma_le_nat_push(b.skip(1), x);
        assert(b.push(x).skip(1) =~= b.skip(1).push(x));
        let p1 = pow256((b.len() - 1) as nat);
        assert(le_nat(b.push(x)) == b[0] as nat + 256 * (le_nat(b.skip(1)) + p1 * (x as nat)));
        assert(256 * (le_nat(b.skip(1)) + p1 * (x as nat)) == 256 * le_nat(b.skip(1)) + (256 * p1)
            * (x as nat)) by (nonlinear_arith);
        assert(pow256(b.len()) == 256 * p1);
    }
}

/// A buffer has value zero exactly when every byte is zero.
pub proof fn lemma_le_nat_zero(b: Seq<u8>)
    ensures
        (le_nat(b) == 0) <==> (forall|i: int| 0 <= i < b.len() ==> b[i] == 0),
    decreases b.len(),
{
    if b.len() > 0 {
        lemma_le_nat_zero(b.skip(1));
        if le_nat(b) == 0 {
            assert forall|i: int| 0 <= i < b.len() implies b[i] == 0 by {
                if i > 0 {
                    assert(b.skip(1)[i - 1] == 0);
                }
            }
        } else {
            if b[0] == 0 {
                assert(le_nat(b.skip(1)) > 0);
                let j = choose|j: int| 0 <= j < b.skip(1).len() && b.skip(1)[j] != 0;
                assert(b[j + 1] != 0);
            }
        }
    }
}

/// The top byte decides the sign: the value reaches half the capacity
/// exactly when the most significant byte reaches 128.
pub proof fn lemma_le_nat_top_byte(b: Seq<u8>)
    requires
        b.len() > 0,
    ensures
        b[b.len() - 1] >= 128 <==> 2 * le_nat(b) >= pow256(b.len()),
    decreases b.len(),
{
    let n = b.len();
    let prefix = b.take(n - 1);
    let top = b[n - 1];
    assert(b =~= prefix.push(top));
    lemma_le_nat_push(prefix, top);
    lemma_le_nat_bound(prefix);
    lemma_pow256_pos((n - 1) as nat);
    let p = pow256((n - 1) as nat);
    assert(pow256(n) == 256 * p);
    if top >= 128 {
        assert(p * (top as nat) >= p * 128) by (nonlinear_arith)
            requires
                p >= 1 && top >= 128,
        ;
        assert(2 * le_nat(b) >= 2 * (p * 128));
        assert(2 * (p * 128) == 256 * p) by (nonlinear_arith);
    } else {
        assert(p * (top as nat) <= p * 127) by (nonlinear_arith)
            requires
                p >= 1 && top <= 127,
        ;
        assert(le_nat(b) <= p - 1 + p * 127);
        assert(2 * (p - 1 + p * 127) < 256 * p) by (nonlinear_arith)
            requires
                p >= 1,
        ;
    }
}

/// Multiply the buffer in place by `m` and add `a`; the returned carry is
/// what no longer fits.  The old and new values satisfy
/// `new + capacity * carry == m * old + a`.
pub fn mul_small_add(buf: &mut Vec<u8>, m: u8, a: u8) -> (carry: u8)
    ensures
        final(buf)@.len() == old(buf)@.len(),
        le_nat(final(buf)@) + pow256(old(buf)@.len() as nat) * (carry as nat) == (m as nat)
            * le_nat(old(buf)@) + (a as nat),
        carry == 0 ==> le_nat(final(buf)@) == (m as nat) * le_nat(old(buf)@) + (a as nat),
{
    let n = buf.len();
    let mut c: u32 = a as u32;
    let mut i: usize = 0;
    proof {
        assert(buf@.take(0) =~= Seq::<u8>::empty());
        assert(old(buf)@.take(0) =~= Seq::<u8>::empty());
        assert(pow256(0) * (c as nat) == c as nat) by (nonlinear_arith)
            requires
                pow256(0) == 1,
        ;
        assert((m as nat) * 0 == 0) by (nonlinear_arith);
        assert(le_nat(buf@.take(0)) == 0);
        assert(le_nat(old(buf)@.take(0)) == 0);
    }
    while i < n
        invariant
            n == buf@.len(),
            n == old(buf)@.len(),
            0 <= i <= n,
            c < 256,
            m <= 255,
            buf@.skip(i as int) =~= old(buf)@.skip(i as int),
            le_nat(buf@.take(i as int)) + pow256(i as nat) * (c as nat) == (m as nat) * le_nat(
                old(buf)@.take(i as int),
            ) + (a as nat),
        decreases n - i,
    {
        let b0 = buf[i];
        proof {
            assert((b0 as u32) * (m as u32) <= 255 * 255) by (nonlinear_arith)
                requires
                    b0 <= 255 && m <= 255,
            ;
        }
        let v: u32 = (b0 as u32) * (m as u32) + c;
        let lo: u8 = (v % 256) as u8;
        let hi: u32 = v / 256;
        let ghost pre = buf@;
        buf.set(i, lo);
        proof {
            vstd::arithmetic::div_mod::lemma_fundamental_div_mod(v as int, 256);
            let oldpre = old(buf)@.take(i as int);
            let oldpre1 = old(buf)@.take(i + 1);
            let newpre1 = buf@.take(i + 1);
            assert(old(buf)@[i as int] == b0) by {
                assert(old(buf)@.skip(i as int)[0] == old(buf)@[i as int]);
            }
            assert(buf@ =~= pre.update(i as int, lo));
            assert(buf@.skip(i + 1) =~= old(buf)@.skip(i + 1)) by {
                assert forall|k: int| 0 <= k < buf@.skip(i + 1).len() implies #[trigger] buf@.skip(
                    i + 1,
                )[k] == old(buf)@.skip(i + 1)[k] by {
                    assert(buf@.skip(i + 1)[k] == pre[i + 1 + k]);
                    assert(pre.skip(i as int)[k + 1] == old(buf)@.skip(i as int)[k + 1]);
                }
            }
            assert(buf@.take(i as int) =~= pre.take(i as int));
            let newpre = buf@.take(i as int);
            assert(oldpre1 =~= oldpre.push(b0));
            assert(newpre1 =~= newpre.push(lo));
            lemma_le_nat_push(oldpre, b0);
            lemma_le_nat_push(newpre, lo);
            let p = pow256(i as nat);
            assert(pow256((i + 1) as nat) == 256 * p);
            // the low byte and carry together hold exactly v at weight p
            assert(hi < 256);
            assert(p * (lo as nat) + (256 * p) * (hi as nat) + p * ((b0 as nat) * (m as nat) + (
            c as nat) - (v as nat)) == p * (c as nat) + p * ((b0 as nat) * (m as nat)))
                by (nonlinear_arith)
                requires
                    v == 256 * hi + lo,
            ;
            assert((b0 as nat) * (m as nat) + (c as nat) - (v as nat) == 0);
            assert(p * ((b0 as nat) * (m as nat) + (c as nat) - (v as nat)) == 0)
                by (nonlinear_arith)
                requires
                    (b0 as nat) * (m as nat) + (c as nat) - (v as nat) == 0,
            ;
            // fold the new head byte into the multiplied prefix
            assert((m as nat) * le_nat(oldpre1) == (m as nat) * le_nat(oldpre) + p * ((b0 as nat)
                * (m as nat))) by (nonlinear_arith)
                requires
                    le_nat(oldpre1) == le_nat(oldpre) + p * (b0 as nat),
            ;
            assert(le_nat(newpre1) + pow256((i + 1) as nat) * (hi as nat) == (m as nat) * le_nat(
                oldpre1,
            ) + (a as nat));
        }
        c = hi;
        i = i + 1;
    }
    proof {
        assert(buf@.take(n as int) =~= buf@);
        assert(old(buf)@.take(n as int) =~= old(buf)@);
        if c == 0 {
            assert(pow256(n as nat) * 0 == 0) by (nonlinear_arith);
        }
    }
    c as u8
}

/// Divide the buffer in place by `d`, returning the remainder:
/// `d * new + rem == old` with `rem < d`.
pub fn div_small(buf: &mut Vec<u8>, d: u8) -> (rem: u8)
    requires
        d >= 1,
    ensures
        final(buf)@.len() == old(buf)@.len(),
        (d as nat) * le_nat(final(buf)@) + (rem as nat) == le_nat(old(buf)@),
        rem < d,
        le_nat(final(buf)@) <= le_nat(old(buf)@),
{
    let n = buf.len();
    let mut r: u32 = 0;
    let mut i: usize = n;
    proof {
        assert(buf@.skip(n as int) =~= Seq::<u8>::empty());
        assert(old(buf)@.skip(n as int) =~= Seq::<u8>::empty());
        assert((d as nat) * 0 == 0) by (nonlinear_arith);
    }
    while i > 0
        invariant
            n == buf@.len(),
            n == old(buf)@.len(),
            0 <= i <= n,
            d >= 1,
            r < d,
            buf@.take(i as int) =~= old(buf)@.take(i as int),
            (d as nat) * le_nat(buf@.skip(i as int)) + (r as nat) == le_nat(
                old(buf)@.skip(i as int),
            ),
        decreases i,
    {
        let j = i - 1;
        let b0 = buf[j];
        let cur: u32 = r * 256 + (b0 as u32);
        let q: u32 = cur / (d as u32);
        let rem2: u32 = cur % (d as u32);
        proof {
            vstd::arithmetic::div_mod::lemma_fundamental_div_mod(cur as int, d as int);
            assert(cur < 256 * (d as u32)) by (nonlinear_arith)
                requires
                    cur == r * 256 + b0 && r < d && b0 <= 255,
            ;
            assert(q < 256) by (nonlinear_arith)
                requires
                    cur == (d as int) * q + rem2 && 0 <= rem2 && cur < 256 * (d as u32) && d >= 1,
            ;
        }
        let ghost pre = buf@;
        buf.set(j, q as u8);
        proof {
            let oldsuf = old(buf)@.skip(i as int);
            let oldsufj = old(buf)@.skip(j as int);
            let newsuf = buf@.skip(i as int);
            let newsufj = buf@.skip(j as int);
            assert(old(buf)@[j as int] == b0) by {
                assert(old(buf)@.take(i as int)[j as int] == old(buf)@[j as int]);
            }
            assert(buf@ =~= pre.update(j as int, q as u8));
            assert(newsuf =~= pre.skip(i as int));
            assert(buf@.take(j as int) =~= pre.take(j as int));
            assert(oldsufj =~= seq![b0] + oldsuf);
            assert(newsufj =~= seq![q as u8] + newsuf);
            assert(le_nat(oldsufj) == (b0 as nat) + 256 * le_nat(oldsuf)) by {
                assert(oldsufj.skip(1) =~= oldsuf);
            }
            assert(le_nat(newsufj) == (q as nat) + 256 * le_nat(newsuf)) by {
                assert(newsufj.skip(1) =~= newsuf);
            }
            // d*(q + 256*newsuf) + rem2 == (d*q + rem2) + 256*(d*newsuf)
            //                           == (256 r + b0) + 256*(oldsuf - r)
            assert((d as nat) * ((q as nat) + 256 * le_nat(newsuf)) == (d as nat) * (q as nat) + 256
                * ((d as nat) * le_nat(newsuf))) by (nonlinear_arith);
            assert((d as int) * (q as int) + (rem2 as int) == cur as int);
        }
        r = rem2;
        i = j;
    }
    proof {
        assert(buf@.skip(0) =~= buf@);
        assert(old(buf)@.skip(0) =~= old(buf)@);
        assert((d as nat) * le_nat(buf@) <= (d as nat) * le_nat(buf@) + (r as nat));
        assert(le_nat(buf@) <= (d as nat) * le_nat(buf@)) by (nonlinear_arith)
            requires
                d >= 1,
        ;
    }
    r as u8
}

/// Replace the buffer with its two's complement: `new == capacity - old`
/// when the old value is not zero, and zero stays zero.
pub fn negate_in_place(buf: &mut Vec<u8>)
    ensures
        final(buf)@.len() == old(buf)@.len(),
        le_nat(old(buf)@) == 0 ==> le_nat(final(buf)@) == 0,
        le_nat(old(buf)@) > 0 ==> le_nat(final(buf)@) + le_nat(old(buf)@) == pow256(
            old(buf)@.len() as nat,
        ),
{
    let n = buf.len();
    let mut c: u8 = 1;
    let mut i: usize = 0;
    proof {
        assert(buf@.take(0) =~= Seq::<u8>::empty());
        assert(old(buf)@.take(0) =~= Seq::<u8>::empty());
        assert(pow256(0) * (c as nat) == c as nat) by (nonlinear_arith)
            requires
                pow256(0) == 1,
        ;
    }
    while i < n
        invariant
            n == buf@.len(),
            n == old(buf)@.len(),
            0 <= i <= n,
            c <= 1,
            buf@.skip(i as int) =~= old(buf)@.skip(i as int),
            le_nat(buf@.take(i as int)) + le_nat(old(buf)@.take(i as int)) + pow256(i as nat) * (
            c as nat) == pow256(i as nat),
        decreases n - i,
    {
        let b0 = buf[i];
        let v: u32 = 255 - (b0 as u32) + (c as u32);
        let lo: u8 = (v % 256) as u8;
        let hi: u8 = (v / 256) as u8;
        let ghost pre = buf@;
        buf.set(i, lo);
        proof {
            vstd::arithmetic::div_mod::lemma_fundamental_div_mod(v as int, 256);
            let oldpre = old(buf)@.take(i as int);
            let oldpre1 = old(buf)@.take(i + 1);
            let newpre1 = buf@.take(i + 1);
            assert(old(buf)@[i as int] == b0) by {
                assert(old(buf)@.skip(i as int)[0] == old(buf)@[i as int]);
            }
            assert(buf@ =~= pre.update(i as int, lo));
            assert(buf@.skip(i + 1) =~= old(buf)@.skip(i + 1)) by {
                assert forall|k: int| 0 <= k < buf@.skip(i + 1).len() implies #[trigger] buf@.skip(
                    i + 1,
                )[k] == old(buf)@.skip(i + 1)[k] by {
                    assert(buf@.skip(i + 1)[k] == pre[i + 1 + k]);
                    assert(pre.skip(i as int)[k + 1] == old(buf)@.skip(i as int)[k + 1]);
                }
            }
            assert(buf@.take(i as int) =~= pre.take(i as int));
            let newpre = buf@.take(i as int);
            assert(oldpre1 =~= oldpre.push(b0));
            assert(newpre1 =~= newpre.push(lo));
            lemma_le_nat_push(oldpre, b0);
            lemma_le_nat_push(newpre, lo);
            let p = pow256(i as nat);
            assert(pow256((i + 1) as nat) == 256 * p);
            assert(v == 256 * hi + lo);
            assert((lo as nat) + (b0 as nat) + 256 * (hi as nat) == 255 + (c as nat));
            assert(p * (lo as nat) + p * (b0 as nat) + (256 * p) * (hi as nat) == p * 255 + p * (
            c as nat)) by (nonlinear_arith)
                requires
                    (lo as nat) + (b0 as nat) + 256 * (hi as nat) == 255 + (c as nat),
            ;
            assert(256 * p == p * 255 + p) by (nonlinear_arith);
        }
        c = hi;
        i = i + 1;
    }
    proof {
        assert(buf@.take(n as int) =~= buf@);
        assert(old(buf)@.take(n as int) =~= old(buf)@);
        lemma_pow256_pos(n as nat);
        if le_nat(old(buf)@) == 0 {
            // the final carry must still be 1, so the new value is zero
            if c == 1 {
                assert(pow256(n as nat) * 1 == pow256(n as nat)) by (nonlinear_arith);
            } else {
                assert(pow256(n as nat) * 0 == 0) by (nonlinear_arith);
                lemma_le_nat_bound(buf@);
            }
        } else {
            if c == 1 {
                assert(pow256(n as nat) * 1 == pow256(n as nat)) by (nonlinear_arith);
            } else {
                assert(pow256(n as nat) * 0 == 0) by (nonlinear_arith);
            }
        }
    }
}

/// True exactly when the buffer's value is zero.
pub fn buf_is_zero(buf: &Vec<u8>) -> (r: bool)
    ensures
        r <==> le_nat(buf@) == 0,
{
    let n = buf.len();
    let mut i: usize = 0;
    let mut all0 = true;
    while i < n
        invariant
            n == buf@.len(),
            0 <= i <= n,
            all0 <==> (forall|j: int| 0 <= j < i ==> buf@[j] == 0),
        decreases n - i,
    {
        if buf[i] != 0 {
            all0 = false;
        }
        i = i + 1;
    }
    proof {
        lemma_le_nat_zero(buf@);
    }
    all0
}

} // verus!
// The canonical byte sequence of a value, and uniqueness of representation.

verus! {

/// The little-endian bytes of `v` in a buffer of `w` bytes.
pub open spec fn le_bytes(v: nat, w: nat) -> Seq<u8> {
    Seq::new(w, |i: int| ((v / pow256(i as nat)) % 256) as u8)
}

/// Each byte of a buffer is a base-256 digit of its value.
pub proof fn lemma_le_nat_index(b: Seq<u8>, i: int)
    requires
        0 <= i < b.len(),
    ensures
        b[i] == (le_nat(b) / pow256(i as nat)) % 256,
    decreases i,
{
    let v = le_nat(b) as int;
    if i == 0 {
        assert(pow256(0) == 1);
        assert(v / 1 == v) by (nonlinear_arith);
        assert(v == 256 * le_nat(b.skip(1)) + b[0]);
        vstd::arithmetic::div_mod::lemma_mod_multiples_vanish(
            le_nat(b.skip(1)) as int,
            b[0] as int,
            256,
        );
        vstd::arithmetic::div_mod::lemma_small_mod(b[0] as nat, 256);
    } else {
        lemma_le_nat_index(b.skip(1), i - 1);
        lemma_pow256_pos((i - 1) as nat);
        // v / 256 strips the first byte
        assert(v == 256 * (le_nat(b.skip(1)) as int) + b[0]);
        assert(v / 256 == le_nat(b.skip(1))) by {
            vstd::arithmetic::div_mod::lemma_div_multiples_vanish_fancy(
                le_nat(b.skip(1)) as int,
                b[0] as int,
                256,
            );
        }
        assert(pow256(i as nat) == 256 * pow256((i - 1) as nat));
        vstd::arithmetic::div_mod::lemma_div_denominator(v, 256, pow256((i - 1) as nat) as int);
        assert(v / (256 * pow256((i - 1) as nat) as int) == (le_nat(b.skip(1)) as int) / (pow256(
            (i - 1) as nat,
        ) as int));
        assert(b[i] == b.skip(1)[i - 1]);
    }
}

/// A value below the capacity has exactly one representation.
pub proof fn lemma_le_bytes_of_le_nat(b: Seq<u8>)
    ensures
        b =~= le_bytes(le_nat(b), b.len()),
{
    assert forall|i: int| 0 <= i < b.len() implies b[i] == le_bytes(le_nat(b), b.len())[i] by {
        lemma_le_nat_index(b, i);
    }
}

} // verus!
