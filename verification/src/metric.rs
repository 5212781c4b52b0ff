//! The XOR metric on byte strings, as mathematics.
//!
//! Everything here is ghost code over `Seq<u8>`: the distance itself, the
//! big-endian value by which distances are ranked, and the count of leading
//! zero bits, which decides the bucket a peer belongs to.

use vstd::arithmetic::power2::{lemma2_to64, lemma_pow2_adds, pow2};
use vstd::prelude::*;

verus! {

/// Bytewise exclusive-or of two byte strings; as long as the first.
pub open spec fn xor_bytes(a: Seq<u8>, b: Seq<u8>) -> Seq<u8> {
    Seq::new(a.len(), |i: int| a[i] ^ b[i])
}

/// The byte string of `n` zero bytes.
pub open spec fn zero_bytes(n: nat) -> Seq<u8> {
    Seq::new(n, |i: int| 0u8)
}

/// The unsigned integer that a byte string denotes, most significant byte first.
pub open spec fn be_value(s: Seq<u8>) -> nat
    decreases s.len(),
{
    if s.len() == 0 {
        0
    } else {
        be_value(s.drop_last()) * 256 + s.last() as nat
    }
}

/// Number of zero bits above the highest set bit of a byte; 8 for the zero byte.
pub open spec fn byte_leading_zeros(b: u8) -> nat {
    if b >= 128 {
        0
    } else if b >= 64 {
        1
    } else if b >= 32 {
        2
    } else if b >= 16 {
        3
    } else if b >= 8 {
        4
    } else if b >= 4 {
        5
    } else if b >= 2 {
        6
    } else if b >= 1 {
        7
    } else {
        8
    }
}

/// Number of zero bits that precede the first set bit of a byte string read
/// from its most significant end; eight times its length when no bit is set.
pub open spec fn leading_zero_bits(s: Seq<u8>) -> nat
    decreases s.len(),
{
    if s.len() == 0 {
        0
    } else if s[0] == 0 {
        8 + leading_zero_bits(s.drop_first())
    } else {
        byte_leading_zeros(s[0])
    }
}

/// Position of the highest set bit of a byte string, counted from the least
/// significant bit; `-1` when no bit is set.
pub open spec fn highest_bit(s: Seq<u8>) -> int {
    8 * s.len() - 1 - leading_zero_bits(s)
}

/// Exclusive-or of bytes is commutative, cancels a byte against itself, is
/// zero only between equal bytes, and telescopes over a middle byte.
pub proof fn lemma_xor_byte(x: u8, y: u8, z: u8)
    ensures
        x ^ y == y ^ x,
        x ^ x == 0,
        (x ^ y == 0) <==> x == y,
        (x ^ y) ^ (y ^ z) == x ^ z,
{
    assert(x ^ y == y ^ x) by (bit_vector);
    assert(x ^ x == 0) by (bit_vector);
    assert((x ^ y == 0) <==> x == y) by (bit_vector);
    assert((x ^ y) ^ (y ^ z) == x ^ z) by (bit_vector);
}

/// The distance from `a` to `b` is the distance from `b` to `a`.
pub proof fn lemma_xor_symmetric(a: Seq<u8>, b: Seq<u8>)
    requires
        a.len() == b.len(),
    ensures
        xor_bytes(a, b) == xor_bytes(b, a),
{
    assert forall|i: int| 0 <= i < a.len() implies a[i] ^ b[i] == b[i] ^ a[i] by {
        lemma_xor_byte(a[i], b[i], 0);
    }
    assert(xor_bytes(a, b) =~= xor_bytes(b, a));
}

/// Two byte strings of one length are at distance zero exactly when they are equal.
pub proof fn lemma_xor_zero_iff_equal(a: Seq<u8>, b: Seq<u8>)
    requires
        a.len() == b.len(),
    ensures
        xor_bytes(a, a) == zero_bytes(a.len()),
        xor_bytes(a, b) == zero_bytes(a.len()) <==> a == b,
{
    assert forall|i: int| 0 <= i < a.len() implies a[i] ^ a[i] == 0 by {
        lemma_xor_byte(a[i], a[i], 0);
    }
    assert(xor_bytes(a, a) =~= zero_bytes(a.len()));
    if xor_bytes(a, b) == zero_bytes(a.len()) {
        assert forall|i: int| 0 <= i < a.len() implies a[i] == b[i] by {
            assert(xor_bytes(a, b)[i] == zero_bytes(a.len())[i]);
            lemma_xor_byte(a[i], b[i], 0);
        }
        assert(a =~= b);
    }
}

/// Combining the distances from `a` to `b` and from `b` to `c` gives the
/// distance from `a` to `c`.
pub proof fn lemma_xor_chain(a: Seq<u8>, b: Seq<u8>, c: Seq<u8>)
    requires
        a.len() == b.len(),
        b.len() == c.len(),
    ensures
        xor_bytes(xor_bytes(a, b), xor_bytes(b, c)) == xor_bytes(a, c),
{
    assert forall|i: int| 0 <= i < a.len() implies (a[i] ^ b[i]) ^ (b[i] ^ c[i]) == a[i] ^ c[i] by {
        lemma_xor_byte(a[i], b[i], c[i]);
    }
    assert(xor_bytes(xor_bytes(a, b), xor_bytes(b, c)) =~= xor_bytes(a, c));
}

/// Of two byte strings of one length, the one with the smaller byte at the
/// first position where they differ denotes the smaller integer.
pub proof fn lemma_first_difference_orders(a: Seq<u8>, b: Seq<u8>, p: int)
    requires
        a.len() == b.len(),
        0 <= p < a.len(),
        forall|k: int| 0 <= k < p ==> a[k] == b[k],
        a[p] < b[p],
    ensures
        be_value(a) < be_value(b),
    decreases a.len(),
{
    if p == a.len() - 1 {
        assert(a.drop_last() =~= b.drop_last());
    } else {
        lemma_first_difference_orders(a.drop_last(), b.drop_last(), p);
    }
}

/// Byte strings of one length that denote the same integer are equal.
pub proof fn lemma_be_value_injective(a: Seq<u8>, b: Seq<u8>)
    requires
        a.len() == b.len(),
        be_value(a) == be_value(b),
    ensures
        a == b,
    decreases a.len(),
{
    if a.len() > 0 {
        lemma_be_value_injective(a.drop_last(), b.drop_last());
        assert(a =~= a.drop_last().push(a.last()));
        assert(b =~= b.drop_last().push(b.last()));
    } else {
        assert(a =~= b);
    }
}

/// A run of `p` zero bytes at the front contributes `8 * p` leading zero bits.
pub proof fn lemma_leading_zero_bits_skip(s: Seq<u8>, p: int)
    requires
        0 <= p <= s.len(),
        forall|k: int| 0 <= k < p ==> s[k] == 0,
    ensures
        leading_zero_bits(s) == 8 * p + leading_zero_bits(s.skip(p)),
    decreases p,
{
    if p == 0 {
        assert(s.skip(0) =~= s);
    } else {
        let t = s.drop_first();
        lemma_leading_zero_bits_skip(t, p - 1);
        assert(t.skip(p - 1) =~= s.skip(p));
    }
}

/// The leading zero bits of a byte string are its leading zero bytes and the
/// leading zero bits of the first byte that is not zero.
pub proof fn lemma_leading_zero_bits_structure(s: Seq<u8>)
    ensures
        leading_zero_bits(s) <= 8 * s.len(),
        forall|k: int| 0 <= k < s.len() && 8 * k + 8 <= leading_zero_bits(s) ==> s[k] == 0,
        leading_zero_bits(s) < 8 * s.len() ==> {
            let p = leading_zero_bits(s) as int / 8;
            &&& 0 <= p < s.len()
            &&& s[p] != 0
            &&& leading_zero_bits(s) == 8 * p + byte_leading_zeros(s[p])
        },
    decreases s.len(),
{
    if s.len() > 0 && s[0] == 0 {
        let t = s.drop_first();
        lemma_leading_zero_bits_structure(t);
        assert forall|k: int|
            0 <= k < s.len() && 8 * k + 8 <= leading_zero_bits(s) implies s[k] == 0 by {
            if k > 0 {
                assert(t[k - 1] == s[k]);
            }
        }
        if leading_zero_bits(s) < 8 * s.len() {
            let q = leading_zero_bits(t) as int / 8;
            assert(t[q] == s[q + 1]);
        }
    }
}

/// Only the all-zero byte string has no set bit.
pub proof fn lemma_leading_zero_bits_full(s: Seq<u8>)
    ensures
        leading_zero_bits(s) <= 8 * s.len(),
        leading_zero_bits(s) == 8 * s.len() <==> s == zero_bytes(s.len()),
{
    lemma_leading_zero_bits_structure(s);
    if leading_zero_bits(s) == 8 * s.len() {
        assert(s =~= zero_bytes(s.len()));
    }
    if s == zero_bytes(s.len()) {
        lemma_leading_zero_bits_skip(s, s.len() as int);
    }
}

/// A byte string with more leading zero bits than another of the same length
/// denotes a smaller integer.
pub proof fn lemma_leading_zero_bits_order(a: Seq<u8>, b: Seq<u8>)
    requires
        a.len() == b.len(),
        leading_zero_bits(a) > leading_zero_bits(b),
    ensures
        be_value(a) < be_value(b),
{
    lemma_leading_zero_bits_structure(a);
    lemma_leading_zero_bits_structure(b);
    let p = leading_zero_bits(b) as int / 8;
    assert forall|k: int| 0 <= k < p implies a[k] == b[k] by {
        assert(a[k] == 0);
        assert(b[k] == 0);
    }
    if a[p] != 0 {
        lemma_leading_zero_bits_skip(a, p);
        assert(a.skip(p)[0] == a[p]);
    }
    lemma_first_difference_orders(a, b, p);
}

/// The all-zero byte string denotes zero.
pub proof fn lemma_be_value_of_zero(n: nat)
    ensures
        be_value(zero_bytes(n)) == 0,
    decreases n,
{
    if n > 0 {
        lemma_be_value_of_zero((n - 1) as nat);
        assert(zero_bytes(n).drop_last() =~= zero_bytes((n - 1) as nat));
    }
}

/// The position of the highest set bit of a byte string is the whole part of
/// the binary logarithm of the integer it denotes: with the highest set bit
/// at position `h`, the integer is at least `2^h` and less than `2^(h + 1)`.
pub proof fn lemma_highest_bit_bounds_value(s: Seq<u8>)
    requires
        highest_bit(s) >= 0,
    ensures
        pow2(highest_bit(s) as nat) <= be_value(s) < pow2((highest_bit(s) + 1) as nat),
    decreases s.len(),
{
    lemma_leading_zero_bits_structure(s);
    let n = s.len() as int;
    let t = s.drop_last();
    lemma_leading_zero_bits_structure(t);
    lemma_leading_zero_bits_full(t);
    lemma2_to64();
    if leading_zero_bits(t) < 8 * t.len() {
        let p = leading_zero_bits(t) as int / 8;
        assert forall|k: int| 0 <= k < p implies s[k] == 0 by {
            assert(t[k] == 0);
        }
        assert(s[p] == t[p]);
        lemma_leading_zero_bits_skip(s, p);
        assert(s.skip(p)[0] == s[p]);
        assert(leading_zero_bits(s) == leading_zero_bits(t));
        lemma_highest_bit_bounds_value(t);
        let h = highest_bit(t) as nat;
        lemma_pow2_adds(h, 8);
        lemma_pow2_adds(h + 1, 8);
        assert(pow2(h + 8) == 256 * pow2(h));
        assert(pow2(h + 9) == 256 * pow2(h + 1));
    } else {
        lemma_be_value_of_zero(t.len());
        assert forall|k: int| 0 <= k < n - 1 implies s[k] == 0 by {
            assert(t[k] == 0);
        }
        lemma_leading_zero_bits_skip(s, n - 1);
        assert(s.skip(n - 1)[0] == s.last());
        if s.last() == 0 {
            assert(s.skip(n - 1).drop_first() =~= Seq::<u8>::empty());
        }
        assert(leading_zero_bits(s) == 8 * (n - 1) + byte_leading_zeros(s.last()));
    }
}

/// Where one byte has its highest set bit above that of another, their
/// exclusive-or has its highest set bit where the first has it; where both
/// have it at the same place, the exclusive-or has it lower or not at all.
pub proof fn lemma_xor_byte_leading_zeros(x: u8, y: u8)
    ensures
        byte_leading_zeros(x) < byte_leading_zeros(y) ==> byte_leading_zeros(x ^ y)
            == byte_leading_zeros(x),
        byte_leading_zeros(x) == byte_leading_zeros(y) && x != 0 ==> byte_leading_zeros(x ^ y)
            > byte_leading_zeros(x),
{
    let z = x ^ y;
    assert(z == x ^ y);
    assert(x >= 128 && y < 128 ==> z >= 128) by (bit_vector)
        requires z == x ^ y;
    assert(x >= 64 && x < 128 && y < 64 ==> z >= 64 && z < 128) by (bit_vector)
        requires z == x ^ y;
    assert(x >= 32 && x < 64 && y < 32 ==> z >= 32 && z < 64) by (bit_vector)
        requires z == x ^ y;
    assert(x >= 16 && x < 32 && y < 16 ==> z >= 16 && z < 32) by (bit_vector)
        requires z == x ^ y;
    assert(x >= 8 && x < 16 && y < 8 ==> z >= 8 && z < 16) by (bit_vector)
        requires z == x ^ y;
    assert(x >= 4 && x < 8 && y < 4 ==> z >= 4 && z < 8) by (bit_vector)
        requires z == x ^ y;
    assert(x >= 2 && x < 4 && y < 2 ==> z >= 2 && z < 4) by (bit_vector)
        requires z == x ^ y;
    assert(x >= 1 && x < 2 && y < 1 ==> z >= 1 && z < 2) by (bit_vector)
        requires z == x ^ y;
    assert(x >= 128 && y >= 128 ==> z < 128) by (bit_vector)
        requires z == x ^ y;
    assert(x >= 64 && x < 128 && y >= 64 && y < 128 ==> z < 64) by (bit_vector)
        requires z == x ^ y;
    assert(x >= 32 && x < 64 && y >= 32 && y < 64 ==> z < 32) by (bit_vector)
        requires z == x ^ y;
    assert(x >= 16 && x < 32 && y >= 16 && y < 32 ==> z < 16) by (bit_vector)
        requires z == x ^ y;
    assert(x >= 8 && x < 16 && y >= 8 && y < 16 ==> z < 8) by (bit_vector)
        requires z == x ^ y;
    assert(x >= 4 && x < 8 && y >= 4 && y < 8 ==> z < 4) by (bit_vector)
        requires z == x ^ y;
    assert(x >= 2 && x < 4 && y >= 2 && y < 4 ==> z < 2) by (bit_vector)
        requires z == x ^ y;
    assert(x >= 1 && x < 2 && y >= 1 && y < 2 ==> z < 1) by (bit_vector)
        requires z == x ^ y;
}

/// The exclusive-or of two byte strings of one length whose highest set bits
/// differ has its highest set bit where the higher of the two is.
pub proof fn lemma_xor_leading_zero_bits_differ(e: Seq<u8>, d: Seq<u8>)
    requires
        e.len() == d.len(),
        leading_zero_bits(e) < leading_zero_bits(d),
    ensures
        leading_zero_bits(xor_bytes(e, d)) == leading_zero_bits(e),
        leading_zero_bits(xor_bytes(d, e)) == leading_zero_bits(e),
{
    lemma_leading_zero_bits_structure(e);
    lemma_leading_zero_bits_structure(d);
    let x = xor_bytes(e, d);
    let p = leading_zero_bits(e) as int / 8;
    assert forall|k: int| 0 <= k < p implies x[k] == 0 by {
        assert(e[k] == 0);
        assert(d[k] == 0);
        lemma_xor_byte(e[k], d[k], 0);
    }
    if d[p] != 0 {
        lemma_leading_zero_bits_skip(d, p);
        assert(d.skip(p)[0] == d[p]);
    }
    lemma_xor_byte_leading_zeros(e[p], d[p]);
    lemma_leading_zero_bits_skip(x, p);
    assert(x.skip(p)[0] == x[p]);
    lemma_xor_symmetric(e, d);
}

/// The exclusive-or of two byte strings of one length whose highest set bits
/// are at the same place has its highest set bit below that place, or none.
pub proof fn lemma_xor_leading_zero_bits_same(e: Seq<u8>, d: Seq<u8>)
    requires
        e.len() == d.len(),
        leading_zero_bits(e) == leading_zero_bits(d),
        leading_zero_bits(e) < 8 * e.len(),
    ensures
        leading_zero_bits(xor_bytes(e, d)) > leading_zero_bits(e),
{
    lemma_leading_zero_bits_structure(e);
    lemma_leading_zero_bits_structure(d);
    let x = xor_bytes(e, d);
    let p = leading_zero_bits(e) as int / 8;
    assert forall|k: int| 0 <= k < p implies x[k] == 0 by {
        assert(e[k] == 0);
        assert(d[k] == 0);
        lemma_xor_byte(e[k], d[k], 0);
    }
    lemma_xor_byte_leading_zeros(e[p], d[p]);
    lemma_leading_zero_bits_skip(x, p);
    assert(x.skip(p)[0] == x[p]);
    if x[p] == 0 {
        assert forall|k: int| 0 <= k < p + 1 implies x[k] == 0 by {}
        lemma_leading_zero_bits_skip(x, p + 1);
    }
}

} // verus!
