//! Identifiers: fixed-length keys with the XOR distance.

use vstd::prelude::*;
use vstd::std_specs::cmp::PartialEqSpecImpl;
use vstd::utf8::encode_utf8;
use crate::digest::{sha256, sha256_digest};
use crate::metric::{
    be_value, byte_leading_zeros, leading_zero_bits, lemma_first_difference_orders,
    lemma_leading_zero_bits_skip, lemma_xor_chain, lemma_xor_symmetric, lemma_xor_zero_iff_equal,
    xor_bytes, zero_bytes,
};
use crate::KEY_LEN;

verus! {

/// A 256-bit identifier of a node or of a stored value. The same type serves
/// for the distance between two identifiers.
///
/// Keys are ranked as unsigned integers written most significant byte first:
/// the smaller the distance, the closer.
#[derive(Clone, Copy, Eq, Hash, Debug)]
pub struct Key(pub [u8; KEY_LEN]);

impl View for Key {
    type V = Seq<u8>;

    open spec fn view(&self) -> Seq<u8> {
        self.0@
    }
}

impl PartialEq for Key {
    /// Two keys are equal when they hold the same bytes.
    fn eq(&self, other: &Key) -> (r: bool) {
        let mut i: usize = 0;
        while i < KEY_LEN
            invariant
                i <= KEY_LEN,
                forall|k: int| 0 <= k < i ==> self@[k] == other@[k],
            decreases KEY_LEN - i,
        {
            if self.0[i] != other.0[i] {
                return false;
            }
            i += 1;
        }
        assert(self@ =~= other@);
        true
    }
}

impl PartialEqSpecImpl for Key {
    open spec fn obeys_eq_spec() -> bool {
        true
    }

    open spec fn eq_spec(&self, other: &Key) -> bool {
        self@ == other@
    }
}

/// Number of zero bits above the highest set bit of `b`.
fn leading_zeros_of_byte(b: u8) -> (n: usize)
    ensures
        n == byte_leading_zeros(b),
{
    if b >= 128 {
        0
    } else if b >= 64 {
        1
    } else if b >= 32 {
        2
    } else if b >= 16 {
        3
    } else if b >= 8 {
        4
    } else if b >= 4 {
        5
    } else if b >= 2 {
        6
    } else if b >= 1 {
        7
    } else {
        8
    }
}

impl Key {
    /// The identifier derived from `input`: the SHA-256 digest of its UTF-8 bytes.
    pub fn new(input: String) -> (key: Key)
        ensures
            key@ == sha256(encode_utf8(input@)),
    {
        let hash = sha256_digest(input.as_str().as_bytes());
        Key::from_bytes(hash)
    }

    /// The identifier with exactly the given bytes, most significant first.
    pub fn from_bytes(bytes: [u8; KEY_LEN]) -> (key: Key)
        ensures
            key.0 == bytes,
            key@ == bytes@,
    {
        Key(bytes)
    }

    /// XOR distance between two identifiers.
    pub fn distance(&self, other: &Key) -> (d: Key)
        ensures
            d@ == xor_bytes(self@, other@),
    {
        let mut out = [0u8; KEY_LEN];
        let mut i: usize = 0;
        while i < KEY_LEN
            invariant
                i <= KEY_LEN,
                forall|k: int| 0 <= k < i ==> out@[k] == self@[k] ^ other@[k],
            decreases KEY_LEN - i,
        {
            out[i] = self.0[i] ^ other.0[i];
            i += 1;
        }
        assert(out@ =~= xor_bytes(self@, other@));
        Key(out)
    }

    /// Whether this key ranks strictly before `other`, that is, denotes the
    /// smaller integer.
    pub fn less_than(&self, other: &Key) -> (r: bool)
        ensures
            r == (be_value(self@) < be_value(other@)),
    {
        let mut i: usize = 0;
        while i < KEY_LEN
            invariant
                i <= KEY_LEN,
                forall|k: int| 0 <= k < i ==> self@[k] == other@[k],
            decreases KEY_LEN - i,
        {
            if self.0[i] < other.0[i] {
                proof {
                    lemma_first_difference_orders(self@, other@, i as int);
                }
                return true;
            }
            if self.0[i] > other.0[i] {
                proof {
                    lemma_first_difference_orders(other@, self@, i as int);
                }
                return false;
            }
            i += 1;
        }
        assert(self@ =~= other@);
        false
    }

    /// Number of zero bits before the first set bit, from the most significant
    /// end; 256 for the zero key.
    pub fn leading_zeros(&self) -> (n: usize)
        ensures
            n == leading_zero_bits(self@),
            n <= 8 * KEY_LEN,
            n == 8 * KEY_LEN <==> self@ == zero_bytes(KEY_LEN as nat),
    {
        let mut i: usize = 0;
        while i < KEY_LEN
            invariant
                i <= KEY_LEN,
                forall|k: int| 0 <= k < i ==> self@[k] == 0,
            decreases KEY_LEN - i,
        {
            if self.0[i] != 0 {
                proof {
                    lemma_leading_zero_bits_skip(self@, i as int);
                    assert(self@.skip(i as int)[0] == self@[i as int]);
                }
                return 8 * i + leading_zeros_of_byte(self.0[i]);
            }
            i += 1;
        }
        proof {
            lemma_leading_zero_bits_skip(self@, KEY_LEN as int);
            assert(self@ =~= zero_bytes(KEY_LEN as nat));
        }
        8 * KEY_LEN
    }
}

/// The distance is symmetric, and it is zero exactly between an identifier
/// and itself.
pub proof fn lemma_distance_symmetric_and_definite(a: Key, b: Key)
    ensures
        xor_bytes(a@, b@) == xor_bytes(b@, a@),
        xor_bytes(a@, a@) == zero_bytes(KEY_LEN as nat),
        xor_bytes(a@, b@) == zero_bytes(KEY_LEN as nat) <==> a == b,
{
    broadcast use vstd::array::group_array_axioms;

    lemma_xor_symmetric(a@, b@);
    lemma_xor_zero_iff_equal(a@, b@);
    if a@ == b@ {
        assert(a.0 =~= b.0);
    }
}

/// The distances from `a` to `b` and from `b` to `c`, combined by
/// exclusive-or, give the distance from `a` to `c`.
pub proof fn lemma_distance_telescopes(a: Key, b: Key, c: Key)
    ensures
        xor_bytes(xor_bytes(a@, b@), xor_bytes(b@, c@)) == xor_bytes(a@, c@),
{
    lemma_xor_chain(a@, b@, c@);
}

} // verus!
