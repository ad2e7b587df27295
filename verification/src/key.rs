//! Identifiers and the XOR metric.
//!
//! A key is 32 bytes. Read as a big-endian unsigned number it has a value,
//! and the distance between two keys is the value of their bitwise
//! exclusive-or.

use vstd::prelude::*;
use vstd::arithmetic::power2::{pow2, lemma_pow2_unfold, lemma_pow2_strictly_increases};

verus! {

/// A 256-bit identifier of a node or of a stored record.
#[derive(Clone, Copy, Debug, PartialEq, Eq, Hash)]
pub struct Key(pub [u8; 32]);

impl View for Key {
    type V = Seq<u8>;

    open spec fn view(&self) -> Seq<u8> {
        self.0@
    }
}

/// The number that a byte string denotes, most significant byte first.
pub open spec fn be_value(s: Seq<u8>) -> nat
    decreases s.len(),
{
    if s.len() == 0 {
        0
    } else {
        be_value(s.drop_last()) * 256 + s.last() as nat
    }
}

/// The number of binary digits of `v`: 0 for 0, and otherwise one more than
/// the position of its most significant set bit.
pub open spec fn bit_length(v: nat) -> nat
    decreases v,
{
    if v == 0 {
        0
    } else {
        1 + bit_length(v / 2)
    }
}

/// Bytewise exclusive-or of two byte strings of one length.
pub open spec fn xor_bytes(a: Seq<u8>, b: Seq<u8>) -> Seq<u8> {
    Seq::new(a.len(), |i: int| a[i] ^ b[i])
}

/// The XOR distance between two identifiers, as a number.
pub open spec fn spec_distance(a: Seq<u8>, b: Seq<u8>) -> nat {
    be_value(xor_bytes(a, b))
}

/// The bucket of `other` as seen from `local`: the number of leading zero
/// bits of their distance. Equal identifiers have no bucket.
pub open spec fn spec_bucket_index(local: Seq<u8>, other: Seq<u8>) -> Option<usize> {
    if local == other {
        None
    } else {
        Some((256 - bit_length(spec_distance(local, other))) as usize)
    }
}

/// An all-zero byte string has value 0, and only such a string has.
pub proof fn lemma_be_value_zero(s: Seq<u8>)
    ensures
        be_value(s) == 0 <==> (forall|i: int| 0 <= i < s.len() ==> s[i] == 0),
    decreases s.len(),
{
    if s.len() > 0 {
        lemma_be_value_zero(s.drop_last());
        if be_value(s) == 0 {
            assert forall|i: int| 0 <= i < s.len() implies s[i] == 0 by {
                if i < s.len() - 1 {
                    assert(s.drop_last()[i] == s[i]);
                }
            }
        }
        if forall|i: int| 0 <= i < s.len() ==> s[i] == 0 {
            assert forall|i: int| 0 <= i < s.drop_last().len() implies s.drop_last()[i] == 0 by {
                assert(s.drop_last()[i] == s[i]);
            }
        }
    }
}

/// Appending a byte to a prefix multiplies the value by 256 and adds the byte.
proof fn lemma_be_value_step(s: Seq<u8>, n: int)
    requires
        0 <= n < s.len(),
    ensures
        be_value(s.take(n + 1)) == be_value(s.take(n)) * 256 + s[n] as nat,
{
    assert(s.take(n + 1).drop_last() =~= s.take(n));
}

/// Of two strings of one length that agree before position `i`, the one with
/// the smaller byte at `i` has the smaller value on every longer prefix.
proof fn lemma_prefix_order(a: Seq<u8>, b: Seq<u8>, i: int, n: int)
    requires
        a.len() == b.len(),
        0 <= i < n <= a.len(),
        a.take(i) == b.take(i),
        a[i] < b[i],
    ensures
        be_value(a.take(n)) < be_value(b.take(n)),
    decreases n,
{
    lemma_be_value_step(a, n - 1);
    lemma_be_value_step(b, n - 1);
    if n > i + 1 {
        lemma_prefix_order(a, b, i, n - 1);
    }
}

/// Byte strings of one length are ordered by value as they are ordered
/// lexicographically: the first differing byte decides.
pub proof fn lemma_first_difference(a: Seq<u8>, b: Seq<u8>, i: int)
    requires
        a.len() == b.len(),
        0 <= i < a.len(),
        a.take(i) == b.take(i),
        a[i] != b[i],
    ensures
        (a[i] < b[i]) == (be_value(a) < be_value(b)),
        be_value(a) != be_value(b),
{
    assert(a.take(a.len() as int) =~= a);
    assert(b.take(b.len() as int) =~= b);
    if a[i] < b[i] {
        lemma_prefix_order(a, b, i, a.len() as int);
    } else {
        lemma_prefix_order(b, a, i, a.len() as int);
    }
}

/// A positive number lies between the two powers of two that its bit length
/// names.
pub proof fn lemma_bit_length_range(v: nat)
    requires
        v > 0,
    ensures
        bit_length(v) >= 1,
        pow2((bit_length(v) - 1) as nat) <= v < pow2(bit_length(v)),
    decreases v,
{
    if v == 1 {
        assert(bit_length(1) == 1) by {
            reveal_with_fuel(bit_length, 3);
        }
        lemma_pow2_unfold(1);
        assert(pow2(0) == 1) by {
            vstd::arithmetic::power2::lemma2_to64();
        }
    } else {
        lemma_bit_length_range(v / 2);
        lemma_pow2_unfold(bit_length(v));
        lemma_pow2_unfold((bit_length(v) - 1) as nat);
    }
}

/// Eight more binary digits follow from a multiplication by 256.
proof fn lemma_bit_length_shift(v: nat, x: nat)
    requires
        v > 0,
        x < 256,
    ensures
        bit_length(v * 256 + x) == bit_length(v) + 8,
{
    let y = v * 256 + x;
    assert(y / 2 / 2 / 2 / 2 / 2 / 2 / 2 / 2 == v);
    reveal_with_fuel(bit_length, 9);
}

/// The bit length of a byte, by its range.
proof fn lemma_bit_length_byte(x: u8)
    ensures
        bit_length(x as nat) == if x >= 128 {
            8nat
        } else if x >= 64 {
            7
        } else if x >= 32 {
            6
        } else if x >= 16 {
            5
        } else if x >= 8 {
            4
        } else if x >= 4 {
            3
        } else if x >= 2 {
            2
        } else if x >= 1 {
            1
        } else {
            0
        },
{
    reveal_with_fuel(bit_length, 10);
}

/// Once a prefix has a positive value, each further byte adds eight binary
/// digits.
proof fn lemma_bit_length_suffix(s: Seq<u8>, m: int, n: int)
    requires
        0 <= m <= n <= s.len(),
        be_value(s.take(m)) > 0,
    ensures
        be_value(s.take(n)) > 0,
        bit_length(be_value(s.take(n))) == bit_length(be_value(s.take(m))) + 8 * (n - m),
    decreases n - m,
{
    if n > m {
        lemma_bit_length_suffix(s, m, n - 1);
        lemma_be_value_step(s, n - 1);
        lemma_bit_length_shift(be_value(s.take(n - 1)), s[n - 1] as nat);
    }
}

impl Key {
    /// The key as a number.
    pub open spec fn value(&self) -> nat {
        be_value(self@)
    }

    /// Whether two keys hold the same bytes.
    pub fn equals(&self, other: &Key) -> (same: bool)
        ensures
            same == (self@ == other@),
    {
        let mut i: usize = 0;
        while i < 32
            invariant
                i <= 32,
                forall|j: int| 0 <= j < i ==> self@[j] == other@[j],
            decreases 32 - i,
        {
            if self.0[i] != other.0[i] {
                return false;
            }
            i += 1;
        }
        assert(self@ =~= other@);
        true
    }

    /// Whether this key, read as a number, is below `other`.
    pub fn less_than(&self, other: &Key) -> (below: bool)
        ensures
            below == (self.value() < other.value()),
    {
        let mut i: usize = 0;
        while i < 32
            invariant
                i <= 32,
                self@.take(i as int) == other@.take(i as int),
            decreases 32 - i,
        {
            if self.0[i] != other.0[i] {
                proof {
                    lemma_first_difference(self@, other@, i as int);
                }
                return self.0[i] < other.0[i];
            }
            assert(self@.take(i + 1) =~= other@.take(i + 1)) by {
                assert forall|j: int| 0 <= j < i + 1 implies self@[j] == other@[j] by {
                    if j < i {
                        assert(self@.take(i as int)[j] == other@.take(i as int)[j]);
                    }
                }
            }
            i += 1;
        }
        assert(self@.take(32) =~= self@);
        assert(other@.take(32) =~= other@);
        false
    }
}

/// The XOR distance between two identifiers, held as a key: its value is
/// the distance as a number.
pub fn distance(a: &Key, b: &Key) -> (d: Key)
    ensures
        d@ == xor_bytes(a@, b@),
        d.value() == spec_distance(a@, b@),
{
    let mut out: [u8; 32] = [0u8; 32];
    let mut i: usize = 0;
    while i < 32
        invariant
            i <= 32,
            forall|j: int| 0 <= j < i ==> out@[j] == a@[j] ^ b@[j],
        decreases 32 - i,
    {
        out[i] = a.0[i] ^ b.0[i];
        i += 1;
    }
    assert(out@ =~= xor_bytes(a@, b@));
    Key(out)
}

/// The number of leading zero bits of a byte that is not zero.
fn byte_leading_zeros(x: u8) -> (z: usize)
    requires
        x != 0,
    ensures
        z < 8,
        bit_length(x as nat) == 8 - z,
{
    proof {
        lemma_bit_length_byte(x);
    }
    if x >= 128 {
        0
    } else if x >= 64 {
        1
    } else if x >= 32 {
        2
    } else if x >= 16 {
        3
    } else if x >= 8 {
        4
    } else if x >= 4 {
        5
    } else if x >= 2 {
        6
    } else {
        7
    }
}

/// The bucket that `other` belongs to in the routing table of `local`: the
/// position of the most significant set bit of their distance, counted from
/// the most significant bit. Equal identifiers have none.
pub fn bucket_index(local: &Key, other: &Key) -> (index: Option<usize>)
    ensures
        index == spec_bucket_index(local@, other@),
        index is None <==> local@ == other@,
        index matches Some(i) ==> i < 256,
{
    let d = distance(local, other);
    let mut i: usize = 0;
    while i < 32
        invariant
            i <= 32,
            d@ == xor_bytes(local@, other@),
            forall|j: int| 0 <= j < i ==> d@[j] == 0,
        decreases 32 - i,
    {
        let byte = d.0[i];
        if byte != 0 {
            let z = byte_leading_zeros(byte);
            proof {
                let a = local@[i as int];
                let b = other@[i as int];
                assert(a == b ==> a ^ b == 0) by (bit_vector);
                assert(local@ != other@);
                lemma_be_value_zero(d@.take(i as int));
                lemma_be_value_step(d@, i as int);
                lemma_bit_length_suffix(d@, i + 1, 32);
                assert(d@.take(32) =~= d@);
            }
            return Some(8 * i + z);
        }
        i += 1;
    }
    proof {
        assert forall|j: int| 0 <= j < 32 implies local@[j] == other@[j] by {
            let a = local@[j];
            let b = other@[j];
            assert(d@[j] == a ^ b);
            assert(a ^ b == 0 ==> a == b) by (bit_vector);
        }
        assert(local@ =~= other@);
    }
    None
}

/// The distance from `a` to `b` is the distance from `b` to `a`.
pub proof fn lemma_distance_symmetric(a: Key, b: Key)
    ensures
        spec_distance(a@, b@) == spec_distance(b@, a@),
{
    assert forall|i: int| 0 <= i < 32 implies a@[i] ^ b@[i] == b@[i] ^ a@[i] by {
        let x = a@[i];
        let y = b@[i];
        assert(x ^ y == y ^ x) by (bit_vector);
    }
    assert(xor_bytes(a@, b@) =~= xor_bytes(b@, a@));
}

/// An identifier is at distance 0 from itself.
pub proof fn lemma_distance_to_self(a: Key)
    ensures
        spec_distance(a@, a@) == 0,
{
    assert forall|i: int| 0 <= i < 32 implies #[trigger] xor_bytes(a@, a@)[i] == 0 by {
        let x = a@[i];
        assert(x ^ x == 0) by (bit_vector);
    }
    lemma_be_value_zero(xor_bytes(a@, a@));
}

/// Only equal identifiers are at distance 0.
pub proof fn lemma_distance_zero_means_equal(a: Key, b: Key)
    requires
        spec_distance(a@, b@) == 0,
    ensures
        a@ == b@,
{
    lemma_be_value_zero(xor_bytes(a@, b@));
    assert forall|i: int| 0 <= i < 32 implies a@[i] == b@[i] by {
        let x = a@[i];
        let y = b@[i];
        assert(xor_bytes(a@, b@)[i] == x ^ y);
        assert(x ^ y == 0 ==> x == y) by (bit_vector);
    }
    assert(a@ =~= b@);
}

/// The distance of an identifier in bucket `i` lies in the half-open range
/// from 2^(255 - i) to 2^(256 - i).
pub proof fn lemma_bucket_range(local: Key, other: Key)
    requires
        local@ != other@,
    ensures
        spec_bucket_index(local@, other@) matches Some(i) && i < 256 && pow2((255 - i) as nat)
            <= spec_distance(local@, other@) < pow2((256 - i) as nat),
{
    let d = spec_distance(local@, other@);
    if d == 0 {
        lemma_distance_zero_means_equal(local, other);
    }
    lemma_bit_length_range(d);
    lemma_value_below_limit(xor_bytes(local@, other@));
    if bit_length(d) > 256 {
        lemma_pow2_strictly_increases(256, (bit_length(d) - 1) as nat);
    }
}

/// A string of `n` bytes has a value below 2^(8n).
proof fn lemma_value_below_limit(s: Seq<u8>)
    ensures
        be_value(s) < pow2(8 * s.len()),
    decreases s.len(),
{
    if s.len() == 0 {
        vstd::arithmetic::power2::lemma2_to64();
    } else {
        lemma_value_below_limit(s.drop_last());
        vstd::arithmetic::power2::lemma_pow2_adds(8 * s.drop_last().len(), 8);
        vstd::arithmetic::power2::lemma2_to64();
        assert(8 * s.len() == 8 * s.drop_last().len() + 8);
        let p = pow2(8 * s.drop_last().len());
        assert(be_value(s.drop_last()) + 1 <= p);
        assert((be_value(s.drop_last()) + 1) * 256 <= p * 256) by (nonlinear_arith)
            requires
                be_value(s.drop_last()) + 1 <= p,
        ;
    }
}

/// The byte with only bit `r` set, counted from the most significant bit.
pub open spec fn spec_top_bit(r: int) -> u8 {
    if r == 0 {
        128
    } else if r == 1 {
        64
    } else if r == 2 {
        32
    } else if r == 3 {
        16
    } else if r == 4 {
        8
    } else if r == 5 {
        4
    } else if r == 6 {
        2
    } else {
        1
    }
}

/// The byte with bit `r` and all bits below it set.
pub open spec fn spec_low_mask(r: int) -> u8 {
    if r == 0 {
        255
    } else if r == 1 {
        127
    } else if r == 2 {
        63
    } else if r == 3 {
        31
    } else if r == 4 {
        15
    } else if r == 5 {
        7
    } else if r == 6 {
        3
    } else {
        1
    }
}

/// A distance with exactly `index` leading zero bits that agrees with
/// `noise` in every bit after bit `index`.
pub open spec fn bucket_distance(noise: Seq<u8>, index: int) -> Seq<u8> {
    Seq::new(
        32,
        |p: int|
            if p < index / 8 {
                0u8
            } else if p == index / 8 {
                (noise[p] & spec_low_mask(index % 8)) | spec_top_bit(index % 8)
            } else {
                noise[p]
            },
    )
}

fn top_bit(r: usize) -> (t: u8)
    requires
        r < 8,
    ensures
        t == spec_top_bit(r as int),
{
    if r == 0 {
        128
    } else if r == 1 {
        64
    } else if r == 2 {
        32
    } else if r == 3 {
        16
    } else if r == 4 {
        8
    } else if r == 5 {
        4
    } else if r == 6 {
        2
    } else {
        1
    }
}

fn low_mask(r: usize) -> (m: u8)
    requires
        r < 8,
    ensures
        m == spec_low_mask(r as int),
{
    if r == 0 {
        255
    } else if r == 1 {
        127
    } else if r == 2 {
        63
    } else if r == 3 {
        31
    } else if r == 4 {
        15
    } else if r == 5 {
        7
    } else if r == 6 {
        3
    } else {
        1
    }
}

proof fn lemma_masked_byte(x: u8, t: u8, m: u8)
    by (bit_vector)
    requires
        (t == 128 && m == 255) || (t == 64 && m == 127) || (t == 32 && m == 63) || (t == 16 && m
            == 31) || (t == 8 && m == 15) || (t == 4 && m == 7) || (t == 2 && m == 3) || (t == 1
            && m == 1),
    ensures
        t <= ((x & m) | t) <= m,
{
}

/// The distance that `bucket_distance` builds has `index` leading zero bits.
pub proof fn lemma_bucket_distance(noise: Seq<u8>, index: int)
    requires
        noise.len() == 32,
        0 <= index < 256,
    ensures
        bit_length(be_value(bucket_distance(noise, index))) == 256 - index,
{
    let d = bucket_distance(noise, index);
    let q = index / 8;
    let r = index % 8;
    lemma_masked_byte(noise[q], spec_top_bit(r), spec_low_mask(r));
    lemma_bit_length_byte(d[q]);
    assert forall|j: int| 0 <= j < d.take(q).len() implies d.take(q)[j] == 0 by {
        assert(d.take(q)[j] == d[j]);
    }
    lemma_be_value_zero(d.take(q));
    lemma_be_value_step(d, q);
    lemma_bit_length_suffix(d, q + 1, 32);
    assert(d.take(32) =~= d);
}

/// An identifier in bucket `index` of `local`. Its distance to `local` has
/// bit `index` as its most significant set bit, and below that bit it holds
/// the bits of `noise`: with random noise the identifier is a random member
/// of the bucket's range.
pub fn key_in_bucket(local: &Key, index: usize, noise: &Key) -> (key: Key)
    requires
        index < 256,
    ensures
        key@ == xor_bytes(local@, bucket_distance(noise@, index as int)),
        spec_bucket_index(local@, key@) == Some(index),
{
    let q: usize = index / 8;
    let r: usize = index % 8;
    let top = top_bit(r);
    let mask = low_mask(r);
    let ghost shape = bucket_distance(noise@, index as int);
    let mut out: [u8; 32] = [0u8; 32];
    let mut p: usize = 0;
    while p < 32
        invariant
            p <= 32,
            q == index / 8,
            r == index % 8,
            top == spec_top_bit(r as int),
            mask == spec_low_mask(r as int),
            shape == bucket_distance(noise@, index as int),
            forall|j: int| 0 <= j < p ==> out@[j] == local@[j] ^ shape[j],
        decreases 32 - p,
    {
        let s: u8 = if p < q {
            0
        } else if p == q {
            (noise.0[p] & mask) | top
        } else {
            noise.0[p]
        };
        out[p] = local.0[p] ^ s;
        p += 1;
    }
    let key = Key(out);
    proof {
        assert(key@ =~= xor_bytes(local@, shape));
        assert forall|j: int| 0 <= j < 32 implies #[trigger] xor_bytes(local@, key@)[j]
            == shape[j] by {
            let a = local@[j];
            let s = shape[j];
            assert(a ^ (a ^ s) == s) by (bit_vector);
        }
        assert(xor_bytes(local@, key@) =~= shape);
        lemma_bucket_distance(noise@, index as int);
        if local@ == key@ {
            lemma_distance_to_self(*local);
        }
    }
    key
}

/// Byte strings of one length with one value are equal.
pub proof fn lemma_be_value_injective(a: Seq<u8>, b: Seq<u8>)
    requires
        a.len() == b.len(),
        be_value(a) == be_value(b),
    ensures
        a == b,
    decreases a.len(),
{
    if a.len() > 0 {
        lemma_be_value_injective(a.drop_last(), b.drop_last());
        assert(a =~= a.drop_last().push(a.last()));
        assert(b =~= b.drop_last().push(b.last()));
    }
    assert(a =~= b);
}

/// Two identifiers at one distance from a third are equal.
pub proof fn lemma_distance_injective(a: Seq<u8>, b: Seq<u8>, target: Seq<u8>)
    requires
        a.len() == 32,
        b.len() == 32,
        target.len() == 32,
        spec_distance(a, target) == spec_distance(b, target),
    ensures
        a == b,
{
    lemma_be_value_injective(xor_bytes(a, target), xor_bytes(b, target));
    assert forall|i: int| 0 <= i < 32 implies a[i] == b[i] by {
        let x = a[i];
        let y = b[i];
        let t = target[i];
        assert(xor_bytes(a, target)[i] == x ^ t);
        assert(xor_bytes(b, target)[i] == y ^ t);
        assert(x ^ t == y ^ t ==> x == y) by (bit_vector);
    }
    assert(a =~= b);
}

/// Whether `a` is nearer to `target` than `b` is.
pub fn closer(a: &Key, b: &Key, target: &Key) -> (nearer: bool)
    ensures
        nearer == (spec_distance(a@, target@) < spec_distance(b@, target@)),
{
    let da = distance(a, target);
    let db = distance(b, target);
    da.less_than(&db)
}

} // verus!
