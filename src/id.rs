//! Identifiers and the XOR metric over them.
use crate::prims::{hex_of, to_hex};
use vstd::prelude::*;
use vstd::string::StringExecFns;

verus! {

/// Width of an identifier in bytes.
pub const ID_BYTES: usize = 32;

/// A node or content address: 256 bits, most significant byte first.
pub type Id = [u8; 32];

/// Bytewise exclusive or of two byte strings.
pub open spec fn xor_seq(a: Seq<u8>, b: Seq<u8>) -> Seq<u8> {
    Seq::new(a.len(), |i: int| a[i] ^ b[i])
}

/// Every byte of `d` is zero.
pub open spec fn is_zero(d: Seq<u8>) -> bool {
    forall|i: int| 0 <= i < d.len() ==> d[i] == 0
}

/// `a` and `b` agree on every byte before position `i`.
pub open spec fn agree_below(a: Seq<u8>, b: Seq<u8>, i: int) -> bool {
    forall|j: int| 0 <= j < i ==> a[j] == b[j]
}

/// Position `i` is the first one where `a` and `b` differ, and there `a` is smaller.
pub open spec fn lt_at(a: Seq<u8>, b: Seq<u8>, i: int) -> bool {
    &&& 0 <= i < a.len()
    &&& i < b.len()
    &&& agree_below(a, b, i)
    &&& a[i] < b[i]
}

/// `a` is strictly smaller than `b` read as big-endian numbers of equal width.
pub open spec fn id_lt(a: Seq<u8>, b: Seq<u8>) -> bool {
    exists|i: int| #[trigger] lt_at(a, b, i)
}

/// The 1-based position of the highest set bit of a byte; zero for a zero byte.
pub open spec fn bit_len(x: u8) -> nat {
    if x >= 128 {
        8
    } else if x >= 64 {
        7
    } else if x >= 32 {
        6
    } else if x >= 16 {
        5
    } else if x >= 8 {
        4
    } else if x >= 4 {
        3
    } else if x >= 2 {
        2
    } else if x >= 1 {
        1
    } else {
        0
    }
}

/// Scanning `d` from byte `i` on, most significant first: eight times the
/// index of the first non-zero byte plus the bit length of that byte.
pub open spec fn bucket_from(d: Seq<u8>, i: int) -> Option<nat>
    decreases d.len() - i,
{
    if i < 0 || i >= d.len() {
        None
    } else if d[i] != 0 {
        Some((8 * i + bit_len(d[i])) as nat)
    } else {
        bucket_from(d, i + 1)
    }
}

/// The bucket that a distance falls in; a zero distance has none.
pub open spec fn bucket_of(d: Seq<u8>) -> Option<nat> {
    bucket_from(d, 0)
}

/// From byte `i` on, a bucket is found exactly when a non-zero byte follows,
/// and it lies between `8 * i + 1` and eight times the length.
pub proof fn lemma_bucket_from(d: Seq<u8>, i: int)
    requires
        0 <= i <= d.len(),
    ensures
        bucket_from(d, i) is None <==> forall|j: int| i <= j < d.len() ==> d[j] == 0,
        bucket_from(d, i) matches Some(n) ==> 8 * i + 1 <= n <= 8 * d.len(),
    decreases d.len() - i,
{
    if i < d.len() {
        lemma_bucket_from(d, i + 1);
    }
}

pub proof fn lemma_lt_irreflexive(a: Seq<u8>)
    ensures
        !id_lt(a, a),
{
}

pub proof fn lemma_lt_asymmetric(a: Seq<u8>, b: Seq<u8>)
    ensures
        id_lt(a, b) ==> !id_lt(b, a),
{
    if id_lt(a, b) && id_lt(b, a) {
        let i = choose|i: int| lt_at(a, b, i);
        let j = choose|j: int| lt_at(b, a, j);
        if i < j {
            assert(b[i] == a[i]);
        } else if j < i {
            assert(a[j] == b[j]);
        }
    }
}

pub proof fn lemma_lt_transitive(a: Seq<u8>, b: Seq<u8>, c: Seq<u8>)
    requires
        id_lt(a, b),
        id_lt(b, c),
    ensures
        id_lt(a, c),
{
    let i = choose|i: int| lt_at(a, b, i);
    let j = choose|j: int| lt_at(b, c, j);
    if i <= j {
        assert(lt_at(a, c, i));
    } else {
        assert(lt_at(a, c, j));
    }
}

/// Exclusive or with a fixed string is one-to-one.
pub proof fn lemma_xor_injective(s: Seq<u8>, a: Seq<u8>, b: Seq<u8>)
    requires
        s.len() == a.len(),
        a.len() == b.len(),
        xor_seq(s, a) == xor_seq(s, b),
    ensures
        a == b,
{
    assert forall|i: int| 0 <= i < a.len() implies a[i] == b[i] by {
        let (x, y, z) = (s[i], a[i], b[i]);
        assert(xor_seq(s, a)[i] == x ^ y);
        assert(xor_seq(s, b)[i] == x ^ z);
        assert(x ^ y == x ^ z ==> y == z) by (bit_vector);
    }
    assert(a =~= b);
}

/// The distance from an identifier to itself is zero, and it has no bucket.
pub proof fn lemma_distance_to_self(a: Id)
    ensures
        is_zero(xor_seq(a@, a@)),
        xor_seq(a@, a@).len() == ID_BYTES,
        bucket_of(xor_seq(a@, a@)) is None,
{
    assert forall|i: int| 0 <= i < a@.len() implies #[trigger] xor_seq(a@, a@)[i] == 0 by {
        let x = a@[i];
        assert(x ^ x == 0) by (bit_vector);
    }
    lemma_bucket_from(xor_seq(a@, a@), 0);
}

/// The distance is symmetric, and it is zero exactly between equal identifiers.
pub proof fn lemma_distance_metric(a: Id, b: Id)
    ensures
        xor_seq(a@, b@) == xor_seq(b@, a@),
        is_zero(xor_seq(a@, b@)) <==> a == b,
{
    assert forall|i: int| 0 <= i < a@.len() implies #[trigger] xor_seq(a@, b@)[i] == xor_seq(
        b@,
        a@,
    )[i] by {
        let (x, y) = (a@[i], b@[i]);
        assert(x ^ y == y ^ x) by (bit_vector);
    }
    assert(xor_seq(a@, b@) =~= xor_seq(b@, a@));
    if is_zero(xor_seq(a@, b@)) {
        assert forall|i: int| 0 <= i < a@.len() implies a@[i] == b@[i] by {
            let (x, y) = (a@[i], b@[i]);
            assert(xor_seq(a@, b@)[i] == 0);
            assert(x ^ y == 0 ==> x == y) by (bit_vector);
        }
        assert(a@ =~= b@);
        assert(a =~= b);
    }
    if a == b {
        lemma_distance_to_self(a);
    }
}

/// A bucket number of a 32-byte distance lies between 1 and 256.
pub proof fn lemma_bucket_range(d: Seq<u8>)
    requires
        d.len() == ID_BYTES,
    ensures
        bucket_of(d) matches Some(n) ==> 1 <= n <= 256,
{
    lemma_bucket_from(d, 0);
}

/// A short label for an identifier: `0x` and the hex digits of its first two bytes.
pub fn encode_id(id: &Id) -> (r: String)
    ensures
        r@ == seq!['0', 'x'] + hex_of(id@.subrange(0, 2)),
{
    let head: Vec<u8> = vec![id[0], id[1]];
    assert(head@ =~= id@.subrange(0, 2));
    let digits = to_hex(head.as_slice());
    let mut r = String::from_str("0x");
    proof {
        reveal_strlit("0x");
    }
    r.append(digits.as_str());
    assert(r@ =~= seq!['0', 'x'] + hex_of(id@.subrange(0, 2)));
    r
}

/// The XOR distance between two identifiers.
pub fn xor_distance(from: &Id, other: &Id) -> (r: Id)
    ensures
        r@ == xor_seq(from@, other@),
{
    let mut r: Id = [0u8; 32];
    let mut i: usize = 0;
    while i < ID_BYTES
        invariant
            i <= ID_BYTES,
            r@.len() == ID_BYTES,
            forall|j: int| 0 <= j < i ==> r@[j] == from@[j] ^ other@[j],
        decreases ID_BYTES - i,
    {
        r[i] = from[i] ^ other[i];
        i = i + 1;
    }
    assert(r@ =~= xor_seq(from@, other@));
    r
}

/// Three-way comparison of two identifiers as big-endian numbers:
/// -1 when `a` is smaller, 0 when equal, 1 when `a` is larger.
pub fn compare_ids(a: &Id, b: &Id) -> (r: i8)
    ensures
        r == -1 <==> id_lt(a@, b@),
        r == 0 <==> a@ == b@,
        r == 1 <==> id_lt(b@, a@),
        -1 <= r <= 1,
{
    let mut i: usize = 0;
    while i < ID_BYTES
        invariant
            i <= ID_BYTES,
            agree_below(a@, b@, i as int),
        decreases ID_BYTES - i,
    {
        if a[i] < b[i] {
            assert(lt_at(a@, b@, i as int));
            proof {
                lemma_lt_asymmetric(a@, b@);
            }
            return -1;
        }
        if a[i] > b[i] {
            assert(lt_at(b@, a@, i as int));
            proof {
                lemma_lt_asymmetric(b@, a@);
            }
            return 1;
        }
        i = i + 1;
    }
    assert(a@ =~= b@);
    proof {
        lemma_lt_irreflexive(a@);
    }
    0
}

/// The bit length of a byte.
fn byte_bit_len(x: u8) -> (r: usize)
    ensures
        r == bit_len(x),
{
    if x >= 128 {
        8
    } else if x >= 64 {
        7
    } else if x >= 32 {
        6
    } else if x >= 16 {
        5
    } else if x >= 8 {
        4
    } else if x >= 4 {
        3
    } else if x >= 2 {
        2
    } else if x >= 1 {
        1
    } else {
        0
    }
}

/// The bucket index of a distance (see `bucket_of`).
pub fn bucket_index(d: &Id) -> (r: Option<usize>)
    ensures
        r matches Some(n) ==> bucket_of(d@) == Some(n as nat) && 1 <= n <= 256,
        r is None <==> bucket_of(d@) is None,
{
    let mut i: usize = 0;
    while i < ID_BYTES
        invariant
            i <= ID_BYTES,
            bucket_of(d@) == bucket_from(d@, i as int),
        decreases ID_BYTES - i,
    {
        if d[i] != 0 {
            let n = byte_bit_len(d[i]);
            return Some(8 * i + n);
        }
        i = i + 1;
    }
    None
}

} // verus!
