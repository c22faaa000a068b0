//! Vectors as the store holds them: packed single-precision numbers.

use vstd::prelude::*;

verus! {

/// The four bytes of a word, the lowest first.
pub open spec fn le_bytes(x: u32) -> Seq<u8> {
    seq![
        (x % 256) as u8,
        (x / 256 % 256) as u8,
        (x / 65536 % 256) as u8,
        (x / 16777216) as u8,
    ]
}

/// The word that four bytes make, the lowest first.
pub open spec fn le_word(b0: u8, b1: u8, b2: u8, b3: u8) -> u32 {
    (b0 + 256 * b1 + 65536 * b2 + 16777216 * b3) as u32
}

/// A vector as bytes: four for each number, one number after the other.
pub open spec fn packed(v: Seq<u32>) -> Seq<u8> {
    Seq::new(4 * v.len(), |i: int| le_bytes(v[i / 4])[i % 4])
}

/// Bytes as a vector. Up to three bytes at the end that make no number are left out.
pub open spec fn unpacked(b: Seq<u8>) -> Seq<u32> {
    Seq::new(
        b.len() / 4,
        |i: int| le_word(b[4 * i], b[4 * i + 1], b[4 * i + 2], b[4 * i + 3]),
    )
}

/// Pack a vector as little-endian bytes (Valkey VECTOR HNSW expects this). The numbers are given
/// by their IEEE-754 bits in single precision.
pub fn pack_f32le(v: &[u32]) -> (r: Vec<u8>)
    ensures
        r@ == packed(v@),
{
    let mut r: Vec<u8> = Vec::new();
    let mut i: usize = 0;
    while i < v.len()
        invariant
            i <= v.len(),
            r@ == packed(v@.take(i as int)),
        decreases v.len() - i,
    {
        let x: u32 = v[i];
        let ghost before = r@;
        r.push((x % 256) as u8);
        r.push((x / 256 % 256) as u8);
        r.push((x / 65536 % 256) as u8);
        r.push((x / 16777216) as u8);
        proof {
            let next = packed(v@.take(i + 1));
            assert forall|k: int| 0 <= k < next.len() implies next[k] == r@[k] by {
                if k < 4 * i {
                    assert(before[k] == packed(v@.take(i as int))[k]);
                    assert(v@.take(i as int)[k / 4] == v@.take(i + 1)[k / 4]);
                } else {
                    assert(k / 4 == i);
                    assert(v@.take(i + 1)[k / 4] == x);
                    assert(k % 4 == k - 4 * i);
                }
            }
            assert(r@ == next);
        }
        i = i + 1;
    }
    assert(v@.take(i as int) == v@);
    r
}

/// Unpack a vector, giving its numbers by their IEEE-754 bits in single precision.
pub fn unpack_f32le(b: &[u8]) -> (r: Vec<u32>)
    ensures
        r@ == unpacked(b@),
{
    let mut r: Vec<u32> = Vec::new();
    let mut i: usize = 0;
    while i < b.len() / 4
        invariant
            i <= b@.len() / 4,
            r@.len() == i,
            forall|k: int| 0 <= k < i ==> #[trigger] r@[k] == unpacked(b@)[k],
        decreases b@.len() / 4 - i,
    {
        r.push(
            b[4 * i] as u32 + 256 * b[4 * i + 1] as u32 + 65536 * b[4 * i + 2] as u32 + 16777216
                * b[4 * i + 3] as u32,
        );
        i = i + 1;
    }
    assert(r@ == unpacked(b@));
    r
}

proof fn lemma_word_of_bytes(x: u32)
    ensures
        le_word(le_bytes(x)[0], le_bytes(x)[1], le_bytes(x)[2], le_bytes(x)[3]) == x,
{
    let high = x / 256;
    let higher = high / 256;
    assert(x / 65536 == higher);
    assert(x / 16777216 == higher / 256);
    assert(x == x % 256 + 256 * high);
    assert(high == high % 256 + 256 * higher);
    assert(higher == higher % 256 + 256 * (higher / 256));
}

proof fn lemma_bytes_of_word(b0: u8, b1: u8, b2: u8, b3: u8)
    ensures
        le_bytes(le_word(b0, b1, b2, b3)) == seq![b0, b1, b2, b3],
{
    let x = le_word(b0, b1, b2, b3);
    let high = b1 + 256 * b2 + 65536 * b3;
    let higher = b2 + 256 * b3;
    assert(x == b0 + 256 * high);
    assert(high == b1 + 256 * higher);
    assert(x as int / 256 == high);
    assert(high / 256 == higher);
    assert(x as int / 65536 == higher);
    assert(x as int / 16777216 == b3);
    assert(le_bytes(x) == seq![b0, b1, b2, b3]);
}

/// Unpacking gives back the vector that was packed.
pub proof fn law_unpack_undoes_pack(v: Seq<u32>)
    ensures
        unpacked(packed(v)) == v,
{
    let b = packed(v);
    assert forall|i: int| 0 <= i < v.len() implies unpacked(b)[i] == v[i] by {
        assert(b[4 * i] == le_bytes(v[i])[0]);
        assert(b[4 * i + 1] == le_bytes(v[i])[1]);
        assert(b[4 * i + 2] == le_bytes(v[i])[2]);
        assert(b[4 * i + 3] == le_bytes(v[i])[3]);
        lemma_word_of_bytes(v[i]);
    }
    assert(unpacked(b) == v);
}

/// Packing gives back the bytes that were unpacked, up to the last whole number.
pub proof fn law_pack_undoes_unpack(b: Seq<u8>)
    ensures
        packed(unpacked(b)) == b.take(b.len() - b.len() % 4),
        b.len() % 4 == 0 ==> packed(unpacked(b)) == b,
{
    let v = unpacked(b);
    let whole = b.take(b.len() - b.len() % 4);
    assert forall|i: int| 0 <= i < whole.len() implies packed(v)[i] == whole[i] by {
        let k = i / 4;
        assert(i == 4 * k + i % 4);
        lemma_bytes_of_word(b[4 * k], b[4 * k + 1], b[4 * k + 2], b[4 * k + 3]);
        assert(packed(v)[i] == seq![b[4 * k], b[4 * k + 1], b[4 * k + 2], b[4 * k + 3]][i % 4]);
    }
    assert(packed(v) == whole);
    if b.len() % 4 == 0 {
        assert(whole == b);
    }
}

/// A packed vector holds every number whole, the lowest byte first: four bytes for each number, which
/// weigh 1, 256, 65536 and 16777216 and add up to its bits.
pub proof fn law_packed_bytes_weigh_the_number(v: &[u32], r: Vec<u8>)
    requires
        call_ensures(pack_f32le, (v,), r),
    ensures
        r@.len() == 4 * v@.len(),
        forall|i: int|
            0 <= i < v@.len() ==> r@[4 * i] + 256 * r@[4 * i + 1] + 65536 * r@[4 * i + 2] + 16777216
                * r@[4 * i + 3] == #[trigger] v@[i],
{
    assert forall|i: int| 0 <= i < v@.len() implies r@[4 * i] + 256 * r@[4 * i + 1] + 65536 * r@[4
        * i + 2] + 16777216 * r@[4 * i + 3] == #[trigger] v@[i] by {
        lemma_packed_bytes(v@, i);
    }
}

pub(crate) proof fn lemma_packed_bytes(v: Seq<u32>, i: int)
    requires
        0 <= i < v.len(),
    ensures
        ({
            let r = packed(v);
            r[4 * i] + 256 * r[4 * i + 1] + 65536 * r[4 * i + 2] + 16777216 * r[4 * i + 3] == v[i]
        }),
{
    let r = packed(v);
    let x = v[i];
    assert(r[4 * i] == le_bytes(x)[0]);
    assert(r[4 * i + 1] == le_bytes(x)[1]);
    assert(r[4 * i + 2] == le_bytes(x)[2]);
    assert(r[4 * i + 3] == le_bytes(x)[3]);
    assert(x == x % 256 + 256 * (x / 256 % 256) + 65536 * (x / 65536 % 256) + 16777216 * (x
        / 16777216)) by (bit_vector);
}

/// Unpacking weighs the bytes the same way, and reads as many numbers as there are whole ones.
pub proof fn law_unpacked_number_weighs_its_bytes(b: &[u8], r: Vec<u32>)
    requires
        call_ensures(unpack_f32le, (b,), r),
    ensures
        4 * r@.len() <= b@.len() < 4 * r@.len() + 4,
        forall|i: int|
            0 <= i < r@.len() ==> #[trigger] r@[i] == b@[4 * i] + 256 * b@[4 * i + 1] + 65536 * b@[4
                * i + 2] + 16777216 * b@[4 * i + 3],
{
}

} // verus!
