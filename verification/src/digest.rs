//! The 512-bit digest type: byte serialisation, lexicographic order, and
//! bucket-index extraction.

use vstd::prelude::*;

verus! {

/// A 512-bit digest held as eight 64-bit words; word 0 holds bytes 0..8 of
/// the serialised form, little-endian within each word.
pub type Hash512 = [u64; 8];

#[derive(Debug)]
pub enum Hash512Error {
    InvalidLengthError,
}

/// Byte `j` (0-based, 0 <= j < 8) of the little-endian serialisation of `w`.
pub open spec fn word_byte(w: u64, j: int) -> u8 {
    ((w >> ((8 * j) as u64)) & 0xff) as u8
}

/// The 64-byte serialisation of a digest: each word in turn, little-endian.
pub open spec fn hash_bytes(h: Seq<u64>) -> Seq<u8> {
    Seq::new(64, |k: int| word_byte(h[k / 8], k % 8))
}

/// Lexicographic comparison of two digests, deciding at word `i` first.
pub open spec fn hash_lt_from(a: Seq<u64>, b: Seq<u64>, i: int) -> bool
    decreases 8 - i when i <= 8
{
    if i < 0 || i >= 8 {
        false
    } else if a[i] < b[i] {
        true
    } else if a[i] > b[i] {
        false
    } else {
        hash_lt_from(a, b, i + 1)
    }
}

/// Strict lexicographic order on digests, word 0 most significant.
pub open spec fn hash_lt(a: Seq<u64>, b: Seq<u64>) -> bool {
    hash_lt_from(a, b, 0)
}

/// The bucket index of a digest: `index_size` bits of word 0, taken after
/// skipping `prefix_size` leading bits.
pub open spec fn spec_to_index(h: Seq<u64>, prefix_size: usize, index_size: usize) -> usize {
    if index_size == 0 {
        0usize
    } else {
        (((h[0] << (prefix_size as u64)) >> ((64 - index_size) as u64)) as usize)
    }
}

/// Operations every digest representation offers: byte conversion and
/// bucket-index extraction.
pub trait Hash512Ops: View<V = Seq<u64>> + Sized {
    /// Parses exactly 64 bytes into a digest; rejects any other length.
    fn from_bytes(bytes: &[u8]) -> (r: Result<Self, Hash512Error>)
        ensures
            r is Ok <==> bytes@.len() == 64,
            r matches Ok(h) ==> hash_bytes(h@) == bytes@,
            r matches Err(e) ==> e == Hash512Error::InvalidLengthError,
    ;

    /// Serialises the digest to its 64-byte form.
    fn to_bytes(&self) -> (r: Vec<u8>)
        ensures
            r@ == hash_bytes(self@),
    ;

    /// Extracts the bucket index from word 0.
    fn to_index(&self, prefix_size: usize, index_size: usize) -> (r: usize)
        requires
            prefix_size + index_size <= 64,
        ensures
            r == spec_to_index(self@, prefix_size, index_size),
            index_size <= 28 ==> r < (1usize << index_size),
    ;
}

impl Hash512Ops for Hash512 {
    fn from_bytes(bytes: &[u8]) -> (r: Result<Self, Hash512Error>) {
        if bytes.len() != 64 {
            return Err(Hash512Error::InvalidLengthError);
        }
        let mut words: [u64; 8] = [0u64; 8];
        let mut i: usize = 0;
        while i < 8
            invariant
                i <= 8,
                bytes@.len() == 64,
                forall|j: int, k: int|
                    0 <= j < i && 0 <= k < 8 ==> word_byte(words@[j], k) == bytes@[8 * j + k],
            decreases 8 - i,
        {
            let b0 = bytes[8 * i];
            let b1 = bytes[8 * i + 1];
            let b2 = bytes[8 * i + 2];
            let b3 = bytes[8 * i + 3];
            let b4 = bytes[8 * i + 4];
            let b5 = bytes[8 * i + 5];
            let b6 = bytes[8 * i + 6];
            let b7 = bytes[8 * i + 7];
            let w: u64 = (b0 as u64) | ((b1 as u64) << 8u64) | ((b2 as u64) << 16u64)
                | ((b3 as u64) << 24u64) | ((b4 as u64) << 32u64) | ((b5 as u64) << 40u64)
                | ((b6 as u64) << 48u64) | ((b7 as u64) << 56u64);
            proof {
                assert((w >> 0u64) & 0xff == b0 as u64 && (w >> 8u64) & 0xff == b1 as u64 && (w
                    >> 16u64) & 0xff == b2 as u64 && (w >> 24u64) & 0xff == b3 as u64 && (w
                    >> 32u64) & 0xff == b4 as u64 && (w >> 40u64) & 0xff == b5 as u64 && (w
                    >> 48u64) & 0xff == b6 as u64 && (w >> 56u64) & 0xff == b7 as u64)
                    by (bit_vector)
                    requires
                        w == (b0 as u64) | ((b1 as u64) << 8u64) | ((b2 as u64) << 16u64) | ((b3
                            as u64) << 24u64) | ((b4 as u64) << 32u64) | ((b5 as u64) << 40u64) | (
                        (b6 as u64) << 48u64) | ((b7 as u64) << 56u64),
                ;
            }
            words[i] = w;
            i = i + 1;
        }
        proof {
            assert(hash_bytes(words@) =~= bytes@);
        }
        Ok(words)
    }

    fn to_bytes(&self) -> (r: Vec<u8>) {
        let mut out: Vec<u8> = Vec::new();
        let mut i: usize = 0;
        while i < 8
            invariant
                i <= 8,
                out@.len() == 8 * i,
                forall|k: int| 0 <= k < 8 * i ==> out@[k] == word_byte(self@[k / 8], k % 8),
            decreases 8 - i,
        {
            let w = self[i];
            let mut j: usize = 0;
            while j < 8
                invariant
                    i < 8,
                    j <= 8,
                    w == self@[i as int],
                    out@.len() == 8 * i + j,
                    forall|k: int| 0 <= k < 8 * i + j ==> out@[k] == word_byte(self@[k / 8], k % 8),
                decreases 8 - j,
            {
                out.push(((w >> ((8 * j) as u64)) & 0xff) as u8);
                j = j + 1;
            }
            i = i + 1;
        }
        proof {
            assert(out@ =~= hash_bytes(self@));
        }
        out
    }

    fn to_index(&self, prefix_size: usize, index_size: usize) -> (r: usize) {
        if index_size == 0 {
            proof {
                let iz = index_size;
                assert(iz == 0 ==> 0usize < (1usize << iz)) by (bit_vector);
            }
            return 0;
        }
        let shifted: u64 = (self[0] << (prefix_size as u64)) >> ((64 - index_size) as u64);
        proof {
            let x = self@[0];
            let p = prefix_size as u64;
            let s = (64 - index_size) as u64;
            if index_size <= 28 {
                assert((((x << p) >> s) as usize) < (1usize << index_size)) by (bit_vector)
                    requires
                        s == 64u64 - (index_size as u64),
                        1 <= index_size <= 28,
                ;
            }
        }
        shifted as usize
    }
}

/// Equality of two digests, word by word.
pub fn hash512_eq(a: &Hash512, b: &Hash512) -> (r: bool)
    ensures
        r <==> a@ =~= b@,
{
    let mut i: usize = 0;
    while i < 8
        invariant
            i <= 8,
            forall|j: int| 0 <= j < i ==> a@[j] == b@[j],
        decreases 8 - i,
    {
        if a[i] != b[i] {
            return false;
        }
        i = i + 1;
    }
    true
}

/// Strict lexicographic comparison of two digests, word 0 most significant.
pub fn hash512_less(a: &Hash512, b: &Hash512) -> (r: bool)
    ensures
        r == hash_lt(a@, b@),
{
    let mut i: usize = 0;
    while i < 8
        invariant
            i <= 8,
            hash_lt(a@, b@) == hash_lt_from(a@, b@, i as int),
        decreases 8 - i,
    {
        if a[i] < b[i] {
            return true;
        }
        if a[i] > b[i] {
            return false;
        }
        i = i + 1;
    }
    false
}

/// The order is irreflexive: comparison never relates a digest to itself,
/// so related digests differ.
pub proof fn lemma_hash_lt_irrefl(a: Seq<u64>, b: Seq<u64>)
    requires
        hash_lt(a, b),
    ensures
        a != b,
{
    lemma_hash_lt_from_ne(a, b, 0);
}

proof fn lemma_hash_lt_from_ne(a: Seq<u64>, b: Seq<u64>, i: int)
    requires
        0 <= i < 8,
        hash_lt_from(a, b, i),
    ensures
        exists|j: int| i <= j < 8 && a[j] != b[j],
    decreases 8 - i,
{
    if a[i] < b[i] || a[i] > b[i] {
        assert(i <= i < 8 && a[i] != b[i]);
    } else {
        assert(hash_lt_from(a, b, i + 1));
        assert(i + 1 < 8);
        lemma_hash_lt_from_ne(a, b, i + 1);
    }
}

/// The order is transitive.
pub proof fn lemma_hash_lt_trans(a: Seq<u64>, b: Seq<u64>, c: Seq<u64>)
    requires
        hash_lt(a, b),
        hash_lt(b, c),
    ensures
        hash_lt(a, c),
{
    lemma_hash_lt_from_trans(a, b, c, 0);
}

proof fn lemma_hash_lt_from_trans(a: Seq<u64>, b: Seq<u64>, c: Seq<u64>, i: int)
    requires
        0 <= i <= 8,
        hash_lt_from(a, b, i),
        hash_lt_from(b, c, i),
    ensures
        hash_lt_from(a, c, i),
    decreases 8 - i,
{
    if a[i] == b[i] && b[i] == c[i] {
        lemma_hash_lt_from_trans(a, b, c, i + 1);
    }
}

/// The order is total on eight-word digests: incomparable digests are equal.
pub proof fn lemma_hash_lt_total(a: Seq<u64>, b: Seq<u64>)
    requires
        a.len() == 8,
        b.len() == 8,
        !hash_lt(a, b),
        !hash_lt(b, a),
    ensures
        a =~= b,
{
    lemma_hash_lt_from_total(a, b, 0);
    assert(forall|j: int| 0 <= j < 8 ==> a[j] == b[j]);
}

proof fn lemma_hash_lt_from_total(a: Seq<u64>, b: Seq<u64>, i: int)
    requires
        0 <= i <= 8,
        !hash_lt_from(a, b, i),
        !hash_lt_from(b, a, i),
    ensures
        forall|j: int| i <= j < 8 ==> a[j] == b[j],
    decreases 8 - i,
{
    if i < 8 {
        lemma_hash_lt_from_total(a, b, i + 1);
    }
}

/// Two to the power `b`, as a bucket, shard or node count.
pub open spec fn pow2_usize(b: usize) -> usize {
    1usize << b
}

/// A bucket index drawn from at most 28 bits stays below the bucket count.
pub proof fn lemma_to_index_bound(h: Seq<u64>, prefix_size: usize, index_size: usize)
    requires
        1 <= index_size <= 28,
        prefix_size + index_size <= 64,
    ensures
        spec_to_index(h, prefix_size, index_size) < (1usize << index_size),
{
    let x = h[0];
    let p = prefix_size as u64;
    let s = (64 - index_size) as u64;
    assert((((x << p) >> s) as usize) < (1usize << index_size)) by (bit_vector)
        requires
            s == 64u64 - (index_size as u64),
            1 <= index_size <= 28,
    ;
}

/// Digests whose bucket indices differ are ordered the same way as the
/// indices when the whole leading slice is taken (no prefix skipped).
pub proof fn lemma_index_orders_hashes(a: Seq<u64>, b: Seq<u64>, index_size: usize)
    requires
        a.len() == 8,
        b.len() == 8,
        1 <= index_size <= 28,
        spec_to_index(a, 0, index_size) < spec_to_index(b, 0, index_size),
    ensures
        hash_lt(a, b),
{
    let x = a[0];
    let y = b[0];
    let s = (64 - index_size) as u64;
    assert((((x << 0u64) >> s) as usize) < (((y << 0u64) >> s) as usize) ==> x < y) by (bit_vector)
        requires
            36 <= s <= 63,
    ;
    assert(a[0] < b[0]);
}

} // verus!
