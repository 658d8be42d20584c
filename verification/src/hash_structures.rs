//! Digests and key hashing: a fixed-length byte sequence with bit-level
//! addressing, and the capability of producing such a digest from a key.

use vstd::prelude::*;

verus! {

/// What SHA-256 returns on a byte sequence: a deterministic function of the
/// input bytes alone.
pub uninterp spec fn sha256_of(data: Seq<u8>) -> Seq<u8>;

/// Relies on crypto_hash::digest with Algorithm::SHA256: a deterministic,
/// one-way hash of the input bytes, with a 32-byte result.
#[verifier::external_body]
pub(crate) fn sha256_bytes(data: &[u8]) -> (r: Vec<u8>)
    ensures
        r@ == sha256_of(data@),
        r@.len() == 32,
{
    crypto_hash::digest(crypto_hash::Algorithm::SHA256, data)
}

/// One bit of a byte, most-significant first: bit 0 is the high bit.
pub open spec fn byte_bit(x: u8, j: int) -> u8 {
    (x >> ((7 - j) as u8)) & 1
}

/// One bit of a byte sequence, most-significant-bit first within each byte:
/// bit 0 is the high bit of byte 0.
pub open spec fn bit_of(s: Seq<u8>, i: int) -> u8 {
    byte_bit(s[i / 8], i % 8)
}

/// The two sequences have equal bits at every index below `level`.
pub open spec fn agree_below(a: Seq<u8>, b: Seq<u8>, level: int) -> bool {
    forall|i: int| 0 <= i < level ==> bit_of(a, i) == bit_of(b, i)
}

/// Agreement below `level` extends one level when the bits at `level` agree
/// too.
pub proof fn lemma_agree_extend(a: Seq<u8>, b: Seq<u8>, level: int)
    requires
        0 <= level,
        agree_below(a, b, level),
        bit_of(a, level) == bit_of(b, level),
    ensures
        agree_below(a, b, level + 1),
{
    assert forall|i: int| 0 <= i < level + 1 implies bit_of(a, i) == bit_of(b, i) by {
        if i < level {
            assert(bit_of(a, i) == bit_of(b, i));
        }
    }
}

proof fn lemma_bits_determine_byte(x: u8, y: u8)
    requires
        forall|j: int| 0 <= j < 8 ==> byte_bit(x, j) == byte_bit(y, j),
    ensures
        x == y,
{
    assert(byte_bit(x, 0) == byte_bit(y, 0));
    assert(byte_bit(x, 1) == byte_bit(y, 1));
    assert(byte_bit(x, 2) == byte_bit(y, 2));
    assert(byte_bit(x, 3) == byte_bit(y, 3));
    assert(byte_bit(x, 4) == byte_bit(y, 4));
    assert(byte_bit(x, 5) == byte_bit(y, 5));
    assert(byte_bit(x, 6) == byte_bit(y, 6));
    assert(byte_bit(x, 7) == byte_bit(y, 7));
    assert(x == y) by (bit_vector)
        requires
            (x >> 7u8) & 1 == (y >> 7u8) & 1,
            (x >> 6u8) & 1 == (y >> 6u8) & 1,
            (x >> 5u8) & 1 == (y >> 5u8) & 1,
            (x >> 4u8) & 1 == (y >> 4u8) & 1,
            (x >> 3u8) & 1 == (y >> 3u8) & 1,
            (x >> 2u8) & 1 == (y >> 2u8) & 1,
            (x >> 1u8) & 1 == (y >> 1u8) & 1,
            (x >> 0u8) & 1 == (y >> 0u8) & 1,
    ;
}

/// Two 32-byte sequences that agree on all 256 bits are equal.
pub proof fn lemma_bits_determine(a: Seq<u8>, b: Seq<u8>)
    requires
        a.len() == 32,
        b.len() == 32,
        agree_below(a, b, 256),
    ensures
        a == b,
{
    assert forall|bi: int| 0 <= bi < 32 implies a[bi] == b[bi] by {
        assert forall|j: int| 0 <= j < 8 implies byte_bit(a[bi], j) == byte_bit(b[bi], j) by {
            let i = 8 * bi + j;
            assert(0 <= i < 256);
            assert(bit_of(a, i) == bit_of(b, i));
            assert(i / 8 == bi && i % 8 == j) by (nonlinear_arith)
                requires
                    i == 8 * bi + j,
                    0 <= j < 8,
            ;
        }
        lemma_bits_determine_byte(a[bi], b[bi]);
    }
    assert(a =~= b);
}

/// Two distinct 32-byte sequences that agree on every bit below `level` must
/// still have a bit left to diverge at, so `level` is below 256.
pub proof fn lemma_diverge(a: Seq<u8>, b: Seq<u8>, level: int)
    requires
        a.len() == 32,
        b.len() == 32,
        a != b,
        0 <= level,
        agree_below(a, b, level),
    ensures
        level < 256,
{
    if level >= 256 {
        assert(agree_below(a, b, 256));
        lemma_bits_determine(a, b);
    }
}

/// A fixed-length byte sequence produced by a one-way hash function; the unit
/// of identity and aggregation throughout the trie.
pub struct HashBytes {
    bytes: Vec<u8>,
}

impl View for HashBytes {
    type V = Seq<u8>;

    closed spec fn view(&self) -> Seq<u8> {
        self.bytes@
    }
}

impl HashBytes {
    pub fn new(bytes: Vec<u8>) -> (r: HashBytes)
        ensures
            r@ == bytes@,
    {
        HashBytes { bytes }
    }

    pub fn bytes(&self) -> (r: &Vec<u8>)
        ensures
            r@ == self@,
    {
        &self.bytes
    }

    /// The bit at `index`, most-significant-bit first within each byte.
    pub fn bit(&self, index: usize) -> (r: u8)
        requires
            index < 8 * self@.len(),
        ensures
            r == bit_of(self@, index as int),
    {
        let byte_index = index / 8;
        let bit_index = index % 8;
        proof {
            assert(index / 8 < self.bytes@.len()) by (nonlinear_arith)
                requires
                    index < 8 * self.bytes@.len(),
            ;
        }
        (self.bytes[byte_index] >> ((7 - bit_index) as u8)) & 1
    }

    /// A copy of this digest with the same bytes.
    pub fn duplicate(&self) -> (r: HashBytes)
        ensures
            r@ == self@,
    {
        HashBytes { bytes: copy_bytes(&self.bytes) }
    }
}

/// A fresh vector holding the same bytes.
pub fn copy_bytes(src: &Vec<u8>) -> (r: Vec<u8>)
    ensures
        r@ == src@,
{
    let mut r: Vec<u8> = Vec::new();
    let mut i: usize = 0;
    while i < src.len()
        invariant
            i <= src.len(),
            r@ == src@.subrange(0, i as int),
        decreases src.len() - i,
    {
        r.push(src[i]);
        i = i + 1;
        proof {
            assert(r@ =~= src@.subrange(0, i as int));
        }
    }
    proof {
        assert(r@ =~= src@);
    }
    r
}

/// Appends all bytes of `src` to `dst`.
pub fn push_all(dst: &mut Vec<u8>, src: &Vec<u8>)
    ensures
        final(dst)@ == old(dst)@ + src@,
{
    let mut i: usize = 0;
    while i < src.len()
        invariant
            i <= src.len(),
            dst@ == old(dst)@ + src@.subrange(0, i as int),
        decreases src.len() - i,
    {
        dst.push(src[i]);
        i = i + 1;
        proof {
            assert(old(dst)@ + src@.subrange(0, i - 1) + seq![src@[i - 1]] =~= old(dst)@
                + src@.subrange(0, i as int));
        }
    }
    proof {
        assert(src@.subrange(0, src@.len() as int) =~= src@);
    }
}

/// A bit is zero or one.
pub proof fn lemma_bit_01(s: Seq<u8>, i: int)
    ensures
        bit_of(s, i) == 0 || bit_of(s, i) == 1,
{
    let x = s[i / 8];
    let j = (7 - (i % 8)) as u8;
    assert((x >> j) & 1 == 0 || (x >> j) & 1 == 1) by (bit_vector);
}

/// Whether two byte vectors hold the same bytes.
pub fn bytes_equal(a: &Vec<u8>, b: &Vec<u8>) -> (r: bool)
    ensures
        r == (a@ == b@),
{
    if a.len() != b.len() {
        proof {
            assert(a@ != b@);
        }
        return false;
    }
    let mut i: usize = 0;
    while i < a.len()
        invariant
            i <= a.len(),
            a@.len() == b@.len(),
            forall|j: int| 0 <= j < i ==> a@[j] == b@[j],
        decreases a.len() - i,
    {
        if a[i] != b[i] {
            proof {
                assert(a@[i as int] != b@[i as int]);
            }
            return false;
        }
        i = i + 1;
    }
    proof {
        assert(a@ =~= b@);
    }
    true
}

/// The ASCII decimal digits of a nonnegative integer, most significant first.
pub open spec fn dec_digits(v: nat) -> Seq<u8>
    decreases v,
{
    if v < 10 {
        seq![(48 + v) as u8]
    } else {
        dec_digits(v / 10).push((48 + v % 10) as u8)
    }
}

/// The ASCII decimal representation of an i32, with a leading '-' when
/// negative.
pub open spec fn dec_bytes_i32(n: i32) -> Seq<u8> {
    if n < 0 {
        seq![45u8] + dec_digits((-(n as int)) as nat)
    } else {
        dec_digits(n as nat)
    }
}

/// The ASCII decimal representation of a usize.
pub open spec fn dec_bytes_usize(n: usize) -> Seq<u8> {
    dec_digits(n as nat)
}

/// Relies on i32's Display implementation: the decimal representation of the
/// value, with a leading '-' when negative.
#[verifier::external_body]
fn i32_dec_bytes(n: i32) -> (r: Vec<u8>)
    ensures
        r@ == dec_bytes_i32(n),
{
    n.to_string().into_bytes()
}

/// Relies on usize's Display implementation: the decimal representation of
/// the value.
#[verifier::external_body]
fn usize_dec_bytes(n: usize) -> (r: Vec<u8>)
    ensures
        r@ == dec_bytes_usize(n),
{
    n.to_string().into_bytes()
}

/// Anything that can produce a digest from itself. The trie places no
/// constraint on keys beyond determinism and a fixed digest length.
pub trait Hashable {
    /// The digest of this key, as a mathematical function of the key alone.
    spec fn hash_spec(&self) -> Seq<u8>;

    /// The digest of this key.
    fn hash(&self) -> (r: HashBytes)
        ensures
            r@ == self.hash_spec(),
            r@.len() == 32,
    ;

    /// The digest of this key, as raw bytes.
    fn raw_hash(&self) -> (r: Vec<u8>)
        ensures
            r@ == self.hash_spec(),
            r@.len() == 32,
    ;
}

impl Hashable for i32 {
    open spec fn hash_spec(&self) -> Seq<u8> {
        sha256_of(dec_bytes_i32(*self))
    }

    fn hash(&self) -> (r: HashBytes) {
        HashBytes::new(self.raw_hash())
    }

    fn raw_hash(&self) -> (r: Vec<u8>) {
        let b = i32_dec_bytes(*self);
        sha256_bytes(b.as_slice())
    }
}

impl Hashable for usize {
    open spec fn hash_spec(&self) -> Seq<u8> {
        sha256_of(dec_bytes_usize(*self))
    }

    fn hash(&self) -> (r: HashBytes) {
        HashBytes::new(self.raw_hash())
    }

    fn raw_hash(&self) -> (r: Vec<u8>) {
        let b = usize_dec_bytes(*self);
        sha256_bytes(b.as_slice())
    }
}

impl Hashable for Vec<u8> {
    open spec fn hash_spec(&self) -> Seq<u8> {
        sha256_of(self@)
    }

    fn hash(&self) -> (r: HashBytes) {
        HashBytes::new(self.raw_hash())
    }

    fn raw_hash(&self) -> (r: Vec<u8>) {
        sha256_bytes(self.as_slice())
    }
}

} // verus!
