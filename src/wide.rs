use vstd::prelude::*;

verus! {

/// Two to the sixty-fourth power, the radix of a word.
#[verifier::inline]
pub open spec fn radix() -> int {
    0x1_0000_0000_0000_0000
}

/// Two to the 256th power, the modulus of a four-word counter.
#[verifier::inline]
pub open spec fn modulus() -> int {
    radix() * radix() * radix() * radix()
}

/// The unsigned integer held by four words, least significant first.
pub open spec fn words_val(w: Seq<u64>) -> int {
    w[0] + radix() * (w[1] + radix() * (w[2] + radix() * w[3]))
}

/// The four words, least significant first, that hold `v` modulo 2^256.
pub open spec fn words_of(v: int) -> Seq<u64> {
    seq![
        (v % radix()) as u64,
        ((v / radix()) % radix()) as u64,
        ((v / (radix() * radix())) % radix()) as u64,
        ((v / (radix() * radix() * radix())) % radix()) as u64,
    ]
}

/// The little-endian 64-bit word at `off` in `b`.
pub open spec fn u64_le(b: Seq<u8>, off: int) -> u64 {
    (b[off] as u64) | ((b[off + 1] as u64) << 8u64) | ((b[off + 2] as u64) << 16u64) | ((b[off
        + 3] as u64) << 24u64) | ((b[off + 4] as u64) << 32u64) | ((b[off + 5] as u64) << 40u64)
        | ((b[off + 6] as u64) << 48u64) | ((b[off + 7] as u64) << 56u64)
}

/// The eight little-endian bytes of `x`.
pub open spec fn u64_le_bytes(x: u64) -> Seq<u8> {
    Seq::new(8, |j: int| ((x >> (8 * j) as u64) & 0xff) as u8)
}

/// The little-endian bytes of a sequence of words, one after another.
pub open spec fn words_le_bytes(w: Seq<u64>) -> Seq<u8> {
    Seq::new(8 * w.len(), |i: int| u64_le_bytes(w[i / 8])[i % 8])
}

/// The words of a 32-byte block, each read little-endian.
pub open spec fn block_words(b: Seq<u8>) -> Seq<u64> {
    Seq::new(4, |i: int| u64_le(b, 8 * i))
}

/// Four words hold a value below 2^256.
pub proof fn lemma_words_val_bounds(w: Seq<u64>)
    requires
        w.len() == 4,
    ensures
        0 <= words_val(w) < modulus(),
{
}

/// The words of a counter are recovered from its value.
pub proof fn lemma_words_of_val(w: Seq<u64>)
    requires
        w.len() == 4,
    ensures
        words_of(words_val(w)) == w,
{
    let b = radix();
    let v = words_val(w);
    let r1 = w[1] + b * w[2] + b * b * w[3];
    let r2 = w[2] + b * w[3];
    assert(v == w[0] + b * r1);
    vstd::arithmetic::div_mod::lemma_fundamental_div_mod_converse(v, b, r1, w[0] as int);
    assert(r1 == w[1] + b * r2);
    vstd::arithmetic::div_mod::lemma_fundamental_div_mod_converse(r1, b, r2, w[1] as int);
    vstd::arithmetic::div_mod::lemma_fundamental_div_mod_converse(r2, b, w[3] as int, w[2] as int);
    vstd::arithmetic::div_mod::lemma_div_denominator(v, b, b);
    vstd::arithmetic::div_mod::lemma_div_denominator(v, b * b, b);
    vstd::arithmetic::div_mod::lemma_div_denominator(r1, b, b);
    assert(v / (b * b) == r2);
    assert(v / (b * b * b) == w[3] as int);
    vstd::arithmetic::div_mod::lemma_small_mod(w[3] as nat, b as nat);
    assert(words_of(v) =~= w);
}

/// Adds `x`, `y` and an incoming carry; returns the word and the outgoing carry.
fn add_with_carry(x: u64, y: u64, carry: bool) -> (r: (u64, bool))
    ensures
        r.0 + radix() * (if r.1 { 1int } else { 0int }) == x + y + (if carry { 1int } else { 0int }),
{
    let s1 = x.wrapping_add(y);
    let c1 = s1 < x;
    let s2 = s1.wrapping_add(if carry { 1u64 } else { 0u64 });
    let c2 = s2 < s1;
    (s2, c1 || c2)
}

/// Adds two four-word counters with the carry passed from each word to the next,
/// dropping the carry out of the most significant word.
pub fn add_words(a: &[u64; 4], b: &[u64; 4]) -> (r: [u64; 4])
    ensures
        words_val(r@) == (words_val(a@) + words_val(b@)) % modulus(),
{
    let (r0, c0) = add_with_carry(a[0], b[0], false);
    let (r1, c1) = add_with_carry(a[1], b[1], c0);
    let (r2, c2) = add_with_carry(a[2], b[2], c1);
    let (r3, c3) = add_with_carry(a[3], b[3], c2);
    let r: [u64; 4] = [r0, r1, r2, r3];
    proof {
        let k = if c3 { 1int } else { 0int };
        assert(words_val(r@) + modulus() * k == words_val(a@) + words_val(b@));
        lemma_words_val_bounds(r@);
        vstd::arithmetic::div_mod::lemma_fundamental_div_mod_converse(
            words_val(a@) + words_val(b@),
            modulus(),
            k,
            words_val(r@),
        );
    }
    r
}


/// Reads the little-endian 64-bit word at `off`.
pub fn read_u64_le(b: &[u8], off: usize) -> (r: u64)
    requires
        off + 8 <= b@.len(),
    ensures
        r == u64_le(b@, off as int),
{
    (b[off] as u64) | ((b[off + 1] as u64) << 8u64) | ((b[off + 2] as u64) << 16u64) | ((b[off
        + 3] as u64) << 24u64) | ((b[off + 4] as u64) << 32u64) | ((b[off + 5] as u64) << 40u64)
        | ((b[off + 6] as u64) << 48u64) | ((b[off + 7] as u64) << 56u64)
}

/// The four little-endian words of a 32-byte block.
pub fn read_block_words(b: &[u8; 32]) -> (r: [u64; 4])
    ensures
        r@ == block_words(b@),
{
    let s = b.as_slice();
    let r: [u64; 4] = [read_u64_le(s, 0), read_u64_le(s, 8), read_u64_le(s, 16), read_u64_le(s, 24)];
    assert(r@ =~= block_words(b@));
    r
}

/// Writes four words little-endian into a 32-byte block.
pub fn write_block_words(w: &[u64; 4]) -> (r: [u8; 32])
    ensures
        r@ == words_le_bytes(w@),
{
    let mut r: [u8; 32] = [0u8; 32];
    let mut i: usize = 0;
    while i < 32
        invariant
            i <= 32,
            forall|j: int| 0 <= j < i ==> r@[j] == words_le_bytes(w@)[j],
        decreases 32 - i,
    {
        let x = w[i / 8];
        let sh: u64 = (8 * (i % 8)) as u64;
        r[i] = ((x >> sh) & 0xff) as u8;
        i = i + 1;
    }
    assert(r@ =~= words_le_bytes(w@));
    r
}

/// Eight times `len`, as a four-word counter.
pub fn bit_length_words(len: usize) -> (r: [u64; 4])
    ensures
        words_val(r@) == 8 * len,
{
    let x = len as u64;
    let lo = x << 3u64;
    let hi = x >> 61u64;
    assert(lo as int + radix() * hi as int == 8 * x as int) by (bit_vector)
        requires
            lo == x << 3u64,
            hi == x >> 61u64,
    ;
    [lo, hi, 0, 0]
}

} // verus!
