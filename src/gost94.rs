use vstd::prelude::*;
use crate::buffer::{fed, lemma_fed_flatten, BlockBuffer};
use crate::wide::{
    add_words, bit_length_words, block_words, lemma_words_of_val, lemma_words_val_bounds, modulus,
    read_block_words, words_le_bytes, words_of, words_val, write_block_words,
};

verus! {

/// A 32-byte GOST R 34.11-94 block or hash value.
pub type Block = [u8; 32];

/// Eight substitution tables of sixteen entries each.
pub type SBox = [[u8; 16]; 8];

/// The four bits of `a` at nibble position `i`.
pub open spec fn nibble(a: u32, i: nat) -> u32 {
    (a >> (4 * i) as u32) & 0xf
}

/// Substitution of the low `n` nibbles of `a` through the tables, summed with wrap-around.
pub open spec fn sbox_acc(a: u32, s: SBox, n: nat) -> u32
    decreases n,
{
    if n == 0 {
        0
    } else {
        let i = (n - 1) as nat;
        ((sbox_acc(a, s, i) + ((s[i as int][nibble(a, i) as int] as u32) << (4 * i) as u32))
            % 0x1_0000_0000) as u32
    }
}

pub open spec fn sbox_spec(a: u32, s: SBox) -> u32 {
    sbox_acc(a, s, 8)
}

pub fn sbox(a: u32, s: &SBox) -> (r: u32)
    ensures
        r == sbox_spec(a, *s),
{
    let mut v: u32 = 0;
    let mut i: usize = 0;
    while i < 8
        invariant
            i <= 8,
            v == sbox_acc(a, *s, i as nat),
        decreases 8 - i,
    {
        let shft: u32 = 4 * i as u32;
        let k: u32 = (a & (0xfu32 << shft)) >> shft;
        assert(k == nibble(a, i as nat)) by (bit_vector)
            requires
                k == (a & (0xfu32 << shft)) >> shft,
                shft == 4 * i,
                i < 8,
        ;
        assert(k < 16) by (bit_vector)
            requires
                k == (a & (0xfu32 << shft)) >> shft,
                shft < 32,
        ;
        let t: u32 = (s[i][k as usize] as u32) << shft;
        assert(t == ((s[i as int][nibble(a, i as nat) as int] as u32) << (4 * (i as nat)) as u32));
        v = v.wrapping_add(t);
        i = i + 1;
    }
    v
}


/// Round function of the block cipher: add the key, substitute, rotate left by 11 bits.
pub open spec fn g_spec(a: u32, k: u32, s: SBox) -> u32 {
    let t = sbox_spec(((a + k) % 0x1_0000_0000) as u32, s);
    (t << 11u32) | (t >> 21u32)
}

pub fn g(a: u32, k: u32, s: &SBox) -> (r: u32)
    ensures
        r == g_spec(a, k, *s),
{
    let t = sbox(a.wrapping_add(k), s);
    (t << 11u32) | (t >> 21u32)
}

/// The little-endian 32-bit word at `off` in `b`.
pub open spec fn u32_le(b: Seq<u8>, off: int) -> u32 {
    (b[off] as u32) | ((b[off + 1] as u32) << 8u32) | ((b[off + 2] as u32) << 16u32) | ((
    b[off + 3] as u32) << 24u32)
}

/// The four little-endian bytes of `x`.
pub open spec fn u32_le_bytes(x: u32) -> Seq<u8> {
    seq![(x & 0xff) as u8, ((x >> 8u32) & 0xff) as u8, ((x >> 16u32) & 0xff) as u8, ((x >> 24u32) & 0xff) as u8]
}

/// Index of the key word used in cipher round `r`: three forward passes, then one reversed.
pub open spec fn round_key(r: nat) -> int {
    if r < 24 {
        (r % 8) as int
    } else {
        31 - r
    }
}

/// The cipher's key as eight little-endian 32-bit words.
pub open spec fn key_words(key: Seq<u8>) -> Seq<u32> {
    Seq::new(8, |i: int| u32_le(key, 4 * i))
}

/// The two halves after `r` Feistel rounds starting from `(a, b)`.
pub open spec fn feistel(a: u32, b: u32, k: Seq<u32>, s: SBox, r: nat) -> (u32, u32)
    decreases r,
{
    if r == 0 {
        (a, b)
    } else {
        let (a1, b1) = feistel(a, b, k, s, (r - 1) as nat);
        (b1 ^ g_spec(a1, k[round_key((r - 1) as nat)], s), a1)
    }
}

/// GOST 28147-89 encryption of the eight bytes `msg` under the 32-byte `key`.
pub open spec fn encrypt_spec(msg: Seq<u8>, key: Seq<u8>, s: SBox) -> Seq<u8> {
    let (a, b) = feistel(u32_le(msg, 0), u32_le(msg, 4), key_words(key), s, 32);
    u32_le_bytes(b) + u32_le_bytes(a)
}

fn read_u32_le(b: &Block, off: usize) -> (r: u32)
    requires
        off + 4 <= 32,
    ensures
        r == u32_le(b@, off as int),
{
    (b[off] as u32) | ((b[off + 1] as u32) << 8u32) | ((b[off + 2] as u32) << 16u32) | ((
    b[off + 3] as u32) << 24u32)
}

fn write_u32_le(b: &mut Block, off: usize, x: u32)
    requires
        off + 4 <= 32,
    ensures
        final(b)@ == old(b)@.take(off as int) + u32_le_bytes(x) + old(b)@.skip(off + 4),
{
    b[off] = (x & 0xff) as u8;
    b[off + 1] = ((x >> 8u32) & 0xff) as u8;
    b[off + 2] = ((x >> 16u32) & 0xff) as u8;
    b[off + 3] = ((x >> 24u32) & 0xff) as u8;
    assert(b@ =~= old(b)@.take(off as int) + u32_le_bytes(x) + old(b)@.skip(off + 4));
}

/// Encrypts the eight bytes of `msg` at `off` in place.
fn encrypt(msg: &mut Block, off: usize, key: &Block, sbox: &SBox)
    requires
        off + 8 <= 32,
    ensures
        final(msg)@ == old(msg)@.take(off as int) + encrypt_spec(
            old(msg)@.subrange(off as int, off + 8),
            key@,
            *sbox,
        ) + old(msg)@.skip(off + 8),
{
    let ghost m8 = msg@.subrange(off as int, off + 8);
    let mut k: [u32; 8] = [0u32; 8];
    let mut i: usize = 0;
    while i < 8
        invariant
            i <= 8,
            forall|j: int| 0 <= j < i ==> k[j] == key_words(key@)[j],
        decreases 8 - i,
    {
        k[i] = read_u32_le(key, 4 * i);
        i = i + 1;
    }
    assert(k@ =~= key_words(key@));
    let mut a = read_u32_le(msg, off);
    let mut b = read_u32_le(msg, off + 4);
    assert(a == u32_le(m8, 0) && b == u32_le(m8, 4));
    let mut r: usize = 0;
    while r < 32
        invariant
            r <= 32,
            k@ == key_words(key@),
            (a, b) == feistel(u32_le(m8, 0), u32_le(m8, 4), k@, *sbox, r as nat),
        decreases 32 - r,
    {
        let ki: usize = if r < 24 { r % 8 } else { 31 - r };
        let t = b ^ g(a, k[ki], sbox);
        b = a;
        a = t;
        r = r + 1;
    }
    write_u32_le(msg, off, b);
    write_u32_le(msg, off + 4, a);
    assert(msg@ =~= old(msg)@.take(off as int) + encrypt_spec(m8, key@, *sbox) + old(msg)@.skip(off + 8));
}


/// The fixed constant mixed into the third key.
pub const C: Block = [
    0x00, 0xff, 0x00, 0xff, 0x00, 0xff, 0x00, 0xff,
    0xff, 0x00, 0xff, 0x00, 0xff, 0x00, 0xff, 0x00,
    0x00, 0xff, 0xff, 0x00, 0xff, 0x00, 0x00, 0xff,
    0xff, 0x00, 0x00, 0x00, 0xff, 0xff, 0x00, 0xff,
];

/// Bytewise exclusive or of two 32-byte values.
pub open spec fn xor_spec(a: Seq<u8>, b: Seq<u8>) -> Seq<u8> {
    Seq::new(32, |i: int| a[i] ^ b[i])
}

/// Transform A: shift down by eight bytes, feeding back the xor of the two lowest words.
pub open spec fn a_spec(x: Seq<u8>) -> Seq<u8> {
    Seq::new(32, |i: int| if i < 24 { x[i + 8] } else { x[i - 24] ^ x[i - 16] })
}

/// Transform P: the byte transposition `out[i + 4k] = y[8i + k]`.
pub open spec fn p_spec(y: Seq<u8>) -> Seq<u8> {
    Seq::new(32, |j: int| y[8 * (j % 4) + j / 4])
}

/// One step of the linear feedback shift `psi` over 16-bit words.
pub open spec fn psi_spec(b: Seq<u8>) -> Seq<u8> {
    Seq::new(
        32,
        |i: int|
            if i < 30 {
                b[i + 2]
            } else if i == 30 {
                b[0] ^ b[2] ^ b[4] ^ b[6] ^ b[24] ^ b[30]
            } else {
                b[1] ^ b[3] ^ b[5] ^ b[7] ^ b[25] ^ b[31]
            },
    )
}

/// `psi` applied `n` times.
pub open spec fn psi_n(b: Seq<u8>, n: nat) -> Seq<u8>
    decreases n,
{
    if n == 0 {
        b
    } else {
        psi_spec(psi_n(b, (n - 1) as nat))
    }
}

pub fn x(a: &Block, b: &Block) -> (r: Block)
    ensures
        r@ == xor_spec(a@, b@),
{
    let mut out: Block = [0u8; 32];
    let mut i: usize = 0;
    while i < 32
        invariant
            i <= 32,
            forall|j: int| 0 <= j < i ==> out[j] == a[j] ^ b[j],
        decreases 32 - i,
    {
        out[i] = a[i] ^ b[i];
        i = i + 1;
    }
    assert(out@ =~= xor_spec(a@, b@));
    out
}

pub fn x_mut(a: &mut Block, b: &Block)
    ensures
        final(a)@ == xor_spec(old(a)@, b@),
{
    let ghost a0 = a@;
    let mut i: usize = 0;
    while i < 32
        invariant
            i <= 32,
            forall|j: int| 0 <= j < i ==> a[j] == a0[j] ^ b[j],
            forall|j: int| i <= j < 32 ==> a[j] == a0[j],
        decreases 32 - i,
    {
        a[i] = a[i] ^ b[i];
        i = i + 1;
    }
    assert(a@ =~= xor_spec(a0, b@));
}

pub fn a(x: Block) -> (r: Block)
    ensures
        r@ == a_spec(x@),
{
    let mut out: Block = [0u8; 32];
    let mut i: usize = 0;
    while i < 24
        invariant
            i <= 24,
            forall|j: int| 0 <= j < i ==> out[j] == x[j + 8],
        decreases 24 - i,
    {
        out[i] = x[i + 8];
        i = i + 1;
    }
    let mut i: usize = 0;
    while i < 8
        invariant
            i <= 8,
            forall|j: int| 0 <= j < 24 ==> out[j] == x[j + 8],
            forall|j: int| 24 <= j < 24 + i ==> out[j] == x[j - 24] ^ x[j - 16],
        decreases 8 - i,
    {
        out[24 + i] = x[i] ^ x[i + 8];
        i = i + 1;
    }
    assert(out@ =~= a_spec(x@));
    out
}

pub fn p(y: Block) -> (r: Block)
    ensures
        r@ == p_spec(y@),
{
    let mut out: Block = [0u8; 32];
    let mut i: usize = 0;
    while i < 4
        invariant
            i <= 4,
            forall|j: int| 0 <= j < 32 && j % 4 < i ==> out[j] == y[8 * (j % 4) + j / 4],
        decreases 4 - i,
    {
        let mut k: usize = 0;
        while k < 8
            invariant
                i < 4,
                k <= 8,
                forall|j: int| 0 <= j < 32 && j % 4 < i ==> out[j] == y[8 * (j % 4) + j / 4],
                forall|j: int| 0 <= j < 32 && j % 4 == i && j / 4 < k ==> out[j] == y[8 * (j % 4) + j / 4],
            decreases 8 - k,
        {
            out[i + 4 * k] = y[8 * i + k];
            assert((i + 4 * k) as int % 4 == i && (i + 4 * k) as int / 4 == k);
            k = k + 1;
        }
        i = i + 1;
    }
    assert(out@ =~= p_spec(y@));
    out
}

pub fn psi(block: &mut Block)
    ensures
        final(block)@ == psi_spec(old(block)@),
{
    let b = *block;
    let mut out: Block = [0u8; 32];
    let mut i: usize = 0;
    while i < 30
        invariant
            i <= 30,
            forall|j: int| 0 <= j < i ==> out[j] == b[j + 2],
        decreases 30 - i,
    {
        out[i] = b[i + 2];
        i = i + 1;
    }
    out[30] = b[0] ^ b[2] ^ b[4] ^ b[6] ^ b[24] ^ b[30];
    out[31] = b[1] ^ b[3] ^ b[5] ^ b[7] ^ b[25] ^ b[31];
    assert(out@ =~= psi_spec(b@));
    *block = out;
}


/// The hash mixing step: `psi^61(h ^ psi(m ^ psi^12(s)))`.
pub open spec fn shuffle_spec(h: Seq<u8>, m: Seq<u8>, s: Seq<u8>) -> Seq<u8> {
    psi_n(xor_spec(h, psi_spec(xor_spec(psi_n(s, 12), m))), 61)
}

/// The first key and the two values from which the following keys are derived.
pub open spec fn key_u(h: Seq<u8>, j: nat) -> Seq<u8>
    decreases j,
{
    if j == 0 {
        h
    } else if j == 2 {
        xor_spec(a_spec(key_u(h, 1)), C@)
    } else {
        a_spec(key_u(h, (j - 1) as nat))
    }
}

pub open spec fn key_v(m: Seq<u8>, j: nat) -> Seq<u8>
    decreases j,
{
    if j == 0 {
        m
    } else {
        a_spec(a_spec(key_v(m, (j - 1) as nat)))
    }
}

/// The `j`-th of the four encryption keys derived from the hash and the block.
pub open spec fn key_spec(h: Seq<u8>, m: Seq<u8>, j: nat) -> Seq<u8> {
    p_spec(xor_spec(key_u(h, j), key_v(m, j)))
}

/// The four 8-byte words of `h`, each encrypted under its own key.
pub open spec fn encrypted_spec(h: Seq<u8>, m: Seq<u8>, s: SBox) -> Seq<u8> {
    encrypt_spec(h.subrange(0, 8), key_spec(h, m, 0), s) + encrypt_spec(
        h.subrange(8, 16),
        key_spec(h, m, 1),
        s,
    ) + encrypt_spec(h.subrange(16, 24), key_spec(h, m, 2), s) + encrypt_spec(
        h.subrange(24, 32),
        key_spec(h, m, 3),
        s,
    )
}

/// The compression function: the hash value after absorbing block `m`.
#[verifier::opaque]
pub open spec fn f_spec(h: Seq<u8>, m: Seq<u8>, s: SBox) -> Seq<u8> {
    shuffle_spec(h, m, encrypted_spec(h, m, s))
}

/// Block `i` of `msg`.
pub open spec fn block_at(msg: Seq<u8>, i: nat) -> Seq<u8> {
    msg.subrange(32 * i as int, 32 * i as int + 32)
}

/// The hash value after compressing the first `k` blocks of `msg`, starting from `h0`.
pub open spec fn chain(s: SBox, h0: Seq<u8>, msg: Seq<u8>, k: nat) -> Seq<u8>
    decreases k,
{
    if k == 0 {
        h0
    } else {
        f_spec(chain(s, h0, msg, (k - 1) as nat), block_at(msg, (k - 1) as nat), s)
    }
}

/// The sum of the first `k` blocks of `msg`, each read as a little-endian 256-bit number.
pub open spec fn block_sum(msg: Seq<u8>, k: nat) -> int
    decreases k,
{
    if k == 0 {
        0
    } else {
        block_sum(msg, (k - 1) as nat) + words_val(block_words(block_at(msg, (k - 1) as nat)))
    }
}

/// `msg` followed by zeros up to a multiple of 32 bytes.
pub open spec fn zero_padded(msg: Seq<u8>) -> Seq<u8> {
    if msg.len() % 32 == 0 {
        msg
    } else {
        msg + Seq::new((32 - msg.len() % 32) as nat, |i: int| 0u8)
    }
}

/// The GOST R 34.11-94 digest of `msg` under S-box `s` and initial value `h0`: the
/// compression of each zero-padded block, then of the bit length, then of the sum of the
/// blocks, both as 256-bit little-endian numbers.
pub open spec fn gost94_digest(s: SBox, h0: Seq<u8>, msg: Seq<u8>) -> Seq<u8> {
    let p = zero_padded(msg);
    let k = p.len() / 32;
    let h = chain(s, h0, p, k);
    let h1 = f_spec(h, words_le_bytes(words_of(8 * msg.len() as int)), s);
    f_spec(h1, words_le_bytes(words_of(block_sum(p, k) % modulus())), s)
}

/// The chain over `k` blocks depends on the first `32 * k` bytes only.
pub proof fn lemma_chain_prefix(s: SBox, h0: Seq<u8>, x: Seq<u8>, y: Seq<u8>, k: nat)
    requires
        32 * k <= x.len(),
        32 * k <= y.len(),
        x.take(32 * k as int) == y.take(32 * k as int),
    ensures
        chain(s, h0, x, k) == chain(s, h0, y, k),
        block_sum(x, k) == block_sum(y, k),
    decreases k,
{
    if k > 0 {
        let j = (k - 1) as nat;
        assert(x.take(32 * j as int) =~= x.take(32 * k as int).take(32 * j as int));
        assert(y.take(32 * j as int) =~= y.take(32 * k as int).take(32 * j as int));
        lemma_chain_prefix(s, h0, x, y, j);
        assert(block_at(x, j) =~= x.take(32 * k as int).subrange(32 * j as int, 32 * j as int + 32));
        assert(block_at(y, j) =~= y.take(32 * k as int).subrange(32 * j as int, 32 * j as int + 32));
    }
}

/// The digest of a message fed in any number of chunks equals the digest of the whole
/// message fed at once.
pub proof fn lemma_chunking_invariance(s: SBox, h0: Seq<u8>, chunks: Seq<Seq<u8>>)
    ensures
        gost94_digest(s, h0, fed(Seq::empty(), chunks)) == gost94_digest(s, h0, chunks.flatten()),
{
    lemma_fed_flatten(Seq::empty(), chunks);
    assert(Seq::<u8>::empty() + chunks.flatten() =~= chunks.flatten());
}

/// A message whose length is a multiple of 32 gets no padding block: its digest compresses
/// its own blocks, then the length block, then the checksum block.
pub proof fn lemma_whole_blocks(s: SBox, h0: Seq<u8>, msg: Seq<u8>)
    requires
        msg.len() % 32 == 0,
    ensures
        gost94_digest(s, h0, msg) == f_spec(
            f_spec(
                chain(s, h0, msg, msg.len() / 32),
                words_le_bytes(words_of(8 * msg.len() as int)),
                s,
            ),
            words_le_bytes(words_of(block_sum(msg, msg.len() / 32) % modulus())),
            s,
        ),
{
}

/// A message of exactly one block is compressed once, then the length block (256 bits)
/// and the checksum block (the block itself) follow.
pub proof fn lemma_single_block(s: SBox, h0: Seq<u8>, msg: Seq<u8>)
    requires
        msg.len() == 32,
    ensures
        gost94_digest(s, h0, msg) == f_spec(
            f_spec(f_spec(h0, msg, s), words_le_bytes(words_of(256)), s),
            words_le_bytes(words_of(words_val(block_words(msg)))),
            s,
        ),
{
    lemma_whole_blocks(s, h0, msg);
    assert(block_at(msg, 0) =~= msg);
    reveal_with_fuel(chain, 2);
    reveal_with_fuel(block_sum, 2);
    assert(chain(s, h0, msg, 1) == f_spec(h0, msg, s));
    assert(block_sum(msg, 1) == words_val(block_words(msg)));
    assert(8 * msg.len() as int == 256);
    lemma_words_val_bounds(block_words(msg));
    vstd::arithmetic::div_mod::lemma_small_mod(
        words_val(block_words(msg)) as nat,
        modulus() as nat,
    );
}

/// The running state of a GOST R 34.11-94 computation: the S-box, the hash value, the
/// bit-length counter and the checksum.
pub struct Gost94State {
    pub s: SBox,
    pub h: Block,
    pub n: [u64; 4],
    pub sigma: [u64; 4],
}

impl Gost94State {
    /// Mixes the encrypted value `s` and the block `m` into the hash value.
    pub fn shuffle(&mut self, m: &Block, s: &Block)
        ensures
            final(self).h@ == shuffle_spec(old(self).h@, m@, s@),
            final(self).s == old(self).s,
            final(self).n == old(self).n,
            final(self).sigma == old(self).sigma,
    {
        let mut res: Block = *s;
        let mut i: usize = 0;
        while i < 12
            invariant
                i <= 12,
                res@ == psi_n(s@, i as nat),
            decreases 12 - i,
        {
            psi(&mut res);
            i = i + 1;
        }
        x_mut(&mut res, m);
        psi(&mut res);
        x_mut(&mut self.h, &res);
        let ghost h1 = self.h@;
        let mut i: usize = 0;
        while i < 61
            invariant
                i <= 61,
                self.h@ == psi_n(h1, i as nat),
                self.s == old(self).s,
                self.n == old(self).n,
                self.sigma == old(self).sigma,
            decreases 61 - i,
        {
            psi(&mut self.h);
            i = i + 1;
        }
    }

    /// The compression function: absorbs block `m` into the hash value.
    #[verifier::rlimit(40)]
    pub fn f(&mut self, m: &Block)
        ensures
            final(self).h@ == f_spec(old(self).h@, m@, old(self).s),
            final(self).s == old(self).s,
            final(self).n == old(self).n,
            final(self).sigma == old(self).sigma,
    {
        let ghost h0 = self.h@;
        let mut s: Block = self.h;
        let k = p(x(&self.h, m));
        encrypt(&mut s, 0, &k, &self.s);

        let u = a(self.h);
        let v = a(a(*m));
        let k = p(x(&u, &v));
        encrypt(&mut s, 8, &k, &self.s);

        let mut u = a(u);
        x_mut(&mut u, &C);
        let v = a(a(v));
        let k = p(x(&u, &v));
        encrypt(&mut s, 16, &k, &self.s);

        let u = a(u);
        let v = a(a(v));
        let k = p(x(&u, &v));
        encrypt(&mut s, 24, &k, &self.s);
        assert(s@ =~= encrypted_spec(h0, m@, self.s));
        self.shuffle(m, &s);
        proof {
            reveal(f_spec);
        }
    }

    /// Adds the block, read as four little-endian words, into the checksum.
    pub fn update_sigma(&mut self, m: &Block)
        ensures
            words_val(final(self).sigma@) == (words_val(old(self).sigma@) + words_val(
                block_words(m@),
            )) % modulus(),
            final(self).s == old(self).s,
            final(self).n == old(self).n,
            final(self).h == old(self).h,
    {
        let w = read_block_words(m);
        self.sigma = add_words(&self.sigma, &w);
    }

    /// Adds `8 * len` to the bit-length counter.
    pub fn update_n(&mut self, len: usize)
        requires
            words_val(old(self).n@) + 8 * len < modulus(),
        ensures
            words_val(final(self).n@) == words_val(old(self).n@) + 8 * len,
            final(self).s == old(self).s,
            final(self).sigma == old(self).sigma,
            final(self).h == old(self).h,
    {
        let w = bit_length_words(len);
        self.n = add_words(&self.n, &w);
        proof {
            lemma_words_val_bounds(old(self).n@);
            vstd::arithmetic::div_mod::lemma_small_mod(
                (words_val(old(self).n@) + 8 * len) as nat,
                modulus() as nat,
            );
        }
    }

    /// Compresses a whole block and adds it into the checksum.
    pub fn process_block(&mut self, block: &Block)
        ensures
            final(self).h@ == f_spec(old(self).h@, block@, old(self).s),
            words_val(final(self).sigma@) == (words_val(old(self).sigma@) + words_val(
                block_words(block@),
            )) % modulus(),
            final(self).s == old(self).s,
            final(self).n == old(self).n,
    {
        self.f(block);
        self.update_sigma(block);
    }
}

/// A GOST R 34.11-94 hasher for a given S-box and initial value.
pub struct Gost94 {
    buffer: BlockBuffer<32>,
    state: Gost94State,
    h0: Block,
    msg: Ghost<Seq<u8>>,
}

/// The sum of the first `k` blocks, reduced to the 256 bits the checksum keeps.
pub open spec fn checksum_of(msg: Seq<u8>, k: nat) -> int {
    block_sum(msg, k) % modulus()
}

impl Gost94 {
    /// The S-box this hasher was made with.
    pub closed spec fn sbox(&self) -> SBox {
        self.state.s
    }

    /// The initial value this hasher was made with.
    pub closed spec fn iv(&self) -> Seq<u8> {
        self.h0@
    }

    /// The bytes absorbed since the hasher was made or last finalized.
    pub closed spec fn message(&self) -> Seq<u8> {
        self.msg@
    }

    /// The 256-bit bit-length counter.
    pub closed spec fn length_words(&self) -> Seq<u64> {
        self.state.n@
    }

    /// The 256-bit checksum of the whole blocks absorbed.
    pub closed spec fn checksum_words(&self) -> Seq<u64> {
        self.state.sigma@
    }

    /// The hash value, counters and pending bytes are those that the S-box, the initial
    /// value and the message absorbed determine.
    pub closed spec fn wf(&self) -> bool {
        let m = self.msg@;
        let k = m.len() / 32;
        &&& self.buffer.wf()
        &&& self.buffer.pending() == m.skip(32 * k as int)
        &&& self.state.h@ == chain(self.state.s, self.h0@, m, k)
        &&& words_val(self.state.n@) == 8 * m.len()
        &&& words_val(self.state.sigma@) == checksum_of(m, k)
    }

    /// The length counter holds the number of bits absorbed, and the checksum holds the
    /// sum, modulo 2^256, of the whole blocks absorbed, each read as four little-endian
    /// 64-bit words with the carry passed upward.
    pub proof fn lemma_accumulators(&self)
        requires
            self.wf(),
        ensures
            words_val(self.length_words()) == 8 * self.message().len(),
            words_val(self.checksum_words()) == block_sum(
                self.message(),
                self.message().len() / 32,
            ) % modulus(),
            self.length_words().len() == 4,
            self.checksum_words().len() == 4,
    {
    }

    /// The running state: hash value, length counter, checksum and pending bytes.
    pub closed spec fn running_state(&self) -> (Seq<u8>, Seq<u64>, Seq<u64>, Seq<u8>) {
        (self.state.h@, self.state.n@, self.state.sigma@, self.buffer.pending())
    }

    /// Two well-formed hashers with the same S-box, initial value and message hold the
    /// same running state; so a hasher that was finalized, and holds the empty message
    /// again, goes on exactly as a newly made one.
    pub proof fn lemma_state_determined(&self, other: &Gost94)
        requires
            self.wf(),
            other.wf(),
            self.sbox() == other.sbox(),
            self.iv() == other.iv(),
            self.message() == other.message(),
        ensures
            self.running_state() == other.running_state(),
    {
        lemma_words_of_val(self.state.n@);
        lemma_words_of_val(other.state.n@);
        lemma_words_of_val(self.state.sigma@);
        lemma_words_of_val(other.state.sigma@);
    }

    /// Creates a hasher with S-box `s` and initial value `h`.
    pub fn new(s: SBox, h: Block) -> (r: Self)
        ensures
            r.wf(),
            r.sbox() == s,
            r.iv() == h@,
            r.message() == Seq::<u8>::empty(),
    {
        let r = Gost94 {
            buffer: BlockBuffer::new(),
            h0: h,
            state: Gost94State { s, h, n: [0u64; 4], sigma: [0u64; 4] },
            msg: Ghost(Seq::empty()),
        };
        assert(Seq::<u8>::empty().skip(0) =~= Seq::<u8>::empty());
        r
    }

    /// The length counter's words, least significant first.
    pub fn length_counter(&self) -> (r: [u64; 4])
        ensures
            r@ == self.length_words(),
    {
        self.state.n
    }

    /// The checksum's words, least significant first.
    pub fn checksum(&self) -> (r: [u64; 4])
        ensures
            r@ == self.checksum_words(),
    {
        self.state.sigma
    }
}

impl Gost94 {
    /// Absorbs `input`; the outcome depends on the concatenation of all inputs only.
    #[verifier::rlimit(40)]
    pub fn process(&mut self, input: &[u8])
        requires
            old(self).wf(),
            8 * (old(self).message().len() + input@.len()) < modulus(),
        ensures
            final(self).wf(),
            final(self).message() == old(self).message() + input@,
            final(self).sbox() == old(self).sbox(),
            final(self).iv() == old(self).iv(),
    {
        let ghost m0 = self.msg@;
        self.state.update_n(input.len());
        let mut i: usize = 0;
        while i < input.len()
            invariant
                i <= input@.len(),
                self.buffer.wf(),
                self.state.s == old(self).state.s,
                self.h0 == old(self).h0,
                self.msg@ == m0,
                words_val(self.state.n@) == 8 * (m0.len() + input@.len()),
                ({
                    let m = m0 + input@.take(i as int);
                    let k = m.len() / 32;
                    &&& self.buffer.pending() == m.skip(32 * k as int)
                    &&& self.state.h@ == chain(self.state.s, self.h0@, m, k)
                    &&& words_val(self.state.sigma@) == checksum_of(m, k)
                }),
            decreases input@.len() - i,
        {
            let ghost m = m0 + input@.take(i as int);
            let ghost k = m.len() / 32;
            let ghost sigma0 = self.state.sigma@;
            let (end, blk) = self.buffer.fill(input, i);
            let ghost m1 = m0 + input@.take(end as int);
            assert(m1 =~= m + input@.subrange(i as int, end as int));
            assert(m1.take(32 * k as int) =~= m.take(32 * k as int));
            proof {
                lemma_chain_prefix(self.state.s, self.h0@, m, m1, k);
            }
            match blk {
                Some(b) => {
                    assert(m1.len() == 32 * k + 32);
                    assert(m1.len() / 32 == k + 1);
                    assert(block_at(m1, k) =~= b@);
                    self.state.process_block(&b);
                    assert(m1.skip(32 * (k + 1) as int) =~= Seq::<u8>::empty());
                    proof {
                        lemma_words_val_bounds(block_words(b@));
                        vstd::arithmetic::div_mod::lemma_add_mod_noop(
                            block_sum(m1, k),
                            words_val(block_words(b@)),
                            modulus(),
                        );
                        vstd::arithmetic::div_mod::lemma_small_mod(
                            words_val(block_words(b@)) as nat,
                            modulus() as nat,
                        );
                        vstd::arithmetic::div_mod::lemma_mod_twice(block_sum(m1, k), modulus());
                    }
                },
                None => {
                    proof {
                        self.buffer.lemma_pending_len();
                    }
                    assert(m1.len() / 32 == k);
                    assert(m1.skip(32 * k as int) =~= m.skip(32 * k as int) + input@.subrange(
                        i as int,
                        end as int,
                    ));
                },
            }
            i = end;
        }
        self.msg = Ghost(m0 + input@);
        assert(input@.take(input@.len() as int) =~= input@);
    }

    /// Returns the digest of the message absorbed so far and starts a new message.
    pub fn fixed_result(&mut self) -> (r: Block)
        requires
            old(self).wf(),
        ensures
            r@ == gost94_digest(old(self).sbox(), old(self).iv(), old(self).message()),
            final(self).wf(),
            final(self).message() == Seq::<u8>::empty(),
            final(self).sbox() == old(self).sbox(),
            final(self).iv() == old(self).iv(),
    {
        let ghost m = self.msg@;
        let ghost k = m.len() / 32;
        let ghost p = zero_padded(m);
        let ghost s = self.state.s;
        proof {
            self.buffer.lemma_pending_len();
        }
        match self.buffer.pad_with_zeros() {
            Some(b) => {
                assert(m.len() % 32 != 0);
                assert(p.len() == 32 * k + 32);
                assert(p.take(32 * k as int) =~= m.take(32 * k as int));
                assert(block_at(p, k) =~= b@);
                proof {
                    lemma_chain_prefix(s, self.h0@, m, p, k);
                }
                self.state.process_block(&b);
                proof {
                    lemma_words_val_bounds(block_words(b@));
                    vstd::arithmetic::div_mod::lemma_add_mod_noop(
                        block_sum(p, k),
                        words_val(block_words(b@)),
                        modulus(),
                    );
                    vstd::arithmetic::div_mod::lemma_small_mod(
                        words_val(block_words(b@)) as nat,
                        modulus() as nat,
                    );
                    vstd::arithmetic::div_mod::lemma_mod_twice(block_sum(p, k), modulus());
                }
            },
            None => {
                assert(m.len() % 32 == 0);
            },
        }
        assert(self.state.h@ == chain(s, self.h0@, p, p.len() / 32));
        assert(words_val(self.state.sigma@) == block_sum(p, p.len() / 32) % modulus());
        proof {
            lemma_words_of_val(self.state.n@);
            lemma_words_of_val(self.state.sigma@);
        }
        let buf = write_block_words(&self.state.n);
        self.state.f(&buf);
        let buf = write_block_words(&self.state.sigma);
        self.state.f(&buf);
        let res = self.state.h;
        self.buffer = BlockBuffer::new();
        self.state.n = [0u64; 4];
        self.state.h = self.h0;
        self.state.sigma = [0u64; 4];
        self.msg = Ghost(Seq::empty());
        assert(Seq::<u8>::empty().skip(0) =~= Seq::<u8>::empty());
        res
    }
}

} // verus!
