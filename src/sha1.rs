use vstd::prelude::*;
use crate::buffer::{fed, lemma_fed_flatten, BlockBuffer};

verus! {

/// The state words after the SHA-1 compression function folds one 64-byte block into them.
pub uninterp spec fn sha1_compress_of(state: Seq<u32>, block: Seq<u8>) -> Seq<u32>;

/// Relies on sha1_asm::compress: it folds each given 64-byte block, in order, into the five
/// state words with the SHA-1 compression function; here it is given one block.
#[verifier::external_body]
fn compress_block(state: &mut [u32; 5], block: &[u8; 64])
    ensures
        final(state)@ == sha1_compress_of(old(state)@, block@),
{
    sha1_asm::compress(state, core::slice::from_ref(block))
}

/// The initial state words of SHA-1.
pub const H: [u32; 5] = [0x67452301, 0xEFCDAB89, 0x98BADCFE, 0x10325476, 0xC3D2E1F0];

/// Block `i` of `msg`.
pub open spec fn block_at(msg: Seq<u8>, i: nat) -> Seq<u8> {
    msg.subrange(64 * i as int, 64 * i as int + 64)
}

/// The state after compressing the first `k` blocks of `msg`, starting from `H`.
pub open spec fn chain(msg: Seq<u8>, k: nat) -> Seq<u32>
    decreases k,
{
    if k == 0 {
        H@
    } else {
        sha1_compress_of(chain(msg, (k - 1) as nat), block_at(msg, (k - 1) as nat))
    }
}

/// The eight big-endian bytes of `x`.
pub open spec fn u64_be_bytes(x: u64) -> Seq<u8> {
    Seq::new(8, |j: int| ((x >> (56 - 8 * j) as u64) & 0xff) as u8)
}

/// The four big-endian bytes of `x`.
pub open spec fn u32_be_bytes(x: u32) -> Seq<u8> {
    Seq::new(4, |j: int| ((x >> (24 - 8 * j) as u32) & 0xff) as u8)
}

/// The padding after a message of `len` bytes: a one bit, zeros up to 56 bytes modulo 64,
/// then the bit length modulo 2^64, big-endian.
pub open spec fn padding_spec(len: nat) -> Seq<u8> {
    seq![0x80u8] + Seq::new(((119 - len % 64) % 64) as nat, |i: int| 0u8) + u64_be_bytes(
        ((8 * len) % 0x1_0000_0000_0000_0000) as u64,
    )
}

/// The state words, each big-endian, one after another.
pub open spec fn output_spec(h: Seq<u32>) -> Seq<u8> {
    Seq::new(20, |i: int| u32_be_bytes(h[i / 4])[i % 4])
}

/// The SHA-1 digest of `msg`.
pub open spec fn sha1_digest(msg: Seq<u8>) -> Seq<u8> {
    let p = msg + padding_spec(msg.len());
    output_spec(chain(p, p.len() / 64))
}

/// The chain over `k` blocks depends on the first `64 * k` bytes only.
pub proof fn lemma_chain_prefix(x: Seq<u8>, y: Seq<u8>, k: nat)
    requires
        64 * k <= x.len(),
        64 * k <= y.len(),
        x.take(64 * k as int) == y.take(64 * k as int),
    ensures
        chain(x, k) == chain(y, k),
    decreases k,
{
    if k > 0 {
        let j = (k - 1) as nat;
        assert(x.take(64 * j as int) =~= x.take(64 * k as int).take(64 * j as int));
        assert(y.take(64 * j as int) =~= y.take(64 * k as int).take(64 * j as int));
        lemma_chain_prefix(x, y, j);
        assert(block_at(x, j) =~= x.take(64 * k as int).subrange(64 * j as int, 64 * j as int + 64));
        assert(block_at(y, j) =~= y.take(64 * k as int).subrange(64 * j as int, 64 * j as int + 64));
    }
}

/// The digest of a message fed in any number of chunks equals the digest of the whole
/// message fed at once.
pub proof fn lemma_chunking_invariance(chunks: Seq<Seq<u8>>)
    ensures
        sha1_digest(fed(Seq::empty(), chunks)) == sha1_digest(chunks.flatten()),
{
    lemma_fed_flatten(Seq::empty(), chunks);
    assert(Seq::<u8>::empty() + chunks.flatten() =~= chunks.flatten());
}

/// The padding always ends a block, and a message whose length is a multiple of 64 gets
/// one whole block of padding after its own blocks.
pub proof fn lemma_padding_fills_blocks(len: nat)
    ensures
        (len + padding_spec(len).len()) % 64 == 0,
        len % 64 == 0 ==> padding_spec(len).len() == 64,
{
}

/// The padding that ends a message of `len` bytes.
pub fn length_padding(len: u64) -> (r: Vec<u8>)
    ensures
        r@ == padding_spec(len as nat),
{
    let mut r: Vec<u8> = Vec::new();
    r.push(0x80u8);
    let z: u64 = (119 - len % 64) % 64;
    let mut i: u64 = 0;
    while i < z
        invariant
            i <= z,
            r@ == seq![0x80u8] + Seq::new(i as nat, |j: int| 0u8),
        decreases z - i,
    {
        r.push(0u8);
        i = i + 1;
        assert(r@ =~= seq![0x80u8] + Seq::new(i as nat, |j: int| 0u8));
    }
    let bits: u64 = len.wrapping_mul(8);
    assert(bits == (8 * len) % 0x1_0000_0000_0000_0000) by (nonlinear_arith)
        requires
            bits == (if 8 * len > u64::MAX { (8 * len) % 0x1_0000_0000_0000_0000 } else { 8 * len }),
    ;
    let ghost r0 = r@;
    let mut j: u64 = 0;
    while j < 8
        invariant
            j <= 8,
            r@ == r0 + u64_be_bytes(bits).take(j as int),
        decreases 8 - j,
    {
        r.push(((bits >> (56 - 8 * j)) & 0xff) as u8);
        j = j + 1;
        assert(r@ =~= r0 + u64_be_bytes(bits).take(j as int));
    }
    assert(u64_be_bytes(bits).take(8) =~= u64_be_bytes(bits));
    r
}

/// The state words written out big-endian.
pub fn output(h: &[u32; 5]) -> (r: [u8; 20])
    ensures
        r@ == output_spec(h@),
{
    let mut r: [u8; 20] = [0u8; 20];
    let mut i: usize = 0;
    while i < 20
        invariant
            i <= 20,
            forall|j: int| 0 <= j < i ==> r@[j] == output_spec(h@)[j],
        decreases 20 - i,
    {
        let x = h[i / 4];
        let sh: u32 = (24 - 8 * (i % 4)) as u32;
        r[i] = ((x >> sh) & 0xff) as u8;
        i = i + 1;
    }
    assert(r@ =~= output_spec(h@));
    r
}

/// A SHA-1 hasher.
pub struct Sha1 {
    h: [u32; 5],
    len: u64,
    buffer: BlockBuffer<64>,
    msg: Ghost<Seq<u8>>,
    absorbed: Ghost<Seq<u8>>,
}

impl Sha1 {
    /// The bytes absorbed so far.
    pub closed spec fn message(&self) -> Seq<u8> {
        self.msg@
    }

    /// The byte count and running state are those that the message determines.
    pub closed spec fn wf(&self) -> bool {
        self.absorbed@ == self.msg@ && self.len == self.msg@.len() && self.blocks_wf()
    }

    /// The buffer holds what follows the whole blocks of the bytes fed to the compression,
    /// and the state words are the chain over those blocks.
    closed spec fn blocks_wf(&self) -> bool {
        let a = self.absorbed@;
        let k = a.len() / 64;
        &&& self.buffer.wf()
        &&& self.buffer.pending() == a.skip(64 * k as int)
        &&& self.h@ == chain(a, k)
    }

    /// A hasher holding the empty message.
    pub fn new() -> (r: Self)
        ensures
            r.wf(),
            r.message() == Seq::<u8>::empty(),
    {
        let r = Sha1 {
            h: H,
            len: 0,
            buffer: BlockBuffer::new(),
            msg: Ghost(Seq::empty()),
            absorbed: Ghost(Seq::empty()),
        };
        assert(Seq::<u8>::empty().skip(0) =~= Seq::<u8>::empty());
        r
    }

    /// Feeds `input` through the buffer and compresses each completed block.
    fn absorb(&mut self, input: &[u8])
        requires
            old(self).blocks_wf(),
        ensures
            final(self).blocks_wf(),
            final(self).absorbed@ == old(self).absorbed@ + input@,
            final(self).msg == old(self).msg,
            final(self).len == old(self).len,
    {
        let ghost m0 = self.absorbed@;
        let mut i: usize = 0;
        while i < input.len()
            invariant
                i <= input@.len(),
                self.buffer.wf(),
                self.msg == old(self).msg,
                self.len == old(self).len,
                self.absorbed@ == m0,
                ({
                    let m = m0 + input@.take(i as int);
                    let k = m.len() / 64;
                    &&& self.buffer.pending() == m.skip(64 * k as int)
                    &&& self.h@ == chain(m, k)
                }),
            decreases input@.len() - i,
        {
            let ghost m = m0 + input@.take(i as int);
            let ghost k = m.len() / 64;
            let (end, blk) = self.buffer.fill(input, i);
            let ghost m1 = m0 + input@.take(end as int);
            assert(m1 =~= m + input@.subrange(i as int, end as int));
            assert(m1.take(64 * k as int) =~= m.take(64 * k as int));
            proof {
                lemma_chain_prefix(m, m1, k);
            }
            match blk {
                Some(b) => {
                    assert(m1.len() == 64 * k + 64);
                    assert(m1.len() / 64 == k + 1);
                    assert(block_at(m1, k) =~= b@);
                    compress_block(&mut self.h, &b);
                    assert(m1.skip(64 * (k + 1) as int) =~= Seq::<u8>::empty());
                },
                None => {
                    proof {
                        self.buffer.lemma_pending_len();
                    }
                    assert(m1.len() / 64 == k);
                    assert(m1.skip(64 * k as int) =~= m.skip(64 * k as int) + input@.subrange(
                        i as int,
                        end as int,
                    ));
                },
            }
            i = end;
        }
        self.absorbed = Ghost(m0 + input@);
        assert(input@.take(input@.len() as int) =~= input@);
    }

    /// Absorbs `input`; the outcome depends on the concatenation of all inputs only.
    pub fn process(&mut self, input: &[u8])
        requires
            old(self).wf(),
            old(self).message().len() + input@.len() <= u64::MAX,
        ensures
            final(self).wf(),
            final(self).message() == old(self).message() + input@,
    {
        self.len = self.len + input.len() as u64;
        self.absorb(input);
        self.msg = Ghost(self.msg@ + input@);
    }

    /// The digest of the message absorbed.
    pub fn fixed_result(self) -> (r: [u8; 20])
        requires
            self.wf(),
        ensures
            r@ == sha1_digest(self.message()),
    {
        let mut st = self;
        let pad = length_padding(st.len);
        st.absorb(pad.as_slice());
        let ghost p = st.absorbed@;
        proof {
            let n = self.message().len();
            assert(p.len() == n + 1 + (119 - n % 64) % 64 + 8);
            assert(p.len() % 64 == 0);
            st.buffer.lemma_pending_len();
        }
        output(&st.h)
    }
}

impl Default for Sha1 {
    fn default() -> (r: Self)
        ensures
            r.wf(),
            r.message() == Seq::<u8>::empty(),
    {
        Sha1::new()
    }
}

} // verus!
