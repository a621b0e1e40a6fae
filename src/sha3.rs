use vstd::prelude::*;
use crate::buffer::{fed, lemma_fed_flatten, BlockBuffer};
use crate::wide::{read_u64_le, u64_le, words_le_bytes};

verus! {

/// The lanes after the Keccak-f[1600] permutation of the 25 lanes `lanes`.
pub uninterp spec fn keccak_f_of(lanes: Seq<u64>) -> Seq<u64>;

/// Relies on keccak::f1600: it applies the Keccak-f[1600] permutation to the 25 lanes in
/// place.
#[verifier::external_body]
fn keccak_f1600(state: &mut [u64; 25])
    ensures
        final(state)@ == keccak_f_of(old(state)@),
{
    keccak::f1600(state)
}

/// The lanes with each little-endian word of `block` xored into the lane of its index.
pub open spec fn xor_block(lanes: Seq<u64>, block: Seq<u8>) -> Seq<u64> {
    Seq::new(25, |i: int| if 8 * i < block.len() { lanes[i] ^ u64_le(block, 8 * i) } else { lanes[i] })
}

/// The 1600-bit sponge state as 25 lanes.
pub struct Sha3State {
    pub state: [u64; 25],
}

impl Sha3State {
    /// The all-zero state.
    pub fn new() -> (r: Self)
        ensures
            r.state@ == Seq::new(25, |i: int| 0u64),
    {
        let r = Sha3State { state: [0u64; 25] };
        assert(r.state@ =~= Seq::new(25, |i: int| 0u64));
        r
    }

    /// Xors `block`, read as little-endian lanes, into the state, then permutes it.
    pub fn absorb_block(&mut self, block: &[u8])
        requires
            block@.len() % 8 == 0,
            block@.len() <= 200,
        ensures
            final(self).state@ == keccak_f_of(xor_block(old(self).state@, block@)),
    {
        let n = block.len() / 8;
        let mut i: usize = 0;
        while i < n
            invariant
                n == block@.len() / 8,
                block@.len() % 8 == 0,
                block@.len() <= 200,
                i <= n,
                forall|j: int| 0 <= j < i ==> self.state@[j] == old(self).state@[j] ^ u64_le(block@, 8 * j),
                forall|j: int| i <= j < 25 ==> self.state@[j] == old(self).state@[j],
            decreases n - i,
        {
            let w = read_u64_le(block, 8 * i);
            self.state[i] = self.state[i] ^ w;
            i = i + 1;
        }
        assert(self.state@ =~= xor_block(old(self).state@, block@));
        keccak_f1600(&mut self.state);
    }

    /// The state's 200 bytes, each lane little-endian.
    pub fn as_bytes(&self) -> (r: [u8; 200])
        ensures
            r@ == words_le_bytes(self.state@),
    {
        let mut r: [u8; 200] = [0u8; 200];
        let mut i: usize = 0;
        while i < 200
            invariant
                i <= 200,
                forall|j: int| 0 <= j < i ==> r@[j] == words_le_bytes(self.state@)[j],
            decreases 200 - i,
        {
            let x = self.state[i / 8];
            let sh: u64 = (8 * (i % 8)) as u64;
            r[i] = ((x >> sh) & 0xff) as u8;
            i = i + 1;
        }
        assert(r@ =~= words_le_bytes(self.state@));
        r
    }

    /// Permutes the state.
    pub fn apply_f(&mut self)
        ensures
            final(self).state@ == keccak_f_of(old(self).state@),
    {
        keccak_f1600(&mut self.state);
    }
}

/// Block `i` of `msg`, at the SHA3-256 rate of 136 bytes.
pub open spec fn block_at(msg: Seq<u8>, i: nat) -> Seq<u8> {
    msg.subrange(136 * i as int, 136 * i as int + 136)
}

/// The lanes after absorbing the first `k` blocks of `msg` into the all-zero state.
pub open spec fn sponge(msg: Seq<u8>, k: nat) -> Seq<u64>
    decreases k,
{
    if k == 0 {
        Seq::new(25, |i: int| 0u64)
    } else {
        keccak_f_of(xor_block(sponge(msg, (k - 1) as nat), block_at(msg, (k - 1) as nat)))
    }
}

/// The SHA-3 padding after `len` bytes: the domain bits `01`, a one bit, zeros, and a
/// final one bit, filling the last block.
pub open spec fn padding_spec(len: nat) -> Seq<u8> {
    if len % 136 == 135 {
        seq![0x86u8]
    } else {
        seq![0x06u8] + Seq::new((134 - len % 136) as nat, |i: int| 0u8) + seq![0x80u8]
    }
}

/// The SHA3-256 digest of `msg`: the first 32 bytes of the state after absorbing the
/// padded message.
pub open spec fn sha3_256_digest(msg: Seq<u8>) -> Seq<u8> {
    let p = msg + padding_spec(msg.len());
    words_le_bytes(sponge(p, p.len() / 136)).take(32)
}

/// The sponge over `k` blocks depends on the first `136 * k` bytes only.
pub proof fn lemma_sponge_prefix(x: Seq<u8>, y: Seq<u8>, k: nat)
    requires
        136 * k <= x.len(),
        136 * k <= y.len(),
        x.take(136 * k as int) == y.take(136 * k as int),
    ensures
        sponge(x, k) == sponge(y, k),
    decreases k,
{
    if k > 0 {
        let j = (k - 1) as nat;
        assert(x.take(136 * j as int) =~= x.take(136 * k as int).take(136 * j as int));
        assert(y.take(136 * j as int) =~= y.take(136 * k as int).take(136 * j as int));
        lemma_sponge_prefix(x, y, j);
        assert(block_at(x, j) =~= x.take(136 * k as int).subrange(136 * j as int, 136 * j as int + 136));
        assert(block_at(y, j) =~= y.take(136 * k as int).subrange(136 * j as int, 136 * j as int + 136));
    }
}

/// The digest of a message fed in any number of chunks equals the digest of the whole
/// message fed at once.
pub proof fn lemma_chunking_invariance(chunks: Seq<Seq<u8>>)
    ensures
        sha3_256_digest(fed(Seq::empty(), chunks)) == sha3_256_digest(chunks.flatten()),
{
    lemma_fed_flatten(Seq::empty(), chunks);
    assert(Seq::<u8>::empty() + chunks.flatten() =~= chunks.flatten());
}

/// The padding always ends a block, and a message whose length is a multiple of the rate
/// gets one whole block of padding after its own blocks.
pub proof fn lemma_padding_fills_blocks(len: nat)
    ensures
        (len + padding_spec(len).len()) % 136 == 0,
        len % 136 == 0 ==> padding_spec(len).len() == 136,
{
}

/// The padding that ends a message of `len` bytes.
pub fn sha3_padding(len: usize) -> (r: Vec<u8>)
    ensures
        r@ == padding_spec(len as nat),
{
    let mut r: Vec<u8> = Vec::new();
    if len % 136 == 135 {
        r.push(0x86u8);
        return r;
    }
    r.push(0x06u8);
    let z: usize = 134 - len % 136;
    let mut i: usize = 0;
    while i < z
        invariant
            i <= z,
            r@ == seq![0x06u8] + Seq::new(i as nat, |j: int| 0u8),
        decreases z - i,
    {
        r.push(0u8);
        i = i + 1;
        assert(r@ =~= seq![0x06u8] + Seq::new(i as nat, |j: int| 0u8));
    }
    r.push(0x80u8);
    r
}

/// A SHA3-256 hasher.
pub struct Sha3_256 {
    sponge: Sha3State,
    buffer: BlockBuffer<136>,
    msg: Ghost<Seq<u8>>,
    absorbed: Ghost<Seq<u8>>,
}

impl Sha3_256 {
    /// The bytes absorbed so far.
    pub closed spec fn message(&self) -> Seq<u8> {
        self.msg@
    }

    /// The running state is the one that the message determines.
    pub closed spec fn wf(&self) -> bool {
        self.absorbed@ == self.msg@ && self.blocks_wf()
    }

    /// The buffer holds what follows the whole blocks of the bytes fed to the sponge, and
    /// the lanes are the sponge over those blocks.
    closed spec fn blocks_wf(&self) -> bool {
        let a = self.absorbed@;
        let k = a.len() / 136;
        &&& self.buffer.wf()
        &&& self.buffer.pending() == a.skip(136 * k as int)
        &&& self.sponge.state@ == sponge(a, k)
    }

    /// A hasher holding the empty message.
    pub fn new() -> (r: Self)
        ensures
            r.wf(),
            r.message() == Seq::<u8>::empty(),
    {
        let r = Sha3_256 {
            sponge: Sha3State::new(),
            buffer: BlockBuffer::new(),
            msg: Ghost(Seq::empty()),
            absorbed: Ghost(Seq::empty()),
        };
        assert(Seq::<u8>::empty().skip(0) =~= Seq::<u8>::empty());
        r
    }

    /// Feeds `input` through the buffer and absorbs each completed block.
    fn absorb(&mut self, input: &[u8])
        requires
            old(self).blocks_wf(),
        ensures
            final(self).blocks_wf(),
            final(self).absorbed@ == old(self).absorbed@ + input@,
            final(self).msg == old(self).msg,
    {
        let ghost m0 = self.absorbed@;
        let mut i: usize = 0;
        while i < input.len()
            invariant
                i <= input@.len(),
                self.buffer.wf(),
                self.msg == old(self).msg,
                self.absorbed@ == m0,
                ({
                    let m = m0 + input@.take(i as int);
                    let k = m.len() / 136;
                    &&& self.buffer.pending() == m.skip(136 * k as int)
                    &&& self.sponge.state@ == sponge(m, k)
                }),
            decreases input@.len() - i,
        {
            let ghost m = m0 + input@.take(i as int);
            let ghost k = m.len() / 136;
            let (end, blk) = self.buffer.fill(input, i);
            let ghost m1 = m0 + input@.take(end as int);
            assert(m1 =~= m + input@.subrange(i as int, end as int));
            assert(m1.take(136 * k as int) =~= m.take(136 * k as int));
            proof {
                lemma_sponge_prefix(m, m1, k);
            }
            match blk {
                Some(b) => {
                    assert(m1.len() == 136 * k + 136);
                    assert(m1.len() / 136 == k + 1);
                    assert(block_at(m1, k) =~= b@);
                    self.sponge.absorb_block(b.as_slice());
                    assert(m1.skip(136 * (k + 1) as int) =~= Seq::<u8>::empty());
                },
                None => {
                    proof {
                        self.buffer.lemma_pending_len();
                    }
                    assert(m1.len() / 136 == k);
                    assert(m1.skip(136 * k as int) =~= m.skip(136 * k as int) + input@.subrange(
                        i as int,
                        end as int,
                    ));
                },
            }
            i = end;
        }
        self.absorbed = Ghost(m0 + input@);
        assert(input@.take(input@.len() as int) =~= input@);
    }

    /// Absorbs `input`; the outcome depends on the concatenation of all inputs only.
    pub fn process(&mut self, input: &[u8])
        requires
            old(self).wf(),
        ensures
            final(self).wf(),
            final(self).message() == old(self).message() + input@,
    {
        self.absorb(input);
        self.msg = Ghost(self.msg@ + input@);
    }

    /// The digest of the message absorbed.
    pub fn fixed_result(self) -> (r: [u8; 32])
        requires
            self.wf(),
        ensures
            r@ == sha3_256_digest(self.message()),
    {
        let mut st = self;
        let len = st.buffer.position();
        let pad = sha3_padding(len);
        st.absorb(pad.as_slice());
        let ghost p = st.absorbed@;
        proof {
            let n = self.message().len();
            assert(len as nat == n % 136);
            assert(padding_spec(len as nat) == padding_spec(n));
            assert(p.len() % 136 == 0);
            st.buffer.lemma_pending_len();
        }
        let bytes = st.sponge.as_bytes();
        let mut out: [u8; 32] = [0u8; 32];
        let mut i: usize = 0;
        while i < 32
            invariant
                i <= 32,
                forall|j: int| 0 <= j < i ==> out@[j] == bytes@[j],
            decreases 32 - i,
        {
            out[i] = bytes[i];
            i = i + 1;
        }
        assert(out@ =~= bytes@.take(32));
        out
    }
}

} // verus!
