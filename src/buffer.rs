use vstd::prelude::*;

verus! {

/// Accumulates a stream of bytes into blocks of `N` bytes.
pub struct BlockBuffer<const N: usize> {
    buf: [u8; N],
    pos: usize,
}

impl<const N: usize> BlockBuffer<N> {
    /// The block size is positive and the pending bytes never fill a whole block.
    pub closed spec fn wf(&self) -> bool {
        0 < N && self.pos < N
    }

    /// The bytes received since the last whole block was handed out.
    pub closed spec fn pending(&self) -> Seq<u8> {
        self.buf@.take(self.pos as int)
    }

    pub proof fn lemma_pending_len(&self)
        requires
            self.wf(),
        ensures
            self.pending().len() < N,
    {
    }

    /// An empty buffer for blocks of `N` bytes.
    pub fn new() -> (r: Self)
        requires
            0 < N,
        ensures
            r.wf(),
            r.pending() == Seq::<u8>::empty(),
    {
        let r = BlockBuffer { buf: [0u8; N], pos: 0 };
        assert(r.pending() =~= Seq::<u8>::empty());
        r
    }

    /// Number of pending bytes.
    pub fn position(&self) -> (r: usize)
        requires
            self.wf(),
        ensures
            r == self.pending().len(),
            r < N,
    {
        self.pos
    }

    /// Takes bytes of `input` from `start` on until either the input ends or a block is
    /// complete. Returns where it stopped and, when a block was completed, that block;
    /// the pending bytes then start afresh.
    pub fn fill(&mut self, input: &[u8], start: usize) -> (r: (usize, Option<[u8; N]>))
        requires
            old(self).wf(),
            start <= input@.len(),
        ensures
            final(self).wf(),
            start <= r.0 <= input@.len(),
            match r.1 {
                Some(b) => {
                    &&& b@ == old(self).pending() + input@.subrange(start as int, r.0 as int)
                    &&& b@.len() == N
                    &&& final(self).pending() == Seq::<u8>::empty()
                    &&& start < r.0
                },
                None => {
                    &&& r.0 == input@.len()
                    &&& final(self).pending() == old(self).pending() + input@.subrange(
                        start as int,
                        r.0 as int,
                    )
                },
            },
    {
        let ghost p0 = self.pending();
        let mut i: usize = start;
        while i < input.len() && self.pos < N
            invariant
                0 < N,
                start <= i <= input@.len(),
                self.pos <= N,
                self.buf@.len() == N,
                self.pos - p0.len() == i - start,
                self.buf@.take(self.pos as int) == p0 + input@.subrange(start as int, i as int),
            decreases input@.len() - i,
        {
            let ghost before = self.buf@;
            self.buf[self.pos] = input[i];
            assert(self.buf@.take(self.pos + 1) =~= before.take(self.pos as int).push(input[i as int]));
            assert(input@.subrange(start as int, i + 1) =~= input@.subrange(start as int, i as int).push(input[i as int]));
            self.pos = self.pos + 1;
            i = i + 1;
        }
        if self.pos == N {
            self.pos = 0;
            assert(self.buf@.take(N as int) =~= self.buf@);
            assert(self.pending() =~= Seq::<u8>::empty());
            (i, Some(self.buf))
        } else {
            (i, None)
        }
    }

    /// Hands out the pending bytes followed by zeros up to a whole block, if any bytes are
    /// pending; the pending bytes then start afresh.
    pub fn pad_with_zeros(&mut self) -> (r: Option<[u8; N]>)
        requires
            old(self).wf(),
        ensures
            final(self).wf(),
            final(self).pending() == Seq::<u8>::empty(),
            match r {
                Some(b) => {
                    &&& old(self).pending().len() > 0
                    &&& b@ == old(self).pending() + Seq::new(
                        (N - old(self).pending().len()) as nat,
                        |i: int| 0u8,
                    )
                },
                None => old(self).pending().len() == 0,
            },
    {
        if self.pos == 0 {
            assert(self.pending() =~= Seq::<u8>::empty());
            return None;
        }
        let ghost p0 = self.pending();
        let mut i: usize = self.pos;
        while i < N
            invariant
                0 < N,
                self.wf(),
                self.pending() == p0,
                self.pos <= i <= N,
                self.buf@.len() == N,
                forall|j: int| self.pos <= j < i ==> self.buf@[j] == 0u8,
            decreases N - i,
        {
            self.buf[i] = 0;
            i = i + 1;
        }
        assert(self.buf@ =~= p0 + Seq::new((N - p0.len()) as nat, |i: int| 0u8));
        let b = self.buf;
        self.pos = 0;
        assert(self.pending() =~= Seq::<u8>::empty());
        Some(b)
    }
}

/// The message an engine holds after it was given `chunks`, one after another, starting
/// from the message `m`.
pub open spec fn fed(m: Seq<u8>, chunks: Seq<Seq<u8>>) -> Seq<u8>
    decreases chunks.len(),
{
    if chunks.len() == 0 {
        m
    } else {
        fed(m + chunks[0], chunks.drop_first())
    }
}

/// Feeding chunks one after another gives the same message as feeding their
/// concatenation at once.
pub proof fn lemma_fed_flatten(m: Seq<u8>, chunks: Seq<Seq<u8>>)
    ensures
        fed(m, chunks) == m + chunks.flatten(),
    decreases chunks.len(),
{
    if chunks.len() == 0 {
        assert(m + chunks.flatten() =~= m);
    } else {
        lemma_fed_flatten(m + chunks[0], chunks.drop_first());
        assert(m + chunks.flatten() =~= m + chunks[0] + chunks.drop_first().flatten());
    }
}

} // verus!
