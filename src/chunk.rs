use vstd::prelude::*;

verus! {

/// Largest chunk, in bytes, that a response body is cut into by default.
pub const CHUNK_SIZE: usize = 8192;

/// The chunks that a buffer `s` is cut into, front to back, each of at most `n` bytes.
pub open spec fn chunks_of(s: Seq<u8>, n: nat) -> Seq<Seq<u8>>
    decreases s.len(),
{
    if n == 0 || s.len() == 0 {
        Seq::empty()
    } else if s.len() <= n {
        seq![s]
    } else {
        seq![s.take(n as int)] + chunks_of(s.skip(n as int), n)
    }
}

/// All chunks joined front to back.
pub open spec fn concat_all(cs: Seq<Seq<u8>>) -> Seq<u8>
    decreases cs.len(),
{
    if cs.len() == 0 {
        Seq::empty()
    } else {
        cs[0] + concat_all(cs.drop_first())
    }
}

/// Number of chunks of at most `n` bytes that `len` bytes need: `ceil(len / n)`.
pub open spec fn chunk_count(len: nat, n: nat) -> nat {
    if n == 0 {
        0
    } else {
        ((len + n - 1) as nat) / n
    }
}


/// Cutting a buffer into chunks and joining them again gives the buffer back.
pub proof fn lemma_chunks_round_trip(s: Seq<u8>, n: nat)
    requires
        n > 0,
    ensures
        concat_all(chunks_of(s, n)) == s,
    decreases s.len(),
{
    if s.len() == 0 {
        assert(concat_all(chunks_of(s, n)) =~= s);
    } else if s.len() <= n {
        let cs = chunks_of(s, n);
        assert(cs.drop_first() =~= Seq::<Seq<u8>>::empty());
        assert(concat_all(cs.drop_first()) == Seq::<u8>::empty());
        assert(concat_all(cs) =~= s);
    } else {
        lemma_chunks_round_trip(s.skip(n as int), n);
        let cs = chunks_of(s, n);
        assert(cs.drop_first() =~= chunks_of(s.skip(n as int), n));
        assert(s.take(n as int) + s.skip(n as int) =~= s);
    }
}

/// A buffer of `len` bytes is cut into `ceil(len / n)` chunks, none of them empty and
/// none longer than `n` bytes.
pub proof fn lemma_chunks_count(s: Seq<u8>, n: nat)
    requires
        n > 0,
    ensures
        chunks_of(s, n).len() == chunk_count(s.len(), n),
        forall|i: int|
            0 <= i < chunks_of(s, n).len() ==> 0 < #[trigger] chunks_of(s, n)[i].len() <= n,
    decreases s.len(),
{
    if s.len() == 0 {
        assert(chunk_count(0, n) == 0) by (nonlinear_arith)
            requires
                n > 0,
        ;
    } else if s.len() <= n {
        let l = s.len();
        assert(chunk_count(l, n) == 1) by (nonlinear_arith)
            requires
                0 < l <= n,
                chunk_count(l, n) == ((l + n - 1) as nat) / n,
        ;
    } else {
        let rest = s.skip(n as int);
        lemma_chunks_count(rest, n);
        let l = s.len();
        let r = rest.len();
        assert(chunk_count(l, n) == chunk_count(r, n) + 1) by (nonlinear_arith)
            requires
                n > 0,
                l == r + n,
                chunk_count(l, n) == ((l + n - 1) as nat) / n,
                chunk_count(r, n) == ((r + n - 1) as nat) / n,
        ;
        let cs = chunks_of(s, n);
        assert forall|i: int| 0 <= i < cs.len() implies 0 < #[trigger] cs[i].len() <= n by {
            if i > 0 {
                assert(cs[i] == chunks_of(rest, n)[i - 1]);
            }
        }
    }
}

/// A lazy, one-pass sequence of the chunks of an owned buffer.
pub struct ChunkStream {
    body: Vec<u8>,
    pos: usize,
    max: usize,
}

impl ChunkStream {
    /// The bytes not yet handed out.
    pub closed spec fn remaining(&self) -> Seq<u8> {
        self.body@.skip(self.pos as int)
    }

    /// Largest size of a chunk.
    pub closed spec fn max_len(&self) -> nat {
        self.max as nat
    }

    pub closed spec fn wf(&self) -> bool {
        self.pos <= self.body@.len() && self.max > 0
    }

    /// The chunks still to come.
    pub open spec fn pending(&self) -> Seq<Seq<u8>> {
        chunks_of(self.remaining(), self.max_len())
    }

    /// A stream over `body` with chunks of at most `max` bytes.
    pub fn with_chunk_size(body: Vec<u8>, max: usize) -> (r: ChunkStream)
        requires
            max > 0,
        ensures
            r.wf(),
            r.remaining() == body@,
            r.max_len() == max,
    {
        let r = ChunkStream { body, pos: 0, max };
        assert(r.body@.skip(0) =~= r.body@);
        r
    }

    /// A stream over `body` with chunks of at most `CHUNK_SIZE` bytes.
    pub fn new(body: Vec<u8>) -> (r: ChunkStream)
        ensures
            r.wf(),
            r.remaining() == body@,
            r.max_len() == CHUNK_SIZE,
    {
        ChunkStream::with_chunk_size(body, CHUNK_SIZE)
    }

    /// True once every byte has been handed out.
    pub fn is_done(&self) -> (r: bool)
        requires
            self.wf(),
        ensures
            r == (self.remaining().len() == 0),
            r == (self.pending().len() == 0),
    {
        self.pos == self.body.len()
    }

    /// Hands out the next chunk, or `None` once the buffer is used up.
    pub fn next_chunk(&mut self) -> (r: Option<Vec<u8>>)
        requires
            old(self).wf(),
        ensures
            final(self).wf(),
            final(self).max_len() == old(self).max_len(),
            match r {
                None => old(self).remaining().len() == 0 && old(self).pending().len() == 0
                    && final(self).remaining() == old(self).remaining(),
                Some(c) => old(self).pending().len() > 0 && c@ == old(self).pending()[0]
                    && final(self).pending() == old(self).pending().drop_first()
                    && final(self).remaining().len() < old(self).remaining().len(),
            },
    {
        let len = self.body.len();
        if self.pos == len {
            return None;
        }
        let k: usize = if len - self.pos > self.max {
            self.max
        } else {
            len - self.pos
        };
        let ghost rem = self.remaining();
        let mut out: Vec<u8> = Vec::with_capacity(k);
        let mut i: usize = 0;
        while i < k
            invariant
                self.wf(),
                self.pos + k <= len,
                len == self.body@.len(),
                i <= k,
                out@ =~= self.body@.subrange(self.pos as int, self.pos + i),
            decreases k - i,
        {
            out.push(self.body[self.pos + i]);
            i = i + 1;
        }
        self.pos = self.pos + k;
        proof {
            let n = self.max as nat;
            assert(out@ =~= rem.take(k as int));
            assert(self.remaining() =~= rem.skip(k as int));
            let cs = chunks_of(rem, n);
            if rem.len() <= n {
                assert(rem.take(k as int) =~= rem);
                assert(self.remaining() =~= Seq::<u8>::empty());
                assert(cs.drop_first() =~= Seq::<Seq<u8>>::empty());
            } else {
                assert(cs.drop_first() =~= chunks_of(rem.skip(n as int), n));
            }
        }
        Some(out)
    }

    /// Hands out every chunk still to come, in order.
    pub fn collect_rest(&mut self) -> (r: Vec<Vec<u8>>)
        requires
            old(self).wf(),
        ensures
            final(self).wf(),
            final(self).remaining().len() == 0,
            r@.map_values(|c: Vec<u8>| c@) == old(self).pending(),
    {
        let ghost all = self.pending();
        let mut out: Vec<Vec<u8>> = Vec::new();
        loop
            invariant
                self.wf(),
                self.max_len() == old(self).max_len(),
                all == old(self).pending(),
                all == out@.map_values(|c: Vec<u8>| c@) + self.pending(),
            decreases self.remaining().len(),
        {
            let ghost before = self.pending();
            let ghost out_before = out@.map_values(|c: Vec<u8>| c@);
            match self.next_chunk() {
                None => {
                    proof {
                        assert(self.pending() == before);
                        assert(all =~= out_before + before);
                        assert(before =~= Seq::<Seq<u8>>::empty());
                        assert(all =~= out@.map_values(|c: Vec<u8>| c@));
                    }
                    return out;
                },
                Some(c) => {
                    out.push(c);
                    proof {
                        assert(out@.map_values(|c: Vec<u8>| c@) =~= out_before.push(c@));
                        assert(all =~= out@.map_values(|c: Vec<u8>| c@) + self.pending());
                    }
                },
            }
        }
    }
}

/// Every chunk of `body`, at most `CHUNK_SIZE` bytes each, front to back.
pub fn bytes_to_chunks(body: Vec<u8>) -> (r: Vec<Vec<u8>>)
    ensures
        r@.map_values(|c: Vec<u8>| c@) == chunks_of(body@, CHUNK_SIZE as nat),
        concat_all(r@.map_values(|c: Vec<u8>| c@)) == body@,
        r@.len() == chunk_count(body@.len(), CHUNK_SIZE as nat),
{
    let ghost b = body@;
    let mut s = ChunkStream::new(body);
    let r = s.collect_rest();
    proof {
        lemma_chunks_round_trip(b, CHUNK_SIZE as nat);
        lemma_chunks_count(b, CHUNK_SIZE as nat);
    }
    r
}

} // verus!
