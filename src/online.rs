use vstd::prelude::*;

use crate::gf2::BitScalar;

verus! {

/// Bytes in a commitment hash.
pub const HASH_SIZE: usize = 32;

/// A commitment hash.
#[derive(Clone, Copy, Debug)]
pub struct Hash(pub [u8; HASH_SIZE]);

impl View for Hash {
    type V = Seq<u8>;

    open spec fn view(&self) -> Seq<u8> {
        self.0@
    }
}

impl PartialEq for Hash {
    fn eq(&self, other: &Hash) -> (r: bool) {
        let mut i: usize = 0;
        while i < HASH_SIZE
            invariant
                i <= HASH_SIZE,
                forall|k: int| 0 <= k < i ==> self.0[k] == other.0[k],
            decreases HASH_SIZE - i,
        {
            if self.0[i] != other.0[i] {
                return false;
            }
            i = i + 1;
        }
        assert(self.0@ =~= other.0@);
        true
    }
}

impl vstd::std_specs::cmp::PartialEqSpecImpl for Hash {
    open spec fn obeys_eq_spec() -> bool {
        true
    }

    open spec fn eq_spec(&self, other: &Hash) -> bool {
        self@ == other@
    }
}

/// The hashes of a list, as byte strings.
pub open spec fn hash_views(hs: Seq<Hash>) -> Seq<Seq<u8>> {
    hs.map_values(|h: Hash| h@)
}

/// One unit of the streamed online transcript. Where a transcript is cut into
/// chunks carries no meaning.
#[derive(Clone, Debug)]
pub struct Chunk {
    pub corrections: Vec<u8>,
    pub broadcast: Vec<u8>,
    pub witness: Vec<u8>,
}

/// What one online repetition discloses.
#[derive(Clone, Debug)]
pub struct Run {
    /// The randomness of the opened players: their subtree of the tree PRF, encoded.
    pub open: Vec<u8>,
    /// The Merkle membership proof of this repetition's online transcript, encoded.
    pub online: Vec<u8>,
    /// The Merkle proof of the masked branch, encoded.
    pub proof: Vec<u8>,
    /// The masked branch, packed.
    pub branch: Vec<u8>,
    /// The commitment to the hidden player's preprocessing.
    pub commitment: Hash,
}

/// The header of an online proof: one run per online repetition.
#[derive(Clone, Debug)]
pub struct Proof {
    pub runs: Vec<Run>,
}

/// What the preprocessing phase discloses once verified: the hash of the hidden
/// player's preprocessing in each online repetition.
#[derive(Clone, Debug)]
pub struct PreprocessingOutput {
    pub hidden: Vec<Hash>,
}

/// The result of an online verification, held back until it is checked against
/// the preprocessing that it was run with.
pub struct Output {
    result: Vec<BitScalar>,
    pp_hashes: Vec<Hash>,
}

impl Output {
    /// The result that the online execution computed.
    pub closed spec fn spec_result(&self) -> Seq<BitScalar> {
        self.result@
    }

    /// The hidden players' preprocessing hashes met during the online execution,
    /// one per repetition.
    pub closed spec fn spec_hashes(&self) -> Seq<Seq<u8>> {
        hash_views(self.pp_hashes@)
    }

    /// Holds back `result` until the hashes `pp_hashes` have been checked.
    pub fn new(result: Vec<BitScalar>, pp_hashes: Vec<Hash>) -> (r: Output)
        ensures
            r.spec_result() == result@,
            r.spec_hashes() == hash_views(pp_hashes@),
    {
        Output { result, pp_hashes }
    }

    /// Releases the result when the online execution met `repetitions` hashes and
    /// they are those that the preprocessing disclosed, one for one and in the
    /// same order; else none.
    pub fn check(self, pp: &PreprocessingOutput, repetitions: usize) -> (r: Option<
        Vec<BitScalar>,
    >)
        ensures
            r is Some <==> self.spec_hashes().len() == repetitions && self.spec_hashes()
                == hash_views(pp.hidden@),
            r is Some ==> r->0@ == self.spec_result(),
    {
        if self.pp_hashes.len() != repetitions {
            return None;
        }
        if pp.hidden.len() != self.pp_hashes.len() {
            assert(self.spec_hashes().len() != hash_views(pp.hidden@).len());
            return None;
        }
        let mut i: usize = 0;
        while i < self.pp_hashes.len()
            invariant
                i <= self.pp_hashes@.len(),
                pp.hidden@.len() == self.pp_hashes@.len(),
                forall|k: int| 0 <= k < i ==> pp.hidden@[k]@ == self.pp_hashes@[k]@,
            decreases self.pp_hashes@.len() - i,
        {
            if pp.hidden[i] != self.pp_hashes[i] {
                assert(self.spec_hashes()[i as int] != hash_views(pp.hidden@)[i as int]);
                return None;
            }
            i = i + 1;
        }
        assert(self.spec_hashes() =~= hash_views(pp.hidden@));
        Some(self.result)
    }

    /// The result, without the check against the preprocessing: for tests of the
    /// online phase alone.
    pub fn unsafe_output(&self) -> (r: &[BitScalar])
        ensures
            r@ == self.spec_result(),
    {
        self.result.as_slice()
    }
}

/// The correction stream of a transcript cut into `chunks`, read across chunk
/// boundaries.
pub open spec fn corrections_stream(chunks: Seq<Chunk>) -> Seq<u8> {
    chunks.map_values(|c: Chunk| c.corrections@).flatten()
}

/// The broadcast stream of a transcript cut into `chunks`, read across chunk
/// boundaries.
pub open spec fn broadcast_stream(chunks: Seq<Chunk>) -> Seq<u8> {
    chunks.map_values(|c: Chunk| c.broadcast@).flatten()
}

/// The masked witness stream of a transcript cut into `chunks`, read across chunk
/// boundaries.
pub open spec fn witness_stream(chunks: Seq<Chunk>) -> Seq<u8> {
    chunks.map_values(|c: Chunk| c.witness@).flatten()
}

/// `chunks` carry the transcript `t`, stream by stream.
pub open spec fn carries(chunks: Seq<Chunk>, t: Chunk) -> bool {
    &&& corrections_stream(chunks) == t.corrections@
    &&& broadcast_stream(chunks) == t.broadcast@
    &&& witness_stream(chunks) == t.witness@
}

proof fn lemma_streams_push(chunks: Seq<Chunk>, c: Chunk)
    ensures
        corrections_stream(chunks.push(c)) == corrections_stream(chunks) + c.corrections@,
        broadcast_stream(chunks.push(c)) == broadcast_stream(chunks) + c.broadcast@,
        witness_stream(chunks.push(c)) == witness_stream(chunks) + c.witness@,
{
    let f = |x: Chunk| x.corrections@;
    let g = |x: Chunk| x.broadcast@;
    let h = |x: Chunk| x.witness@;
    assert(chunks.push(c).map_values(f) =~= chunks.map_values(f).push(c.corrections@));
    assert(chunks.push(c).map_values(g) =~= chunks.map_values(g).push(c.broadcast@));
    assert(chunks.push(c).map_values(h) =~= chunks.map_values(h).push(c.witness@));
    chunks.map_values(f).lemma_flatten_push(c.corrections@);
    chunks.map_values(g).lemma_flatten_push(c.broadcast@);
    chunks.map_values(h).lemma_flatten_push(c.witness@);
}

fn append_bytes(dst: &mut Vec<u8>, src: &Vec<u8>)
    ensures
        final(dst)@ == old(dst)@ + src@,
{
    let mut i: usize = 0;
    let ghost start = dst@;
    while i < src.len()
        invariant
            i <= src@.len(),
            dst@ == start + src@.subrange(0, i as int),
        decreases src@.len() - i,
    {
        dst.push(src[i]);
        i = i + 1;
        assert(dst@ =~= start + src@.subrange(0, i as int));
    }
    assert(src@.subrange(0, src@.len() as int) =~= src@);
}

/// The bytes of `v` from `lo` up to `hi`, both cut down to its length.
pub open spec fn clipped(v: Seq<u8>, lo: int, hi: int) -> Seq<u8> {
    let a = if lo <= v.len() { lo } else { v.len() as int };
    let b = if hi <= v.len() { hi } else { v.len() as int };
    v.subrange(a, b)
}

fn take_part(v: &Vec<u8>, lo: usize, hi: usize) -> (r: Vec<u8>)
    requires
        lo <= hi,
    ensures
        r@ == clipped(v@, lo as int, hi as int),
{
    let a = if lo <= v.len() { lo } else { v.len() };
    let b = if hi <= v.len() { hi } else { v.len() };
    let mut r: Vec<u8> = Vec::new();
    let mut i: usize = a;
    while i < b
        invariant
            a <= i <= b <= v@.len(),
            r@ == v@.subrange(a as int, i as int),
        decreases b - i,
    {
        r.push(v[i]);
        i = i + 1;
        assert(r@ =~= v@.subrange(a as int, i as int));
    }
    r
}

/// The length of the longest stream of a chunk.
pub open spec fn longest(c: Chunk) -> nat {
    let a = c.corrections@.len();
    let b = c.broadcast@.len();
    let w = c.witness@.len();
    if a >= b && a >= w {
        a
    } else if b >= w {
        b
    } else {
        w
    }
}

proof fn lemma_part_longest(t: Chunk, c: Chunk, pos: int, end: int, total: int)
    requires
        0 <= pos < end <= total,
        total >= t.corrections@.len(),
        total >= t.broadcast@.len(),
        total >= t.witness@.len(),
        total == t.corrections@.len() || total == t.broadcast@.len() || total
            == t.witness@.len(),
        c.corrections@ == clipped(t.corrections@, pos, end),
        c.broadcast@ == clipped(t.broadcast@, pos, end),
        c.witness@ == clipped(t.witness@, pos, end),
    ensures
        longest(c) == end - pos,
{
}

impl Chunk {
    /// The transcript that `chunks` carry: each stream joined across chunk
    /// boundaries, in order.
    pub fn join(chunks: &[Chunk]) -> (r: Chunk)
        ensures
            carries(chunks@, r),
    {
        let mut r = Chunk { corrections: Vec::new(), broadcast: Vec::new(), witness: Vec::new() };
        let mut i: usize = 0;
        assert(chunks@.subrange(0, 0) =~= Seq::<Chunk>::empty());
        assert(carries(chunks@.subrange(0, 0), r)) by {
            assert(Seq::<Chunk>::empty().map_values(|c: Chunk| c.corrections@) =~= Seq::<Seq<u8>>::empty());
            assert(Seq::<Chunk>::empty().map_values(|c: Chunk| c.broadcast@) =~= Seq::<Seq<u8>>::empty());
            assert(Seq::<Chunk>::empty().map_values(|c: Chunk| c.witness@) =~= Seq::<Seq<u8>>::empty());
            assert(r.corrections@ =~= Seq::<u8>::empty());
            assert(r.broadcast@ =~= Seq::<u8>::empty());
            assert(r.witness@ =~= Seq::<u8>::empty());
        }
        while i < chunks.len()
            invariant
                i <= chunks@.len(),
                carries(chunks@.subrange(0, i as int), r),
            decreases chunks@.len() - i,
        {
            append_bytes(&mut r.corrections, &chunks[i].corrections);
            append_bytes(&mut r.broadcast, &chunks[i].broadcast);
            append_bytes(&mut r.witness, &chunks[i].witness);
            proof {
                lemma_streams_push(chunks@.subrange(0, i as int), chunks@[i as int]);
                assert(chunks@.subrange(0, i as int).push(chunks@[i as int]) =~= chunks@.subrange(
                    0,
                    i + 1,
                ));
            }
            i = i + 1;
        }
        assert(chunks@.subrange(0, chunks@.len() as int) =~= chunks@);
        r
    }

    /// Cuts a transcript into chunks of at most `size` bytes per stream, as the
    /// prover flushes its buffers: every chunk but the last has a longest stream
    /// of exactly `size` bytes, and no chunk is empty.
    pub fn split(t: &Chunk, size: usize) -> (r: Vec<Chunk>)
        requires
            size > 0,
        ensures
            carries(r@, *t),
            forall|k: int|
                0 <= k < r@.len() ==> (#[trigger] r@[k]).corrections@.len() <= size
                    && r@[k].broadcast@.len() <= size && r@[k].witness@.len() <= size,
            forall|k: int| 0 <= k < r@.len() ==> longest(#[trigger] r@[k]) > 0,
            forall|k: int| 0 <= k < r@.len() - 1 ==> longest(#[trigger] r@[k]) == size,
    {
        let mut total = t.corrections.len();
        if t.broadcast.len() > total {
            total = t.broadcast.len();
        }
        if t.witness.len() > total {
            total = t.witness.len();
        }
        let mut out: Vec<Chunk> = Vec::new();
        let mut pos: usize = 0;
        let ghost tc = *t;
        proof {
            assert(Seq::<Chunk>::empty().map_values(|c: Chunk| c.corrections@) =~= Seq::<Seq<u8>>::empty());
            assert(Seq::<Chunk>::empty().map_values(|c: Chunk| c.broadcast@) =~= Seq::<Seq<u8>>::empty());
            assert(Seq::<Chunk>::empty().map_values(|c: Chunk| c.witness@) =~= Seq::<Seq<u8>>::empty());
            assert(out@ =~= Seq::<Chunk>::empty());
            assert(clipped(tc.corrections@, 0, 0) =~= Seq::<u8>::empty());
            assert(clipped(tc.broadcast@, 0, 0) =~= Seq::<u8>::empty());
            assert(clipped(tc.witness@, 0, 0) =~= Seq::<u8>::empty());
        }
        while pos < total
            invariant
                tc == *t,
                size > 0,
                pos <= total,
                total >= tc.corrections@.len(),
                total >= tc.broadcast@.len(),
                total >= tc.witness@.len(),
                total == tc.corrections@.len() || total == tc.broadcast@.len() || total
                    == tc.witness@.len(),
                forall|k: int| 0 <= k < out@.len() ==> longest(#[trigger] out@[k]) > 0,
                forall|k: int| 0 <= k < out@.len() - 1 ==> longest(#[trigger] out@[k]) == size,
                out@.len() > 0 && pos < total ==> longest(out@[out@.len() - 1]) == size,
                corrections_stream(out@) == clipped(tc.corrections@, 0, pos as int),
                broadcast_stream(out@) == clipped(tc.broadcast@, 0, pos as int),
                witness_stream(out@) == clipped(tc.witness@, 0, pos as int),
                forall|k: int|
                    0 <= k < out@.len() ==> (#[trigger] out@[k]).corrections@.len() <= size
                        && out@[k].broadcast@.len() <= size && out@[k].witness@.len() <= size,
            decreases total - pos,
        {
            let end = if size > total - pos {
                total
            } else {
                pos + size
            };
            let c = Chunk {
                corrections: take_part(&t.corrections, pos, end),
                broadcast: take_part(&t.broadcast, pos, end),
                witness: take_part(&t.witness, pos, end),
            };
            proof {
                lemma_part_longest(tc, c, pos as int, end as int, total as int);
                lemma_streams_push(out@, c);
                assert(clipped(tc.corrections@, 0, pos as int) + c.corrections@ =~= clipped(
                    tc.corrections@,
                    0,
                    end as int,
                ));
                assert(clipped(tc.broadcast@, 0, pos as int) + c.broadcast@ =~= clipped(
                    tc.broadcast@,
                    0,
                    end as int,
                ));
                assert(clipped(tc.witness@, 0, pos as int) + c.witness@ =~= clipped(
                    tc.witness@,
                    0,
                    end as int,
                ));
            }
            let ghost prev = out@;
            out.push(c);
            assert(out@ == prev.push(c));
            pos = end;
        }
        assert(clipped(tc.corrections@, 0, pos as int) =~= tc.corrections@);
        assert(clipped(tc.broadcast@, 0, pos as int) =~= tc.broadcast@);
        assert(clipped(tc.witness@, 0, pos as int) =~= tc.witness@);
        out
    }
}

/// Where a transcript is cut does not change what is read from it: two cuts of
/// one transcript join back to the same streams.
pub proof fn lemma_chunk_boundaries_free(t: Chunk, a: Seq<Chunk>, b: Seq<Chunk>, ja: Chunk, jb: Chunk)
    requires
        carries(a, t),
        carries(b, t),
        carries(a, ja),
        carries(b, jb),
    ensures
        ja.corrections@ == jb.corrections@,
        ja.broadcast@ == jb.broadcast@,
        ja.witness@ == jb.witness@,
{
}

} // verus!
