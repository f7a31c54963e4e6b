use vstd::prelude::*;

verus! {

/// Bytes in one player's batch of wire values.
pub const BATCH_SIZE_BYTES: usize = 8;

/// Wire values held by one batch: one bit each.
pub const BATCH_SIZE_BITS: usize = 64;

/// One player's values for a group of wires, packed one bit per wire.
/// Wire `w` of the group sits in byte `w / 8`, most significant bit first.
#[derive(Clone, Copy, Debug)]
pub struct BitBatch(pub [u8; BATCH_SIZE_BYTES]);

/// One wire's value shared among 8 players: bit `p` is player `p`'s share.
#[derive(Clone, Copy, Debug, PartialEq, Eq, Structural)]
pub struct BitSharing8(pub u8);

/// One wire's value shared among 64 players: bit `p` is player `p`'s share.
#[derive(Clone, Copy, Debug, PartialEq, Eq, Structural)]
pub struct BitSharing64(pub u64);

/// Bit `k` of a byte, counted from the most significant bit.
pub open spec fn msb_bit(byte: u8, k: u8) -> bool {
    (byte >> ((7 - k) as u8)) & 1u8 == 1u8
}

/// The value of wire `w` in a batch.
pub open spec fn batch_bit(b: BitBatch, w: int) -> bool {
    msb_bit(b.0[w / 8], (w % 8) as u8)
}

/// A batch as the row of its wire bits.
pub open spec fn batch_bits(b: BitBatch) -> Seq<bool> {
    Seq::new(BATCH_SIZE_BITS as nat, |w: int| batch_bit(b, w))
}

/// A sharing among 8 players as the row of its shares.
pub open spec fn sharing8_bits(s: BitSharing8) -> Seq<bool> {
    Seq::new(8, |p: int| (s.0 >> (p as u8)) & 1u8 == 1u8)
}

/// A sharing among 64 players as the row of its shares.
pub open spec fn sharing64_bits(s: BitSharing64) -> Seq<bool> {
    Seq::new(64, |p: int| (s.0 >> (p as u64)) & 1u64 == 1u64)
}

/// The transpose of a matrix of bits with `cols` columns: row `j` of the result is
/// column `j` of `m`.
pub open spec fn transpose(m: Seq<Seq<bool>>, cols: nat) -> Seq<Seq<bool>> {
    Seq::new(cols, |j: int| Seq::new(m.len(), |i: int| m[i][j]))
}

/// Every row of `m` has `cols` entries.
pub open spec fn is_matrix(m: Seq<Seq<bool>>, cols: nat) -> bool {
    forall|i: int| 0 <= i < m.len() ==> #[trigger] m[i].len() == cols
}

proof fn lemma_set_bit(acc: u64, b: u64, p: u64, q: u64)
    by (bit_vector)
    requires
        b <= 1,
        p < 64,
        q < 64,
        acc >> p == 0,
    ensures
        q == p ==> ((acc | (b << p)) >> q) & 1 == b,
        q != p ==> ((acc | (b << p)) >> q) & 1 == (acc >> q) & 1,
        p < 63 ==> (acc | (b << p)) >> ((p + 1) as u64) == 0,
{
}

proof fn lemma_low_byte(r: u64, q: u64)
    by (bit_vector)
    requires
        r >> 8 == 0,
        q < 8,
    ensures
        (((r as u8) >> (q as u8)) & 1u8 == 1u8) == ((r >> q) & 1u64 == 1u64),
{
}

proof fn lemma_msb_bit(byte: u8, shift: u8)
    by (bit_vector)
    requires
        shift < 8,
    ensures
        ((byte >> shift) & 1u8) as u64 <= 1,
        (((byte >> shift) & 1u8) as u64 == 1) == ((byte >> shift) & 1u8 == 1u8),
{
}

/// Gathers wire `w` of each batch in `src`: bit `p` of the result is wire `w`
/// of `src[p]`, and no bit at or above `src.len()` is set.
fn gather(src: &[BitBatch], w: usize) -> (r: u64)
    requires
        src@.len() <= 64,
        w < BATCH_SIZE_BITS,
    ensures
        forall|p: u64|
            p < src@.len() ==> (((r >> p) & 1u64 == 1u64) == batch_bit(src@[p as int], w as int)),
        src@.len() < 64 ==> r >> (src@.len() as u64) == 0,
{
    let byte: usize = w / 8;
    let shift: u8 = 7 - (w % 8) as u8;
    let mut acc: u64 = 0;
    let mut p: usize = 0;
    assert(0u64 >> 0u64 == 0) by (bit_vector);
    while p < src.len()
        invariant
            p <= src@.len() <= 64,
            byte == w / 8,
            shift == 7 - (w % 8),
            w < BATCH_SIZE_BITS,
            p < 64 ==> acc >> (p as u64) == 0,
            forall|q: u64|
                q < p ==> (((acc >> q) & 1u64 == 1u64) == batch_bit(src@[q as int], w as int)),
        decreases src@.len() - p,
    {
        let bit: u64 = ((src[p].0[byte] >> shift) & 1) as u64;
        proof {
            lemma_msb_bit(src@[p as int].0[byte as int], shift);
        }
        let ghost prev = acc;
        acc = acc | (bit << (p as u64));
        proof {
            assert forall|q: u64| q < p + 1 implies (((acc >> q) & 1u64 == 1u64) == batch_bit(
                src@[q as int],
                w as int,
            )) by {
                lemma_set_bit(prev, bit, p as u64, q);
            }
            lemma_set_bit(prev, bit, p as u64, 0);
        }
        p = p + 1;
    }
    acc
}

/// A wire value: one bit.
#[derive(Clone, Copy, Debug, PartialEq, Eq, Structural)]
pub struct BitScalar(pub bool);

/// The domain of bits shared among 8 players.
pub struct GF2P8 {}

/// The domain of bits shared among 64 players.
pub struct GF2P64 {}

/// What a share domain offers: a batch type that holds one player's values for a
/// group of wires, a sharing type that holds one wire's shares among the players,
/// and the transpose from the one to the other.
pub trait Domain: Sized {
    type Batch;
    type Sharing;

    /// Players that hold a share of each wire.
    spec fn players() -> nat;

    /// A batch as the row of its wire bits.
    spec fn batch_row(b: Self::Batch) -> Seq<bool>;

    /// A sharing as the row of its players' shares.
    spec fn sharing_row(s: Self::Sharing) -> Seq<bool>;

    /// Every batch holds `BATCH_SIZE_BITS` wires; every sharing holds one share per
    /// player.
    proof fn lemma_row_lengths(b: Self::Batch, s: Self::Sharing)
        ensures
            Self::batch_row(b).len() == BATCH_SIZE_BITS,
            Self::sharing_row(s).len() == Self::players(),
    ;

    /// The sum in GF(2) of two sharings: each player's shares added.
    spec fn sharing_sum(s: Self::Sharing, t: Self::Sharing) -> Self::Sharing;

    /// `c` is the sum in GF(2) of the batches `a` and `b`: each wire's values added.
    spec fn is_batch_sum(c: Self::Batch, a: Self::Batch, b: Self::Batch) -> bool;

    /// Adding in GF(2) is the exclusive or of each share, and of each wire value.
    proof fn lemma_sums(
        s: Self::Sharing,
        t: Self::Sharing,
        c: Self::Batch,
        a: Self::Batch,
        b: Self::Batch,
    )
        ensures
            forall|p: int|
                0 <= p < Self::players() ==> #[trigger] Self::sharing_row(Self::sharing_sum(s, t))[p]
                    == (Self::sharing_row(s)[p] != Self::sharing_row(t)[p]),
            Self::is_batch_sum(c, a, b) ==> forall|w: int|
                0 <= w < BATCH_SIZE_BITS ==> #[trigger] Self::batch_row(c)[w] == (Self::batch_row(
                    a,
                )[w] != Self::batch_row(b)[w]),
    ;

    /// Transposes one batch per player into one sharing per wire: sharing `w` gets
    /// wire `w` of batch `p` as player `p`'s share. Sharings past the first
    /// `BATCH_SIZE_BITS` are left as they were.
    fn convert(dst: &mut [Self::Sharing], src: &[Self::Batch])
        requires
            src@.len() == Self::players(),
            old(dst)@.len() >= BATCH_SIZE_BITS,
        ensures
            final(dst)@.len() == old(dst)@.len(),
            final(dst)@.subrange(0, BATCH_SIZE_BITS as int).map_values(
                |s: Self::Sharing| Self::sharing_row(s),
            ) == transpose(
                src@.map_values(|b: Self::Batch| Self::batch_row(b)),
                BATCH_SIZE_BITS as nat,
            ),
            forall|j: int|
                BATCH_SIZE_BITS <= j < old(dst)@.len() ==> final(dst)@[j] == old(dst)@[j],
    ;
}

/// The player-by-wire matrix that batches hold, one row per player.
pub open spec fn batch_rows<D: Domain>(src: Seq<D::Batch>) -> Seq<Seq<bool>> {
    src.map_values(|b: D::Batch| D::batch_row(b))
}

/// The wire-by-player matrix that the first `BATCH_SIZE_BITS` sharings hold, one
/// row per wire.
pub open spec fn sharing_matrix<D: Domain>(dst: Seq<D::Sharing>) -> Seq<Seq<bool>> {
    dst.subrange(0, BATCH_SIZE_BITS as int).map_values(|s: D::Sharing| D::sharing_row(s))
}

impl GF2P8 {
    /// Repetitions of the online phase in a proof over this domain: the length of
    /// the hidden players' hash list that a verification must meet.
    pub const ONLINE_REPETITIONS: usize = 44;

    /// Players that hold a share of each wire.
    pub const PLAYERS: usize = 8;

    /// Sharings that one conversion produces: one per wire of a batch.
    pub const SHARINGS_PER_BATCH: usize = BATCH_SIZE_BITS;
}

impl GF2P64 {
    /// Repetitions of the online phase in a proof over this domain: the length of
    /// the hidden players' hash list that a verification must meet.
    pub const ONLINE_REPETITIONS: usize = 2;

    /// Players that hold a share of each wire.
    pub const PLAYERS: usize = 64;

    /// Sharings that one conversion produces: one per wire of a batch.
    pub const SHARINGS_PER_BATCH: usize = BATCH_SIZE_BITS;
}

impl Domain for GF2P8 {
    type Batch = BitBatch;
    type Sharing = BitSharing8;

    open spec fn players() -> nat {
        GF2P8::PLAYERS as nat
    }

    open spec fn batch_row(b: BitBatch) -> Seq<bool> {
        batch_bits(b)
    }

    open spec fn sharing_row(s: BitSharing8) -> Seq<bool> {
        sharing8_bits(s)
    }

    proof fn lemma_row_lengths(b: BitBatch, s: BitSharing8) {
    }

    open spec fn sharing_sum(s: BitSharing8, t: BitSharing8) -> BitSharing8 {
        BitSharing8(s.0 ^ t.0)
    }

    open spec fn is_batch_sum(c: BitBatch, a: BitBatch, b: BitBatch) -> bool {
        is_xor_batch(c, a, b)
    }

    proof fn lemma_sums(s: BitSharing8, t: BitSharing8, c: BitBatch, a: BitBatch, b: BitBatch) {
        assert forall|p: int| 0 <= p < 8 implies #[trigger] sharing8_bits(BitSharing8(s.0 ^ t.0))[p]
            == (sharing8_bits(s)[p] != sharing8_bits(t)[p]) by {
            lemma_xor_bit8(s.0, t.0, p as u8);
        }
        if is_xor_batch(c, a, b) {
            assert forall|w: int| 0 <= w < BATCH_SIZE_BITS implies #[trigger] batch_bits(c)[w]
                == (batch_bits(a)[w] != batch_bits(b)[w]) by {
                lemma_xor_batch_bit(c, a, b, w);
            }
        }
    }

    fn convert(dst: &mut [BitSharing8], src: &[BitBatch]) {
        let mut w: usize = 0;
        while w < BATCH_SIZE_BITS
            invariant
                w <= BATCH_SIZE_BITS,
                src@.len() == 8,
                dst@.len() == old(dst)@.len(),
                old(dst)@.len() >= BATCH_SIZE_BITS,
                forall|j: int| w <= j < old(dst)@.len() ==> dst@[j] == old(dst)@[j],
                forall|j: int, p: int|
                    0 <= j < w && 0 <= p < 8 ==> #[trigger] sharing8_bits(dst@[j])[p]
                        == batch_bit(src@[p], j),
            decreases BATCH_SIZE_BITS - w,
        {
            let r = gather(src, w);
            let s = BitSharing8(r as u8);
            proof {
                assert forall|p: int| 0 <= p < 8 implies #[trigger] sharing8_bits(s)[p]
                    == batch_bit(src@[p], w as int) by {
                    lemma_low_byte(r, p as u64);
                }
            }
            dst[w] = s;
            w = w + 1;
        }
        assert(dst@.subrange(0, BATCH_SIZE_BITS as int).map_values(
            |s: Self::Sharing| Self::sharing_row(s),
        ) =~~= transpose(
            src@.map_values(|b: Self::Batch| Self::batch_row(b)),
            BATCH_SIZE_BITS as nat,
        ));
    }
}

impl Domain for GF2P64 {
    type Batch = BitBatch;
    type Sharing = BitSharing64;

    open spec fn players() -> nat {
        GF2P64::PLAYERS as nat
    }

    open spec fn batch_row(b: BitBatch) -> Seq<bool> {
        batch_bits(b)
    }

    open spec fn sharing_row(s: BitSharing64) -> Seq<bool> {
        sharing64_bits(s)
    }

    proof fn lemma_row_lengths(b: BitBatch, s: BitSharing64) {
    }

    open spec fn sharing_sum(s: BitSharing64, t: BitSharing64) -> BitSharing64 {
        BitSharing64(s.0 ^ t.0)
    }

    open spec fn is_batch_sum(c: BitBatch, a: BitBatch, b: BitBatch) -> bool {
        is_xor_batch(c, a, b)
    }

    proof fn lemma_sums(s: BitSharing64, t: BitSharing64, c: BitBatch, a: BitBatch, b: BitBatch) {
        assert forall|p: int| 0 <= p < 64 implies #[trigger] sharing64_bits(BitSharing64(s.0 ^ t.0))[p]
            == (sharing64_bits(s)[p] != sharing64_bits(t)[p]) by {
            lemma_xor_bit64(s.0, t.0, p as u64);
        }
        if is_xor_batch(c, a, b) {
            assert forall|w: int| 0 <= w < BATCH_SIZE_BITS implies #[trigger] batch_bits(c)[w]
                == (batch_bits(a)[w] != batch_bits(b)[w]) by {
                lemma_xor_batch_bit(c, a, b, w);
            }
        }
    }

    fn convert(dst: &mut [BitSharing64], src: &[BitBatch]) {
        let mut w: usize = 0;
        while w < BATCH_SIZE_BITS
            invariant
                w <= BATCH_SIZE_BITS,
                src@.len() == 64,
                dst@.len() == old(dst)@.len(),
                old(dst)@.len() >= BATCH_SIZE_BITS,
                forall|j: int| w <= j < old(dst)@.len() ==> dst@[j] == old(dst)@[j],
                forall|j: int, p: int|
                    0 <= j < w && 0 <= p < 64 ==> #[trigger] sharing64_bits(dst@[j])[p]
                        == batch_bit(src@[p], j),
            decreases BATCH_SIZE_BITS - w,
        {
            let r = gather(src, w);
            let s = BitSharing64(r);
            assert forall|p: int| 0 <= p < 64 implies #[trigger] sharing64_bits(s)[p]
                == batch_bit(src@[p], w as int) by {
                assert(((r >> (p as u64)) & 1u64 == 1u64) == batch_bit(
                    src@[(p as u64) as int],
                    w as int,
                ));
            }
            dst[w] = s;
            w = w + 1;
        }
        assert(dst@.subrange(0, BATCH_SIZE_BITS as int).map_values(
            |s: Self::Sharing| Self::sharing_row(s),
        ) =~~= transpose(
            src@.map_values(|b: Self::Batch| Self::batch_row(b)),
            BATCH_SIZE_BITS as nat,
        ));
    }
}

impl BitBatch {
    /// The sum in GF(2) of two batches: each byte is the exclusive or of the two.
    pub fn xor(&self, other: &BitBatch) -> (r: BitBatch)
        ensures
            is_xor_batch(r, *self, *other),
    {
        let mut bytes: [u8; BATCH_SIZE_BYTES] = [0u8; BATCH_SIZE_BYTES];
        let mut i: usize = 0;
        while i < BATCH_SIZE_BYTES
            invariant
                i <= BATCH_SIZE_BYTES,
                forall|k: int| 0 <= k < i ==> bytes[k] == self.0[k] ^ other.0[k],
            decreases BATCH_SIZE_BYTES - i,
        {
            bytes[i] = self.0[i] ^ other.0[i];
            i = i + 1;
        }
        BitBatch(bytes)
    }
}

/// `c` is the byte-wise exclusive or of `a` and `b`.
pub open spec fn is_xor_batch(c: BitBatch, a: BitBatch, b: BitBatch) -> bool {
    forall|i: int| 0 <= i < BATCH_SIZE_BYTES ==> #[trigger] c.0[i] == a.0[i] ^ b.0[i]
}

impl BitSharing8 {
    /// The sum in GF(2) of two sharings: each player's share is the exclusive or of
    /// the two.
    pub fn xor(&self, other: &BitSharing8) -> (r: BitSharing8)
        ensures
            r.0 == self.0 ^ other.0,
    {
        BitSharing8(self.0 ^ other.0)
    }
}

impl BitSharing64 {
    /// The sum in GF(2) of two sharings: each player's share is the exclusive or of
    /// the two.
    pub fn xor(&self, other: &BitSharing64) -> (r: BitSharing64)
        ensures
            r.0 == self.0 ^ other.0,
    {
        BitSharing64(self.0 ^ other.0)
    }
}

/// Transposing twice gives back the matrix: regrouping by player the sharings that
/// a conversion wrote recovers every bit of every batch at its own place.
pub proof fn lemma_transpose_round_trip(m: Seq<Seq<bool>>, cols: nat)
    requires
        is_matrix(m, cols),
    ensures
        transpose(transpose(m, cols), m.len()) == m,
{
    assert forall|i: int| 0 <= i < m.len() implies #[trigger] transpose(transpose(m, cols), m.len())[i]
        == m[i] by {
        assert(transpose(transpose(m, cols), m.len())[i] =~= m[i]);
    }
    assert(transpose(transpose(m, cols), m.len()) =~= m);
}

/// Regrouping by player the sharings that a conversion wrote gives back the
/// source batches, bit for bit.
pub proof fn lemma_convert_round_trip<D: Domain>(src: Seq<D::Batch>, dst: Seq<D::Sharing>)
    requires
        src.len() == D::players(),
        dst.len() >= BATCH_SIZE_BITS,
        sharing_matrix::<D>(dst) == transpose(batch_rows::<D>(src), BATCH_SIZE_BITS as nat),
    ensures
        transpose(sharing_matrix::<D>(dst), D::players()) == batch_rows::<D>(src),
{
    assert forall|i: int| 0 <= i < src.len() implies #[trigger] batch_rows::<D>(src)[i].len()
        == BATCH_SIZE_BITS by {
        D::lemma_row_lengths(src[i], dst[0]);
    }
    lemma_transpose_round_trip(batch_rows::<D>(src), BATCH_SIZE_BITS as nat);
}

/// A conversion fills exactly `BATCH_SIZE_BITS` sharings, each with one share per
/// player, and every share is the bit of the matching player and wire.
pub proof fn lemma_convert_total<D: Domain>(src: Seq<D::Batch>, dst: Seq<D::Sharing>)
    requires
        src.len() == D::players(),
        dst.len() >= BATCH_SIZE_BITS,
        sharing_matrix::<D>(dst) == transpose(batch_rows::<D>(src), BATCH_SIZE_BITS as nat),
    ensures
        sharing_matrix::<D>(dst).len() == BATCH_SIZE_BITS,
        forall|w: int|
            0 <= w < BATCH_SIZE_BITS ==> #[trigger] D::sharing_row(dst[w]).len() == D::players(),
        forall|w: int, p: int|
            0 <= w < BATCH_SIZE_BITS && 0 <= p < D::players() ==> #[trigger] D::sharing_row(
                dst[w],
            )[p] == D::batch_row(src[p])[w],
{
    assert forall|w: int| 0 <= w < BATCH_SIZE_BITS implies #[trigger] D::sharing_row(dst[w]).len()
        == D::players() by {
        D::lemma_row_lengths(src[0], dst[w]);
    }
    assert forall|w: int, p: int|
        0 <= w < BATCH_SIZE_BITS && 0 <= p < D::players() implies #[trigger] D::sharing_row(
            dst[w],
        )[p] == D::batch_row(src[p])[w] by {
        assert(sharing_matrix::<D>(dst)[w] == D::sharing_row(dst[w]));
        assert(transpose(batch_rows::<D>(src), BATCH_SIZE_BITS as nat)[w][p] == batch_rows::<D>(
            src,
        )[p][w]);
    }
}

proof fn lemma_xor_bit8(x: u8, y: u8, q: u8)
    by (bit_vector)
    requires
        q < 8,
    ensures
        (((x ^ y) >> q) & 1u8 == 1u8) == (((x >> q) & 1u8 == 1u8) != ((y >> q) & 1u8 == 1u8)),
{
}

proof fn lemma_xor_bit64(x: u64, y: u64, q: u64)
    by (bit_vector)
    requires
        q < 64,
    ensures
        (((x ^ y) >> q) & 1u64 == 1u64) == (((x >> q) & 1u64 == 1u64) != ((y >> q) & 1u64
            == 1u64)),
{
}

proof fn lemma_xor_batch_bit(c: BitBatch, a: BitBatch, b: BitBatch, w: int)
    requires
        is_xor_batch(c, a, b),
        0 <= w < BATCH_SIZE_BITS,
    ensures
        batch_bit(c, w) == (batch_bit(a, w) != batch_bit(b, w)),
{
    assert(c.0[w / 8] == a.0[w / 8] ^ b.0[w / 8]);
    lemma_xor_bit8(a.0[w / 8], b.0[w / 8], (7 - (w % 8)) as u8);
}

/// Sharing is additive: the sum of the sharings converted from two sets of
/// batches is the sharing converted from their player-wise sum.
pub proof fn lemma_convert_linear<D: Domain>(
    a_src: Seq<D::Batch>,
    b_src: Seq<D::Batch>,
    c_src: Seq<D::Batch>,
    a: Seq<D::Sharing>,
    b: Seq<D::Sharing>,
)
    requires
        a_src.len() == D::players(),
        b_src.len() == D::players(),
        c_src.len() == D::players(),
        forall|p: int| 0 <= p < D::players() ==> D::is_batch_sum(#[trigger] c_src[p], a_src[p], b_src[p]),
        a.len() >= BATCH_SIZE_BITS,
        b.len() >= BATCH_SIZE_BITS,
        sharing_matrix::<D>(a) == transpose(batch_rows::<D>(a_src), BATCH_SIZE_BITS as nat),
        sharing_matrix::<D>(b) == transpose(batch_rows::<D>(b_src), BATCH_SIZE_BITS as nat),
    ensures
        forall|w: int|
            0 <= w < BATCH_SIZE_BITS ==> D::sharing_row(D::sharing_sum(#[trigger] a[w], b[w]))
                == transpose(batch_rows::<D>(c_src), BATCH_SIZE_BITS as nat)[w],
{
    lemma_convert_total::<D>(a_src, a);
    lemma_convert_total::<D>(b_src, b);
    assert forall|w: int| 0 <= w < BATCH_SIZE_BITS implies D::sharing_row(
        D::sharing_sum(#[trigger] a[w], b[w]),
    ) == transpose(batch_rows::<D>(c_src), BATCH_SIZE_BITS as nat)[w] by {
        let sum = D::sharing_sum(a[w], b[w]);
        D::lemma_row_lengths(c_src[0], sum);
        assert forall|p: int| 0 <= p < D::players() implies #[trigger] D::sharing_row(sum)[p]
            == transpose(batch_rows::<D>(c_src), BATCH_SIZE_BITS as nat)[w][p] by {
            D::lemma_sums(a[w], b[w], c_src[p], a_src[p], b_src[p]);
            assert(D::sharing_row(a[w])[p] == D::batch_row(a_src[p])[w]);
            assert(D::sharing_row(b[w])[p] == D::batch_row(b_src[p])[w]);
        }
        assert(D::sharing_row(sum) =~= transpose(batch_rows::<D>(c_src), BATCH_SIZE_BITS as nat)[w]);
    }
}

} // verus!
