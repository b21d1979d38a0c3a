//! Systematic Reed-Solomon erasure codec over GF(2^8).
//!
//! A payload of `n` bytes is cut into `k` data shards of `ceil(n / k)` bytes
//! each (the last one padded with zero bytes), followed by `m` parity shards of
//! the same length. Any `k` of the `k + m` shards give the padded payload back.
use reed_solomon_erasure::galois_8;
use reed_solomon_erasure::ReedSolomon;
use vstd::arithmetic::div_mod::lemma_fundamental_div_mod;
use vstd::prelude::*;

verus! {

/// The error type of `reed_solomon_erasure`, which the coder's calls return.
#[verifier::external_type_specification]
#[verifier::external_body]
pub struct ExRsError(reed_solomon_erasure::Error);

/// Largest number of shards (data and parity together) a codec accepts.
pub const MAX_TOTAL_SHARDS: usize = 255;

/// Errors of the codec.
#[derive(Clone, Copy, Debug, PartialEq, Eq, Structural)]
pub enum CodecError {
    /// The shard counts are not usable: no data shard, or too many shards.
    EncodingError,
    /// The shards handed to `decode` cannot give the payload back.
    DecodingError,
}

/// Shard counts that a codec accepts.
pub open spec fn valid_counts(k: nat, m: nat) -> bool {
    1 <= k && k + m <= MAX_TOTAL_SHARDS
}

/// The parity bytes that the Reed-Solomon code of `ReedSolomon::new(k, m)`
/// computes from one column of data bytes (byte `p` of each of the `k` data
/// shards, in shard order). The code works column by column: parity byte `p`
/// of parity shard `j` is element `j` of this sequence for column `p`.
pub uninterp spec fn rs_parity_column(column: Seq<u8>, parity_count: nat) -> Seq<u8>;

/// Length of each shard when `n` bytes are cut into `k` shards: `ceil(n / k)`.
pub open spec fn shard_len(n: nat, k: nat) -> nat {
    if k == 0 {
        0
    } else {
        n / k + if n % k == 0 {
            0nat
        } else {
            1nat
        }
    }
}

/// Byte `q` of `b`, or the zero padding past its end.
pub open spec fn padded_byte(b: Seq<u8>, q: int) -> u8 {
    if 0 <= q < b.len() {
        b[q]
    } else {
        0
    }
}

/// The `k` data shards of payload `b`: shard `i` holds bytes `i * l .. (i + 1) * l`
/// of `b` padded with zeros, where `l = shard_len(|b|, k)`.
pub open spec fn data_shards_of(b: Seq<u8>, k: nat) -> Seq<Seq<u8>> {
    let l = shard_len(b.len(), k);
    Seq::new(k, |i: int| Seq::new(l, |p: int| padded_byte(b, i * l + p)))
}

/// Byte `p` of each shard of `d`, in shard order.
pub open spec fn column(d: Seq<Seq<u8>>, p: int) -> Seq<u8> {
    Seq::new(d.len(), |i: int| d[i][p])
}

/// The `m` parity shards, each of length `l`, that the code computes from the
/// data shards `d`.
pub open spec fn parity_of(d: Seq<Seq<u8>>, m: nat, l: nat) -> Seq<Seq<u8>> {
    Seq::new(m, |j: int| Seq::new(l, |p: int| rs_parity_column(column(d, p), m)[j]))
}

/// All `k + m` shards that belong to the data shards `d` of length `l`.
pub open spec fn codeword(d: Seq<Seq<u8>>, m: nat, l: nat) -> Seq<Seq<u8>> {
    d + parity_of(d, m, l)
}

/// What `encode` returns for payload `b` with `k` data and `m` parity shards.
pub open spec fn encoded(b: Seq<u8>, k: nat, m: nat) -> Seq<Seq<u8>> {
    codeword(data_shards_of(b, k), m, shard_len(b.len(), k))
}

/// The byte contents of a sequence of buffers.
pub open spec fn views(s: Seq<Vec<u8>>) -> Seq<Seq<u8>> {
    s.map_values(|v: Vec<u8>| v@)
}

/// The contents of a row of shard slots, `None` for a missing shard.
pub open spec fn slot_views(s: Seq<Option<Vec<u8>>>) -> Seq<Option<Seq<u8>>> {
    s.map_values(
        |o: Option<Vec<u8>>|
            match o {
                Some(v) => Some(v@),
                None => None,
            },
    )
}

/// Number of shards present in a row of slots.
pub open spec fn count_present(s: Seq<Option<Seq<u8>>>) -> nat
    decreases s.len(),
{
    if s.len() == 0 {
        0
    } else {
        count_present(s.drop_last()) + if s.last() is Some {
            1nat
        } else {
            0nat
        }
    }
}

/// Every shard present in the slots has length `l`.
pub open spec fn all_present_len(s: Seq<Option<Seq<u8>>>, l: nat) -> bool {
    forall|i: int| 0 <= i < s.len() && s[i] is Some ==> (#[trigger] s[i])->Some_0.len() == l
}

/// The slots that hold a shard agree with the codeword of data shards `d`,
/// each of length `l`.
pub open spec fn slots_agree(s: Seq<Option<Seq<u8>>>, d: Seq<Seq<u8>>, m: nat, l: nat) -> bool {
    &&& forall|i: int| 0 <= i < d.len() ==> (#[trigger] d[i]).len() == l
    &&& forall|i: int|
        0 <= i < s.len() && s[i] is Some ==> s[i]->Some_0 == (#[trigger] codeword(d, m, l)[i])
}

/// `shards[j]` is shard number `indices[j]`; enough of them, all distinct,
/// all of one length, for a codec of `k` data and `m` parity shards.
pub open spec fn decodable(k: nat, m: nat, shards: Seq<Seq<u8>>, indices: Seq<usize>) -> bool {
    &&& shards.len() == indices.len()
    &&& indices.len() >= k
    &&& forall|j: int| 0 <= j < indices.len() ==> (#[trigger] indices[j]) < k + m
    &&& forall|a: int, b: int|
        0 <= a < b < indices.len() ==> #[trigger] indices[a] != #[trigger] indices[b]
    &&& forall|j: int| 0 <= j < shards.len() ==> (#[trigger] shards[j]).len() == shards[0].len()
}

/// Shard `j` equals shard `indices[j]` of the codeword of data shards `d`,
/// each of length `l`.
pub open spec fn agrees_with(
    d: Seq<Seq<u8>>,
    m: nat,
    l: nat,
    shards: Seq<Seq<u8>>,
    indices: Seq<usize>,
) -> bool {
    &&& forall|i: int| 0 <= i < d.len() ==> (#[trigger] d[i]).len() == l
    &&& forall|j: int|
        0 <= j < shards.len() && j < indices.len() ==> #[trigger] shards[j] == codeword(
            d,
            m,
            l,
        )[indices[j] as int]
}

/// Relies on `ReedSolomon::new`, which builds a coder for any `k >= 1`,
/// `m >= 1` with `k + m <= 256`, and on `ReedSolomon::reconstruct_data`: with
/// `k + m` slots of which at least `k` hold shards of one non-zero length, it
/// keeps the shards present and fills every missing data slot. The data are
/// solved from `k` of the shards present, so where those shards belong to the
/// codeword of some data shards, the data slots end up holding those data.
#[verifier::external_body]
fn rs_reconstruct_data(
    data_shards: usize,
    parity_shards: usize,
    slots: &mut Vec<Option<Vec<u8>>>,
) -> (r: Result<(), reed_solomon_erasure::Error>)
    requires
        data_shards >= 1,
        parity_shards >= 1,
        data_shards + parity_shards <= 256,
        old(slots).len() == data_shards + parity_shards,
        count_present(slot_views(old(slots)@)) >= data_shards,
        forall|i: int|
            0 <= i < old(slots).len() && (#[trigger] old(slots)[i]) is Some ==> old(
                slots,
            )[i]->Some_0.len() > 0,
        forall|i: int, j: int|
            0 <= i < old(slots).len() && 0 <= j < old(slots).len() && (#[trigger] old(slots)[i]) is Some
                && (#[trigger] old(slots)[j]) is Some ==> old(slots)[i]->Some_0.len() == old(
                slots,
            )[j]->Some_0.len(),
    ensures
        r is Ok,
        final(slots).len() == old(slots).len(),
        forall|i: int|
            0 <= i < old(slots).len() && (#[trigger] old(slots)[i]) is Some ==> slot_views(
                final(slots)@,
            )[i] == slot_views(old(slots)@)[i],
        forall|i: int| 0 <= i < data_shards ==> (#[trigger] final(slots)[i]) is Some,
        forall|l: nat|
            #![trigger all_present_len(slot_views(old(slots)@), l)]
            all_present_len(slot_views(old(slots)@), l) ==> forall|i: int|
                0 <= i < data_shards ==> (#[trigger] final(slots)[i])->Some_0.len() == l,
        forall|d: Seq<Seq<u8>>, l: nat|
            d.len() == data_shards && #[trigger] slots_agree(
                slot_views(old(slots)@),
                d,
                parity_shards as nat,
                l,
            ) ==> forall|i: int| 0 <= i < data_shards ==> final(slots)[i]->Some_0@ == d[i],
{
    match ReedSolomon::<galois_8::Field>::new(data_shards, parity_shards) {
        Ok(rs) => rs.reconstruct_data(slots.as_mut_slice()),
        Err(e) => Err(e),
    }
}

/// Relies on `ReedSolomon::new`, which builds a coder for any `k >= 1`,
/// `m >= 1` with `k + m <= 256`, and on `ReedSolomon::encode`: given `k + m`
/// shards of one non-zero length, it keeps the first `k` and overwrites the
/// last `m` with the parity that the code computes, byte column by byte
/// column, from the first `k`.
#[verifier::external_body]
fn rs_encode(data_shards: usize, parity_shards: usize, shards: &mut Vec<Vec<u8>>) -> (r: Result<
    (),
    reed_solomon_erasure::Error,
>)
    requires
        data_shards >= 1,
        parity_shards >= 1,
        data_shards + parity_shards <= 256,
        old(shards).len() == data_shards + parity_shards,
        old(shards)[0].len() > 0,
        forall|i: int| 0 <= i < old(shards).len() ==> #[trigger] old(shards)[i].len() == old(shards)[0].len(),
    ensures
        r is Ok,
        final(shards).len() == old(shards).len(),
        forall|i: int| 0 <= i < data_shards ==> #[trigger] final(shards)[i]@ == old(shards)[i]@,
        forall|j: int|
            0 <= j < parity_shards ==> #[trigger] final(shards)[data_shards + j]@
                == Seq::new(
                old(shards)[0].len() as nat,
                |p: int|
                    rs_parity_column(
                        column(views(old(shards)@).take(data_shards as int), p),
                        parity_shards as nat,
                    )[j],
            ),
{
    match ReedSolomon::<galois_8::Field>::new(data_shards, parity_shards) {
        Ok(rs) => rs.encode(shards),
        Err(e) => Err(e),
    }
}

/// `k` shards of `shard_len(n, k)` bytes hold `n` bytes, with less than one
/// shard's worth of padding.
pub proof fn lemma_shard_len_covers(n: nat, k: nat)
    requires
        k >= 1,
    ensures
        n <= k * shard_len(n, k),
        k * shard_len(n, k) < n + k,
{
    lemma_fundamental_div_mod(n as int, k as int);
    let q = n / k;
    let r = n % k;
    if r == 0 {
        assert(k * shard_len(n, k) == k * q);
    } else {
        assert(k * shard_len(n, k) == k * (q + 1));
        assert(k * (q + 1) == k * q + k) by (nonlinear_arith);
    }
}

proof fn lemma_count_present_bounds(s: Seq<Option<Seq<u8>>>)
    ensures
        count_present(s) <= s.len(),
        count_present(s) == s.len() ==> forall|i: int| 0 <= i < s.len() ==> (#[trigger] s[i]) is Some,
    decreases s.len(),
{
    if s.len() > 0 {
        lemma_count_present_bounds(s.drop_last());
        if count_present(s) == s.len() {
            assert forall|i: int| 0 <= i < s.len() implies (#[trigger] s[i]) is Some by {
                if i < s.len() - 1 {
                    assert(s.drop_last()[i] == s[i]);
                }
            }
        }
    }
}

proof fn lemma_count_present_fill(s: Seq<Option<Seq<u8>>>, i: int, x: Seq<u8>)
    requires
        0 <= i < s.len(),
        s[i] is None,
    ensures
        count_present(s.update(i, Some(x))) == count_present(s) + 1,
    decreases s.len(),
{
    let t = s.update(i, Some(x));
    if i == s.len() - 1 {
        assert(t.drop_last() =~= s.drop_last());
    } else {
        assert(t.drop_last() =~= s.drop_last().update(i, Some(x)));
        lemma_count_present_fill(s.drop_last(), i, x);
    }
}

/// The first `i` data shards of `b`, laid end to end, are the first `i * l`
/// bytes of `b` padded with zeros.
proof fn lemma_data_shards_prefix(b: Seq<u8>, k: nat, i: nat)
    requires
        i <= k,
    ensures
        data_shards_of(b, k).take(i as int).flatten_alt() =~= Seq::new(
            i * shard_len(b.len(), k),
            |q: int| padded_byte(b, q),
        ),
    decreases i,
{
    let l = shard_len(b.len(), k);
    let d = data_shards_of(b, k);
    if i > 0 {
        lemma_data_shards_prefix(b, k, (i - 1) as nat);
        assert(d.take(i as int).drop_last() =~= d.take(i - 1));
        assert((i - 1) * l + l == i * l) by (nonlinear_arith);
        let lhs = d.take(i as int).flatten_alt();
        assert(d.take(i as int).last() == d[i - 1]);
        assert(lhs == d.take(i - 1).flatten_alt() + d[i - 1]);
        assert(d[i - 1].len() == l);
        assert(lhs.len() == i * l);
        assert forall|q: int| 0 <= q < i * l implies #[trigger] lhs[q] == padded_byte(b, q) by {
            if q >= (i - 1) * l {
                assert(d[i - 1][q - (i - 1) * l] == padded_byte(b, (i - 1) * l + (q - (i - 1) * l)));
            }
        }
        assert(lhs =~= Seq::new(i * l, |q: int| padded_byte(b, q)));
    } else {
        assert(d.take(0).len() == 0);
        assert(0 * l == 0);
        assert(d.take(0).flatten_alt() =~= Seq::<u8>::empty());
    }
}

/// Laid end to end, the data shards of `b` start with `b` itself.
pub proof fn lemma_data_shards_hold_payload(b: Seq<u8>, k: nat)
    requires
        k >= 1,
    ensures
        data_shards_of(b, k).flatten().len() == k * shard_len(b.len(), k),
        data_shards_of(b, k).flatten().take(b.len() as int) == b,
{
    let d = data_shards_of(b, k);
    lemma_shard_len_covers(b.len(), k);
    lemma_data_shards_prefix(b, k, k);
    assert(d.take(k as int) =~= d);
    d.lemma_flatten_and_flatten_alt_are_equivalent();
    assert(d.flatten().take(b.len() as int) =~= b);
}

proof fn lemma_count_present_none(n: nat)
    ensures
        count_present(Seq::new(n, |x: int| None::<Seq<u8>>)) == 0,
    decreases n,
{
    if n > 0 {
        assert(Seq::new(n, |x: int| None::<Seq<u8>>).drop_last() =~= Seq::new(
            (n - 1) as nat,
            |x: int| None::<Seq<u8>>,
        ));
        lemma_count_present_none((n - 1) as nat);
    }
}

proof fn lemma_flatten_of_empties(d: Seq<Seq<u8>>)
    requires
        forall|i: int| 0 <= i < d.len() ==> (#[trigger] d[i]).len() == 0,
    ensures
        d.flatten() == Seq::<u8>::empty(),
{
    d.lemma_flatten_length_le_mul(0);
    d.lemma_flatten_and_flatten_alt_are_equivalent();
    assert(d.len() * 0 == 0);
    assert(d.flatten() =~= Seq::<u8>::empty());
}

/// Cuts `data` into `num_chunks` shards of `shard_len` bytes, padding the
/// last ones with zeros.
fn split_into_chunks(data: &[u8], num_chunks: usize) -> (r: Vec<Vec<u8>>)
    requires
        num_chunks >= 1,
        num_chunks * shard_len(data@.len(), num_chunks as nat) <= usize::MAX,
    ensures
        views(r@) == data_shards_of(data@, num_chunks as nat),
{
    let n = data.len();
    assert(shard_len(n as nat, num_chunks as nat) <= num_chunks * shard_len(n as nat, num_chunks as nat))
        by (nonlinear_arith)
        requires
            num_chunks >= 1,
    ;
    let l: usize = if n % num_chunks == 0 {
        n / num_chunks
    } else {
        n / num_chunks + 1
    };
    let ghost d = data_shards_of(data@, num_chunks as nat);
    let mut chunks: Vec<Vec<u8>> = Vec::new();
    let mut base: usize = 0;
    let mut i: usize = 0;
    while i < num_chunks
        invariant
            0 <= i <= num_chunks,
            n == data@.len(),
            l == shard_len(n as nat, num_chunks as nat),
            num_chunks * l <= usize::MAX,
            base == i * l,
            d == data_shards_of(data@, num_chunks as nat),
            views(chunks@) =~= d.take(i as int),
        decreases num_chunks - i,
    {
        assert((i + 1) * l <= num_chunks * l) by (nonlinear_arith)
            requires
                i + 1 <= num_chunks,
        ;
        assert((i + 1) * l == i * l + l) by (nonlinear_arith);
        let mut chunk: Vec<u8> = Vec::with_capacity(l);
        let mut p: usize = 0;
        while p < l
            invariant
                0 <= p <= l,
                base + l <= usize::MAX,
                n == data@.len(),
                chunk@ =~= Seq::new(p as nat, |q: int| padded_byte(data@, base + q)),
            decreases l - p,
        {
            let q = base + p;
            if q < n {
                chunk.push(data[q]);
            } else {
                chunk.push(0u8);
            }
            p = p + 1;
        }
        assert(chunk@ =~= d[i as int]);
        let ghost prev = chunks@;
        chunks.push(chunk);
        assert(views(chunks@) =~= views(prev).push(d[i as int]));
        assert(views(chunks@) =~= d.take(i + 1));
        base = base + l;
        i = i + 1;
    }
    assert(d.take(num_chunks as int) =~= d);
    chunks
}

/// An erasure codec configured with `data_shards` (k) and `parity_shards` (m).
pub struct ErasureCoder {
    data_shards: usize,
    parity_shards: usize,
}

impl ErasureCoder {
    /// The data shard count `k`.
    pub closed spec fn k(&self) -> nat {
        self.data_shards as nat
    }

    /// The parity shard count `m`.
    pub closed spec fn m(&self) -> nat {
        self.parity_shards as nat
    }

    /// The counts are usable.
    pub open spec fn wf(&self) -> bool {
        valid_counts(self.k(), self.m())
    }

    /// Builds a codec for `k` data shards and `m` parity shards. The counts are
    /// refused with `EncodingError` when `k` is zero or `k + m` is over 255.
    pub fn new(data_shards: usize, parity_shards: usize) -> (r: Result<ErasureCoder, CodecError>)
        ensures
            r is Ok <==> valid_counts(data_shards as nat, parity_shards as nat),
            r is Err ==> r == Err::<ErasureCoder, CodecError>(CodecError::EncodingError),
            r matches Ok(c) ==> c.wf() && c.k() == data_shards && c.m() == parity_shards,
    {
        if data_shards == 0 || data_shards > MAX_TOTAL_SHARDS || parity_shards > MAX_TOTAL_SHARDS
            - data_shards {
            return Err(CodecError::EncodingError);
        }
        Ok(ErasureCoder { data_shards, parity_shards })
    }

    /// Cuts `data` into `k` data shards of `ceil(|data| / k)` bytes (the last
    /// padded with zeros) and appends the `m` parity shards computed from them.
    /// Fails with `EncodingError` only where the `k + m` shards together would
    /// not fit in memory (their byte count exceeds `usize::MAX`).
    pub fn encode(&self, data: &[u8]) -> (r: Result<Vec<Vec<u8>>, CodecError>)
        requires
            self.wf(),
        ensures
            r is Ok <==> (self.k() + self.m()) * shard_len(data@.len(), self.k()) <= usize::MAX,
            r is Err ==> r == Err::<Vec<Vec<u8>>, CodecError>(CodecError::EncodingError),
            r matches Ok(shards) ==> views(shards@) == encoded(data@, self.k(), self.m()),
    {
        let k = self.data_shards;
        let m = self.parity_shards;
        let n = data.len();
        let l: usize = if n % k == 0 {
            n / k
        } else {
            proof {
                lemma_fundamental_div_mod(n as int, k as int);
                assert(k >= 2);
                assert(n / k < n) by (nonlinear_arith)
                    requires
                        n == k * (n / k) + n % k,
                        k >= 2,
                        n % k > 0,
                        n / k >= 0,
                ;
            }
            n / k + 1
        };
        assert(l == shard_len(n as nat, k as nat));
        assert((k + m) as u128 * l as u128 <= 255 * 0x1_0000_0000_0000_0000u128) by (nonlinear_arith)
            requires
                k + m <= 255,
                l <= usize::MAX,
        ;
        if (k + m) as u128 * l as u128 > usize::MAX as u128 {
            return Err(CodecError::EncodingError);
        }
        assert(k * l <= (k + m) * l) by (nonlinear_arith);
        let ghost d = data_shards_of(data@, k as nat);
        let mut shards = split_into_chunks(data, k);
        assert(shards@.len() == views(shards@).len());
        let mut j: usize = 0;
        while j < m
            invariant
                0 <= j <= m,
                shards.len() == k + j,
                views(shards@) =~= d + Seq::new(j as nat, |x: int| Seq::new(l as nat, |p: int| 0u8)),
            decreases m - j,
        {
            let zeros: Vec<u8> = vec![0u8; l];
            assert(zeros@ =~= Seq::new(l as nat, |p: int| 0u8));
            let ghost prev = shards@;
            shards.push(zeros);
            assert(views(shards@) =~= views(prev).push(zeros@));
            j = j + 1;
        }
        let ghost before = shards@;
        if m > 0 && l > 0 {
            assert(views(before)[0] == d[0]);
            assert forall|i: int| 0 <= i < shards.len() implies #[trigger] shards[i].len() == shards[0].len() by {
                assert(views(before)[i] == before[i]@);
            }
            match rs_encode(k, m, &mut shards) {
                Ok(()) => {},
                Err(_) => {
                    return Err(CodecError::EncodingError);
                },
            }
            assert(views(before).take(k as int) =~= d);
            assert(shards@.len() == k + m);
            assert forall|i: int| 0 <= i < k + m implies #[trigger] views(shards@)[i] == encoded(data@, k as nat, m as nat)[i] by {
                if i < k {
                    assert(views(before)[i] == before[i]@);
                } else {
                    assert(shards[k + (i - k)]@ == shards[i]@);
                }
            }
        } else {
            assert forall|i: int| 0 <= i < k + m implies #[trigger] views(shards@)[i] == encoded(data@, k as nat, m as nat)[i] by {
                if i >= k {
                    assert(views(shards@)[i] =~= encoded(data@, k as nat, m as nat)[i]);
                }
            }
        }
        assert(views(shards@) =~= encoded(data@, k as nat, m as nat));
        Ok(shards)
    }

    /// Gives the `k` data shards, end to end, back from the shards at hand:
    /// `shards[j]` is shard number `data_indices[j]` of an encoding. Missing
    /// data shards are rebuilt from the others. The result still carries the
    /// zero padding of `encode`: the caller, who knows the payload's length,
    /// cuts it off.
    ///
    /// Fails with `DecodingError` when fewer than `k` shards are given, when
    /// an index is out of range or repeated, or when the shards differ in
    /// length.
    pub fn decode(&self, shards: &[Vec<u8>], data_indices: &[usize]) -> (r: Result<
        Vec<u8>,
        CodecError,
    >)
        requires
            self.wf(),
        ensures
            r is Ok <==> decodable(self.k(), self.m(), views(shards@), data_indices@),
            r is Err ==> r == Err::<Vec<u8>, CodecError>(CodecError::DecodingError),
            r matches Ok(out) ==> out@.len() == self.k() * views(shards@)[0].len(),
            forall|d: Seq<Seq<u8>>, l: nat|
                d.len() == self.k() && #[trigger] agrees_with(
                    d,
                    self.m(),
                    l,
                    views(shards@),
                    data_indices@,
                ) && decodable(self.k(), self.m(), views(shards@), data_indices@) ==> (r matches Ok(
                    out,
                ) && out@ == d.flatten()),
    {
        let k = self.data_shards;
        let m = self.parity_shards;
        let total = k + m;
        let count = shards.len();
        if count != data_indices.len() || count < k {
            return Err(CodecError::DecodingError);
        }
        let l = shards[0].len();
        let mut slots: Vec<Option<Vec<u8>>> = Vec::new();
        let mut i: usize = 0;
        while i < total
            invariant
                0 <= i <= total,
                slots.len() == i,
                forall|x: int| 0 <= x < i ==> (#[trigger] slots[x]) is None,
            decreases total - i,
        {
            slots.push(None);
            i = i + 1;
        }
        proof {
            let sv = slot_views(slots@);
            assert(sv =~= Seq::new(total as nat, |x: int| None::<Seq<u8>>));
            lemma_count_present_none(total as nat);
        }
        let ghost mut src: Seq<int> = Seq::new(total as nat, |x: int| -1);
        let mut j: usize = 0;
        while j < count
            invariant
                0 <= j <= count,
                count == shards.len(),
                count == data_indices.len(),
                count >= k,
                total == k + m,
                k == self.data_shards,
                m == self.parity_shards,
                valid_counts(k as nat, m as nat),
                slots.len() == total,
                l == shards[0].len(),
                src.len() == total,
                count_present(slot_views(slots@)) == j,
                forall|x: int| 0 <= x < total ==> ((#[trigger] slots[x]) is Some <==> src[x] >= 0),
                forall|x: int|
                    0 <= x < total && #[trigger] src[x] >= 0 ==> src[x] < j && data_indices[src[x]]
                        == x && slots[x]->Some_0@ == shards[src[x]]@,
                forall|jj: int|
                    0 <= jj < j ==> (#[trigger] data_indices[jj]) < total && src[data_indices[jj] as int]
                        == jj && shards[jj].len() == l,
            decreases count - j,
        {
            let idx = data_indices[j];
            if idx >= total {
                assert(data_indices@[j as int] >= k + m);
                assert(!decodable(k as nat, m as nat, views(shards@), data_indices@));
                return Err(CodecError::DecodingError);
            }
            if slots[idx].is_some() {
                proof {
                    let a = src[idx as int];
                    assert(slots[idx as int] is Some);
                    assert(a >= 0);
                    assert(0 <= a < j && data_indices@[a] == data_indices@[j as int]);
                    assert(!decodable(k as nat, m as nat, views(shards@), data_indices@));
                }
                return Err(CodecError::DecodingError);
            }
            if shards[j].len() != l {
                proof {
                    assert(views(shards@)[j as int].len() != views(shards@)[0].len());
                }
                return Err(CodecError::DecodingError);
            }
            let shard = shards[j].clone();
            assert(shard@ =~= shards[j as int]@);
            proof {
                lemma_count_present_fill(slot_views(slots@), idx as int, shard@);
            }
            let ghost prev = slots@;
            slots[idx] = Some(shard);
            assert(slot_views(slots@) =~= slot_views(prev).update(idx as int, Some(shard@)));
            proof {
                src = src.update(idx as int, j as int);
            }
            j = j + 1;
        }
        proof {
            assert forall|a: int, b: int|
                0 <= a < b < data_indices@.len() implies #[trigger] data_indices@[a]
                != #[trigger] data_indices@[b] by {
                assert(src[data_indices@[a] as int] == a);
                assert(src[data_indices@[b] as int] == b);
            }
            assert forall|x: int| 0 <= x < views(shards@).len() implies (#[trigger] views(
                shards@,
            )[x]).len() == views(shards@)[0].len() by {
                assert(data_indices@[x] < total);
                assert(shards[x].len() == l);
            }
            assert(decodable(k as nat, m as nat, views(shards@), data_indices@));
        }
        let ghost pre = slot_views(slots@);
        proof {
            assert forall|d: Seq<Seq<u8>>, dl: nat|
                d.len() == k && #[trigger] agrees_with(
                    d,
                    m as nat,
                    dl,
                    views(shards@),
                    data_indices@,
                ) implies slots_agree(pre, d, m as nat, dl) by {
                assert forall|x: int|
                    0 <= x < pre.len() && pre[x] is Some implies pre[x]->Some_0 == (
                    #[trigger] codeword(d, m as nat, dl)[x]) by {
                    let jj = src[x];
                    assert(views(shards@)[jj] == shards[jj]@);
                }
            }
        }
        let mut all_data = true;
        let mut i: usize = 0;
        while i < k
            invariant
                0 <= i <= k,
                slots.len() == total,
                total == k + m,
                all_data <==> forall|x: int| 0 <= x < i ==> (#[trigger] slots[x]) is Some,
            decreases k - i,
        {
            if slots[i].is_none() {
                all_data = false;
            }
            i = i + 1;
        }
        if !all_data {
            if l == 0 {
                proof {
                    assert forall|d: Seq<Seq<u8>>, dl: nat|
                        d.len() == k && #[trigger] agrees_with(
                            d,
                            m as nat,
                            dl,
                            views(shards@),
                            data_indices@,
                        ) implies d.flatten() == Seq::<u8>::empty() by {
                        assert(views(shards@)[0] == codeword(d, m as nat, dl)[data_indices@[0] as int]);
                        assert(codeword(d, m as nat, dl)[data_indices@[0] as int].len() == dl);
                        lemma_flatten_of_empties(d);
                    }
                }
                assert(k * 0 == 0);
                return Ok(Vec::new());
            }
            proof {
                lemma_count_present_bounds(slot_views(slots@));
                if m == 0 {
                    assert(slot_views(slots@)[0] == pre[0]);
                    assert forall|x: int| 0 <= x < k implies (#[trigger] slots[x]) is Some by {
                        assert(pre[x] is Some);
                    }
                }
                assert forall|x: int|
                    0 <= x < slots.len() && (#[trigger] slots[x]) is Some implies slots[x]->Some_0.len()
                    > 0 by {
                    assert(shards[src[x]].len() == l);
                }
                assert forall|x: int, y: int|
                    0 <= x < slots.len() && 0 <= y < slots.len() && (#[trigger] slots[x]) is Some
                        && (#[trigger] slots[y]) is Some implies slots[x]->Some_0.len()
                    == slots[y]->Some_0.len() by {
                    assert(shards[src[x]].len() == l);
                    assert(shards[src[y]].len() == l);
                }
            }
            assert(all_present_len(slot_views(slots@), l as nat)) by {
                assert forall|x: int|
                    0 <= x < slot_views(slots@).len() && slot_views(slots@)[x] is Some implies (
                    #[trigger] slot_views(slots@)[x])->Some_0.len() == l by {
                    assert(slots[x] is Some);
                    assert(shards[src[x]].len() == l);
                }
            }
            match rs_reconstruct_data(k, m, &mut slots) {
                Ok(()) => {},
                Err(_) => {
                    return Err(CodecError::DecodingError);
                },
            }
        }
        proof {
            if all_data {
                assert forall|x: int| 0 <= x < k implies (#[trigger] slots[x])->Some_0.len() == l by {
                    assert(shards[src[x]].len() == l);
                }
            }
        }
        let ghost data_views = Seq::new(k as nat, |x: int| slots@[x]->Some_0@);
        let mut out: Vec<u8> = Vec::new();
        let mut i: usize = 0;
        while i < k
            invariant
                0 <= i <= k,
                slots.len() == total,
                total == k + m,
                forall|x: int| 0 <= x < k ==> (#[trigger] slots[x]) is Some,
                forall|x: int| 0 <= x < k ==> (#[trigger] slots[x])->Some_0.len() == l,
                data_views == Seq::new(k as nat, |x: int| slots@[x]->Some_0@),
                out@ == data_views.take(i as int).flatten_alt(),
                out@.len() == i * l,
            decreases k - i,
        {
            match &slots[i] {
                Some(v) => {
                    let ghost prev = out@;
                    out.extend_from_slice(v.as_slice());
                    assert(data_views.take(i + 1).drop_last() =~= data_views.take(i as int));
                    assert(out@ =~= prev + v@);
                    assert((i + 1) * l == i * l + l) by (nonlinear_arith);
                },
                None => {},
            }
            i = i + 1;
        }
        proof {
            assert(data_views.take(k as int) =~= data_views);
            assert forall|d: Seq<Seq<u8>>, dl: nat|
                d.len() == k && #[trigger] agrees_with(
                    d,
                    m as nat,
                    dl,
                    views(shards@),
                    data_indices@,
                ) implies out@ == d.flatten() by {
                assert(slots_agree(pre, d, m as nat, dl));
                assert forall|x: int| 0 <= x < k implies #[trigger] data_views[x] == d[x] by {
                    if all_data {
                        assert(pre[x] is Some);
                        assert(codeword(d, m as nat, dl)[x] == d[x]);
                    }
                }
                assert(data_views =~= d);
                d.lemma_flatten_and_flatten_alt_are_equivalent();
            }
        }
        Ok(out)
    }

    pub fn data_shards(&self) -> (r: usize)
        ensures
            r == self.k(),
    {
        self.data_shards
    }

    pub fn parity_shards(&self) -> (r: usize)
        ensures
            r == self.m(),
    {
        self.parity_shards
    }
}

} // verus!

verus! {

/// The shards of `shards` at positions `indices`, in that order.
pub open spec fn select(shards: Seq<Seq<u8>>, indices: Seq<usize>) -> Seq<Seq<u8>> {
    Seq::new(indices.len(), |j: int| shards[indices[j] as int])
}

/// The indices `0 .. n` in order.
pub open spec fn all_indices(n: nat) -> Seq<usize> {
    Seq::new(n, |i: int| i as usize)
}

/// Any `k` or more distinct shards of the encoding of `b` (so also what is
/// left after dropping any `m` of the `k + m`) are accepted by `decode`, agree
/// with the data shards of `b`, and those data shards, end to end, start with
/// `b`: decoding them and keeping the first `|b|` bytes gives `b` back.
pub proof fn lemma_any_k_shards_recover(b: Seq<u8>, k: nat, m: nat, indices: Seq<usize>)
    requires
        valid_counts(k, m),
        indices.len() >= k,
        forall|j: int| 0 <= j < indices.len() ==> (#[trigger] indices[j]) < k + m,
        forall|a: int, c: int|
            0 <= a < c < indices.len() ==> #[trigger] indices[a] != #[trigger] indices[c],
    ensures
        decodable(k, m, select(encoded(b, k, m), indices), indices),
        agrees_with(
            data_shards_of(b, k),
            m,
            shard_len(b.len(), k),
            select(encoded(b, k, m), indices),
            indices,
        ),
        data_shards_of(b, k).flatten().take(b.len() as int) == b,
{
    let l = shard_len(b.len(), k);
    let e = encoded(b, k, m);
    let s = select(e, indices);
    assert forall|j: int| 0 <= j < s.len() implies (#[trigger] s[j]).len() == s[0].len() by {
        assert(e[indices[j] as int].len() == l);
        assert(e[indices[0] as int].len() == l);
    }
    lemma_data_shards_hold_payload(b, k);
}

/// Decoding the whole encoding of `b` gives `b` back, followed by padding.
pub proof fn lemma_round_trip(b: Seq<u8>, k: nat, m: nat)
    requires
        valid_counts(k, m),
    ensures
        select(encoded(b, k, m), all_indices(k + m)) == encoded(b, k, m),
        decodable(k, m, encoded(b, k, m), all_indices(k + m)),
        agrees_with(
            data_shards_of(b, k),
            m,
            shard_len(b.len(), k),
            encoded(b, k, m),
            all_indices(k + m),
        ),
        data_shards_of(b, k).flatten().take(b.len() as int) == b,
{
    let idx = all_indices(k + m);
    assert(select(encoded(b, k, m), idx) =~= encoded(b, k, m));
    lemma_any_k_shards_recover(b, k, m, idx);
}

/// `decode` refuses fewer than `k` shards, and no codec has zero data shards.
pub proof fn lemma_too_few_shards(k: nat, m: nat, shards: Seq<Seq<u8>>, indices: Seq<usize>)
    requires
        shards.len() < k,
    ensures
        !decodable(k, m, shards, indices),
        !valid_counts(0, m),
{
}

} // verus!
