//! The per-node shard store: decides how a payload is laid out in files under
//! the store's root, and how those files are read back.
//!
//! Without erasure coding, `<root>/<path>` holds the payload. With a codec of
//! `k` data and `m` parity shards, `<root>/<path>.shard0` to
//! `<root>/<path>.shard<k+m-1>` hold the shards. The shards do not record the
//! payload's length: the caller keeps it (the catalog's `size`) and hands it
//! to `read_file`, which cuts the zero padding of the codec off.
//!
//! The store computes; the caller performs the file system calls: it writes
//! the files that `write_file` lists, removes those that `delete_file` lists,
//! and hands `read_file` the contents of the files that exist.
use crate::codec::{
    agrees_with, count_present, decodable, encoded, shard_len, slot_views, valid_counts, views,
    CodecError, ErasureCoder,
};
use crate::codec::{
    data_shards_of, lemma_any_k_shards_recover, lemma_shard_len_covers, select,
};
use crate::names::{concat, decimal, push_decimal};
use vstd::prelude::*;

verus! {

/// Errors of the shard store.
#[derive(Clone, Copy, Debug, PartialEq, Eq, Structural)]
pub enum StoreError {
    /// Neither shards nor a plain file exist for the path.
    NotFound,
    /// Some shards exist, but fewer than the codec needs, and no plain file.
    InsufficientShards,
    /// The payload length given exceeds what the shards decode to.
    CorruptLayout,
    /// The codec refused the shards or the configuration.
    Codec(CodecError),
}

/// A file to write: its full name and its contents.
pub struct StoredFile {
    pub name: String,
    pub contents: Vec<u8>,
}

/// What exists on disk for one path: the contents of each shard file
/// (`None` where the file is missing; one slot per shard index when erasure
/// coding is on) and of the plain file.
pub struct StoredFiles {
    pub shards: Vec<Option<Vec<u8>>>,
    pub plain: Option<Vec<u8>>,
}

/// The full name of `path` under `base`.
pub open spec fn full_name(base: Seq<char>, path: Seq<char>) -> Seq<char> {
    base + seq!['/'] + path
}

/// The name of shard `i` of `path` under `base`.
pub open spec fn shard_name(base: Seq<char>, path: Seq<char>, i: nat) -> Seq<char> {
    full_name(base, path) + seq!['.', 's', 'h', 'a', 'r', 'd'] + decimal(i)
}

/// The files that hold `data` at `path`, as (name, contents).
pub open spec fn write_plan(
    base: Seq<char>,
    coding: Option<(nat, nat)>,
    path: Seq<char>,
    data: Seq<u8>,
) -> Seq<(Seq<char>, Seq<u8>)> {
    match coding {
        None => seq![(full_name(base, path), data)],
        Some((k, m)) => Seq::new(
            k + m,
            |i: int| (shard_name(base, path, i as nat), encoded(data, k, m)[i]),
        ),
    }
}

/// The names of the files that hold `path`: the plain file and, with a codec
/// of `k + m` shards, every shard file.
pub open spec fn delete_plan(base: Seq<char>, coding: Option<(nat, nat)>, path: Seq<char>) -> Seq<
    Seq<char>,
> {
    match coding {
        None => seq![full_name(base, path)],
        Some((k, m)) => seq![full_name(base, path)] + Seq::new(
            k + m,
            |i: int| shard_name(base, path, i as nat),
        ),
    }
}

pub open spec fn file_view(f: StoredFile) -> (Seq<char>, Seq<u8>) {
    (f.name@, f.contents@)
}

pub open spec fn opt_view(o: Option<Vec<u8>>) -> Option<Seq<u8>> {
    match o {
        Some(v) => Some(v@),
        None => None,
    }
}

/// Positions of the shards present in `s`, in increasing order.
pub open spec fn present_indices(s: Seq<Option<Seq<u8>>>) -> Seq<usize>
    decreases s.len(),
{
    if s.len() == 0 {
        seq![]
    } else {
        let r = present_indices(s.drop_last());
        if s.last() is Some {
            r.push((s.len() - 1) as usize)
        } else {
            r
        }
    }
}

/// The shards present in `s`, in order of position.
pub open spec fn present_shards(s: Seq<Option<Seq<u8>>>) -> Seq<Seq<u8>>
    decreases s.len(),
{
    if s.len() == 0 {
        seq![]
    } else {
        let r = present_shards(s.drop_last());
        match s.last() {
            Some(x) => r.push(x),
            None => r,
        }
    }
}

/// A read's outcome as byte contents.
pub open spec fn result_view(r: Result<Vec<u8>, StoreError>) -> Result<Seq<u8>, StoreError> {
    match r {
        Ok(v) => Ok(v@),
        Err(e) => Err(e),
    }
}

/// What a read gives when the shards do not suffice: the plain file, else an
/// error that tells whether any shard was found.
pub open spec fn fallback_read(plain: Option<Seq<u8>>, shards_found: nat) -> Result<
    Seq<u8>,
    StoreError,
> {
    match plain {
        Some(p) => Ok(p),
        None => if shards_found > 0 {
            Err(StoreError::InsufficientShards)
        } else {
            Err(StoreError::NotFound)
        },
    }
}

proof fn lemma_present(s: Seq<Option<Seq<u8>>>)
    requires
        s.len() <= usize::MAX,
    ensures
        present_indices(s).len() == count_present(s),
        present_shards(s).len() == count_present(s),
        forall|j: int|
            0 <= j < count_present(s) ==> (#[trigger] present_indices(s)[j]) < s.len() && s[present_indices(s)[j] as int]
                == Some(present_shards(s)[j]),
        forall|a: int, b: int|
            0 <= a < b < count_present(s) ==> #[trigger] present_indices(s)[a] < #[trigger] present_indices(s)[b],
    decreases s.len(),
{
    if s.len() > 0 {
        let t = s.drop_last();
        let n = s.len() - 1;
        lemma_present(t);
        let it = present_indices(t);
        let pt = present_shards(t);
        let is = present_indices(s);
        let ps = present_shards(s);
        assert forall|j: int| 0 <= j < count_present(t) implies #[trigger] it[j] < n && s[it[j] as int]
            == t[it[j] as int] by {
        }
        if s.last() is Some {
            assert(is == it.push(n as usize));
            assert(ps == pt.push(s.last()->Some_0));
            assert forall|j: int| 0 <= j < count_present(s) implies (#[trigger] is[j]) < s.len()
                && s[is[j] as int] == Some(ps[j]) by {
                if j < count_present(t) {
                    assert(is[j] == it[j]);
                    assert(ps[j] == pt[j]);
                } else {
                    assert(is[j] == n);
                }
            }
            assert forall|a: int, b: int| 0 <= a < b < count_present(s) implies #[trigger] is[a]
                < #[trigger] is[b] by {
                if b < count_present(t) {
                    assert(is[a] == it[a] && is[b] == it[b]);
                } else {
                    assert(is[a] == it[a]);
                    assert(it[a] < n);
                }
            }
        } else {
            assert(is == it);
            assert(ps == pt);
        }
    }
}

/// What a read with a codec of `k` data and `m` parity shards gives, where
/// `sv` holds the shard files found, `size` is the payload's length and
/// `plain` the plain file. Fewer than `k` shards: the plain file, else
/// `InsufficientShards` (some shard found) or `NotFound`. Otherwise the
/// shards must be accepted by the codec and decode to at least `size` bytes;
/// where they belong to the encoding of data shards `d`, the result is the
/// first `size` bytes of `d` end to end.
pub open spec fn sharded_read(
    k: nat,
    m: nat,
    sv: Seq<Option<Seq<u8>>>,
    size: nat,
    plain: Option<Seq<u8>>,
    rv: Result<Seq<u8>, StoreError>,
) -> bool {
    let c = count_present(sv);
    let ps = present_shards(sv);
    let pi = present_indices(sv);
    &&& c < k ==> rv == fallback_read(plain, c)
    &&& c >= k && !decodable(k, m, ps, pi) ==> rv == Err::<Seq<u8>, StoreError>(
        StoreError::Codec(CodecError::DecodingError),
    )
    &&& c >= k && decodable(k, m, ps, pi) ==> {
        &&& rv is Ok <==> size <= k * ps[0].len()
        &&& rv is Err ==> rv == Err::<Seq<u8>, StoreError>(StoreError::CorruptLayout)
    }
    &&& forall|d: Seq<Seq<u8>>, l: nat|
        c >= k && decodable(k, m, ps, pi) && d.len() == k && #[trigger] agrees_with(
            d,
            m,
            l,
            ps,
            pi,
        ) && size <= k * l ==> rv == Ok::<Seq<u8>, StoreError>(d.flatten().take(size as int))
}

fn fallback(plain: &Option<Vec<u8>>, shards_found: usize) -> (r: Result<Vec<u8>, StoreError>)
    ensures
        result_view(r) == fallback_read(opt_view(*plain), shards_found as nat),
{
    match plain {
        Some(p) => {
            let mut v: Vec<u8> = Vec::new();
            v.extend_from_slice(p.as_slice());
            assert(v@ =~= p@);
            Ok(v)
        },
        None => if shards_found > 0 {
            Err(StoreError::InsufficientShards)
        } else {
            Err(StoreError::NotFound)
        },
    }
}

/// The shard store: a root directory and, when erasure coding is on, a codec.
pub struct StorageManager {
    base_path: String,
    erasure_coder: Option<ErasureCoder>,
}

impl StorageManager {
    /// The root directory.
    pub closed spec fn base(&self) -> Seq<char> {
        self.base_path@
    }

    /// The shard counts `(k, m)` when erasure coding is on.
    pub closed spec fn coding(&self) -> Option<(nat, nat)> {
        match self.erasure_coder {
            Some(c) => Some((c.k(), c.m())),
            None => None,
        }
    }

    pub closed spec fn wf(&self) -> bool {
        self.erasure_coder matches Some(c) ==> c.wf()
    }

    /// A store rooted at `base_path`, with erasure coding off.
    pub fn new(base_path: &str) -> (r: StorageManager)
        ensures
            r.wf(),
            r.base() == base_path@,
            r.coding() is None,
    {
        StorageManager { base_path: String::from_str(base_path), erasure_coder: None }
    }

    /// Turns erasure coding on for later writes, with `data_shards` data and
    /// `parity_shards` parity shards. Files written before stay as they are.
    /// Refused, with the store unchanged, where the codec refuses the counts.
    pub fn set_erasure_coding(&mut self, data_shards: usize, parity_shards: usize) -> (r: Result<
        (),
        CodecError,
    >)
        requires
            old(self).wf(),
        ensures
            final(self).wf(),
            final(self).base() == old(self).base(),
            r is Ok <==> valid_counts(data_shards as nat, parity_shards as nat),
            r is Ok ==> final(self).coding() == Some((data_shards as nat, parity_shards as nat)),
            r is Err ==> final(self).coding() == old(self).coding() && r == Err::<(), CodecError>(
                CodecError::EncodingError,
            ),
    {
        match ErasureCoder::new(data_shards, parity_shards) {
            Ok(c) => {
                self.erasure_coder = Some(c);
                Ok(())
            },
            Err(e) => Err(e),
        }
    }

    /// Number of shard files per path: `k + m` with erasure coding, else 0.
    pub fn shard_count(&self) -> (r: usize)
        requires
            self.wf(),
        ensures
            r == match self.coding() {
                Some((k, m)) => k + m,
                None => 0,
            },
    {
        match &self.erasure_coder {
            Some(c) => c.data_shards() + c.parity_shards(),
            None => 0,
        }
    }

    /// The full name of `path`: the root, `/`, then `path`.
    pub fn full_path(&self, path: &str) -> (r: String)
        ensures
            r@ == full_name(self.base(), path@),
    {
        let mut s = concat(self.base_path.as_str(), "/");
        proof {
            reveal_strlit("/");
        }
        s.append(path);
        assert(s@ =~= full_name(self.base(), path@));
        s
    }

    /// The name of shard file `index` of `path`.
    pub fn shard_path(&self, path: &str, index: usize) -> (r: String)
        ensures
            r@ == shard_name(self.base(), path@, index as nat),
    {
        let mut s = self.full_path(path);
        s.append(".shard");
        proof {
            reveal_strlit(".shard");
        }
        push_decimal(&mut s, index as u64);
        assert(s@ =~= shard_name(self.base(), path@, index as nat));
        s
    }

    /// The files that store `data` at `path`. Without erasure coding: the
    /// plain file. With `k` data and `m` parity shards: the `k + m` shards of
    /// the codec, one file each. The caller writes each, creating parent
    /// directories, and flushes them before it reports success; it keeps
    /// `|data|` to hand to `read_file`. Fails with `EncodingError` only where
    /// the shards would not fit in memory.
    pub fn write_file(&self, path: &str, data: &[u8]) -> (r: Result<Vec<StoredFile>, StoreError>)
        requires
            self.wf(),
        ensures
            r is Ok <==> (self.coding() matches Some((k, m)) ==> (k + m) * shard_len(
                data@.len(),
                k,
            ) <= usize::MAX),
            r is Err ==> r == Err::<Vec<StoredFile>, StoreError>(
                StoreError::Codec(CodecError::EncodingError),
            ),
            r matches Ok(files) ==> files@.map_values(|f: StoredFile| file_view(f)) == write_plan(
                self.base(),
                self.coding(),
                path@,
                data@,
            ),
    {
        let mut out: Vec<StoredFile> = Vec::new();
        match &self.erasure_coder {
            None => {
                let mut contents: Vec<u8> = Vec::new();
                contents.extend_from_slice(data);
                assert(contents@ =~= data@);
                out.push(StoredFile { name: self.full_path(path), contents });
                assert(out@.map_values(|f: StoredFile| file_view(f)) =~= write_plan(
                    self.base(),
                    self.coding(),
                    path@,
                    data@,
                ));
                Ok(out)
            },
            Some(c) => {
                let k = c.data_shards();
                let m = c.parity_shards();
                let ghost plan = write_plan(self.base(), self.coding(), path@, data@);
                let ghost e = encoded(data@, k as nat, m as nat);
                let shards = match c.encode(data) {
                    Ok(s) => s,
                    Err(e) => {
                        return Err(StoreError::Codec(e));
                    },
                };
                assert(views(shards@) == e);
                assert(views(shards@).len() == shards@.len());
                assert(e.len() == k + m);
                let total = k + m;
                let mut i: usize = 0;
                while i < total
                    invariant
                        0 <= i <= total,
                        total == k + m,
                        shards@.len() == total,
                        views(shards@) == e,
                        plan == write_plan(self.base(), self.coding(), path@, data@),
                        self.coding() == Some((k as nat, m as nat)),
                        plan == Seq::new(
                            (k + m) as nat,
                            |x: int| (shard_name(self.base(), path@, x as nat), e[x]),
                        ),
                        out@.map_values(|f: StoredFile| file_view(f)) =~= plan.take(i as int),
                    decreases total - i,
                {
                    let mut contents: Vec<u8> = Vec::new();
                    contents.extend_from_slice(shards[i].as_slice());
                    assert(contents@ =~= shards[i as int]@);
                    assert(views(shards@)[i as int] == shards[i as int]@);
                    let ghost prev = out@;
                    let name = self.shard_path(path, i);
                    let f = StoredFile { name, contents };
                    assert(file_view(f) == plan[i as int]);
                    out.push(f);
                    assert(out@.map_values(|f: StoredFile| file_view(f)) =~= prev.map_values(
                        |f: StoredFile| file_view(f),
                    ).push(plan[i as int]));
                    i = i + 1;
                }
                assert(plan.take(total as int) =~= plan);
                Ok(out)
            },
        }
    }

    /// The files to remove to delete `path`: the plain file and, with erasure
    /// coding on, every shard file. The caller removes those that exist.
    pub fn delete_file(&self, path: &str) -> (r: Vec<String>)
        requires
            self.wf(),
        ensures
            r@.map_values(|s: String| s@) == delete_plan(self.base(), self.coding(), path@),
    {
        let mut out: Vec<String> = Vec::new();
        out.push(self.full_path(path));
        let ghost plan = delete_plan(self.base(), self.coding(), path@);
        match &self.erasure_coder {
            None => {
                assert(out@.map_values(|s: String| s@) =~= plan);
            },
            Some(c) => {
                let total = c.data_shards() + c.parity_shards();
                let mut i: usize = 0;
                while i < total
                    invariant
                        0 <= i <= total,
                        self.coding() matches Some((k, m)) && total == k + m,
                        plan == delete_plan(self.base(), self.coding(), path@),
                        out@.map_values(|s: String| s@) =~= plan.take(i + 1),
                    decreases total - i,
                {
                    let ghost prev = out@;
                    out.push(self.shard_path(path, i));
                    assert(out@.map_values(|s: String| s@) =~= prev.map_values(|s: String| s@).push(
                        plan[i + 1],
                    ));
                    i = i + 1;
                }
                assert(plan.take(total + 1) =~= plan);
            },
        }
        out
    }

    /// Reads back what is stored at a path from the files found for it;
    /// `size` is the payload's length as the caller recorded it at the write.
    /// Without erasure coding: the plain file, or `NotFound`. With a codec of
    /// `k` data shards: where at least `k` shard files exist, the first `size`
    /// bytes decoded from them (`CorruptLayout` where they decode to fewer);
    /// otherwise the plain file, `InsufficientShards` where some shard exists,
    /// or `NotFound`.
    pub fn read_file(&self, files: &StoredFiles, size: u64) -> (r: Result<Vec<u8>, StoreError>)
        requires
            self.wf(),
            self.coding() matches Some((k, m)) ==> files.shards@.len() == k + m,
        ensures
            self.coding() is None ==> result_view(r) == fallback_read(opt_view(files.plain), 0),
            self.coding() matches Some((k, m)) ==> sharded_read(
                k,
                m,
                slot_views(files.shards@),
                size as nat,
                opt_view(files.plain),
                result_view(r),
            ),
    {
        match &self.erasure_coder {
            None => fallback(&files.plain, 0),
            Some(c) => {
                let k = c.data_shards();
                let ghost m = c.m();
                let ghost sv = slot_views(files.shards@);
                let n = files.shards.len();
                let mut present: Vec<Vec<u8>> = Vec::new();
                let mut idx: Vec<usize> = Vec::new();
                let mut i: usize = 0;
                while i < n
                    invariant
                        0 <= i <= n,
                        n == files.shards@.len(),
                        sv == slot_views(files.shards@),
                        views(present@) == present_shards(sv.take(i as int)),
                        idx@ == present_indices(sv.take(i as int)),
                    decreases n - i,
                {
                    assert(sv.take(i + 1).drop_last() =~= sv.take(i as int));
                    assert(sv.take(i + 1).last() == sv[i as int]);
                    match &files.shards[i] {
                        Some(v) => {
                            let mut copy: Vec<u8> = Vec::new();
                            copy.extend_from_slice(v.as_slice());
                            assert(copy@ =~= v@);
                            let ghost prev = present@;
                            present.push(copy);
                            assert(views(present@) =~= views(prev).push(v@));
                            idx.push(i);
                        },
                        None => {},
                    }
                    i = i + 1;
                }
                assert(sv.take(n as int) =~= sv);
                proof {
                    lemma_present(sv);
                }
                assert(views(present@).len() == present@.len());
                if present.len() < k {
                    return fallback(&files.plain, present.len());
                }
                match c.decode(present.as_slice(), idx.as_slice()) {
                    Err(e) => Err(StoreError::Codec(e)),
                    Ok(out) => {
                        if size as u128 > out.len() as u128 {
                            Err(StoreError::CorruptLayout)
                        } else {
                            let keep = size as usize;
                            let mut out = out;
                            let ghost full = out@;
                            out.truncate(keep);
                            assert(out@ =~= full.take(keep as int));
                            Ok(out)
                        }
                    },
                }
            },
        }
    }
}

} // verus!

verus! {

/// The shard files of `data` after `write_file` with `k` data and `m` parity
/// shards, where `kept[i]` tells whether shard file `i` is still there.
pub open spec fn shards_after_write(data: Seq<u8>, k: nat, m: nat, kept: Seq<bool>) -> Seq<
    Option<Seq<u8>>,
> {
    Seq::new(
        k + m,
        |i: int|
            if kept[i] {
                Some(encoded(data, k, m)[i])
            } else {
                None
            },
    )
}

/// With erasure coding, reading back the files that `write_file` listed,
/// with the payload's length, gives the data written, as long as at least `k`
/// of the `k + m` shard files remain, whatever else exists at the path: every
/// outcome that `read_file` allows is `Ok(data)`.
pub proof fn lemma_sharded_write_then_read(
    data: Seq<u8>,
    k: nat,
    m: nat,
    kept: Seq<bool>,
    plain: Option<Seq<u8>>,
    rv: Result<Seq<u8>, StoreError>,
)
    requires
        valid_counts(k, m),
        kept.len() == k + m,
        count_present(shards_after_write(data, k, m, kept)) >= k,
        sharded_read(k, m, shards_after_write(data, k, m, kept), data.len(), plain, rv),
    ensures
        rv == Ok::<Seq<u8>, StoreError>(data),
{
    let n = data.len();
    let l = shard_len(n, k);
    let sv = shards_after_write(data, k, m, kept);
    let e = encoded(data, k, m);
    let pi = present_indices(sv);
    let ps = present_shards(sv);
    lemma_present(sv);
    lemma_shard_len_covers(n, k);
    assert forall|j: int| 0 <= j < pi.len() implies (#[trigger] pi[j]) < k + m by {
    }
    assert forall|a: int, b: int| 0 <= a < b < pi.len() implies #[trigger] pi[a] != #[trigger] pi[b] by {
    }
    assert(ps =~= select(e, pi)) by {
        assert forall|j: int| 0 <= j < ps.len() implies ps[j] == select(e, pi)[j] by {
            assert(sv[pi[j] as int] == Some(ps[j]));
        }
    }
    lemma_any_k_shards_recover(data, k, m, pi);
    let d = data_shards_of(data, k);
    assert(agrees_with(d, m, l, ps, pi));
}

/// Without erasure coding, `write_file` lists the plain file holding the
/// data, and reading that file back gives the data.
pub proof fn lemma_plain_write_then_read(base: Seq<char>, path: Seq<char>, data: Seq<u8>)
    ensures
        write_plan(base, None, path, data) == seq![(full_name(base, path), data)],
        fallback_read(Some(data), 0) == Ok::<Seq<u8>, StoreError>(data),
{
}

} // verus!
