//! The metadata catalog: the authoritative record of files (path to file
//! record) and of storage nodes (id to node record).
//!
//! Each mutation changes the catalog in memory; the caller then persists the
//! whole catalog (`snapshot`) as one document, and a catalog is rebuilt from
//! such a document with `new`.
use crate::keyed::{
    find_key, keys_unique, lemma_table_map_at, lemma_table_map_domain, lemma_table_map_push,
    lemma_table_map_remove, lemma_table_map_replace, table_map, table_values,
};
use vstd::prelude::*;

verus! {

/// One logical file.
#[derive(Clone, Debug, PartialEq, Eq)]
pub struct FileMeta {
    pub path: String,
    pub size: u64,
    /// Identifiers of the file's chunks, in order.
    pub chunks: Vec<String>,
    pub created_at: i64,
    pub updated_at: i64,
    /// The owning node.
    pub node_id: String,
    /// Nodes other than the owner that hold a copy.
    pub replicas: Vec<String>,
}

/// State of a storage node.
#[derive(Clone, Copy, Debug, PartialEq, Eq, Structural)]
pub enum NodeStatus {
    Online,
    Offline,
    Unknown,
}

/// One registered storage node.
#[derive(Clone, Debug, PartialEq, Eq)]
pub struct NodeInfo {
    pub id: String,
    pub address: String,
    pub last_heartbeat: i64,
    pub status: NodeStatus,
}

/// A file record as mathematical values.
pub struct FileRecord {
    pub path: Seq<char>,
    pub size: u64,
    pub chunks: Seq<Seq<char>>,
    pub created_at: i64,
    pub updated_at: i64,
    pub node_id: Seq<char>,
    pub replicas: Seq<Seq<char>>,
}

/// A node record as mathematical values.
pub struct NodeRecord {
    pub id: Seq<char>,
    pub address: Seq<char>,
    pub last_heartbeat: i64,
    pub status: NodeStatus,
}

pub open spec fn strings_view(v: Seq<String>) -> Seq<Seq<char>> {
    v.map_values(|s: String| s@)
}

impl View for FileMeta {
    type V = FileRecord;

    open spec fn view(&self) -> FileRecord {
        FileRecord {
            path: self.path@,
            size: self.size,
            chunks: strings_view(self.chunks@),
            created_at: self.created_at,
            updated_at: self.updated_at,
            node_id: self.node_id@,
            replicas: strings_view(self.replicas@),
        }
    }
}

impl View for NodeInfo {
    type V = NodeRecord;

    open spec fn view(&self) -> NodeRecord {
        NodeRecord {
            id: self.id@,
            address: self.address@,
            last_heartbeat: self.last_heartbeat,
            status: self.status,
        }
    }
}

/// No element appears twice.
pub open spec fn no_duplicates(s: Seq<Seq<char>>) -> bool {
    forall|i: int, j: int| 0 <= i < j < s.len() ==> s[i] != s[j]
}

/// A file record keeps `updated_at >= created_at` and lists each replica once.
pub open spec fn record_ok(f: FileRecord) -> bool {
    f.updated_at >= f.created_at && no_duplicates(f.replicas)
}

/// `f` as `create_file` stores it at time `now`: both timestamps set to `now`.
pub open spec fn created(f: FileRecord, now: i64) -> FileRecord {
    FileRecord { created_at: now, updated_at: now, ..f }
}

/// `f` as `update_file` stores it at time `now` over a record created at
/// `created_at`: the creation time kept, `updated_at` set to `now` (or to
/// `created_at`, should the clock read earlier).
pub open spec fn updated(f: FileRecord, created_at: i64, now: i64) -> FileRecord {
    FileRecord {
        created_at: created_at,
        updated_at: if now >= created_at {
            now
        } else {
            created_at
        },
        ..f
    }
}

/// The node record that `register_node` stores at time `now`.
pub open spec fn registered(id: Seq<char>, address: Seq<char>, now: i64) -> NodeRecord {
    NodeRecord { id, address, last_heartbeat: now, status: NodeStatus::Online }
}

/// `n` after a heartbeat at time `now`: the heartbeat time never goes back.
pub open spec fn beaten(n: NodeRecord, now: i64) -> NodeRecord {
    NodeRecord {
        last_heartbeat: if now >= n.last_heartbeat {
            now
        } else {
            n.last_heartbeat
        },
        ..n
    }
}

/// The whole catalog as one document: the file table and the node table.
#[derive(Clone, Debug, PartialEq, Eq)]
pub struct MetadataStore {
    pub files: Vec<(String, FileMeta)>,
    pub nodes: Vec<(String, NodeInfo)>,
}

impl MetadataStore {
    /// Path to file record.
    pub open spec fn files_map(&self) -> Map<Seq<char>, FileRecord> {
        table_map(self.files@)
    }

    /// Node id to node record.
    pub open spec fn nodes_map(&self) -> Map<Seq<char>, NodeRecord> {
        table_map(self.nodes@)
    }

    /// Keys are unique in both tables, and every file record is sound.
    pub open spec fn wf(&self) -> bool {
        &&& keys_unique(self.files@)
        &&& keys_unique(self.nodes@)
        &&& forall|i: int| 0 <= i < self.files@.len() ==> record_ok(#[trigger] self.files@[i].1@)
    }

    /// An empty catalog.
    pub fn empty() -> (r: MetadataStore)
        ensures
            r.wf(),
            r.files_map() == Map::<Seq<char>, FileRecord>::empty(),
            r.nodes_map() == Map::<Seq<char>, NodeRecord>::empty(),
    {
        MetadataStore { files: Vec::new(), nodes: Vec::new() }
    }
}

/// `s` with every element after its first occurrence left out.
pub open spec fn dedup(s: Seq<Seq<char>>) -> Seq<Seq<char>>
    decreases s.len(),
{
    if s.len() == 0 {
        seq![]
    } else {
        let r = dedup(s.drop_last());
        if r.contains(s.last()) {
            r
        } else {
            r.push(s.last())
        }
    }
}

/// `f` with its replica list reduced to distinct node ids.
pub open spec fn normalized(f: FileRecord) -> FileRecord {
    FileRecord { replicas: dedup(f.replicas), ..f }
}

proof fn lemma_dedup_distinct(s: Seq<Seq<char>>)
    ensures
        no_duplicates(dedup(s)),
    decreases s.len(),
{
    if s.len() > 0 {
        lemma_dedup_distinct(s.drop_last());
        let r = dedup(s.drop_last());
        if !r.contains(s.last()) {
            assert forall|i: int, j: int| 0 <= i < j < r.push(s.last()).len() implies r.push(
                s.last(),
            )[i] != r.push(s.last())[j] by {
                if j == r.len() {
                    assert(r[i] != s.last());
                }
            }
        }
    }
}

/// Copies of the strings of `v`.
fn copy_strings(v: &Vec<String>) -> (r: Vec<String>)
    ensures
        strings_view(r@) == strings_view(v@),
{
    let mut out: Vec<String> = Vec::new();
    let mut i: usize = 0;
    while i < v.len()
        invariant
            0 <= i <= v@.len(),
            strings_view(out@) =~= strings_view(v@.take(i as int)),
        decreases v@.len() - i,
    {
        let ghost prev = out@;
        out.push(v[i].clone());
        assert(strings_view(out@) =~= strings_view(prev).push(v@[i as int]@));
        assert(v@.take(i + 1) =~= v@.take(i as int).push(v@[i as int]));
        i = i + 1;
    }
    assert(v@.take(v@.len() as int) =~= v@);
    out
}

/// Copies of the strings of `v`, each kept only at its first occurrence.
fn dedup_strings(v: &Vec<String>) -> (r: Vec<String>)
    ensures
        strings_view(r@) == dedup(strings_view(v@)),
{
    let ghost sv = strings_view(v@);
    let mut out: Vec<String> = Vec::new();
    let mut i: usize = 0;
    while i < v.len()
        invariant
            0 <= i <= v@.len(),
            sv == strings_view(v@),
            strings_view(out@) == dedup(sv.take(i as int)),
        decreases v@.len() - i,
    {
        assert(sv.take(i + 1).drop_last() =~= sv.take(i as int));
        assert(sv.take(i + 1).last() == v@[i as int]@);
        let mut seen = false;
        let mut j: usize = 0;
        while j < out.len()
            invariant
                0 <= j <= out@.len(),
                i < v@.len(),
                seen <==> exists|x: int| 0 <= x < j && out@[x]@ == v@[i as int]@,
            decreases out@.len() - j,
        {
            if out[j] == v[i] {
                seen = true;
            }
            j = j + 1;
        }
        let ghost o = strings_view(out@);
        assert(seen <==> o.contains(v@[i as int]@)) by {
            if seen {
                let x = choose|x: int| 0 <= x < out@.len() && out@[x]@ == v@[i as int]@;
                assert(o[x] == v@[i as int]@);
            }
            if o.contains(v@[i as int]@) {
                let x = choose|x: int| 0 <= x < o.len() && o[x] == v@[i as int]@;
                assert(out@[x]@ == v@[i as int]@);
            }
        }
        if !seen {
            let ghost prev = out@;
            out.push(v[i].clone());
            assert(strings_view(out@) =~= strings_view(prev).push(v@[i as int]@));
        }
        i = i + 1;
    }
    assert(sv.take(v@.len() as int) =~= sv);
    out
}

impl FileMeta {
    /// A copy of the record.
    pub fn duplicate(&self) -> (r: FileMeta)
        ensures
            r@ == self@,
    {
        FileMeta {
            path: self.path.clone(),
            size: self.size,
            chunks: copy_strings(&self.chunks),
            created_at: self.created_at,
            updated_at: self.updated_at,
            node_id: self.node_id.clone(),
            replicas: copy_strings(&self.replicas),
        }
    }
}

impl NodeInfo {
    /// A copy of the record.
    pub fn duplicate(&self) -> (r: NodeInfo)
        ensures
            r@ == self@,
    {
        NodeInfo {
            id: self.id.clone(),
            address: self.address.clone(),
            last_heartbeat: self.last_heartbeat,
            status: self.status,
        }
    }
}

/// Whether no key of `entries` appears twice.
fn keys_are_distinct<V: View>(entries: &Vec<(String, V)>) -> (r: bool)
    ensures
        r == keys_unique(entries@),
{
    let mut i: usize = 0;
    while i < entries.len()
        invariant
            0 <= i <= entries@.len(),
            forall|a: int, b: int| 0 <= a < b < i ==> (#[trigger] entries@[a]).0@ != (
            #[trigger] entries@[b]).0@,
        decreases entries@.len() - i,
    {
        let mut j: usize = 0;
        while j < i
            invariant
                0 <= j <= i < entries@.len(),
                forall|a: int| 0 <= a < j ==> (#[trigger] entries@[a]).0@ != entries@[i as int].0@,
            decreases i - j,
        {
            if entries[j].0 == entries[i].0 {
                return false;
            }
            j = j + 1;
        }
        i = i + 1;
    }
    true
}

/// `f` made sound, as `repaired` says.
fn repair(f: &FileMeta) -> (r: FileMeta)
    ensures
        r@ == repaired(f@),
{
    let replicas = dedup_strings(&f.replicas);
    let updated_at = if f.updated_at >= f.created_at {
        f.updated_at
    } else {
        f.created_at
    };
    FileMeta {
        path: f.path.clone(),
        size: f.size,
        chunks: copy_strings(&f.chunks),
        created_at: f.created_at,
        updated_at,
        node_id: f.node_id.clone(),
        replicas,
    }
}

/// The table with each record repaired.
fn repair_all(entries: &Vec<(String, FileMeta)>) -> (r: Vec<(String, FileMeta)>)
    requires
        keys_unique(entries@),
    ensures
        keys_unique(r@),
        table_map(r@) == table_map(entries@).map_values(|f: FileRecord| repaired(f)),
        forall|i: int| 0 <= i < r@.len() ==> record_ok(#[trigger] r@[i].1@),
{
    let mut out: Vec<(String, FileMeta)> = Vec::new();
    let mut i: usize = 0;
    while i < entries.len()
        invariant
            0 <= i <= entries@.len(),
            out@.len() == i,
            forall|j: int|
                0 <= j < i ==> (#[trigger] out@[j]).0@ == entries@[j].0@ && out@[j].1@ == repaired(
                    entries@[j].1@,
                ),
        decreases entries@.len() - i,
    {
        let rec = repair(&entries[i].1);
        out.push((entries[i].0.clone(), rec));
        i = i + 1;
    }
    proof {
        lemma_repaired_table(entries@, out@);
        assert forall|j: int| 0 <= j < out@.len() implies record_ok(#[trigger] out@[j].1@) by {
            lemma_dedup_distinct(entries@[j].1@.replicas);
        }
    }
    out
}

proof fn lemma_repaired_table(e: Seq<(String, FileMeta)>, r: Seq<(String, FileMeta)>)
    requires
        keys_unique(e),
        r.len() == e.len(),
        forall|j: int|
            0 <= j < e.len() ==> (#[trigger] r[j]).0@ == e[j].0@ && r[j].1@ == repaired(e[j].1@),
    ensures
        keys_unique(r),
        table_map(r) == table_map(e).map_values(|f: FileRecord| repaired(f)),
    decreases e.len(),
{
    assert(keys_unique(r)) by {
        assert forall|a: int, b: int| 0 <= a < b < r.len() implies (#[trigger] r[a]).0@ != (
        #[trigger] r[b]).0@ by {
            assert(e[a].0@ != e[b].0@);
        }
    }
    if e.len() > 0 {
        let e2 = e.drop_last();
        let r2 = r.drop_last();
        assert(keys_unique(e2)) by {
            assert forall|a: int, b: int| 0 <= a < b < e2.len() implies (#[trigger] e2[a]).0@ != (
            #[trigger] e2[b]).0@ by {
                assert(e2[a] == e[a] && e2[b] == e[b]);
            }
        }
        assert forall|j: int| 0 <= j < e2.len() implies (#[trigger] r2[j]).0@ == e2[j].0@
            && r2[j].1@ == repaired(e2[j].1@) by {
            assert(r2[j] == r[j] && e2[j] == e[j]);
        }
        lemma_repaired_table(e2, r2);
        assert(table_map(r) =~= table_map(e).map_values(|f: FileRecord| repaired(f)));
    } else {
        assert(table_map(r) =~= table_map(e).map_values(|f: FileRecord| repaired(f)));
    }
}

proof fn lemma_dedup_of_distinct(s: Seq<Seq<char>>)
    requires
        no_duplicates(s),
    ensures
        dedup(s) == s,
    decreases s.len(),
{
    if s.len() > 0 {
        let t = s.drop_last();
        assert(no_duplicates(t)) by {
            assert forall|i: int, j: int| 0 <= i < j < t.len() implies t[i] != t[j] by {
                assert(t[i] == s[i] && t[j] == s[j]);
            }
        }
        lemma_dedup_of_distinct(t);
        if t.contains(s.last()) {
            let i = choose|i: int| 0 <= i < t.len() && t[i] == s.last();
            assert(s[i] == s[s.len() - 1]);
        }
        assert(t.push(s.last()) =~= s);
    }
}

/// Relies on chrono's `Utc::now` and `DateTime::timestamp`: the current time
/// in whole seconds since the Unix epoch. Nothing is known of its value.
#[verifier::external_body]
fn unix_now() -> (r: i64) {
    chrono::Utc::now().timestamp()
}

/// `f` made sound: each replica listed once, and `updated_at` raised to
/// `created_at` where it was earlier.
pub open spec fn repaired(f: FileRecord) -> FileRecord {
    FileRecord {
        replicas: dedup(f.replicas),
        updated_at: if f.updated_at >= f.created_at {
            f.updated_at
        } else {
            f.created_at
        },
        ..f
    }
}

/// What a catalog rebuilt from a document holds, as (files, nodes): the
/// document's tables, each file record repaired, when no key repeats in
/// them; else nothing.
pub open spec fn reloaded(loaded: Option<MetadataStore>) -> (
    Map<Seq<char>, FileRecord>,
    Map<Seq<char>, NodeRecord>,
) {
    match loaded {
        Some(s) => if keys_unique(s.files@) && keys_unique(s.nodes@) {
            (s.files_map().map_values(|f: FileRecord| repaired(f)), s.nodes_map())
        } else {
            (Map::empty(), Map::empty())
        },
        None => (Map::empty(), Map::empty()),
    }
}

/// The metadata catalog and the file it is persisted to.
pub struct MetadataManager {
    store: MetadataStore,
    storage_path: String,
}

impl MetadataManager {
    /// Path to file record.
    pub closed spec fn files(&self) -> Map<Seq<char>, FileRecord> {
        self.store.files_map()
    }

    /// Node id to node record.
    pub closed spec fn nodes(&self) -> Map<Seq<char>, NodeRecord> {
        self.store.nodes_map()
    }

    /// The file records in table order.
    pub closed spec fn file_list(&self) -> Seq<FileRecord> {
        table_values(self.store.files@)
    }

    /// The paths of the file records, in the same order.
    pub closed spec fn file_keys(&self) -> Seq<Seq<char>> {
        self.store.files@.map_values(|e: (String, FileMeta)| e.0@)
    }

    /// The catalog as the document that persists it.
    pub closed spec fn document(&self) -> MetadataStore {
        self.store
    }

    /// Where the catalog is persisted.
    pub closed spec fn location(&self) -> Seq<char> {
        self.storage_path@
    }

    pub closed spec fn wf(&self) -> bool {
        self.store.wf()
    }

    /// The catalog persisted at `storage_path`, rebuilt from `loaded`, the
    /// document read from there. File records that break the record
    /// invariants are repaired; a missing document, or one in which a key
    /// repeats, gives an empty catalog.
    pub fn new(storage_path: &str, loaded: Option<MetadataStore>) -> (r: MetadataManager)
        ensures
            r.wf(),
            r.location() == storage_path@,
            (r.files(), r.nodes()) == reloaded(loaded),
    {
        let store = match loaded {
            Some(s) => if keys_are_distinct(&s.files) && keys_are_distinct(&s.nodes) {
                let files = repair_all(&s.files);
                MetadataStore { files, nodes: s.nodes }
            } else {
                MetadataStore::empty()
            },
            None => MetadataStore::empty(),
        };
        MetadataManager { store, storage_path: String::from_str(storage_path) }
    }

    /// Where the catalog is persisted.
    pub fn storage_path(&self) -> (r: &str)
        ensures
            r@ == self.location(),
    {
        self.storage_path.as_str()
    }

    /// The document to persist after a mutation.
    pub fn snapshot(&self) -> (r: &MetadataStore)
        requires
            self.wf(),
        ensures
            *r == self.document(),
            r.wf(),
            r.files_map() == self.files(),
            r.nodes_map() == self.nodes(),
    {
        &self.store
    }

    /// The record of `path`, if any.
    pub fn get_file(&self, path: &str) -> (r: Option<FileMeta>)
        requires
            self.wf(),
        ensures
            r is Some <==> self.files().contains_key(path@),
            r matches Some(f) ==> f@ == self.files()[path@],
    {
        let key = String::from_str(path);
        match find_key(&self.store.files, &key) {
            Some(i) => {
                proof {
                    lemma_table_map_at(self.store.files@, i as int);
                }
                Some(self.store.files[i].1.duplicate())
            },
            None => {
                proof {
                    lemma_table_map_domain(self.store.files@, path@);
                }
                None
            },
        }
    }

    /// Stores `meta` at `path` at time `now`, over any record there:
    /// `created_at` and `updated_at` both become `now`, and the replica list
    /// keeps each node id once. Always succeeds.
    pub fn create_file_at(&mut self, path: &str, meta: FileMeta, now: i64) -> (r: bool)
        requires
            old(self).wf(),
        ensures
            final(self).wf(),
            r,
            final(self).files() == old(self).files().insert(path@, created(normalized(meta@), now)),
            final(self).nodes() == old(self).nodes(),
            final(self).location() == old(self).location(),
    {
        let replicas = dedup_strings(&meta.replicas);
        proof {
            lemma_dedup_distinct(strings_view(meta.replicas@));
        }
        let rec = FileMeta { created_at: now, updated_at: now, replicas, ..meta };
        assert(rec@ == created(normalized(meta@), now));
        self.put_file(path, rec);
        true
    }

    /// Stores `meta` at `path`, stamped with the current time as
    /// `create_file_at` does. Always succeeds.
    pub fn create_file(&mut self, path: &str, meta: FileMeta) -> (r: bool)
        requires
            old(self).wf(),
        ensures
            final(self).wf(),
            r,
            final(self).files().contains_key(path@),
            final(self).files() == old(self).files().insert(path@, final(self).files()[path@]),
            final(self).files()[path@] == created(
                normalized(meta@),
                final(self).files()[path@].created_at,
            ),
            final(self).nodes() == old(self).nodes(),
            final(self).location() == old(self).location(),
    {
        let now = unix_now();
        self.create_file_at(path, meta, now)
    }

    /// Puts `rec` at `path`, replacing any record there.
    fn put_file(&mut self, path: &str, rec: FileMeta)
        requires
            old(self).wf(),
            record_ok(rec@),
        ensures
            final(self).wf(),
            final(self).files() == old(self).files().insert(path@, rec@),
            final(self).nodes() == old(self).nodes(),
            final(self).location() == old(self).location(),
    {
        let key = String::from_str(path);
        let ghost s = self.store.files@;
        match find_key(&self.store.files, &key) {
            Some(i) => {
                proof {
                    lemma_table_map_replace(s, i as int, (key, rec));
                }
                self.store.files[i] = (key, rec);
                assert(self.store.files@ == s.update(i as int, (key, rec)));
            },
            None => {
                proof {
                    lemma_table_map_domain(s, key@);
                    lemma_table_map_push(s, (key, rec));
                }
                self.store.files.push((key, rec));
            },
        }
        assert forall|a: int| 0 <= a < self.store.files@.len() implies record_ok(
            #[trigger] self.store.files@[a].1@,
        ) by {
            if self.store.files@[a] != (key, rec) {
                assert(self.store.files@[a] == s[a]);
            }
        }
    }

    /// Replaces the record of `path` with `meta` at time `now`, where `path`
    /// has a record: its `created_at` is kept, `updated_at` becomes `now`, and
    /// the replica list keeps each node id once. Where `path` has no record,
    /// returns false and changes nothing.
    pub fn update_file_at(&mut self, path: &str, meta: FileMeta, now: i64) -> (r: bool)
        requires
            old(self).wf(),
        ensures
            final(self).wf(),
            r == old(self).files().contains_key(path@),
            r ==> final(self).files() == old(self).files().insert(
                path@,
                updated(normalized(meta@), old(self).files()[path@].created_at, now),
            ),
            !r ==> final(self).files() == old(self).files(),
            final(self).nodes() == old(self).nodes(),
            final(self).location() == old(self).location(),
    {
        let key = String::from_str(path);
        match find_key(&self.store.files, &key) {
            Some(i) => {
                proof {
                    lemma_table_map_at(self.store.files@, i as int);
                }
                let created_at = self.store.files[i].1.created_at;
                let replicas = dedup_strings(&meta.replicas);
                proof {
                    lemma_dedup_distinct(strings_view(meta.replicas@));
                }
                let stamp = if now >= created_at {
                    now
                } else {
                    created_at
                };
                let rec = FileMeta { created_at, updated_at: stamp, replicas, ..meta };
                assert(rec@ == updated(normalized(meta@), created_at, now));
                self.put_file(path, rec);
                true
            },
            None => {
                proof {
                    lemma_table_map_domain(self.store.files@, path@);
                }
                false
            },
        }
    }

    /// Replaces the record of `path`, stamped with the current time as
    /// `update_file_at` does; returns false, changing nothing, where `path`
    /// has no record.
    pub fn update_file(&mut self, path: &str, meta: FileMeta) -> (r: bool)
        requires
            old(self).wf(),
        ensures
            final(self).wf(),
            r == old(self).files().contains_key(path@),
            r ==> final(self).files().contains_key(path@) && final(self).files() == old(
                self,
            ).files().insert(path@, final(self).files()[path@]) && final(self).files()[path@]
                == updated(
                normalized(meta@),
                old(self).files()[path@].created_at,
                final(self).files()[path@].updated_at,
            ),
            !r ==> final(self).files() == old(self).files(),
            final(self).nodes() == old(self).nodes(),
            final(self).location() == old(self).location(),
    {
        let now = unix_now();
        self.update_file_at(path, meta, now)
    }

    /// Removes the record of `path`; tells whether there was one.
    pub fn delete_file(&mut self, path: &str) -> (r: bool)
        requires
            old(self).wf(),
        ensures
            final(self).wf(),
            r == old(self).files().contains_key(path@),
            final(self).files() == old(self).files().remove(path@),
            final(self).nodes() == old(self).nodes(),
            final(self).location() == old(self).location(),
    {
        let key = String::from_str(path);
        let ghost s = self.store.files@;
        match find_key(&self.store.files, &key) {
            Some(i) => {
                proof {
                    lemma_table_map_remove(s, i as int);
                    lemma_table_map_domain(s, path@);
                }
                let _ = self.store.files.remove(i);
                assert forall|a: int| 0 <= a < self.store.files@.len() implies record_ok(
                    #[trigger] self.store.files@[a].1@,
                ) by {
                    if a < i {
                        assert(self.store.files@[a] == s[a]);
                    } else {
                        assert(self.store.files@[a] == s[a + 1]);
                    }
                }
                true
            },
            None => {
                proof {
                    lemma_table_map_domain(s, path@);
                    assert(self.files().remove(path@) =~= self.files());
                }
                false
            },
        }
    }

    /// Registers node `node_id` at `address` at time `now`, online, over any
    /// record of that id. A heartbeat time already on record is never moved
    /// back. Always succeeds.
    pub fn register_node_at(&mut self, node_id: &str, address: &str, now: i64) -> (r: bool)
        requires
            old(self).wf(),
        ensures
            final(self).wf(),
            r,
            final(self).nodes() == old(self).nodes().insert(
                node_id@,
                registered(
                    node_id@,
                    address@,
                    if old(self).nodes().contains_key(node_id@) && old(self).nodes()[node_id@].last_heartbeat
                        > now {
                        old(self).nodes()[node_id@].last_heartbeat
                    } else {
                        now
                    },
                ),
            ),
            final(self).files() == old(self).files(),
            final(self).file_list() == old(self).file_list(),
            final(self).location() == old(self).location(),
    {
        let key = String::from_str(node_id);
        let stamp = match find_key(&self.store.nodes, &key) {
            Some(i) => {
                proof {
                    lemma_table_map_at(self.store.nodes@, i as int);
                }
                if self.store.nodes[i].1.last_heartbeat > now {
                    self.store.nodes[i].1.last_heartbeat
                } else {
                    now
                }
            },
            None => {
                proof {
                    lemma_table_map_domain(self.store.nodes@, node_id@);
                }
                now
            },
        };
        let rec = NodeInfo {
            id: String::from_str(node_id),
            address: String::from_str(address),
            last_heartbeat: stamp,
            status: NodeStatus::Online,
        };
        self.put_node(node_id, rec);
        true
    }

    /// Registers node `node_id` at `address`, stamped with the current time
    /// as `register_node_at` does (never moving a heartbeat time back).
    /// Always succeeds.
    pub fn register_node(&mut self, node_id: &str, address: &str) -> (r: bool)
        requires
            old(self).wf(),
        ensures
            final(self).wf(),
            r,
            final(self).nodes().contains_key(node_id@),
            final(self).nodes() == old(self).nodes().insert(node_id@, final(self).nodes()[node_id@]),
            final(self).nodes()[node_id@] == registered(
                node_id@,
                address@,
                final(self).nodes()[node_id@].last_heartbeat,
            ),
            old(self).nodes().contains_key(node_id@) ==> final(self).nodes()[node_id@].last_heartbeat
                >= old(self).nodes()[node_id@].last_heartbeat,
            final(self).files() == old(self).files(),
            final(self).location() == old(self).location(),
    {
        let now = unix_now();
        self.register_node_at(node_id, address, now)
    }

    /// Puts `rec` at `node_id`, replacing any record there.
    fn put_node(&mut self, node_id: &str, rec: NodeInfo)
        requires
            old(self).wf(),
        ensures
            final(self).wf(),
            final(self).nodes() == old(self).nodes().insert(node_id@, rec@),
            final(self).files() == old(self).files(),
            final(self).file_list() == old(self).file_list(),
            final(self).location() == old(self).location(),
    {
        let key = String::from_str(node_id);
        let ghost s = self.store.nodes@;
        match find_key(&self.store.nodes, &key) {
            Some(i) => {
                proof {
                    lemma_table_map_replace(s, i as int, (key, rec));
                }
                self.store.nodes[i] = (key, rec);
            },
            None => {
                proof {
                    lemma_table_map_domain(s, key@);
                    lemma_table_map_push(s, (key, rec));
                }
                self.store.nodes.push((key, rec));
            },
        }
    }

    /// Records a heartbeat of node `node_id` at time `now`; the heartbeat
    /// time never goes back. Returns false, changing nothing, where the node
    /// is not registered.
    pub fn heartbeat_at(&mut self, node_id: &str, now: i64) -> (r: bool)
        requires
            old(self).wf(),
        ensures
            final(self).wf(),
            r == old(self).nodes().contains_key(node_id@),
            r ==> final(self).nodes() == old(self).nodes().insert(
                node_id@,
                beaten(old(self).nodes()[node_id@], now),
            ),
            !r ==> final(self).nodes() == old(self).nodes(),
            final(self).files() == old(self).files(),
            final(self).location() == old(self).location(),
    {
        let key = String::from_str(node_id);
        match find_key(&self.store.nodes, &key) {
            Some(i) => {
                proof {
                    lemma_table_map_at(self.store.nodes@, i as int);
                }
                let old_rec = self.store.nodes[i].1.duplicate();
                let stamp = if now >= old_rec.last_heartbeat {
                    now
                } else {
                    old_rec.last_heartbeat
                };
                let rec = NodeInfo { last_heartbeat: stamp, ..old_rec };
                assert(rec@ == beaten(old_rec@, now));
                self.put_node(node_id, rec);
                true
            },
            None => {
                proof {
                    lemma_table_map_domain(self.store.nodes@, node_id@);
                }
                false
            },
        }
    }

    /// Records a heartbeat of node `node_id` at the current time, as
    /// `heartbeat_at` does.
    pub fn heartbeat(&mut self, node_id: &str) -> (r: bool)
        requires
            old(self).wf(),
        ensures
            final(self).wf(),
            r == old(self).nodes().contains_key(node_id@),
            r ==> final(self).nodes().contains_key(node_id@) && final(self).nodes() == old(
                self,
            ).nodes().insert(node_id@, final(self).nodes()[node_id@]) && final(self).nodes()[node_id@]
                == beaten(old(self).nodes()[node_id@], final(self).nodes()[node_id@].last_heartbeat),
            !r ==> final(self).nodes() == old(self).nodes(),
            final(self).files() == old(self).files(),
            final(self).location() == old(self).location(),
    {
        let now = unix_now();
        self.heartbeat_at(node_id, now)
    }

    /// The records whose owning node is `node_id`, in table order.
    pub fn get_files_by_node(&self, node_id: &str) -> (r: Vec<FileMeta>)
        requires
            self.wf(),
        ensures
            r@.map_values(|f: FileMeta| f@) == self.file_list().filter(
                |f: FileRecord| f.node_id == node_id@,
            ),
    {
        let key = String::from_str(node_id);
        let ghost all = table_values(self.store.files@);
        let mut out: Vec<FileMeta> = Vec::new();
        let mut i: usize = 0;
        while i < self.store.files.len()
            invariant
                0 <= i <= self.store.files@.len(),
                all == table_values(self.store.files@),
                key@ == node_id@,
                out@.map_values(|f: FileMeta| f@) == all.take(i as int).filter(
                    |f: FileRecord| f.node_id == node_id@,
                ),
            decreases self.store.files@.len() - i,
        {
            assert(all.take(i + 1).drop_last() =~= all.take(i as int));
            assert(all.take(i + 1).last() == self.store.files@[i as int].1@);
            proof {
                reveal(Seq::filter);
            }
            if self.store.files[i].1.node_id == key {
                let ghost prev = out@;
                out.push(self.store.files[i].1.duplicate());
                assert(out@.map_values(|f: FileMeta| f@) =~= prev.map_values(|f: FileMeta| f@).push(
                    all[i as int],
                ));
            }
            i = i + 1;
        }
        assert(all.take(self.store.files@.len() as int) =~= all);
        out
    }
}

} // verus!

verus! {

/// Creating `path` twice keeps only the second record, with both timestamps
/// set by the second call: `create_file` overwrites and restamps.
pub proof fn lemma_create_overwrites(
    files: Map<Seq<char>, FileRecord>,
    path: Seq<char>,
    first: FileRecord,
    second: FileRecord,
    t1: i64,
    t2: i64,
)
    ensures
        files.insert(path, created(normalized(first), t1)).insert(
            path,
            created(normalized(second), t2),
        ) == files.insert(path, created(normalized(second), t2)),
        created(normalized(second), t2).created_at == t2,
        created(normalized(second), t2).updated_at == t2,
{
    assert(files.insert(path, created(normalized(first), t1)).insert(
        path,
        created(normalized(second), t2),
    ) =~= files.insert(path, created(normalized(second), t2)));
}

/// Rebuilding a catalog from the document it persists gives back the same
/// file and node maps.
pub proof fn lemma_snapshot_reload(c: MetadataManager)
    requires
        c.wf(),
    ensures
        reloaded(Some(c.document())) == (c.files(), c.nodes()),
{
    let s = c.document().files@;
    assert forall|p: Seq<char>| #[trigger] c.files().contains_key(p) implies repaired(c.files()[p])
        == c.files()[p] by {
        lemma_table_map_domain(s, p);
        let i = choose|i: int| 0 <= i < s.len() && (#[trigger] s[i]).0@ == p;
        lemma_table_map_at(s, i);
        lemma_dedup_of_distinct(c.files()[p].replicas);
    }
    assert(c.files().map_values(|f: FileRecord| repaired(f)) =~= c.files());
}

/// The file records listed in table order (`file_list`, which
/// `get_files_by_node` filters) hold exactly one record per path of the
/// catalog: their paths are distinct, each is a path of the catalog with
/// that record, and every path of the catalog is among them.
pub proof fn lemma_file_list_one_per_key(c: MetadataManager)
    requires
        c.wf(),
    ensures
        c.file_keys().len() == c.file_list().len(),
        forall|i: int, j: int|
            0 <= i < j < c.file_keys().len() ==> #[trigger] c.file_keys()[i] != #[trigger] c.file_keys()[j],
        forall|i: int|
            0 <= i < c.file_keys().len() ==> c.files().contains_key(#[trigger] c.file_keys()[i])
                && c.files()[c.file_keys()[i]] == c.file_list()[i],
        forall|p: Seq<char>|
            #[trigger] c.files().contains_key(p) ==> c.file_keys().contains(p),
{
    let s = c.document().files@;
    assert forall|i: int|
        0 <= i < c.file_keys().len() implies c.files().contains_key(#[trigger] c.file_keys()[i])
        && c.files()[c.file_keys()[i]] == c.file_list()[i] by {
        lemma_table_map_at(s, i);
    }
    assert forall|i: int, j: int| 0 <= i < j < c.file_keys().len() implies #[trigger] c.file_keys()[i]
        != #[trigger] c.file_keys()[j] by {
        assert(s[i].0@ != s[j].0@);
    }
    assert forall|p: Seq<char>| #[trigger] c.files().contains_key(p) implies c.file_keys().contains(
        p,
    ) by {
        lemma_table_map_domain(s, p);
        let i = choose|i: int| 0 <= i < s.len() && (#[trigger] s[i]).0@ == p;
        assert(c.file_keys()[i] == p);
    }
}

/// The records that `get_files_by_node(id)` lists are exactly the records
/// of the catalog whose owning node is `id`.
pub proof fn lemma_files_by_node(c: MetadataManager, id: Seq<char>, f: FileRecord)
    requires
        c.wf(),
    ensures
        c.file_list().filter(|g: FileRecord| g.node_id == id).contains(f) <==> (exists|p: Seq<char>|
            #[trigger] c.files().contains_key(p) && c.files()[p] == f) && f.node_id == id,
{
    let s = c.document().files@;
    let vals = c.file_list();
    let pred = |g: FileRecord| g.node_id == id;
    assert(vals == table_values(s));
    if vals.filter(pred).contains(f) {
        vals.lemma_filter_contains_rev(pred, f);
        let i = choose|i: int| 0 <= i < vals.len() && vals[i] == f;
        lemma_table_map_at(s, i);
        assert(c.files().contains_key(s[i].0@) && c.files()[s[i].0@] == f);
    }
    if (exists|p: Seq<char>| #[trigger] c.files().contains_key(p) && c.files()[p] == f) && f.node_id
        == id {
        let p = choose|p: Seq<char>| #[trigger] c.files().contains_key(p) && c.files()[p] == f;
        lemma_table_map_domain(s, p);
        let i = choose|i: int| 0 <= i < s.len() && (#[trigger] s[i]).0@ == p;
        lemma_table_map_at(s, i);
        assert(vals[i] == f);
        vals.lemma_filter_contains(pred, i);
    }
}

} // verus!
