//! The in-memory file table behind the FUSE adapter: file contents by name,
//! and the inode numbers it hands out. Names are `/<parent>/<name>` for
//! entries looked up or created in a directory, and `/<inode>` for files
//! reached by inode.
use crate::keyed::{
    find_key, keys_unique, lemma_table_map_at, lemma_table_map_domain, lemma_table_map_push,
    lemma_table_map_remove, lemma_table_map_replace, table_map,
};
use crate::names::{decimal, push_decimal};
use vstd::prelude::*;

verus! {

/// Name of entry `name` in directory `parent`.
pub open spec fn child_name(parent: nat, name: Seq<char>) -> Seq<char> {
    seq!['/'] + decimal(parent) + seq!['/'] + name
}

/// Name of the file of inode `ino`.
pub open spec fn inode_name(ino: nat) -> Seq<char> {
    seq!['/'] + decimal(ino)
}

/// `d` after writing `data` at `offset`: extended with zeros where the write
/// starts past its end.
pub open spec fn written(d: Seq<u8>, offset: nat, data: Seq<u8>) -> Seq<u8> {
    let end = offset + data.len();
    Seq::new(
        if end > d.len() {
            end
        } else {
            d.len()
        },
        |i: int|
            if offset <= i < end {
                data[i - offset]
            } else if i < d.len() {
                d[i]
            } else {
                0u8
            },
    )
}

/// Bytes `offset .. offset + size` of `d`, cut at its end.
pub open spec fn read_range(d: Seq<u8>, offset: nat, size: nat) -> Seq<u8> {
    let start = if offset < d.len() {
        offset
    } else {
        d.len()
    };
    let end = if offset + size < d.len() {
        offset + size
    } else {
        d.len()
    };
    d.subrange(start as int, end as int)
}

fn name_of_child(parent: u64, name: &str) -> (r: String)
    ensures
        r@ == child_name(parent as nat, name@),
{
    let mut s = String::from_str("/");
    proof {
        reveal_strlit("/");
    }
    push_decimal(&mut s, parent);
    s.append("/");
    s.append(name);
    assert(s@ =~= child_name(parent as nat, name@));
    s
}

fn name_of_inode(ino: u64) -> (r: String)
    ensures
        r@ == inode_name(ino as nat),
{
    let mut s = String::from_str("/");
    proof {
        reveal_strlit("/");
    }
    push_decimal(&mut s, ino);
    assert(s@ =~= inode_name(ino as nat));
    s
}

/// The file table and the next inode number to hand out.
pub struct FuseFileSystem {
    files: Vec<(String, Vec<u8>)>,
    next_ino: u64,
}

impl FuseFileSystem {
    /// File name to contents.
    pub closed spec fn files(&self) -> Map<Seq<char>, Seq<u8>> {
        table_map(self.files@)
    }

    /// The next inode number.
    pub closed spec fn next(&self) -> nat {
        self.next_ino as nat
    }

    pub closed spec fn wf(&self) -> bool {
        keys_unique(self.files@)
    }

    /// No file; inode numbers start at 1.
    pub fn new() -> (r: FuseFileSystem)
        ensures
            r.wf(),
            r.files() == Map::<Seq<char>, Seq<u8>>::empty(),
            r.next() == 1,
    {
        FuseFileSystem { files: Vec::new(), next_ino: 1 }
    }

    /// The inode number that `next_inode` hands out next.
    pub fn peek_next_inode(&self) -> (r: u64)
        ensures
            r == self.next(),
    {
        self.next_ino
    }

    /// Hands out the next inode number.
    pub fn next_inode(&mut self) -> (r: u64)
        requires
            old(self).next() < u64::MAX,
        ensures
            r == old(self).next(),
            final(self).next() == old(self).next() + 1,
            final(self).files() == old(self).files(),
            final(self).wf() == old(self).wf(),
    {
        let inode = self.next_ino;
        self.next_ino = self.next_ino + 1;
        inode
    }

    fn content(&self, key: &String) -> (r: Option<usize>)
        requires
            self.wf(),
        ensures
            r is Some <==> self.files().contains_key(key@),
            r matches Some(i) ==> i < self.files@.len() && self.files@[i as int].0@ == key@
                && self.files()[key@] == self.files@[i as int].1@,
    {
        let r = find_key(&self.files, key);
        proof {
            lemma_table_map_domain(self.files@, key@);
            if let Some(i) = r {
                lemma_table_map_at(self.files@, i as int);
            }
        }
        r
    }

    /// Looks up entry `name` of directory `parent`: where it exists, hands
    /// out a fresh inode number for it and gives its size.
    pub fn lookup(&mut self, parent: u64, name: &str) -> (r: Option<(u64, u64)>)
        requires
            old(self).wf(),
            old(self).next() < u64::MAX,
        ensures
            final(self).wf(),
            final(self).files() == old(self).files(),
            r is Some <==> old(self).files().contains_key(child_name(parent as nat, name@)),
            r matches Some((ino, size)) ==> ino == old(self).next() && size == old(self).files()[child_name(
                parent as nat,
                name@,
            )].len() && final(self).next() == old(self).next() + 1,
            r is None ==> final(self).next() == old(self).next(),
    {
        let key = name_of_child(parent, name);
        match self.content(&key) {
            Some(i) => {
                let size = self.files[i].1.len() as u64;
                let ino = self.next_inode();
                Some((ino, size))
            },
            None => None,
        }
    }

    /// Size of the file of inode `ino`, 0 where there is none.
    pub fn getattr(&self, ino: u64) -> (r: u64)
        requires
            self.wf(),
        ensures
            r == if self.files().contains_key(inode_name(ino as nat)) {
                self.files()[inode_name(ino as nat)].len()
            } else {
                0
            },
    {
        let key = name_of_inode(ino);
        match self.content(&key) {
            Some(i) => self.files[i].1.len() as u64,
            None => 0,
        }
    }

    /// Up to `size` bytes of the file of inode `ino` from `offset`; `None`
    /// where there is no such file.
    pub fn read(&self, ino: u64, offset: u64, size: u32) -> (r: Option<Vec<u8>>)
        requires
            self.wf(),
        ensures
            r is Some <==> self.files().contains_key(inode_name(ino as nat)),
            r matches Some(v) ==> v@ == read_range(
                self.files()[inode_name(ino as nat)],
                offset as nat,
                size as nat,
            ),
    {
        let key = name_of_inode(ino);
        match self.content(&key) {
            Some(i) => {
                let d = &self.files[i].1;
                let len = d.len();
                let start: usize = if (offset as u128) < (len as u128) {
                    offset as usize
                } else {
                    len
                };
                let end: usize = if (offset as u128) + (size as u128) < (len as u128) {
                    ((offset as u128) + (size as u128)) as usize
                } else {
                    len
                };
                let mut out: Vec<u8> = Vec::new();
                let mut p: usize = start;
                while p < end
                    invariant
                        start <= p <= end,
                        end <= d@.len(),
                        out@ =~= d@.subrange(start as int, p as int),
                    decreases end - p,
                {
                    out.push(d[p]);
                    p = p + 1;
                }
                Some(out)
            },
            None => None,
        }
    }

    /// Writes `data` at `offset` into the file of inode `ino`, creating it
    /// empty first where there is none and padding with zeros up to
    /// `offset`. Gives the number of bytes written.
    pub fn write(&mut self, ino: u64, offset: u64, data: &[u8]) -> (r: u32)
        requires
            old(self).wf(),
            offset + data@.len() <= usize::MAX,
            data@.len() <= u32::MAX,
        ensures
            final(self).wf(),
            r == data@.len(),
            final(self).files() == old(self).files().insert(
                inode_name(ino as nat),
                written(
                    if old(self).files().contains_key(inode_name(ino as nat)) {
                        old(self).files()[inode_name(ino as nat)]
                    } else {
                        Seq::empty()
                    },
                    offset as nat,
                    data@,
                ),
            ),
            final(self).next() == old(self).next(),
    {
        let key = name_of_inode(ino);
        let ghost s = self.files@;
        let found = self.content(&key);
        let empty: Vec<u8> = Vec::new();
        let old_data: &Vec<u8> = match found {
            Some(i) => &self.files[i].1,
            None => &empty,
        };
        let ghost d = old_data@;
        let off = offset as usize;
        let end = off + data.len();
        let new_len = if end > old_data.len() {
            end
        } else {
            old_data.len()
        };
        let mut out: Vec<u8> = Vec::new();
        let mut p: usize = 0;
        while p < new_len
            invariant
                p <= new_len,
                d == old_data@,
                end == off + data@.len(),
                new_len as nat == (if end > d.len() {
                    end as nat
                } else {
                    d.len()
                }),
                out@ =~= written(d, off as nat, data@).take(p as int),
            decreases new_len - p,
        {
            let b = if off <= p && p < end {
                data[p - off]
            } else if p < old_data.len() {
                old_data[p]
            } else {
                0u8
            };
            out.push(b);
            p = p + 1;
        }
        assert(out@ =~= written(d, off as nat, data@));
        match found {
            Some(i) => {
                proof {
                    lemma_table_map_replace(s, i as int, (key, out));
                }
                self.files[i] = (key, out);
            },
            None => {
                proof {
                    lemma_table_map_push(s, (key, out));
                }
                self.files.push((key, out));
            },
        }
        data.len() as u32
    }

    /// Creates entry `name` in directory `parent`, empty, over any file of
    /// that name, and hands out a fresh inode number for it.
    pub fn create(&mut self, parent: u64, name: &str) -> (r: u64)
        requires
            old(self).wf(),
            old(self).next() < u64::MAX,
        ensures
            final(self).wf(),
            final(self).files() == old(self).files().insert(child_name(parent as nat, name@), Seq::empty()),
            r == old(self).next(),
            final(self).next() == old(self).next() + 1,
    {
        let key = name_of_child(parent, name);
        let ghost s = self.files@;
        let found = self.content(&key);
        let fresh: Vec<u8> = Vec::new();
        assert(fresh@ =~= Seq::<u8>::empty());
        match found {
            Some(i) => {
                proof {
                    lemma_table_map_replace(s, i as int, (key, fresh));
                }
                self.files[i] = (key, fresh);
            },
            None => {
                proof {
                    lemma_table_map_push(s, (key, fresh));
                }
                self.files.push((key, fresh));
            },
        }
        self.next_inode()
    }

    /// Removes entry `name` of directory `parent`, if there is one.
    pub fn unlink(&mut self, parent: u64, name: &str)
        requires
            old(self).wf(),
        ensures
            final(self).wf(),
            final(self).files() == old(self).files().remove(child_name(parent as nat, name@)),
            final(self).next() == old(self).next(),
    {
        let key = name_of_child(parent, name);
        let ghost s = self.files@;
        match self.content(&key) {
            Some(i) => {
                proof {
                    lemma_table_map_remove(s, i as int);
                }
                let _ = self.files.remove(i);
            },
            None => {
                assert(self.files().remove(key@) =~= self.files());
            },
        }
    }
}

} // verus!
