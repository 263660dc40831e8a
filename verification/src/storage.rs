//! The storage tree the engine operates on.
//!
//! `Storage` holds the state of one storage root as a flat list of entries,
//! each keyed by its resolved absolute path.  Every operation consumes the
//! current state and produces the next one, so the whole engine is a
//! function from state and request to state and outcome.  The
//! well-formedness invariant keeps every entry strictly inside the root and
//! every path unique.

use vstd::prelude::*;
use vstd::string::*;
use crate::paths::strictly_under;

verus! {

/// One entry of the tree: a regular file with its content, or a directory.
pub struct FsEntry {
    /// The resolved absolute path of the entry.
    pub path: String,
    pub is_dir: bool,
    /// File content; empty for directories.
    pub content: Vec<u8>,
    /// Modification time, in seconds.
    pub modified: u64,
}

/// The mathematical image of one entry.
pub struct EntryModel {
    pub path: Seq<char>,
    pub is_dir: bool,
    pub content: Seq<u8>,
    pub modified: u64,
}

impl View for FsEntry {
    type V = EntryModel;

    open spec fn view(&self) -> EntryModel {
        EntryModel {
            path: self.path@,
            is_dir: self.is_dir,
            content: self.content@,
            modified: self.modified,
        }
    }
}

/// The state of one storage root.
pub struct Storage {
    /// The absolute path of the storage root, fixed for the value's life.
    pub root: String,
    pub entries: Vec<FsEntry>,
}

/// The mathematical image of a storage state.
pub struct StorageModel {
    pub root: Seq<char>,
    pub entries: Seq<EntryModel>,
}

/// The mathematical images of a list of entries.
pub open spec fn models(entries: Seq<FsEntry>) -> Seq<EntryModel> {
    entries.map_values(|e: FsEntry| e@)
}

impl View for Storage {
    type V = StorageModel;

    open spec fn view(&self) -> StorageModel {
        StorageModel { root: self.root@, entries: models(self.entries@) }
    }
}

impl StorageModel {
    /// Well-formed: paths are unique, strictly inside the root, and
    /// directories carry no content.
    pub open spec fn wf(self) -> bool {
        &&& (forall|i: int, j: int|
            0 <= i < j < self.entries.len() ==> (#[trigger] self.entries[i]).path != (
            #[trigger] self.entries[j]).path)
        &&& (forall|i: int|
            0 <= i < self.entries.len() ==> strictly_under(
                (#[trigger] self.entries[i]).path,
                self.root,
            ))
        &&& (forall|i: int|
            0 <= i < self.entries.len() ==> ((#[trigger] self.entries[i]).is_dir
                ==> self.entries[i].content.len() == 0))
    }
}

/// The first entry with the given path, if any.  Under `wf` the paths are
/// unique, so this is the entry at that path.
pub open spec fn lookup(entries: Seq<EntryModel>, p: Seq<char>) -> Option<EntryModel>
    decreases entries.len(),
{
    if entries.len() == 0 {
        Option::None
    } else if entries[0].path == p {
        Some(entries[0])
    } else {
        lookup(entries.drop_first(), p)
    }
}

pub open spec fn has_path(entries: Seq<EntryModel>, p: Seq<char>) -> bool {
    lookup(entries, p) is Some
}

/// Looking up in an extended list first consults the old entries.
pub proof fn lemma_lookup_push(entries: Seq<EntryModel>, x: EntryModel, p: Seq<char>)
    ensures
        lookup(entries.push(x), p) == (if lookup(entries, p) is Some {
            lookup(entries, p)
        } else if x.path == p {
            Some(x)
        } else {
            Option::None::<EntryModel>
        }),
    decreases entries.len(),
{
    if entries.len() == 0 {
        assert(entries.push(x)[0] == x);
        assert(entries.push(x).drop_first() =~= Seq::<EntryModel>::empty());
        assert(lookup(Seq::<EntryModel>::empty(), p) is None);
        assert(lookup(entries, p) is None);
    } else {
        lemma_lookup_push(entries.drop_first(), x, p);
        assert(entries.push(x)[0] == entries[0]);
        assert(entries.push(x).drop_first() =~= entries.drop_first().push(x));
    }
}

/// A lookup hit names some index of the list.
pub proof fn lemma_lookup_index(entries: Seq<EntryModel>, p: Seq<char>)
    requires
        lookup(entries, p) is Some,
    ensures
        exists|i: int|
            0 <= i < entries.len() && entries[i] == lookup(entries, p).unwrap() && entries[i].path
                == p,
    decreases entries.len(),
{
    if entries.len() > 0 {
        if entries[0].path == p {
            assert(entries[0] == lookup(entries, p).unwrap());
        } else {
            lemma_lookup_index(entries.drop_first(), p);
            let i = choose|i: int|
                0 <= i < entries.drop_first().len() && entries.drop_first()[i] == lookup(
                    entries.drop_first(),
                    p,
                ).unwrap() && entries.drop_first()[i].path == p;
            assert(entries[i + 1] == entries.drop_first()[i]);
        }
    }
}

/// A missing path names no index at all.
pub proof fn lemma_no_path_no_index(entries: Seq<EntryModel>, p: Seq<char>)
    requires
        !has_path(entries, p),
    ensures
        forall|i: int| 0 <= i < entries.len() ==> (#[trigger] entries[i]).path != p,
{
    assert forall|i: int| 0 <= i < entries.len() implies (#[trigger] entries[i]).path != p by {
        if entries[i].path == p {
            lemma_index_lookup(entries, i);
        }
    }
}

/// A path different from every entry's is absent.
pub proof fn lemma_all_diff_no_path(entries: Seq<EntryModel>, p: Seq<char>)
    requires
        forall|i: int| 0 <= i < entries.len() ==> (#[trigger] entries[i]).path != p,
    ensures
        !has_path(entries, p),
    decreases entries.len(),
{
    if entries.len() > 0 {
        assert(entries[0].path != p);
        assert(forall|i: int|
            0 <= i < entries.drop_first().len() ==> (#[trigger] entries.drop_first()[i]).path
                != p) by {
            assert(forall|i: int|
                0 <= i < entries.drop_first().len() ==> entries.drop_first()[i] == entries[i + 1]);
        }
        lemma_all_diff_no_path(entries.drop_first(), p);
    }
}

/// Lookup over an appended list consults the front first.
pub proof fn lemma_lookup_append(a: Seq<EntryModel>, b: Seq<EntryModel>, p: Seq<char>)
    ensures
        lookup(a + b, p) == (if lookup(a, p) is Some {
            lookup(a, p)
        } else {
            lookup(b, p)
        }),
    decreases a.len(),
{
    if a.len() == 0 {
        assert(a + b =~= b);
    } else {
        lemma_lookup_append(a.drop_first(), b, p);
        assert((a + b)[0] == a[0]);
        assert((a + b).len() > 0);
        assert((a + b).drop_first() =~= a.drop_first() + b);
    }
}

/// An entry at some index makes the lookup a hit.
pub proof fn lemma_index_lookup(entries: Seq<EntryModel>, i: int)
    requires
        0 <= i < entries.len(),
    ensures
        has_path(entries, entries[i].path),
    decreases entries.len(),
{
    if i > 0 && entries[0].path != entries[i].path {
        lemma_index_lookup(entries.drop_first(), i - 1);
        assert(entries.drop_first()[i - 1] == entries[i]);
    }
}

impl Storage {
    /// A fresh, empty storage state for the given root.
    pub fn new(root: String) -> (s: Storage)
        ensures
            s@.root == root@,
            s@.entries.len() == 0,
            s@.wf(),
    {
        Storage { root, entries: Vec::new() }
    }
}

/// Find the index of the entry at `p`, if present.
pub fn find_entry(entries: &Vec<FsEntry>, p: &str) -> (r: Option<usize>)
    ensures
        ({
            let m = models(entries@);
            match r {
                Some(i) => i < entries@.len() && entries@[i as int]@.path == p@ && lookup(m, p@)
                    == Some(entries@[i as int]@),
                Option::None => !has_path(m, p@),
            }
        }),
{
    let ghost m = models(entries@);
    let mut i: usize = 0;
    while i < entries.len()
        invariant
            i <= entries.len(),
            m == models(entries@),
            !has_path(m.take(i as int), p@),
        decreases entries.len() - i,
    {
        let hit = crate::paths::str_eq(entries[i].path.as_str(), p);
        proof {
            assert(m[i as int] == entries@[i as int]@);
            assert(m.take(i + 1) =~= m.take(i as int).push(m[i as int]));
            lemma_lookup_push(m.take(i as int), m[i as int], p@);
        }
        if hit {
            proof {
                lemma_lookup_extend(m, i as int, p@);
            }
            return Some(i);
        }
        i = i + 1;
    }
    proof {
        assert(m.take(entries@.len() as int) =~= m);
    }
    Option::None
}

/// If the prefix up to `i` misses and entry `i` hits, the whole list's
/// lookup lands on entry `i`.
pub proof fn lemma_lookup_extend(entries: Seq<EntryModel>, i: int, p: Seq<char>)
    requires
        0 <= i < entries.len(),
        !has_path(entries.take(i), p),
        entries[i].path == p,
    ensures
        lookup(entries, p) == Some(entries[i]),
    decreases i,
{
    if i == 0 {
        assert(entries[0].path == p);
    } else {
        assert(entries.take(i)[0] == entries[0]);
        assert(entries[0].path != p);
        assert(entries.drop_first().take(i - 1) =~= entries.take(i).drop_first());
        assert(entries.drop_first()[i - 1] == entries[i]);
        lemma_lookup_extend(entries.drop_first(), i - 1, p);
    }
}

} // verus!
