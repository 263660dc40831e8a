//! The file-storage engine: listing, transfer and mutation operations.
//!
//! `FileService` carries the configuration (storage policy); every
//! operation takes the current `Storage` state explicitly and says in its
//! contract exactly which state it leaves behind and which outcome it
//! reports.  Enforcement order for uploads follows the policy: extension,
//! then size, then path resolution, then the overwrite check.

use vstd::prelude::*;
use vstd::string::*;
use vstd::pervasive::VecAdditionalExecFns;
use crate::config::Config;
use crate::errors::ApiError;
use crate::descriptor::{FileInfo, InfoModel, guess_mime_type, mime_type_of, sort_infos};
use crate::paths::{
    abs_path, check_segment, child_name, child_of, join_segments, normal_form, normalize_segments,
    path_ok, rel_path, rel_string, strictly_under, valid_seg, views_of,
};
use crate::policy::{ext_allowed, ext_of, validate_file_extension, validate_file_size};
use crate::storage::{
    EntryModel, FsEntry, Storage, StorageModel, find_entry, has_path, lemma_all_diff_no_path,
    lemma_lookup_append, lemma_no_path_no_index, lookup,
};

verus! {

/// The directory entries the engine creates on the way to `segs`: for each
/// prefix of the chain that is absent, one fresh directory entry, appended
/// in order.
pub open spec fn ensure_dirs(
    entries: Seq<EntryModel>,
    root: Seq<char>,
    segs: Seq<Seq<char>>,
    now: u64,
) -> Seq<EntryModel>
    decreases segs.len(),
{
    if segs.len() == 0 {
        entries
    } else {
        let upto = ensure_dirs(entries, root, segs.drop_last(), now);
        let p = abs_path(root, segs);
        if has_path(upto, p) {
            upto
        } else {
            upto.push(EntryModel { path: p, is_dir: true, content: Seq::<u8>::empty(), modified: now })
        }
    }
}

/// Every prefix of the chain is absent or already a directory: nothing is
/// in the way of creating the missing ones.
pub open spec fn dirs_ok(entries: Seq<EntryModel>, root: Seq<char>, segs: Seq<Seq<char>>) -> bool {
    forall|k: int|
        1 <= k <= segs.len() ==> match lookup(entries, abs_path(root, #[trigger] segs.take(k))) {
            Some(e) => e.is_dir,
            Option::None => true,
        }
}

/// A prefix of the chain is never longer than the whole.
pub proof fn lemma_abs_prefix_len(root: Seq<char>, segs: Seq<Seq<char>>, k: int)
    requires
        0 <= k <= segs.len(),
    ensures
        abs_path(root, segs.take(k)).len() <= abs_path(root, segs).len(),
    decreases segs.len() - k,
{
    if k == segs.len() {
        assert(segs.take(k) =~= segs);
    } else {
        assert(segs.take(k) =~= segs.drop_last().take(k));
        lemma_abs_prefix_len(root, segs.drop_last(), k);
        assert(abs_path(root, segs).len() == abs_path(root, segs.drop_last()).len() + 1
            + segs.last().len());
    }
}

/// What `ensure_dirs` builds: the old entries kept in place, followed by
/// fresh directory entries, one for each absent prefix of the chain.
pub proof fn lemma_ensure_dirs_props(
    entries: Seq<EntryModel>,
    root: Seq<char>,
    segs: Seq<Seq<char>>,
    now: u64,
)
    ensures
        ({
            let r = ensure_dirs(entries, root, segs, now);
            &&& r.len() >= entries.len()
            &&& (forall|i: int| 0 <= i < entries.len() ==> r[i] == entries[i])
            &&& (forall|i: int|
                entries.len() <= i < r.len() ==> {
                    &&& (#[trigger] r[i]).is_dir
                    &&& r[i].content.len() == 0
                    &&& r[i].modified == now
                    &&& !has_path(entries, r[i].path)
                    &&& exists|k: int| 1 <= k <= segs.len() && r[i].path == abs_path(
                        root,
                        #[trigger] segs.take(k),
                    )
                })
            &&& (forall|i: int, j: int|
                0 <= i < j < r.len() && entries.len() <= j ==> (#[trigger] r[i]).path != (
                #[trigger] r[j]).path)
        }),
    decreases segs.len(),
{
    if segs.len() > 0 {
        lemma_ensure_dirs_props(entries, root, segs.drop_last(), now);
        let upto = ensure_dirs(entries, root, segs.drop_last(), now);
        let p = abs_path(root, segs);
        let r = ensure_dirs(entries, root, segs, now);
        assert(segs.take(segs.len() as int) =~= segs);
        if !has_path(upto, p) {
            lemma_no_path_no_index(upto, p);
            // the new entry is absent from the old entries as well
            if has_path(entries, p) {
                crate::storage::lemma_lookup_index(entries, p);
                let i = choose|i: int|
                    0 <= i < entries.len() && entries[i] == lookup(entries, p).unwrap()
                        && entries[i].path == p;
                assert(upto[i] == entries[i]);
                crate::storage::lemma_index_lookup(upto, i);
                assert(false);
            }
        }
        assert forall|i: int| entries.len() <= i < r.len() implies {
            &&& (#[trigger] r[i]).is_dir
            &&& r[i].content.len() == 0
            &&& r[i].modified == now
            &&& !has_path(entries, r[i].path)
            &&& exists|k: int| 1 <= k <= segs.len() && r[i].path == abs_path(
                root,
                #[trigger] segs.take(k),
            )
        } by {
            if i < upto.len() {
                assert(r[i] == upto[i]);
                let k = choose|k: int|
                    1 <= k <= segs.drop_last().len() && upto[i].path == abs_path(
                        root,
                        #[trigger] segs.drop_last().take(k),
                    );
                assert(segs.take(k) =~= segs.drop_last().take(k));
                assert(r[i].path == abs_path(root, segs.take(k)));
            } else {
                assert(!has_path(upto, p) && r == upto.push(
                    EntryModel {
                        path: p,
                        is_dir: true,
                        content: Seq::<u8>::empty(),
                        modified: now,
                    },
                ));
                assert(r[i] == r.last());
                assert(r[i].path == abs_path(root, segs.take(segs.len() as int)));
            }
        }
        assert forall|i: int, j: int|
            0 <= i < j < r.len() && entries.len() <= j implies (#[trigger] r[i]).path != (
        #[trigger] r[j]).path by {
            if j < upto.len() {
                assert(r[i] == upto[i] && r[j] == upto[j]);
            } else if i < upto.len() {
                assert(r[i] == upto[i]);
                assert(r[j] == r.last());
                assert(upto[i].path != p);
            }
        }
    }
}

/// The chain only adds entries with chain paths, all shorter than any path
/// that extends the full chain by one more segment; so a target file path
/// stays present or absent exactly as it was.
pub proof fn lemma_ensure_dirs_lookup(
    entries: Seq<EntryModel>,
    root: Seq<char>,
    segs: Seq<Seq<char>>,
    now: u64,
    q: Seq<char>,
)
    requires
        q.len() > abs_path(root, segs).len(),
    ensures
        lookup(ensure_dirs(entries, root, segs, now), q) == lookup(entries, q),
{
    let r = ensure_dirs(entries, root, segs, now);
    lemma_ensure_dirs_props(entries, root, segs, now);
    assert(r.take(entries.len() as int) =~= entries);
    let added = r.skip(entries.len() as int);
    assert(entries + added =~= r);
    lemma_lookup_append(entries, added, q);
    assert forall|i: int| 0 <= i < added.len() implies (#[trigger] added[i]).path != q by {
        assert(added[i] == r[entries.len() + i]);
        let k = choose|k: int|
            1 <= k <= segs.len() && r[entries.len() + i].path == abs_path(
                root,
                #[trigger] segs.take(k),
            );
        lemma_abs_prefix_len(root, segs, k);
    }
    lemma_all_diff_no_path(added, q);
}

/// The file-storage engine, configured with one storage policy.
pub struct FileService {
    pub config: Config,
}

/// The target path of an upload: the directory chain plus the file name.
pub open spec fn upload_target(root: Seq<char>, segs: Seq<Seq<char>>, filename: Seq<char>) -> Seq<
    char,
> {
    abs_path(root, segs.push(filename))
}

/// The descriptor an upload reports.
pub open spec fn upload_info(segs: Seq<Seq<char>>, filename: Seq<char>, len: u64, now: u64) -> InfoModel {
    InfoModel {
        name: filename,
        path: rel_path(segs.push(filename)),
        size: len,
        modified: now,
        is_directory: false,
        mime_type: mime_type_of(filename),
    }
}

/// Check that nothing but directories stands on the chain to `segs`.
pub(crate) fn check_dir_chain(store: &Storage, segs: &Vec<String>) -> (r: bool)
    ensures
        r == dirs_ok(store@.entries, store@.root, views_of(segs@)),
{
    let ghost vs = views_of(segs@);
    let mut cur: String = String::from_str(store.root.as_str());
    let mut k: usize = 0;
    loop
        invariant
            k <= segs.len(),
            vs == views_of(segs@),
            vs.len() == segs.len(),
            cur@ == abs_path(store@.root, vs.take(k as int)),
            forall|kk: int|
                1 <= kk <= k ==> match lookup(store@.entries, abs_path(store@.root, #[trigger] vs.take(kk))) {
                    Some(e) => e.is_dir,
                    Option::None => true,
                },
        ensures
            k == segs.len(),
            forall|kk: int|
                1 <= kk <= k ==> match lookup(store@.entries, abs_path(store@.root, #[trigger] vs.take(kk))) {
                    Some(e) => e.is_dir,
                    Option::None => true,
                },
        decreases segs.len() - k,
    {
        if k == segs.len() {
            break;
        }
        cur.append("/");
        proof {
            reveal_strlit("/");
        }
        cur.append(segs[k].as_str());
        proof {
            assert(vs.take(k + 1).drop_last() =~= vs.take(k as int));
            assert(vs[k as int] == segs@[k as int]@);
            assert(vs.take(k + 1).last() == segs@[k as int]@);
            reveal_strlit("/");
            assert(cur@ =~= abs_path(store@.root, vs.take(k + 1)));
        }
        match find_entry(&store.entries, cur.as_str()) {
            Some(i) => {
                if !store.entries[i].is_dir {
                    proof {
                        assert(store@.entries[i as int] == store.entries@[i as int]@);
                        assert(lookup(store@.entries, abs_path(store@.root, vs.take(k + 1)))
                            == Some(store@.entries[i as int]));
                        assert(!store@.entries[i as int].is_dir);
                        assert(1 <= k + 1 <= vs.len());
                    }
                    return false;
                }
            },
            Option::None => {},
        }
        k = k + 1;
    }
    proof {
        assert(vs.take(vs.len() as int) =~= vs);
    }
    true
}

/// Create every absent directory on the chain to `segs`.
pub(crate) fn create_dir_chain(store: &mut Storage, segs: &Vec<String>, now: u64)
    requires
        old(store)@.wf(),
        forall|k: int| 0 <= k < segs@.len() ==> valid_seg(#[trigger] views_of(segs@)[k]),
    ensures
        (*final(store))@.root == old(store)@.root,
        (*final(store)).root == old(store).root,
        (*final(store))@.entries == ensure_dirs(old(store)@.entries, old(store)@.root, views_of(segs@), now),
        (*final(store))@.wf(),
{
    let ghost vs = views_of(segs@);
    let ghost root = store@.root;
    let ghost orig = store@.entries;
    let mut cur: String = String::from_str(store.root.as_str());
    let mut k: usize = 0;
    loop
        invariant
            k <= segs.len(),
            vs == views_of(segs@),
            vs.len() == segs.len(),
            forall|kk: int| 0 <= kk < vs.len() ==> valid_seg(#[trigger] vs[kk]),
            root == old(store)@.root,
            store.root == old(store).root,
            orig == old(store)@.entries,
            cur@ == abs_path(root, vs.take(k as int)),
            store@.entries == ensure_dirs(orig, root, vs.take(k as int), now),
            store@.wf(),
        ensures
            k == segs.len(),
            store.root == old(store).root,
            store@.entries == ensure_dirs(orig, root, vs.take(k as int), now),
            store@.wf(),
        decreases segs.len() - k,
    {
        if k == segs.len() {
            break;
        }
        cur.append("/");
        proof {
            reveal_strlit("/");
        }
        cur.append(segs[k].as_str());
        let ghost prev = store@.entries;
        proof {
            assert(vs.take(k + 1).drop_last() =~= vs.take(k as int));
            assert(vs[k as int] == segs@[k as int]@);
            assert(vs.take(k + 1).last() == segs@[k as int]@);
            reveal_strlit("/");
            assert(cur@ =~= abs_path(root, vs.take(k + 1)));
        }
        match find_entry(&store.entries, cur.as_str()) {
            Some(_) => {
                proof {
                    assert(has_path(prev, abs_path(root, vs.take(k + 1))));
                    assert(store@.entries == ensure_dirs(orig, root, vs.take(k + 1), now));
                }
            },
            Option::None => {
                let entry = FsEntry {
                    path: String::from_str(cur.as_str()),
                    is_dir: true,
                    content: Vec::new(),
                    modified: now,
                };
                proof {
                    lemma_no_path_no_index(prev, cur@);
                    assert forall|kk: int| 0 <= kk < vs.take(k + 1).len() implies valid_seg(
                        #[trigger] vs.take(k + 1)[kk],
                    ) by {
                        assert(vs.take(k + 1)[kk] == vs[kk]);
                    }
                    crate::paths::lemma_abs_path_under(root, vs.take(k + 1));
                }
                store.entries.push(entry);
                proof {
                    assert(store@.entries =~= prev.push(entry@));
                    assert(store@.entries == ensure_dirs(orig, root, vs.take(k + 1), now));
                }
            },
        }
        k = k + 1;
    }
    proof {
        assert(vs.take(vs.len() as int) =~= vs);
    }
}

impl FileService {
    pub fn new(config: Config) -> (s: Self)
        ensures
            s.config == config,
    {
        FileService { config }
    }

    /// Upload one file into the directory named by `path`.  Enforcement
    /// order: extension policy, size policy, path resolution, directory
    /// creation, overwrite refusal, write.  On success the new entry holds
    /// exactly the uploaded bytes; on `FileExists` the pre-existing entry
    /// is untouched; every validation failure leaves the state unchanged.
    pub fn upload_file(
        &self,
        store: &mut Storage,
        path: &str,
        filename: &str,
        data: Vec<u8>,
        now: u64,
    ) -> (r: Result<FileInfo, ApiError>)
        requires
            old(store)@.wf(),
        ensures
            (*final(store))@.wf(),
            (*final(store))@.root == old(store)@.root,
            (*final(store)).root == old(store).root,
            ({
                let m = old(store)@;
                let allowed = views_of(self.config.storage.allowed_extensions@);
                let max = self.config.storage.max_upload_size;
                match r {
                    Ok(info) => {
                        let segs = normal_form(path@).unwrap();
                        let target = upload_target(m.root, segs, filename@);
                        &&& ext_allowed(filename@, allowed)
                        &&& data@.len() <= max
                        &&& path_ok(path@)
                        &&& valid_seg(filename@)
                        &&& dirs_ok(m.entries, m.root, segs)
                        &&& !has_path(m.entries, target)
                        &&& (*final(store))@.entries == ensure_dirs(m.entries, m.root, segs, now).push(
                            EntryModel {
                                path: target,
                                is_dir: false,
                                content: data@,
                                modified: now,
                            },
                        )
                        &&& info@ == upload_info(segs, filename@, data@.len() as u64, now)
                    },
                    Err(e) => match e {
                        ApiError::InvalidFileType { file_type } => {
                            &&& !ext_allowed(filename@, allowed)
                            &&& file_type@ == ext_of(filename@)
                            &&& *final(store) == *old(store)
                        },
                        ApiError::FileTooLarge { size } => {
                            &&& ext_allowed(filename@, allowed)
                            &&& data@.len() > max
                            &&& size == data@.len()
                            &&& *final(store) == *old(store)
                        },
                        ApiError::InvalidPath { path: p } => {
                            &&& ext_allowed(filename@, allowed)
                            &&& data@.len() <= max
                            &&& !(path_ok(path@) && valid_seg(filename@))
                            &&& p@ == (if !path_ok(path@) {
                                path@
                            } else {
                                filename@
                            })
                            &&& *final(store) == *old(store)
                        },
                        ApiError::InternalServerError { .. } => {
                            &&& ext_allowed(filename@, allowed)
                            &&& data@.len() <= max
                            &&& path_ok(path@)
                            &&& valid_seg(filename@)
                            &&& !dirs_ok(m.entries, m.root, normal_form(path@).unwrap())
                            &&& *final(store) == *old(store)
                        },
                        ApiError::FileExists { path: p } => {
                            let segs = normal_form(path@).unwrap();
                            let target = upload_target(m.root, segs, filename@);
                            &&& ext_allowed(filename@, allowed)
                            &&& data@.len() <= max
                            &&& path_ok(path@)
                            &&& valid_seg(filename@)
                            &&& dirs_ok(m.entries, m.root, segs)
                            &&& has_path(m.entries, target)
                            &&& p@ == target
                            &&& (*final(store))@.entries == ensure_dirs(m.entries, m.root, segs, now)
                        },
                        _ => false,
                    },
                }
            }),
    {
        match validate_file_extension(filename, &self.config.storage.allowed_extensions) {
            Err(e) => {
                return Err(e);
            },
            Ok(()) => {},
        }
        match validate_file_size(data.len() as u64, self.config.storage.max_upload_size) {
            Err(e) => {
                return Err(e);
            },
            Ok(()) => {},
        }
        let segs = match normalize_segments(path) {
            Err(e) => {
                return Err(e);
            },
            Ok(segs) => segs,
        };
        if !check_segment(filename) {
            return Err(ApiError::InvalidPath { path: String::from_str(filename) });
        }
        proof {
            crate::paths::lemma_normal_form_valid(path@);
        }
        if !check_dir_chain(store, &segs) {
            return Err(
                ApiError::InternalServerError {
                    message: String::from_str("an entry on the target path is not a directory"),
                },
            );
        }
        let ghost m0 = store@;
        create_dir_chain(store, &segs, now);
        let target_dir = join_segments(store.root.as_str(), &segs);
        let mut target = target_dir;
        target.append("/");
        proof {
            reveal_strlit("/");
        }
        target.append(filename);
        let ghost vs = views_of(segs@);
        proof {
            assert(vs.push(filename@).drop_last() =~= vs);
            assert(target@ == upload_target(m0.root, vs, filename@));
            assert(target@.len() > abs_path(m0.root, vs).len());
            lemma_ensure_dirs_lookup(m0.entries, m0.root, vs, now, target@);
        }
        match find_entry(&store.entries, target.as_str()) {
            Some(_) => Err(ApiError::FileExists { path: target }),
            Option::None => {
                let size = data.len() as u64;
                let info = FileInfo {
                    name: String::from_str(filename),
                    path: rel_of_child(&segs, filename),
                    size,
                    modified: now,
                    is_directory: false,
                    mime_type: guess_mime_type(filename),
                };
                let ghost before = store@.entries;
                let entry = FsEntry { path: target, is_dir: false, content: data, modified: now };
                proof {
                    lemma_no_path_no_index(before, entry.path@);
                    assert forall|kk: int| 0 <= kk < vs.push(filename@).len() implies valid_seg(
                        #[trigger] vs.push(filename@)[kk],
                    ) by {}
                    crate::paths::lemma_abs_path_under(m0.root, vs.push(filename@));
                }
                store.entries.push(entry);
                proof {
                    assert(store@.entries =~= before.push(entry@));
                }
                Ok(info)
            },
        }
    }
}

/// What remains after removing the entry at `t` and everything below it.
pub open spec fn without_subtree(entries: Seq<EntryModel>, t: Seq<char>) -> Seq<EntryModel>
    decreases entries.len(),
{
    if entries.len() == 0 {
        Seq::<EntryModel>::empty()
    } else {
        let rest = without_subtree(entries.drop_last(), t);
        if entries.last().path == t || strictly_under(entries.last().path, t) {
            rest
        } else {
            rest.push(entries.last())
        }
    }
}

/// Removal keeps only original entries, none of them at or below `t`, and
/// keeps their paths distinct.
pub proof fn lemma_without_subtree_props(entries: Seq<EntryModel>, t: Seq<char>)
    requires
        forall|i: int, j: int|
            0 <= i < j < entries.len() ==> (#[trigger] entries[i]).path != (
            #[trigger] entries[j]).path,
    ensures
        ({
            let r = without_subtree(entries, t);
            &&& r.len() <= entries.len()
            &&& (forall|i: int| 0 <= i < r.len() ==> entries.contains(#[trigger] r[i]))
            &&& (forall|i: int|
                0 <= i < r.len() ==> (#[trigger] r[i]).path != t && !strictly_under(r[i].path, t))
            &&& (forall|i: int, j: int|
                0 <= i < j < r.len() ==> (#[trigger] r[i]).path != (#[trigger] r[j]).path)
        }),
    decreases entries.len(),
{
    if entries.len() > 0 {
        let dl = entries.drop_last();
        assert(forall|i: int, j: int|
            0 <= i < j < dl.len() ==> (#[trigger] dl[i]).path != (#[trigger] dl[j]).path) by {
            assert(forall|i: int| 0 <= i < dl.len() ==> dl[i] == entries[i]);
        }
        lemma_without_subtree_props(dl, t);
        let rest = without_subtree(dl, t);
        let r = without_subtree(entries, t);
        assert forall|i: int| 0 <= i < rest.len() implies entries.contains(#[trigger] rest[i]) by {
            assert(dl.contains(rest[i]));
            let j = choose|j: int| 0 <= j < dl.len() && dl[j] == rest[i];
            assert(entries[j] == rest[i]);
        }
        if !(entries.last().path == t || strictly_under(entries.last().path, t)) {
            assert(entries.contains(entries.last()));
            assert forall|i: int, j: int| 0 <= i < j < r.len() implies (#[trigger] r[i]).path != (
            #[trigger] r[j]).path by {
                if j == r.len() - 1 {
                    assert(r[i] == rest[i]);
                    assert(dl.contains(rest[i]));
                    let j0 = choose|j0: int| 0 <= j0 < dl.len() && dl[j0] == rest[i];
                    assert(entries[j0] == rest[i]);
                    assert(entries[j0].path != entries[entries.len() - 1].path);
                } else {
                    assert(r[i] == rest[i] && r[j] == rest[j]);
                }
            }
        }
    }
}

/// Nothing at or below `t` survives its removal.
pub proof fn lemma_without_subtree_absent(entries: Seq<EntryModel>, t: Seq<char>, q: Seq<char>)
    requires
        forall|i: int, j: int|
            0 <= i < j < entries.len() ==> (#[trigger] entries[i]).path != (
            #[trigger] entries[j]).path,
        q == t || strictly_under(q, t),
    ensures
        !has_path(without_subtree(entries, t), q),
{
    lemma_without_subtree_props(entries, t);
    let r = without_subtree(entries, t);
    assert forall|i: int| 0 <= i < r.len() implies (#[trigger] r[i]).path != q by {}
    lemma_all_diff_no_path(r, q);
}

/// Copy a byte vector.
fn copy_bytes(v: &Vec<u8>) -> (r: Vec<u8>)
    ensures
        r@ == v@,
{
    let mut out: Vec<u8> = Vec::new();
    let mut i: usize = 0;
    while i < v.len()
        invariant
            i <= v.len(),
            out@ == v@.take(i as int),
        decreases v.len() - i,
    {
        out.push(v[i]);
        proof {
            assert(v@.take(i + 1) =~= v@.take(i as int).push(v@[i as int]));
        }
        i = i + 1;
    }
    proof {
        assert(v@.take(v@.len() as int) =~= v@);
    }
    out
}

impl FileService {
    /// Download the file at `path`: its bytes and its base name.  Fails
    /// `BadRequest` on a directory (the root included), `FileNotFound` on
    /// an absent entry, `InvalidPath` on a rejected path.
    pub fn download_file(&self, store: &Storage, path: &str) -> (r: Result<(Vec<u8>, String), ApiError>)
        requires
            store@.wf(),
        ensures
            ({
                let m = store@;
                match r {
                    Ok(p) => {
                        let segs = normal_form(path@).unwrap();
                        let target = abs_path(m.root, segs);
                        &&& path_ok(path@)
                        &&& segs.len() > 0
                        &&& lookup(m.entries, target) is Some
                        &&& !lookup(m.entries, target).unwrap().is_dir
                        &&& p.0@ == lookup(m.entries, target).unwrap().content
                        &&& p.1@ == segs.last()
                    },
                    Err(e) => match e {
                        ApiError::InvalidPath { path: p } => !path_ok(path@) && p@ == path@,
                        ApiError::BadRequest { .. } => path_ok(path@) && {
                            let segs = normal_form(path@).unwrap();
                            segs.len() == 0 || (lookup(m.entries, abs_path(m.root, segs)) is Some
                                && lookup(m.entries, abs_path(m.root, segs)).unwrap().is_dir)
                        },
                        ApiError::FileNotFound { path: p } => path_ok(path@) && p@ == path@ && {
                            let segs = normal_form(path@).unwrap();
                            segs.len() > 0 && !has_path(m.entries, abs_path(m.root, segs))
                        },
                        _ => false,
                    },
                }
            }),
    {
        let segs = match normalize_segments(path) {
            Err(e) => {
                return Err(e);
            },
            Ok(segs) => segs,
        };
        if segs.len() == 0 {
            return Err(
                ApiError::BadRequest { message: String::from_str("cannot download a directory") },
            );
        }
        let target = join_segments(store.root.as_str(), &segs);
        match find_entry(&store.entries, target.as_str()) {
            Option::None => Err(ApiError::FileNotFound { path: String::from_str(path) }),
            Some(i) => {
                if store.entries[i].is_dir {
                    Err(
                        ApiError::BadRequest {
                            message: String::from_str("cannot download a directory"),
                        },
                    )
                } else {
                    let data = copy_bytes(&store.entries[i].content);
                    let name = String::from_str(segs[segs.len() - 1].as_str());
                    proof {
                        assert(views_of(segs@).last() == segs@[segs@.len() - 1]@);
                    }
                    Ok((data, name))
                }
            },
        }
    }

    /// Create the directory named by `path`.  Fails `BadRequest` when the
    /// target (the root included) already exists; without `recursive`, the
    /// parent must already exist.
    pub fn create_directory(&self, store: &mut Storage, path: &str, recursive: bool, now: u64) -> (r:
        Result<FileInfo, ApiError>)
        requires
            old(store)@.wf(),
        ensures
            (*final(store))@.wf(),
            (*final(store))@.root == old(store)@.root,
            (*final(store)).root == (*old(store)).root,
            ({
                let m = old(store)@;
                match r {
                    Ok(info) => {
                        let segs = normal_form(path@).unwrap();
                        let target = abs_path(m.root, segs);
                        &&& path_ok(path@)
                        &&& segs.len() > 0
                        &&& !has_path(m.entries, target)
                        &&& (recursive ==> dirs_ok(m.entries, m.root, segs) && (*final(store))@.entries
                            == ensure_dirs(m.entries, m.root, segs, now))
                        &&& (!recursive ==> (segs.len() == 1 || {
                            let parent = abs_path(m.root, segs.drop_last());
                            lookup(m.entries, parent) is Some && lookup(
                                m.entries,
                                parent,
                            ).unwrap().is_dir
                        }) && (*final(store))@.entries == m.entries.push(
                            EntryModel {
                                path: target,
                                is_dir: true,
                                content: Seq::<u8>::empty(),
                                modified: now,
                            },
                        ))
                        &&& info@ == InfoModel {
                            name: segs.last(),
                            path: rel_path(segs),
                            size: 0,
                            modified: now,
                            is_directory: true,
                            mime_type: Option::None,
                        }
                    },
                    Err(e) => *final(store) == *old(store) && match e {
                        ApiError::InvalidPath { path: p } => !path_ok(path@) && p@ == path@,
                        ApiError::BadRequest { .. } => path_ok(path@) && {
                            let segs = normal_form(path@).unwrap();
                            segs.len() == 0 || has_path(m.entries, abs_path(m.root, segs))
                        },
                        ApiError::FileNotFound { path: p } => path_ok(path@) && p@ == path@
                            && !recursive && {
                            let segs = normal_form(path@).unwrap();
                            &&& segs.len() > 1
                            &&& !has_path(m.entries, abs_path(m.root, segs))
                            &&& !has_path(m.entries, abs_path(m.root, segs.drop_last()))
                        },
                        ApiError::InternalServerError { .. } => path_ok(path@) && {
                            let segs = normal_form(path@).unwrap();
                            &&& segs.len() > 0
                            &&& !has_path(m.entries, abs_path(m.root, segs))
                            &&& (recursive ==> !dirs_ok(m.entries, m.root, segs))
                            &&& (!recursive ==> segs.len() > 1 && {
                                let parent = abs_path(m.root, segs.drop_last());
                                lookup(m.entries, parent) is Some && !lookup(
                                    m.entries,
                                    parent,
                                ).unwrap().is_dir
                            })
                        },
                        _ => false,
                    },
                }
            }),
    {
        let segs = match normalize_segments(path) {
            Err(e) => {
                return Err(e);
            },
            Ok(segs) => segs,
        };
        proof {
            crate::paths::lemma_normal_form_valid(path@);
        }
        if segs.len() == 0 {
            return Err(
                ApiError::BadRequest { message: String::from_str("directory already exists") },
            );
        }
        let target = join_segments(store.root.as_str(), &segs);
        match find_entry(&store.entries, target.as_str()) {
            Some(i) => {
                if store.entries[i].is_dir {
                    return Err(
                        ApiError::BadRequest {
                            message: String::from_str("directory already exists"),
                        },
                    );
                } else {
                    return Err(
                        ApiError::BadRequest {
                            message: String::from_str("a file with this name already exists"),
                        },
                    );
                }
            },
            Option::None => {},
        }
        let ghost m0 = store@;
        let ghost vs = views_of(segs@);
        let name = String::from_str(segs[segs.len() - 1].as_str());
        let rel = rel_string(&segs);
        proof {
            assert(vs.last() == segs@[segs@.len() - 1]@);
        }
        if recursive {
            if !check_dir_chain(store, &segs) {
                return Err(
                    ApiError::InternalServerError {
                        message: String::from_str(
                            "an entry on the target path is not a directory",
                        ),
                    },
                );
            }
            create_dir_chain(store, &segs, now);
        } else {
            if segs.len() > 1 {
                let ghost parent_segs = vs.drop_last();
                let parent = join_parent(store.root.as_str(), &segs);
                match find_entry(&store.entries, parent.as_str()) {
                    Option::None => {
                        return Err(ApiError::FileNotFound { path: String::from_str(path) });
                    },
                    Some(j) => {
                        if !store.entries[j].is_dir {
                            return Err(
                                ApiError::InternalServerError {
                                    message: String::from_str(
                                        "the parent of the target path is not a directory",
                                    ),
                                },
                            );
                        }
                    },
                }
            }
            let entry = FsEntry {
                path: String::from_str(target.as_str()),
                is_dir: true,
                content: Vec::new(),
                modified: now,
            };
            let ghost before = store@.entries;
            proof {
                lemma_no_path_no_index(before, target@);
                crate::paths::lemma_abs_path_under(m0.root, vs);
            }
            store.entries.push(entry);
            proof {
                assert(store@.entries =~= before.push(entry@));
            }
        }
        Ok(
            FileInfo {
                name,
                path: rel,
                size: 0,
                modified: now,
                is_directory: true,
                mime_type: Option::None,
            },
        )
    }

    /// Delete the entry at `path`, recursively for directories.  Deleting
    /// the root empties the whole tree.
    pub fn delete_file(&self, store: &mut Storage, path: &str) -> (r: Result<(), ApiError>)
        requires
            old(store)@.wf(),
        ensures
            (*final(store))@.wf(),
            (*final(store))@.root == old(store)@.root,
            (*final(store)).root == (*old(store)).root,
            ({
                let m = old(store)@;
                match r {
                    Ok(()) => path_ok(path@) && {
                        let segs = normal_form(path@).unwrap();
                        let target = abs_path(m.root, segs);
                        if segs.len() == 0 {
                            (*final(store))@.entries.len() == 0
                        } else {
                            has_path(m.entries, target) && (*final(store))@.entries
                                == without_subtree(m.entries, target)
                        }
                    },
                    Err(e) => *final(store) == *old(store) && match e {
                        ApiError::InvalidPath { path: p } => !path_ok(path@) && p@ == path@,
                        ApiError::FileNotFound { path: p } => path_ok(path@) && p@ == path@ && {
                            let segs = normal_form(path@).unwrap();
                            segs.len() > 0 && !has_path(m.entries, abs_path(m.root, segs))
                        },
                        _ => false,
                    },
                }
            }),
    {
        let segs = match normalize_segments(path) {
            Err(e) => {
                return Err(e);
            },
            Ok(segs) => segs,
        };
        if segs.len() == 0 {
            store.entries = Vec::new();
            proof {
                assert(store@.entries =~= Seq::<EntryModel>::empty());
            }
            return Ok(());
        }
        let target = join_segments(store.root.as_str(), &segs);
        match find_entry(&store.entries, target.as_str()) {
            Option::None => {
                return Err(ApiError::FileNotFound { path: String::from_str(path) });
            },
            Some(_) => {},
        }
        let ghost m0 = store@;
        let mut old_entries = store.entries.split_off(0);
        proof {
            assert(store@.entries =~= Seq::<EntryModel>::empty());
            assert(crate::storage::models(old_entries@) =~= m0.entries);
            assert(without_subtree(m0.entries.take(0), target@) =~= Seq::<EntryModel>::empty());
        }
        let mut i: usize = 0;
        while i < old_entries.len()
            invariant
                i <= old_entries.len(),
                old_entries@.len() == m0.entries.len(),
                forall|j: int|
                    i <= j < old_entries@.len() ==> (#[trigger] old_entries@[j])@ == m0.entries[j],
                store.root == (*old(store)).root,
                store@.root == m0.root,
                target@ == abs_path(m0.root, normal_form(path@).unwrap()),
                store@.entries == without_subtree(m0.entries.take(i as int), target@),
            decreases old_entries.len() - i,
        {
            let ghost before = store@.entries;
            let keep = {
                let same = crate::paths::str_eq(old_entries[i].path.as_str(), target.as_str());
                if same {
                    false
                } else {
                    !crate::paths::is_strictly_under(old_entries[i].path.as_str(), target.as_str())
                }
            };
            proof {
                assert(m0.entries[i as int] == old_entries@[i as int]@);
                assert(m0.entries.take(i + 1).drop_last() =~= m0.entries.take(i as int));
                assert(m0.entries.take(i + 1).last() == m0.entries[i as int]);
            }
            if keep {
                let e = take_entry(&mut old_entries, i);
                store.entries.push(e);
                proof {
                    assert(store@.entries =~= before.push(m0.entries[i as int]));
                }
            }
            i = i + 1;
        }
        proof {
            assert(m0.entries.take(m0.entries.len() as int) =~= m0.entries);
            lemma_without_subtree_props(m0.entries, target@);
        }
        Ok(())
    }
}

/// The absolute path of the parent of `segs` under `root`.
fn join_parent(root: &str, segs: &Vec<String>) -> (r: String)
    requires
        segs@.len() > 0,
    ensures
        r@ == abs_path(root@, views_of(segs@).drop_last()),
{
    let mut out = String::from_str(root);
    let mut k: usize = 0;
    while k < segs.len() - 1
        invariant
            segs@.len() > 0,
            k <= segs.len() - 1,
            out@ == abs_path(root@, views_of(segs@).drop_last().take(k as int)),
        decreases segs.len() - 1 - k,
    {
        let ghost vs = views_of(segs@).drop_last();
        out.append("/");
        proof {
            reveal_strlit("/");
        }
        out.append(segs[k].as_str());
        proof {
            assert(vs.take(k + 1).drop_last() =~= vs.take(k as int));
            assert(vs.take(k + 1).last() == segs@[k as int]@);
            assert(out@ =~= abs_path(root@, vs.take(k + 1)));
        }
        k = k + 1;
    }
    proof {
        let vs = views_of(segs@).drop_last();
        assert(vs.take(vs.len() as int) =~= vs);
    }
    out
}

/// Move the entry at index `i` out of the vector, leaving a placeholder
/// that keeps the remaining indexing unchanged.
fn take_entry(v: &mut Vec<FsEntry>, i: usize) -> (r: FsEntry)
    requires
        i < old(v)@.len(),
    ensures
        r == old(v)@[i as int],
        final(v)@.len() == old(v)@.len(),
        forall|j: int| 0 <= j < final(v)@.len() && j != i ==> final(v)@[j] == old(v)@[j],
{
    let mut placeholder = FsEntry {
        path: String::new(),
        is_dir: false,
        content: Vec::new(),
        modified: 0,
    };
    v.set_and_swap(i, &mut placeholder);
    placeholder
}

/// The descriptor of one directory child.
pub open spec fn descriptor_of(e: EntryModel, dirsegs: Seq<Seq<char>>, d: Seq<char>) -> InfoModel {
    InfoModel {
        name: child_name(e.path, d),
        path: rel_path(dirsegs.push(child_name(e.path, d))),
        size: e.content.len() as u64,
        modified: e.modified,
        is_directory: e.is_dir,
        mime_type: if e.is_dir {
            Option::None
        } else {
            mime_type_of(child_name(e.path, d))
        },
    }
}

/// The descriptors of the direct children of directory `d`, in entry order.
pub open spec fn descriptors_of(
    entries: Seq<EntryModel>,
    dirsegs: Seq<Seq<char>>,
    d: Seq<char>,
) -> Seq<InfoModel>
    decreases entries.len(),
{
    if entries.len() == 0 {
        Seq::<InfoModel>::empty()
    } else {
        let rest = descriptors_of(entries.drop_last(), dirsegs, d);
        if child_of(entries.last().path, d) {
            rest.push(descriptor_of(entries.last(), dirsegs, d))
        } else {
            rest
        }
    }
}

/// What listing a directory returns: its children's descriptors in the
/// listing order (directories before files, then byte-wise by name).
pub open spec fn listing_spec(m: StorageModel, dirsegs: Seq<Seq<char>>) -> Seq<InfoModel> {
    sort_infos(descriptors_of(m.entries, dirsegs, abs_path(m.root, dirsegs)))
}

/// Idempotent listing: the listing is a function of the storage state
/// alone, so listing an unmodified directory twice returns the same
/// descriptor sequence, already in the defined sort order.
pub proof fn lemma_listing_idempotent(m1: StorageModel, m2: StorageModel, dirsegs: Seq<Seq<char>>)
    requires
        m1 == m2,
    ensures
        listing_spec(m1, dirsegs) == listing_spec(m2, dirsegs),
{
}

/// The listing order is total on its output: the returned sequence is
/// sorted by directories-first, then byte-wise name order.
pub proof fn lemma_listing_sorted(m: StorageModel, dirsegs: Seq<Seq<char>>)
    ensures
        vstd::relations::sorted_by(listing_spec(m, dirsegs), crate::descriptor::info_leq()),
        listing_spec(m, dirsegs).to_multiset() == descriptors_of(
            m.entries,
            dirsegs,
            abs_path(m.root, dirsegs),
        ).to_multiset(),
{
    let ds = descriptors_of(m.entries, dirsegs, abs_path(m.root, dirsegs));
    crate::descriptor::lemma_sort_infos_sorted(ds);
    crate::descriptor::lemma_sort_infos_multiset(ds);
}

impl FileService {
    /// List the directory at `path` (the root included): the sorted
    /// descriptors of its direct children.  An existing but empty
    /// directory lists as empty, distinct from `FileNotFound` for an
    /// absent path; a target that is not a directory fails `BadRequest`.
    pub fn list_files(&self, store: &Storage, path: &str) -> (r: Result<Vec<FileInfo>, ApiError>)
        requires
            store@.wf(),
        ensures
            ({
                let m = store@;
                match r {
                    Ok(v) => path_ok(path@) && ({
                        let segs = normal_form(path@).unwrap();
                        let target = abs_path(m.root, segs);
                        &&& (segs.len() == 0 || (lookup(m.entries, target) is Some && lookup(
                            m.entries,
                            target,
                        ).unwrap().is_dir))
                        &&& crate::descriptor::info_models(v@) == listing_spec(m, segs)
                    }),
                    Err(e) => match e {
                        ApiError::InvalidPath { path: p } => !path_ok(path@) && p@ == path@,
                        ApiError::FileNotFound { path: p } => path_ok(path@) && p@ == path@ && {
                            let segs = normal_form(path@).unwrap();
                            segs.len() > 0 && !has_path(m.entries, abs_path(m.root, segs))
                        },
                        ApiError::BadRequest { .. } => path_ok(path@) && {
                            let segs = normal_form(path@).unwrap();
                            let target = abs_path(m.root, segs);
                            &&& segs.len() > 0
                            &&& lookup(m.entries, target) is Some
                            &&& !lookup(m.entries, target).unwrap().is_dir
                        },
                        _ => false,
                    },
                }
            }),
    {
        let segs = match normalize_segments(path) {
            Err(e) => {
                return Err(e);
            },
            Ok(segs) => segs,
        };
        let ghost vs = views_of(segs@);
        let target = join_segments(store.root.as_str(), &segs);
        if segs.len() > 0 {
            match find_entry(&store.entries, target.as_str()) {
                Option::None => {
                    return Err(ApiError::FileNotFound { path: String::from_str(path) });
                },
                Some(i) => {
                    if !store.entries[i].is_dir {
                        return Err(
                            ApiError::BadRequest {
                                message: String::from_str("not a directory"),
                            },
                        );
                    }
                },
            }
        }
        let target_len = target.unicode_len();
        let mut descs: Vec<FileInfo> = Vec::new();
        let mut j: usize = 0;
        while j < store.entries.len()
            invariant
                j <= store.entries.len(),
                vs == views_of(segs@),
                target@ == abs_path(store@.root, vs),
                target_len == target@.len(),
                crate::descriptor::info_models(descs@) == descriptors_of(
                    store@.entries.take(j as int),
                    vs,
                    target@,
                ),
            decreases store.entries.len() - j,
        {
            let ghost prev = crate::descriptor::info_models(descs@);
            proof {
                assert(store@.entries[j as int] == store.entries@[j as int]@);
                assert(store@.entries.take(j + 1).drop_last() =~= store@.entries.take(j as int));
                assert(store@.entries.take(j + 1).last() == store@.entries[j as int]);
            }
            let is_kid = crate::paths::is_child_of(store.entries[j].path.as_str(), target.as_str());
            if is_kid {
                let p_len = store.entries[j].path.unicode_len();
                let name_slice = store.entries[j].path.substring_char(target_len + 1, p_len);
                proof {
                    assert(name_slice@ =~= child_name(store@.entries[j as int].path, target@));
                }
                let name = String::from_str(name_slice);
                let lp = rel_of_child(&segs, name_slice);
                let mime = if store.entries[j].is_dir {
                    Option::None
                } else {
                    guess_mime_type(name_slice)
                };
                let info = FileInfo {
                    name,
                    path: lp,
                    size: store.entries[j].content.len() as u64,
                    modified: store.entries[j].modified,
                    is_directory: store.entries[j].is_dir,
                    mime_type: mime,
                };
                let ghost iv = info@;
                proof {
                    assert(iv == descriptor_of(store@.entries[j as int], vs, target@));
                }
                descs.push(info);
                proof {
                    assert(crate::descriptor::info_models(descs@) =~= prev.push(iv));
                }
            }
            j = j + 1;
        }
        proof {
            assert(store@.entries.take(store@.entries.len() as int) =~= store@.entries);
        }
        let sorted = crate::descriptor::sort_descriptors(descs);
        Ok(sorted)
    }
}

/// Round-trip: after a successful upload of `data` under `filename` into
/// the directory `segs`, the entry at the upload's target - the path a
/// download of `segs` plus `filename` resolves to - is a file holding
/// exactly `data`, whose base name is exactly `filename`.  Together with
/// the contracts of `upload_file` and `download_file`, downloading the
/// uploaded logical path returns the uploaded bytes and name.
pub proof fn lemma_upload_download_round_trip(
    m: StorageModel,
    segs: Seq<Seq<char>>,
    filename: Seq<char>,
    data: Seq<u8>,
    now: u64,
)
    requires
        !has_path(m.entries, upload_target(m.root, segs, filename)),
        filename.len() > 0,
    ensures
        ({
            let target = upload_target(m.root, segs, filename);
            let after = ensure_dirs(m.entries, m.root, segs, now).push(
                EntryModel { path: target, is_dir: false, content: data, modified: now },
            );
            &&& target == abs_path(m.root, segs.push(filename))
            &&& segs.push(filename).last() == filename
            &&& lookup(after, target) is Some
            &&& !lookup(after, target).unwrap().is_dir
            &&& lookup(after, target).unwrap().content == data
        }),
{
    let target = upload_target(m.root, segs, filename);
    assert(segs.push(filename).drop_last() =~= segs);
    assert(target.len() == abs_path(m.root, segs).len() + 1 + filename.len());
    lemma_ensure_dirs_lookup(m.entries, m.root, segs, now, target);
    let ed = ensure_dirs(m.entries, m.root, segs, now);
    crate::storage::lemma_lookup_push(
        ed,
        EntryModel { path: target, is_dir: false, content: data, modified: now },
        target,
    );
}

/// No silent overwrite: when an upload fails with `FileExists`, the state
/// it leaves behind - the old entries with only missing parent
/// directories added - still holds the pre-existing entry at the target,
/// content unchanged.  That an occupied target is reported as `FileExists`
/// in the first place (rather than truncated) is the `ensures` of
/// `upload_file`, under the policy checks the enforcement order runs
/// first.
pub proof fn lemma_no_silent_overwrite(
    m: StorageModel,
    segs: Seq<Seq<char>>,
    filename: Seq<char>,
    now: u64,
)
    requires
        has_path(m.entries, upload_target(m.root, segs, filename)),
        filename.len() > 0,
    ensures
        lookup(ensure_dirs(m.entries, m.root, segs, now), upload_target(m.root, segs, filename))
            == lookup(m.entries, upload_target(m.root, segs, filename)),
{
    let target = upload_target(m.root, segs, filename);
    assert(segs.push(filename).drop_last() =~= segs);
    assert(target.len() == abs_path(m.root, segs).len() + 1 + filename.len());
    lemma_ensure_dirs_lookup(m.entries, m.root, segs, now, target);
}

/// Whether anything sits at `t` or below it.
pub open spec fn occupied(entries: Seq<EntryModel>, t: Seq<char>) -> bool {
    exists|i: int|
        0 <= i < entries.len() && ((#[trigger] entries[i]).path == t || strictly_under(
            entries[i].path,
            t,
        ))
}

/// The path an entry ends up at when the subtree at `src` moves to `dst`.
pub open spec fn renamed_path(p: Seq<char>, src: Seq<char>, dst: Seq<char>) -> Seq<char> {
    if p == src {
        dst
    } else if strictly_under(p, src) {
        dst + p.skip(src.len() as int)
    } else {
        p
    }
}

/// All entries with the subtree at `src` moved to `dst`; everything else
/// keeps its place, kind, content and time.
pub open spec fn with_renamed(entries: Seq<EntryModel>, src: Seq<char>, dst: Seq<char>) -> Seq<
    EntryModel,
>
    decreases entries.len(),
{
    if entries.len() == 0 {
        Seq::<EntryModel>::empty()
    } else {
        with_renamed(entries.drop_last(), src, dst).push(
            EntryModel {
                path: renamed_path(entries.last().path, src, dst),
                is_dir: entries.last().is_dir,
                content: entries.last().content,
                modified: entries.last().modified,
            },
        )
    }
}

/// The rename is pointwise.
pub proof fn lemma_with_renamed_map(entries: Seq<EntryModel>, src: Seq<char>, dst: Seq<char>)
    ensures
        ({
            let r = with_renamed(entries, src, dst);
            &&& r.len() == entries.len()
            &&& (forall|i: int|
                0 <= i < entries.len() ==> #[trigger] r[i] == EntryModel {
                    path: renamed_path(entries[i].path, src, dst),
                    is_dir: entries[i].is_dir,
                    content: entries[i].content,
                    modified: entries[i].modified,
                })
        }),
    decreases entries.len(),
{
    if entries.len() > 0 {
        lemma_with_renamed_map(entries.drop_last(), src, dst);
        let r = with_renamed(entries, src, dst);
        assert forall|i: int| 0 <= i < entries.len() implies #[trigger] r[i] == EntryModel {
            path: renamed_path(entries[i].path, src, dst),
            is_dir: entries[i].is_dir,
            content: entries[i].content,
            modified: entries[i].modified,
        } by {
            if i < entries.len() - 1 {
                assert(entries.drop_last()[i] == entries[i]);
                assert(r[i] == with_renamed(entries.drop_last(), src, dst)[i]);
            } else {
                assert(r[i] == r.last());
            }
        }
    }
}

/// Renaming an unoccupied destination keeps the tree well-formed: the
/// moved paths land under `dst`, inside the root, and collide with
/// nothing.
pub proof fn lemma_with_renamed_wf(
    entries: Seq<EntryModel>,
    src: Seq<char>,
    dst: Seq<char>,
    root: Seq<char>,
)
    requires
        forall|i: int, j: int|
            0 <= i < j < entries.len() ==> (#[trigger] entries[i]).path != (
            #[trigger] entries[j]).path,
        forall|i: int| 0 <= i < entries.len() ==> strictly_under((#[trigger] entries[i]).path, root),
        strictly_under(dst, root),
        !occupied(entries, dst),
        dst != src,
        !strictly_under(dst, src),
    ensures
        ({
            let r = with_renamed(entries, src, dst);
            &&& (forall|i: int, j: int|
                0 <= i < j < r.len() ==> (#[trigger] r[i]).path != (#[trigger] r[j]).path)
            &&& (forall|i: int| 0 <= i < r.len() ==> strictly_under((#[trigger] r[i]).path, root))
        }),
{
    lemma_with_renamed_map(entries, src, dst);
    let r = with_renamed(entries, src, dst);
    assert forall|i: int| 0 <= i < r.len() implies strictly_under((#[trigger] r[i]).path, root) by {
        let p = entries[i].path;
        if p == src {
        } else if strictly_under(p, src) {
            let q = dst + p.skip(src.len() as int);
            assert(q.len() > root.len() + 1);
            assert(q.subrange(0, root.len() as int) =~= dst.subrange(0, root.len() as int));
            assert(q[root.len() as int] == dst[root.len() as int]);
        } else {
        }
    }
    assert forall|i: int, j: int| 0 <= i < j < r.len() implies (#[trigger] r[i]).path != (
    #[trigger] r[j]).path by {
        let p1 = entries[i].path;
        let p2 = entries[j].path;
        lemma_renamed_path_distinct(p1, p2, src, dst, entries, i, j);
    }
}

/// Two distinct entry paths stay distinct under the rename.
proof fn lemma_renamed_path_distinct(
    p1: Seq<char>,
    p2: Seq<char>,
    src: Seq<char>,
    dst: Seq<char>,
    entries: Seq<EntryModel>,
    i: int,
    j: int,
)
    requires
        0 <= i < entries.len(),
        0 <= j < entries.len(),
        entries[i].path == p1,
        entries[j].path == p2,
        p1 != p2,
        !occupied(entries, dst),
        dst != src,
        !strictly_under(dst, src),
    ensures
        renamed_path(p1, src, dst) != renamed_path(p2, src, dst),
{
    let r1 = renamed_path(p1, src, dst);
    let r2 = renamed_path(p2, src, dst);
    // no entry path is at or below dst
    assert(!(p1 == dst || strictly_under(p1, dst)));
    assert(!(p2 == dst || strictly_under(p2, dst)));
    if (p1 == src || strictly_under(p1, src)) && (p2 == src || strictly_under(p2, src)) {
        if p1 == src && strictly_under(p2, src) {
            assert(r2.len() > dst.len() + 1);
        } else if strictly_under(p1, src) && p2 == src {
            assert(r1.len() > dst.len() + 1);
        } else if strictly_under(p1, src) && strictly_under(p2, src) {
            if r1 == r2 {
                let s1 = p1.skip(src.len() as int);
                let s2 = p2.skip(src.len() as int);
                assert(s1 =~= r1.skip(dst.len() as int));
                assert(s2 =~= r2.skip(dst.len() as int));
                assert(s1 == s2);
                assert(p1 =~= p1.subrange(0, src.len() as int) + s1);
                assert(p2 =~= p2.subrange(0, src.len() as int) + s2);
                assert(false);
            }
        }
    } else if (p1 == src || strictly_under(p1, src)) && !(p2 == src || strictly_under(p2, src)) {
        // r1 is dst or below dst; r2 == p2 is neither
        if r1 == r2 {
            if p1 == src {
                assert(p2 == dst);
            } else {
                assert(strictly_under(r1, dst)) by {
                    assert(r1.len() > dst.len() + 1);
                    assert(r1.subrange(0, dst.len() as int) =~= dst);
                    assert(r1[dst.len() as int] == p1[src.len() as int]);
                }
            }
            assert(false);
        }
    } else if !(p1 == src || strictly_under(p1, src)) && (p2 == src || strictly_under(p2, src)) {
        if r1 == r2 {
            if p2 == src {
                assert(p1 == dst);
            } else {
                assert(strictly_under(r2, dst)) by {
                    assert(r2.len() > dst.len() + 1);
                    assert(r2.subrange(0, dst.len() as int) =~= dst);
                    assert(r2[dst.len() as int] == p2[src.len() as int]);
                }
            }
            assert(false);
        }
    }
}

/// Whether anything sits at `t` or below it, by scanning the entries.
fn check_occupied(entries: &Vec<FsEntry>, t: &str) -> (r: bool)
    ensures
        r == occupied(crate::storage::models(entries@), t@),
{
    let ghost m = crate::storage::models(entries@);
    let mut i: usize = 0;
    while i < entries.len()
        invariant
            i <= entries.len(),
            m == crate::storage::models(entries@),
            forall|k: int|
                0 <= k < i ==> !((#[trigger] m[k]).path == t@ || strictly_under(m[k].path, t@)),
        decreases entries.len() - i,
    {
        let hit = {
            let same = crate::paths::str_eq(entries[i].path.as_str(), t);
            if same {
                true
            } else {
                crate::paths::is_strictly_under(entries[i].path.as_str(), t)
            }
        };
        proof {
            assert(m[i as int] == entries@[i as int]@);
        }
        if hit {
            return true;
        }
        i = i + 1;
    }
    false
}

/// Rewrite every entry's path for a move of the subtree at `src` to `dst`.
fn apply_rename(store: &mut Storage, src: &String, dst: &String)
    requires
        old(store)@.wf(),
        strictly_under(dst@, old(store)@.root),
        !occupied(old(store)@.entries, dst@),
        dst@ != src@,
        !strictly_under(dst@, src@),
    ensures
        (*final(store)).root == (*old(store)).root,
        (*final(store))@.root == old(store)@.root,
        (*final(store))@.entries == with_renamed(old(store)@.entries, src@, dst@),
        (*final(store))@.wf(),
{
    let ghost m0 = store@;
    let src_len = src.as_str().unicode_len();
    let mut old_entries = store.entries.split_off(0);
    proof {
        assert(store@.entries =~= Seq::<EntryModel>::empty());
        assert(crate::storage::models(old_entries@) =~= m0.entries);
        assert(with_renamed(m0.entries.take(0), src@, dst@) =~= Seq::<EntryModel>::empty());
    }
    let mut i: usize = 0;
    while i < old_entries.len()
        invariant
            i <= old_entries.len(),
            old_entries@.len() == m0.entries.len(),
            forall|j: int|
                i <= j < old_entries@.len() ==> (#[trigger] old_entries@[j])@ == m0.entries[j],
            store.root == (*old(store)).root,
            store@.root == m0.root,
            src_len == src@.len(),
            store@.entries == with_renamed(m0.entries.take(i as int), src@, dst@),
        decreases old_entries.len() - i,
    {
        let ghost before = store@.entries;
        proof {
            assert(m0.entries[i as int] == old_entries@[i as int]@);
            assert(m0.entries.take(i + 1).drop_last() =~= m0.entries.take(i as int));
            assert(m0.entries.take(i + 1).last() == m0.entries[i as int]);
        }
        let e = take_entry(&mut old_entries, i);
        let new_path: String = {
            let same = crate::paths::str_eq(e.path.as_str(), src.as_str());
            if same {
                String::from_str(dst.as_str())
            } else if crate::paths::is_strictly_under(e.path.as_str(), src.as_str()) {
                let p_len = e.path.as_str().unicode_len();
                let suffix = e.path.as_str().substring_char(src_len, p_len);
                proof {
                    assert(suffix@ =~= e.path@.skip(src@.len() as int));
                }
                let mut np = String::from_str(dst.as_str());
                np.append(suffix);
                np
            } else {
                String::from_str(e.path.as_str())
            }
        };
        proof {
            assert(new_path@ == renamed_path(m0.entries[i as int].path, src@, dst@));
        }
        let renamed = FsEntry {
            path: new_path,
            is_dir: e.is_dir,
            content: e.content,
            modified: e.modified,
        };
        proof {
            assert(renamed@ == EntryModel {
                path: renamed_path(m0.entries[i as int].path, src@, dst@),
                is_dir: m0.entries[i as int].is_dir,
                content: m0.entries[i as int].content,
                modified: m0.entries[i as int].modified,
            });
        }
        store.entries.push(renamed);
        proof {
            assert(store@.entries =~= before.push(renamed@));
        }
        i = i + 1;
    }
    proof {
        assert(m0.entries.take(m0.entries.len() as int) =~= m0.entries);
        lemma_with_renamed_wf(m0.entries, src@, dst@, m0.root);
        lemma_with_renamed_map(m0.entries, src@, dst@);
    }
}

/// Whether the name holds a path separator.
pub open spec fn has_sep(s: Seq<char>) -> bool {
    exists|i: int| 0 <= i < s.len() && s[i] == '/'
}

/// Scan a name for a path separator.
fn check_sep(s: &str) -> (r: bool)
    ensures
        r == has_sep(s@),
{
    let n = s.unicode_len();
    let mut i: usize = 0;
    while i < n
        invariant
            i <= n,
            n == s@.len(),
            forall|k: int| 0 <= k < i ==> s@[k] != '/',
        decreases n - i,
    {
        if s.get_char(i) == '/' {
            return true;
        }
        i = i + 1;
    }
    false
}

impl FileService {
    /// Rename the entry at `from` to a new base name in the same parent
    /// directory.  A name holding a separator is refused (renaming must
    /// not relocate); an occupied destination is refused rather than
    /// overwritten.
    pub fn rename_file(&self, store: &mut Storage, from: &str, new_name: &str) -> (r: Result<
        FileInfo,
        ApiError,
    >)
        requires
            old(store)@.wf(),
        ensures
            (*final(store))@.wf(),
            (*final(store))@.root == old(store)@.root,
            (*final(store)).root == (*old(store)).root,
            ({
                let m = old(store)@;
                let segs = normal_form(from@).unwrap();
                let src = abs_path(m.root, segs);
                let dst = abs_path(m.root, segs.drop_last().push(new_name@));
                match r {
                    Ok(info) => {
                        &&& path_ok(from@)
                        &&& segs.len() > 0
                        &&& !has_sep(new_name@)
                        &&& valid_seg(new_name@)
                        &&& lookup(m.entries, src) is Some
                        &&& (if dst == src {
                            *final(store) == *old(store)
                        } else {
                            &&& !strictly_under(dst, src)
                            &&& !occupied(m.entries, dst)
                            &&& (*final(store))@.entries == with_renamed(m.entries, src, dst)
                        })
                        &&& info@ == InfoModel {
                            name: new_name@,
                            path: rel_path(segs.drop_last().push(new_name@)),
                            size: lookup(m.entries, src).unwrap().content.len() as u64,
                            modified: lookup(m.entries, src).unwrap().modified,
                            is_directory: lookup(m.entries, src).unwrap().is_dir,
                            mime_type: if lookup(m.entries, src).unwrap().is_dir {
                                Option::None
                            } else {
                                mime_type_of(new_name@)
                            },
                        }
                    },
                    Err(e) => *final(store) == *old(store) && match e {
                        ApiError::InvalidPath { path: p } => (!path_ok(from@) && p@ == from@) || (
                        path_ok(from@) && !has_sep(new_name@) && !valid_seg(new_name@) && p@
                            == new_name@),
                        ApiError::BadRequest { .. } => path_ok(from@) && (segs.len() == 0 || (
                        has_sep(new_name@) && segs.len() > 0) || (valid_seg(new_name@) && dst != src
                            && strictly_under(dst, src))),
                        ApiError::FileNotFound { path: p } => {
                            &&& path_ok(from@)
                            &&& segs.len() > 0
                            &&& !has_sep(new_name@)
                            &&& valid_seg(new_name@)
                            &&& !has_path(m.entries, src)
                            &&& p@ == from@
                        },
                        ApiError::FileExists { path: p } => {
                            &&& path_ok(from@)
                            &&& segs.len() > 0
                            &&& valid_seg(new_name@)
                            &&& lookup(m.entries, src) is Some
                            &&& dst != src
                            &&& !strictly_under(dst, src)
                            &&& occupied(m.entries, dst)
                            &&& p@ == dst
                        },
                        _ => false,
                    },
                }
            }),
    {
        let segs = match normalize_segments(from) {
            Err(e) => {
                return Err(e);
            },
            Ok(segs) => segs,
        };
        let ghost vs = views_of(segs@);
        if segs.len() == 0 {
            return Err(
                ApiError::BadRequest { message: String::from_str("cannot rename the storage root") },
            );
        }
        if check_sep(new_name) {
            return Err(
                ApiError::BadRequest {
                    message: String::from_str("the new name may not hold a path separator"),
                },
            );
        }
        if !check_segment(new_name) {
            return Err(ApiError::InvalidPath { path: String::from_str(new_name) });
        }
        let src = join_segments(store.root.as_str(), &segs);
        let mut dst = join_parent(store.root.as_str(), &segs);
        dst.append("/");
        proof {
            reveal_strlit("/");
        }
        dst.append(new_name);
        proof {
            assert(vs.drop_last().push(new_name@).drop_last() =~= vs.drop_last());
            assert(dst@ =~= abs_path(store@.root, vs.drop_last().push(new_name@)));
        }
        let eidx = match find_entry(&store.entries, src.as_str()) {
            Option::None => {
                return Err(ApiError::FileNotFound { path: String::from_str(from) });
            },
            Some(i) => i,
        };
        let info = FileInfo {
            name: String::from_str(new_name),
            path: rel_of_parent_child(&segs, new_name),
            size: store.entries[eidx].content.len() as u64,
            modified: store.entries[eidx].modified,
            is_directory: store.entries[eidx].is_dir,
            mime_type: if store.entries[eidx].is_dir {
                Option::None
            } else {
                guess_mime_type(new_name)
            },
        };
        let same = crate::paths::str_eq(dst.as_str(), src.as_str());
        if same {
            return Ok(info);
        }
        if crate::paths::is_strictly_under(dst.as_str(), src.as_str()) {
            return Err(
                ApiError::BadRequest {
                    message: String::from_str("cannot rename an entry into itself"),
                },
            );
        }
        if check_occupied(&store.entries, dst.as_str()) {
            return Err(ApiError::FileExists { path: dst });
        }
        proof {
            crate::paths::lemma_normal_form_valid(from@);
            assert forall|kk: int| 0 <= kk < vs.drop_last().push(new_name@).len() implies valid_seg(
                #[trigger] vs.drop_last().push(new_name@)[kk],
            ) by {
                if kk < vs.len() - 1 {
                    assert(vs.drop_last().push(new_name@)[kk] == vs[kk]);
                }
            }
            crate::paths::lemma_abs_path_under(store@.root, vs.drop_last().push(new_name@));
        }
        apply_rename(store, &src, &dst);
        Ok(info)
    }

    /// Move the entry at `from` to the full logical path `to`, creating
    /// the destination's parent directories.  An occupied destination is
    /// refused rather than overwritten.
    pub fn move_file(&self, store: &mut Storage, from: &str, to: &str, now: u64) -> (r: Result<
        (),
        ApiError,
    >)
        requires
            old(store)@.wf(),
        ensures
            (*final(store))@.wf(),
            (*final(store))@.root == old(store)@.root,
            (*final(store)).root == (*old(store)).root,
            ({
                let m = old(store)@;
                let fsegs = normal_form(from@).unwrap();
                let tsegs = normal_form(to@).unwrap();
                let src = abs_path(m.root, fsegs);
                let dst = abs_path(m.root, tsegs);
                match r {
                    Ok(()) => {
                        &&& path_ok(from@)
                        &&& path_ok(to@)
                        &&& fsegs.len() > 0
                        &&& tsegs.len() > 0
                        &&& lookup(m.entries, src) is Some
                        &&& (if dst == src {
                            *final(store) == *old(store)
                        } else {
                            &&& !strictly_under(dst, src)
                            &&& !occupied(m.entries, dst)
                            &&& dirs_ok(m.entries, m.root, tsegs.drop_last())
                            &&& (*final(store))@.entries == with_renamed(
                                ensure_dirs(m.entries, m.root, tsegs.drop_last(), now),
                                src,
                                dst,
                            )
                        })
                    },
                    Err(e) => *final(store) == *old(store) && match e {
                        ApiError::InvalidPath { path: p } => (!path_ok(from@) && p@ == from@) || (
                        path_ok(from@) && !path_ok(to@) && p@ == to@),
                        ApiError::BadRequest { .. } => path_ok(from@) && path_ok(to@) && (
                        fsegs.len() == 0 || tsegs.len() == 0 || (lookup(m.entries, src) is Some
                            && dst != src && strictly_under(dst, src))),
                        ApiError::FileNotFound { path: p } => {
                            &&& path_ok(from@)
                            &&& path_ok(to@)
                            &&& fsegs.len() > 0
                            &&& tsegs.len() > 0
                            &&& !has_path(m.entries, src)
                            &&& p@ == from@
                        },
                        ApiError::FileExists { path: p } => {
                            &&& lookup(m.entries, src) is Some
                            &&& dst != src
                            &&& !strictly_under(dst, src)
                            &&& occupied(m.entries, dst)
                            &&& p@ == dst
                        },
                        ApiError::InternalServerError { .. } => {
                            &&& lookup(m.entries, src) is Some
                            &&& dst != src
                            &&& !strictly_under(dst, src)
                            &&& !occupied(m.entries, dst)
                            &&& !dirs_ok(m.entries, m.root, tsegs.drop_last())
                        },
                        _ => false,
                    },
                }
            }),
    {
        let fsegs = match normalize_segments(from) {
            Err(e) => {
                return Err(e);
            },
            Ok(segs) => segs,
        };
        let tsegs = match normalize_segments(to) {
            Err(e) => {
                return Err(e);
            },
            Ok(segs) => segs,
        };
        let ghost fv = views_of(fsegs@);
        let ghost tv = views_of(tsegs@);
        if fsegs.len() == 0 {
            return Err(
                ApiError::BadRequest { message: String::from_str("cannot move the storage root") },
            );
        }
        if tsegs.len() == 0 {
            return Err(
                ApiError::BadRequest {
                    message: String::from_str("the destination may not be the storage root"),
                },
            );
        }
        let src = join_segments(store.root.as_str(), &fsegs);
        let dst = join_segments(store.root.as_str(), &tsegs);
        match find_entry(&store.entries, src.as_str()) {
            Option::None => {
                return Err(ApiError::FileNotFound { path: String::from_str(from) });
            },
            Some(_) => {},
        }
        let same = crate::paths::str_eq(dst.as_str(), src.as_str());
        if same {
            return Ok(());
        }
        if crate::paths::is_strictly_under(dst.as_str(), src.as_str()) {
            return Err(
                ApiError::BadRequest {
                    message: String::from_str("cannot move an entry into itself"),
                },
            );
        }
        if check_occupied(&store.entries, dst.as_str()) {
            return Err(ApiError::FileExists { path: dst });
        }
        let mut parent_segs: Vec<String> = Vec::new();
        let mut k: usize = 0;
        while k < tsegs.len() - 1
            invariant
                tsegs@.len() > 0,
                k <= tsegs.len() - 1,
                views_of(parent_segs@) == views_of(tsegs@).drop_last().take(k as int),
            decreases tsegs.len() - 1 - k,
        {
            let ghost done = views_of(parent_segs@);
            parent_segs.push(String::from_str(tsegs[k].as_str()));
            proof {
                assert(views_of(parent_segs@) =~= done.push(tsegs@[k as int]@));
                assert(views_of(tsegs@).drop_last().take(k + 1) =~= views_of(
                    tsegs@,
                ).drop_last().take(k as int).push(tsegs@[k as int]@));
            }
            k = k + 1;
        }
        proof {
            assert(views_of(parent_segs@) =~= tv.drop_last());
            crate::paths::lemma_normal_form_valid(to@);
            assert forall|kk: int| 0 <= kk < tv.drop_last().len() implies valid_seg(
                #[trigger] views_of(parent_segs@)[kk],
            ) by {
                assert(tv.drop_last()[kk] == tv[kk]);
            }
        }
        if !check_dir_chain(store, &parent_segs) {
            return Err(
                ApiError::InternalServerError {
                    message: String::from_str("an entry on the destination path is not a directory"),
                },
            );
        }
        let ghost m0 = store@;
        create_dir_chain(store, &parent_segs, now);
        proof {
            crate::paths::lemma_normal_form_valid(from@);
            crate::paths::lemma_abs_path_under(m0.root, tv);
            // the created chain adds nothing at or below dst
            lemma_ensure_dirs_props(m0.entries, m0.root, tv.drop_last(), now);
            let after = ensure_dirs(m0.entries, m0.root, tv.drop_last(), now);
            assert forall|i: int|
                0 <= i < after.len() implies !((#[trigger] after[i]).path == dst@
                || strictly_under(after[i].path, dst@)) by {
                if i < m0.entries.len() {
                    assert(after[i] == m0.entries[i]);
                    if after[i].path == dst@ || strictly_under(after[i].path, dst@) {
                        assert(occupied(m0.entries, dst@));
                    }
                } else {
                    let k = choose|k: int|
                        1 <= k <= tv.drop_last().len() && after[i].path == abs_path(
                            m0.root,
                            #[trigger] tv.drop_last().take(k),
                        );
                    lemma_abs_prefix_len(m0.root, tv.drop_last(), k);
                    assert(abs_path(m0.root, tv).len() == abs_path(m0.root, tv.drop_last()).len()
                        + 1 + tv.last().len());
                    assert(after[i].path.len() < dst@.len());
                }
            }
            if occupied(after, dst@) {
                let i = choose|i: int|
                    0 <= i < after.len() && ((#[trigger] after[i]).path == dst@ || strictly_under(
                        after[i].path,
                        dst@,
                    ));
                assert(false);
            }
        }
        apply_rename(store, &src, &dst);
        Ok(())
    }
}

/// The logical path of a new base name beside the last segment of `segs`.
fn rel_of_parent_child(segs: &Vec<String>, name: &str) -> (r: String)
    requires
        segs@.len() > 0,
    ensures
        r@ == rel_path(views_of(segs@).drop_last().push(name@)),
{
    let ghost vs = views_of(segs@);
    proof {
        assert(vs.drop_last().push(name@).drop_last() =~= vs.drop_last());
    }
    if segs.len() == 1 {
        String::from_str(name)
    } else {
        let mut out = String::new();
        let mut k: usize = 0;
        while k < segs.len() - 1
            invariant
                segs@.len() > 1,
                k <= segs.len() - 1,
                out@ == rel_path(views_of(segs@).drop_last().take(k as int)),
            decreases segs.len() - 1 - k,
        {
            let ghost done = views_of(segs@).drop_last().take(k as int);
            if k > 0 {
                out.append("/");
                proof {
                    reveal_strlit("/");
                }
            }
            out.append(segs[k].as_str());
            proof {
                let vsd = views_of(segs@).drop_last();
                assert(vsd.take(k + 1).drop_last() =~= done);
                assert(vsd.take(k + 1).last() == segs@[k as int]@);
                if k == 0 {
                    assert(out@ =~= rel_path(vsd.take(k + 1)));
                }
            }
            k = k + 1;
        }
        proof {
            let vsd = views_of(segs@).drop_last();
            assert(vsd.take(vsd.len() as int) =~= vsd);
        }
        out.append("/");
        proof {
            reveal_strlit("/");
        }
        out.append(name);
        proof {
            assert(vs.drop_last().push(name@).last() == name@);
        }
        out
    }
}

/// The logical path of a child of the directory `segs`.
pub(crate) fn rel_of_child(segs: &Vec<String>, name: &str) -> (r: String)
    ensures
        r@ == rel_path(views_of(segs@).push(name@)),
{
    let ghost vs = views_of(segs@);
    proof {
        assert(vs.push(name@).drop_last() =~= vs);
    }
    if segs.len() == 0 {
        String::from_str(name)
    } else {
        let mut out = rel_string(segs);
        out.append("/");
        proof {
            reveal_strlit("/");
        }
        out.append(name);
        out
    }
}

} // verus!
