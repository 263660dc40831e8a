//! Folder uploads: a batch of files, each carrying a relative path that
//! may hold embedded directory separators.
//!
//! Every file of a batch is validated and written independently; a failure
//! never aborts the siblings, and the final result reports every attempted
//! file as either uploaded or failed.  The ledger of directories the batch
//! created is a value threaded through the fold, so concurrent batches
//! cannot interfere.

use vstd::prelude::*;
use vstd::string::*;
use crate::errors::{
    ApiError, msg_file_exists, msg_file_too_large, msg_invalid_file_type, msg_invalid_path,
};
use crate::descriptor::{FileInfo, InfoModel, guess_mime_type, info_models};
use crate::files::{
    FileService, check_dir_chain, create_dir_chain, dirs_ok, ensure_dirs, lemma_ensure_dirs_lookup,
    rel_of_child, upload_info,
};
use crate::paths::{
    abs_path, normal_form, normalize_segments, path_ok, rel_path, rel_string, valid_seg, views_of,
    join_segments,
};
use crate::policy::{ext_allowed, ext_of, validate_file_extension, validate_file_size};
use crate::storage::{
    EntryModel, FsEntry, Storage, find_entry, has_path, lemma_no_path_no_index, lookup,
};

verus! {

/// One file of a folder upload: its path relative to the batch target,
/// and its content.
pub struct BatchFile {
    pub relative_path: String,
    pub data: Vec<u8>,
}

/// The mathematical image of one batch file.
pub struct BatchFileModel {
    pub relative_path: Seq<char>,
    pub data: Seq<u8>,
}

impl View for BatchFile {
    type V = BatchFileModel;

    open spec fn view(&self) -> BatchFileModel {
        BatchFileModel { relative_path: self.relative_path@, data: self.data@ }
    }
}

pub open spec fn batch_file_models(s: Seq<BatchFile>) -> Seq<BatchFileModel> {
    s.map_values(|f: BatchFile| f@)
}

/// One failed upload: the file's relative path and a message.
pub struct UploadError {
    pub filename: String,
    pub error: String,
}

/// The mathematical image of one failure report.
pub struct FailModel {
    pub filename: Seq<char>,
    pub error: Seq<char>,
}

impl View for UploadError {
    type V = FailModel;

    open spec fn view(&self) -> FailModel {
        FailModel { filename: self.filename@, error: self.error@ }
    }
}

pub open spec fn fail_models(s: Seq<UploadError>) -> Seq<FailModel> {
    s.map_values(|f: UploadError| f@)
}

/// The outcome of a batch: every file either uploaded or failed.
pub struct UploadResult {
    pub uploaded: Vec<FileInfo>,
    pub failed: Vec<UploadError>,
}

/// The state a batch fold carries: the tree, the outcomes so far, and the
/// ledger of directories created so far.
pub struct BatchState {
    pub entries: Seq<EntryModel>,
    pub uploaded: Seq<InfoModel>,
    pub failed: Seq<FailModel>,
    pub folders: Seq<Seq<char>>,
}

/// How one file of a batch transforms the state.  The checks run in the
/// upload's enforcement order; a failure leaves the tree as it was, except
/// that `FileExists` strikes after the parent chain was created.
pub open spec fn batch_step(
    st: BatchState,
    root: Seq<char>,
    tsegs: Seq<Seq<char>>,
    allowed: Seq<Seq<char>>,
    max: u64,
    f: BatchFileModel,
    now: u64,
) -> BatchState {
    let rp = f.relative_path;
    if !path_ok(rp) || normal_form(rp).unwrap().len() == 0 {
        BatchState {
            entries: st.entries,
            uploaded: st.uploaded,
            failed: st.failed.push(FailModel { filename: rp, error: msg_invalid_path(rp) }),
            folders: st.folders,
        }
    } else {
        let rsegs = normal_form(rp).unwrap();
        let name = rsegs.last();
        let dirsegs = tsegs + rsegs.drop_last();
        let dirpath = abs_path(root, dirsegs);
        let target = abs_path(root, dirsegs.push(name));
        if !ext_allowed(name, allowed) {
            BatchState {
                entries: st.entries,
                uploaded: st.uploaded,
                failed: st.failed.push(
                    FailModel { filename: rp, error: msg_invalid_file_type(ext_of(name)) },
                ),
                folders: st.folders,
            }
        } else if f.data.len() > max {
            BatchState {
                entries: st.entries,
                uploaded: st.uploaded,
                failed: st.failed.push(FailModel { filename: rp, error: msg_file_too_large() }),
                folders: st.folders,
            }
        } else if !dirs_ok(st.entries, root, dirsegs) {
            BatchState {
                entries: st.entries,
                uploaded: st.uploaded,
                failed: st.failed.push(
                    FailModel {
                        filename: rp,
                        error: "an entry on the target path is not a directory"@,
                    },
                ),
                folders: st.folders,
            }
        } else {
            let folders2 = if rsegs.len() > 1 && !has_path(st.entries, dirpath)
                && !st.folders.contains(rel_path(dirsegs)) {
                st.folders.push(rel_path(dirsegs))
            } else {
                st.folders
            };
            let created = ensure_dirs(st.entries, root, dirsegs, now);
            if has_path(st.entries, target) {
                BatchState {
                    entries: created,
                    uploaded: st.uploaded,
                    failed: st.failed.push(
                        FailModel { filename: rp, error: msg_file_exists(target) },
                    ),
                    folders: folders2,
                }
            } else {
                BatchState {
                    entries: created.push(
                        EntryModel { path: target, is_dir: false, content: f.data, modified: now },
                    ),
                    uploaded: st.uploaded.push(
                        upload_info(dirsegs, name, f.data.len() as u64, now),
                    ),
                    failed: st.failed,
                    folders: folders2,
                }
            }
        }
    }
}

/// The whole batch, folded file by file in the given order.
pub open spec fn batch_spec(
    st: BatchState,
    root: Seq<char>,
    tsegs: Seq<Seq<char>>,
    allowed: Seq<Seq<char>>,
    max: u64,
    files: Seq<BatchFileModel>,
    now: u64,
) -> BatchState
    decreases files.len(),
{
    if files.len() == 0 {
        st
    } else {
        batch_step(
            batch_spec(st, root, tsegs, allowed, max, files.drop_last(), now),
            root,
            tsegs,
            allowed,
            max,
            files.last(),
            now,
        )
    }
}

impl FileService {
    /// Process one file of a batch against the current tree.  Returns the
    /// file's outcome, and the logical directory path to record in the
    /// ledger when this file is the first to create its directory.
    fn batch_one(&self, store: &mut Storage, tsegs: &Vec<String>, rp: &str, data: Vec<u8>, now: u64)
        -> (r: (Result<FileInfo, ApiError>, Option<String>))
        requires
            old(store)@.wf(),
            forall|k: int| 0 <= k < tsegs@.len() ==> valid_seg(#[trigger] views_of(tsegs@)[k]),
        ensures
            (*final(store))@.wf(),
            (*final(store))@.root == old(store)@.root,
            (*final(store)).root == (*old(store)).root,
            ({
                let m = old(store)@;
                let tv = views_of(tsegs@);
                let allowed = views_of(self.config.storage.allowed_extensions@);
                let max = self.config.storage.max_upload_size;
                if !path_ok(rp@) || normal_form(rp@).unwrap().len() == 0 {
                    &&& (r.0 matches Err(e) && e.message_spec() == msg_invalid_path(rp@))
                    &&& r.1 is None
                    &&& *final(store) == *old(store)
                } else {
                    let rsegs = normal_form(rp@).unwrap();
                    let name = rsegs.last();
                    let dirsegs = tv + rsegs.drop_last();
                    let dirpath = abs_path(m.root, dirsegs);
                    let target = abs_path(m.root, dirsegs.push(name));
                    if !ext_allowed(name, allowed) {
                        &&& (r.0 matches Err(e) && e.message_spec() == msg_invalid_file_type(
                            ext_of(name),
                        ))
                        &&& r.1 is None
                        &&& *final(store) == *old(store)
                    } else if data@.len() > max {
                        &&& (r.0 matches Err(e) && e.message_spec() == msg_file_too_large())
                        &&& r.1 is None
                        &&& *final(store) == *old(store)
                    } else if !dirs_ok(m.entries, m.root, dirsegs) {
                        &&& (r.0 matches Err(e) && e.message_spec()
                            == "an entry on the target path is not a directory"@)
                        &&& r.1 is None
                        &&& *final(store) == *old(store)
                    } else {
                        &&& (if rsegs.len() > 1 && !has_path(m.entries, dirpath) {
                            r.1 matches Some(fr) && fr@ == rel_path(dirsegs)
                        } else {
                            r.1 is None
                        })
                        &&& (if has_path(m.entries, target) {
                            &&& (r.0 matches Err(e) && e.message_spec() == msg_file_exists(target))
                            &&& (*final(store))@.entries == ensure_dirs(
                                m.entries,
                                m.root,
                                dirsegs,
                                now,
                            )
                        } else {
                            &&& (r.0 matches Ok(info) && info@ == upload_info(
                                dirsegs,
                                name,
                                data@.len() as u64,
                                now,
                            ))
                            &&& (*final(store))@.entries == ensure_dirs(
                                m.entries,
                                m.root,
                                dirsegs,
                                now,
                            ).push(
                                EntryModel {
                                    path: target,
                                    is_dir: false,
                                    content: data@,
                                    modified: now,
                                },
                            )
                        })
                    }
                }
            }),
    {
        let mut work = match normalize_segments(rp) {
            Err(e) => {
                return (Err(e), Option::None);
            },
            Ok(segs) => segs,
        };
        if work.len() == 0 {
            return (Err(ApiError::InvalidPath { path: String::from_str(rp) }), Option::None);
        }
        let ghost rv = views_of(work@);
        let ghost tv = views_of(tsegs@);
        let ghost m0 = store@;
        proof {
            crate::paths::lemma_normal_form_valid(rp@);
        }
        let name = String::from_str(work[work.len() - 1].as_str());
        proof {
            assert(rv.last() == work@[work@.len() - 1]@);
        }
        match validate_file_extension(name.as_str(), &self.config.storage.allowed_extensions) {
            Err(e) => {
                return (Err(e), Option::None);
            },
            Ok(()) => {},
        }
        match validate_file_size(data.len() as u64, self.config.storage.max_upload_size) {
            Err(e) => {
                return (Err(e), Option::None);
            },
            Ok(()) => {},
        }
        let popped = work.pop();
        proof {
            assert(popped is Some);
            assert(views_of(work@) =~= rv.drop_last());
        }
        let mut dirsegs: Vec<String> = Vec::new();
        let mut k: usize = 0;
        while k < tsegs.len()
            invariant
                k <= tsegs.len(),
                tv == views_of(tsegs@),
                views_of(dirsegs@) == tv.take(k as int),
            decreases tsegs.len() - k,
        {
            let ghost done = views_of(dirsegs@);
            dirsegs.push(String::from_str(tsegs[k].as_str()));
            proof {
                assert(views_of(dirsegs@) =~= done.push(tsegs@[k as int]@));
                assert(tv.take(k + 1) =~= tv.take(k as int).push(tv[k as int]));
            }
            k = k + 1;
        }
        proof {
            assert(tv.take(tsegs@.len() as int) =~= tv);
        }
        let has_sub = work.len() > 0;
        dirsegs.append(&mut work);
        let ghost dv = tv + rv.drop_last();
        proof {
            assert(views_of(dirsegs@) =~= dv);
            assert forall|kk: int| 0 <= kk < dv.len() implies valid_seg(
                #[trigger] views_of(dirsegs@)[kk],
            ) by {
                if kk < tv.len() {
                    assert(dv[kk] == tv[kk]);
                } else {
                    assert(dv[kk] == rv.drop_last()[kk - tv.len()]);
                    assert(rv.drop_last()[kk - tv.len()] == rv[kk - tv.len()]);
                }
            }
        }
        if !check_dir_chain(store, &dirsegs) {
            return (
                Err(
                    ApiError::InternalServerError {
                        message: String::from_str(
                            "an entry on the target path is not a directory",
                        ),
                    },
                ),
                Option::None,
            );
        }
        let dirpath = join_segments(store.root.as_str(), &dirsegs);
        let folder_opt: Option<String> = if has_sub {
            match find_entry(&store.entries, dirpath.as_str()) {
                Option::None => Some(rel_string(&dirsegs)),
                Some(_) => Option::None,
            }
        } else {
            Option::None
        };
        create_dir_chain(store, &dirsegs, now);
        let mut target = dirpath;
        target.append("/");
        proof {
            reveal_strlit("/");
        }
        target.append(name.as_str());
        proof {
            assert(dv.push(name@).drop_last() =~= dv);
            assert(target@ =~= abs_path(m0.root, dv.push(name@)));
            assert(target@.len() > abs_path(m0.root, dv).len());
            lemma_ensure_dirs_lookup(m0.entries, m0.root, dv, now, target@);
        }
        match find_entry(&store.entries, target.as_str()) {
            Some(_) => (Err(ApiError::FileExists { path: target }), folder_opt),
            Option::None => {
                let size = data.len() as u64;
                let lp = rel_of_child(&dirsegs, name.as_str());
                let mime = guess_mime_type(name.as_str());
                let ghost before = store@.entries;
                let entry = FsEntry { path: target, is_dir: false, content: data, modified: now };
                proof {
                    lemma_no_path_no_index(before, entry.path@);
                    assert forall|kk: int| 0 <= kk < dv.push(name@).len() implies valid_seg(
                        #[trigger] dv.push(name@)[kk],
                    ) by {}
                    crate::paths::lemma_abs_path_under(m0.root, dv.push(name@));
                }
                store.entries.push(entry);
                proof {
                    assert(store@.entries =~= before.push(entry@));
                }
                let info = FileInfo {
                    name,
                    path: lp,
                    size,
                    modified: now,
                    is_directory: false,
                    mime_type: mime,
                };
                (Ok(info), folder_opt)
            },
        }
    }
}

/// The normalized segments of one batch file's relative path.
pub open spec fn file_rsegs(f: BatchFileModel) -> Seq<Seq<char>> {
    normal_form(f.relative_path).unwrap()
}

/// The directory chain one batch file is written into: the batch target
/// plus the file's own subdirectories.
pub open spec fn file_dirsegs(tsegs: Seq<Seq<char>>, f: BatchFileModel) -> Seq<Seq<char>> {
    tsegs + file_rsegs(f).drop_last()
}

/// The resolved path one batch file is written to.
pub open spec fn file_target(root: Seq<char>, tsegs: Seq<Seq<char>>, f: BatchFileModel) -> Seq<
    char,
> {
    abs_path(root, file_dirsegs(tsegs, f).push(file_rsegs(f).last()))
}

/// The entry a successful batch upload leaves at its target.
pub open spec fn file_entry_of(
    root: Seq<char>,
    tsegs: Seq<Seq<char>>,
    f: BatchFileModel,
    now: u64,
) -> EntryModel {
    EntryModel {
        path: file_target(root, tsegs, f),
        is_dir: false,
        content: f.data,
        modified: now,
    }
}

/// Whether `q` is one of the directory-chain paths of file `f`.
pub open spec fn on_chain_of(
    root: Seq<char>,
    tsegs: Seq<Seq<char>>,
    f: BatchFileModel,
    q: Seq<char>,
) -> bool {
    exists|kk: int|
        1 <= kk <= file_dirsegs(tsegs, f).len() && q == abs_path(
            root,
            #[trigger] file_dirsegs(tsegs, f).take(kk),
        )
}

/// The conditions under which one batch file must be written, its
/// extension aside: an accepted relative path naming a file, within the
/// size cap, with nothing but directories on its chain and a free target.
pub open spec fn batch_file_ok(
    f: BatchFileModel,
    entries0: Seq<EntryModel>,
    root: Seq<char>,
    tsegs: Seq<Seq<char>>,
    max: u64,
) -> bool {
    &&& path_ok(f.relative_path)
    &&& file_rsegs(f).len() > 0
    &&& f.data.len() <= max
    &&& dirs_ok(entries0, root, file_dirsegs(tsegs, f))
    &&& !has_path(entries0, file_target(root, tsegs, f))
}

/// The files of a batch do not interfere: no two share a target, and no
/// file's target lies on another file's directory chain (a file written
/// where a sibling needs a directory would block that sibling).
pub open spec fn batch_targets_free(
    root: Seq<char>,
    tsegs: Seq<Seq<char>>,
    files: Seq<BatchFileModel>,
) -> bool {
    &&& (forall|i: int, j: int|
        0 <= i < j < files.len() ==> file_target(root, tsegs, #[trigger] files[i]) != file_target(
            root,
            tsegs,
            #[trigger] files[j],
        ))
    &&& (forall|i: int, j: int|
        0 <= i < files.len() && 0 <= j < files.len() ==> !on_chain_of(
            root,
            tsegs,
            #[trigger] files[j],
            file_target(root, tsegs, #[trigger] files[i]),
        ))
}

/// The descriptors a batch with one invalid file `k` reports uploaded:
/// one per valid file, in the batch's order.
pub open spec fn uploads_of(
    tsegs: Seq<Seq<char>>,
    files: Seq<BatchFileModel>,
    k: int,
    now: u64,
) -> Seq<InfoModel>
    decreases files.len(),
{
    if files.len() == 0 {
        Seq::<InfoModel>::empty()
    } else {
        let rest = uploads_of(tsegs, files.drop_last(), k, now);
        if files.len() - 1 == k {
            rest
        } else {
            rest.push(
                upload_info(
                    file_dirsegs(tsegs, files.last()),
                    file_rsegs(files.last()).last(),
                    files.last().data.len() as u64,
                    now,
                ),
            )
        }
    }
}

/// The state a batch with at most one invalid file reaches: the other
/// files' entries all present, old lookups untouched, and every new entry
/// either one of those files or a directory on one of their chains.
proof fn lemma_batch_fold_state(
    st0: BatchState,
    root: Seq<char>,
    tsegs: Seq<Seq<char>>,
    allowed: Seq<Seq<char>>,
    max: u64,
    files: Seq<BatchFileModel>,
    now: u64,
    k: int,
)
    requires
        st0.uploaded.len() == 0,
        st0.failed.len() == 0,
        0 <= k,
        forall|i: int|
            0 <= i < files.len() ==> batch_file_ok(#[trigger] files[i], st0.entries, root, tsegs, max),
        forall|i: int|
            0 <= i < files.len() && i != k ==> ext_allowed(
                file_rsegs(#[trigger] files[i]).last(),
                allowed,
            ),
        k < files.len() ==> !ext_allowed(file_rsegs(files[k]).last(), allowed),
        batch_targets_free(root, tsegs, files),
    ensures
        ({
            let st = batch_spec(st0, root, tsegs, allowed, max, files, now);
            &&& (k < files.len() ==> st.failed.len() == 1 && st.failed[0] == FailModel {
                filename: files[k].relative_path,
                error: msg_invalid_file_type(ext_of(file_rsegs(files[k]).last())),
            })
            &&& (k >= files.len() ==> st.failed.len() == 0)
            &&& (k < files.len() ==> st.uploaded.len() == files.len() - 1)
            &&& (k >= files.len() ==> st.uploaded.len() == files.len())
            &&& st.uploaded == uploads_of(tsegs, files, k, now)
            &&& (forall|j: int|
                0 <= j < files.len() && j != k ==> lookup(
                    st.entries,
                    file_target(root, tsegs, #[trigger] files[j]),
                ) == Some(file_entry_of(root, tsegs, files[j], now)))
            &&& (forall|q: Seq<char>|
                (#[trigger] lookup(st0.entries, q)) is Some ==> lookup(st.entries, q) == lookup(
                    st0.entries,
                    q,
                ))
            &&& (forall|q: Seq<char>|
                lookup(st0.entries, q) is None && (#[trigger] lookup(st.entries, q)) is Some
                    ==> ((exists|j: int|
                    0 <= j < files.len() && j != k && q == file_target(
                        root,
                        tsegs,
                        #[trigger] files[j],
                    )) || (lookup(st.entries, q).unwrap().is_dir && exists|j: int|
                    0 <= j < files.len() && on_chain_of(root, tsegs, #[trigger] files[j], q))))
        }),
    decreases files.len(),
{
    if files.len() == 0 {
    } else {
        let pre = files.drop_last();
        let n = files.len() - 1;
        let f = files.last();
        assert(forall|i: int| 0 <= i < pre.len() ==> pre[i] == files[i]);
        assert(batch_targets_free(root, tsegs, pre)) by {
            assert forall|i: int, j: int|
                0 <= i < j < pre.len() implies file_target(root, tsegs, #[trigger] pre[i])
                != file_target(root, tsegs, #[trigger] pre[j]) by {
                assert(pre[i] == files[i] && pre[j] == files[j]);
            }
            assert forall|i: int, j: int|
                0 <= i < pre.len() && 0 <= j < pre.len() implies !on_chain_of(
                root,
                tsegs,
                #[trigger] pre[j],
                file_target(root, tsegs, #[trigger] pre[i]),
            ) by {
                assert(pre[i] == files[i] && pre[j] == files[j]);
            }
        }
        lemma_batch_fold_state(st0, root, tsegs, allowed, max, pre, now, k);
        let st1 = batch_spec(st0, root, tsegs, allowed, max, pre, now);
        let st = batch_spec(st0, root, tsegs, allowed, max, files, now);
        assert(st == batch_step(st1, root, tsegs, allowed, max, f, now));
        assert(batch_file_ok(f, st0.entries, root, tsegs, max));
        let dsegs = file_dirsegs(tsegs, f);
        let target = file_target(root, tsegs, f);
        // the step sees the same derived names
        assert(dsegs == tsegs + file_rsegs(f).drop_last());
        assert(target == abs_path(root, dsegs.push(file_rsegs(f).last())));
        // the chain is still clean in st1
        assert(dirs_ok(st1.entries, root, dsegs)) by {
            assert forall|kk: int|
                1 <= kk <= dsegs.len() implies match lookup(
                st1.entries,
                abs_path(root, #[trigger] dsegs.take(kk)),
            ) {
                Some(e) => e.is_dir,
                Option::None => true,
            } by {
                let q = abs_path(root, dsegs.take(kk));
                if lookup(st1.entries, q) is Some {
                    if lookup(st0.entries, q) is Some {
                        assert(lookup(st1.entries, q) == lookup(st0.entries, q));
                    } else {
                        if exists|j: int|
                            0 <= j < pre.len() && j != k && q == file_target(
                                root,
                                tsegs,
                                #[trigger] pre[j],
                            ) {
                            let j = choose|j: int|
                                0 <= j < pre.len() && j != k && q == file_target(
                                    root,
                                    tsegs,
                                    #[trigger] pre[j],
                                );
                            assert(on_chain_of(root, tsegs, files[n], file_target(
                                root,
                                tsegs,
                                files[j],
                            )));
                            assert(false);
                        }
                    }
                }
            }
        }
        // the target is still free in st1
        assert(lookup(st1.entries, target) is None) by {
            if lookup(st1.entries, target) is Some {
                if lookup(st0.entries, target) is Some {
                    assert(false);
                } else if exists|j: int|
                    0 <= j < pre.len() && j != k && target == file_target(
                        root,
                        tsegs,
                        #[trigger] pre[j],
                    ) {
                    let j = choose|j: int|
                        0 <= j < pre.len() && j != k && target == file_target(
                            root,
                            tsegs,
                            #[trigger] pre[j],
                        );
                    assert(file_target(root, tsegs, files[j]) != file_target(
                        root,
                        tsegs,
                        files[n],
                    ));
                    assert(false);
                } else {
                    let j = choose|j: int|
                        0 <= j < pre.len() && on_chain_of(root, tsegs, #[trigger] pre[j], target);
                    assert(!on_chain_of(root, tsegs, files[j], file_target(
                        root,
                        tsegs,
                        files[n],
                    )));
                    assert(false);
                }
            }
        }
        if n == k {
            // the invalid file: reported failed, the tree untouched
            assert(st.entries == st1.entries);
            assert(st.failed =~= st1.failed.push(
                FailModel {
                    filename: f.relative_path,
                    error: msg_invalid_file_type(ext_of(file_rsegs(f).last())),
                },
            ));
            assert forall|j: int|
                0 <= j < files.len() && j != k implies lookup(
                st.entries,
                file_target(root, tsegs, #[trigger] files[j]),
            ) == Some(file_entry_of(root, tsegs, files[j], now)) by {
                assert(pre[j] == files[j]);
            }
            assert forall|q: Seq<char>|
                lookup(st0.entries, q) is None && (#[trigger] lookup(st.entries, q)) is Some
                implies ((exists|j: int|
                0 <= j < files.len() && j != k && q == file_target(
                    root,
                    tsegs,
                    #[trigger] files[j],
                )) || (lookup(st.entries, q).unwrap().is_dir && exists|j: int|
                0 <= j < files.len() && on_chain_of(root, tsegs, #[trigger] files[j], q))) by {
                if exists|j: int|
                    0 <= j < pre.len() && j != k && q == file_target(
                        root,
                        tsegs,
                        #[trigger] pre[j],
                    ) {
                    let j = choose|j: int|
                        0 <= j < pre.len() && j != k && q == file_target(
                            root,
                            tsegs,
                            #[trigger] pre[j],
                        );
                    assert(q == file_target(root, tsegs, files[j]));
                } else {
                    let j = choose|j: int|
                        0 <= j < pre.len() && on_chain_of(root, tsegs, #[trigger] pre[j], q);
                    assert(on_chain_of(root, tsegs, files[j], q));
                }
            }
        } else {
            // a valid file: its directories are created and it is written
            assert(ext_allowed(file_rsegs(f).last(), allowed));
            let created = ensure_dirs(st1.entries, root, dsegs, now);
            let fe = EntryModel { path: target, is_dir: false, content: f.data, modified: now };
            assert(st.entries == created.push(fe));
            assert(fe == file_entry_of(root, tsegs, f, now));
            crate::files::lemma_ensure_dirs_props(st1.entries, root, dsegs, now);
            assert(created.take(st1.entries.len() as int) =~= st1.entries);
            let added = created.skip(st1.entries.len() as int);
            assert(st1.entries + added =~= created);
            // every added entry is a directory on f's chain
            assert forall|i: int|
                0 <= i < added.len() implies (#[trigger] added[i]).is_dir && on_chain_of(
                root,
                tsegs,
                files[n],
                added[i].path,
            ) && added[i].path != target by {
                assert(added[i] == created[st1.entries.len() + i]);
                let kk = choose|kk: int|
                    1 <= kk <= dsegs.len() && created[st1.entries.len() + i].path == abs_path(
                        root,
                        #[trigger] dsegs.take(kk),
                    );
                assert(on_chain_of(root, tsegs, files[n], added[i].path));
                assert(!on_chain_of(root, tsegs, files[n], file_target(root, tsegs, files[n])));
            }
            // the target is absent from the created chain as well
            assert(lookup(created, target) is None) by {
                crate::storage::lemma_lookup_append(st1.entries, added, target);
                crate::storage::lemma_all_diff_no_path(added, target);
            }
            // old lookups survive
            assert forall|q: Seq<char>|
                (#[trigger] lookup(st0.entries, q)) is Some implies lookup(st.entries, q) == lookup(
                st0.entries,
                q,
            ) by {
                assert(lookup(st1.entries, q) == lookup(st0.entries, q));
                crate::storage::lemma_lookup_append(st1.entries, added, q);
                crate::storage::lemma_lookup_push(created, fe, q);
            }
            // the other files' entries survive, and f's lands
            assert forall|j: int|
                0 <= j < files.len() && j != k implies lookup(
                st.entries,
                file_target(root, tsegs, #[trigger] files[j]),
            ) == Some(file_entry_of(root, tsegs, files[j], now)) by {
                let tj = file_target(root, tsegs, files[j]);
                crate::storage::lemma_lookup_push(created, fe, tj);
                if j < n {
                    assert(pre[j] == files[j]);
                    assert(lookup(st1.entries, tj) == Some(file_entry_of(root, tsegs, files[j], now)));
                    crate::storage::lemma_lookup_append(st1.entries, added, tj);
                } else {
                    assert(lookup(created, target) is None);
                }
            }
            // new lookups are the uploaded files or chain directories
            assert forall|q: Seq<char>|
                lookup(st0.entries, q) is None && (#[trigger] lookup(st.entries, q)) is Some
                implies ((exists|j: int|
                0 <= j < files.len() && j != k && q == file_target(
                    root,
                    tsegs,
                    #[trigger] files[j],
                )) || (lookup(st.entries, q).unwrap().is_dir && exists|j: int|
                0 <= j < files.len() && on_chain_of(root, tsegs, #[trigger] files[j], q))) by {
                crate::storage::lemma_lookup_push(created, fe, q);
                if lookup(created, q) is Some {
                    crate::storage::lemma_lookup_append(st1.entries, added, q);
                    if lookup(st1.entries, q) is Some {
                        if exists|j: int|
                            0 <= j < pre.len() && j != k && q == file_target(
                                root,
                                tsegs,
                                #[trigger] pre[j],
                            ) {
                            let j = choose|j: int|
                                0 <= j < pre.len() && j != k && q == file_target(
                                    root,
                                    tsegs,
                                    #[trigger] pre[j],
                                );
                            assert(q == file_target(root, tsegs, files[j]));
                        } else {
                            let j = choose|j: int|
                                0 <= j < pre.len() && on_chain_of(
                                    root,
                                    tsegs,
                                    #[trigger] pre[j],
                                    q,
                                );
                            assert(on_chain_of(root, tsegs, files[j], q));
                        }
                    } else {
                        // q names one of the directories just created
                        crate::storage::lemma_lookup_index(added, q);
                        let i = choose|i: int|
                            0 <= i < added.len() && added[i] == lookup(added, q).unwrap()
                                && added[i].path == q;
                        assert(on_chain_of(root, tsegs, files[n], q));
                    }
                } else {
                    assert(q == target);
                    assert(q == file_target(root, tsegs, files[n]));
                }
            }
        }
    }
}

/// Batch partial-failure isolation: in a batch of non-interfering files
/// where exactly file `k` fails extension validation and every other file
/// is valid, the other files all end up in the tree with their own bytes
/// and are the batch's uploads; file `k` is reported failed, once, with a
/// non-empty message, and nothing sits at its target.
pub proof fn lemma_batch_partial_failure_isolation(
    st0: BatchState,
    root: Seq<char>,
    tsegs: Seq<Seq<char>>,
    allowed: Seq<Seq<char>>,
    max: u64,
    files: Seq<BatchFileModel>,
    now: u64,
    k: int,
)
    requires
        st0.uploaded.len() == 0,
        st0.failed.len() == 0,
        0 <= k < files.len(),
        forall|i: int|
            0 <= i < files.len() ==> batch_file_ok(#[trigger] files[i], st0.entries, root, tsegs, max),
        forall|i: int|
            0 <= i < files.len() && i != k ==> ext_allowed(
                file_rsegs(#[trigger] files[i]).last(),
                allowed,
            ),
        !ext_allowed(file_rsegs(files[k]).last(), allowed),
        batch_targets_free(root, tsegs, files),
    ensures
        ({
            let st = batch_spec(st0, root, tsegs, allowed, max, files, now);
            &&& st.failed.len() == 1
            &&& st.failed[0].filename == files[k].relative_path
            &&& st.failed[0].error.len() > 0
            &&& st.uploaded.len() == files.len() - 1
            &&& st.uploaded == uploads_of(tsegs, files, k, now)
            &&& (forall|j: int|
                0 <= j < files.len() && j != k ==> lookup(
                    st.entries,
                    file_target(root, tsegs, #[trigger] files[j]),
                ) == Some(file_entry_of(root, tsegs, files[j], now)))
            &&& !has_path(st.entries, file_target(root, tsegs, files[k]))
        }),
{
    lemma_batch_fold_state(st0, root, tsegs, allowed, max, files, now, k);
    let st = batch_spec(st0, root, tsegs, allowed, max, files, now);
    assert(st.failed[0].error.len() > 0) by {
        reveal_strlit("invalid file type: ");
    }
    let tk = file_target(root, tsegs, files[k]);
    if lookup(st.entries, tk) is Some {
        if lookup(st0.entries, tk) is Some {
            assert(false);
        } else if exists|j: int|
            0 <= j < files.len() && j != k && tk == file_target(root, tsegs, #[trigger] files[j]) {
            let j = choose|j: int|
                0 <= j < files.len() && j != k && tk == file_target(
                    root,
                    tsegs,
                    #[trigger] files[j],
                );
            assert(file_target(root, tsegs, files[j]) != file_target(root, tsegs, files[k]));
            assert(false);
        } else {
            let j = choose|j: int|
                0 <= j < files.len() && on_chain_of(root, tsegs, #[trigger] files[j], tk);
            assert(!on_chain_of(root, tsegs, files[j], file_target(root, tsegs, files[k])));
            assert(false);
        }
    }
}

/// Whether a list of strings holds one with the given view.
fn contains_str(v: &Vec<String>, s: &str) -> (r: bool)
    ensures
        r == views_of(v@).contains(s@),
{
    let ghost vs = views_of(v@);
    let mut i: usize = 0;
    while i < v.len()
        invariant
            i <= v.len(),
            vs == views_of(v@),
            forall|k: int| 0 <= k < i ==> vs[k] != s@,
        decreases v.len() - i,
    {
        let same = crate::paths::str_eq(v[i].as_str(), s);
        proof {
            assert(vs[i as int] == v@[i as int]@);
        }
        if same {
            return true;
        }
        i = i + 1;
    }
    proof {
        if vs.contains(s@) {
            let k = choose|k: int| 0 <= k < vs.len() && vs[k] == s@;
            assert(false);
        }
    }
    false
}

impl FileService {
    /// Upload a whole folder batch into the directory named by `path`.
    /// Files are processed in the given order; each one succeeds or fails
    /// on its own and the batch never aborts early: the result reports
    /// every attempted file, along with the ledger of directories the
    /// batch newly created.  Only an unusable target path fails the whole
    /// request, before any write.
    pub fn upload_batch(&self, store: &mut Storage, path: &str, files: Vec<BatchFile>, now: u64)
        -> (r: Result<(UploadResult, Vec<String>), ApiError>)
        requires
            old(store)@.wf(),
        ensures
            (*final(store))@.wf(),
            (*final(store))@.root == old(store)@.root,
            (*final(store)).root == (*old(store)).root,
            ({
                let m = old(store)@;
                let allowed = views_of(self.config.storage.allowed_extensions@);
                let max = self.config.storage.max_upload_size;
                match r {
                    Err(e) => {
                        &&& e matches ApiError::InvalidPath { path: p } && p@ == path@
                        &&& !path_ok(path@)
                        &&& *final(store) == *old(store)
                    },
                    Ok(res) => path_ok(path@) && ({
                        let tsegs = normal_form(path@).unwrap();
                        let st = batch_spec(
                            BatchState {
                                entries: m.entries,
                                uploaded: Seq::<InfoModel>::empty(),
                                failed: Seq::<FailModel>::empty(),
                                folders: Seq::<Seq<char>>::empty(),
                            },
                            m.root,
                            tsegs,
                            allowed,
                            max,
                            batch_file_models(files@),
                            now,
                        );
                        &&& (*final(store))@.entries == st.entries
                        &&& info_models(res.0.uploaded@) == st.uploaded
                        &&& fail_models(res.0.failed@) == st.failed
                        &&& views_of(res.1@) == st.folders
                        &&& res.0.uploaded@.len() + res.0.failed@.len() == files@.len()
                    }),
                }
            }),
    {
        let tsegs = match normalize_segments(path) {
            Err(e) => {
                return Err(e);
            },
            Ok(segs) => segs,
        };
        proof {
            crate::paths::lemma_normal_form_valid(path@);
        }
        let ghost m0 = store@;
        let ghost tv = views_of(tsegs@);
        let ghost allowed = views_of(self.config.storage.allowed_extensions@);
        let ghost maxsz = self.config.storage.max_upload_size;
        let ghost files0 = batch_file_models(files@);
        let ghost init = BatchState {
            entries: m0.entries,
            uploaded: Seq::<InfoModel>::empty(),
            failed: Seq::<FailModel>::empty(),
            folders: Seq::<Seq<char>>::empty(),
        };
        let mut rest = files;
        let mut uploaded: Vec<FileInfo> = Vec::new();
        let mut failed: Vec<UploadError> = Vec::new();
        let mut folders: Vec<String> = Vec::new();
        let ghost mut done: int = 0;
        proof {
            assert(batch_file_models(rest@) =~= files0.skip(0));
            assert(files0.take(0) =~= Seq::<BatchFileModel>::empty());
            assert(info_models(uploaded@) =~= Seq::<InfoModel>::empty());
            assert(fail_models(failed@) =~= Seq::<FailModel>::empty());
            assert(views_of(folders@) =~= Seq::<Seq<char>>::empty());
        }
        while rest.len() > 0
            invariant
                allowed == views_of(self.config.storage.allowed_extensions@),
                maxsz == self.config.storage.max_upload_size,
                0 <= done <= files0.len(),
                done + rest@.len() == files0.len(),
                batch_file_models(rest@) == files0.skip(done),
                store.root == (*old(store)).root,
                store@.root == m0.root,
                store@.wf(),
                tv == views_of(tsegs@),
                forall|k: int| 0 <= k < tv.len() ==> valid_seg(#[trigger] tv[k]),
                ({
                    let st = batch_spec(init, m0.root, tv, allowed, maxsz, files0.take(done), now);
                    &&& store@.entries == st.entries
                    &&& info_models(uploaded@) == st.uploaded
                    &&& fail_models(failed@) == st.failed
                    &&& views_of(folders@) == st.folders
                }),
                uploaded@.len() + failed@.len() == done,
            decreases rest@.len(),
        {
            let ghost st_pre = batch_spec(init, m0.root, tv, allowed, maxsz, files0.take(done), now);
            let ghost old_rest = rest@;
            let f = rest.remove(0);
            proof {
                assert(f@ == batch_file_models(old_rest)[0]);
                assert(f@ == files0[done]);
                assert(rest@ =~= old_rest.drop_first());
                assert(batch_file_models(rest@) =~= batch_file_models(old_rest).drop_first());
                assert(batch_file_models(rest@) =~= files0.skip(done + 1));
            }
            let BatchFile { relative_path, data } = f;
            let ghost entries_pre = store@.entries;
            let (outcome, folder_opt) = self.batch_one(store, &tsegs, relative_path.as_str(), data, now);
            let ghost prev_uploaded = info_models(uploaded@);
            let ghost prev_failed = fail_models(failed@);
            let ghost prev_folders = views_of(folders@);
            match outcome {
                Ok(info) => {
                    let ghost iv = info@;
                    uploaded.push(info);
                    proof {
                        assert(info_models(uploaded@) =~= prev_uploaded.push(iv));
                    }
                },
                Err(e) => {
                    let msg = e.message();
                    let ghost fm = FailModel { filename: relative_path@, error: msg@ };
                    failed.push(UploadError { filename: relative_path, error: msg });
                    proof {
                        assert(fail_models(failed@) =~= prev_failed.push(fm));
                    }
                },
            }
            match folder_opt {
                Some(fr) => {
                    let seen = contains_str(&folders, fr.as_str());
                    if !seen {
                        let ghost fv = fr@;
                        folders.push(fr);
                        proof {
                            assert(views_of(folders@) =~= prev_folders.push(fv));
                        }
                    }
                },
                Option::None => {},
            }
            proof {
                assert(files0.take(done + 1).drop_last() =~= files0.take(done));
                assert(files0.take(done + 1).last() == files0[done]);
                done = done + 1;
            }
        }
        proof {
            assert(files0.take(files0.len() as int) =~= files0);
        }
        Ok((UploadResult { uploaded, failed }, folders))
    }
}

} // verus!
