//! Logical-path validation and resolution.
//!
//! A logical path is an untrusted, slash-separated string naming a location
//! relative to the storage root.  `validate_path` normalizes it lexically
//! (dropping empty and `.` segments and resolving `..` against the logical
//! path only), and `resolve_path` joins the normalized form onto the root.
//! The central guarantee is containment: a resolved path is the root itself
//! or strictly below it; a path whose `..` segments would climb above the
//! root is rejected as `InvalidPath`, never resolved outside.

use vstd::prelude::*;
use vstd::string::*;
use crate::errors::ApiError;

verus! {

/// Characters a normalized path segment may hold: anything but the
/// separator and NUL.
pub open spec fn seg_char_ok(c: char) -> bool {
    c != '/' && c != '\u{0}'
}

/// A normalized segment: nonempty, free of separators and NUL, and not one
/// of the special names `.` and `..`.
pub open spec fn valid_seg(s: Seq<char>) -> bool {
    &&& s.len() > 0
    &&& (forall|i: int| 0 <= i < s.len() ==> seg_char_ok(s[i]))
    &&& s != seq!['.']
    &&& s != seq!['.', '.']
}

/// Split a path on `/`.  The empty path is one empty segment; `n` separators
/// yield `n + 1` segments.
pub open spec fn split_path(s: Seq<char>) -> Seq<Seq<char>>
    decreases s.len(),
{
    if s.len() == 0 {
        seq![Seq::<char>::empty()]
    } else {
        let rest = split_path(s.drop_first());
        if s[0] == '/' {
            seq![Seq::<char>::empty()] + rest
        } else {
            seq![seq![s[0]] + rest[0]] + rest.drop_first()
        }
    }
}

/// Fold raw segments left to right into a normalized stack: empty and `.`
/// segments vanish, `..` pops the stack, and a `..` on an empty stack means
/// the path climbs above the root, which is rejected.
pub open spec fn normalize_segs(segs: Seq<Seq<char>>) -> Option<Seq<Seq<char>>>
    decreases segs.len(),
{
    if segs.len() == 0 {
        Some(Seq::<Seq<char>>::empty())
    } else {
        match normalize_segs(segs.drop_last()) {
            Option::None => Option::None,
            Option::Some(st) => {
                let sg = segs.last();
                if sg.len() == 0 || sg == seq!['.'] {
                    Some(st)
                } else if sg == seq!['.', '.'] {
                    if st.len() == 0 {
                        Option::None
                    } else {
                        Some(st.drop_last())
                    }
                } else {
                    Some(st.push(sg))
                }
            },
        }
    }
}

/// The normalized segments of a logical path, if it stays inside the root.
pub open spec fn normal_form(path: Seq<char>) -> Option<Seq<Seq<char>>> {
    normalize_segs(split_path(path))
}

pub open spec fn has_nul(s: Seq<char>) -> bool {
    exists|i: int| 0 <= i < s.len() && s[i] == '\u{0}'
}

/// The length cap on logical paths, in characters.
pub const PATH_LENGTH_CAP: usize = 1000;

/// Whether a logical path is accepted at all: no NUL byte, within the
/// length cap, and its `..` segments never climb above the root.
pub open spec fn path_ok(path: Seq<char>) -> bool {
    &&& !has_nul(path)
    &&& path.len() <= PATH_LENGTH_CAP
    &&& normal_form(path) is Some
}

/// The relative path a normalized segment list prints as: segments joined
/// by single separators, empty for the empty list.
pub open spec fn rel_path(segs: Seq<Seq<char>>) -> Seq<char>
    decreases segs.len(),
{
    if segs.len() == 0 {
        Seq::<char>::empty()
    } else if segs.len() == 1 {
        segs[0]
    } else {
        rel_path(segs.drop_last()) + seq!['/'] + segs.last()
    }
}

/// The absolute path of a normalized segment list under `root`: the root
/// itself for the empty list, else each segment appended behind a separator.
pub open spec fn abs_path(root: Seq<char>, segs: Seq<Seq<char>>) -> Seq<char>
    decreases segs.len(),
{
    if segs.len() == 0 {
        root
    } else {
        abs_path(root, segs.drop_last()) + seq!['/'] + segs.last()
    }
}

/// `p` lies strictly below the directory `d`: it extends `d` past a
/// separator by at least one character.
pub open spec fn strictly_under(p: Seq<char>, d: Seq<char>) -> bool {
    &&& p.len() > d.len() + 1
    &&& p.subrange(0, d.len() as int) == d
    &&& p[d.len() as int] == '/'
}

// ------------------------------------------------------------------
// Lemmas about the spec model
// ------------------------------------------------------------------

/// Splitting always yields at least one segment.
pub proof fn lemma_split_path_nonempty(s: Seq<char>)
    ensures
        split_path(s).len() > 0,
    decreases s.len(),
{
    if s.len() > 0 {
        lemma_split_path_nonempty(s.drop_first());
    }
}

/// Every character of every split segment occurs in the input and is not a
/// separator.
pub proof fn lemma_split_path_chars(s: Seq<char>)
    ensures
        forall|i: int, j: int|
            0 <= i < split_path(s).len() && 0 <= j < split_path(s)[i].len()
                ==> s.contains(#[trigger] split_path(s)[i][j]) && split_path(s)[i][j] != '/',
    decreases s.len(),
{
    if s.len() > 0 {
        lemma_split_path_chars(s.drop_first());
        assert forall|i: int, j: int|
            0 <= i < split_path(s).len() && 0 <= j < split_path(s)[i].len()
            implies s.contains(#[trigger] split_path(s)[i][j]) && split_path(s)[i][j] != '/' by {
            let rest = split_path(s.drop_first());
            let c = split_path(s)[i][j];
            if s[0] == '/' {
                if i > 0 {
                    assert(c == rest[i - 1][j]);
                    assert(s.drop_first().contains(c));
                    assert(s.contains(c)) by {
                        let k = choose|k: int| 0 <= k < s.drop_first().len() && s.drop_first()[k] == c;
                        assert(s[k + 1] == c);
                    }
                } else {
                    assert(false);
                }
            } else {
                if i == 0 {
                    if j == 0 {
                        assert(c == s[0]);
                    } else {
                        assert(c == rest[0][j - 1]);
                        assert(s.drop_first().contains(c));
                        let k = choose|k: int| 0 <= k < s.drop_first().len() && s.drop_first()[k] == c;
                        assert(s[k + 1] == c);
                    }
                } else {
                    assert(c == rest[i][j]);
                    assert(s.drop_first().contains(c));
                    let k = choose|k: int| 0 <= k < s.drop_first().len() && s.drop_first()[k] == c;
                    assert(s[k + 1] == c);
                }
            }
        }
    }
}

/// Normalized segments are all valid: the fold drops empties and dots, and
/// pushes only segments whose characters came through the split.
pub proof fn lemma_normalize_valid(segs: Seq<Seq<char>>)
    requires
        forall|i: int, j: int|
            0 <= i < segs.len() && 0 <= j < segs[i].len() ==> #[trigger] segs[i][j] != '/'
                && segs[i][j] != '\u{0}',
        normalize_segs(segs) is Some,
    ensures
        forall|k: int|
            0 <= k < normalize_segs(segs).unwrap().len() ==> valid_seg(
                #[trigger] normalize_segs(segs).unwrap()[k],
            ),
    decreases segs.len(),
{
    if segs.len() > 0 {
        assert(forall|i: int, j: int|
            0 <= i < segs.drop_last().len() && 0 <= j < segs.drop_last()[i].len()
                ==> #[trigger] segs.drop_last()[i][j] != '/' && segs.drop_last()[i][j] != '\u{0}');
        lemma_normalize_valid(segs.drop_last());
        let st = normalize_segs(segs.drop_last()).unwrap();
        let sg = segs.last();
        if sg.len() == 0 || sg == seq!['.'] {
        } else if sg == seq!['.', '.'] {
        } else {
            assert(forall|j: int| 0 <= j < sg.len() ==> #[trigger] sg[j] != '/' && sg[j] != '\u{0}');
            assert(valid_seg(sg));
        }
    }
}

/// Once the fold has failed, no further segments can recover it.
pub proof fn lemma_normalize_none_extends(a: Seq<Seq<char>>, b: Seq<Seq<char>>)
    requires
        normalize_segs(a) is None,
    ensures
        normalize_segs(a + b) is None,
    decreases b.len(),
{
    if b.len() == 0 {
        assert(a + b =~= a);
    } else {
        lemma_normalize_none_extends(a, b.drop_last());
        assert((a + b).drop_last() =~= a + b.drop_last());
        assert((a + b).len() > 0);
    }
}

/// A path that continues after a separator splits as the two halves do.
pub proof fn lemma_split_path_at_sep(a: Seq<char>, b: Seq<char>)
    ensures
        split_path(a + seq!['/'] + b) == split_path(a) + split_path(b),
    decreases a.len(),
{
    let s = a + seq!['/'] + b;
    if a.len() == 0 {
        assert(s.len() > 0);
        assert(s[0] == '/');
        assert(s.drop_first() =~= b);
        assert(split_path(s) =~= seq![Seq::<char>::empty()] + split_path(b));
        assert(split_path(a) =~= seq![Seq::<char>::empty()]);
        assert(split_path(s) =~= split_path(a) + split_path(b));
    } else {
        lemma_split_path_at_sep(a.drop_first(), b);
        assert(s.len() > 0);
        assert(s[0] == a[0]);
        assert(s.drop_first() =~= a.drop_first() + seq!['/'] + b);
        let rest = split_path(a.drop_first() + seq!['/'] + b);
        let resta = split_path(a.drop_first());
        lemma_split_path_nonempty(a.drop_first());
        assert(rest == resta + split_path(b));
        if a[0] == '/' {
            assert(split_path(s) =~= seq![Seq::<char>::empty()] + rest);
            assert(split_path(a) =~= seq![Seq::<char>::empty()] + resta);
            assert(split_path(s) =~= split_path(a) + split_path(b));
        } else {
            assert(rest[0] == resta[0]);
            assert(rest.drop_first() =~= resta.drop_first() + split_path(b));
            assert(split_path(s) =~= seq![seq![s[0]] + rest[0]] + rest.drop_first());
            assert(split_path(a) =~= seq![seq![a[0]] + resta[0]] + resta.drop_first());
            assert(split_path(s) =~= split_path(a) + split_path(b));
        }
    }
}

/// Appending one character extends the final segment, or opens a fresh one
/// when the character is the separator.
pub proof fn lemma_split_path_push(s: Seq<char>, c: char)
    ensures
        c == '/' ==> split_path(s.push(c)) == split_path(s).push(Seq::<char>::empty()),
        c != '/' ==> split_path(s.push(c)) == split_path(s).drop_last().push(
            split_path(s).last().push(c),
        ),
    decreases s.len(),
{
    lemma_split_path_nonempty(s);
    if s.len() == 0 {
        assert(s.push(c).drop_first() =~= Seq::<char>::empty());
        assert(split_path(Seq::<char>::empty()) =~~= seq![Seq::<char>::empty()]);
        assert(split_path(s.push(c).drop_first()) == split_path(Seq::<char>::empty()));
        assert(s.push(c).len() == 1);
        assert(s.push(c)[0] == c);
        if c == '/' {
            assert(split_path(s.push(c)) =~~= split_path(s).push(Seq::<char>::empty()));
        } else {
            assert(seq![c] + Seq::<char>::empty() =~= split_path(s).last().push(c));
            assert(split_path(s.push(c)) =~~= split_path(s).drop_last().push(
                split_path(s).last().push(c),
            ));
        }
    } else {
        lemma_split_path_push(s.drop_first(), c);
        lemma_split_path_nonempty(s.drop_first());
        assert(s.push(c).drop_first() =~= s.drop_first().push(c));
        assert(s.push(c)[0] == s[0]);
        let rest = split_path(s.drop_first());
        let restc = split_path(s.drop_first().push(c));
        if s[0] == '/' {
            assert(split_path(s) =~~= seq![Seq::<char>::empty()] + rest);
            assert(split_path(s.push(c)) =~~= seq![Seq::<char>::empty()] + restc);
            if c == '/' {
                assert(restc == rest.push(Seq::<char>::empty()));
                assert(split_path(s.push(c)) =~~= split_path(s).push(Seq::<char>::empty()));
            } else {
                assert(restc == rest.drop_last().push(rest.last().push(c)));
                assert(split_path(s).last() == rest.last());
                assert(split_path(s).drop_last() =~~= seq![Seq::<char>::empty()]
                    + rest.drop_last());
                assert(split_path(s.push(c)) =~~= split_path(s).drop_last().push(
                    split_path(s).last().push(c),
                ));
            }
        } else {
            assert(split_path(s) =~~= seq![seq![s[0]] + rest[0]] + rest.drop_first());
            assert(split_path(s.push(c)) =~~= seq![seq![s[0]] + restc[0]] + restc.drop_first());
            if c == '/' {
                assert(restc == rest.push(Seq::<char>::empty()));
                assert(restc[0] == rest[0]);
                assert(restc.drop_first() =~~= rest.drop_first().push(Seq::<char>::empty()));
                assert(split_path(s.push(c)) =~~= split_path(s).push(Seq::<char>::empty()));
            } else {
                assert(restc == rest.drop_last().push(rest.last().push(c)));
                if rest.len() == 1 {
                    assert(restc[0] =~= rest[0].push(c));
                    assert(split_path(s).last() =~= seq![s[0]] + rest[0]);
                    assert(split_path(s).drop_last() =~~= Seq::<Seq<char>>::empty());
                    assert(restc.drop_first() =~~= Seq::<Seq<char>>::empty());
                    assert(seq![s[0]] + rest[0].push(c) =~= (seq![s[0]] + rest[0]).push(c));
                    assert(split_path(s.push(c)) =~~= split_path(s).drop_last().push(
                        split_path(s).last().push(c),
                    ));
                } else {
                    assert(restc[0] == rest[0]);
                    assert(restc.drop_first() =~~= rest.drop_first().drop_last().push(
                        rest.last().push(c),
                    ));
                    assert(split_path(s).last() == rest.last());
                    assert(split_path(s).drop_last() =~~= seq![seq![s[0]] + rest[0]]
                        + rest.drop_first().drop_last());
                    assert(split_path(s.push(c)) =~~= split_path(s).drop_last().push(
                        split_path(s).last().push(c),
                    ));
                }
            }
        }
    }
}

/// An absolute path built from at least one valid segment lies strictly
/// below the root.
pub proof fn lemma_abs_path_under(root: Seq<char>, segs: Seq<Seq<char>>)
    requires
        segs.len() > 0,
        forall|k: int| 0 <= k < segs.len() ==> valid_seg(#[trigger] segs[k]),
    ensures
        strictly_under(abs_path(root, segs), root),
    decreases segs.len(),
{
    let p = abs_path(root, segs);
    if segs.len() == 1 {
        assert(segs.drop_last().len() == 0);
        assert(abs_path(root, segs.drop_last()) == root);
        assert(p =~= root + seq!['/'] + segs.last());
        assert(segs.last().len() > 0);
        assert(p.subrange(0, root.len() as int) =~= root);
    } else {
        lemma_abs_path_under(root, segs.drop_last());
        let q = abs_path(root, segs.drop_last());
        assert(p =~= q + seq!['/'] + segs.last());
        assert(p.subrange(0, root.len() as int) =~= q.subrange(0, root.len() as int));
        assert(p[root.len() as int] == q[root.len() as int]);
    }
}

// ------------------------------------------------------------------
// Executable helpers
// ------------------------------------------------------------------

/// Character-wise equality of two string slices.
pub fn str_eq(a: &str, b: &str) -> (r: bool)
    ensures
        r == (a@ == b@),
{
    let sa = String::from_str(a);
    let sb = String::from_str(b);
    sa == sb
}

/// The views of a vector of strings.
pub open spec fn views_of(v: Seq<String>) -> Seq<Seq<char>> {
    v.map_values(|s: String| s@)
}

/// Normalize a logical path into its segment list, rejecting NUL bytes,
/// overlong paths, and paths whose `..` segments climb above the root.
pub fn normalize_segments(path: &str) -> (r: Result<Vec<String>, ApiError>)
    ensures
        r is Ok <==> path_ok(path@),
        r matches Ok(v) ==> views_of(v@) == normal_form(path@).unwrap(),
        r matches Err(e) ==> e matches ApiError::InvalidPath { path: p } && p@ == path@,
{
    let n = path.unicode_len();
    if n > PATH_LENGTH_CAP {
        return Err(ApiError::InvalidPath { path: String::from_str(path) });
    }
    let mut segs: Vec<String> = Vec::new();
    let mut cur: String = String::new();
    let mut cur_len: usize = 0;
    let mut i: usize = 0;
    while i < n
        invariant
            i <= n,
            n == path@.len(),
            n <= PATH_LENGTH_CAP,
            cur_len == cur@.len(),
            cur_len <= i,
            !has_nul(path@.take(i as int)),
            normalize_segs(split_path(path@.take(i as int)).drop_last()) == Some(
                views_of(segs@),
            ),
            cur@ == split_path(path@.take(i as int)).last(),
        decreases n - i,
    {
        let ghost pre = path@.take(i as int);
        proof {
            lemma_split_path_nonempty(pre);
        }
        let c = path.get_char(i);
        proof {
            assert(path@.take(i + 1) =~= pre.push(path@[i as int]));
            lemma_split_path_push(pre, path@[i as int]);
        }
        if c == '\u{0}' {
            return Err(ApiError::InvalidPath { path: String::from_str(path) });
        }
        assert(!has_nul(path@.take(i + 1))) by {
            assert(forall|j: int|
                0 <= j < i + 1 ==> #[trigger] path@.take(i + 1)[j] != '\u{0}');
        }
        if c == '/' {
            // The open segment is complete: fold it into the stack.
            let ghost parts = split_path(pre);
            proof {
                assert(split_path(path@.take(i + 1)) == parts.push(Seq::<char>::empty()));
                assert(split_path(path@.take(i + 1)).drop_last() =~~= parts);
                assert(parts.drop_last().push(parts.last()) =~~= parts);
            }
            if cur_len == 0 {
                // empty segment: drop
            } else if cur_len == 1 && cur.as_str().get_char(0) == '.' {
                proof {
                    assert(cur@ =~= seq!['.']);
                }
            } else if cur_len == 2 && cur.as_str().get_char(0) == '.' && cur.as_str().get_char(1)
                == '.' {
                proof {
                    assert(cur@ =~= seq!['.', '.']);
                }
                if segs.len() == 0 {
                    proof {
                        assert(views_of(segs@) =~~= Seq::<Seq<char>>::empty());
                        assert(normalize_segs(parts) is None);
                        let tail = path@.skip(i + 1);
                        assert(path@ =~= pre + seq!['/'] + tail);
                        lemma_split_path_at_sep(pre, tail);
                        assert(split_path(path@) == parts + split_path(tail));
                        lemma_normalize_none_extends(parts, split_path(tail));
                    }
                    return Err(ApiError::InvalidPath { path: String::from_str(path) });
                }
                let ghost old_segs = segs@;
                let popped = segs.pop();
                proof {
                    assert(old_segs == segs@.push(popped.unwrap()));
                    assert(views_of(segs@) =~~= views_of(old_segs).drop_last());
                }
            } else {
                assert(cur@.len() > 0 && cur@ != seq!['.'] && cur@ != seq!['.', '.']);
                let ghost cv = cur@;
                segs.push(cur);
                proof {
                    assert(views_of(segs@) =~~= views_of(segs@.drop_last()).push(cv));
                }
            }
            cur = String::new();
            cur_len = 0;
        } else {
            let ghost parts = split_path(pre);
            proof {
                assert(split_path(path@.take(i + 1)) == parts.drop_last().push(
                    parts.last().push(path@[i as int]),
                ));
                assert(split_path(path@.take(i + 1)).drop_last() =~~= parts.drop_last());
                assert(split_path(path@.take(i + 1)).last() == parts.last().push(
                    path@[i as int],
                ));
            }
            let piece = path.substring_char(i, i + 1);
            proof {
                assert(piece@ =~= seq![path@[i as int]]);
            }
            cur.append(piece);
            cur_len = cur_len + 1;
            proof {
                assert(cur@ =~= parts.last().push(path@[i as int]));
            }
        }
        i = i + 1;
    }
    // Fold the final open segment.
    let ghost parts = split_path(path@);
    proof {
        assert(path@.take(n as int) =~= path@);
        lemma_split_path_nonempty(path@);
        assert(parts.drop_last().push(parts.last()) =~~= parts);
    }
    if cur_len == 0 {
    } else if cur_len == 1 && cur.as_str().get_char(0) == '.' {
        proof {
            assert(cur@ =~= seq!['.']);
        }
    } else if cur_len == 2 && cur.as_str().get_char(0) == '.' && cur.as_str().get_char(1) == '.' {
        proof {
            assert(cur@ =~= seq!['.', '.']);
        }
        if segs.len() == 0 {
            proof {
                assert(views_of(segs@) =~~= Seq::<Seq<char>>::empty());
                assert(normal_form(path@) is None);
            }
            return Err(ApiError::InvalidPath { path: String::from_str(path) });
        }
        let ghost old_segs = segs@;
        let popped = segs.pop();
        proof {
            assert(old_segs == segs@.push(popped.unwrap()));
            assert(views_of(segs@) =~~= views_of(old_segs).drop_last());
        }
    } else {
        assert(cur@.len() > 0 && cur@ != seq!['.'] && cur@ != seq!['.', '.']);
        let ghost cv = cur@;
        segs.push(cur);
        proof {
            assert(views_of(segs@) =~~= views_of(segs@.drop_last()).push(cv));
        }
    }
    Ok(segs)
}

/// Validate a logical path and return its normalized relative form.
pub fn validate_path(path: &str) -> (r: Result<String, ApiError>)
    ensures
        r is Ok <==> path_ok(path@),
        r matches Ok(p) ==> p@ == rel_path(normal_form(path@).unwrap()),
        r matches Err(e) ==> e matches ApiError::InvalidPath { path: p } && p@ == path@,
{
    let segs = normalize_segments(path)?;
    Ok(rel_string(&segs))
}

/// Print normalized segments as a relative path.
pub fn rel_string(segs: &Vec<String>) -> (r: String)
    ensures
        r@ == rel_path(views_of(segs@)),
{
    let mut out = String::new();
    let mut k: usize = 0;
    while k < segs.len()
        invariant
            k <= segs.len(),
            out@ == rel_path(views_of(segs@).take(k as int)),
        decreases segs.len() - k,
    {
        let ghost done = views_of(segs@).take(k as int);
        if k > 0 {
            out.append("/");
            proof {
                reveal_strlit("/");
            }
        }
        out.append(segs[k].as_str());
        proof {
            assert(views_of(segs@).take(k + 1).drop_last() =~= done);
            assert(views_of(segs@).take(k + 1).last() == segs@[k as int]@);
            if k == 0 {
                assert(out@ =~= rel_path(views_of(segs@).take(k + 1)));
            }
        }
        k = k + 1;
    }
    proof {
        assert(views_of(segs@).take(segs@.len() as int) =~= views_of(segs@));
    }
    out
}

/// Whether a string is a valid normalized path segment, usable as a file
/// or directory base name.
pub fn check_segment(s: &str) -> (r: bool)
    ensures
        r == valid_seg(s@),
{
    let n = s.unicode_len();
    if n == 0 {
        return false;
    }
    let mut i: usize = 0;
    while i < n
        invariant
            i <= n,
            n == s@.len(),
            forall|k: int| 0 <= k < i ==> seg_char_ok(#[trigger] s@[k]),
        decreases n - i,
    {
        let c = s.get_char(i);
        if c == '/' || c == '\u{0}' {
            return false;
        }
        i = i + 1;
    }
    if n == 1 && s.get_char(0) == '.' {
        proof {
            assert(s@ =~= seq!['.']);
        }
        return false;
    }
    if n == 2 && s.get_char(0) == '.' && s.get_char(1) == '.' {
        proof {
            assert(s@ =~= seq!['.', '.']);
        }
        return false;
    }
    proof {
        if s@ == seq!['.'] {
            assert(s@.len() == 1 && s@[0] == '.');
        }
        if s@ == seq!['.', '.'] {
            assert(s@.len() == 2 && s@[0] == '.' && s@[1] == '.');
        }
    }
    true
}

/// Whether `p` lies strictly below the directory `d`, lexically.
pub fn is_strictly_under(p: &str, d: &str) -> (r: bool)
    ensures
        r == strictly_under(p@, d@),
{
    let np = p.unicode_len();
    let nd = d.unicode_len();
    if nd >= np || np - nd <= 1 {
        return false;
    }
    if p.get_char(nd) != '/' {
        return false;
    }
    let prefix = p.substring_char(0, nd);
    let r = str_eq(prefix, d);
    proof {
        assert(prefix@ == p@.subrange(0, d@.len() as int));
    }
    r
}

/// Whether `p` is a direct child of the directory `d`: strictly below it
/// with no further separator.
pub open spec fn child_of(p: Seq<char>, d: Seq<char>) -> bool {
    &&& strictly_under(p, d)
    &&& forall|k: int| d.len() + 1 <= k < p.len() ==> #[trigger] p[k] != '/'
}

/// The base name of a child entry: everything after its directory's
/// separator.
pub open spec fn child_name(p: Seq<char>, d: Seq<char>) -> Seq<char> {
    p.skip(d.len() + 1 as int)
}

/// Test whether `p` is a direct child of directory `d`.
pub fn is_child_of(p: &str, d: &str) -> (r: bool)
    ensures
        r == child_of(p@, d@),
{
    if !is_strictly_under(p, d) {
        return false;
    }
    let np = p.unicode_len();
    let nd = d.unicode_len();
    let mut k: usize = nd + 1;
    while k < np
        invariant
            nd + 1 <= k <= np,
            np == p@.len(),
            nd == d@.len(),
            forall|j: int| nd + 1 <= j < k ==> p@[j] != '/',
        decreases np - k,
    {
        if p.get_char(k) == '/' {
            return false;
        }
        k = k + 1;
    }
    true
}

/// Resolve a user-supplied logical path to an absolute path under the
/// storage root.  For every input this returns either the root itself, a
/// path strictly below it, or `InvalidPath` - never a path outside.
pub fn resolve_path(storage_root: &str, user_path: &str) -> (r: Result<String, ApiError>)
    ensures
        r is Ok <==> path_ok(user_path@),
        r matches Ok(p) ==> p@ == abs_path(storage_root@, normal_form(user_path@).unwrap()),
        r matches Err(e) ==> e matches ApiError::InvalidPath { path: p } && p@ == user_path@,
{
    let segs = normalize_segments(user_path)?;
    Ok(join_segments(storage_root, &segs))
}

/// Join normalized segments onto a root path.
pub fn join_segments(root: &str, segs: &Vec<String>) -> (r: String)
    ensures
        r@ == abs_path(root@, views_of(segs@)),
{
    let mut out = String::from_str(root);
    let mut k: usize = 0;
    while k < segs.len()
        invariant
            k <= segs.len(),
            out@ == abs_path(root@, views_of(segs@).take(k as int)),
        decreases segs.len() - k,
    {
        let ghost done = views_of(segs@).take(k as int);
        out.append("/");
        proof {
            reveal_strlit("/");
        }
        out.append(segs[k].as_str());
        proof {
            assert(views_of(segs@).take(k + 1).drop_last() =~= done);
            assert(views_of(segs@).take(k + 1).last() == segs@[k as int]@);
        }
        k = k + 1;
    }
    proof {
        assert(views_of(segs@).take(segs@.len() as int) =~= views_of(segs@));
    }
    out
}

/// Containment invariant: for every logical path, resolution under a root
/// yields the root itself (exactly when the path normalizes to no
/// segments) or a path strictly below the root; every other input is
/// rejected.  Together with the `ensures` of `resolve_path` this rules out
/// any third outcome.
pub proof fn lemma_resolve_containment(root: Seq<char>, path: Seq<char>)
    requires
        path_ok(path),
    ensures
        ({
            let segs = normal_form(path).unwrap();
            &&& segs.len() == 0 ==> abs_path(root, segs) == root
            &&& segs.len() > 0 ==> strictly_under(abs_path(root, segs), root)
        }),
{
    let segs = normal_form(path).unwrap();
    lemma_normal_form_valid(path);
    if segs.len() > 0 {
        lemma_abs_path_under(root, segs);
    }
}

/// A resolved path is the root joined with the relative form: what
/// `resolve_path` returns is `validate_path`'s result behind the root and
/// one separator.
pub proof fn lemma_abs_is_root_plus_rel(root: Seq<char>, segs: Seq<Seq<char>>)
    requires
        segs.len() > 0,
    ensures
        abs_path(root, segs) == root + seq!['/'] + rel_path(segs),
    decreases segs.len(),
{
    if segs.len() == 1 {
        assert(segs.drop_last().len() == 0);
        assert(abs_path(root, segs.drop_last()) == root);
    } else {
        lemma_abs_is_root_plus_rel(root, segs.drop_last());
        assert(abs_path(root, segs) =~= root + seq!['/'] + (rel_path(segs.drop_last())
            + seq!['/'] + segs.last()));
    }
}

/// A path without separators is one single segment.
pub proof fn lemma_split_no_sep(s: Seq<char>)
    requires
        forall|i: int| 0 <= i < s.len() ==> s[i] != '/',
    ensures
        split_path(s) == seq![s],
    decreases s.len(),
{
    if s.len() == 0 {
        assert(split_path(s) =~~= seq![s]);
    } else {
        assert(forall|i: int| 0 <= i < s.drop_first().len() ==> #[trigger] s.drop_first()[i] != '/');
        lemma_split_no_sep(s.drop_first());
        assert(split_path(s) =~~= seq![seq![s[0]] + s.drop_first()]);
        assert(seq![s[0]] + s.drop_first() =~= s);
        assert(split_path(s) =~~= seq![s]);
    }
}

/// A plain valid segment is an accepted path naming exactly itself.
pub proof fn lemma_plain_segment_normal_form(s: Seq<char>)
    requires
        valid_seg(s),
        s.len() <= PATH_LENGTH_CAP,
    ensures
        path_ok(s),
        normal_form(s).unwrap() == seq![s],
{
    lemma_split_no_sep(s);
    assert(seq![s].drop_last() =~= Seq::<Seq<char>>::empty());
    assert(normalize_segs(Seq::<Seq<char>>::empty()) == Some(Seq::<Seq<char>>::empty()));
    assert(normalize_segs(seq![s]) == Some(Seq::<Seq<char>>::empty().push(s)));
    assert(Seq::<Seq<char>>::empty().push(s) =~~= seq![s]);
    assert(!has_nul(s));
}

/// Every segment of an accepted path's normal form is a valid segment.
pub proof fn lemma_normal_form_valid(path: Seq<char>)
    requires
        path_ok(path),
    ensures
        forall|k: int|
            0 <= k < normal_form(path).unwrap().len() ==> valid_seg(
                #[trigger] normal_form(path).unwrap()[k],
            ),
{
    let parts = split_path(path);
    lemma_split_path_chars(path);
    assert(forall|i: int, j: int|
        0 <= i < parts.len() && 0 <= j < parts[i].len() ==> #[trigger] parts[i][j] != '/'
            && parts[i][j] != '\u{0}') by {
        assert forall|i: int, j: int|
            0 <= i < parts.len() && 0 <= j < parts[i].len()
            implies #[trigger] parts[i][j] != '/' && parts[i][j] != '\u{0}' by {
            assert(path.contains(parts[i][j]) && parts[i][j] != '/');
            let k = choose|k: int| 0 <= k < path.len() && path[k] == parts[i][j];
            assert(!has_nul(path));
            assert(path[k] != '\u{0}');
        }
    }
    lemma_normalize_valid(parts);
}

} // verus!
