//! Name matching for the search walk.
//!
//! The walk itself is plain directory I/O; the decision it applies to each
//! entry - does this file name match the query, case-insensitively - is
//! verified substring search over the case-folded names.

use vstd::prelude::*;
use vstd::string::*;

verus! {

/// A search request: the query string and an optional directory to search
/// under.
pub struct SearchQuery {
    pub query: String,
    pub path: Option<String>,
}

/// The search component, confined to one root directory.
pub struct SearchService {
    pub root_dir: String,
}

impl SearchService {
    pub fn new(root_dir: String) -> (s: Self)
        ensures
            s.root_dir == root_dir,
    {
        SearchService { root_dir }
    }
}

/// What `str::to_lowercase` returns: the Unicode lowercase image of the
/// characters, a function of the characters alone.
pub uninterp spec fn lowercase_of(s: Seq<char>) -> Seq<char>;

/// Relies on `str::to_lowercase`: the result depends on the characters
/// alone, and an empty input stays empty.
#[verifier::external_body]
pub(crate) fn to_lowercase_str(s: &str) -> (r: String)
    ensures
        r@ == lowercase_of(s@),
        s@.len() == 0 ==> r@.len() == 0,
{
    s.to_lowercase()
}

/// `needle` occurs in `hay` starting at position `i`.
pub open spec fn match_at(hay: Seq<char>, needle: Seq<char>, i: int) -> bool {
    &&& 0 <= i
    &&& i + needle.len() <= hay.len()
    &&& hay.subrange(i, i + needle.len()) == needle
}

/// `needle` occurs somewhere in `hay`.
pub open spec fn contains_substring(hay: Seq<char>, needle: Seq<char>) -> bool {
    exists|i: int| match_at(hay, needle, i)
}

/// Substring search: whether `needle` occurs in `hay`.
pub fn contains_sub(hay: &str, needle: &str) -> (r: bool)
    ensures
        r == contains_substring(hay@, needle@),
{
    let nh = hay.unicode_len();
    let nn = needle.unicode_len();
    if nn > nh {
        proof {
            if contains_substring(hay@, needle@) {
                let i = choose|i: int| match_at(hay@, needle@, i);
            }
        }
        return false;
    }
    let mut i: usize = 0;
    while i <= nh - nn
        invariant
            nn <= nh,
            i <= nh - nn + 1,
            nh == hay@.len(),
            nn == needle@.len(),
            forall|k: int| 0 <= k < i ==> !match_at(hay@, needle@, k),
        decreases nh - nn + 1 - i,
    {
        let mut j: usize = 0;
        let mut hit = true;
        loop
            invariant
                j <= nn,
                i + nn <= nh,
                nh == hay@.len(),
                nn == needle@.len(),
                hit ==> forall|k: int| 0 <= k < j ==> hay@[i + k] == needle@[k],
                !hit ==> exists|k: int| 0 <= k < nn && hay@[i + k] != needle@[k],
            ensures
                i + nn <= nh,
                nh == hay@.len(),
                nn == needle@.len(),
                hit ==> forall|k: int| 0 <= k < nn ==> hay@[i + k] == needle@[k],
                !hit ==> exists|k: int| 0 <= k < nn && hay@[i + k] != needle@[k],
            decreases nn - j,
        {
            if j == nn {
                break;
            }
            if hay.get_char(i + j) != needle.get_char(j) {
                hit = false;
                proof {
                    assert(hay@[i + j] != needle@[j as int]);
                }
                break;
            }
            j = j + 1;
        }
        if hit {
            proof {
                assert(hay@.subrange(i as int, i + needle@.len()) =~= needle@);
                assert(match_at(hay@, needle@, i as int));
            }
            return true;
        }
        proof {
            if match_at(hay@, needle@, i as int) {
                assert(hay@.subrange(i as int, i + needle@.len()) == needle@);
                assert(forall|k: int|
                    0 <= k < needle@.len() ==> hay@[i + k] == #[trigger] needle@[k]) by {
                    assert(forall|k: int|
                        0 <= k < needle@.len() ==> #[trigger] needle@[k] == hay@.subrange(
                            i as int,
                            i + needle@.len(),
                        )[k]);
                }
                assert(false);
            }
        }
        i = i + 1;
    }
    proof {
        if contains_substring(hay@, needle@) {
            let k = choose|k: int| match_at(hay@, needle@, k);
            assert(0 <= k <= nh - nn);
        }
    }
    false
}

/// Whether a file name matches a search query: the case-folded query
/// occurs in the case-folded name.
pub fn matches_query(filename: &str, query: &str) -> (r: bool)
    ensures
        r == contains_substring(lowercase_of(filename@), lowercase_of(query@)),
{
    let f = to_lowercase_str(filename);
    let q = to_lowercase_str(query);
    contains_sub(f.as_str(), q.as_str())
}

} // verus!
