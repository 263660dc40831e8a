//! Metadata descriptors and the listing sort policy.
//!
//! A `FileInfo` is the transport-level image of one entry, produced fresh
//! on every read.  Listings are sorted by a fixed total order: directories
//! before files, then byte-wise by name; `sort_infos` is the specification
//! of that order and the executable sort is proved to return exactly it.

use vstd::prelude::*;
use vstd::string::*;
use vstd::relations::sorted_by;

verus! {

/// The descriptor of one filesystem entry.
pub struct FileInfo {
    /// Base name of the entry.
    pub name: String,
    /// Logical path relative to the storage root, in normalized form.
    pub path: String,
    /// Size in bytes; 0 for directories.
    pub size: u64,
    /// Modification time, in seconds.
    pub modified: u64,
    pub is_directory: bool,
    /// Best-effort MIME guess from the extension; absent for directories
    /// and for unknown extensions.
    pub mime_type: Option<String>,
}

/// The mathematical image of a descriptor.
pub struct InfoModel {
    pub name: Seq<char>,
    pub path: Seq<char>,
    pub size: u64,
    pub modified: u64,
    pub is_directory: bool,
    pub mime_type: Option<Seq<char>>,
}

pub open spec fn opt_str_view(o: Option<String>) -> Option<Seq<char>> {
    match o {
        Some(s) => Some(s@),
        Option::None => Option::None,
    }
}

impl View for FileInfo {
    type V = InfoModel;

    open spec fn view(&self) -> InfoModel {
        InfoModel {
            name: self.name@,
            path: self.path@,
            size: self.size,
            modified: self.modified,
            is_directory: self.is_directory,
            mime_type: opt_str_view(self.mime_type),
        }
    }
}

pub open spec fn info_models(s: Seq<FileInfo>) -> Seq<InfoModel> {
    s.map_values(|f: FileInfo| f@)
}

/// The MIME type the static extension table associates with a file name,
/// if any.  The table depends on the name alone.
pub uninterp spec fn mime_type_of(name: Seq<char>) -> Option<Seq<char>>;

/// Relies on `mime_guess::from_path` and `MimeGuess::first_raw`: the first
/// MIME type its static extension table maps the name's extension to, a
/// function of the name alone; `None` for unknown extensions.
#[verifier::external_body]
pub(crate) fn guess_mime_type(name: &str) -> (r: Option<String>)
    ensures
        opt_str_view(r) == mime_type_of(name@),
{
    mime_guess::from_path(std::path::Path::new(name)).first_raw().map(|m| String::from(m))
}

// ------------------------------------------------------------------
// The sort order
// ------------------------------------------------------------------

/// Byte-wise (code-point) lexicographic order on names.
pub open spec fn lex_le(a: Seq<char>, b: Seq<char>) -> bool
    decreases a.len(),
{
    if a.len() == 0 {
        true
    } else if b.len() == 0 {
        false
    } else if (a[0] as u32) < (b[0] as u32) {
        true
    } else if (a[0] as u32) > (b[0] as u32) {
        false
    } else {
        lex_le(a.drop_first(), b.drop_first())
    }
}

/// The listing order: directories before files, then names byte-wise.
pub open spec fn info_le(a: InfoModel, b: InfoModel) -> bool {
    if a.is_directory != b.is_directory {
        a.is_directory
    } else {
        lex_le(a.name, b.name)
    }
}

pub open spec fn info_leq() -> spec_fn(InfoModel, InfoModel) -> bool {
    |a: InfoModel, b: InfoModel| info_le(a, b)
}

/// The order is connected: any two descriptors compare one way or the other.
pub proof fn lemma_lex_le_total(a: Seq<char>, b: Seq<char>)
    ensures
        lex_le(a, b) || lex_le(b, a),
    decreases a.len(),
{
    if a.len() > 0 && b.len() > 0 && (a[0] as u32) == (b[0] as u32) {
        lemma_lex_le_total(a.drop_first(), b.drop_first());
    }
}

/// The order is transitive.
pub proof fn lemma_lex_le_trans(a: Seq<char>, b: Seq<char>, c: Seq<char>)
    requires
        lex_le(a, b),
        lex_le(b, c),
    ensures
        lex_le(a, c),
    decreases a.len(),
{
    if a.len() > 0 && b.len() > 0 && c.len() > 0 && (a[0] as u32) == (b[0] as u32) && (
    b[0] as u32) == (c[0] as u32) {
        lemma_lex_le_trans(a.drop_first(), b.drop_first(), c.drop_first());
    }
}

pub proof fn lemma_info_le_total(a: InfoModel, b: InfoModel)
    ensures
        info_le(a, b) || info_le(b, a),
{
    lemma_lex_le_total(a.name, b.name);
}

pub proof fn lemma_info_le_trans(a: InfoModel, b: InfoModel, c: InfoModel)
    requires
        info_le(a, b),
        info_le(b, c),
    ensures
        info_le(a, c),
{
    if a.is_directory == b.is_directory && b.is_directory == c.is_directory {
        lemma_lex_le_trans(a.name, b.name, c.name);
    }
}

/// Insert a descriptor in front of the first element it precedes.
pub open spec fn insert_sorted(x: InfoModel, s: Seq<InfoModel>) -> Seq<InfoModel>
    decreases s.len(),
{
    if s.len() == 0 {
        seq![x]
    } else if info_le(x, s[0]) {
        seq![x] + s
    } else {
        seq![s[0]] + insert_sorted(x, s.drop_first())
    }
}

/// The unique sorted image of a descriptor sequence under the listing
/// order: each element inserted in turn.
pub open spec fn sort_infos(s: Seq<InfoModel>) -> Seq<InfoModel>
    decreases s.len(),
{
    if s.len() == 0 {
        Seq::<InfoModel>::empty()
    } else {
        insert_sorted(s.last(), sort_infos(s.drop_last()))
    }
}

/// Insertion keeps a sorted sequence sorted.
pub proof fn lemma_insert_sorted_sorted(x: InfoModel, s: Seq<InfoModel>)
    requires
        sorted_by(s, info_leq()),
    ensures
        sorted_by(insert_sorted(x, s), info_leq()),
    decreases s.len(),
{
    if s.len() == 0 {
    } else if info_le(x, s[0]) {
        let r = seq![x] + s;
        assert forall|i: int, j: int| 0 <= i < j < r.len() implies info_leq()(r[i], r[j]) by {
            if i == 0 {
                if j == 1 {
                    assert(r[j] == s[0]);
                } else {
                    assert(info_leq()(s[0], s[j - 1]));
                    lemma_info_le_trans(x, s[0], s[j - 1]);
                }
            } else {
                assert(r[i] == s[i - 1] && r[j] == s[j - 1]);
            }
        }
    } else {
        assert(sorted_by(s.drop_first(), info_leq())) by {
            assert(forall|i: int, j: int|
                0 <= i < j < s.drop_first().len() ==> info_leq()(
                    #[trigger] s.drop_first()[i],
                    #[trigger] s.drop_first()[j],
                ));
        }
        lemma_insert_sorted_sorted(x, s.drop_first());
        let t = insert_sorted(x, s.drop_first());
        let r = seq![s[0]] + t;
        lemma_insert_sorted_members(x, s.drop_first());
        assert forall|i: int, j: int| 0 <= i < j < r.len() implies info_leq()(r[i], r[j]) by {
            if i == 0 {
                assert(r[j] == t[j - 1]);
                // every element of t is x or an element of s.drop_first()
                assert(t[j - 1] == x || s.drop_first().contains(t[j - 1]));
                if t[j - 1] == x {
                    lemma_info_le_total(x, s[0]);
                } else {
                    let k = choose|k: int|
                        0 <= k < s.drop_first().len() && s.drop_first()[k] == t[j - 1];
                    assert(s[k + 1] == s.drop_first()[k]);
                    assert(info_leq()(s[0], s[k + 1]));
                }
            } else {
                assert(r[i] == t[i - 1] && r[j] == t[j - 1]);
                assert(info_leq()(t[i - 1], t[j - 1]));
            }
        }
    }
}

/// Every element of an insertion result is the inserted element or one of
/// the original ones.
pub proof fn lemma_insert_sorted_members(x: InfoModel, s: Seq<InfoModel>)
    ensures
        forall|j: int|
            0 <= j < insert_sorted(x, s).len() ==> (#[trigger] insert_sorted(x, s)[j] == x
                || s.contains(insert_sorted(x, s)[j])),
    decreases s.len(),
{
    if s.len() == 0 {
    } else if info_le(x, s[0]) {
        assert forall|j: int| 0 <= j < insert_sorted(x, s).len() implies (
        #[trigger] insert_sorted(x, s)[j] == x || s.contains(insert_sorted(x, s)[j])) by {
            if j > 0 {
                assert(insert_sorted(x, s)[j] == s[j - 1]);
            }
        }
    } else {
        lemma_insert_sorted_members(x, s.drop_first());
        let t = insert_sorted(x, s.drop_first());
        assert forall|j: int| 0 <= j < insert_sorted(x, s).len() implies (
        #[trigger] insert_sorted(x, s)[j] == x || s.contains(insert_sorted(x, s)[j])) by {
            if j == 0 {
                assert(insert_sorted(x, s)[0] == s[0]);
                assert(s.contains(s[0]));
            } else {
                assert(insert_sorted(x, s)[j] == t[j - 1]);
                if t[j - 1] != x {
                    let k = choose|k: int|
                        0 <= k < s.drop_first().len() && s.drop_first()[k] == t[j - 1];
                    assert(s[k + 1] == t[j - 1]);
                    assert(s.contains(s[k + 1]));
                }
            }
        }
    }
}

/// The sorted image is sorted.
pub proof fn lemma_sort_infos_sorted(s: Seq<InfoModel>)
    ensures
        sorted_by(sort_infos(s), info_leq()),
    decreases s.len(),
{
    if s.len() == 0 {
        assert(sorted_by(sort_infos(s), info_leq()));
    } else {
        lemma_sort_infos_sorted(s.drop_last());
        lemma_insert_sorted_sorted(s.last(), sort_infos(s.drop_last()));
    }
}

/// Insertion adds exactly the inserted element.
pub proof fn lemma_insert_sorted_multiset(x: InfoModel, s: Seq<InfoModel>)
    ensures
        insert_sorted(x, s).to_multiset() == s.to_multiset().insert(x),
    decreases s.len(),
{
    broadcast use vstd::seq_lib::group_to_multiset_ensures;

    if s.len() == 0 {
        assert(seq![x] =~= Seq::<InfoModel>::empty().push(x));
        assert(insert_sorted(x, s).to_multiset() =~= s.to_multiset().insert(x));
    } else if info_le(x, s[0]) {
        assert(seq![x] + s =~= s.insert(0, x));
        assert((seq![x] + s).to_multiset() =~= s.to_multiset().insert(x));
    } else {
        lemma_insert_sorted_multiset(x, s.drop_first());
        let t = insert_sorted(x, s.drop_first());
        assert(seq![s[0]] + t =~= t.insert(0, s[0]));
        assert((seq![s[0]] + t).to_multiset() =~= t.to_multiset().insert(s[0]));
        assert(s =~= s.drop_first().insert(0, s[0]));
        assert(s.to_multiset() =~= s.drop_first().to_multiset().insert(s[0]));
        assert(t.to_multiset().insert(s[0]) =~= s.drop_first().to_multiset().insert(x).insert(
            s[0],
        ));
    }
}

/// The sorted image is a permutation of its input.
pub proof fn lemma_sort_infos_multiset(s: Seq<InfoModel>)
    ensures
        sort_infos(s).to_multiset() == s.to_multiset(),
    decreases s.len(),
{
    broadcast use vstd::seq_lib::group_to_multiset_ensures;

    if s.len() > 0 {
        lemma_sort_infos_multiset(s.drop_last());
        lemma_insert_sorted_multiset(s.last(), sort_infos(s.drop_last()));
        assert(s =~= s.drop_last().push(s.last()));
        assert(s.to_multiset() =~= s.drop_last().to_multiset().insert(s.last()));
    }
}

// ------------------------------------------------------------------
// The executable sort
// ------------------------------------------------------------------

/// Compare two names byte-wise.
fn lex_le_exec(a: &str, b: &str) -> (r: bool)
    ensures
        r == lex_le(a@, b@),
{
    let na = a.unicode_len();
    let nb = b.unicode_len();
    let mut i: usize = 0;
    proof {
        assert(a@.skip(0) =~= a@);
        assert(b@.skip(0) =~= b@);
    }
    loop
        invariant
            i <= na,
            i <= nb,
            na == a@.len(),
            nb == b@.len(),
            lex_le(a@, b@) == lex_le(a@.skip(i as int), b@.skip(i as int)),
        decreases na - i,
    {
        if i == na {
            proof {
                assert(a@.skip(i as int).len() == 0);
            }
            return true;
        }
        if i == nb {
            proof {
                assert(b@.skip(i as int).len() == 0);
                assert(a@.skip(i as int).len() > 0);
            }
            return false;
        }
        let ca = a.get_char(i);
        let cb = b.get_char(i);
        proof {
            assert(a@.skip(i as int)[0] == a@[i as int]);
            assert(b@.skip(i as int)[0] == b@[i as int]);
            assert(a@.skip(i as int).drop_first() =~= a@.skip(i + 1));
            assert(b@.skip(i as int).drop_first() =~= b@.skip(i + 1));
        }
        if (ca as u32) < (cb as u32) {
            return true;
        }
        if (ca as u32) > (cb as u32) {
            return false;
        }
        i = i + 1;
    }
}

/// Compare two descriptors in the listing order.
fn info_le_exec(a: &FileInfo, b: &FileInfo) -> (r: bool)
    ensures
        r == info_le(a@, b@),
{
    if a.is_directory != b.is_directory {
        a.is_directory
    } else {
        lex_le_exec(a.name.as_str(), b.name.as_str())
    }
}

/// `insert_sorted` splits at the first index the element precedes.
proof fn lemma_insert_sorted_at(x: InfoModel, s: Seq<InfoModel>, j: int)
    requires
        0 <= j <= s.len(),
        forall|k: int| 0 <= k < j ==> !info_le(x, #[trigger] s[k]),
        j < s.len() ==> info_le(x, s[j]),
    ensures
        insert_sorted(x, s) == s.take(j) + seq![x] + s.skip(j),
    decreases j,
{
    if j == 0 {
        assert(insert_sorted(x, s) =~= s.take(0) + seq![x] + s.skip(0));
    } else {
        assert(!info_le(x, s[0]));
        assert(forall|k: int| 0 <= k < j - 1 ==> !info_le(x, #[trigger] s.drop_first()[k]));
        assert(j - 1 < s.drop_first().len() ==> info_le(x, s.drop_first()[j - 1]));
        lemma_insert_sorted_at(x, s.drop_first(), j - 1);
        assert(insert_sorted(x, s) =~= seq![s[0]] + (s.drop_first().take(j - 1) + seq![x]
            + s.drop_first().skip(j - 1)));
        assert(seq![s[0]] + s.drop_first().take(j - 1) =~= s.take(j));
        assert(s.drop_first().skip(j - 1) =~= s.skip(j));
        assert(insert_sorted(x, s) =~= s.take(j) + seq![x] + s.skip(j));
    }
}

/// Insert a descriptor into an already-sorted vector.
fn insert_descriptor(out: &mut Vec<FileInfo>, x: FileInfo)
    ensures
        info_models(final(out)@) == insert_sorted(x@, info_models(old(out)@)),
{
    let ghost m = info_models(out@);
    let mut j: usize = 0;
    loop
        invariant
            j <= out.len(),
            m == info_models(out@),
            forall|k: int| 0 <= k < j ==> !info_le(x@, #[trigger] m[k]),
        ensures
            j <= out.len(),
            m == info_models(out@),
            forall|k: int| 0 <= k < j ==> !info_le(x@, #[trigger] m[k]),
            j < out.len() ==> info_le(x@, m[j as int]),
        decreases out.len() - j,
    {
        if j == out.len() {
            break;
        }
        let le = info_le_exec(&x, &out[j]);
        proof {
            assert(m[j as int] == out@[j as int]@);
        }
        if le {
            break;
        }
        j = j + 1;
    }
    proof {
        lemma_insert_sorted_at(x@, m, j as int);
    }
    out.insert(j, x);
    proof {
        assert(info_models(out@) =~= m.take(j as int) + seq![x@] + m.skip(j as int));
    }
}

/// Sort descriptors into the listing order: the result is exactly the
/// sorted image of the input.
pub fn sort_descriptors(v: Vec<FileInfo>) -> (r: Vec<FileInfo>)
    ensures
        info_models(r@) == sort_infos(info_models(v@)),
{
    let ghost orig = info_models(v@);
    let mut rest = v;
    let mut out: Vec<FileInfo> = Vec::new();
    let ghost mut k: int = 0;
    while rest.len() > 0
        invariant
            0 <= k <= orig.len(),
            k + rest@.len() == orig.len(),
            info_models(rest@) == orig.skip(k),
            info_models(out@) == sort_infos(orig.take(k)),
        decreases rest@.len(),
    {
        let ghost old_rest = rest@;
        let x = rest.remove(0);
        proof {
            assert(x@ == info_models(old_rest)[0]);
            assert(x@ == orig[k]);
            assert(rest@ =~= old_rest.drop_first());
            assert(info_models(rest@) =~= info_models(old_rest).drop_first());
            assert(info_models(rest@) =~= orig.skip(k + 1));
        }
        insert_descriptor(&mut out, x);
        proof {
            assert(orig.take(k + 1).drop_last() =~= orig.take(k));
            assert(orig.take(k + 1).last() == orig[k]);
            k = k + 1;
        }
    }
    proof {
        assert(orig.take(orig.len() as int) =~= orig);
    }
    out
}

} // verus!
