//! Upload policy: the extension allow-list and the size cap.

use vstd::prelude::*;
use vstd::string::*;
use crate::errors::ApiError;
use crate::paths::views_of;

verus! {

/// Index of the last `.` in a name, or `-1` when there is none.
pub open spec fn last_dot(name: Seq<char>) -> int
    decreases name.len(),
{
    if name.len() == 0 {
        -1
    } else if name.last() == '.' {
        name.len() - 1
    } else {
        last_dot(name.drop_last())
    }
}

/// The extension of a file name: the part after the final `.`, empty when
/// there is no `.` or when the only `.` leads the name (a hidden file).
pub open spec fn ext_of(name: Seq<char>) -> Seq<char> {
    let i = last_dot(name);
    if i <= 0 {
        Seq::<char>::empty()
    } else {
        name.subrange(i + 1, name.len() as int)
    }
}

/// Whether the allow-list admits this file name: a `*` entry admits
/// everything, otherwise the name's extension must be listed.
pub open spec fn ext_allowed(name: Seq<char>, allowed: Seq<Seq<char>>) -> bool {
    allowed.contains(seq!['*']) || allowed.contains(ext_of(name))
}

/// `last_dot` indeed names the final dot: there is no dot to its right,
/// and `-1` means no dot at all.
pub proof fn lemma_last_dot(name: Seq<char>)
    ensures
        -1 <= last_dot(name) < name.len(),
        last_dot(name) == -1 ==> forall|k: int| 0 <= k < name.len() ==> name[k] != '.',
        last_dot(name) >= 0 ==> {
            &&& last_dot(name) < name.len()
            &&& name[last_dot(name)] == '.'
            &&& forall|k: int| last_dot(name) < k < name.len() ==> name[k] != '.'
        },
    decreases name.len(),
{
    if name.len() > 0 && name.last() != '.' {
        let dl = name.drop_last();
        lemma_last_dot(dl);
        if last_dot(name) == -1 {
            assert forall|k: int| 0 <= k < name.len() implies name[k] != '.' by {
                if k < name.len() - 1 {
                    assert(name[k] == dl[k]);
                    assert(dl[k] != '.');
                } else {
                    assert(name[k] == name.last());
                }
            }
        } else {
            assert(name[last_dot(name)] == dl[last_dot(name)]);
            assert forall|k: int| last_dot(name) < k < name.len() implies name[k] != '.' by {
                if k < name.len() - 1 {
                    assert(name[k] == dl[k]);
                    assert(dl[k] != '.');
                } else {
                    assert(name[k] == name.last());
                }
            }
        }
    }
}

/// Extract the extension of a file name.
pub fn extension_of(name: &str) -> (r: String)
    ensures
        r@ == ext_of(name@),
{
    let n = name.unicode_len();
    let mut j: usize = n;
    loop
        invariant
            j <= n,
            n == name@.len(),
            forall|k: int| j <= k < n ==> name@[k] != '.',
        ensures
            j <= n,
            n == name@.len(),
            forall|k: int| j <= k < n ==> name@[k] != '.',
            j == 0 || name@[j - 1] == '.',
        decreases j,
    {
        if j == 0 {
            break;
        }
        let c = name.get_char(j - 1);
        if c == '.' {
            break;
        }
        j = j - 1;
    }
    proof {
        lemma_last_dot(name@);
        let ghost d = last_dot(name@);
        if j == 0 {
            if d >= 0 {
                assert(0 <= d < n);
                assert(name@[d] != '.');
                assert(false);
            }
            assert(d == -1);
        } else {
            assert(name@[j - 1] == '.');
            if d < j - 1 {
                if d == -1 {
                    assert(forall|k: int| 0 <= k < name@.len() ==> name@[k] != '.');
                    assert(name@[j - 1] != '.');
                } else {
                    assert(forall|k: int| d < k < name@.len() ==> name@[k] != '.');
                    assert(name@[j - 1] != '.');
                }
                assert(false);
            }
            if d > j - 1 {
                assert(j <= d < n);
                assert(name@[d] != '.');
                assert(name@[d] == '.');
                assert(false);
            }
            assert(d == j - 1);
        }
    }
    if j <= 1 {
        // no dot at all, or only a leading dot: no extension
        String::new()
    } else {
        let ext = name.substring_char(j, n);
        String::from_str(ext)
    }
}

/// Validate a file name against the allow-list; a rejected name reports
/// its extension in the error.
pub fn validate_file_extension(filename: &str, allowed_extensions: &Vec<String>) -> (r: Result<
    (),
    ApiError,
>)
    ensures
        r is Ok <==> ext_allowed(filename@, views_of(allowed_extensions@)),
        r matches Err(e) ==> e matches ApiError::InvalidFileType { file_type: t } && t@ == ext_of(
            filename@,
        ),
{
    let ghost allowed = views_of(allowed_extensions@);
    let mut i: usize = 0;
    while i < allowed_extensions.len()
        invariant
            i <= allowed_extensions.len(),
            allowed == views_of(allowed_extensions@),
            forall|k: int| 0 <= k < i ==> allowed[k] != seq!['*'],
        decreases allowed_extensions.len() - i,
    {
        let same = crate::paths::str_eq(allowed_extensions[i].as_str(), "*");
        proof {
            reveal_strlit("*");
            assert("*"@ =~= seq!['*']);
            assert(allowed[i as int] == allowed_extensions@[i as int]@);
        }
        if same {
            return Ok(());
        }
        i = i + 1;
    }
    assert(!allowed.contains(seq!['*']));
    let ext = extension_of(filename);
    let mut i: usize = 0;
    while i < allowed_extensions.len()
        invariant
            i <= allowed_extensions.len(),
            allowed == views_of(allowed_extensions@),
            ext@ == ext_of(filename@),
            forall|k: int| 0 <= k < i ==> allowed[k] != ext@,
        decreases allowed_extensions.len() - i,
    {
        let same = crate::paths::str_eq(allowed_extensions[i].as_str(), ext.as_str());
        proof {
            assert(allowed[i as int] == allowed_extensions@[i as int]@);
        }
        if same {
            return Ok(());
        }
        i = i + 1;
    }
    assert(!allowed.contains(ext_of(filename@)));
    Err(ApiError::InvalidFileType { file_type: ext })
}

/// Validate a payload size against the configured maximum.
pub fn validate_file_size(size: u64, max_size: u64) -> (r: Result<(), ApiError>)
    ensures
        r is Ok <==> size <= max_size,
        r matches Err(e) ==> e matches ApiError::FileTooLarge { size: s } && s == size,
{
    if size > max_size {
        Err(ApiError::FileTooLarge { size })
    } else {
        Ok(())
    }
}

} // verus!
