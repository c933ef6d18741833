//! A small model of save paths: the final component of a `/`-separated path
//! and whether it carries a file extension. The atlas is saved under a
//! directory, so a path that names a file (one with an extension) is
//! rejected before anything is written.

use vstd::prelude::*;

verus! {

/// The index where the final path component begins when scanning the first
/// `i` characters: right after the last `/`, or `0` when there is none.
pub open spec fn file_name_start(p: Seq<char>, i: int) -> int
    decreases i,
{
    if i <= 0 {
        0
    } else if p[i - 1] == '/' {
        i
    } else {
        file_name_start(p, i - 1)
    }
}

/// True when the final component of the path has a file extension: a dot
/// that is not the component's first character. The parent component `..`
/// counts as plain, and a path ending in `/` names a directory outright.
pub open spec fn path_has_extension_spec(p: Seq<char>) -> bool {
    let st = file_name_start(p, p.len() as int);
    &&& !(p.len() - st == 2 && p[st] == '.' && p[st + 1] == '.')
    &&& exists|j: int| st < j < p.len() && p[j] == '.'
}

/// Decides whether the path's final component has a file extension.
#[verifier::loop_isolation(false)]
pub fn path_has_extension(path: &str) -> (r: bool)
    ensures
        r == path_has_extension_spec(path@),
{
    let len = path.unicode_len();
    let mut start: usize = 0;
    let mut i: usize = 0;
    while i < len
        invariant
            i <= len,
            len == path@.len(),
            start as int == file_name_start(path@, i as int),
            start <= i,
        decreases len - i,
    {
        if path.get_char(i) == '/' {
            start = i + 1;
        }
        i = i + 1;
    }
    if start >= len {
        proof {
            assert(!path_has_extension_spec(path@));
        }
        return false;
    }
    if len - start == 2 && path.get_char(start) == '.' && path.get_char(start + 1) == '.' {
        return false;
    }
    let mut j: usize = start + 1;
    while j < len
        invariant
            start + 1 <= j <= len,
            len == path@.len(),
            start as int == file_name_start(path@, path@.len() as int),
            forall|q: int| start < q < j ==> path@[q] != '.',
        decreases len - j,
    {
        if path.get_char(j) == '.' {
            proof {
                assert(path@[j as int] == '.');
                assert(exists|q: int|
                    file_name_start(path@, path@.len() as int) < q < path@.len()
                    && path@[q] == '.');
            }
            return true;
        }
        j = j + 1;
    }
    false
}


/// The last dot strictly after `st` among the first `i` characters, or `-1`
/// when there is none.
pub open spec fn last_dot_from(p: Seq<char>, st: int, i: int) -> int
    decreases i,
{
    if st < 0 || i <= st + 1 || i > p.len() {
        -1
    } else if p[i - 1] == '.' {
        i - 1
    } else {
        last_dot_from(p, st, i - 1)
    }
}

/// The extension of the final path component: everything after its last
/// dot. Meaningful only when `path_has_extension_spec` holds.
pub open spec fn path_extension_spec(p: Seq<char>) -> Seq<char> {
    let st = file_name_start(p, p.len() as int);
    let d = last_dot_from(p, st, p.len() as int);
    p.subrange(d + 1, p.len() as int)
}

proof fn lemma_last_dot_props(p: Seq<char>, st: int, i: int)
    requires
        0 <= st,
        st <= i <= p.len(),
    ensures
        last_dot_from(p, st, i) == -1 || st < last_dot_from(p, st, i) < i,
        last_dot_from(p, st, i) >= 0 ==> p[last_dot_from(p, st, i)] == '.',
        forall|q: int| last_dot_from(p, st, i) < q < i && q > st ==> p[q] != '.',
    decreases i,
{
    if i > st + 1 && i <= p.len() && p[i - 1] != '.' {
        lemma_last_dot_props(p, st, i - 1);
    }
}

/// Decides whether two strings hold the same characters.
pub fn str_eq(a: &str, b: &str) -> (r: bool)
    ensures
        r == (a@ == b@),
{
    let la = a.unicode_len();
    let lb = b.unicode_len();
    if la != lb {
        return false;
    }
    let mut i: usize = 0;
    while i < la
        invariant
            i <= la,
            la == a@.len(),
            la == b@.len(),
            forall|q: int| 0 <= q < i ==> a@[q] == b@[q],
        decreases la - i,
    {
        if a.get_char(i) != b.get_char(i) {
            return false;
        }
        i = i + 1;
    }
    proof {
        assert(a@ =~= b@);
    }
    true
}

/// Returns the extension of the path's final component, or `None` when the
/// path has none.
#[verifier::loop_isolation(false)]
pub fn path_extension<'a>(path: &'a str) -> (r: Option<&'a str>)
    ensures
        r is Some <==> path_has_extension_spec(path@),
        match r {
            Some(e) => e@ == path_extension_spec(path@),
            None => true,
        },
{
    let len = path.unicode_len();
    let mut start: usize = 0;
    let mut i: usize = 0;
    while i < len
        invariant
            i <= len,
            start as int == file_name_start(path@, i as int),
            start <= i,
        decreases len - i,
    {
        if path.get_char(i) == '/' {
            start = i + 1;
        }
        i = i + 1;
    }
    proof {
        lemma_last_dot_props(path@, start as int, path@.len() as int);
    }
    if start >= len {
        return None;
    }
    if len - start == 2 && path.get_char(start) == '.' && path.get_char(start + 1) == '.' {
        return None;
    }
    let mut j: usize = len;
    let ghost st = start as int;
    while j > start + 1
        invariant
            start + 1 <= j <= len || j == start + 1,
            last_dot_from(path@, st, len as int) == last_dot_from(path@, st, j as int),
        decreases j,
    {
        if path.get_char(j - 1) == '.' {
            proof {
                assert(last_dot_from(path@, st, j as int) == j - 1);
                assert(path@[j - 1] == '.');
                assert(exists|q: int| st < q < path@.len() && path@[q] == '.');
            }
            let e = path.substring_char(j, len);
            return Some(e);
        }
        j = j - 1;
    }
    proof {
        assert(last_dot_from(path@, st, (start + 1) as int) == -1);
        if path_has_extension_spec(path@) {
            let q = choose|q: int| st < q < path@.len() && path@[q] == '.';
            assert(false);
        }
    }
    None
}

} // verus!

