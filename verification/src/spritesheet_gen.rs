//! Support for stitching externally rendered frames into a sheet.
//!
//! Render output filenames carry bracketed tokens such as `[FILE-name]` or
//! `[ANIMATION-walk]`. `find_value` extracts the text between a token key
//! and the closing bracket; the group key under which frames are added is
//! the dot-joined combination of the extracted values.

use vstd::prelude::*;
use vstd::string::StrSliceExecFns;
use vstd::string::StringExecFns;

verus! {

/// The camera arrangement a sheet is rendered from.
#[derive(Clone, Copy, PartialEq, Eq, Structural, Debug)]
pub enum ViewType {
    /// Classic platformer view.
    Sidescroller,
    /// Isometric view.
    Isometric,
    /// Straight top-down view.
    TopDown,
    /// Battle-cutscene framing in the advance-wars style.
    AdvanceWarsBattle,
    /// Battle-cutscene framing in the pokemon style.
    PokemonBattle,
    /// Whatever camera the model file itself carries.
    InternalCamera,
}

/// Whether a sheet holds one object's animations or many objects together.
#[derive(Clone, Copy, PartialEq, Eq, Structural, Debug)]
pub enum AnimationNaming {
    /// One object per sheet: the sheet takes the object's name.
    SingleObject,
    /// Many objects in one sheet, under a fixed name.
    MultiObject,
}

/// The sheet name for a naming convention: the discovered object name (or
/// nothing) for single objects, the fixed combined name otherwise.
pub fn sheet_name_for(naming: AnimationNaming, discovered: Option<String>) -> (r: String)
    ensures
        r@ == (match naming {
            AnimationNaming::SingleObject => match discovered {
                Option::Some(n) => n@,
                Option::None => Seq::<char>::empty(),
            },
            AnimationNaming::MultiObject => ("MegaSheet")@,
        }),
{
    match naming {
        AnimationNaming::SingleObject => match discovered {
            Option::Some(n) => n,
            Option::None => String::new(),
        },
        AnimationNaming::MultiObject => String::from_str("MegaSheet"),
    }
}

/// Joins the four token values into the group key, separated by dots.
pub fn make_group_key(file: &str, view_type: &str, animation: &str, perspective: &str) -> (r: String)
    ensures
        r@ == file@ + (".")@ + view_type@ + (".")@ + animation@ + (".")@ + perspective@,
{
    let mut s = String::new();
    s.append(file);
    s.append(".");
    s.append(view_type);
    s.append(".");
    s.append(animation);
    s.append(".");
    s.append(perspective);
    s
}

/// True when `pat` occurs in `s` starting at `i`.
pub open spec fn matches_at(s: Seq<char>, pat: Seq<char>, i: int) -> bool {
    0 <= i && i + pat.len() <= s.len() && s.subrange(i, i + pat.len()) == pat
}

/// The first occurrence of `pat` at or after `i`, or `-1` when there is
/// none.
pub open spec fn find_from(s: Seq<char>, pat: Seq<char>, i: int) -> int
    decreases s.len() - i
        when pat.len() > 0
{
    if i < 0 || i + pat.len() > s.len() {
        -1
    } else if matches_at(s, pat, i) {
        i
    } else {
        find_from(s, pat, i + 1)
    }
}

/// The first closing bracket at or after `i`, or the length when there is
/// none.
pub open spec fn close_from(s: Seq<char>, i: int) -> int
    decreases s.len() - i,
{
    if i < 0 || i >= s.len() {
        s.len() as int
    } else if s[i] == ']' {
        i
    } else {
        close_from(s, i + 1)
    }
}

/// The characters of `s[i..end)` with every occurrence of `pat` removed,
/// scanning left to right.
pub open spec fn strip_from(s: Seq<char>, pat: Seq<char>, i: int, end: int) -> Seq<char>
    decreases end - i
        when pat.len() > 0
{
    if i < 0 || i >= end || end > s.len() {
        Seq::empty()
    } else if i + pat.len() <= end && matches_at(s, pat, i) {
        strip_from(s, pat, i + pat.len(), end)
    } else {
        seq![s[i]] + strip_from(s, pat, i + 1, end)
    }
}

/// True for the blank characters that are trimmed from a token value.
pub open spec fn is_blank(c: char) -> bool {
    c == ' ' || c == '\t' || c == '\n' || c == '\r' || c == '\u{0B}' || c == '\u{0C}'
}

/// The first non-blank position at or after `i`, or the length.
pub open spec fn first_non_blank(s: Seq<char>, i: int) -> int
    decreases s.len() - i,
{
    if i < 0 || i >= s.len() {
        s.len() as int
    } else if is_blank(s[i]) {
        first_non_blank(s, i + 1)
    } else {
        i
    }
}

/// The last non-blank position at or before `i`, or `-1`.
pub open spec fn last_non_blank(s: Seq<char>, i: int) -> int
    decreases i + 1,
{
    if i < 0 || i >= s.len() {
        -1
    } else if is_blank(s[i]) {
        last_non_blank(s, i - 1)
    } else {
        i
    }
}

/// `s` with blanks removed from both ends.
pub open spec fn trim_blanks(s: Seq<char>) -> Seq<char> {
    let a = first_non_blank(s, 0);
    if a == s.len() {
        Seq::empty()
    } else {
        s.subrange(a, last_non_blank(s, s.len() - 1) + 1)
    }
}

/// The value of the token that starts with `key`: the text from the first
/// occurrence of `key` to the next closing bracket, with every occurrence
/// of `key` removed and blanks trimmed from both ends.
pub open spec fn find_value_spec(key: Seq<char>, contents: Seq<char>) -> Seq<char> {
    let idx = find_from(contents, key, 0);
    let end = close_from(contents, idx);
    trim_blanks(strip_from(contents, key, idx, end))
}

proof fn lemma_first_non_blank_props(s: Seq<char>, i: int)
    requires
        0 <= i <= s.len(),
    ensures
        i <= first_non_blank(s, i) <= s.len(),
        first_non_blank(s, i) < s.len() ==> !is_blank(s[first_non_blank(s, i)]),
        forall|q: int| i <= q < first_non_blank(s, i) ==> is_blank(s[q]),
    decreases s.len() - i,
{
    if i < s.len() && is_blank(s[i]) {
        lemma_first_non_blank_props(s, i + 1);
    }
}

proof fn lemma_last_non_blank_props(s: Seq<char>, i: int)
    requires
        -1 <= i < s.len(),
    ensures
        -1 <= last_non_blank(s, i) <= i,
        last_non_blank(s, i) >= 0 ==> !is_blank(s[last_non_blank(s, i)]),
        forall|q: int| last_non_blank(s, i) < q <= i ==> is_blank(s[q]),
    decreases i + 1,
{
    if i >= 0 && is_blank(s[i]) {
        lemma_last_non_blank_props(s, i - 1);
    }
}

/// Reports whether `key` occurs in `contents` at position `i`.
fn matches_at_exec(contents: &str, key: &str, i: usize) -> (r: bool)
    requires
        i + key@.len() <= contents@.len(),
    ensures
        r == matches_at(contents@, key@, i as int),
{
    let klen = key.unicode_len();
    let clen = contents.unicode_len();
    proof {
        assert(clen == contents@.len());
    }
    let mut j: usize = 0;
    while j < klen
        invariant
            j <= klen,
            klen == key@.len(),
            i + klen <= contents@.len(),
            clen == contents@.len(),
            forall|q: int| 0 <= q < j ==> contents@[i + q] == key@[q],
        decreases klen - j,
    {
        if contents.get_char(i + j) != key.get_char(j) {
            proof {
                assert(contents@.subrange(i as int, i + key@.len()) != key@) by {
                    assert(contents@.subrange(i as int, i + key@.len())[j as int]
                        == contents@[i + j]);
                }
            }
            return false;
        }
        j = j + 1;
    }
    proof {
        assert(contents@.subrange(i as int, i + key@.len()) =~= key@);
    }
    true
}

/// Extracts the value of the token beginning with `key` from `contents`:
/// the text between the key and the next closing bracket, keys removed,
/// blanks trimmed. Returns `None` exactly when the key does not occur (or
/// is empty).
#[verifier::loop_isolation(false)]
pub fn find_value(key: &str, contents: &str) -> (r: Option<String>)
    ensures
        r is Some <==> (key@.len() > 0 && find_from(contents@, key@, 0) >= 0),
        match r {
            Some(v) => v@ == find_value_spec(key@, contents@),
            None => true,
        },
{
    let klen = key.unicode_len();
    let clen = contents.unicode_len();
    if klen == 0 {
        return None;
    }
    if klen > clen {
        return None;
    }

    // First occurrence of the key.
    let mut i: usize = 0;
    let mut found: bool = false;
    while !found && i <= clen - klen
        invariant
            0 <= i,
            !found ==> i <= clen,
            !found ==> find_from(contents@, key@, 0) == find_from(contents@, key@, i as int),
            found ==> i + klen <= clen && find_from(contents@, key@, 0) == i,
        decreases clen - i + (if found { 0int } else { 1int }),
    {
        if matches_at_exec(contents, key, i) {
            found = true;
        } else {
            i = i + 1;
        }
    }
    if !found {
        proof {
            assert(find_from(contents@, key@, 0) == -1);
        }
        return None;
    }
    let idx = i;

    // The closing bracket that ends the token.
    let mut end: usize = idx;
    while end < clen && contents.get_char(end) != ']'
        invariant
            idx <= end <= clen,
            close_from(contents@, idx as int) == close_from(contents@, end as int),
        decreases clen - end,
    {
        end = end + 1;
    }
    proof {
        assert(close_from(contents@, idx as int) == end);
    }

    // The segment with every occurrence of the key removed.
    let mut out = String::new();
    let mut pos: usize = idx;
    while pos < end
        invariant
            idx <= pos <= end,
            out@ + strip_from(contents@, key@, pos as int, end as int)
                == strip_from(contents@, key@, idx as int, end as int),
        decreases end - pos,
    {
        if klen <= end - pos && matches_at_exec(contents, key, pos) {
            pos = pos + klen;
        } else {
            let ghost out0 = out@;
            let piece = contents.substring_char(pos, pos + 1);
            out.append(piece);
            proof {
                assert(piece@ =~= seq![contents@[pos as int]]);
                assert(out@ + strip_from(contents@, key@, pos + 1, end as int)
                    =~= out0 + strip_from(contents@, key@, pos as int, end as int));
            }
            pos = pos + 1;
        }
    }
    let ghost stripped = strip_from(contents@, key@, idx as int, end as int);
    proof {
        assert(out@ == stripped);
    }

    // Trim blanks from both ends.
    let olen = out.as_str().unicode_len();
    let mut a: usize = 0;
    while a < olen && is_blank_exec(out.as_str().get_char(a))
        invariant
            0 <= a <= olen,
            first_non_blank(out@, 0) == first_non_blank(out@, a as int),
        decreases olen - a,
    {
        a = a + 1;
    }
    if a == olen {
        proof {
            assert(first_non_blank(out@, 0) == olen);
            assert(trim_blanks(out@) =~= Seq::<char>::empty());
        }
        return Some(String::new());
    }
    let mut b: usize = olen - 1;
    while is_blank_exec(out.as_str().get_char(b))
        invariant
            a <= b < olen,
            last_non_blank(out@, olen - 1) == last_non_blank(out@, b as int),
        decreases b,
    {
        proof {
            lemma_first_non_blank_props(out@, 0);
            if b == a {
                assert(!is_blank(out@[a as int]));
                assert(false);
            }
        }
        b = b - 1;
    }
    proof {
        assert(last_non_blank(out@, olen - 1) == b);
    }
    let v = out.as_str().substring_char(a, b + 1).to_owned();
    proof {
        assert(v@ == trim_blanks(out@));
    }
    Some(v)
}

/// Reports whether a character is one of the trimmed blanks.
fn is_blank_exec(c: char) -> (r: bool)
    ensures
        r == is_blank(c),
{
    c == ' ' || c == '\t' || c == '\n' || c == '\r' || c == '\u{0B}' || c == '\u{0C}'
}

} // verus!
