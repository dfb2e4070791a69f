//! UTF-8 decoding and the string operations that path handling needs.

use vstd::prelude::*;
use vstd::string::{StringExecFns, StrSliceExecFns, StringSliceAdditionalSpecFns};
use vstd::utf8::*;

verus! {

/// Checks that `bytes` are UTF-8 and views them as a string, with
/// `std::str::from_utf8`. The standard library documents that it returns
/// `Ok` exactly when the bytes are valid UTF-8 and that the string then
/// holds those bytes; the error value is dropped here.
#[verifier::external_body]
pub(crate) fn str_from_utf8(bytes: &[u8]) -> (res: Option<&str>)
    ensures
        res is Some <==> valid_utf8(bytes@),
        res matches Some(s) ==> s.spec_bytes() == bytes@,
{
    std::str::from_utf8(bytes).ok()
}

/// `s` with every backslash replaced by a forward slash.
pub open spec fn normalize_separators(s: Seq<char>) -> Seq<char> {
    s.map_values(|c: char| if c == '\\' { '/' } else { c })
}

/// Replaces every backslash in `s` with a forward slash.
pub fn replace_backslashes(s: &str) -> (res: String)
    ensures
        res@ == normalize_separators(s@),
{
    let n = s.unicode_len();
    let mut res = String::new();
    let mut i: usize = 0;
    while i < n
        invariant
            n == s@.len(),
            i <= n,
            res@ == normalize_separators(s@.subrange(0, i as int)),
        decreases n - i,
    {
        let c = s.get_char(i);
        let ghost before = res@;
        if c == '\\' {
            res.append("/");
        } else {
            res.append(s.substring_char(i, i + 1));
        }
        assert(res@ =~= normalize_separators(s@.subrange(0, i + 1))) by {
            reveal_strlit("/");
            assert(s@.subrange(0, i + 1) =~= s@.subrange(0, i as int).push(c));
        }
        i += 1;
    }
    assert(s@.subrange(0, n as int) =~= s@);
    res
}

/// The Unicode lowercase form of `s`, as `str::to_lowercase` computes it.
pub uninterp spec fn unicode_lowercase(s: Seq<char>) -> Seq<char>;

/// Whether every character of `s` is ASCII.
pub open spec fn is_ascii_text(s: Seq<char>) -> bool {
    forall|i: int| 0 <= i < s.len() ==> (#[trigger] s[i]) as u32 <= 0x7f
}

/// `c` with an ASCII capital letter made small.
pub open spec fn ascii_lowercase_char(c: char) -> char {
    if 0x41 <= c as u32 <= 0x5a {
        ((c as u32) + 0x20) as char
    } else {
        c
    }
}

/// `s` with its ASCII capital letters made small (`A`..`Z` to `a`..`z`).
pub open spec fn ascii_lowercase(s: Seq<char>) -> Seq<char> {
    s.map_values(|c: char| ascii_lowercase_char(c))
}

/// The lowercase form of `s` as `str::to_lowercase` gives it: the ASCII
/// one for ASCII text, the Unicode one otherwise.
pub open spec fn lowercase(s: Seq<char>) -> Seq<char> {
    if is_ascii_text(s) {
        ascii_lowercase(s)
    } else {
        unicode_lowercase(s)
    }
}

/// Lowercases `s` with `str::to_lowercase` from the standard library, which
/// maps each character to its Unicode lowercase form (with the context rule
/// for the final sigma); its result depends on `s` alone and is named here,
/// not written out. On ASCII text it agrees with `to_ascii_lowercase`, as
/// the documentation of that method says (`A` to `Z` become `a` to `z`,
/// every other ASCII character is kept).
#[verifier::external_body]
pub(crate) fn to_lowercase(s: &str) -> (res: String)
    ensures
        res@ == unicode_lowercase(s@),
        is_ascii_text(s@) ==> res@ == ascii_lowercase(s@),
{
    s.to_lowercase()
}

/// The index of the last `c` among the first `k` characters of `s`.
pub open spec fn last_index_before(s: Seq<char>, c: char, k: int) -> Option<int>
    decreases k,
{
    if k <= 0 {
        None
    } else if s[k - 1] == c {
        Some(k - 1)
    } else {
        last_index_before(s, c, k - 1)
    }
}

/// `name` marked as a deleted entry: `.deleted` inserted before its last
/// dot, or appended when it has no dot.
pub open spec fn with_deleted_marker(name: Seq<char>) -> Seq<char> {
    match last_index_before(name, '.', name.len() as int) {
        Some(pos) => name.subrange(0, pos) + ".deleted"@ + name.subrange(pos, name.len() as int),
        None => name + ".deleted"@,
    }
}

/// Marks `name` as a deleted entry (see [`with_deleted_marker`]).
pub fn insert_deleted_marker(name: &str) -> (res: String)
    ensures
        res@ == with_deleted_marker(name@),
{
    let n = name.unicode_len();
    let mut k: usize = n;
    while k > 0 && name.get_char(k - 1) != '.'
        invariant
            n == name@.len(),
            k <= n,
            last_index_before(name@, '.', n as int) == last_index_before(name@, '.', k as int),
        decreases k,
    {
        k -= 1;
    }
    if k > 0 {
        let pos = k - 1;
        let mut res = String::from_str(name.substring_char(0, pos));
        res.append(".deleted");
        res.append(name.substring_char(pos, n));
        res
    } else {
        let mut res = String::from_str(name);
        res.append(".deleted");
        res
    }
}

/// Whether `s` ends with `suffix`.
pub open spec fn spec_ends_with(s: Seq<char>, suffix: Seq<char>) -> bool {
    s.len() >= suffix.len() && s.subrange(s.len() - suffix.len(), s.len() as int) == suffix
}

/// Whether `s` starts with `prefix`.
pub open spec fn spec_starts_with(s: Seq<char>, prefix: Seq<char>) -> bool {
    s.len() >= prefix.len() && s.subrange(0, prefix.len() as int) == prefix
}

/// Whether `s` ends with `suffix`.
pub fn ends_with(s: &str, suffix: &str) -> (res: bool)
    ensures
        res == spec_ends_with(s@, suffix@),
{
    let n = s.unicode_len();
    let k = suffix.unicode_len();
    if k > n {
        return false;
    }
    let mut i: usize = 0;
    while i < k
        invariant
            n == s@.len(),
            k == suffix@.len(),
            k <= n,
            i <= k,
            forall|j: int| 0 <= j < i ==> s@[n - k + j] == suffix@[j],
        decreases k - i,
    {
        if s.get_char(n - k + i) != suffix.get_char(i) {
            assert(s@.subrange(n - k, n as int)[i as int] != suffix@[i as int]);
            return false;
        }
        i += 1;
    }
    assert(s@.subrange(n - k, n as int) =~= suffix@);
    true
}

/// Whether `s` starts with `prefix`.
pub fn starts_with(s: &str, prefix: &str) -> (res: bool)
    ensures
        res == spec_starts_with(s@, prefix@),
{
    let n = s.unicode_len();
    let k = prefix.unicode_len();
    if k > n {
        return false;
    }
    let mut i: usize = 0;
    while i < k
        invariant
            n == s@.len(),
            k == prefix@.len(),
            k <= n,
            i <= k,
            forall|j: int| 0 <= j < i ==> s@[j] == prefix@[j],
        decreases k - i,
    {
        if s.get_char(i) != prefix.get_char(i) {
            assert(s@.subrange(0, k as int)[i as int] != prefix@[i as int]);
            return false;
        }
        i += 1;
    }
    assert(s@.subrange(0, k as int) =~= prefix@);
    true
}

/// Whether `a` and `b` hold the same characters.
pub fn str_equal(a: &str, b: &str) -> (res: bool)
    ensures
        res == (a@ == b@),
{
    let x = String::from_str(a);
    let y = String::from_str(b);
    x == y
}

} // verus!
