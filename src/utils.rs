//! Conversion between the stored path form (backslash-separated, with a
//! leading separator) and the host-neutral relative form, and a
//! case-sensitive substring test on paths.

use vstd::prelude::*;
use vstd::string::StrSliceExecFns;

use crate::error::ArchiveError;

verus! {

pub open spec fn slash_to_backslash(c: char) -> char {
    if c == '/' { '\\' } else { c }
}

pub open spec fn backslash_to_slash(c: char) -> char {
    if c == '\\' { '/' } else { c }
}

/// The relative form of a stored path: its first character dropped and
/// every backslash turned into a forward slash.
pub open spec fn host_form(stored: Seq<char>) -> Seq<char> {
    stored.drop_first().map_values(|c: char| backslash_to_slash(c))
}

/// The stored form of a relative path: a leading backslash, then the path
/// with every forward slash turned into a backslash.
pub open spec fn archive_form(relative: Seq<char>) -> Seq<char> {
    seq!['\\'] + relative.map_values(|c: char| slash_to_backslash(c))
}

/// The form an archive location is stored in: kept as it is where it
/// already starts with a backslash, else turned into `archive_form`.
pub open spec fn stored_form(location: Seq<char>) -> Seq<char> {
    if location.len() > 0 && location[0] == '\\' {
        location
    } else {
        archive_form(location)
    }
}

/// `needle` occurs in `hay` as a contiguous run.
pub open spec fn is_substring(needle: Seq<char>, hay: Seq<char>) -> bool {
    exists|i: int|
        0 <= i && i + needle.len() <= hay.len() && #[trigger] hay.subrange(i, i + needle.len())
            == needle
}

/// Relies on `String::push`: appends one character.
#[verifier::external_body]
fn push_char(s: &mut String, c: char)
    ensures
        final(s)@ == old(s)@.push(c),
{
    s.push(c)
}

/// The characters of `s`, in order.
pub fn chars_of(s: &str) -> (r: Vec<char>)
    ensures
        r@ == s@,
{
    let n = s.unicode_len();
    let mut r: Vec<char> = Vec::new();
    let mut i: usize = 0;
    while i < n
        invariant
            n == s@.len(),
            i <= n,
            r@ == s@.subrange(0, i as int),
        decreases n - i,
    {
        let c = s.get_char(i);
        r.push(c);
        i = i + 1;
        assert(r@ =~= s@.subrange(0, i as int));
    }
    assert(r@ =~= s@);
    r
}

/// Turns a stored path into its relative host form: strips the one leading
/// separator and turns backslashes into forward slashes.
/// Fails with `InvalidFormat` on an empty path.
pub fn to_normal_path(path: &str) -> (r: Result<String, ArchiveError>)
    ensures
        path@.len() == 0 ==> r == Err::<String, ArchiveError>(ArchiveError::InvalidFormat),
        path@.len() > 0 ==> (r matches Ok(s) && s@ == host_form(path@)),
{
    let cs = chars_of(path);
    if cs.len() == 0 {
        return Err(ArchiveError::InvalidFormat);
    }
    let mut out = String::new();
    let mut i: usize = 1;
    while i < cs.len()
        invariant
            cs@ == path@,
            1 <= i <= cs@.len(),
            out@ == host_form(path@).subrange(0, i - 1),
        decreases cs@.len() - i,
    {
        let c = cs[i];
        if c == '\\' {
            push_char(&mut out, '/');
        } else {
            push_char(&mut out, c);
        }
        i = i + 1;
        assert(out@ =~= host_form(path@).subrange(0, i - 1));
    }
    assert(out@ =~= host_form(path@));
    Ok(out)
}

/// Turns a relative host path into its stored form: a leading backslash,
/// then the path with forward slashes turned into backslashes.
pub fn to_archive_path(path: &str) -> (r: String)
    ensures
        r@ == archive_form(path@),
{
    let cs = chars_of(path);
    let mut out = String::new();
    push_char(&mut out, '\\');
    let mut i: usize = 0;
    while i < cs.len()
        invariant
            cs@ == path@,
            i <= cs@.len(),
            out@ == archive_form(path@).subrange(0, i + 1),
        decreases cs@.len() - i,
    {
        let c = cs[i];
        if c == '/' {
            push_char(&mut out, '\\');
        } else {
            push_char(&mut out, c);
        }
        i = i + 1;
        assert(out@ =~= archive_form(path@).subrange(0, i + 1));
    }
    assert(out@ =~= archive_form(path@));
    out
}

/// Puts an archive location in stored form: a location that already starts
/// with a backslash is kept, any other is converted by `to_archive_path`.
pub fn to_stored_path(location: &str) -> (r: String)
    ensures
        r@ == stored_form(location@),
{
    if location.unicode_len() > 0 && location.get_char(0) == '\\' {
        location.to_owned()
    } else {
        to_archive_path(location)
    }
}

/// Whether `needle` occurs in `hay` at position `at`.
fn matches_at(needle: &Vec<char>, hay: &Vec<char>, at: usize) -> (r: bool)
    requires
        at + needle@.len() <= hay@.len(),
    ensures
        r == (hay@.subrange(at as int, at + needle@.len()) == needle@),
{
    let _hl = hay.len();
    let mut j: usize = 0;
    while j < needle.len()
        invariant
            at + needle@.len() <= hay@.len(),
            hay@.len() <= usize::MAX,
            j <= needle@.len(),
            forall|k: int| 0 <= k < j ==> hay@[at + k] == needle@[k],
        decreases needle@.len() - j,
    {
        if hay[at + j] != needle[j] {
            assert(hay@.subrange(at as int, at + needle@.len())[j as int] != needle@[j as int]);
            return false;
        }
        j = j + 1;
    }
    assert(hay@.subrange(at as int, at + needle@.len()) =~= needle@);
    true
}

/// Whether `needle` occurs in `hay` (simple, case-sensitive containment).
pub fn contains_str(hay: &str, needle: &str) -> (r: bool)
    ensures
        r == is_substring(needle@, hay@),
{
    let h = chars_of(hay);
    let n = chars_of(needle);
    if n.len() > h.len() {
        return false;
    }
    let last = h.len() - n.len();
    let mut i: usize = 0;
    loop
        invariant
            h@ == hay@,
            n@ == needle@,
            last == h@.len() - n@.len(),
            i <= last,
            forall|k: int| 0 <= k < i ==> #[trigger] hay@.subrange(k, k + needle@.len()) != needle@,
        decreases last - i,
    {
        if matches_at(&n, &h, i) {
            return true;
        }
        if i == last {
            return false;
        }
        i = i + 1;
    }
}

} // verus!
