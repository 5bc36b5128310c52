//! Errors of the library client, and the decisions of its login exchange.

use vstd::prelude::*;
use crate::text::{
    chars_vec, contains, contains_chars, lower, lower_chars, string_from, trim,
    trim_chars, extend_chars, slice_from, before_first, before_first_chars,
};

verus! {

#[verifier::external_type_specification]
#[verifier::external_body]
pub struct ExIoError(std::io::Error);

#[verifier::external_type_specification]
#[verifier::external_body]
pub struct ExHttpError(reqwest::Error);

#[verifier::external_type_specification]
#[verifier::external_body]
pub struct ExJsonError(serde_json::Error);

/// Why a request to the library failed.
#[derive(Debug)]
pub enum ClientError {
    Http(reqwest::Error),
    Auth,
    Parse(serde_json::Error),
    Io(std::io::Error),
    NotFound,
}


/// `s` without trailing `/`s (`str::trim_end_matches('/')`).
pub open spec fn trim_end_slashes(s: Seq<char>) -> Seq<char>
    decreases s.len(),
{
    if s.len() > 0 && s.last() == '/' {
        trim_end_slashes(s.drop_last())
    } else {
        s
    }
}

/// The URL of `path` on the server at `base`.
pub open spec fn url_for(base: Seq<char>, path: Seq<char>) -> Seq<char> {
    trim_end_slashes(base) + path
}

/// The URL of `path` on the server at `base`, trailing slashes of `base`
/// dropped.
pub fn join_url(base: &str, path: &str) -> (r: String)
    ensures
        r@ == url_for(base@, path@),
{
    let b = chars_vec(base);
    let mut k: usize = b.len();
    assert(b@.take(k as int) =~= b@);
    while k > 0 && b[k - 1] == '/'
        invariant
            k <= b@.len(),
            trim_end_slashes(b@) == trim_end_slashes(b@.take(k as int)),
        decreases k,
    {
        assert(b@.take(k as int).drop_last() =~= b@.take(k - 1));
        k = k - 1;
    }
    let mut out = crate::text::slice_range(&b, 0, k);
    let p = chars_vec(path);
    extend_chars(&mut out, p.as_slice());
    string_from(out.as_slice())
}

pub open spec fn login_path() -> Seq<char> {
    seq!['/', 'l', 'o', 'g', 'i', 'n']
}

pub open spec fn login_query() -> Seq<char> {
    seq!['/', 'l', 'o', 'g', 'i', 'n', '?']
}

/// A login is refused when the server redirects back to the login page:
/// the `Location` starts with `/login` or holds `/login?`.
pub open spec fn login_refused_spec(location: Seq<char>) -> bool {
    (location.len() >= 6 && location.take(6) == login_path()) || contains(location, login_query())
}

/// Whether the redirect after posting credentials means they were refused
/// (success redirects to `/my/...`).
pub fn login_refused(location: &str) -> (r: bool)
    ensures
        r == login_refused_spec(location@),
{
    let l = chars_vec(location);
    let lp = ['/', 'l', 'o', 'g', 'i', 'n'];
    let lq = ['/', 'l', 'o', 'g', 'i', 'n', '?'];
    assert(lp@ == login_path());
    assert(lq@ == login_query());
    let starts = l.len() >= 6 && crate::text::chars_eq(crate::text::slice_range(&l, 0, 6).as_slice(), lp.as_slice());
    starts || contains_chars(l.as_slice(), lq.as_slice())
}


/// Whether `pat` occurs in `s` at index `i`.
pub open spec fn occurs_at(s: Seq<char>, pat: Seq<char>, i: int) -> bool {
    0 <= i <= s.len() - pat.len() && s.subrange(i, i + pat.len()) == pat
}

/// `str::find`: the first index at which `pat` occurs in `s`.
#[verifier::opaque]
pub open spec fn find(s: Seq<char>, pat: Seq<char>) -> Option<int> {
    if exists|i: int| occurs_at(s, pat, i) {
        Some(choose|i: int| occurs_at(s, pat, i) && forall|j: int| 0 <= j < i ==> !occurs_at(s, pat, j))
    } else {
        None
    }
}

pub open spec fn filename_param() -> Seq<char> {
    seq!['f', 'i', 'l', 'e', 'n', 'a', 'm', 'e', '=']
}

/// The file name a `Content-Disposition` header gives (for example
/// `attachment; filename="01/09/25 Board Minutes.pdf"`): the text after the
/// first `filename=` (matched ignoring ASCII case), trimmed; when quoted, up to
/// the closing quote. An empty name, or no `filename=`, gives none.
pub open spec fn disposition_filename(header: Seq<char>) -> Option<Seq<char>> {
    match find(lower(header), filename_param()) {
        None => None,
        Some(idx) => name_after(header, idx + 9),
    }
}

/// The file name that starts at index `start` of a header.
pub open spec fn name_after(header: Seq<char>, start: int) -> Option<Seq<char>> {
    let rest = trim(header.skip(start));
    let name = if rest.len() > 0 && rest[0] == '"' {
        before_first(rest.drop_first(), '"', '"')
    } else {
        rest
    };
    if name.len() == 0 {
        None
    } else {
        Some(name)
    }
}

fn name_after_chars(h: &Vec<char>, start: usize) -> (r: Option<String>)
    requires
        start <= h@.len(),
    ensures
        match r {
            Some(n) => name_after(h@, start as int) == Some(n@),
            None => name_after(h@, start as int) is None,
        },
{
    let after = slice_from(h, start);
    let rest = trim_chars(&after);
    let name = if rest.len() > 0 && rest[0] == '"' {
        let inner = slice_from(&rest, 1);
        assert(inner@ =~= rest@.drop_first());
        before_first_chars(&inner, '"', '"')
    } else {
        rest
    };
    if name.len() == 0 {
        None
    } else {
        Some(string_from(name.as_slice()))
    }
}

/// The first index at which `pat` occurs in `s`.
fn find_chars(s: &[char], pat: &[char]) -> (r: Option<usize>)
    ensures
        match r {
            Some(i) => find(s@, pat@) == Some(i as int) && occurs_at(s@, pat@, i as int),
            None => find(s@, pat@) is None,
        },
{
    reveal(find);
    if pat.len() > s.len() {
        assert(!exists|i: int| occurs_at(s@, pat@, i));
        return None;
    }
    let last = s.len() - pat.len();
    let mut i: usize = 0;
    loop
        invariant
            last + pat@.len() == s@.len(),
            i <= last,
            forall|j: int| 0 <= j < i ==> !occurs_at(s@, pat@, j),
        decreases last - i,
    {
        if crate::text::contains_chars_at(s, pat, i) {
            reveal(find);
            assert(occurs_at(s@, pat@, i as int));
            let ghost c = choose|k: int| occurs_at(s@, pat@, k) && forall|j: int| 0 <= j < k ==> !occurs_at(s@, pat@, j);
            assert(c == i) by {
                if c < i {
                } else if c > i {
                }
            }
            return Some(i);
        }
        if i == last {
            reveal(find);
            assert forall|j: int| !occurs_at(s@, pat@, j) by {
                if 0 <= j <= last {
                    assert(j <= i);
                }
            }
            return None;
        }
        i = i + 1;
    }
}

/// The file name in a `Content-Disposition` header.
pub fn content_disposition_filename(header: &str) -> (r: Option<String>)
    ensures
        match r {
            Some(n) => disposition_filename(header@) == Some(n@),
            None => disposition_filename(header@) is None,
        },
{
    let h = chars_vec(header);
    let lowered = lower_chars(h.as_slice());
    let key = ['f', 'i', 'l', 'e', 'n', 'a', 'm', 'e', '='];
    assert(key@ == filename_param());
    let idx = match find_chars(lowered.as_slice(), key.as_slice()) {
        Some(i) => i,
        None => return None,
    };
    assert(lowered@.len() == h@.len());
    assert(key@.len() == 9);
    let hn = h.len();
    assert(idx + 9 <= hn);
    name_after_chars(&h, idx + 9)
}

} // verus!
