//! Display names for library entries: sanitizing, extension inference,
//! collision suffixes, and the listing date format.

use vstd::prelude::*;
use crate::text::{
    after_last, after_last_chars, before_first, before_first_chars, chars_eq, chars_vec,
    decimal, ends_with, ends_with_chars, extend_chars, lower, lower_chars, push_decimal,
    first_three, first_three_chars, in_i64, parse_i64, parse_i64_chars, slice_range,
    split_first, split_first_chars, string_from, trim, trim_chars,
};
use crate::clock::{time_from_unix_secs, unix_time};
use crate::text::{is_digit, is_white_space, lemma_trim_shape, lower_char};
use std::time::SystemTime;

verus! {

/// The character a raw name character is shown as: `/` cannot appear in a
/// file name and NUL cannot appear in a path.
pub open spec fn sanitize_char(c: char) -> char {
    if c == '/' {
        '-'
    } else if c == '\0' {
        '_'
    } else {
        c
    }
}

/// The shown form of a raw name: characters mapped, white space trimmed, and
/// `_` for a name that would otherwise be empty.
pub open spec fn sanitized(raw: Seq<char>) -> Seq<char> {
    let t = trim(raw.map_values(|c: char| sanitize_char(c)));
    if t.len() == 0 {
        seq!['_']
    } else {
        t
    }
}

pub fn sanitize_name(raw: &str) -> (r: String)
    ensures
        r@ == sanitized(raw@),
{
    let cs = chars_vec(raw);
    let mut cleaned: Vec<char> = Vec::new();
    let mut i: usize = 0;
    while i < cs.len()
        invariant
            i <= cs@.len(),
            cleaned@ == cs@.take(i as int).map_values(|c: char| sanitize_char(c)),
        decreases cs@.len() - i,
    {
        let c = cs[i];
        let m = if c == '/' {
            '-'
        } else if c == '\0' {
            '_'
        } else {
            c
        };
        cleaned.push(m);
        assert(cs@.take(i + 1).map_values(|c: char| sanitize_char(c)) =~= cs@.take(
            i as int,
        ).map_values(|c: char| sanitize_char(c)).push(m));
        i = i + 1;
    }
    assert(cs@.take(cs@.len() as int) =~= cs@);
    let trimmed = trim_chars(&cleaned);
    if trimmed.len() == 0 {
        let r = string_from(&['_']);
        assert(r@ =~= seq!['_']);
        r
    } else {
        string_from(trimmed.as_slice())
    }
}


/// The leading token of an icon file name: icons are named like
/// `pdf-128x128.png`, so the token names the file type.
pub open spec fn icon_token(thumbnail: Seq<char>) -> Seq<char> {
    before_first(after_last(thumbnail, '/'), '-', '.')
}

/// The extension a file of the icon type `token` is shown with, if any.
/// `gif` icons (folders and generic files) never name a real type.
pub open spec fn extension_for_token(t: Seq<char>) -> Option<Seq<char>> {
    if t == seq!['p', 'd', 'f'] {
        Some(seq!['p', 'd', 'f'])
    } else if t == seq!['d', 'o', 'c'] {
        Some(seq!['d', 'o', 'c'])
    } else if t == seq!['d', 'o', 'c', 'x'] {
        Some(seq!['d', 'o', 'c', 'x'])
    } else if t == seq!['x', 'l', 's'] {
        Some(seq!['x', 'l', 's'])
    } else if t == seq!['x', 'l', 's', 'x'] {
        Some(seq!['x', 'l', 's', 'x'])
    } else if t == seq!['p', 'p', 't'] {
        Some(seq!['p', 'p', 't'])
    } else if t == seq!['p', 'p', 't', 'x'] {
        Some(seq!['p', 'p', 't', 'x'])
    } else if t == seq!['t', 'x', 't'] {
        Some(seq!['t', 'x', 't'])
    } else if t == seq!['c', 's', 'v'] {
        Some(seq!['c', 's', 'v'])
    } else if t == seq!['j', 'p', 'g'] || t == seq!['j', 'p', 'e', 'g'] {
        Some(seq!['j', 'p', 'g'])
    } else if t == seq!['p', 'n', 'g'] {
        Some(seq!['p', 'n', 'g'])
    } else if t == seq!['z', 'i', 'p'] {
        Some(seq!['z', 'i', 'p'])
    } else {
        None
    }
}

/// The extension inferred from a listing's thumbnail path.
pub open spec fn inferred_extension(thumbnail: Seq<char>) -> Option<Seq<char>> {
    extension_for_token(icon_token(thumbnail))
}

/// A shown name is never empty, holds no `/` or NUL, and has no white space
/// at either end.
pub proof fn law_sanitized_clean(raw: Seq<char>)
    ensures
        sanitized(raw).len() > 0,
        forall|i: int|
            0 <= i < sanitized(raw).len() ==> #[trigger] sanitized(raw)[i] != '/' && sanitized(raw)[i]
                != '\0',
        !is_white_space(sanitized(raw)[0]),
        !is_white_space(sanitized(raw).last()),
{
    let m = raw.map_values(|c: char| sanitize_char(c));
    lemma_trim_shape(m);
    let t = trim(m);
    if t.len() > 0 {
        let (a, b) = choose|i: int, k: int| 0 <= i <= k <= m.len() && t == m.subrange(i, k);
        assert forall|i: int| 0 <= i < t.len() implies #[trigger] t[i] != '/' && t[i] != '\0' by {
            assert(t[i] == m[a + i]);
        }
    } else {
        assert(sanitized(raw) =~= seq!['_']);
    }
}

/// Icons are named like `pdf-128x128.png`; the leading token is the type.
pub fn infer_extension(thumbnail: &str) -> (r: Option<&'static str>)
    ensures
        match r {
            Some(e) => inferred_extension(thumbnail@) == Some(e@),
            None => inferred_extension(thumbnail@) is None,
        },
{
    let cs = chars_vec(thumbnail);
    let file = after_last_chars(&cs, '/');
    let tok = before_first_chars(&file, '-', '.');
    let t = tok.as_slice();
    proof {
        reveal_strlit("pdf");
        reveal_strlit("doc");
        reveal_strlit("docx");
        reveal_strlit("xls");
        reveal_strlit("xlsx");
        reveal_strlit("ppt");
        reveal_strlit("pptx");
        reveal_strlit("txt");
        reveal_strlit("csv");
        reveal_strlit("jpg");
        reveal_strlit("png");
        reveal_strlit("zip");
    }
    if chars_eq(t, &['p', 'd', 'f']) {
        Some("pdf")
    } else if chars_eq(t, &['d', 'o', 'c']) {
        Some("doc")
    } else if chars_eq(t, &['d', 'o', 'c', 'x']) {
        Some("docx")
    } else if chars_eq(t, &['x', 'l', 's']) {
        Some("xls")
    } else if chars_eq(t, &['x', 'l', 's', 'x']) {
        Some("xlsx")
    } else if chars_eq(t, &['p', 'p', 't']) {
        Some("ppt")
    } else if chars_eq(t, &['p', 'p', 't', 'x']) {
        Some("pptx")
    } else if chars_eq(t, &['t', 'x', 't']) {
        Some("txt")
    } else if chars_eq(t, &['c', 's', 'v']) {
        Some("csv")
    } else if chars_eq(t, &['j', 'p', 'g']) || chars_eq(t, &['j', 'p', 'e', 'g']) {
        Some("jpg")
    } else if chars_eq(t, &['p', 'n', 'g']) {
        Some("png")
    } else if chars_eq(t, &['z', 'i', 'p']) {
        Some("zip")
    } else {
        None
    }
}


/// The shown name of a file: its sanitized name, with `.ext` appended when the
/// icon names a type and the name does not already end with it (ignoring
/// ASCII case).
pub open spec fn displayed_file_name(raw: Seq<char>, thumbnail: Seq<char>) -> Seq<char> {
    let base = sanitized(raw);
    match inferred_extension(thumbnail) {
        Some(e) => {
            let dotted = seq!['.'] + e;
            if !ends_with(lower(base), dotted) {
                base + dotted
            } else {
                base
            }
        },
        None => base,
    }
}

/// A file shown with an inferred extension always ends with it (ignoring
/// ASCII case).
pub proof fn law_display_has_extension(raw: Seq<char>, thumbnail: Seq<char>)
    requires
        inferred_extension(thumbnail) is Some,
    ensures
        ends_with(
            lower(displayed_file_name(raw, thumbnail)),
            seq!['.'] + inferred_extension(thumbnail)->0,
        ),
{
    let e = inferred_extension(thumbnail)->0;
    let dotted = seq!['.'] + e;
    let base = sanitized(raw);
    assert(lower(dotted) =~= dotted) by {
        assert forall|i: int| 0 <= i < dotted.len() implies lower_char(#[trigger] dotted[i]) == dotted[i] by {
            assert(!('A' <= dotted[i] && dotted[i] <= 'Z'));
        }
    }
    if !ends_with(lower(base), dotted) {
        assert(lower(base + dotted) =~= lower(base) + lower(dotted));
        assert((lower(base) + dotted).skip((lower(base) + dotted).len() - dotted.len()) =~= dotted);
    }
}

/// A name that is already clean (non-empty, no `/` or NUL, no white space at
/// either end) is shown as it is.
proof fn lemma_sanitized_fixed(s: Seq<char>)
    requires
        s.len() > 0,
        forall|i: int| 0 <= i < s.len() ==> #[trigger] s[i] != '/' && s[i] != '\0',
        !is_white_space(s[0]),
        !is_white_space(s.last()),
    ensures
        sanitized(s) == s,
{
    assert(s.map_values(|c: char| sanitize_char(c)) =~= s);
}

/// Sanitizing a shown name changes nothing.
pub proof fn law_sanitized_idempotent(raw: Seq<char>)
    ensures
        sanitized(sanitized(raw)) == sanitized(raw),
{
    law_sanitized_clean(raw);
    lemma_sanitized_fixed(sanitized(raw));
}

/// An inferred extension is a non-empty run of lower-case ASCII letters.
proof fn lemma_extension_letters(thumbnail: Seq<char>)
    requires
        inferred_extension(thumbnail) is Some,
    ensures
        inferred_extension(thumbnail)->0.len() > 0,
        forall|i: int|
            0 <= i < inferred_extension(thumbnail)->0.len() ==> 'a' <= #[trigger] inferred_extension(
                thumbnail,
            )->0[i] <= 'z',
{
}

/// Showing a shown file name again, with the same icon, changes nothing.
pub proof fn law_display_idempotent(raw: Seq<char>, thumbnail: Seq<char>)
    ensures
        displayed_file_name(displayed_file_name(raw, thumbnail), thumbnail) == displayed_file_name(
            raw,
            thumbnail,
        ),
{
    let base = sanitized(raw);
    let d = displayed_file_name(raw, thumbnail);
    law_sanitized_clean(raw);
    match inferred_extension(thumbnail) {
        None => {
            lemma_sanitized_fixed(base);
        },
        Some(e) => {
            let dotted = seq!['.'] + e;
            lemma_extension_letters(thumbnail);
            if !ends_with(lower(base), dotted) {
                assert(d == base + dotted);
                assert forall|i: int| 0 <= i < d.len() implies #[trigger] d[i] != '/' && d[i] != '\0' by {
                    if i >= base.len() {
                        assert(d[i] == dotted[i - base.len()]);
                        if i > base.len() {
                            assert(dotted[i - base.len()] == e[i - base.len() - 1]);
                        }
                    } else {
                        assert(d[i] == base[i]);
                    }
                }
                assert(d.last() == e.last());
                assert(d[0] == base[0]);
            } else {
                assert(d == base);
            }
            lemma_sanitized_fixed(d);
            law_display_has_extension(raw, thumbnail);
        },
    }
}

pub fn file_display_name(raw: &str, thumbnail: &str) -> (r: String)
    ensures
        r@ == displayed_file_name(raw@, thumbnail@),
{
    let base = sanitize_name(raw);
    match infer_extension(thumbnail) {
        Some(ext) => {
            let base_cs = chars_vec(base.as_str());
            let ext_cs = chars_vec(ext);
            let mut dotted: Vec<char> = Vec::new();
            dotted.push('.');
            let mut i: usize = 0;
            while i < ext_cs.len()
                invariant
                    i <= ext_cs@.len(),
                    dotted@ == seq!['.'] + ext_cs@.take(i as int),
                decreases ext_cs@.len() - i,
            {
                dotted.push(ext_cs[i]);
                assert(seq!['.'] + ext_cs@.take(i + 1) =~= (seq!['.'] + ext_cs@.take(
                    i as int,
                )).push(ext_cs@[i as int]));
                i = i + 1;
            }
            assert(ext_cs@.take(ext_cs@.len() as int) =~= ext_cs@);
            let lowered = lower_chars(base_cs.as_slice());
            if !ends_with_chars(lowered.as_slice(), dotted.as_slice()) {
                let mut all = base_cs;
                let mut j: usize = 0;
                let ghost b = all@;
                while j < dotted.len()
                    invariant
                        j <= dotted@.len(),
                        all@ == b + dotted@.take(j as int),
                    decreases dotted@.len() - j,
                {
                    all.push(dotted[j]);
                    assert(b + dotted@.take(j + 1) =~= (b + dotted@.take(j as int)).push(
                        dotted@[j as int],
                    ));
                    j = j + 1;
                }
                assert(dotted@.take(dotted@.len() as int) =~= dotted@);
                string_from(all.as_slice())
            } else {
                base
            }
        },
        None => base,
    }
}


/// How many of the first `upto` names have the collision key `key`; names
/// collide when they are equal ignoring ASCII case.
pub open spec fn count_key(names: Seq<Seq<char>>, upto: int, key: Seq<char>) -> nat
    decreases upto,
{
    if upto <= 0 {
        0
    } else {
        count_key(names, upto - 1, key) + (if lower(names[upto - 1]) == key {
            1nat
        } else {
            0nat
        })
    }
}

/// Which occurrence (1 for the first) `names[i]` is among the names that
/// collide with it, in listing order.
pub open spec fn occurrence(names: Seq<Seq<char>>, i: int) -> nat {
    count_key(names, i + 1, lower(names[i]))
}

/// A name split before its last `.`, the `.` kept with the extension; a name
/// whose only `.` leads it, or that has none, has no extension.
pub open spec fn split_ext(n: Seq<char>) -> (Seq<char>, Seq<char>) {
    let k = n.len() - after_last(n, '.').len() - 1;
    if k > 0 {
        (n.take(k), n.skip(k))
    } else {
        (n, Seq::empty())
    }
}

/// `n` with ` (count)` inserted before its extension.
pub open spec fn with_counter(n: Seq<char>, count: nat) -> Seq<char> {
    let (stem, ext) = split_ext(n);
    stem + seq![' ', '('] + decimal(count) + seq![')'] + ext
}

/// The name shown for `names[i]`: unchanged for the first of its collision
/// group, with its occurrence number inserted for the later ones.
pub open spec fn resolved_name(names: Seq<Seq<char>>, i: int) -> Seq<char> {
    let c = occurrence(names, i);
    if c == 1 {
        names[i]
    } else {
        with_counter(names[i], c)
    }
}

/// The views of a vector of strings.
pub open spec fn string_views(v: Seq<String>) -> Seq<Seq<char>> {
    v.map_values(|s: String| s@)
}

proof fn lemma_count_key_zero(names: Seq<Seq<char>>, upto: int, key: Seq<char>)
    requires
        0 <= upto <= names.len(),
        forall|j: int| 0 <= j < upto ==> lower(#[trigger] names[j]) != key,
    ensures
        count_key(names, upto, key) == 0,
    decreases upto,
{
    if upto > 0 {
        lemma_count_key_zero(names, upto - 1, key);
    }
}

/// A name that collides with no earlier name of the listing is shown
/// unchanged; so a listing without collisions keeps all its names.
pub proof fn law_first_occurrence_unchanged(names: Seq<Seq<char>>, i: int)
    requires
        0 <= i < names.len(),
        forall|j: int| 0 <= j < i ==> lower(#[trigger] names[j]) != lower(names[i]),
    ensures
        resolved_name(names, i) == names[i],
{
    lemma_count_key_zero(names, i, lower(names[i]));
}

/// A name that collides with an earlier one gets a number of at least 2.
pub proof fn law_later_occurrence_numbered(names: Seq<Seq<char>>, i: int, j: int)
    requires
        0 <= j < i < names.len(),
        lower(names[j]) == lower(names[i]),
    ensures
        occurrence(names, i) >= 2,
        resolved_name(names, i) == with_counter(names[i], occurrence(names, i)),
{
    lemma_count_at_least(names, j, i, lower(names[i]));
}

proof fn lemma_count_at_least(names: Seq<Seq<char>>, j: int, upto: int, key: Seq<char>)
    requires
        0 <= j < upto <= names.len(),
        lower(names[j]) == key,
    ensures
        count_key(names, upto, key) >= 1,
    decreases upto,
{
    if upto - 1 > j {
        lemma_count_at_least(names, j, upto - 1, key);
    }
}

proof fn lemma_count_key_bound(names: Seq<Seq<char>>, upto: int, key: Seq<char>)
    requires
        0 <= upto,
    ensures
        count_key(names, upto, key) <= upto,
    decreases upto,
{
    if upto > 0 {
        lemma_count_key_bound(names, upto - 1, key);
    }
}

/// Every occurrence number is at most the number of names.
pub proof fn lemma_occurrence_bound(names: Seq<Seq<char>>, i: int)
    requires
        0 <= i < names.len(),
    ensures
        1 <= occurrence(names, i) <= names.len(),
{
    lemma_count_key_bound(names, i, lower(names[i]));
}

/// Splits `n` at its last `.` as `split_ext` does.
fn split_ext_chars(n: &Vec<char>) -> (r: (Vec<char>, Vec<char>))
    ensures
        (r.0@, r.1@) == split_ext(n@),
{
    let tail = crate::text::after_last_chars(n, '.');
    proof {
        lemma_after_last_len(n@, '.');
    }
    if tail.len() < n.len() && n.len() - tail.len() - 1 > 0 {
        let k = n.len() - tail.len() - 1;
        (slice_range(n, 0, k), slice_range(n, k, n.len()))
    } else {
        let whole = slice_range(n, 0, n.len());
        assert(n@.subrange(0, n@.len() as int) =~= n@);
        (whole, Vec::new())
    }
}

proof fn lemma_after_last_len(s: Seq<char>, c: char)
    ensures
        after_last(s, c).len() <= s.len(),
    decreases s.len(),
{
    if s.len() > 0 && s.last() != c {
        lemma_after_last_len(s.drop_last(), c);
    }
}

/// Whether every name's occurrence number fits the `u32` counter that
/// numbering collisions uses.
pub fn occurrences_fit(names: &Vec<String>) -> (r: bool)
    ensures
        r == (forall|i: int|
            0 <= i < names@.len() ==> #[trigger] occurrence(string_views(names@), i) <= u32::MAX),
{
    let ghost v = string_views(names@);
    let mut keys: Vec<Vec<char>> = Vec::new();
    let mut i: usize = 0;
    while i < names.len()
        invariant
            i <= names@.len(),
            v == string_views(names@),
            keys@.len() == i,
            forall|j: int| 0 <= j < i ==> #[trigger] keys@[j]@ == lower(v[j]),
        decreases names@.len() - i,
    {
        let cs = chars_vec(names[i].as_str());
        keys.push(lower_chars(cs.as_slice()));
        i = i + 1;
    }
    let mut i: usize = 0;
    while i < names.len()
        invariant
            i <= names@.len(),
            v == string_views(names@),
            keys@.len() == names@.len(),
            forall|j: int| 0 <= j < names@.len() ==> #[trigger] keys@[j]@ == lower(v[j]),
            forall|j: int| 0 <= j < i ==> #[trigger] occurrence(v, j) <= u32::MAX,
        decreases names@.len() - i,
    {
        let mut count: u64 = 0;
        let mut j: usize = 0;
        while j < i
            invariant
                i < names@.len(),
                v.len() == names@.len(),
                j <= i,
                keys@.len() == names@.len(),
                forall|jj: int| 0 <= jj < names@.len() ==> #[trigger] keys@[jj]@ == lower(v[jj]),
                count == count_key(v, j as int, lower(v[i as int])),
            decreases i - j,
        {
            proof {
                lemma_count_key_bound(v, j as int, lower(v[i as int]));
            }
            if chars_eq(keys[j].as_slice(), keys[i].as_slice()) {
                count = count + 1;
            }
            j = j + 1;
        }
        proof {
            lemma_count_key_bound(v, i as int, lower(v[i as int]));
        }
        count = count + 1;
        assert(count == occurrence(v, i as int));
        if count > u32::MAX as u64 {
            return false;
        }
        i = i + 1;
    }
    true
}

/// Gives duplicate names (equal ignoring ASCII case) within one listing a
/// ` (N)` suffix before the extension, numbered in listing order.
pub fn resolve_collisions(names: Vec<String>) -> (r: Vec<String>)
    requires
        forall|i: int|
            0 <= i < names@.len() ==> occurrence(string_views(names@), i) <= u32::MAX,
    ensures
        r@.len() == names@.len(),
        forall|i: int|
            0 <= i < names@.len() ==> #[trigger] r@[i]@ == resolved_name(
                string_views(names@),
                i,
            ),
{
    let ghost v = string_views(names@);
    let mut keys: Vec<Vec<char>> = Vec::new();
    let mut chars: Vec<Vec<char>> = Vec::new();
    let mut i: usize = 0;
    while i < names.len()
        invariant
            i <= names@.len(),
            v == string_views(names@),
            keys@.len() == i,
            chars@.len() == i,
            forall|j: int| 0 <= j < i ==> #[trigger] chars@[j]@ == v[j],
            forall|j: int| 0 <= j < i ==> #[trigger] keys@[j]@ == lower(v[j]),
        decreases names@.len() - i,
    {
        let cs = chars_vec(names[i].as_str());
        let k = lower_chars(cs.as_slice());
        keys.push(k);
        chars.push(cs);
        i = i + 1;
    }
    let mut out: Vec<String> = Vec::new();
    let mut i: usize = 0;
    while i < names.len()
        invariant
            i <= names@.len(),
            v == string_views(names@),
            keys@.len() == names@.len(),
            chars@.len() == names@.len(),
            forall|j: int| 0 <= j < names@.len() ==> #[trigger] chars@[j]@ == v[j],
            forall|j: int| 0 <= j < names@.len() ==> #[trigger] keys@[j]@ == lower(v[j]),
            forall|j: int| 0 <= j < names@.len() ==> occurrence(v, j) <= u32::MAX,
            out@.len() == i,
            forall|j: int| 0 <= j < i ==> #[trigger] out@[j]@ == resolved_name(v, j),
        decreases names@.len() - i,
    {
        let mut count: u32 = 0;
        let mut j: usize = 0;
        while j < i
            invariant
                i < names@.len(),
                v.len() == names@.len(),
                j <= i,
                keys@.len() == names@.len(),
                forall|jj: int| 0 <= jj < names@.len() ==> #[trigger] keys@[jj]@ == lower(v[jj]),
                count == count_key(v, j as int, lower(v[i as int])),
                occurrence(v, i as int) <= u32::MAX,
            decreases i - j,
        {
            proof {
                lemma_count_monotone(v, j + 1, i + 1, lower(v[i as int]));
            }
            if chars_eq(keys[j].as_slice(), keys[i].as_slice()) {
                count = count + 1;
            }
            j = j + 1;
        }
        proof {
            lemma_count_monotone(v, i + 1, i + 1, lower(v[i as int]));
        }
        count = count + 1;
        if count == 1 {
            out.push(names[i].clone());
        } else {
            let (stem, ext) = split_ext_chars(&chars[i]);
            let mut s = stem;
            s.push(' ');
            s.push('(');
            push_decimal(&mut s, count as u64);
            s.push(')');
            extend_chars(&mut s, ext.as_slice());
            assert(s@ =~= with_counter(v[i as int], count as nat));
            out.push(string_from(s.as_slice()));
        }
        i = i + 1;
    }
    out
}

proof fn lemma_count_monotone(names: Seq<Seq<char>>, a: int, b: int, key: Seq<char>)
    requires
        0 <= a <= b,
    ensures
        count_key(names, a, key) <= count_key(names, b, key),
    decreases b - a,
{
    if a < b {
        lemma_count_monotone(names, a, b - 1, key);
    }
}


/// The six numbers of a listing date `YYYY-MM-DD HH:MM:SS`: the text before
/// the first space holds `-`-separated year, month, day and the text after it
/// `:`-separated hours, minutes, seconds; each must parse as an `i64` and
/// further pieces are ignored.
pub open spec fn date_fields(date: Seq<char>) -> Option<(int, int, int, int, int, int)> {
    match split_first(date, ' ') {
        None => None,
        Some((d, t)) => match (first_three(d, '-'), first_three(t, ':')) {
            (Some((ys, ms, ds)), Some((hs, mins, ss))) => match (
                parse_i64(ys),
                parse_i64(ms),
                parse_i64(ds),
                parse_i64(hs),
                parse_i64(mins),
                parse_i64(ss),
            ) {
                (Some(y), Some(m), Some(d), Some(h), Some(mi), Some(s)) => Some(
                    (y, m, d, h, mi, s),
                ),
                _ => None,
            },
            _ => None,
        },
    }
}

/// The year that a civil date counts in when March starts the year.
pub open spec fn shifted_year(year: int, month: int) -> int {
    if month <= 2 {
        year - 1
    } else {
        year
    }
}

/// The 400-year era of a shifted year (division rounding toward zero, as the
/// `i64` division of the formula does).
pub open spec fn era_of(y: int) -> int {
    if y >= 0 {
        y / 400
    } else {
        -((399 - y) / 400)
    }
}

/// The day of the 400-year era on which a civil date falls.
pub open spec fn day_of_era(year: int, month: int, day: int) -> int {
    let y = shifted_year(year, month);
    let yoe = y - era_of(y) * 400;
    let mp = if month > 2 {
        month - 3
    } else {
        month + 9
    };
    let doy = (153 * mp + 2) / 5 + day - 1;
    yoe * 365 + yoe / 4 - yoe / 100 + doy
}

/// Days from 1970-01-01 to a civil date of the proleptic Gregorian calendar.
pub open spec fn days_from_civil(year: int, month: int, day: int) -> int {
    era_of(shifted_year(year, month)) * 146097 + day_of_era(year, month, day) - 719468
}

/// Seconds from the epoch to a date and time of day, read as UTC.
pub open spec fn civil_seconds(y: int, m: int, d: int, hh: int, mm: int, ss: int) -> int {
    days_from_civil(y, m, d) * 86400 + hh * 3600 + mm * 60 + ss
}

/// Every intermediate value of the date arithmetic stays within `i64`.
pub open spec fn civil_arith_fits(y: int, m: int, d: int, hh: int, mm: int, ss: int) -> bool {
    let sy = shifted_year(y, m);
    let era = era_of(sy);
    let days = days_from_civil(y, m, d);
    &&& in_i64(sy)
    &&& (sy < 0 ==> in_i64(sy - 399))
    &&& in_i64(era * 146097)
    &&& in_i64(era * 146097 + day_of_era(y, m, d))
    &&& in_i64(days)
    &&& in_i64(days * 86400)
    &&& in_i64(hh * 3600)
    &&& in_i64(days * 86400 + hh * 3600)
    &&& in_i64(mm * 60)
    &&& in_i64(days * 86400 + hh * 3600 + mm * 60)
    &&& in_i64(civil_seconds(y, m, d, hh, mm, ss))
}

pub open spec fn valid_month_day(m: int, d: int) -> bool {
    1 <= m <= 12 && 1 <= d <= 31
}

/// Whether the date arithmetic of `date` stays within `i64` (the formula
/// works in `i64`); text that is not a date, or has no valid month and day,
/// needs no arithmetic.
pub open spec fn date_arith_fits(date: Seq<char>) -> bool {
    match date_fields(date) {
        Some((y, m, d, hh, mm, ss)) => valid_month_day(m, d) ==> civil_arith_fits(
            y,
            m,
            d,
            hh,
            mm,
            ss,
        ),
        None => true,
    }
}

/// Seconds since the epoch of a listing date, read as UTC; `None` for text
/// that is not such a date, a month outside 1..=12, a day outside 1..=31, or
/// a point before the epoch.
pub open spec fn date_seconds(date: Seq<char>) -> Option<u64> {
    match date_fields(date) {
        Some((y, m, d, hh, mm, ss)) => if valid_month_day(m, d) && civil_seconds(
            y,
            m,
            d,
            hh,
            mm,
            ss,
        ) >= 0 {
            Some(civil_seconds(y, m, d, hh, mm, ss) as u64)
        } else {
            None
        },
        None => None,
    }
}

/// Whether `y` is a leap year of the proleptic Gregorian calendar.
pub open spec fn is_leap(y: int) -> bool {
    y % 4 == 0 && (y % 100 != 0 || y % 400 == 0)
}

/// The number of days of month `m` of year `y`.
pub open spec fn days_in_month(y: int, m: int) -> int {
    if m == 2 {
        if is_leap(y) {
            29
        } else {
            28
        }
    } else if m == 4 || m == 6 || m == 9 || m == 11 {
        30
    } else {
        31
    }
}

/// A real UTC instant at or after the epoch: a calendar day that exists, and
/// a time of day within 00:00:00..=23:59:59.
pub open spec fn real_instant(y: int, m: int, d: int, hh: int, mm: int, ss: int) -> bool {
    &&& 1970 <= y
    &&& 1 <= m <= 12
    &&& 1 <= d <= days_in_month(y, m)
    &&& 0 <= hh <= 23
    &&& 0 <= mm <= 59
    &&& 0 <= ss <= 59
}

/// A listing date whose fields name a real instant at or after the epoch.
pub open spec fn real_date(date: Seq<char>) -> bool {
    date_fields(date) matches Some((y, m, d, hh, mm, ss)) && real_instant(y, m, d, hh, mm, ss)
}

/// Whether the fields `a` name an earlier instant than `b`: year, month, day,
/// hours, minutes, seconds compared in turn.
pub open spec fn fields_before(a: (int, int, int, int, int, int), b: (int, int, int, int, int, int)) -> bool {
    ||| a.0 < b.0
    ||| a.0 == b.0 && a.1 < b.1
    ||| a.0 == b.0 && a.1 == b.1 && a.2 < b.2
    ||| a.0 == b.0 && a.1 == b.1 && a.2 == b.2 && a.3 < b.3
    ||| a.0 == b.0 && a.1 == b.1 && a.2 == b.2 && a.3 == b.3 && a.4 < b.4
    ||| a.0 == b.0 && a.1 == b.1 && a.2 == b.2 && a.3 == b.3 && a.4 == b.4 && a.5 < b.5
}

/// The day of the era on which the shifted year `sy` starts, plus the era's
/// first day.
spec fn year_start(sy: int) -> int {
    let yoe = sy - era_of(sy) * 400;
    era_of(sy) * 146097 + yoe * 365 + yoe / 4 - yoe / 100
}

/// A shifted year that starts in March of calendar year `sy + 1` is one day
/// longer when that calendar year is a leap year.
proof fn lemma_year_step(sy: int)
    requires
        sy >= 0,
    ensures
        year_start(sy + 1) == year_start(sy) + 365 + (if is_leap(sy + 1) {
            1int
        } else {
            0int
        }),
{
    let e = sy / 400;
    let r = sy % 400;
    assert(sy == 400 * e + r && 0 <= r < 400);
    assert(era_of(sy) == e);
    if r < 399 {
        assert((sy + 1) / 400 == e) by {
            assert(sy + 1 == 400 * e + (r + 1));
        }
        assert(era_of(sy + 1) == e);
        assert((sy + 1) % 4 == (r + 1) % 4) by {
            assert(sy + 1 == 4 * (100 * e) + (r + 1));
        }
        assert((sy + 1) % 100 == (r + 1) % 100) by {
            assert(sy + 1 == 100 * (4 * e) + (r + 1));
        }
        assert((sy + 1) % 400 == r + 1) by {
            assert(sy + 1 == 400 * e + (r + 1));
        }
    } else {
        assert((sy + 1) / 400 == e + 1) by {
            assert(sy + 1 == 400 * (e + 1));
        }
        assert(era_of(sy + 1) == e + 1);
        assert((sy + 1) % 400 == 0) by {
            assert(sy + 1 == 400 * (e + 1));
        }
        assert((sy + 1) % 4 == 0) by {
            assert(sy + 1 == 4 * (100 * (e + 1)));
        }
    }
}

/// The day of the shifted year on which month `m` starts.
spec fn month_offset(m: int) -> int {
    (153 * (if m > 2 {
        m - 3
    } else {
        m + 9
    }) + 2) / 5
}

proof fn lemma_days_parts(y: int, m: int, d: int)
    ensures
        days_from_civil(y, m, d) == year_start(shifted_year(y, m)) + month_offset(m) + d - 1
            - 719468,
{
}

/// The first day of a month follows the last day of the month before.
proof fn lemma_month_step(y: int, m: int)
    requires
        1970 <= y,
        1 <= m <= 11,
    ensures
        days_from_civil(y, m + 1, 1) == days_from_civil(y, m, days_in_month(y, m)) + 1,
{
    lemma_days_parts(y, m + 1, 1);
    lemma_days_parts(y, m, days_in_month(y, m));
    if m == 2 {
        lemma_year_step(y - 1);
        assert(month_offset(2) == 337);
        assert(month_offset(3) == 0);
    } else if m == 1 {
        assert(month_offset(1) == 306);
        assert(month_offset(2) == 337);
    } else if m == 3 {
        assert(month_offset(4) == 31);
    } else if m == 4 {
        assert(month_offset(4) == 31);
        assert(month_offset(5) == 61);
    } else if m == 5 {
        assert(month_offset(5) == 61);
        assert(month_offset(6) == 92);
    } else if m == 6 {
        assert(month_offset(6) == 92);
        assert(month_offset(7) == 122);
    } else if m == 7 {
        assert(month_offset(7) == 122);
        assert(month_offset(8) == 153);
    } else if m == 8 {
        assert(month_offset(8) == 153);
        assert(month_offset(9) == 184);
    } else if m == 9 {
        assert(month_offset(9) == 184);
        assert(month_offset(10) == 214);
    } else if m == 10 {
        assert(month_offset(10) == 214);
        assert(month_offset(11) == 245);
    } else {
        assert(month_offset(11) == 245);
        assert(month_offset(12) == 275);
    }
}

/// New Year's Day follows the last day of December.
proof fn lemma_new_year_step(y: int)
    requires
        1970 <= y,
    ensures
        days_from_civil(y + 1, 1, 1) == days_from_civil(y, 12, 31) + 1,
{
    lemma_days_parts(y + 1, 1, 1);
    lemma_days_parts(y, 12, 31);
    assert(month_offset(1) == 306);
    assert(month_offset(12) == 275);
}

/// Within a month, later days come later.
proof fn lemma_day_order(y: int, m: int, d1: int, d2: int)
    requires
        d1 <= d2,
    ensures
        days_from_civil(y, m, d1) + (d2 - d1) == days_from_civil(y, m, d2),
{
    lemma_days_parts(y, m, d1);
    lemma_days_parts(y, m, d2);
}

/// The last day of a month comes before the first day of any later month of
/// the same year.
proof fn lemma_month_order(y: int, m1: int, m2: int)
    requires
        1970 <= y,
        1 <= m1 < m2 <= 12,
    ensures
        days_from_civil(y, m1, days_in_month(y, m1)) < days_from_civil(y, m2, 1),
    decreases m2 - m1,
{
    lemma_month_step(y, (m2 - 1) as int);
    if m1 < m2 - 1 {
        lemma_month_order(y, m1, m2 - 1);
        lemma_day_order(y, m2 - 1, 1, days_in_month(y, m2 - 1));
    }
}

/// The last day of a year comes before the first day of any later year.
proof fn lemma_year_order(y1: int, y2: int)
    requires
        1970 <= y1 < y2,
    ensures
        days_from_civil(y1, 12, 31) < days_from_civil(y2, 1, 1),
    decreases y2 - y1,
{
    lemma_new_year_step(y2 - 1);
    if y1 < y2 - 1 {
        lemma_year_order(y1, y2 - 1);
        lemma_month_order(y2 - 1, 1, 12);
        lemma_day_order(y2 - 1, 1, 1, 31);
        lemma_day_order(y2 - 1, 12, 1, 31);
    }
}

/// Of two real calendar days, the earlier has the smaller day number.
proof fn lemma_days_before(y1: int, m1: int, d1: int, y2: int, m2: int, d2: int)
    requires
        1970 <= y1 && 1 <= m1 <= 12 && 1 <= d1 <= days_in_month(y1, m1),
        1970 <= y2 && 1 <= m2 <= 12 && 1 <= d2 <= days_in_month(y2, m2),
        y1 < y2 || (y1 == y2 && m1 < m2) || (y1 == y2 && m1 == m2 && d1 < d2),
    ensures
        days_from_civil(y1, m1, d1) < days_from_civil(y2, m2, d2),
{
    if y1 < y2 {
        lemma_day_order(y1, m1, d1, days_in_month(y1, m1));
        if m1 < 12 {
            lemma_month_order(y1, m1, 12);
            lemma_day_order(y1, 12, 1, 31);
        }
        lemma_year_order(y1, y2);
        lemma_day_order(y2, 1, 1, 31);
        if m2 > 1 {
            lemma_month_order(y2, 1, m2);
        }
        lemma_day_order(y2, m2, 1, d2);
    } else if m1 < m2 {
        lemma_day_order(y1, m1, d1, days_in_month(y1, m1));
        lemma_month_order(y1, m1, m2);
        lemma_day_order(y2, m2, 1, d2);
    } else {
        lemma_day_order(y1, m1, d1, d2);
    }
}

/// Of two real instants, the earlier has fewer seconds since the epoch, and
/// none is before the epoch.
proof fn lemma_seconds_before(a: (int, int, int, int, int, int), b: (int, int, int, int, int, int))
    requires
        real_instant(a.0, a.1, a.2, a.3, a.4, a.5),
        real_instant(b.0, b.1, b.2, b.3, b.4, b.5),
        fields_before(a, b),
    ensures
        0 <= civil_seconds(a.0, a.1, a.2, a.3, a.4, a.5) < civil_seconds(b.0, b.1, b.2, b.3, b.4, b.5),
{
    lemma_not_before_epoch(a);
    let da = days_from_civil(a.0, a.1, a.2);
    let db = days_from_civil(b.0, b.1, b.2);
    if a.0 < b.0 || (a.0 == b.0 && a.1 < b.1) || (a.0 == b.0 && a.1 == b.1 && a.2 < b.2) {
        lemma_days_before(a.0, a.1, a.2, b.0, b.1, b.2);
        assert(da * 86400 + 86400 <= db * 86400);
    }
}

/// No real instant at or after the epoch has negative seconds.
proof fn lemma_not_before_epoch(a: (int, int, int, int, int, int))
    requires
        real_instant(a.0, a.1, a.2, a.3, a.4, a.5),
    ensures
        days_from_civil(a.0, a.1, a.2) >= 0,
        civil_seconds(a.0, a.1, a.2, a.3, a.4, a.5) >= 0,
{
    lemma_days_parts(1970, 1, 1);
    assert(days_from_civil(1970, 1, 1) == 0);
    if a.0 != 1970 || a.1 != 1 || a.2 != 1 {
        lemma_days_before(1970, 1, 1, a.0, a.1, a.2);
    }
}

/// Listing dates of real instants at or after the epoch read as times in the
/// same order: an earlier instant gives fewer seconds since the epoch, and two
/// dates give the same seconds only when their fields are the same.
pub proof fn law_dates_ordered(a: Seq<char>, b: Seq<char>)
    requires
        date_arith_fits(a),
        date_arith_fits(b),
        real_date(a),
        real_date(b),
    ensures
        date_seconds(a) is Some,
        date_seconds(b) is Some,
        fields_before(date_fields(a)->0, date_fields(b)->0) ==> date_seconds(a)->0 < date_seconds(
            b,
        )->0,
        date_seconds(a) == date_seconds(b) ==> date_fields(a) == date_fields(b),
{
    let fa = date_fields(a)->0;
    let fb = date_fields(b)->0;
    lemma_not_before_epoch(fa);
    lemma_not_before_epoch(fb);
    if fields_before(fa, fb) {
        lemma_seconds_before(fa, fb);
    }
    if fields_before(fb, fa) {
        lemma_seconds_before(fb, fa);
    }
}

/// The six fields of a listing date, parsed.
fn date_fields_exec(date: &str) -> (r: Option<(i64, i64, i64, i64, i64, i64)>)
    ensures
        match r {
            Some((y, m, d, hh, mm, ss)) => date_fields(date@) == Some(
                (y as int, m as int, d as int, hh as int, mm as int, ss as int),
            ),
            None => date_fields(date@) is None,
        },
{
    let cs = chars_vec(date);
    let (d, t) = match split_first_chars(&cs, ' ') {
        Some(p) => p,
        None => return None,
    };
    let (ys, ms, ds) = match first_three_chars(&d, '-') {
        Some(p) => p,
        None => return None,
    };
    let (hs, mins, ss) = match first_three_chars(&t, ':') {
        Some(p) => p,
        None => return None,
    };
    let y = parse_i64_chars(ys.as_slice());
    let m = parse_i64_chars(ms.as_slice());
    let dd = parse_i64_chars(ds.as_slice());
    let h = parse_i64_chars(hs.as_slice());
    let mi = parse_i64_chars(mins.as_slice());
    let s = parse_i64_chars(ss.as_slice());
    match (y, m, dd, h, mi, s) {
        (Some(y), Some(m), Some(dd), Some(h), Some(mi), Some(s)) => Some((y, m, dd, h, mi, s)),
        _ => None,
    }
}

/// The intermediate values of the date arithmetic, exactly.
fn civil_parts(y: i64, m: i64, d: i64, hh: i64, mm: i64, ss: i64) -> (r: (i128, i128, i128, i128))
    requires
        valid_month_day(m as int, d as int),
    ensures
        r.0 == shifted_year(y as int, m as int),
        r.1 == era_of(shifted_year(y as int, m as int)),
        r.2 == days_from_civil(y as int, m as int, d as int),
        r.3 == civil_seconds(y as int, m as int, d as int, hh as int, mm as int, ss as int),
{
    let yy: i128 = if m <= 2 {
        y as i128 - 1
    } else {
        y as i128
    };
    let era: i128 = if yy >= 0 {
        yy / 400
    } else {
        -((399 - yy) / 400)
    };
    assert(-9223372036854775809 <= yy <= 9223372036854775807);
    assert(-23058430092136941 <= era <= 23058430092136940);
    let yoe: i128 = yy - era * 400;
    assert(0 <= yoe < 400);
    let mp: i128 = if m > 2 {
        m as i128 - 3
    } else {
        m as i128 + 9
    };
    let doy: i128 = (153 * mp + 2) / 5 + d as i128 - 1;
    let doe: i128 = yoe * 365 + yoe / 4 - yoe / 100 + doy;
    assert(era * 146097 <= 23058430092136940 * 146097 && era * 146097 >= -23058430092136941
        * 146097) by (nonlinear_arith)
        requires
            -23058430092136941 <= era <= 23058430092136940,
    ;
    let days: i128 = era * 146097 + doe - 719468;
    assert(days * 86400 <= 4000000000000000000000 * 86400 && days * 86400 >= -4000000000000000000000
        * 86400) by (nonlinear_arith)
        requires
            -4000000000000000000000 <= days <= 4000000000000000000000,
    ;
    let secs: i128 = days * 86400 + hh as i128 * 3600 + mm as i128 * 60 + ss as i128;
    (yy, era, days, secs)
}

/// Whether the date arithmetic of `date` stays within `i64`, as
/// `date_arith_fits` states.
pub fn condo_date_fits(date: &str) -> (r: bool)
    ensures
        r == date_arith_fits(date@),
{
    match date_fields_exec(date) {
        None => true,
        Some((y, m, d, hh, mm, ss)) => {
            if !(1 <= m && m <= 12 && 1 <= d && d <= 31) {
                return true;
            }
            let (sy, era, days, secs) = civil_parts(y, m, d, hh, mm, ss);
            let lo: i128 = -9223372036854775808;
            let hi: i128 = 9223372036854775807;
            let e146 = era * 146097;
            let doe = days - e146 + 719468;
            let a = days * 86400;
            let b = hh as i128 * 3600;
            let c = mm as i128 * 60;
            assert(doe == day_of_era(y as int, m as int, d as int));
            lo <= sy && sy <= hi && (sy >= 0 || lo <= sy - 399) && lo <= e146 && e146 <= hi && lo
                <= e146 + doe && e146 + doe <= hi && lo <= days && days <= hi && lo <= a && a <= hi
                && lo <= b && b <= hi && lo <= a + b && a + b <= hi && lo <= c && c <= hi && lo <= a
                + b + c && a + b + c <= hi && lo <= secs && secs <= hi
        },
    }
}

/// Seconds since the epoch of a listing date, read as UTC.
pub fn condo_date_secs(date: &str) -> (r: Option<u64>)
    requires
        date_arith_fits(date@),
    ensures
        r == date_seconds(date@),
{
    match date_fields_exec(date) {
        None => None,
        Some((y, m, d, hh, mm, ss)) => {
            if !(1 <= m && m <= 12 && 1 <= d && d <= 31) {
                return None;
            }
            let (_sy, _era, _days, secs) = civil_parts(y, m, d, hh, mm, ss);
            if secs < 0 {
                None
            } else {
                Some(secs as u64)
            }
        },
    }
}

/// The modification time of a listing date (format `YYYY-MM-DD HH:MM:SS`,
/// treated as UTC); the epoch for text that is not such a date.
pub fn parse_condo_date(date: &str) -> (r: SystemTime)
    requires
        date_arith_fits(date@),
    ensures
        r == unix_time(
            match date_seconds(date@) {
                Some(s) => s,
                None => 0,
            },
        ),
{
    match condo_date_secs(date) {
        Some(secs) => time_from_unix_secs(secs),
        None => time_from_unix_secs(0),
    }
}

/// A name that can stand for a file in a directory: not empty, with no path
/// separator `/` and no NUL.
pub open spec fn clean_name(n: Seq<char>) -> bool {
    n.len() > 0 && forall|i: int| 0 <= i < n.len() ==> #[trigger] n[i] != '/' && n[i] != '\0'
}

/// A shown folder name and a shown file name are clean.
pub proof fn law_shown_names_clean(raw: Seq<char>, thumbnail: Seq<char>)
    ensures
        clean_name(sanitized(raw)),
        clean_name(displayed_file_name(raw, thumbnail)),
{
    law_sanitized_clean(raw);
    let base = sanitized(raw);
    let d = displayed_file_name(raw, thumbnail);
    match inferred_extension(thumbnail) {
        None => {},
        Some(e) => {
            let dotted = seq!['.'] + e;
            lemma_extension_letters(thumbnail);
            if !ends_with(lower(base), dotted) {
                assert(d == base + dotted);
                assert forall|i: int| 0 <= i < d.len() implies #[trigger] d[i] != '/' && d[i] != '\0' by {
                    if i >= base.len() {
                        assert(d[i] == dotted[i - base.len()]);
                        if i > base.len() {
                            assert(dotted[i - base.len()] == e[i - base.len() - 1]);
                        }
                    } else {
                        assert(d[i] == base[i]);
                    }
                }
            }
        },
    }
}

/// Numbering a clean name keeps it clean.
pub proof fn law_numbered_name_clean(n: Seq<char>, count: nat)
    requires
        clean_name(n),
    ensures
        clean_name(with_counter(n, count)),
{
    lemma_after_last_len(n, '.');
    let (stem, ext) = split_ext(n);
    let dg = decimal(count);
    crate::text::lemma_decimal_digits(count);
    let w = with_counter(n, count);
    let mid = seq![' ', '('] + dg + seq![')'];
    assert(w =~= stem + mid + ext);
    assert forall|i: int| 0 <= i < w.len() implies #[trigger] w[i] != '/' && w[i] != '\0' by {
        let k = n.len() - after_last(n, '.').len() - 1;
        if i < stem.len() {
            assert(w[i] == stem[i]);
            assert(stem[i] == n[i]);
        } else if i < stem.len() + mid.len() {
            assert(w[i] == mid[i - stem.len()]);
            let j = i - stem.len();
            if 2 <= j < 2 + dg.len() {
                assert(mid[j] == dg[j - 2]);
                assert(is_digit(dg[j - 2]));
            }
        } else {
            assert(w[i] == ext[i - stem.len() - mid.len()]);
            assert(k > 0);
            assert(ext[i - stem.len() - mid.len()] == n[k + (i - stem.len() - mid.len())]);
        }
    }
}

/// Every name a listing shows after numbering collisions is clean when the
/// names it numbers are.
pub proof fn law_resolved_clean(names: Seq<Seq<char>>, i: int)
    requires
        0 <= i < names.len(),
        clean_name(names[i]),
    ensures
        clean_name(resolved_name(names, i)),
{
    if occurrence(names, i) != 1 {
        law_numbered_name_clean(names[i], occurrence(names, i));
    }
}

} // verus!
