//! The on-disk content cache's naming, and a time-limited in-memory cache.

use vstd::prelude::*;
use crate::clock::{duration_nanos, elapsed_since, instant_now, nanos_of};
use crate::text::{
    chars_vec, decimal, is_digit, lemma_decimal_digits, lemma_decimal_injective,
    push_decimal, string_from,
};
use std::collections::HashMap;
use std::hash::Hash;
use std::path::PathBuf;
use std::time::{Duration, Instant};

verus! {

#[verifier::external_type_specification]
#[verifier::external_body]
pub struct ExPathBuf(PathBuf);

/// Whether `c` is an ASCII letter or digit (`char::is_ascii_alphanumeric`).
pub open spec fn is_ascii_alnum(c: char) -> bool {
    ('0' <= c && c <= '9') || ('a' <= c && c <= 'z') || ('A' <= c && c <= 'Z')
}

/// A date character as it appears in a cache file name.
pub open spec fn safe_char(c: char) -> char {
    if is_ascii_alnum(c) {
        c
    } else {
        '_'
    }
}

/// The cache file name of a file's content as of a listing date:
/// `{id}-{date with every character but ASCII letters and digits as _}.bin`.
pub open spec fn cache_key_spec(file_id: u64, date: Seq<char>) -> Seq<char> {
    decimal(file_id as nat) + seq!['-'] + date.map_values(|c: char| safe_char(c)) + seq![
        '.',
        'b',
        'i',
        'n',
    ]
}

/// The cache file name for a file's content as of its listing date, so a
/// re-uploaded file (new date) misses the cache.
pub fn cache_key(file_id: u64, date: &str) -> (r: String)
    ensures
        r@ == cache_key_spec(file_id, date@),
{
    let d = chars_vec(date);
    let mut out: Vec<char> = Vec::new();
    push_decimal(&mut out, file_id);
    out.push('-');
    let ghost pre = out@;
    let mut i: usize = 0;
    while i < d.len()
        invariant
            i <= d@.len(),
            out@ == pre + d@.take(i as int).map_values(|c: char| safe_char(c)),
        decreases d@.len() - i,
    {
        let c = d[i];
        let s = if ('0' <= c && c <= '9') || ('a' <= c && c <= 'z') || ('A' <= c && c <= 'Z') {
            c
        } else {
            '_'
        };
        out.push(s);
        assert(pre + d@.take(i + 1).map_values(|c: char| safe_char(c)) =~= (pre + d@.take(
            i as int,
        ).map_values(|c: char| safe_char(c))).push(s));
        i = i + 1;
    }
    assert(d@.take(d@.len() as int) =~= d@);
    out.push('.');
    out.push('b');
    out.push('i');
    out.push('n');
    assert(out@ =~= cache_key_spec(file_id, date@));
    string_from(out.as_slice())
}

/// Two cache keys are equal exactly when they are for the same file id and
/// dates that differ at most in characters other than ASCII letters and
/// digits: an unchanged file hits its entry, and another file never does.
pub proof fn law_cache_key_injective(id1: u64, d1: Seq<char>, id2: u64, d2: Seq<char>)
    ensures
        cache_key_spec(id1, d1) == cache_key_spec(id2, d2) <==> (id1 == id2 && d1.map_values(
            |c: char| safe_char(c),
        ) == d2.map_values(|c: char| safe_char(c))),
{
    let k1 = cache_key_spec(id1, d1);
    let k2 = cache_key_spec(id2, d2);
    let a = decimal(id1 as nat);
    let b = decimal(id2 as nat);
    let s1 = d1.map_values(|c: char| safe_char(c));
    let s2 = d2.map_values(|c: char| safe_char(c));
    let tail = seq!['.', 'b', 'i', 'n'];
    if k1 == k2 {
        lemma_decimal_digits(id1 as nat);
        lemma_decimal_digits(id2 as nat);
        assert(k1 =~= a + (seq!['-'] + s1 + tail));
        assert(k2 =~= b + (seq!['-'] + s2 + tail));
        if a.len() < b.len() {
            assert(k1[a.len() as int] == '-');
            assert(k2[a.len() as int] == b[a.len() as int]);
            assert(is_digit(b[a.len() as int]));
        } else if b.len() < a.len() {
            assert(k2[b.len() as int] == '-');
            assert(k1[b.len() as int] == a[b.len() as int]);
            assert(is_digit(a[b.len() as int]));
        } else {
            assert(a =~= k1.take(a.len() as int));
            assert(b =~= k2.take(b.len() as int));
            lemma_decimal_injective(id1 as nat, id2 as nat);
            assert(s1 =~= k1.subrange(a.len() + 1int, k1.len() - 4));
            assert(s2 =~= k2.subrange(b.len() + 1int, k2.len() - 4));
        }
    }
}

/// The path `base/name`.
pub uninterp spec fn joined(base: PathBuf, name: Seq<char>) -> PathBuf;

/// `Path::join`: the path of `name` inside `base`, a function of the two.
#[verifier::external_body]
pub(crate) fn path_join(base: &PathBuf, name: &str) -> (r: PathBuf)
    ensures
        r == joined(*base, name@),
{
    base.join(name)
}

/// `Path::exists`: whether something is on disk at `p`. Nothing is stated of
/// the result; it depends on the disk.
#[verifier::external_body]
fn path_exists(p: &PathBuf) -> bool {
    p.exists()
}

/// Downloaded file contents on disk, one file per file id and listing date.
pub struct ContentCache {
    root: PathBuf,
}

impl ContentCache {
    /// A cache kept in the directory `root` (which the caller has created).
    pub fn at(root: PathBuf) -> (c: ContentCache)
        ensures
            c.root_spec() == root,
    {
        ContentCache { root }
    }

    pub closed spec fn root_spec(&self) -> PathBuf {
        self.root
    }

    /// The directory the cache lives in.
    pub fn root(&self) -> (r: &PathBuf)
        ensures
            *r == self.root_spec(),
    {
        &self.root
    }

    /// Where the content of `file_id` as of `date` is kept.
    pub fn path_for(&self, file_id: u64, date: &str) -> (r: PathBuf)
        ensures
            r == joined(self.root_spec(), cache_key_spec(file_id, date@)),
    {
        let key = cache_key(file_id, date);
        path_join(&self.root, key.as_str())
    }

    /// The cached content's path, when it is on disk.
    pub fn get(&self, file_id: u64, date: &str) -> (r: Option<PathBuf>)
        ensures
            r matches Some(p) ==> p == joined(self.root_spec(), cache_key_spec(file_id, date@)),
    {
        let p = self.path_for(file_id, date);
        if path_exists(&p) {
            Some(p)
        } else {
            None
        }
    }
}

/// A map whose entries expire `ttl` nanoseconds after they were put.
pub struct TtlCache<K, V> {
    ttl: u128,
    origin: Instant,
    map: HashMap<K, (u128, V)>,
}

/// Whether an entry put at `at` is still live at `now`.
pub open spec fn live(ttl: u128, at: u128, now: u128) -> bool {
    now - at <= ttl
}

/// What `get_at` returns for `k` at `now` from entries `m`: the value while
/// live, else nothing.
pub open spec fn lookup_live<K, V>(m: Map<K, (u128, V)>, ttl: u128, k: K, now: u128) -> Option<V> {
    if m.contains_key(k) && live(ttl, m[k].0, now) {
        Some(m[k].1)
    } else {
        None
    }
}

/// A value put at `t` is found until `ttl` has passed, and not after.
pub proof fn law_put_then_get<K, V>(m: Map<K, (u128, V)>, ttl: u128, k: K, v: V, t: u128, now: u128)
    ensures
        t <= now <= t + ttl ==> lookup_live(m.insert(k, (t, v)), ttl, k, now) == Some(v),
        now > t + ttl ==> lookup_live(m.insert(k, (t, v)), ttl, k, now) is None,
{
}

/// Nothing is found for a key after it was invalidated, whatever the time.
pub proof fn law_invalidate_then_get<K, V>(m: Map<K, (u128, V)>, ttl: u128, k: K, now: u128)
    ensures
        lookup_live(m.remove(k), ttl, k, now) is None,
{
}

impl<K: Hash + Eq + Clone, V: Clone> TtlCache<K, V> {
    /// How long entries live, in nanoseconds.
    pub closed spec fn ttl(&self) -> u128 {
        self.ttl
    }

    /// Each key's value and the time it was put, on the cache's own clock.
    pub closed spec fn entries(&self) -> Map<K, (u128, V)> {
        self.map@
    }

    /// An empty cache whose entries live for `ttl`.
    pub fn new(ttl: Duration) -> (c: TtlCache<K, V>)
        ensures
            c.ttl() == nanos_of(ttl),
            c.entries() == Map::<K, (u128, V)>::empty(),
    {
        TtlCache { ttl: duration_nanos(&ttl), origin: instant_now(), map: HashMap::new() }
    }

    /// The value of `k` if it was put at most `ttl` before `now`; an
    /// expired entry is dropped.
    pub fn get_at(&mut self, k: &K, now: u128) -> (r: Option<V>)
        requires
            vstd::std_specs::hash::obeys_key_model::<K>(),
        ensures
            final(self).ttl() == old(self).ttl(),
            match lookup_live(old(self).entries(), old(self).ttl(), *k, now) {
                Some(v0) => {
                    &&& r matches Some(v) && cloned(v0, v)
                    &&& final(self).entries() == old(self).entries()
                },
                None => {
                    &&& r is None
                    &&& final(self).entries() == old(self).entries().remove(*k)
                },
            },
    {
        match self.map.get(k) {
            Some(entry) => {
                if now <= entry.0 || now - entry.0 <= self.ttl {
                    return Some(entry.1.clone());
                }
            },
            None => {},
        }
        self.map.remove(k);
        assert(self.map@ =~= old(self).map@.remove(*k));
        None
    }

    /// The value of `k` if it was put within the time to live.
    pub fn get(&mut self, k: &K) -> (r: Option<V>)
        requires
            vstd::std_specs::hash::obeys_key_model::<K>(),
        ensures
            final(self).ttl() == old(self).ttl(),
            match r {
                Some(v) => {
                    &&& old(self).entries().contains_key(*k)
                    &&& cloned(old(self).entries()[*k].1, v)
                    &&& final(self).entries() == old(self).entries()
                },
                None => final(self).entries() == old(self).entries().remove(*k),
            },
    {
        let now = duration_nanos(&elapsed_since(&self.origin));
        self.get_at(k, now)
    }

    /// Puts `v` under `k` at time `now`, replacing what was there.
    pub fn put_at(&mut self, k: K, v: V, now: u128)
        requires
            vstd::std_specs::hash::obeys_key_model::<K>(),
        ensures
            final(self).ttl() == old(self).ttl(),
            final(self).entries() == old(self).entries().insert(k, (now, v)),
    {
        self.map.insert(k, (now, v));
    }

    /// Puts `v` under `k`, replacing what was there.
    pub fn put(&mut self, k: K, v: V)
        requires
            vstd::std_specs::hash::obeys_key_model::<K>(),
        ensures
            final(self).ttl() == old(self).ttl(),
            exists|now: u128| final(self).entries() == old(self).entries().insert(k, (now, v)),
    {
        let now = duration_nanos(&elapsed_since(&self.origin));
        self.put_at(k, v, now);
    }

    /// Drops the entry of `k`.
    pub fn invalidate(&mut self, k: &K)
        requires
            vstd::std_specs::hash::obeys_key_model::<K>(),
        ensures
            final(self).ttl() == old(self).ttl(),
            final(self).entries() == old(self).entries().remove(*k),
    {
        self.map.remove(k);
        assert(self.map@ =~= old(self).map@.remove(*k));
    }
}

} // verus!
