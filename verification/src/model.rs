//! Entries of a folder listing, and how a listing row becomes one.

use vstd::prelude::*;
use crate::text::{chars_vec, contains, contains_chars};

verus! {

/// One entry of a folder listing.
#[derive(Debug, Clone, PartialEq, Eq)]
pub enum Entry {
    Folder { id: u64, name: String },
    File { id: u64, key: String, name: String, date: String, thumbnail: String },
}

/// What a file's download headers tell about it.
#[derive(Debug, Clone, PartialEq, Eq)]
pub struct FileMeta {
    pub size: u64,
    pub filename: Option<String>,
}

/// One row of a `get-file-list` response, as the server sends it.
#[derive(Debug, Clone, PartialEq, Eq)]
pub struct RawRow {
    pub id: u64,
    pub key: String,
    pub thumbnail: String,
    pub name: String,
    pub date: String,
    pub link: String,
}

pub open spec fn view_folder() -> Seq<char> {
    seq!['v', 'i', 'e', 'w', '-', 'f', 'o', 'l', 'd', 'e', 'r']
}

pub open spec fn view_file() -> Seq<char> {
    seq!['v', 'i', 'e', 'w', '-', 'f', 'i', 'l', 'e']
}

pub open spec fn download_file() -> Seq<char> {
    seq!['d', 'o', 'w', 'n', 'l', 'o', 'a', 'd', '-', 'f', 'i', 'l', 'e']
}

/// The entry a row stands for. `Options` is a permissions bitmask, not a type
/// discriminator: the row's link tells folders (`view-folder`) from files
/// (`view-file`, `download-file`); a row with neither is skipped.
pub open spec fn row_entry(r: RawRow) -> Option<Entry> {
    if contains(r.link@, view_folder()) {
        Some(Entry::Folder { id: r.id, name: r.name })
    } else if contains(r.link@, view_file()) || contains(r.link@, download_file()) {
        Some(
            Entry::File {
                id: r.id,
                key: r.key,
                name: r.name,
                date: r.date,
                thumbnail: r.thumbnail,
            },
        )
    } else {
        None
    }
}

/// The entries of a listing: one per recognized row, in row order.
pub open spec fn listing_entries(rows: Seq<RawRow>) -> Seq<Entry>
    decreases rows.len(),
{
    if rows.len() == 0 {
        Seq::empty()
    } else {
        let prev = listing_entries(rows.drop_last());
        match row_entry(rows.last()) {
            Some(e) => prev.push(e),
            None => prev,
        }
    }
}

/// The entry a row stands for, if its link is recognized.
pub fn classify_row(r: RawRow) -> (e: Option<Entry>)
    ensures
        e == row_entry(r),
{
    let link = chars_vec(r.link.as_str());
    let l = link.as_slice();
    let folder = ['v', 'i', 'e', 'w', '-', 'f', 'o', 'l', 'd', 'e', 'r'];
    let file = ['v', 'i', 'e', 'w', '-', 'f', 'i', 'l', 'e'];
    let download = ['d', 'o', 'w', 'n', 'l', 'o', 'a', 'd', '-', 'f', 'i', 'l', 'e'];
    assert(folder@ == view_folder());
    assert(file@ == view_file());
    assert(download@ == download_file());
    if contains_chars(l, folder.as_slice()) {
        Some(Entry::Folder { id: r.id, name: r.name })
    } else if contains_chars(l, file.as_slice()) || contains_chars(l, download.as_slice()) {
        Some(
            Entry::File {
                id: r.id,
                key: r.key,
                name: r.name,
                date: r.date,
                thumbnail: r.thumbnail,
            },
        )
    } else {
        None
    }
}

/// The entries of a listing's rows, in order; rows whose link names neither a
/// folder nor a file are skipped.
pub fn entries_from_rows(rows: Vec<RawRow>) -> (r: Vec<Entry>)
    ensures
        r@ == listing_entries(rows@),
{
    let ghost all = rows@;
    let n = rows.len();
    let mut out: Vec<Entry> = Vec::new();
    // Reverse once, so that popping from the end yields the items in order
    // and each can be moved out without a copy.
    let mut src = rows;
    let mut rest: Vec<RawRow> = Vec::new();
    while src.len() > 0
        invariant
            src@.len() + rest@.len() == all.len(),
            forall|j: int| 0 <= j < src@.len() ==> #[trigger] src@[j] == all[j],
            forall|j: int| 0 <= j < rest@.len() ==> #[trigger] rest@[j] == all[all.len() - 1 - j],
        decreases src@.len(),
    {
        let row = src.pop().unwrap();
        rest.push(row);
    }
    let mut i: usize = 0;
    while rest.len() > 0
        invariant
            i + rest@.len() == all.len(),
            all.len() == n,
            forall|j: int| 0 <= j < rest@.len() ==> #[trigger] rest@[j] == all[all.len() - 1 - j],
            out@ == listing_entries(all.take(i as int)),
        decreases rest@.len(),
    {
        let row = rest.pop().unwrap();
        assert(row == all[i as int]);
        assert(all.take(i + 1).drop_last() =~= all.take(i as int));
        match classify_row(row) {
            Some(e) => out.push(e),
            None => {},
        }
        i = i + 1;
    }
    assert(all.take(i as int) =~= all);
    out
}

} // verus!
