//! The inode table behind the read-only filesystem, and the decisions of its
//! operations. The operations that need the network, the clock or the disk
//! are split into steps: the table says what to fetch, and is handed what
//! came back.

use vstd::prelude::*;
use crate::client::ClientError;
use crate::clock::{duration_nanos, nanos_of, time_from_unix_secs, unix_time};
use crate::model::Entry;
use crate::names::{
    condo_date_fits, date_arith_fits, date_seconds, displayed_file_name, file_display_name,
    lemma_occurrence_bound, occurrences_fit, parse_condo_date, resolve_collisions, resolved_name,
    sanitize_name, sanitized, string_views,
};
use crate::text::{chars_eq, chars_vec, lex_less, lex_lt};
use std::collections::HashMap;
use std::time::{Duration, SystemTime};

verus! {

/// Why a filesystem operation failed.
#[derive(Debug, Clone, Copy, PartialEq, Eq)]
pub enum VfsError {
    NotFound,
    Io,
}

/// `libc::ENOENT`: 2 on Linux, the BSDs and macOS, the targets FUSE mounts
/// run on (the `libc` crate gives other values for Hurd, Haiku and
/// Emscripten, which this contract does not cover).
#[verifier::external_body]
fn enoent() -> (r: i32)
    ensures
        r == 2,
{
    libc::ENOENT
}

/// `libc::EIO`: 5 on Linux, the BSDs and macOS, the targets FUSE mounts run
/// on (the `libc` crate gives other values for Hurd, Haiku and Emscripten,
/// which this contract does not cover).
#[verifier::external_body]
fn eio() -> (r: i32)
    ensures
        r == 5,
{
    libc::EIO
}

impl VfsError {
    /// The errno a failed operation reports: `ENOENT` or `EIO`.
    pub fn errno(&self) -> (r: i32)
        ensures
            r == match self {
                VfsError::NotFound => 2i32,
                VfsError::Io => 5i32,
            },
    {
        match self {
            VfsError::NotFound => enoent(),
            VfsError::Io => eio(),
        }
    }
}

/// A missing item stays missing; every other client failure is an I/O error.
pub open spec fn vfs_error_of(e: ClientError) -> VfsError {
    match e {
        ClientError::NotFound => VfsError::NotFound,
        _ => VfsError::Io,
    }
}

impl From<ClientError> for VfsError {
    fn from(e: ClientError) -> (r: VfsError) {
        match e {
            ClientError::NotFound => VfsError::NotFound,
            _ => VfsError::Io,
        }
    }
}

impl vstd::std_specs::convert::FromSpecImpl<ClientError> for VfsError {
    open spec fn obeys_from_spec() -> bool {
        true
    }

    open spec fn from_spec(e: ClientError) -> VfsError {
        vfs_error_of(e)
    }
}

impl From<std::io::Error> for VfsError {
    fn from(e: std::io::Error) -> (r: VfsError) {
        VfsError::Io
    }
}

impl vstd::std_specs::convert::FromSpecImpl<std::io::Error> for VfsError {
    open spec fn obeys_from_spec() -> bool {
        true
    }

    open spec fn from_spec(e: std::io::Error) -> VfsError {
        VfsError::Io
    }
}


/// The kind of a filesystem node.
#[derive(Debug, Clone, Copy, PartialEq, Eq)]
pub enum NodeKind {
    Directory,
    RegularFile,
}

/// One child of a directory, as `readdir` lists it.
#[derive(Debug, Clone, PartialEq, Eq)]
pub struct DirEntry {
    pub ino: u64,
    pub name: String,
    pub kind: NodeKind,
}

/// The attributes of a node.
#[derive(Debug, Clone, Copy, PartialEq, Eq)]
pub struct Attr {
    pub ino: u64,
    pub size: u64,
    pub kind: NodeKind,
    pub mtime: SystemTime,
}

/// What the table knows of a node: a folder, or a file with its listing date
/// and, once fetched, its size.
enum Node {
    Folder { id: u64 },
    File { id: u64, date: String, thumbnail: String, size: Option<u64> },
}

/// A named child of a directory.
struct Child {
    name: String,
    ino: u64,
}

/// A node as the table's model sees it.
#[verifier::ext_equal]
pub ghost enum NodeModel {
    Folder { id: u64 },
    File { id: u64, date: Seq<char>, thumbnail: Seq<char>, size: Option<u64> },
}

/// The table as a mathematical object.
#[verifier::ext_equal]
pub ghost struct VfsModel {
    /// The inode the next new library item gets.
    pub next_ino: nat,
    /// The node behind each inode.
    pub nodes: Map<u64, NodeModel>,
    /// The inode of each library folder id.
    pub folders: Map<u64, u64>,
    /// The inode of each library file id.
    pub files: Map<u64, u64>,
    /// The named children of each listed directory.
    pub children: Map<u64, Map<Seq<char>, u64>>,
    /// When each directory was last listed (nanoseconds on the caller's clock).
    pub listed_at: Map<u64, u128>,
    /// How long a listing stays fresh, in nanoseconds.
    pub meta_ttl: u128,
    pub uid: u32,
    pub gid: u32,
}

/// The inode of the filesystem root.
pub open spec fn root_ino() -> u64 {
    1
}

/// `fuser::FUSE_ROOT_ID`, the inode FUSE gives the root (1).
#[verifier::external_body]
fn fuse_root_id() -> (r: u64)
    ensures
        r == root_ino(),
{
    fuser::FUSE_ROOT_ID
}

impl Node {
    closed spec fn model(&self) -> NodeModel {
        match self {
            Node::Folder { id } => NodeModel::Folder { id: *id },
            Node::File { id, date, thumbnail, size } => NodeModel::File {
                id: *id,
                date: date@,
                thumbnail: thumbnail@,
                size: *size,
            },
        }
    }
}

/// The names and inodes of a directory's children, later ones winning.
closed spec fn child_map(v: Seq<Child>) -> Map<Seq<char>, u64>
    decreases v.len(),
{
    if v.len() == 0 {
        Map::empty()
    } else {
        child_map(v.drop_last()).insert(v.last().name@, v.last().ino)
    }
}

closed spec fn names_unique(v: Seq<Child>) -> bool {
    forall|i: int, j: int| 0 <= i < j < v.len() ==> v[i].name@ != v[j].name@
}

/// The children that a directory's model lists (none before its first listing).
pub open spec fn dir_children(m: VfsModel, d: u64) -> Map<Seq<char>, u64> {
    if m.children.contains_key(d) {
        m.children[d]
    } else {
        Map::empty()
    }
}

/// The kind a node is listed with; an inode without a node counts as a file.
pub open spec fn kind_of(m: VfsModel, ino: u64) -> NodeKind {
    if m.nodes.contains_key(ino) && m.nodes[ino] is Folder {
        NodeKind::Directory
    } else {
        NodeKind::RegularFile
    }
}

/// The size the table knows for a library file id.
pub open spec fn known_size(m: VfsModel, id: u64) -> Option<u64> {
    if m.files.contains_key(id) && m.nodes.contains_key(m.files[id]) {
        match m.nodes[m.files[id]] {
            NodeModel::File { size, .. } => size,
            NodeModel::Folder { .. } => None,
        }
    } else {
        None
    }
}

/// The node a listing entry becomes; a file keeps a size learned before.
pub open spec fn entry_node(m: VfsModel, e: Entry) -> NodeModel {
    match e {
        Entry::Folder { id, .. } => NodeModel::Folder { id },
        Entry::File { id, date, thumbnail, .. } => NodeModel::File {
            id,
            date: date@,
            thumbnail: thumbnail@,
            size: known_size(m, id),
        },
    }
}

/// The inode of a listing entry, and the model after giving a new library item
/// the next free inode.
pub open spec fn entry_inode(m: VfsModel, e: Entry) -> (u64, VfsModel) {
    match e {
        Entry::Folder { id, .. } => if m.folders.contains_key(id) {
            (m.folders[id], m)
        } else {
            (
                m.next_ino as u64,
                VfsModel { folders: m.folders.insert(id, m.next_ino as u64), next_ino: m.next_ino + 1, ..m },
            )
        },
        Entry::File { id, .. } => if m.files.contains_key(id) {
            (m.files[id], m)
        } else {
            (
                m.next_ino as u64,
                VfsModel { files: m.files.insert(id, m.next_ino as u64), next_ino: m.next_ino + 1, ..m },
            )
        },
    }
}

/// Records one listing entry under the name `name` in directory `dir`.
pub open spec fn apply_entry(m: VfsModel, dir: u64, e: Entry, name: Seq<char>) -> VfsModel {
    let (ino, m1) = entry_inode(m, e);
    VfsModel {
        nodes: m1.nodes.insert(ino, entry_node(m, e)),
        children: m1.children.insert(dir, dir_children(m1, dir).insert(name, ino)),
        ..m1
    }
}

/// Records listing entries in order.
pub open spec fn apply_entries(m: VfsModel, dir: u64, es: Seq<Entry>, names: Seq<Seq<char>>) -> VfsModel
    decreases es.len(),
{
    if es.len() == 0 {
        m
    } else {
        apply_entry(
            apply_entries(m, dir, es.drop_last(), names.take(es.len() - 1)),
            dir,
            es.last(),
            names[es.len() - 1],
        )
    }
}

/// The name an entry is shown with before collisions are resolved.
pub open spec fn raw_display_name(e: Entry) -> Seq<char> {
    match e {
        Entry::Folder { name, .. } => sanitized(name@),
        Entry::File { name, thumbnail, .. } => displayed_file_name(name@, thumbnail@),
    }
}

/// The names a listing's entries are shown with before collisions are
/// resolved, in listing order.
pub open spec fn raw_display_names(es: Seq<Entry>) -> Seq<Seq<char>> {
    es.map_values(|e: Entry| raw_display_name(e))
}

/// The names a listing's entries are shown with, in listing order.
pub open spec fn display_names(es: Seq<Entry>) -> Seq<Seq<char>> {
    let raw = raw_display_names(es);
    Seq::new(es.len(), |k: int| resolved_name(raw, k))
}

/// The model after a directory has been listed at time `now`: its children are
/// rebuilt from the entries, in listing order.
pub open spec fn listed(m: VfsModel, dir: u64, es: Seq<Entry>, now: u128) -> VfsModel {
    let m0 = VfsModel { children: m.children.insert(dir, Map::empty()), ..m };
    let m1 = apply_entries(m0, dir, es, display_names(es));
    VfsModel { listed_at: m1.listed_at.insert(dir, now), ..m1 }
}

/// Whether a listing taken at `at` is still fresh at `now`.
pub open spec fn fresh(m: VfsModel, at: u128, now: u128) -> bool {
    now - at <= m.meta_ttl
}

/// What listing a directory needs first: nothing when its listing is fresh,
/// else the library folder to fetch.
pub open spec fn listing_due_spec(m: VfsModel, ino: u64, now: u128) -> Result<Option<u64>, VfsError> {
    if !m.nodes.contains_key(ino) {
        Err(VfsError::NotFound)
    } else {
        match m.nodes[ino] {
            NodeModel::File { .. } => Err(VfsError::Io),
            NodeModel::Folder { id } => if m.listed_at.contains_key(ino) && fresh(
                m,
                m.listed_at[ino],
                now,
            ) {
                Ok(None)
            } else {
                Ok(Some(id))
            },
        }
    }
}

/// The inode of the child `name` of `parent`.
pub open spec fn lookup_spec(m: VfsModel, parent: u64, name: Seq<char>) -> Result<u64, VfsError> {
    if dir_children(m, parent).contains_key(name) {
        Ok(dir_children(m, parent)[name])
    } else {
        Err(VfsError::NotFound)
    }
}

/// `out` lists the children of `dir`: each once, sorted by name.
pub open spec fn readdir_spec(m: VfsModel, dir: u64, out: Seq<DirEntry>) -> bool {
    &&& forall|i: int, j: int| 0 <= i < j < out.len() ==> lex_lt(out[i].name@, out[j].name@)
    &&& forall|i: int|
        0 <= i < out.len() ==> {
            &&& dir_children(m, dir).contains_key(#[trigger] out[i].name@)
            &&& dir_children(m, dir)[out[i].name@] == out[i].ino
            &&& out[i].kind == kind_of(m, out[i].ino)
        }
    &&& forall|n: Seq<char>|
        dir_children(m, dir).contains_key(n) ==> exists|i: int| 0 <= i < out.len() && #[trigger] out[i].name@ == n
}

/// The library file a size must be fetched for before a node's attributes
/// are complete.
pub open spec fn size_needed_spec(m: VfsModel, ino: u64) -> Result<Option<u64>, VfsError> {
    if !m.nodes.contains_key(ino) {
        Err(VfsError::NotFound)
    } else {
        match m.nodes[ino] {
            NodeModel::File { id, size: None, .. } => Ok(Some(id)),
            _ => Ok(None),
        }
    }
}

/// The model after learning that the file at `ino` has `size` bytes.
pub open spec fn with_size(m: VfsModel, ino: u64, size: u64) -> VfsModel {
    if m.nodes.contains_key(ino) {
        match m.nodes[ino] {
            NodeModel::File { id, date, thumbnail, .. } => VfsModel {
                nodes: m.nodes.insert(ino, NodeModel::File { id, date, thumbnail, size: Some(size) }),
                ..m
            },
            NodeModel::Folder { .. } => m,
        }
    } else {
        m
    }
}

/// The attributes of a node: folders are empty directories dated at the epoch,
/// files have their known size (0 until fetched) and their listing date. A
/// date whose arithmetic would overflow is an I/O error.
pub open spec fn getattr_spec(m: VfsModel, ino: u64) -> Result<(u64, NodeKind, u64), VfsError> {
    if !m.nodes.contains_key(ino) {
        Err(VfsError::NotFound)
    } else {
        match m.nodes[ino] {
            NodeModel::Folder { .. } => Ok((0, NodeKind::Directory, 0)),
            NodeModel::File { date, size, .. } => if !date_arith_fits(date) {
                Err(VfsError::Io)
            } else {
                Ok(
                    (
                        match size {
                            Some(s) => s,
                            None => 0,
                        },
                        NodeKind::RegularFile,
                        match date_seconds(date) {
                            Some(s) => s,
                            None => 0,
                        },
                    ),
                )
            },
        }
    }
}

/// The library file and listing date that reading a node needs.
pub open spec fn read_target_spec(m: VfsModel, ino: u64) -> Result<(u64, Seq<char>), VfsError> {
    if !m.nodes.contains_key(ino) {
        Err(VfsError::NotFound)
    } else {
        match m.nodes[ino] {
            NodeModel::File { id, date, .. } => Ok((id, date)),
            NodeModel::Folder { .. } => Err(VfsError::Io),
        }
    }
}

/// The names a listing's entries are shown with before collisions are
/// resolved, in listing order.
fn shown_names(entries: &Vec<Entry>) -> (r: Vec<String>)
    ensures
        string_views(r@) == raw_display_names(entries@),
{
    let n = entries.len();
    let mut raw: Vec<String> = Vec::new();
    let mut k: usize = 0;
    while k < n
        invariant
            n == entries@.len(),
            k <= n,
            raw@.len() == k,
            forall|j: int| 0 <= j < k ==> #[trigger] raw@[j]@ == raw_display_name(entries@[j]),
        decreases n - k,
    {
        let nm = match &entries[k] {
            Entry::Folder { name, .. } => sanitize_name(name.as_str()),
            Entry::File { name, thumbnail, .. } => file_display_name(
                name.as_str(),
                thumbnail.as_str(),
            ),
        };
        raw.push(nm);
        k = k + 1;
    }
    assert(string_views(raw@) =~= raw_display_names(entries@));
    raw
}

/// The inode table and listing state of a mounted library.
pub struct Vfs {
    next_ino: u64,
    nodes: HashMap<u64, Node>,
    folder_ino: HashMap<u64, u64>,
    file_ino: HashMap<u64, u64>,
    dirs: HashMap<u64, Vec<Child>>,
    listed_at: HashMap<u64, u128>,
    meta_ttl: u128,
    uid: u32,
    gid: u32,
}

impl View for Vfs {
    type V = VfsModel;

    closed spec fn view(&self) -> VfsModel {
        VfsModel {
            next_ino: self.next_ino as nat,
            nodes: Map::new(
                |i: u64| self.nodes@.contains_key(i),
                |i: u64| self.nodes@[i].model(),
            ),
            folders: self.folder_ino@,
            files: self.file_ino@,
            children: Map::new(
                |d: u64| self.dirs@.contains_key(d),
                |d: u64| child_map(self.dirs@[d]@),
            ),
            listed_at: self.listed_at@,
            meta_ttl: self.meta_ttl,
            uid: self.uid,
            gid: self.gid,
        }
    }
}

/// The invariant of the table's model: inodes and library ids correspond one
/// to one, the root is a folder, and every node has an inode below `next_ino`.
pub open spec fn model_wf(m: VfsModel) -> bool {
    &&& 2 <= m.next_ino <= u64::MAX + 1
    &&& m.nodes.contains_key(root_ino())
    &&& m.nodes[root_ino()] is Folder
    &&& forall|i: u64| #[trigger] m.nodes.contains_key(i) ==> 1 <= i < m.next_ino
    &&& forall|id: u64|
        #[trigger] m.folders.contains_key(id) ==> m.nodes.contains_key(m.folders[id])
            && m.nodes[m.folders[id]] == (NodeModel::Folder { id })
    &&& forall|id: u64|
        #[trigger] m.files.contains_key(id) ==> m.nodes.contains_key(m.files[id])
            && m.nodes[m.files[id]] is File && m.nodes[m.files[id]]->File_id == id
    &&& forall|i: u64|
        #[trigger] m.nodes.contains_key(i) ==> match m.nodes[i] {
            NodeModel::Folder { id } => m.folders.contains_key(id) && m.folders[id] == i,
            NodeModel::File { id, .. } => m.files.contains_key(id) && m.files[id] == i,
        }
    &&& forall|d: u64, n: Seq<char>|
        #[trigger] dir_children(m, d).contains_key(n) ==> m.nodes.contains_key(
            dir_children(m, d)[n],
        )
}

impl Vfs {
    /// The table's invariant.
    pub closed spec fn wf(&self) -> bool {
        &&& model_wf(self@)
        &&& forall|d: u64| #[trigger] self.dirs@.contains_key(d) ==> names_unique(self.dirs@[d]@)
    }

    /// A table that keeps its invariant has a well-formed model, so the laws
    /// stated over `model_wf` models apply to the table a caller holds.
    pub proof fn lemma_model_wf(&self)
        requires
            self.wf(),
        ensures
            model_wf(self@),
    {
    }

    /// An empty table whose root inode stands for the library folder
    /// `root_folder_id`; listings stay fresh for `meta_ttl`.
    pub fn new(root_folder_id: u64, meta_ttl: Duration, uid: u32, gid: u32) -> (v: Vfs)
        ensures
            v.wf(),
            v@ == (VfsModel {
                next_ino: 2,
                nodes: Map::empty().insert(root_ino(), NodeModel::Folder { id: root_folder_id }),
                folders: Map::empty().insert(root_folder_id, root_ino()),
                files: Map::empty(),
                children: Map::empty(),
                listed_at: Map::empty(),
                meta_ttl: nanos_of(meta_ttl),
                uid,
                gid,
            }),
    {
        let root = fuse_root_id();
        let mut nodes: HashMap<u64, Node> = HashMap::new();
        nodes.insert(root, Node::Folder { id: root_folder_id });
        let mut folder_ino: HashMap<u64, u64> = HashMap::new();
        folder_ino.insert(root_folder_id, root);
        let v = Vfs {
            next_ino: 2,
            nodes,
            folder_ino,
            file_ino: HashMap::new(),
            dirs: HashMap::new(),
            listed_at: HashMap::new(),
            meta_ttl: duration_nanos(&meta_ttl),
            uid,
            gid,
        };
        assert(v@.nodes =~= Map::empty().insert(root_ino(), NodeModel::Folder { id: root_folder_id }));
        assert(v@.children =~= Map::<u64, Map<Seq<char>, u64>>::empty());
        assert forall|d: u64, n: Seq<char>| #[trigger] dir_children(v@, d).contains_key(n) implies v@.nodes.contains_key(dir_children(v@, d)[n]) by {
            assert(!v@.children.contains_key(d));
        }
        v
    }

    pub fn uid(&self) -> (r: u32)
        ensures
            r == self@.uid,
    {
        self.uid
    }

    pub fn gid(&self) -> (r: u32)
        ensures
            r == self@.gid,
    {
        self.gid
    }

    /// What listing the directory `ino` needs before its children can be read:
    /// `Ok(None)` when its last listing is still fresh at `now`, else the
    /// library folder to fetch; a file is an I/O error, an unknown inode is
    /// not found.
    pub fn listing_due(&self, ino: u64, now: u128) -> (r: Result<Option<u64>, VfsError>)
        requires
            self.wf(),
        ensures
            r == listing_due_spec(self@, ino, now),
    {
        let folder_id = match self.nodes.get(&ino) {
            Some(Node::Folder { id }) => *id,
            Some(Node::File { .. }) => return Err(VfsError::Io),
            None => return Err(VfsError::NotFound),
        };
        match self.listed_at.get(&ino) {
            Some(at) => {
                if now <= *at || now - *at <= self.meta_ttl {
                    return Ok(None);
                }
            },
            None => {},
        }
        Ok(Some(folder_id))
    }

    /// The inode of the child `name` of `parent`, as last listed.
    pub fn lookup(&self, parent: u64, name: &str) -> (r: Result<u64, VfsError>)
        requires
            self.wf(),
        ensures
            r == lookup_spec(self@, parent, name@),
    {
        let want = chars_vec(name);
        match self.dirs.get(&parent) {
            None => Err(VfsError::NotFound),
            Some(v) => {
                let mut i: usize = 0;
                while i < v.len()
                    invariant
                        i <= v@.len(),
                        self.wf(),
                        self.dirs@.contains_key(parent),
                        v@ == self.dirs@[parent]@,
                        want@ == name@,
                        forall|j: int| 0 <= j < i ==> v@[j].name@ != want@,
                    decreases v@.len() - i,
                {
                    if name_is(&v[i], &want) {
                        proof {
                            lemma_child_map_lookup(v@, i as int);
                            assert(dir_children(self@, parent) == child_map(v@));
                        }
                        return Ok(v[i].ino);
                    }
                    i = i + 1;
                }
                proof {
                    lemma_child_map_absent(v@, want@);
                    assert(self@.children[parent] == child_map(v@));
                }
                Err(VfsError::NotFound)
            },
        }
    }

    /// The kind of the node at `ino`.
    fn kind_at(&self, ino: u64) -> (k: NodeKind)
        requires
            self.wf(),
        ensures
            k == kind_of(self@, ino),
    {
        match self.nodes.get(&ino) {
            Some(Node::Folder { .. }) => NodeKind::Directory,
            _ => NodeKind::RegularFile,
        }
    }

    /// The children of the directory `ino` as last listed, sorted by name.
    pub fn readdir(&self, ino: u64) -> (r: Vec<DirEntry>)
        requires
            self.wf(),
        ensures
            readdir_spec(self@, ino, r@),
    {
        let mut out: Vec<DirEntry> = Vec::new();
        match self.dirs.get(&ino) {
            None => {
                assert(dir_children(self@, ino) =~= Map::<Seq<char>, u64>::empty());
                out
            },
            Some(v) => {
                let ghost m = self@;
                assert(dir_children(m, ino) == child_map(v@));
                let mut i: usize = 0;
                while i < v.len()
                    invariant
                        i <= v@.len(),
                        self.wf(),
                        m == self@,
                        self.dirs@.contains_key(ino),
                        v@ == self.dirs@[ino]@,
                        names_unique(v@),
                        sorted_by_name(out@),
                        forall|k: int| 0 <= k < out@.len() ==> listed_child(v@, i as int, #[trigger] out@[k]),
                        forall|k: int|
                            0 <= k < out@.len() ==> #[trigger] out@[k].kind == kind_of(m, out@[k].ino),
                        forall|j: int| 0 <= j < i ==> has_name(out@, #[trigger] v@[j].name@),
                    decreases v@.len() - i,
                {
                    let name = v[i].name.clone();
                    let cino = v[i].ino;
                    let kind = self.kind_at(cino);
                    let e = DirEntry { ino: cino, name, kind };
                    proof {
                        assert forall|k: int| 0 <= k < out@.len() implies out@[k].name@
                            != e.name@ by {
                            assert(listed_child(v@, i as int, out@[k]));
                            let j = choose|j: int|
                                0 <= j < i && v@[j].name@ == out@[k].name@ && v@[j].ino == out@[k].ino;
                        }
                    }
                    let ghost prev = out@;
                    insert_sorted(&mut out, e);
                    proof {
                        let p = choose|p: int| 0 <= p <= prev.len() && out@ == prev.insert(p, e);
                        assert forall|k: int| 0 <= k < out@.len() implies listed_child(
                            v@,
                            i + 1,
                            #[trigger] out@[k],
                        ) by {
                            if k < p {
                                assert(out@[k] == prev[k]);
                                assert(listed_child(v@, i as int, prev[k]));
                            } else if k == p {
                                assert(v@[i as int].name@ == out@[k].name@);
                            } else {
                                assert(out@[k] == prev[k - 1]);
                                assert(listed_child(v@, i as int, prev[k - 1]));
                            }
                        }
                        assert forall|k: int| 0 <= k < out@.len() implies #[trigger] out@[k].kind
                            == kind_of(m, out@[k].ino) by {
                            if k < p {
                                assert(out@[k] == prev[k]);
                            } else if k > p {
                                assert(out@[k] == prev[k - 1]);
                            }
                        }
                        assert forall|j: int| 0 <= j < i + 1 implies has_name(
                            out@,
                            #[trigger] v@[j].name@,
                        ) by {
                            if j == i {
                                assert(out@[p].name@ == v@[j].name@);
                            } else {
                                assert(has_name(prev, v@[j].name@));
                                let k = choose|k: int| 0 <= k < prev.len() && prev[k].name@ == v@[j].name@;
                                if k < p {
                                    assert(out@[k] == prev[k]);
                                } else {
                                    assert(out@[k + 1] == prev[k]);
                                }
                            }
                        }
                    }
                    i = i + 1;
                }
                proof {
                    assert forall|k: int| 0 <= k < out@.len() implies {
                        &&& dir_children(m, ino).contains_key(#[trigger] out@[k].name@)
                        &&& dir_children(m, ino)[out@[k].name@] == out@[k].ino
                        &&& out@[k].kind == kind_of(m, out@[k].ino)
                    } by {
                        assert(listed_child(v@, i as int, out@[k]));
                        let j = choose|j: int|
                            0 <= j < i && v@[j].name@ == out@[k].name@ && v@[j].ino == out@[k].ino;
                        lemma_child_map_lookup(v@, j);
                    }
                    assert forall|n: Seq<char>| dir_children(m, ino).contains_key(n) implies exists|k: int|
                        0 <= k < out@.len() && #[trigger] out@[k].name@ == n by {
                        let j = lemma_child_map_key(v@, n);
                        assert(has_name(out@, v@[j].name@));
                    }
                }
                out
            },
        }
    }

    /// Records a fresh listing of the directory `ino` as `apply_listing` does,
    /// when the table can take it: the new library items need inode numbers
    /// within `u64`, and no shown name may occur more than `u32::MAX` times (its
    /// collision counter is a `u32`). Otherwise the table is left as it was and
    /// `false` is returned.
    pub fn record_listing(&mut self, ino: u64, entries: Vec<Entry>, now: u128) -> (recorded: bool)
        requires
            old(self).wf(),
        ensures
            final(self).wf(),
            recorded == (old(self)@.next_ino + entries@.len() <= u64::MAX && forall|i: int|
                0 <= i < entries@.len() ==> #[trigger] crate::names::occurrence(
                    raw_display_names(entries@),
                    i,
                ) <= u32::MAX),
            recorded ==> final(self)@ == listed(old(self)@, ino, entries@, now),
            !recorded ==> final(self)@ == old(self)@,
    {
        let n = entries.len();
        if self.next_ino > u64::MAX - n as u64 {
            return false;
        }
        if n > u32::MAX as usize {
            let raw = shown_names(&entries);
            if !occurrences_fit(&raw) {
                return false;
            }
        } else {
            proof {
                let raw = raw_display_names(entries@);
                assert forall|i: int| 0 <= i < entries@.len() implies #[trigger] crate::names::occurrence(
                    raw,
                    i,
                ) <= u32::MAX by {
                    lemma_occurrence_bound(raw, i);
                }
            }
        }
        self.apply_listing(ino, entries, now);
        true
    }

    /// Records a fresh listing of the directory `ino`, fetched at `now`: its
    /// children are rebuilt from `entries` in listing order under their display
    /// names (collisions resolved); library items seen before keep their
    /// inodes, new ones get the next free inodes, and files keep a size
    /// learned before.
    pub fn apply_listing(&mut self, ino: u64, entries: Vec<Entry>, now: u128)
        requires
            old(self).wf(),
            old(self)@.next_ino + entries@.len() <= u64::MAX,
            forall|i: int|
                0 <= i < entries@.len() ==> #[trigger] crate::names::occurrence(
                    raw_display_names(entries@),
                    i,
                ) <= u32::MAX,
        ensures
            final(self).wf(),
            final(self)@ == listed(old(self)@, ino, entries@, now),
    {
        let ghost m_old = self@;
        let ghost es = entries@;
        let n = entries.len();
        let raw = shown_names(&entries);
        let ghost rawv = raw_display_names(es);
        assert(string_views(raw@) =~= rawv);
        let names = resolve_collisions(raw);
        let ghost ns = display_names(es);
        assert forall|j: int| 0 <= j < n implies #[trigger] names@[j]@ == ns[j] by {}
        let ghost m0 = VfsModel { children: m_old.children.insert(ino, Map::empty()), ..m_old };
        self.dirs.insert(ino, Vec::new());
        proof {
            assert(child_map(Seq::<Child>::empty()) =~= Map::<Seq<char>, u64>::empty());
            assert(self@.children =~= m0.children);
            assert(self@ =~= m0);
            assert(es.take(0) =~= Seq::<Entry>::empty());
            lemma_clear_dir_wf(m_old, ino);
        }
        // Reverse once, so that popping from the end yields the items in order
        // and each can be moved out without a copy.
        let mut src = entries;
        let mut rest: Vec<Entry> = Vec::new();
        while src.len() > 0
            invariant
                src@.len() + rest@.len() == es.len(),
                forall|j: int| 0 <= j < src@.len() ==> #[trigger] src@[j] == es[j],
                forall|j: int| 0 <= j < rest@.len() ==> #[trigger] rest@[j] == es[es.len() - 1 - j],
            decreases src@.len(),
        {
            let e = src.pop().unwrap();
            rest.push(e);
        }
        let mut k: usize = 0;
        while k < n
            invariant
                n == es.len(),
                k <= n,
                k + rest@.len() == n,
                forall|j: int| 0 <= j < rest@.len() ==> #[trigger] rest@[j] == es[n - 1 - j],
                names@.len() == n,
                forall|j: int| 0 <= j < n ==> #[trigger] names@[j]@ == ns[j],
                ns.len() == n,
                self.wf(),
                self.dirs@.contains_key(ino),
                self@ == apply_entries(m0, ino, es.take(k as int), ns.take(k as int)),
                self@.next_ino + (n - k) <= u64::MAX,
            decreases n - k,
        {
            let ghost m = self@;
            let e = rest.pop().unwrap();
            assert(e == es[k as int]);
            let name = names[k].clone();
            proof {
                assert(es.take(k + 1).drop_last() =~= es.take(k as int));
                assert(ns.take(k + 1).take(k as int) =~= ns.take(k as int));
                assert(es.take(k + 1).last() == e);
                assert(ns.take(k + 1)[k as int] == name@);
            }
            self.record_entry(ino, e, name);
            k = k + 1;
        }
        assert(es.take(n as int) =~= es);
        assert(ns.take(n as int) =~= ns);
        let ghost m1 = self@;
        assert(model_wf(m1));
        self.listed_at.insert(ino, now);
        proof {
            assert(self@ =~= VfsModel { listed_at: m1.listed_at.insert(ino, now), ..m1 });
            lemma_listed_at_wf(m1, m1.listed_at.insert(ino, now));
        }
    }

    /// Records one listing entry under `name` in the directory `dir`.
    fn record_entry(&mut self, dir: u64, e: Entry, name: String)
        requires
            old(self).wf(),
            old(self).dirs@.contains_key(dir),
            old(self)@.next_ino + 1 <= u64::MAX,
        ensures
            final(self).wf(),
            final(self).dirs@.contains_key(dir),
            final(self)@ == apply_entry(old(self)@, dir, e, name@),
            final(self)@.next_ino <= old(self)@.next_ino + 1,
    {
        let ghost m = self@;
        let ghost (gino, m1) = entry_inode(m, e);
        let ghost node_m = entry_node(m, e);
        let (child_ino, node) = match e {
            Entry::Folder { id, .. } => {
                let ci = match self.folder_ino.get(&id) {
                    Some(ci) => *ci,
                    None => {
                        let ci = self.next_ino;
                        self.next_ino = self.next_ino + 1;
                        self.folder_ino.insert(id, ci);
                        ci
                    },
                };
                (ci, Node::Folder { id })
            },
            Entry::File { id, date, thumbnail, .. } => {
                let prev_size = match self.file_ino.get(&id) {
                    Some(ci) => match self.nodes.get(ci) {
                        Some(Node::File { size, .. }) => *size,
                        _ => None,
                    },
                    None => None,
                };
                assert(prev_size == known_size(m, id));
                let ci = match self.file_ino.get(&id) {
                    Some(ci) => *ci,
                    None => {
                        let ci = self.next_ino;
                        self.next_ino = self.next_ino + 1;
                        self.file_ino.insert(id, ci);
                        ci
                    },
                };
                (ci, Node::File { id, date, thumbnail, size: prev_size })
            },
        };
        assert(child_ino == gino);
        assert(node.model() == node_m);
        let ghost m_alloc = self@;
        assert(m_alloc =~= m1);
        self.nodes.insert(child_ino, node);
        let mut v = self.dirs.remove(&dir).unwrap();
        let ghost vo = v@;
        assert(names_unique(vo));
        let want = chars_vec(name.as_str());
        let mut i: usize = 0;
        while i < v.len() && !name_is(&v[i], &want)
            invariant
                v@ == vo,
                i <= v@.len(),
                want@ == name@,
                forall|j: int| 0 <= j < i ==> v@[j].name@ != want@,
            decreases v@.len() - i,
        {
            i = i + 1;
        }
        let found = i < v.len();
        if found {
            v.set(i, Child { name, ino: child_ino });
            proof {
                lemma_child_map_update(vo, i as int, v@[i as int]);
            }
        } else {
            proof {
                lemma_child_map_absent(vo, name@);
            }
            v.push(Child { name, ino: child_ino });
            assert(v@.drop_last() =~= vo);
            assert(names_unique(v@)) by {
                assert forall|a: int, b: int| 0 <= a < b < v@.len() implies v@[a].name@
                    != v@[b].name@ by {
                    if b == v@.len() - 1 {
                        assert(v@[a] == vo[a]);
                    } else {
                        assert(v@[a] == vo[a]);
                        assert(v@[b] == vo[b]);
                    }
                }
            }
        }
        let ghost dirs_before = self.dirs@;
        self.dirs.insert(dir, v);
        assert forall|d: u64| #[trigger] self.dirs@.contains_key(d) implies names_unique(self.dirs@[d]@) by {
            if d != dir {
                assert(self.dirs@[d] == dirs_before[d]);
            }
        }
        proof {
            let m2 = apply_entry(m, dir, e, name@);
            assert(self@.nodes =~= m2.nodes);
            assert(child_map(v@) =~= dir_children(m1, dir).insert(name@, gino));
            assert(self@.children =~= m2.children);
            assert(self@ =~= m2);
            lemma_apply_entry_wf(m, dir, e, name@);
        }
    }

    /// Which library file a size must be fetched for before the attributes of
    /// `ino` are complete.
    pub fn size_needed(&self, ino: u64) -> (r: Result<Option<u64>, VfsError>)
        requires
            self.wf(),
        ensures
            r == size_needed_spec(self@, ino),
    {
        match self.nodes.get(&ino) {
            None => Err(VfsError::NotFound),
            Some(Node::File { id, size: None, .. }) => Ok(Some(*id)),
            Some(_) => Ok(None),
        }
    }

    /// Records the size of the file at `ino`; other nodes are left alone.
    pub fn record_size(&mut self, ino: u64, size: u64)
        requires
            old(self).wf(),
        ensures
            final(self).wf(),
            final(self)@ == with_size(old(self)@, ino, size),
    {
        let ghost m = self@;
        match self.nodes.remove(&ino) {
            None => {
                assert(self@ =~= m);
            },
            Some(n) => {
                let n2 = match n {
                    Node::File { id, date, thumbnail, size: _ } => Node::File {
                        id,
                        date,
                        thumbnail,
                        size: Some(size),
                    },
                    other => other,
                };
                self.nodes.insert(ino, n2);
                assert(self@.nodes =~= with_size(m, ino, size).nodes);
                assert(self@ =~= with_size(m, ino, size));
                proof {
                    lemma_with_size_wf(m, ino, size);
                }
            },
        }
    }

    /// The attributes of `ino`.
    pub fn getattr(&self, ino: u64) -> (r: Result<Attr, VfsError>)
        requires
            self.wf(),
        ensures
            match r {
                Ok(a) => getattr_spec(self@, ino) matches Ok((s, k, t)) && a.ino == ino && a.size
                    == s && a.kind == k && a.mtime == unix_time(t),
                Err(e) => getattr_spec(self@, ino) == Err::<(u64, NodeKind, u64), VfsError>(e),
            },
    {
        match self.nodes.get(&ino) {
            None => Err(VfsError::NotFound),
            Some(Node::Folder { .. }) => Ok(
                Attr { ino, size: 0, kind: NodeKind::Directory, mtime: time_from_unix_secs(0) },
            ),
            Some(Node::File { date, size, .. }) => {
                if !condo_date_fits(date.as_str()) {
                    return Err(VfsError::Io);
                }
                let sz = match size {
                    Some(s) => *s,
                    None => 0,
                };
                Ok(
                    Attr {
                        ino,
                        size: sz,
                        kind: NodeKind::RegularFile,
                        mtime: parse_condo_date(date.as_str()),
                    },
                )
            },
        }
    }

    /// The library file id and listing date of the file at `ino`, which key
    /// its cached content.
    pub fn read_target(&self, ino: u64) -> (r: Result<(u64, String), VfsError>)
        requires
            self.wf(),
        ensures
            match r {
                Ok((id, date)) => read_target_spec(self@, ino) == Ok::<(u64, Seq<char>), VfsError>((id, date@)),
                Err(e) => read_target_spec(self@, ino) == Err::<(u64, Seq<char>), VfsError>(e),
            },
    {
        match self.nodes.get(&ino) {
            Some(Node::File { id, date, .. }) => Ok((*id, date.clone())),
            Some(Node::Folder { .. }) => Err(VfsError::Io),
            None => Err(VfsError::NotFound),
        }
    }
}

/// Permission bits and link count a node is shown with: read-only for
/// everyone, directories also searchable.
pub fn mode_of(kind: NodeKind) -> (r: (u16, u32))
    ensures
        r == match kind {
            NodeKind::Directory => (0o555u16, 2u32),
            NodeKind::RegularFile => (0o444u16, 1u32),
        },
{
    match kind {
        NodeKind::Directory => (0o555, 2),
        NodeKind::RegularFile => (0o444, 1),
    }
}

/// The number of 512-byte blocks `size` bytes take (`u64::div_ceil`).
pub fn block_count(size: u64) -> (r: u64)
    ensures
        r == (size + 511) / 512,
{
    let q = size / 512;
    if size % 512 == 0 {
        q
    } else {
        q + 1
    }
}

/// A read offset as FUSE hands it: a negative one reads from the start.
pub fn read_offset(offset: i64) -> (r: u64)
    ensures
        r == if offset < 0 {
            0
        } else {
            offset as int
        },
{
    if offset < 0 {
        0
    } else {
        offset as u64
    }
}

/// How many bytes a read of `size` bytes at `offset` returns from content of
/// `len` bytes: none past the end, else as many as there are up to `size`.
pub fn read_window(len: u64, offset: u64, size: u32) -> (r: usize)
    ensures
        r == if offset >= len {
            0
        } else if (size as int) < len - offset {
            size as int
        } else {
            len - offset
        },
{
    if offset >= len {
        return 0;
    }
    let rest = len - offset;
    if (size as u64) < rest {
        size as usize
    } else {
        rest as usize
    }
}

/// A directory listing as FUSE reads it: `.` and `..` (both the directory
/// itself), then the children.
pub fn dir_listing(ino: u64, entries: Vec<DirEntry>) -> (r: Vec<(u64, NodeKind, String)>)
    ensures
        r@.len() == entries@.len() + 2,
        r@[0].0 == ino && r@[0].1 == NodeKind::Directory && r@[0].2@ == seq!['.'],
        r@[1].0 == ino && r@[1].1 == NodeKind::Directory && r@[1].2@ == seq!['.', '.'],
        forall|k: int|
            #![trigger r@[k]]
            2 <= k < r@.len() ==> r@[k].0 == entries@[k - 2].ino && r@[k].1 == entries@[k - 2].kind
                && r@[k].2@ == entries@[k - 2].name@,
{
    let mut out: Vec<(u64, NodeKind, String)> = Vec::new();
    proof {
        reveal_strlit(".");
        reveal_strlit("..");
    }
    out.push((ino, NodeKind::Directory, String::from_str(".")));
    out.push((ino, NodeKind::Directory, String::from_str("..")));
    let ghost es = entries@;
    let n = entries.len();
    // Reverse once, so that popping from the end yields the items in order
    // and each can be moved out without a copy.
    let mut src = entries;
    let mut rest: Vec<DirEntry> = Vec::new();
    while src.len() > 0
        invariant
            src@.len() + rest@.len() == es.len(),
            forall|j: int| 0 <= j < src@.len() ==> #[trigger] src@[j] == es[j],
            forall|j: int| 0 <= j < rest@.len() ==> #[trigger] rest@[j] == es[es.len() - 1 - j],
        decreases src@.len(),
    {
        let e = src.pop().unwrap();
        rest.push(e);
    }
    let mut k: usize = 0;
    while rest.len() > 0
        invariant
            k + rest@.len() == es.len(),
            forall|j: int| 0 <= j < rest@.len() ==> #[trigger] rest@[j] == es[es.len() - 1 - j],
            out@.len() == k + 2,
            out@[0].0 == ino && out@[0].1 == NodeKind::Directory && out@[0].2@ == seq!['.'],
            out@[1].0 == ino && out@[1].1 == NodeKind::Directory && out@[1].2@ == seq!['.', '.'],
            es.len() == n,
            forall|j: int|
                #![trigger out@[j]]
                2 <= j < k + 2 ==> out@[j].0 == es[j - 2].ino && out@[j].1 == es[j - 2].kind
                    && out@[j].2@ == es[j - 2].name@,
        decreases rest@.len(),
    {
        let e = rest.pop().unwrap();
        assert(e == es[k as int]);
        let ghost prev = out@;
        out.push((e.ino, e.kind, e.name));
        assert forall|j: int| #![trigger out@[j]] 2 <= j < k + 3 implies out@[j].0 == es[j - 2].ino
            && out@[j].1 == es[j - 2].kind && out@[j].2@ == es[j - 2].name@ by {
            if j < k + 2 {
                assert(out@[j] == prev[j]);
            } else {
                assert(j - 2 == k);
            }
        }
        k = k + 1;
    }
    out
}

/// Where a directory listing resumes for a FUSE offset (`offset as usize`).
pub fn listing_start(offset: i64) -> (r: usize)
    ensures
        r == offset as usize,
{
    offset as usize
}

/// What one listing entry changes: existing inodes stay, new ones come from
/// `next_ino`, known sizes stay, and a folder node stays a folder.
proof fn lemma_apply_entry_keeps(m: VfsModel, dir: u64, e: Entry, name: Seq<char>)
    requires
        model_wf(m),
        m.next_ino + 1 <= u64::MAX,
    ensures
        ({
            let m2 = apply_entry(m, dir, e, name);
            &&& forall|id: u64| #[trigger] m.folders.contains_key(id) ==> m2.folders.contains_key(id) && m2.folders[id] == m.folders[id]
            &&& forall|id: u64| #[trigger] m.files.contains_key(id) ==> m2.files.contains_key(id) && m2.files[id] == m.files[id]
            &&& forall|id: u64| #[trigger] m.files.contains_key(id) ==> known_size(m2, id) == known_size(m, id)
            &&& forall|i: u64| #[trigger] m.nodes.contains_key(i) ==> m2.nodes.contains_key(i)
            &&& forall|i: u64| #[trigger] m.nodes.contains_key(i) && m.nodes[i] is Folder ==> m2.nodes[i] is Folder
            &&& forall|i: u64| #[trigger] m2.nodes.contains_key(i) ==> m.nodes.contains_key(i) || m.next_ino <= i
            &&& m.next_ino <= m2.next_ino <= m.next_ino + 1
            &&& m2.meta_ttl == m.meta_ttl
            &&& m2.listed_at == m.listed_at
        }),
{
    let (ino, m1) = entry_inode(m, e);
    let m2 = apply_entry(m, dir, e, name);
    assert forall|id: u64| #[trigger] m.files.contains_key(id) implies known_size(m2, id) == known_size(m, id) by {
        let fi = m.files[id];
        assert(m.nodes.contains_key(fi));
        if fi == ino {
            match e {
                Entry::File { id: eid, .. } => {
                    assert(m.nodes[ino]->File_id == id);
                    if m.files.contains_key(eid) {
                        assert(m.files[eid] == ino);
                        assert(m.nodes[m.files[eid]]->File_id == eid);
                    } else {
                        assert(ino == m.next_ino);
                    }
                },
                Entry::Folder { id: eid, .. } => {
                    if m.folders.contains_key(eid) {
                        assert(m.nodes[m.folders[eid]] == (NodeModel::Folder { id: eid }));
                    } else {
                        assert(ino == m.next_ino);
                    }
                },
            }
        }
    }
    assert forall|i: u64| #[trigger] m.nodes.contains_key(i) && m.nodes[i] is Folder implies m2.nodes[i] is Folder by {
        if i == ino {
            match e {
                Entry::File { id: eid, .. } => {
                    if m.files.contains_key(eid) {
                        assert(m.nodes[m.files[eid]] is File);
                    } else {
                        assert(ino == m.next_ino);
                    }
                },
                Entry::Folder { .. } => {},
            }
        }
    }
}

/// What a sequence of listing entries changes, as `lemma_apply_entry_keeps`.
proof fn lemma_apply_entries_keeps(m: VfsModel, dir: u64, es: Seq<Entry>, ns: Seq<Seq<char>>)
    requires
        model_wf(m),
        m.next_ino + es.len() <= u64::MAX,
    ensures
        ({
            let m2 = apply_entries(m, dir, es, ns);
            &&& model_wf(m2)
            &&& forall|id: u64| #[trigger] m.folders.contains_key(id) ==> m2.folders.contains_key(id) && m2.folders[id] == m.folders[id]
            &&& forall|id: u64| #[trigger] m.files.contains_key(id) ==> m2.files.contains_key(id) && m2.files[id] == m.files[id]
            &&& forall|id: u64| #[trigger] m.files.contains_key(id) ==> known_size(m2, id) == known_size(m, id)
            &&& forall|i: u64| #[trigger] m.nodes.contains_key(i) ==> m2.nodes.contains_key(i)
            &&& forall|i: u64| #[trigger] m.nodes.contains_key(i) && m.nodes[i] is Folder ==> m2.nodes[i] is Folder
            &&& forall|i: u64| #[trigger] m2.nodes.contains_key(i) ==> m.nodes.contains_key(i) || m.next_ino <= i
            &&& m.next_ino <= m2.next_ino <= m.next_ino + es.len()
            &&& m2.meta_ttl == m.meta_ttl
            &&& m2.listed_at == m.listed_at
        }),
    decreases es.len(),
{
    if es.len() > 0 {
        lemma_apply_entries_keeps(m, dir, es.drop_last(), ns.take(es.len() - 1));
        let mp = apply_entries(m, dir, es.drop_last(), ns.take(es.len() - 1));
        lemma_apply_entry_keeps(mp, dir, es.last(), ns[es.len() - 1]);
        lemma_apply_entry_wf(mp, dir, es.last(), ns[es.len() - 1]);
    }
}

/// Relisting a directory keeps every inode the table gave before: a library
/// folder or file keeps its inode, and no inode disappears; an inode that is
/// new after the listing is one the table never gave before (at least
/// `next_ino`, which is above every inode given so far and above the root).
pub proof fn law_listing_keeps_inodes(m: VfsModel, dir: u64, es: Seq<Entry>, now: u128)
    requires
        model_wf(m),
        m.next_ino + es.len() <= u64::MAX,
    ensures
        ({
            let m2 = listed(m, dir, es, now);
            &&& model_wf(m2)
            &&& forall|id: u64| #[trigger] m.folders.contains_key(id) ==> m2.folders.contains_key(id) && m2.folders[id] == m.folders[id]
            &&& forall|id: u64| #[trigger] m.files.contains_key(id) ==> m2.files.contains_key(id) && m2.files[id] == m.files[id]
            &&& forall|i: u64| #[trigger] m.nodes.contains_key(i) ==> m2.nodes.contains_key(i)
            &&& forall|i: u64|
                #[trigger] m2.nodes.contains_key(i) && !m.nodes.contains_key(i) ==> m.next_ino <= i
                    && 2 <= i
        }),
{
    let m0 = VfsModel { children: m.children.insert(dir, Map::empty()), ..m };
    lemma_clear_dir_wf(m, dir);
    lemma_apply_entries_keeps(m0, dir, es, display_names(es));
    let m1 = apply_entries(m0, dir, es, display_names(es));
    lemma_listed_at_wf(m1, m1.listed_at.insert(dir, now));
}

/// Relisting keeps the size learned for a file.
pub proof fn law_listing_keeps_sizes(m: VfsModel, dir: u64, es: Seq<Entry>, now: u128, id: u64)
    requires
        model_wf(m),
        m.next_ino + es.len() <= u64::MAX,
        m.files.contains_key(id),
    ensures
        known_size(listed(m, dir, es, now), id) == known_size(m, id),
{
    let m0 = VfsModel { children: m.children.insert(dir, Map::empty()), ..m };
    lemma_clear_dir_wf(m, dir);
    lemma_apply_entries_keeps(m0, dir, es, display_names(es));
    assert(known_size(m0, id) == known_size(m, id));
}

/// A directory just listed at `now` is not fetched again while its listing is
/// fresh.
pub proof fn law_listing_fresh(m: VfsModel, dir: u64, es: Seq<Entry>, now: u128, t: u128)
    requires
        model_wf(m),
        m.next_ino + es.len() <= u64::MAX,
        m.nodes.contains_key(dir),
        m.nodes[dir] is Folder,
        t - now <= m.meta_ttl,
    ensures
        listing_due_spec(listed(m, dir, es, now), dir, t) == Ok::<Option<u64>, VfsError>(None),
{
    let m0 = VfsModel { children: m.children.insert(dir, Map::empty()), ..m };
    lemma_clear_dir_wf(m, dir);
    lemma_apply_entries_keeps(m0, dir, es, display_names(es));
}

/// A directory listed at `now` is fetched again, from its own library folder,
/// once its listing is older than the time to live.
pub proof fn law_listing_stale(m: VfsModel, dir: u64, es: Seq<Entry>, now: u128, t: u128)
    requires
        model_wf(m),
        m.next_ino + es.len() <= u64::MAX,
        m.nodes.contains_key(dir),
        m.nodes[dir] is Folder,
        t - now > m.meta_ttl,
    ensures
        listing_due_spec(listed(m, dir, es, now), dir, t) == Ok::<Option<u64>, VfsError>(
            Some(m.nodes[dir]->Folder_id),
        ),
{
    let id = m.nodes[dir]->Folder_id;
    assert(m.folders.contains_key(id) && m.folders[id] == dir);
    let m0 = VfsModel { children: m.children.insert(dir, Map::empty()), ..m };
    lemma_clear_dir_wf(m, dir);
    lemma_apply_entries_keeps(m0, dir, es, display_names(es));
    let m1 = apply_entries(m0, dir, es, display_names(es));
    assert(m1.folders.contains_key(id) && m1.folders[id] == dir);
    assert(m1.nodes[dir] == (NodeModel::Folder { id }));
}

proof fn lemma_apply_entries_names(m: VfsModel, dir: u64, es: Seq<Entry>, ns: Seq<Seq<char>>)
    requires
        dir_children(m, dir) == Map::<Seq<char>, u64>::empty(),
        ns.len() >= es.len(),
    ensures
        forall|n: Seq<char>|
            dir_children(apply_entries(m, dir, es, ns), dir).contains_key(n) <==> exists|k: int|
                0 <= k < es.len() && ns[k] == n,
    decreases es.len(),
{
    if es.len() > 0 {
        let np = ns.take(es.len() - 1);
        lemma_apply_entries_names(m, dir, es.drop_last(), np);
        let mp = apply_entries(m, dir, es.drop_last(), np);
        let (ino, m1) = entry_inode(mp, es.last());
        assert(dir_children(m1, dir) == dir_children(mp, dir));
        assert forall|n: Seq<char>|
            dir_children(apply_entries(m, dir, es, ns), dir).contains_key(n) <==> exists|k: int|
                0 <= k < es.len() && ns[k] == n by {
            if dir_children(mp, dir).contains_key(n) {
                let k = choose|k: int| 0 <= k < es.len() - 1 && np[k] == n;
                assert(ns[k] == n);
            }
            if exists|k: int| 0 <= k < es.len() && ns[k] == n {
                let k = choose|k: int| 0 <= k < es.len() && ns[k] == n;
                if k < es.len() - 1 {
                    assert(np[k] == n);
                }
            }
        }
    }
}

/// After a listing, a directory's children are named exactly by the display
/// names of the listing's entries (sanitized, with an inferred extension,
/// collisions numbered).
pub proof fn law_listing_names(m: VfsModel, dir: u64, es: Seq<Entry>, now: u128)
    ensures
        forall|n: Seq<char>|
            dir_children(listed(m, dir, es, now), dir).contains_key(n) <==> exists|k: int|
                0 <= k < es.len() && display_names(es)[k] == n,
{
    let m0 = VfsModel { children: m.children.insert(dir, Map::empty()), ..m };
    lemma_apply_entries_names(m0, dir, es, display_names(es));
    let m1 = apply_entries(m0, dir, es, display_names(es));
    assert(dir_children(listed(m, dir, es, now), dir) == dir_children(m1, dir));
}

/// Whether the model has an inode for the library item of `e`.
pub open spec fn has_entry_inode(m: VfsModel, e: Entry) -> bool {
    match e {
        Entry::Folder { id, .. } => m.folders.contains_key(id),
        Entry::File { id, .. } => m.files.contains_key(id),
    }
}

/// The inode the model gives the library item of `e`.
pub open spec fn entry_inode_in(m: VfsModel, e: Entry) -> u64 {
    match e {
        Entry::Folder { id, .. } => m.folders[id],
        Entry::File { id, .. } => m.files[id],
    }
}

proof fn lemma_apply_entries_child(m: VfsModel, dir: u64, es: Seq<Entry>, ns: Seq<Seq<char>>)
    requires
        model_wf(m),
        m.next_ino + es.len() <= u64::MAX,
        ns.len() >= es.len(),
    ensures
        ({
            let m2 = apply_entries(m, dir, es, ns);
            &&& forall|k: int| 0 <= k < es.len() ==> has_entry_inode(m2, #[trigger] es[k])
            &&& forall|k: int|
                0 <= k < es.len() && (forall|j: int| k < j < es.len() ==> ns[j] != ns[k])
                    ==> #[trigger] dir_children(m2, dir).contains_key(ns[k]) && dir_children(m2, dir)[ns[k]]
                    == entry_inode_in(m2, es[k])
        }),
    decreases es.len(),
{
    if es.len() > 0 {
        let last = es.len() - 1;
        let np = ns.take(last);
        let ep = es.drop_last();
        lemma_apply_entries_child(m, dir, ep, np);
        lemma_apply_entries_keeps(m, dir, ep, np);
        let mp = apply_entries(m, dir, ep, np);
        lemma_apply_entry_keeps(mp, dir, es[last], ns[last]);
        let m2 = apply_entries(m, dir, es, ns);
        assert(m2 == apply_entry(mp, dir, es[last], ns[last]));
        let (ino, m1) = entry_inode(mp, es[last]);
        assert(dir_children(m1, dir) == dir_children(mp, dir));
        assert(dir_children(m2, dir) == dir_children(mp, dir).insert(ns[last], ino));
        assert(m2.folders == m1.folders && m2.files == m1.files);
        assert(has_entry_inode(m2, es[last]) && entry_inode_in(m2, es[last]) == ino);
        assert forall|k: int| 0 <= k < es.len() implies has_entry_inode(m2, #[trigger] es[k]) by {
            if k < last {
                assert(ep[k] == es[k]);
                assert(has_entry_inode(mp, ep[k]));
            }
        }
        assert forall|k: int|
            0 <= k < es.len() && (forall|j: int| k < j < es.len() ==> ns[j] != ns[k]) implies
                #[trigger] dir_children(m2, dir).contains_key(ns[k]) && dir_children(m2, dir)[ns[k]]
                == entry_inode_in(m2, es[k]) by {
            if k < last {
                assert(ep[k] == es[k]);
                assert(np[k] == ns[k]);
                assert forall|j: int| k < j < ep.len() implies np[j] != np[k] by {
                    assert(np[j] == ns[j]);
                }
                assert(has_entry_inode(mp, ep[k]));
                assert(ns[last] != ns[k]);
                assert(dir_children(m2, dir)[ns[k]] == dir_children(mp, dir)[ns[k]]);
                assert(entry_inode_in(m2, es[k]) == entry_inode_in(mp, es[k]));
            }
        }
    }
}

/// After a listing, looking up a display name finds the inode of the library
/// item of the last entry shown under that name.
pub proof fn law_listing_lookup(m: VfsModel, dir: u64, es: Seq<Entry>, now: u128, k: int)
    requires
        model_wf(m),
        m.next_ino + es.len() <= u64::MAX,
        0 <= k < es.len(),
        forall|j: int| k < j < es.len() ==> display_names(es)[j] != display_names(es)[k],
    ensures
        has_entry_inode(listed(m, dir, es, now), es[k]),
        lookup_spec(listed(m, dir, es, now), dir, display_names(es)[k]) == Ok::<u64, VfsError>(
            entry_inode_in(listed(m, dir, es, now), es[k]),
        ),
{
    let m0 = VfsModel { children: m.children.insert(dir, Map::empty()), ..m };
    lemma_clear_dir_wf(m, dir);
    lemma_apply_entries_child(m0, dir, es, display_names(es));
    let m1 = apply_entries(m0, dir, es, display_names(es));
    assert(dir_children(listed(m, dir, es, now), dir) == dir_children(m1, dir));
}

/// Every child `readdir` lists is found again by `lookup` under its name, with
/// the same inode.
pub proof fn law_readdir_lookup_agree(m: VfsModel, dir: u64, out: Seq<DirEntry>, k: int)
    requires
        readdir_spec(m, dir, out),
        0 <= k < out.len(),
    ensures
        lookup_spec(m, dir, out[k].name@) == Ok::<u64, VfsError>(out[k].ino),
{
    assert(dir_children(m, dir).contains_key(out[k].name@));
}

/// Whether two listing entries stand for the same library item: both folders,
/// or both files, with the same id.
pub open spec fn same_item(a: Entry, b: Entry) -> bool {
    match (a, b) {
        (Entry::Folder { id: x, .. }, Entry::Folder { id: y, .. }) => x == y,
        (Entry::File { id: x, .. }, Entry::File { id: y, .. }) => x == y,
        _ => false,
    }
}

/// Whether the node `n` carries what the listing entry `e` says: a folder of
/// its id, or a file of its id with its listing date and icon.
pub open spec fn node_carries(n: NodeModel, e: Entry) -> bool {
    match e {
        Entry::Folder { id, .. } => n == (NodeModel::Folder { id }),
        Entry::File { id, date, thumbnail, .. } => n matches NodeModel::File {
            id: nid,
            date: ndate,
            thumbnail: nthumb,
            ..
        } && nid == id && ndate == date@ && nthumb == thumbnail@,
    }
}

proof fn lemma_apply_entries_nodes(m: VfsModel, dir: u64, es: Seq<Entry>, ns: Seq<Seq<char>>, k: int)
    requires
        model_wf(m),
        m.next_ino + es.len() <= u64::MAX,
        ns.len() >= es.len(),
        0 <= k < es.len(),
        forall|j: int| k < j < es.len() ==> !same_item(#[trigger] es[j], es[k]),
    ensures
        ({
            let m2 = apply_entries(m, dir, es, ns);
            &&& has_entry_inode(m2, es[k])
            &&& m2.nodes.contains_key(entry_inode_in(m2, es[k]))
            &&& node_carries(m2.nodes[entry_inode_in(m2, es[k])], es[k])
        }),
    decreases es.len(),
{
    let last = es.len() - 1;
    let np = ns.take(last);
    let ep = es.drop_last();
    lemma_apply_entries_keeps(m, dir, ep, np);
    let mp = apply_entries(m, dir, ep, np);
    lemma_apply_entry_keeps(mp, dir, es[last], ns[last]);
    lemma_apply_entry_wf(mp, dir, es[last], ns[last]);
    let m2 = apply_entries(m, dir, es, ns);
    assert(m2 == apply_entry(mp, dir, es[last], ns[last]));
    let (ino, m1) = entry_inode(mp, es[last]);
    assert(m2.folders == m1.folders && m2.files == m1.files);
    assert(has_entry_inode(m2, es[last]) && entry_inode_in(m2, es[last]) == ino);
    if k < last {
        assert(ep[k] == es[k]);
        assert forall|j: int| k < j < ep.len() implies !same_item(#[trigger] ep[j], ep[k]) by {
            assert(ep[j] == es[j]);
        }
        lemma_apply_entries_nodes(m, dir, ep, np, k);
        let ik = entry_inode_in(mp, es[k]);
        assert(entry_inode_in(m2, es[k]) == ik);
        assert(!same_item(es[last], es[k]));
        if ino == ik {
            match es[last] {
                Entry::Folder { id: a, .. } => {
                    if mp.folders.contains_key(a) {
                        assert(mp.nodes[mp.folders[a]] == (NodeModel::Folder { id: a }));
                    }
                },
                Entry::File { id: a, .. } => {
                    if mp.files.contains_key(a) {
                        assert(mp.nodes[mp.files[a]]->File_id == a);
                    }
                },
            }
        }
        assert(ino != ik);
        assert(m2.nodes[ik] == mp.nodes[ik]);
    }
}

/// After a listing, each entry's library item has an inode whose node carries
/// what the entry says (for the last entry of each item): a folder is a
/// folder, shown as a directory; a file carries the entry's listing date and
/// icon, whether or not it was known before, so reading it is keyed by that
/// date and its modification time is that date.
pub proof fn law_listing_entry_nodes(m: VfsModel, dir: u64, es: Seq<Entry>, now: u128, k: int)
    requires
        model_wf(m),
        m.next_ino + es.len() <= u64::MAX,
        0 <= k < es.len(),
        forall|j: int| k < j < es.len() ==> !same_item(#[trigger] es[j], es[k]),
    ensures
        ({
            let l = listed(m, dir, es, now);
            &&& has_entry_inode(l, es[k])
            &&& l.nodes.contains_key(entry_inode_in(l, es[k]))
            &&& node_carries(l.nodes[entry_inode_in(l, es[k])], es[k])
            &&& match es[k] {
                Entry::Folder { id, .. } => {
                    &&& getattr_spec(l, l.folders[id]) == Ok::<(u64, NodeKind, u64), VfsError>(
                        (0, NodeKind::Directory, 0),
                    )
                    &&& kind_of(l, l.folders[id]) == NodeKind::Directory
                },
                Entry::File { id, date, .. } => {
                    &&& read_target_spec(l, l.files[id]) == Ok::<(u64, Seq<char>), VfsError>(
                        (id, date@),
                    )
                    &&& kind_of(l, l.files[id]) == NodeKind::RegularFile
                    &&& date_arith_fits(date@) ==> (getattr_spec(l, l.files[id]) matches Ok(
                        (_, kind, t),
                    ) && kind == NodeKind::RegularFile && t == (match date_seconds(date@) {
                        Some(s) => s,
                        None => 0,
                    }))
                },
            }
        }),
{
    let m0 = VfsModel { children: m.children.insert(dir, Map::empty()), ..m };
    lemma_clear_dir_wf(m, dir);
    lemma_apply_entries_nodes(m0, dir, es, display_names(es), k);
}

/// Every name a listing shows is clean: not empty, with no `/` and no NUL.
pub proof fn law_listing_names_clean(m: VfsModel, dir: u64, es: Seq<Entry>, now: u128)
    ensures
        forall|n: Seq<char>|
            #[trigger] dir_children(listed(m, dir, es, now), dir).contains_key(n) ==> n.len() > 0
                && forall|i: int| 0 <= i < n.len() ==> n[i] != '/' && n[i] != '\0',
{
    law_listing_names(m, dir, es, now);
    let raw = raw_display_names(es);
    assert forall|n: Seq<char>|
        #[trigger] dir_children(listed(m, dir, es, now), dir).contains_key(n) implies n.len() > 0
            && forall|i: int| 0 <= i < n.len() ==> n[i] != '/' && n[i] != '\0' by {
        let k = choose|k: int| 0 <= k < es.len() && display_names(es)[k] == n;
        match es[k] {
            Entry::Folder { name, .. } => {
                crate::names::law_shown_names_clean(name@, name@);
            },
            Entry::File { name, thumbnail, .. } => {
                crate::names::law_shown_names_clean(name@, thumbnail@);
            },
        }
        crate::names::law_resolved_clean(raw, k);
        assert(n == resolved_name(raw, k));
        assert(crate::names::clean_name(n));
    }
}

/// `readdir` shows a child as a directory exactly when its node is a folder.
pub proof fn law_readdir_kinds(m: VfsModel, dir: u64, out: Seq<DirEntry>)
    requires
        model_wf(m),
        readdir_spec(m, dir, out),
    ensures
        forall|i: int|
            0 <= i < out.len() ==> m.nodes.contains_key(#[trigger] out[i].ino) && (out[i].kind
                == NodeKind::Directory <==> m.nodes[out[i].ino] is Folder),
{
    assert forall|i: int| 0 <= i < out.len() implies m.nodes.contains_key(#[trigger] out[i].ino) && (
    out[i].kind == NodeKind::Directory <==> m.nodes[out[i].ino] is Folder) by {
        assert(dir_children(m, dir).contains_key(out[i].name@));
    }
}

/// Every folder node, not only the root, is an empty directory dated at the
/// epoch; a node's attributes show a directory exactly when it is a folder.
pub proof fn law_getattr_kinds(m: VfsModel, ino: u64)
    requires
        m.nodes.contains_key(ino),
    ensures
        m.nodes[ino] is Folder ==> getattr_spec(m, ino) == Ok::<(u64, NodeKind, u64), VfsError>(
            (0, NodeKind::Directory, 0),
        ),
        getattr_spec(m, ino) matches Ok((_, kind, _)) ==> (kind == NodeKind::Directory
            <==> m.nodes[ino] is Folder),
        m.nodes[ino] is File && date_arith_fits(m.nodes[ino]->File_date) ==> getattr_spec(m, ino)
            == Ok::<(u64, NodeKind, u64), VfsError>(
            (
                match m.nodes[ino]->File_size {
                    Some(s) => s,
                    None => 0,
                },
                NodeKind::RegularFile,
                match date_seconds(m.nodes[ino]->File_date) {
                    Some(t) => t,
                    None => 0,
                },
            ),
        ),
{
}

/// Once a file's size is recorded, its attributes show that size and no size
/// is needed for it any more; other nodes' attributes do not change.
pub proof fn law_size_then_getattr(m: VfsModel, ino: u64, size: u64, other: u64)
    requires
        m.nodes.contains_key(ino),
        m.nodes[ino] is File,
        date_arith_fits(m.nodes[ino]->File_date),
        other != ino,
    ensures
        getattr_spec(with_size(m, ino, size), ino) matches Ok((s, kind, _)) && s == size && kind
            == NodeKind::RegularFile,
        size_needed_spec(with_size(m, ino, size), ino) == Ok::<Option<u64>, VfsError>(None),
        getattr_spec(with_size(m, ino, size), other) == getattr_spec(m, other),
        read_target_spec(with_size(m, ino, size), ino) == read_target_spec(m, ino),
{
}

proof fn lemma_with_size_wf(m: VfsModel, ino: u64, size: u64)
    requires
        model_wf(m),
    ensures
        model_wf(with_size(m, ino, size)),
{
    let m2 = with_size(m, ino, size);
    assert(m2.nodes.dom() =~= m.nodes.dom());
    assert forall|d: u64, n: Seq<char>| #[trigger] dir_children(m2, d).contains_key(n) implies m2.nodes.contains_key(dir_children(m2, d)[n]) by {
        assert(dir_children(m2, d) == dir_children(m, d));
    }
}

proof fn lemma_child_map_lookup(v: Seq<Child>, i: int)
    requires
        names_unique(v),
        0 <= i < v.len(),
    ensures
        child_map(v).contains_key(v[i].name@),
        child_map(v)[v[i].name@] == v[i].ino,
    decreases v.len(),
{
    if i < v.len() - 1 {
        lemma_child_map_lookup(v.drop_last(), i);
    }
}

fn name_is(c: &Child, want: &Vec<char>) -> (r: bool)
    ensures
        r == (c.name@ == want@),
{
    let nm = chars_vec(c.name.as_str());
    chars_eq(nm.as_slice(), want.as_slice())
}

/// Names strictly increase along `s`.
pub open spec fn sorted_by_name(s: Seq<DirEntry>) -> bool {
    forall|a: int, b: int| 0 <= a < b < s.len() ==> lex_lt(s[a].name@, s[b].name@)
}

/// `e` names one of the first `i` children of `v`.
closed spec fn listed_child(v: Seq<Child>, i: int, e: DirEntry) -> bool {
    exists|j: int| 0 <= j < i && v[j].name@ == e.name@ && v[j].ino == e.ino
}

/// Some entry of `s` has the name `n`.
pub open spec fn has_name(s: Seq<DirEntry>, n: Seq<char>) -> bool {
    exists|k: int| 0 <= k < s.len() && s[k].name@ == n
}

/// Inserts `e` into a list sorted by name, keeping it sorted.
fn insert_sorted(out: &mut Vec<DirEntry>, e: DirEntry)
    requires
        sorted_by_name(old(out)@),
        forall|k: int| 0 <= k < old(out)@.len() ==> old(out)@[k].name@ != e.name@,
    ensures
        sorted_by_name(final(out)@),
        exists|p: int| 0 <= p <= old(out)@.len() && final(out)@ == old(out)@.insert(p, e),
{
    let key = chars_vec(e.name.as_str());
    let mut p: usize = 0;
    while p < out.len() && !lex_less(key.as_slice(), chars_vec(out[p].name.as_str()).as_slice())
        invariant
            p <= out@.len(),
            key@ == e.name@,
            forall|k: int| 0 <= k < out@.len() ==> out@[k].name@ != e.name@,
            forall|q: int| 0 <= q < p ==> lex_lt(#[trigger] out@[q].name@, key@),
        decreases out@.len() - p,
    {
        proof {
            crate::text::lemma_lex_total(key@, out@[p as int].name@);
        }
        p = p + 1;
    }
    proof {
        assert forall|q: int| p <= q < out@.len() implies lex_lt(key@, #[trigger] out@[q].name@) by {
            if q > p {
                crate::text::lemma_lex_transitive(key@, out@[p as int].name@, out@[q].name@);
            }
        }
    }
    let ghost prev = out@;
    out.insert(p, e);
    proof {
        assert forall|a: int, b: int| 0 <= a < b < out@.len() implies lex_lt(
            out@[a].name@,
            out@[b].name@,
        ) by {
            if b < p {
                assert(out@[a] == prev[a]);
                assert(out@[b] == prev[b]);
            } else if a < p && b == p {
                assert(out@[a] == prev[a]);
            } else if a < p && b > p {
                assert(out@[a] == prev[a]);
                assert(out@[b] == prev[b - 1]);
                crate::text::lemma_lex_transitive(out@[a].name@, key@, out@[b].name@);
            } else if a == p {
                assert(out@[b] == prev[b - 1]);
            } else {
                assert(out@[a] == prev[a - 1]);
                assert(out@[b] == prev[b - 1]);
            }
        }
        assert(out@ == prev.insert(p as int, e));
    }
}

proof fn lemma_child_map_update(v: Seq<Child>, i: int, c: Child)
    requires
        names_unique(v),
        0 <= i < v.len(),
        c.name@ == v[i].name@,
    ensures
        names_unique(v.update(i, c)),
        child_map(v.update(i, c)) == child_map(v).insert(c.name@, c.ino),
    decreases v.len(),
{
    let w = v.update(i, c);
    if i == v.len() - 1 {
        assert(w.drop_last() =~= v.drop_last());
        assert(child_map(v.drop_last()).insert(v.last().name@, v.last().ino).insert(c.name@, c.ino)
            =~= child_map(v.drop_last()).insert(c.name@, c.ino));
    } else {
        lemma_child_map_update(v.drop_last(), i, c);
        assert(w.drop_last() =~= v.drop_last().update(i, c));
        assert(v.last().name@ != c.name@);
        assert(child_map(w) =~= child_map(v).insert(c.name@, c.ino));
    }
}

proof fn lemma_listed_at_wf(m: VfsModel, l: Map<u64, u128>)
    requires
        model_wf(m),
    ensures
        model_wf(VfsModel { listed_at: l, ..m }),
{
    let m2 = VfsModel { listed_at: l, ..m };
    assert forall|d: u64| dir_children(m2, d) == dir_children(m, d) by {}
}

proof fn lemma_clear_dir_wf(m: VfsModel, d: u64)
    requires
        model_wf(m),
    ensures
        model_wf(VfsModel { children: m.children.insert(d, Map::empty()), ..m }),
{
    let m0 = VfsModel { children: m.children.insert(d, Map::empty()), ..m };
    assert forall|dd: u64, n: Seq<char>| #[trigger] dir_children(m0, dd).contains_key(n) implies m0.nodes.contains_key(dir_children(m0, dd)[n]) by {
        if dd != d {
            assert(dir_children(m0, dd) == dir_children(m, dd));
        }
    }
}

proof fn lemma_apply_entry_wf(m: VfsModel, dir: u64, e: Entry, name: Seq<char>)
    requires
        model_wf(m),
        m.next_ino + 1 <= u64::MAX,
    ensures
        model_wf(apply_entry(m, dir, e, name)),
{
    let (ino, m1) = entry_inode(m, e);
    let m2 = apply_entry(m, dir, e, name);
    assert forall|i: u64| #[trigger] m2.nodes.contains_key(i) implies 1 <= i < m2.next_ino by {
        if i != ino {
            assert(m.nodes.contains_key(i));
        }
    }
    assert forall|dd: u64, n: Seq<char>| #[trigger] dir_children(m2, dd).contains_key(n) implies m2.nodes.contains_key(dir_children(m2, dd)[n]) by {
        if dd != dir || n != name {
            assert(dir_children(m2, dd).contains_key(n) ==> dir_children(m, dd).contains_key(n));
        }
    }
    assert forall|id: u64| #[trigger] m2.folders.contains_key(id) implies m2.nodes.contains_key(m2.folders[id])
        && m2.nodes[m2.folders[id]] == (NodeModel::Folder { id }) by {
        if m.folders.contains_key(id) {
            assert(m.nodes.contains_key(m.folders[id]));
        }
    }
    assert forall|id: u64| #[trigger] m2.files.contains_key(id) implies m2.nodes.contains_key(m2.files[id])
        && m2.nodes[m2.files[id]] is File && m2.nodes[m2.files[id]]->File_id == id by {
        if m.files.contains_key(id) {
            assert(m.nodes.contains_key(m.files[id]));
        }
    }
    assert forall|i: u64| #[trigger] m2.nodes.contains_key(i) implies match m2.nodes[i] {
        NodeModel::Folder { id } => m2.folders.contains_key(id) && m2.folders[id] == i,
        NodeModel::File { id, .. } => m2.files.contains_key(id) && m2.files[id] == i,
    } by {
        if i != ino {
            assert(m.nodes.contains_key(i));
        }
    }
}

proof fn lemma_child_map_key(v: Seq<Child>, n: Seq<char>) -> (j: int)
    requires
        child_map(v).contains_key(n),
    ensures
        0 <= j < v.len(),
        v[j].name@ == n,
    decreases v.len(),
{
    if v.last().name@ == n {
        v.len() - 1
    } else {
        lemma_child_map_key(v.drop_last(), n)
    }
}

proof fn lemma_child_map_absent(v: Seq<Child>, n: Seq<char>)
    requires
        forall|j: int| 0 <= j < v.len() ==> v[j].name@ != n,
    ensures
        !child_map(v).contains_key(n),
    decreases v.len(),
{
    if v.len() > 0 {
        lemma_child_map_absent(v.drop_last(), n);
    }
}

} // verus!
