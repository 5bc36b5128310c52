use condo_fs::model::Entry;
use condo_fs::vfs::{
    block_count, dir_listing, listing_start, mode_of, read_offset, read_window, NodeKind, Vfs,
    VfsError,
};
use std::collections::HashMap;
use std::time::{Duration, UNIX_EPOCH};

const ROOT: u64 = 1;
const TTL: u128 = 60_000_000_000;

struct Library {
    folders: HashMap<u64, Vec<Entry>>,
    files: HashMap<u64, (Vec<u8>, u64)>,
}

/// root folder 100 contains subfolder 200 ("Reports") and file 300 ("01/09/25 Notes", pdf)
fn fixture() -> (Vfs, Library) {
    let mut folders = HashMap::new();
    folders.insert(
        100,
        vec![
            Entry::Folder { id: 200, name: "Reports".into() },
            Entry::File {
                id: 300,
                key: "K".into(),
                name: "01/09/25 Notes".into(),
                date: "2025-01-18 02:41:25".into(),
                thumbnail: "/shared/images/icons/pdf-128x128.png".into(),
            },
        ],
    );
    folders.insert(200, vec![]);
    let mut files = HashMap::new();
    files.insert(300u64, (b"%PDF-1.7 body".to_vec(), 13u64));
    (Vfs::new(100, Duration::from_secs(60), 1000, 1000), Library { folders, files })
}

/// Lists `ino` when its listing is due, as a mount does before reading it.
fn ensure_listed(vfs: &mut Vfs, lib: &Library, ino: u64, now: u128) -> Result<(), VfsError> {
    if let Some(folder_id) = vfs.listing_due(ino, now)? {
        let entries = lib.folders.get(&folder_id).cloned().unwrap_or_default();
        assert!(vfs.record_listing(ino, entries, now));
    }
    Ok(())
}

fn ensure_size(vfs: &mut Vfs, lib: &Library, ino: u64) -> Result<condo_fs::vfs::Attr, VfsError> {
    if let Some(id) = vfs.size_needed(ino)? {
        let (_, size) = lib.files.get(&id).ok_or(VfsError::NotFound)?;
        vfs.record_size(ino, *size);
    }
    vfs.getattr(ino)
}

fn lookup(vfs: &mut Vfs, lib: &Library, parent: u64, name: &str) -> Result<condo_fs::vfs::Attr, VfsError> {
    ensure_listed(vfs, lib, parent, 0)?;
    let ino = vfs.lookup(parent, name)?;
    ensure_size(vfs, lib, ino)
}

fn read(vfs: &Vfs, lib: &Library, ino: u64, offset: u64, size: u32) -> Result<Vec<u8>, VfsError> {
    let (id, _date) = vfs.read_target(ino)?;
    let (bytes, _) = lib.files.get(&id).ok_or(VfsError::NotFound)?;
    let want = read_window(bytes.len() as u64, offset, size);
    let start = offset as usize;
    Ok(bytes[start.min(bytes.len())..start.min(bytes.len()) + want].to_vec())
}

#[test]
fn readdir_root_lists_folder_and_file_with_clean_names() {
    let (mut vfs, lib) = fixture();
    ensure_listed(&mut vfs, &lib, ROOT, 0).unwrap();
    let mut entries = vfs.readdir(ROOT);
    entries.sort_by(|a, b| a.name.cmp(&b.name));
    let names: Vec<_> = entries.iter().map(|e| e.name.clone()).collect();
    assert_eq!(names, vec!["01-09-25 Notes.pdf".to_string(), "Reports".to_string()]);
    let file = entries.iter().find(|e| e.name.ends_with(".pdf")).unwrap();
    assert_eq!(file.kind, NodeKind::RegularFile);
}

#[test]
fn lookup_then_read_returns_file_bytes() {
    let (mut vfs, lib) = fixture();
    let attr = lookup(&mut vfs, &lib, ROOT, "01-09-25 Notes.pdf").unwrap();
    assert_eq!(attr.kind, NodeKind::RegularFile);
    assert_eq!(attr.size, 13);
    let data = read(&vfs, &lib, attr.ino, 0, 100).unwrap();
    assert_eq!(data, b"%PDF-1.7 body");
    // offset read
    let tail = read(&vfs, &lib, attr.ino, 9, 100).unwrap();
    assert_eq!(tail, b"body");
}

#[test]
fn lookup_missing_is_enoent() {
    let (mut vfs, lib) = fixture();
    let err = lookup(&mut vfs, &lib, ROOT, "nope").unwrap_err();
    assert_eq!(err.errno(), libc::ENOENT);
}

#[test]
fn inodes_are_stable_across_relisting() {
    let (mut vfs, lib) = fixture();
    let a = lookup(&mut vfs, &lib, ROOT, "Reports").unwrap().ino;
    ensure_listed(&mut vfs, &lib, ROOT, 0).unwrap();
    let _ = vfs.readdir(ROOT);
    let b = lookup(&mut vfs, &lib, ROOT, "Reports").unwrap().ino;
    assert_eq!(a, b);
}

#[test]
fn relisting_after_ttl_keeps_inodes_and_sizes() {
    let (mut vfs, lib) = fixture();
    let file = lookup(&mut vfs, &lib, ROOT, "01-09-25 Notes.pdf").unwrap();
    let dir = lookup(&mut vfs, &lib, ROOT, "Reports").unwrap();
    assert_eq!(vfs.listing_due(ROOT, TTL), Ok(None));
    assert_eq!(vfs.listing_due(ROOT, TTL + 1), Ok(Some(100)));
    ensure_listed(&mut vfs, &lib, ROOT, TTL + 1).unwrap();
    assert_eq!(vfs.lookup(ROOT, "01-09-25 Notes.pdf"), Ok(file.ino));
    assert_eq!(vfs.lookup(ROOT, "Reports"), Ok(dir.ino));
    assert_eq!(vfs.size_needed(file.ino), Ok(None));
    assert_eq!(vfs.getattr(file.ino).unwrap().size, 13);
}

#[test]
fn attributes_of_folders_and_files() {
    let (mut vfs, lib) = fixture();
    let root = vfs.getattr(ROOT).unwrap();
    assert_eq!(root.kind, NodeKind::Directory);
    assert_eq!(root.size, 0);
    assert_eq!(root.mtime, UNIX_EPOCH);
    let file = lookup(&mut vfs, &lib, ROOT, "01-09-25 Notes.pdf").unwrap();
    assert_eq!(file.mtime, UNIX_EPOCH + Duration::from_secs(1737168085));
    assert_eq!(vfs.getattr(999), Err(VfsError::NotFound));
    assert_eq!(vfs.read_target(ROOT), Err(VfsError::Io));
    assert_eq!(vfs.read_target(999), Err(VfsError::NotFound));
    assert_eq!(vfs.listing_due(file.ino, 0), Err(VfsError::Io));
    assert_eq!(vfs.listing_due(999, 0), Err(VfsError::NotFound));
    assert_eq!(vfs.uid(), 1000);
    assert_eq!(vfs.gid(), 1000);
}

#[test]
fn duplicate_display_names_get_numbered_children() {
    let mut vfs = Vfs::new(1, Duration::from_secs(60), 0, 0);
    let file = |id: u64, name: &str| Entry::File {
        id,
        key: String::new(),
        name: name.into(),
        date: "2025-01-01 00:00:00".into(),
        thumbnail: "/i/pdf-1.png".into(),
    };
    vfs.apply_listing(ROOT, vec![file(10, "a/b"), file(11, "A-B.pdf"), Entry::Folder { id: 12, name: " x ".into() }], 0);
    let names: Vec<String> = vfs.readdir(ROOT).into_iter().map(|e| e.name).collect();
    assert_eq!(names, vec!["A-B (2).pdf", "a-b.pdf", "x"]);
    let a = vfs.lookup(ROOT, "a-b.pdf").unwrap();
    let b = vfs.lookup(ROOT, "A-B (2).pdf").unwrap();
    assert_ne!(a, b);
    assert_eq!(vfs.lookup(ROOT, "A-B.pdf"), Err(VfsError::NotFound));
    // a later listing without the file drops the name but keeps the inode for later
    vfs.apply_listing(ROOT, vec![file(11, "renamed")], 1);
    assert_eq!(vfs.lookup(ROOT, "a-b.pdf"), Err(VfsError::NotFound));
    assert_eq!(vfs.lookup(ROOT, "renamed.pdf"), Ok(b));
    vfs.apply_listing(ROOT, vec![file(10, "a/b")], 2);
    assert_eq!(vfs.lookup(ROOT, "a-b.pdf"), Ok(a));
}

#[test]
fn errno_values() {
    assert_eq!(VfsError::NotFound.errno(), libc::ENOENT);
    assert_eq!(VfsError::Io.errno(), libc::EIO);
}

#[test]
fn fuse_helpers() {
    assert_eq!(mode_of(NodeKind::Directory), (0o555, 2));
    assert_eq!(mode_of(NodeKind::RegularFile), (0o444, 1));
    assert_eq!(block_count(0), 0);
    assert_eq!(block_count(1), 1);
    assert_eq!(block_count(512), 1);
    assert_eq!(block_count(513), 2);
    assert_eq!(block_count(u64::MAX), u64::MAX.div_ceil(512));
    assert_eq!(read_offset(-5), 0);
    assert_eq!(read_offset(7), 7);
    assert_eq!(read_window(13, 0, 100), 13);
    assert_eq!(read_window(13, 9, 100), 4);
    assert_eq!(read_window(13, 13, 100), 0);
    assert_eq!(read_window(13, 20, 100), 0);
    assert_eq!(read_window(13, 2, 3), 3);
    assert_eq!(listing_start(3), 3);
    let listing = dir_listing(
        5,
        vec![condo_fs::vfs::DirEntry { ino: 9, name: "f".into(), kind: NodeKind::RegularFile }],
    );
    assert_eq!(listing.len(), 3);
    assert_eq!(listing[0], (5, NodeKind::Directory, ".".to_string()));
    assert_eq!(listing[1], (5, NodeKind::Directory, "..".to_string()));
    assert_eq!(listing[2], (9, NodeKind::RegularFile, "f".to_string()));
}
