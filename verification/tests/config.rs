use condo_fs::config::{expand_tilde, expand_tilde_in, MountArgs};
use std::path::PathBuf;
use std::time::Duration;

fn args(cache_dir: Option<PathBuf>) -> MountArgs {
    MountArgs {
        mountpoint: PathBuf::from("/mnt/condo"),
        credentials: "~/tokens/condo-control.txt".into(),
        root: 137473,
        cache_dir,
        meta_ttl: 60,
        foreground: true,
    }
}

#[test]
fn tilde_expands_against_home() {
    let home = Some(PathBuf::from("/home/alice"));
    assert_eq!(expand_tilde_in("~/x/y", home.clone()), PathBuf::from("/home/alice/x/y"));
    assert_eq!(expand_tilde_in("~x", home.clone()), PathBuf::from("~x"));
    assert_eq!(expand_tilde_in("/abs", home), PathBuf::from("/abs"));
    assert_eq!(expand_tilde_in("~/x", None), PathBuf::from("~/x"));
    assert_eq!(expand_tilde("/abs/p"), PathBuf::from("/abs/p"));
}

#[test]
fn cache_dir_defaults() {
    assert_eq!(args(Some(PathBuf::from("/c"))).cache_dir_path(), PathBuf::from("/c"));
    assert_eq!(
        args(None).cache_dir_path_in(Some(PathBuf::from("/home/a/.cache"))),
        PathBuf::from("/home/a/.cache/condo-fuse")
    );
    assert_eq!(args(None).cache_dir_path_in(None), PathBuf::from("./condo-fuse"));
    assert_eq!(args(None).meta_ttl_dur(), Duration::from_secs(60));
    assert!(args(None).credentials_path().ends_with("tokens/condo-control.txt"));
}
