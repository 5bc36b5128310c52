use condo_fs::client::{content_disposition_filename, join_url, login_refused, ClientError};
use condo_fs::vfs::VfsError;

#[test]
fn urls_join_without_double_slashes() {
    assert_eq!(join_url("https://h/", "/login"), "https://h/login");
    assert_eq!(join_url("https://h//", "/login"), "https://h/login");
    assert_eq!(join_url("https://h", "/login"), "https://h/login");
    assert_eq!(join_url("", "/x"), "/x");
}

#[test]
fn login_redirect_back_to_login_is_refusal() {
    assert!(login_refused("/login"));
    assert!(login_refused("/login?NextPage=x"));
    assert!(login_refused("https://h/login?x"));
    assert!(!login_refused("/my/my-home"));
    assert!(!login_refused(""));
    assert!(!login_refused("/logi"));
}

#[test]
fn content_disposition_names() {
    assert_eq!(
        content_disposition_filename("attachment; filename=\"01/09/25 Board Minutes.pdf\""),
        Some("01/09/25 Board Minutes.pdf".to_string())
    );
    assert_eq!(content_disposition_filename("attachment; FileName= a.txt "), Some("a.txt".to_string()));
    assert_eq!(content_disposition_filename("attachment; filename=\"\""), None);
    assert_eq!(content_disposition_filename("attachment"), None);
}

#[test]
fn client_errors_map_to_errnos() {
    assert_eq!(VfsError::from(ClientError::NotFound), VfsError::NotFound);
    assert_eq!(VfsError::from(ClientError::Auth), VfsError::Io);
    assert_eq!(VfsError::from(std::io::Error::other("x")), VfsError::Io);
}
