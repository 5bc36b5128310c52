use condo_fs::credentials::{Credentials, CredentialsError};

#[test]
fn parses_username_and_password_with_special_chars() {
    let c = Credentials::parse("USERNAME=ryan@example.com\nPASSWORD=p@ss^word#1 two\n").unwrap();
    assert_eq!(c.username, "ryan@example.com");
    assert_eq!(c.password, "p@ss^word#1 two");
}

#[test]
fn debug_redacts_password() {
    let c = Credentials {
        username: "u@e.com".into(),
        password: "supersecret".into(),
    };
    let rendered = c.debug_string();
    assert!(rendered.contains("u@e.com"));
    assert!(!rendered.contains("supersecret"));
    assert!(rendered.contains("redacted"));
    assert_eq!(rendered, "Credentials { username: \"u@e.com\", password: \"<redacted>\" }");
}

#[test]
fn missing_password_is_an_error() {
    assert!(matches!(
        Credentials::parse("USERNAME=only@example.com\n"),
        Err(CredentialsError::Missing("PASSWORD"))
    ));
}

#[test]
fn missing_username_is_reported_first() {
    assert!(matches!(Credentials::parse(""), Err(CredentialsError::Missing("USERNAME"))));
    assert!(matches!(
        Credentials::parse("PASSWORD=x"),
        Err(CredentialsError::Missing("USERNAME"))
    ));
}

#[test]
fn values_are_verbatim_and_last_wins() {
    let c = Credentials::parse(
        "# comment\r\n username = a=b \r\nPassword=first\r\npassword= sp ace=x\r\r\nother=1",
    )
    .unwrap();
    assert_eq!(c.username, " a=b ");
    assert_eq!(c.password, " sp ace=x");
    let c = Credentials::parse("USERNAME=\nPASSWORD=p").unwrap();
    assert_eq!(c.username, "");
    assert_eq!(c.password, "p");
}

#[test]
fn debug_string_depends_on_username_only() {
    let a = Credentials { username: "same".into(), password: "one".into() };
    let b = Credentials { username: "same".into(), password: "two".into() };
    assert_eq!(a.debug_string(), b.debug_string());
}
