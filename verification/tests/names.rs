use condo_fs::names::{
    condo_date_fits, condo_date_secs, file_display_name, infer_extension, occurrences_fit, parse_condo_date, resolve_collisions, sanitize_name,
};
use std::time::UNIX_EPOCH;

#[test]
fn sanitize_replaces_slashes() {
    assert_eq!(sanitize_name("01/09/25 Board Minutes"), "01-09-25 Board Minutes");
    assert_eq!(sanitize_name("  spaced  "), "spaced");
    assert_eq!(sanitize_name("/"), "-");
    assert_eq!(sanitize_name(""), "_");
}

#[test]
fn infers_extension_from_thumbnail() {
    assert_eq!(infer_extension("/shared/images/icons/pdf-128x128.png"), Some("pdf"));
    assert_eq!(infer_extension("/shared/images/icons/folder.gif"), None);
    assert_eq!(infer_extension("/x/doc-128x128.png"), Some("doc"));
}

#[test]
fn file_display_name_appends_extension() {
    assert_eq!(
        file_display_name("01/09/25 Board Minutes", "/shared/images/icons/pdf-128x128.png"),
        "01-09-25 Board Minutes.pdf"
    );
    // does not double up if already present
    assert_eq!(file_display_name("report.pdf", "/shared/images/icons/pdf-128x128.png"), "report.pdf");
    // unknown icon: no extension
    assert_eq!(file_display_name("thing", "/shared/images/icons/mystery.gif"), "thing");
}

#[test]
fn resolves_duplicate_names() {
    let out = resolve_collisions(vec!["a.pdf".into(), "a.pdf".into(), "b".into(), "a.pdf".into()]);
    assert_eq!(out, vec!["a.pdf", "a (2).pdf", "b", "a (3).pdf"]);
}

#[test]
fn parses_condo_date() {
    let t = parse_condo_date("2025-01-18 02:41:25");
    let secs = t.duration_since(UNIX_EPOCH).unwrap().as_secs();
    assert_eq!(secs, 1737168085); // 2025-01-18T02:41:25Z
    assert_eq!(parse_condo_date("garbage"), UNIX_EPOCH);
    assert_eq!(parse_condo_date(""), UNIX_EPOCH);
}

#[test]
fn sanitized_names_are_never_empty_or_slashed() {
    for raw in ["", "   ", "/", "\0", " a/b\0c ", "\t\n x \u{3000}"] {
        let s = sanitize_name(raw);
        assert!(!s.is_empty());
        assert!(!s.contains('/'));
        assert!(!s.contains('\0'));
        assert_eq!(s.trim(), s);
    }
    assert_eq!(sanitize_name("\0"), "_");
    assert_eq!(sanitize_name("\u{3000}name\u{a0}"), "name");
}

#[test]
fn infers_each_known_extension() {
    let cases = [
        ("pdf-1.png", Some("pdf")),
        ("doc-1.png", Some("doc")),
        ("docx-1.png", Some("docx")),
        ("xls.png", Some("xls")),
        ("xlsx-1.png", Some("xlsx")),
        ("ppt-1.png", Some("ppt")),
        ("pptx-1.png", Some("pptx")),
        ("txt-1.png", Some("txt")),
        ("csv-1.png", Some("csv")),
        ("jpg-1.png", Some("jpg")),
        ("jpeg-1.png", Some("jpg")),
        ("png-1.png", Some("png")),
        ("gif-1.png", None),
        ("zip-1.png", Some("zip")),
        ("PDF-1.png", None),
        ("", None),
        ("/a/b/", None),
    ];
    for (t, want) in cases {
        assert_eq!(infer_extension(t), want, "{t}");
    }
}

#[test]
fn display_name_extension_check_ignores_case() {
    assert_eq!(file_display_name("REPORT.PDF", "/i/pdf-128x128.png"), "REPORT.PDF");
    assert_eq!(file_display_name("a/b", "/i/zip-1.png"), "a-b.zip");
    assert_eq!(file_display_name("  ", "/i/txt-1.png"), "_.txt");
}

#[test]
fn collisions_ignore_case_and_keep_first() {
    let out = resolve_collisions(vec!["A.pdf".into(), "a.PDF".into(), "x".into(), "X".into()]);
    assert_eq!(out, vec!["A.pdf", "a (2).PDF", "x", "X (2)"]);
    // a leading dot is not an extension
    let out = resolve_collisions(vec![".env".into(), ".env".into()]);
    assert_eq!(out, vec![".env", ".env (2)"]);
    // the last dot splits the extension
    let out = resolve_collisions(vec!["a.b.c".into(), "a.b.c".into()]);
    assert_eq!(out, vec!["a.b.c", "a.b (2).c"]);
    // distinct names are kept as they are
    let names: Vec<String> = vec!["one".into(), "two".into(), "three".into()];
    assert_eq!(resolve_collisions(names.clone()), names);
    assert_eq!(resolve_collisions(vec![]), Vec::<String>::new());
}

#[test]
fn many_collisions_are_numbered_in_order() {
    let out = resolve_collisions(vec!["n".into(); 12]);
    assert_eq!(out[0], "n");
    assert_eq!(out[1], "n (2)");
    assert_eq!(out[11], "n (12)");
}

#[test]
fn condo_date_edge_cases() {
    assert_eq!(condo_date_secs("1970-01-01 00:00:00"), Some(0));
    assert_eq!(condo_date_secs("2000-03-01 00:00:00"), Some(951868800));
    assert_eq!(condo_date_secs("2024-02-29 23:59:59"), Some(1709251199));
    assert_eq!(condo_date_secs("1969-12-31 23:59:59"), None);
    assert_eq!(condo_date_secs("2025-13-01 00:00:00"), None);
    assert_eq!(condo_date_secs("2025-01-32 00:00:00"), None);
    assert_eq!(condo_date_secs("2025-01-01"), None);
    assert_eq!(condo_date_secs("2025-01-01 00:00"), None);
    assert_eq!(condo_date_secs("+2025-01-01 00:00:10"), Some(1735689610));
    assert_eq!(condo_date_secs("2025-01-01-7 00:00:10:99"), Some(1735689610));
    assert_eq!(condo_date_secs("2025-01-01 00:00:x"), None);
    assert!(condo_date_fits("2025-01-18 02:41:25"));
    assert!(condo_date_fits("garbage"));
    assert!(!condo_date_fits("9223372036854775807-01-01 00:00:00"));
    assert!(!condo_date_fits("2025-01-01 9223372036854775807:00:00"));
    assert_eq!(parse_condo_date("1970-01-01 00:00:00"), UNIX_EPOCH);
}

#[test]
fn later_dates_give_later_times() {
    let dates = [
        "1970-01-01 00:00:00",
        "1970-01-01 00:00:01",
        "1999-12-31 23:59:59",
        "2000-02-29 12:00:00",
        "2000-03-01 00:00:00",
        "2024-12-31 23:59:59",
        "2025-01-01 00:00:00",
        "2025-01-18 02:41:25",
    ];
    for w in dates.windows(2) {
        assert!(parse_condo_date(w[0]) < parse_condo_date(w[1]), "{} < {}", w[0], w[1]);
    }
    assert_eq!(parse_condo_date(dates[0]), UNIX_EPOCH);
}

#[test]
fn shown_names_are_stable_when_shown_again() {
    for raw in ["01/09/25 Board Minutes", "  spaced  ", "/", "", "a\0b", "Report.PDF"] {
        let once = sanitize_name(raw);
        assert_eq!(sanitize_name(&once), once);
        for icon in ["/shared/images/icons/pdf-128x128.png", "/x/folder.gif", "/x/jpeg-1.png"] {
            let shown = file_display_name(raw, icon);
            assert_eq!(file_display_name(&shown, icon), shown);
        }
    }
}

#[test]
fn small_listings_fit_the_collision_counter() {
    assert!(occurrences_fit(&vec![]));
    assert!(occurrences_fit(&vec!["a.pdf".to_string(), "A.PDF".to_string(), "b".to_string()]));
}
