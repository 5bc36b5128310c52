use condo_fs::model::{classify_row, entries_from_rows, Entry, RawRow};

fn row(id: u64, name: &str, link: &str) -> RawRow {
    RawRow {
        id,
        key: format!("K{id}"),
        thumbnail: "/shared/images/icons/pdf-128x128.png".into(),
        name: name.into(),
        date: "2025-01-18 02:41:25".into(),
        link: link.into(),
    }
}

#[test]
fn rows_are_classified_by_link() {
    let rows = vec![
        row(162100, "Board of Directors", "https://app.condocontrol.com/library/view-folder?folderID=162100"),
        row(5369528, "01/09/25 Board Minutes", "https://app.condocontrol.com/library/view-file.aspx?FileRecordID=5369528&Key=9E825A05"),
        row(7, "odd", "https://app.condocontrol.com/elsewhere"),
        row(8, "dl", "/library/download-file?fileRecordID=8"),
    ];
    let entries = entries_from_rows(rows);
    assert_eq!(entries.len(), 3);
    assert_eq!(entries[0], Entry::Folder { id: 162100, name: "Board of Directors".into() });
    assert_eq!(
        entries[1],
        Entry::File {
            id: 5369528,
            key: "K5369528".into(),
            name: "01/09/25 Board Minutes".into(),
            date: "2025-01-18 02:41:25".into(),
            thumbnail: "/shared/images/icons/pdf-128x128.png".into(),
        }
    );
    assert!(matches!(entries[2], Entry::File { id: 8, .. }));
    assert_eq!(classify_row(row(1, "x", "view-folder view-file")), Some(Entry::Folder { id: 1, name: "x".into() }));
    assert_eq!(classify_row(row(1, "x", "")), None);
    assert!(entries_from_rows(vec![]).is_empty());
}
