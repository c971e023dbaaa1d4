use std::io::{Cursor, Write};

use navidrome_import::sources::{
    extension_of, file_name_of, select, select_entries, source_kind, stem, zip_sources,
    ArchiveError, SourceKind, Wanted,
};

fn texts(items: &[&str]) -> Vec<String> {
    items.iter().map(|s| s.to_string()).collect()
}

fn archive(entries: &[(&str, &[u8])], method: zip::CompressionMethod) -> Vec<u8> {
    let mut writer = zip::ZipWriter::new(Cursor::new(Vec::new()));
    let options = zip::write::SimpleFileOptions::default().compression_method(method);
    for (name, content) in entries {
        writer.start_file(*name, options).unwrap();
        writer.write_all(content).unwrap();
    }
    writer.finish().unwrap().into_inner()
}

#[test]
fn file_names_are_the_last_part() {
    assert_eq!(file_name_of("/import/My List.csv"), Some("My List.csv".to_string()));
    assert_eq!(file_name_of("dir/./x.csv/."), Some("x.csv".to_string()));
    assert_eq!(file_name_of("a/.."), None);
    assert_eq!(file_name_of("/"), None);
    assert_eq!(file_name_of(""), None);
}

#[test]
fn extensions_are_lower_case_and_need_a_name() {
    assert_eq!(extension_of("/a/b.CSV"), Some("csv".to_string()));
    assert_eq!(extension_of("b.tar.gz"), Some("gz".to_string()));
    assert_eq!(extension_of(".csv"), None);
    assert_eq!(extension_of("csv"), None);
    assert_eq!(extension_of("x."), Some("".to_string()));
}

#[test]
fn stems_drop_the_extension() {
    assert_eq!(stem("exports/Road_Trip.csv"), "Road_Trip");
    assert_eq!(stem("a.b.csv"), "a.b");
    assert_eq!(stem(".csv"), ".csv");
    assert_eq!(stem(".."), "playlist");
    assert_eq!(stem(""), "playlist");
}

#[test]
fn kinds_go_by_the_extension_unless_it_is_a_directory() {
    assert_eq!(source_kind(true, "x.csv"), SourceKind::Directory);
    assert_eq!(source_kind(false, "x.Zip"), SourceKind::Zip);
    assert_eq!(source_kind(false, "x.csv"), SourceKind::Csv);
    assert_eq!(source_kind(false, "x.txt"), SourceKind::Other);
    assert_eq!(source_kind(false, "zip"), SourceKind::Other);
}

#[test]
fn exports_are_taken_in_order() {
    let paths = texts(&["/i/b.zip", "/i/notes.txt", "/i/a.csv", "/i/C.CSV", "/i/b"]);
    assert_eq!(select(&paths, Wanted::Exports), vec![3, 2, 0]);
    assert_eq!(select(&paths, Wanted::Sheets), vec![3, 2]);
    assert!(select(&Vec::new(), Wanted::Sheets).is_empty());
}

#[test]
fn entries_of_an_archive_are_taken_by_name() {
    let names = vec![Some("z.csv".to_string()), None, Some("a.CSV".to_string()), Some("read.me".to_string())];
    assert_eq!(select_entries(&names), texts(&["a.CSV", "z.csv"]));
}

#[test]
fn archive_gives_its_sheets_in_order() {
    let entries: [(&str, &[u8]); 4] = [
        ("exports/Road_Trip.csv", b"Title\nOne\n"),
        ("readme.txt", b"not this"),
        ("Gym.CSV", b"Title\nTwo\n"),
        ("bad.csv", b"caf\xe9"),
    ];
    for method in [zip::CompressionMethod::Stored, zip::CompressionMethod::Deflated] {
        let found = zip_sources(&archive(&entries, method)).unwrap();
        assert_eq!(
            found,
            vec![
                ("Gym".to_string(), "Title\nTwo\n".to_string()),
                ("bad".to_string(), "caf\u{fffd}".to_string()),
                ("Road_Trip".to_string(), "Title\nOne\n".to_string()),
            ]
        );
    }
}

#[test]
fn truncated_archive_is_refused() {
    let whole = archive(&[("a.csv", b"Title\nOne\n")], zip::CompressionMethod::Stored);
    assert_eq!(zip_sources(&whole[..whole.len() / 2]), Err(ArchiveError::NotAnArchive));
    assert_eq!(zip_sources(b""), Err(ArchiveError::NotAnArchive));
}

#[test]
fn corrupted_entry_is_refused() {
    let mut bytes = archive(
        &[("a.csv", b"fine"), ("b.csv", b"Title\nOne\n")],
        zip::CompressionMethod::Stored,
    );
    let at = bytes.windows(9).position(|w| w == b"Title\nOne").unwrap();
    bytes[at] = b'X';
    assert_eq!(zip_sources(&bytes), Err(ArchiveError::Entry("b.csv".to_string())));
}
