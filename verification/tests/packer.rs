use std::io::{Cursor, Read};

use kiwilua::packer::{
    append_suffix, archive_names, build_archive, unique_archive_path, InputCheck, NameSet,
    PackError, ZipBuilder,
};
use kiwilua::source::{classify_response, FetchedKind};

#[test]
fn suffixes() {
    assert_eq!(append_suffix("730/main.lua", 2), "730/main_2.lua");
    assert_eq!(append_suffix("730/a.b.lua", 12), "730/a.b_12.lua");
    assert_eq!(append_suffix("730/script", 3), "730/script_3");
    assert_eq!(append_suffix(".lua", 2), "_2.lua");
}

#[test]
fn unique_names() {
    let mut used = NameSet::new();
    assert_eq!(unique_archive_path("a.lua", &mut used), "a.lua");
    assert_eq!(unique_archive_path("a.lua", &mut used), "a_2.lua");
    assert_eq!(unique_archive_path("a_2.lua", &mut used), "a_2_2.lua");
    assert_eq!(unique_archive_path("a.lua", &mut used), "a_3.lua");
    assert!(used.contains("a_3.lua"));
    assert!(!used.contains("a_4.lua"));
}

#[test]
fn names_for_an_archive() {
    let paths = vec!["x/a.lua".to_string(), "x/a.lua".to_string(), "x/b".to_string(), "x/b".to_string()];
    assert_eq!(
        archive_names(&paths),
        vec!["x/a.lua".to_string(), "x/a_2.lua".to_string(), "x/b".to_string(), "x/b_2".to_string()]
    );
}

#[test]
fn input_checks() {
    assert!(matches!(InputCheck::start(0), Err(PackError::NoFiles)));
    assert!(matches!(InputCheck::start(257), Err(PackError::TooManyFiles { count: 257 })));
    let mut c = InputCheck::start(3).unwrap();
    assert!(c.add_file("a", true, 10).is_ok());
    assert!(matches!(c.add_file("dir", false, 0), Err(PackError::NotRegularFile { ref path }) if path == "dir"));
    assert!(matches!(c.add_file("big", true, 50 * 1024 * 1024), Err(PackError::TooLarge { total: 52428810 })));
    let mut d = InputCheck::start(1).unwrap();
    assert!(d.add_file("a", true, 52428800).is_ok());
    assert!(matches!(d.add_file("b", true, u64::MAX), Err(PackError::SizeOverflow)));
}

#[test]
fn builds_a_readable_archive() {
    let bytes = build_archive(
        &["730/a.lua".to_string(), "730/a.lua".to_string()],
        &[b"one".to_vec(), b"two".to_vec()],
    )
    .unwrap();
    assert_eq!(&bytes[0..4], b"PK\x03\x04");
    let text = String::from_utf8_lossy(&bytes);
    assert!(text.contains("730/a.lua"));
    assert!(text.contains("730/a_2.lua"));
}

#[test]
fn builder_refuses_duplicate_names() {
    let mut b = ZipBuilder::new();
    assert!(b.add_file("x", b"1").is_ok());
    assert!(matches!(b.add_file("x", b"2"), Err(PackError::Archive)));
}

#[test]
fn archive_ends_with_end_record() {
    let bytes = build_archive(&["730/a.lua".to_string()], &[b"one".to_vec()]).unwrap();
    let n = bytes.len();
    assert!(n >= 22);
    assert_eq!(&bytes[n - 22..n - 18], b"PK\x05\x06");
    assert_eq!(&bytes[n - 2..], &[0u8, 0u8]);
}

#[test]
fn empty_builder_finishes_with_end_record_only() {
    let bytes = ZipBuilder::new().finish().unwrap();
    assert_eq!(bytes.len(), 22);
    assert_eq!(&bytes[0..4], b"PK\x05\x06");
}

#[test]
fn archive_holds_each_file_under_its_name() {
    let bytes = build_archive(
        &["730/a.lua".to_string(), "730/a.lua".to_string(), "730/b".to_string()],
        &[b"one".to_vec(), b"two".to_vec(), Vec::new()],
    )
    .unwrap();
    let mut archive = zip::ZipArchive::new(Cursor::new(bytes)).unwrap();
    assert_eq!(archive.len(), 3);
    let expected: [(&str, &[u8]); 3] = [("730/a.lua", b"one"), ("730/a_2.lua", b"two"), ("730/b", b"")];
    for (i, (name, data)) in expected.iter().enumerate() {
        let mut entry = archive.by_index(i).unwrap();
        assert_eq!(entry.name(), *name);
        assert_eq!(entry.compression(), zip::CompressionMethod::Deflated);
        assert_eq!(entry.unix_mode().map(|m| m & 0o777), Some(0o644));
        let mut got = Vec::new();
        entry.read_to_end(&mut got).unwrap();
        assert_eq!(&got[..], *data);
    }
}

#[test]
fn same_files_give_same_bytes() {
    let paths = ["x/a.lua".to_string(), "x/b.lua".to_string()];
    let contents = [b"print(1)".to_vec(), vec![7u8; 5000]];
    assert_eq!(build_archive(&paths, &contents).unwrap(), build_archive(&paths, &contents).unwrap());
}

#[test]
fn built_archive_is_classified_as_zip() {
    let bytes = build_archive(&["1/a.lua".to_string()], &[b"x".to_vec()]).unwrap();
    assert_eq!(&bytes[0..4], b"PK\x03\x04");
    assert!(matches!(classify_response("https://h/a.lua", "text/plain", &bytes), Ok(FetchedKind::Zip)));
}

#[test]
fn builder_writes_its_entries() {
    let mut b = ZipBuilder::new();
    assert!(b.add_file("x", b"1").is_ok());
    assert!(b.add_file("y", b"22").is_ok());
    let bytes = b.finish().unwrap();
    let archive = zip::ZipArchive::new(Cursor::new(bytes)).unwrap();
    assert_eq!(archive.len(), 2);
}

#[test]
fn pack_error_messages() {
    assert_eq!(PackError::NoFiles.message(), "no files to pack");
    assert_eq!(PackError::TooManyFiles { count: 300 }.message(), "too many files: 300 > 256");
    assert_eq!(PackError::NotRegularFile { path: "d".to_string() }.message(), "not a regular file: d");
    assert_eq!(PackError::SizeOverflow.message(), "archive size overflow");
    assert_eq!(
        PackError::TooLarge { total: 52428810 }.message(),
        "archive too large: 52428810 bytes > 52428800 bytes"
    );
    assert_eq!(PackError::Archive.message(), "could not write the ZIP archive");
}
