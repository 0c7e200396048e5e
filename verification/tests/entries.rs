use async_vpk::entry::{first_refused, EntryError, FileEntry};

fn entry(name: &[u8], parent: Option<&[u8]>, data: &[u8]) -> FileEntry {
    FileEntry::new(name, parent, data.to_vec()).unwrap()
}

#[test]
fn entry_lowercases_the_extension_and_keeps_the_stem() {
    let e = entry(b"Model.MDL", Some(b"models\\props"), b"hello");
    assert_eq!(e.ext(), b"mdl");
    assert_eq!(e.stem(), b"Model");
    assert_eq!(e.dir(), b"models/props");
    assert_eq!(e.data(), b"hello");
    assert_eq!(e.size(), 5);
    assert_eq!(e.archive_index(), 0);
    assert_eq!(e.offset(), 0);
}

#[test]
fn entry_checksum_is_crc32() {
    let e = entry(b"check.bin", None, b"123456789");
    assert_eq!(e.crc32(), 0xCBF4_3926);
    let empty = entry(b"empty.bin", None, b"");
    assert_eq!(empty.crc32(), 0);
    assert_eq!(empty.size(), 0);
}

#[test]
fn entry_splits_at_the_last_dot() {
    let e = entry(b"archive.tar.gz", Some(b"a/b"), b"");
    assert_eq!(e.stem(), b"archive.tar");
    assert_eq!(e.ext(), b"gz");
    assert_eq!(e.dir(), b"a/b");
}

#[test]
fn entry_hidden_file_has_no_extension() {
    let e = entry(b".cfg", Some(b"cfg"), b"x");
    assert_eq!(e.stem(), b".cfg");
    assert_eq!(e.ext(), b" ");
}

#[test]
fn entry_trailing_dot_gives_empty_extension() {
    let e = entry(b"name.", Some(b"d"), b"x");
    assert_eq!(e.stem(), b"name");
    assert_eq!(e.ext(), b" ");
    let e = entry(b"noext", Some(b"d"), b"x");
    assert_eq!(e.stem(), b"noext");
    assert_eq!(e.ext(), b" ");
}

#[test]
fn entry_root_directory_is_a_space() {
    assert_eq!(entry(b"a.txt", Some(b""), b"").dir(), b" ");
    assert_eq!(entry(b"a.txt", None, b"").dir(), b" ");
    assert_eq!(entry(b"a.txt", Some(&[0xff, 0x41]), b"").dir(), b" ");
}

#[test]
fn entry_drops_names_that_are_not_utf8() {
    let e = entry(&[0xff, b'.', b'T', b'X', b'T'], Some(b"d"), b"");
    assert_eq!(e.stem(), b" ");
    assert_eq!(e.ext(), b"txt");
    let e = entry(&[b'a', b'.', 0xc3], Some(b"d"), b"");
    assert_eq!(e.stem(), b"a");
    assert_eq!(e.ext(), b" ");
}

#[test]
fn entry_lowercases_non_ascii_extension() {
    let e = entry("bild.ÄÖ".as_bytes(), Some(b"d"), b"");
    assert_eq!(e.ext(), "äö".as_bytes());
}

#[test]
fn entry_without_extension_is_stored_under_a_space() {
    let e = entry(b"readme", Some(b""), b"text");
    assert_eq!(e.ext(), b" ");
    assert_eq!(e.stem(), b"readme");
    assert_eq!(e.dir(), b" ");
}

#[test]
fn first_refused_file_halts_packing() {
    let ok = || Ok::<FileEntry, EntryError>(entry(b"a.txt", None, b"x"));
    assert_eq!(first_refused(&[ok(), ok()]), None);
    assert_eq!(first_refused(&[]), None);
    assert_eq!(first_refused(&[ok(), Err(EntryError::TooLarge), ok(), Err(EntryError::TooLarge)]), Some(1));
}
