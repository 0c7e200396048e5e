use async_vpk::entry::FileEntry;
use async_vpk::layout::{directory_file, single_vpk, vpk_header};
use async_vpk::pack::multi_vpk;
use async_vpk::tree::{build_tree, bytes_equal, write_cstring};

fn entry(name: &[u8], parent: Option<&[u8]>, data: &[u8]) -> FileEntry {
    FileEntry::new(name, parent, data.to_vec()).unwrap()
}

fn record(out: &mut Vec<u8>, crc: u32, archive: u16, offset: u32, size: u32) {
    out.extend_from_slice(&crc.to_le_bytes());
    out.extend_from_slice(&[0, 0]);
    out.extend_from_slice(&archive.to_le_bytes());
    out.extend_from_slice(&offset.to_le_bytes());
    out.extend_from_slice(&size.to_le_bytes());
    out.extend_from_slice(&[0xff, 0xff]);
}

#[test]
fn cstring_is_terminated_by_zero() {
    let mut buf = vec![7u8];
    write_cstring(&mut buf, b"txt");
    assert_eq!(buf, vec![7, b't', b'x', b't', 0]);
}

#[test]
fn header_is_signature_version_and_tree_size() {
    assert_eq!(
        vpk_header(0x0102_0304),
        vec![0x34, 0x12, 0xAA, 0x55, 1, 0, 0, 0, 4, 3, 2, 1]
    );
}

#[test]
fn empty_tree_is_a_single_zero() {
    let (tree, data) = build_tree(&[]).unwrap();
    assert_eq!(tree, vec![0]);
    assert!(data.is_empty());
}

#[test]
fn single_archive_has_exact_layout() {
    let mut entries = vec![
        entry(b"b.txt", Some(b"dir"), b"BB"),
        entry(b"a.txt", Some(b""), b"A"),
        entry(b"c.VMT", Some(b"dir"), b"CCC"),
    ];
    let archive = single_vpk(&mut entries).unwrap();
    for e in &entries {
        assert_eq!(e.archive_index(), 0x7FFF);
    }
    let mut tree = Vec::new();
    tree.extend_from_slice(b"txt\0 \0a\0");
    record(&mut tree, crc32fast::hash(b"A"), 0x7FFF, 0, 1);
    tree.extend_from_slice(b"\0dir\0b\0");
    record(&mut tree, crc32fast::hash(b"BB"), 0x7FFF, 1, 2);
    tree.extend_from_slice(b"\0\0vmt\0dir\0c\0");
    record(&mut tree, crc32fast::hash(b"CCC"), 0x7FFF, 3, 3);
    tree.extend_from_slice(b"\0\0\0");
    let mut expected = vpk_header(tree.len() as u32);
    expected.extend_from_slice(&tree);
    assert_eq!(archive.directory, expected);
    assert_eq!(archive.data, b"ABBCCC".to_vec());
}

#[test]
fn single_archive_keeps_input_order_for_equal_names() {
    let mut entries = vec![
        entry(b"x.TXT", Some(b"d"), b"first"),
        entry(b"x.txt", Some(b"d"), b"second"),
    ];
    let archive = single_vpk(&mut entries).unwrap();
    assert_eq!(archive.data, b"firstsecond".to_vec());
}

#[test]
fn multi_archive_packs_largest_first() {
    let mut entries = vec![
        entry(b"small.bin", Some(b"d"), b"abc"),
        entry(b"big.bin", Some(b"d"), b"0123456789"),
        entry(b"mid.bin", Some(b"d"), b"vwxyz"),
    ];
    let archive = multi_vpk(&mut entries).unwrap();
    assert_eq!(archive.chunks.len(), 1);
    assert_eq!(archive.chunks[0], b"0123456789vwxyzabc".to_vec());
    let placements: Vec<(u16, u32)> = entries.iter().map(|e| (e.archive_index(), e.offset())).collect();
    assert_eq!(placements, vec![(0, 15), (0, 0), (0, 10)]);
    let mut tree = Vec::new();
    tree.extend_from_slice(b"bin\0d\0big\0");
    record(&mut tree, crc32fast::hash(b"0123456789"), 0, 0, 10);
    tree.extend_from_slice(b"mid\0");
    record(&mut tree, crc32fast::hash(b"vwxyz"), 0, 10, 5);
    tree.extend_from_slice(b"small\0");
    record(&mut tree, crc32fast::hash(b"abc"), 0, 15, 3);
    tree.extend_from_slice(b"\0\0\0");
    assert_eq!(archive.directory, directory_file(&tree).unwrap());
}

#[test]
fn multi_archive_without_files_has_one_empty_chunk() {
    let mut entries: Vec<FileEntry> = Vec::new();
    let archive = multi_vpk(&mut entries).unwrap();
    assert_eq!(archive.chunks, vec![Vec::<u8>::new()]);
    assert_eq!(archive.directory, vec![0x34, 0x12, 0xAA, 0x55, 1, 0, 0, 0, 1, 0, 0, 0, 0]);
}

#[test]
fn bytes_compare_equal() {
    assert!(bytes_equal(b"abc", b"abc"));
    assert!(!bytes_equal(b"abc", b"abd"));
    assert!(!bytes_equal(b"ab", b"abc"));
}

struct Record {
    path: (Vec<u8>, Vec<u8>, Vec<u8>),
    crc: u32,
    archive: u16,
    offset: u32,
    size: u32,
}

fn read_cstring(buf: &[u8], pos: &mut usize) -> Vec<u8> {
    let start = *pos;
    while buf[*pos] != 0 {
        *pos += 1;
    }
    let s = buf[start..*pos].to_vec();
    *pos += 1;
    s
}

fn read_u32(buf: &[u8], pos: &mut usize) -> u32 {
    let v = u32::from_le_bytes([buf[*pos], buf[*pos + 1], buf[*pos + 2], buf[*pos + 3]]);
    *pos += 4;
    v
}

fn read_u16(buf: &[u8], pos: &mut usize) -> u16 {
    let v = u16::from_le_bytes([buf[*pos], buf[*pos + 1]]);
    *pos += 2;
    v
}

/// Reads a directory file back the way the engine does.
fn parse_directory(dir: &[u8]) -> Vec<Record> {
    let mut pos = 0;
    assert_eq!(read_u32(dir, &mut pos), 0x55AA_1234);
    assert_eq!(read_u32(dir, &mut pos), 1);
    let tree_size = read_u32(dir, &mut pos) as usize;
    assert_eq!(dir.len(), 12 + tree_size);
    let mut out = Vec::new();
    loop {
        let ext = read_cstring(dir, &mut pos);
        if ext.is_empty() {
            break;
        }
        loop {
            let d = read_cstring(dir, &mut pos);
            if d.is_empty() {
                break;
            }
            loop {
                let stem = read_cstring(dir, &mut pos);
                if stem.is_empty() {
                    break;
                }
                let crc = read_u32(dir, &mut pos);
                assert_eq!(read_u16(dir, &mut pos), 0);
                let archive = read_u16(dir, &mut pos);
                let offset = read_u32(dir, &mut pos);
                let size = read_u32(dir, &mut pos);
                assert_eq!(read_u16(dir, &mut pos), 0xFFFF);
                out.push(Record { path: (ext.clone(), d.clone(), stem), crc, archive, offset, size });
            }
        }
    }
    assert_eq!(pos, dir.len());
    out
}

fn sample_entries() -> Vec<FileEntry> {
    vec![
        entry(b"sky.vtf", Some(b"materials\\skybox"), b"sky-texture-data"),
        entry(b"sky.vmt", Some(b"materials\\skybox"), b"shader"),
        entry(b"crate.mdl", Some(b"models/props"), b"model bytes here"),
        entry(b"readme.txt", Some(b""), b"hi"),
        entry(b"crate.vvd", Some(b"models/props"), b""),
        entry(b"a.mdl", Some(b"models"), b"0"),
        entry(b"LICENSE", Some(b""), b"free"),
        entry(&[0xff, 0xfe, b'.', b'c', b'f', b'g'], Some(b"cfg"), b"odd name"),
    ]
}

#[test]
fn single_archive_reads_back_every_file() {
    let mut entries = sample_entries();
    let archive = single_vpk(&mut entries).unwrap();
    let records = parse_directory(&archive.directory);
    assert_eq!(records.len(), entries.len());
    for r in &records {
        let e = entries
            .iter()
            .find(|e| (e.ext().to_vec(), e.dir().to_vec(), e.stem().to_vec()) == r.path)
            .unwrap();
        assert_eq!(r.archive, 0x7FFF);
        assert_eq!(r.crc, crc32fast::hash(e.data()));
        assert_eq!(r.size as usize, e.data().len());
        let start = r.offset as usize;
        assert_eq!(&archive.data[start..start + r.size as usize], e.data());
    }
}

#[test]
fn multi_archive_reads_back_every_file() {
    let mut entries = sample_entries();
    let archive = multi_vpk(&mut entries).unwrap();
    let records = parse_directory(&archive.directory);
    assert_eq!(records.len(), entries.len());
    for r in &records {
        let e = entries
            .iter()
            .find(|e| (e.ext().to_vec(), e.dir().to_vec(), e.stem().to_vec()) == r.path)
            .unwrap();
        assert_eq!((r.archive, r.offset), (e.archive_index(), e.offset()));
        let chunk = &archive.chunks[r.archive as usize];
        let start = r.offset as usize;
        assert_eq!(&chunk[start..start + r.size as usize], e.data());
    }
}

#[test]
fn output_does_not_depend_on_input_order() {
    let mut forward = sample_entries();
    let mut backward = sample_entries();
    backward.reverse();
    let a = single_vpk(&mut forward).unwrap();
    let b = single_vpk(&mut backward).unwrap();
    assert_eq!(a.directory, b.directory);
    assert_eq!(a.data, b.data);
}

#[test]
fn tree_lists_extensions_then_directories_in_byte_order() {
    let mut entries = sample_entries();
    let archive = single_vpk(&mut entries).unwrap();
    let records = parse_directory(&archive.directory);
    let paths: Vec<(Vec<u8>, Vec<u8>, Vec<u8>)> = records.into_iter().map(|r| r.path).collect();
    let mut sorted = paths.clone();
    sorted.sort();
    assert_eq!(paths, sorted);
    assert_eq!(paths[0], (b" ".to_vec(), b" ".to_vec(), b"LICENSE".to_vec()));
    assert_eq!(paths[1], (b"cfg".to_vec(), b"cfg".to_vec(), b" ".to_vec()));
    assert_eq!(paths[2], (b"mdl".to_vec(), b"models".to_vec(), b"a".to_vec()));
}

#[test]
fn files_without_extension_keep_the_tree_readable() {
    let mut entries = sample_entries();
    let archive = single_vpk(&mut entries).unwrap();
    let records = parse_directory(&archive.directory);
    assert_eq!(records.len(), 8);
    assert!(records.iter().any(|r| r.path == (b" ".to_vec(), b" ".to_vec(), b"LICENSE".to_vec())));
    assert!(records.iter().any(|r| r.path == (b"cfg".to_vec(), b"cfg".to_vec(), b" ".to_vec())));
}
