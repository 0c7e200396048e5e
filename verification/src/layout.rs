use vstd::prelude::*;
use crate::encode::{from_le32, le32, lemma_le32_roundtrip, push_le32};
use crate::entry::{sized, EntryView, FileEntry};
use crate::listing::{lemma_tree_reads_back, read_tree, tree_listing, tree_names};
use crate::tree::{
    build_tree, embedded_data, embedded_total, is_embedded, lemma_embedded_readback,
    lemma_tree_order_exists, max_archive_len, tree_bytes, tree_order, views, VpkError,
};

verus! {

/// The signature that opens every VPK file.
pub open spec fn vpk_signature() -> u32 {
    0x55aa1234
}

/// The header of a VPK version 1 directory: signature, version and the
/// length of the tree that follows.
pub open spec fn header(tree_size: u32) -> Seq<u8> {
    le32(vpk_signature()) + le32(1) + le32(tree_size)
}

/// A directory file: the header, then the tree.
pub open spec fn directory_bytes(tree: Seq<u8>) -> Seq<u8> {
    header(tree.len() as u32) + tree
}

/// The header for a tree of `tree_size` bytes.
pub fn vpk_header(tree_size: u32) -> (r: Vec<u8>)
    ensures
        r@ == header(tree_size),
{
    let mut h: Vec<u8> = Vec::new();
    push_le32(&mut h, 0x55aa1234);
    push_le32(&mut h, 1);
    push_le32(&mut h, tree_size);
    assert(h@ =~= header(tree_size));
    h
}

/// The directory file for `tree`, if its length fits in the header.
pub fn directory_file(tree: &[u8]) -> (r: Result<Vec<u8>, VpkError>)
    ensures
        match r {
            Ok(d) => tree@.len() <= max_archive_len() && d@ == directory_bytes(tree@),
            Err(e) => e == VpkError::TreeTooLarge && tree@.len() > max_archive_len(),
        },
{
    if tree.len() > 0xffff_ffffusize {
        return Err(VpkError::TreeTooLarge);
    }
    let mut d = vpk_header(tree.len() as u32);
    d.extend_from_slice(tree);
    assert(d@ =~= directory_bytes(tree@));
    Ok(d)
}

/// `e` with its data marked as embedded after the tree.
pub open spec fn embed(e: EntryView) -> EntryView {
    EntryView { archive_index: 0x7fff, offset: 0, ..e }
}

/// A single-file archive: the header and tree, and the data that follows them.
pub struct SingleArchive {
    pub directory: Vec<u8>,
    pub data: Vec<u8>,
}

/// Lays out all entries in one file: every entry is marked as embedded, and
/// the file is the header, the tree and the data of all entries in the order
/// of the tree.
pub fn single_vpk(entries: &mut Vec<FileEntry>) -> (r: Result<SingleArchive, VpkError>)
    ensures
        views(final(entries)@) == views(old(entries)@).map_values(|e: EntryView| embed(e)),
        match r {
            Ok(a) => {
                &&& embedded_total(views(final(entries)@)) <= max_archive_len()
                &&& tree_bytes(views(final(entries)@)).len() <= max_archive_len()
                &&& a.directory@ == directory_bytes(tree_bytes(views(final(entries)@)))
                &&& a.data@ == embedded_data(views(final(entries)@))
            },
            Err(e) => {
                ||| e == VpkError::DataTooLarge && embedded_total(views(final(entries)@))
                    > max_archive_len()
                ||| e == VpkError::TreeTooLarge && embedded_total(views(final(entries)@))
                    <= max_archive_len() && tree_bytes(views(final(entries)@)).len()
                    > max_archive_len()
            },
        },
{
    let n = entries.len();
    let ghost old_views = views(entries@);
    for i in 0..n
        invariant
            n == entries@.len(),
            old_views.len() == n,
            forall|k: int| 0 <= k < i ==> #[trigger] entries@[k]@ == embed(old_views[k]),
            forall|k: int| i <= k < n ==> #[trigger] entries@[k]@ == old_views[k],
    {
        let ghost before = entries@;
        entries[i].mark_embedded();
        assert(forall|k: int| 0 <= k < n && k != i ==> entries@[k] == before[k]);
    }
    assert(views(entries@) =~= old_views.map_values(|e: EntryView| embed(e)));
    let (tree, data) = build_tree(entries.as_slice())?;
    let directory = directory_file(tree.as_slice())?;
    Ok(SingleArchive { directory, data })
}

/// A single-file archive reads back: the tree size in the header gives the
/// tree, the tree lists every file with its record, and the bytes at
/// 12 + tree size + the recorded offset are the file's data.
pub proof fn lemma_single_archive_reads_back(es: Seq<EntryView>, k: int)
    requires
        es.len() <= usize::MAX,
        sized(es),
        tree_names(es),
        forall|i: int| 0 <= i < es.len() ==> is_embedded(#[trigger] es[i]),
        embedded_total(es) <= max_archive_len(),
        tree_bytes(es).len() <= max_archive_len(),
        0 <= k < es.len(),
    ensures
        ({
            let file = directory_bytes(tree_bytes(es)) + embedded_data(es);
            let t = from_le32(file.subrange(8, 12)) as int;
            let rec = tree_listing(es)[k];
            let e = es[tree_order(es)[k] as int];
            &&& read_tree(file.subrange(12, 12 + t)) == Some(tree_listing(es))
            &&& rec.ext == e.ext && rec.dir == e.dir && rec.stem == e.stem
            &&& rec.crc32 == e.crc32 && rec.size == e.size && rec.archive_index == 0x7fff
            &&& 12 + t + rec.offset + rec.size <= file.len()
            &&& file.subrange(12 + t + rec.offset, 12 + t + rec.offset + rec.size) == e.data
        }),
{
    let tree = tree_bytes(es);
    let data = embedded_data(es);
    let file = directory_bytes(tree) + data;
    lemma_le32_roundtrip(tree.len() as u32);
    assert(file.subrange(8, 12) =~= le32(tree.len() as u32));
    let t = tree.len() as int;
    assert(file.subrange(12, 12 + t) =~= tree);
    lemma_tree_reads_back(es);
    lemma_tree_order_exists(es);
    let e = es[tree_order(es)[k] as int];
    assert(is_embedded(e));
    lemma_embedded_readback(es, k);
    let rec = tree_listing(es)[k];
    assert(file.subrange(12 + t + rec.offset, 12 + t + rec.offset + rec.size) =~= data.subrange(
        rec.offset as int,
        rec.offset + rec.size,
    ));
}

} // verus!
