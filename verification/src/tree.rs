use vstd::prelude::*;
use crate::encode::{le16, le32, push_le16, push_le32};
use crate::entry::{sized, EntryView, FileEntry};
use crate::order::{
    bytes_less, bytes_lt, is_ranked, lemma_bytes_lt_strict, lemma_bytes_lt_transitive,
    lemma_ranked_exists, lemma_ranked_unique, rank_sort, Ranking, StrictOrder,
};

verus! {

/// The views of a list of entries.
pub open spec fn views(entries: Seq<FileEntry>) -> Seq<EntryView> {
    entries.map_values(|e: FileEntry| e@)
}

/// Two entries sit at the same place of the tree.
pub open spec fn same_key(a: EntryView, b: EntryView) -> bool {
    a.ext == b.ext && a.dir == b.dir && a.stem == b.stem
}

/// The order of the tree: by extension, then directory, then stem.
pub open spec fn key_lt(a: EntryView, b: EntryView) -> bool {
    if a.ext != b.ext {
        bytes_lt(a.ext, b.ext)
    } else if a.dir != b.dir {
        bytes_lt(a.dir, b.dir)
    } else {
        bytes_lt(a.stem, b.stem)
    }
}

/// Entry `i` is written before entry `j`: it has a smaller key, or the same
/// key and it came first.
pub open spec fn tree_before(es: Seq<EntryView>, i: int, j: int) -> bool {
    if same_key(es[i], es[j]) {
        i < j
    } else {
        key_lt(es[i], es[j])
    }
}

/// `ord` lists every index of `es` once, in the order of the tree.
pub open spec fn tree_ordered(es: Seq<EntryView>, ord: Seq<usize>) -> bool {
    &&& ord.len() == es.len()
    &&& forall|k: int| 0 <= k < ord.len() ==> #[trigger] ord[k] < es.len()
    &&& forall|a: int, b: int|
        0 <= a < b < ord.len() ==> tree_before(es, #[trigger] ord[a] as int, #[trigger] ord[b] as int)
}

/// The order in which the entries of `es` appear in the tree.
pub open spec fn tree_order(es: Seq<EntryView>) -> Seq<usize> {
    choose|ord: Seq<usize>| tree_ordered(es, ord)
}

/// A string as the tree stores it: its bytes and a terminating zero.
pub open spec fn cstring(s: Seq<u8>) -> Seq<u8> {
    s.push(0)
}

/// The marker of an entry whose data follows the tree in the same file.
pub open spec fn embedded_marker() -> u16 {
    0x7fff
}

pub open spec fn is_embedded(e: EntryView) -> bool {
    e.archive_index == embedded_marker()
}

/// The fixed part of a file's record: checksum, preload size (none), archive
/// index, offset, size and the terminator.
pub open spec fn record(e: EntryView, offset: u32) -> Seq<u8> {
    le32(e.crc32) + le16(0) + le16(e.archive_index) + le32(offset) + le32(e.size) + le16(0xffff)
}

/// Bytes of embedded data that the first `k` entries in `ord` contribute.
pub open spec fn embedded_len(es: Seq<EntryView>, ord: Seq<usize>, k: int) -> nat
    decreases k,
{
    if k <= 0 {
        0
    } else {
        let e = es[ord[k - 1] as int];
        embedded_len(es, ord, k - 1) + if is_embedded(e) { e.size as nat } else { 0 }
    }
}

/// The embedded data of the first `k` entries in `ord`, one after another.
pub open spec fn data_section(es: Seq<EntryView>, ord: Seq<usize>, k: int) -> Seq<u8>
    decreases k,
{
    if k <= 0 {
        Seq::empty()
    } else {
        let e = es[ord[k - 1] as int];
        data_section(es, ord, k - 1) + if is_embedded(e) { e.data } else { Seq::empty() }
    }
}

/// The offset recorded for the `k`-th entry in `ord`: for embedded data its
/// place in the data section, otherwise its place in its archive chunk.
pub open spec fn record_offset(es: Seq<EntryView>, ord: Seq<usize>, k: int) -> u32 {
    let e = es[ord[k] as int];
    if is_embedded(e) {
        embedded_len(es, ord, k) as u32
    } else {
        e.offset
    }
}

/// What opens the `k`-th entry in `ord`: when its extension differs from the
/// one before, the previous directory and extension are closed and the new
/// extension and directory named; when only the directory differs, the
/// previous directory is closed and the new one named.
pub open spec fn entry_head(es: Seq<EntryView>, ord: Seq<usize>, k: int) -> Seq<u8> {
    let e = es[ord[k] as int];
    if k == 0 {
        cstring(e.ext) + cstring(e.dir)
    } else {
        let p = es[ord[k - 1] as int];
        if p.ext != e.ext {
            seq![0u8, 0u8] + cstring(e.ext) + cstring(e.dir)
        } else if p.dir != e.dir {
            seq![0u8] + cstring(e.dir)
        } else {
            Seq::empty()
        }
    }
}

/// The tree bytes for the first `k` entries in `ord`.
pub open spec fn tree_body(es: Seq<EntryView>, ord: Seq<usize>, k: int) -> Seq<u8>
    decreases k,
{
    if k <= 0 {
        Seq::empty()
    } else {
        let e = es[ord[k - 1] as int];
        tree_body(es, ord, k - 1) + entry_head(es, ord, k - 1) + cstring(e.stem) + record(
            e,
            record_offset(es, ord, k - 1),
        )
    }
}

/// The directory tree of a VPK version 1 archive holding `es`: extensions,
/// within them directories, within those the files, each list closed by a
/// zero byte.
pub open spec fn tree_bytes(es: Seq<EntryView>) -> Seq<u8> {
    let ord = tree_order(es);
    let n = es.len() as int;
    tree_body(es, ord, n) + (if n > 0 { seq![0u8, 0u8] } else { Seq::empty() }) + seq![0u8]
}

/// The embedded data of `es`, in the order of the tree.
pub open spec fn embedded_data(es: Seq<EntryView>) -> Seq<u8> {
    data_section(es, tree_order(es), es.len() as int)
}

/// The number of bytes of embedded data in `es`.
pub open spec fn embedded_total(es: Seq<EntryView>) -> nat {
    embedded_len(es, tree_order(es), es.len() as int)
}

/// The largest amount of data one archive file can address.
pub open spec fn max_archive_len() -> nat {
    u32::MAX as nat
}

proof fn lemma_key_lt_strict(a: EntryView, b: EntryView, c: EntryView)
    ensures
        !same_key(a, b) ==> key_lt(a, b) != key_lt(b, a),
        same_key(a, b) ==> !key_lt(a, b),
        key_lt(a, b) && key_lt(b, c) ==> key_lt(a, c),
        key_lt(a, b) && same_key(b, c) ==> key_lt(a, c),
        same_key(a, b) && key_lt(b, c) ==> key_lt(a, c),
{
    lemma_bytes_lt_strict(a.ext, b.ext);
    lemma_bytes_lt_strict(a.dir, b.dir);
    lemma_bytes_lt_strict(a.stem, b.stem);
    lemma_bytes_lt_strict(a.ext, c.ext);
    lemma_bytes_lt_strict(b.ext, c.ext);
    lemma_bytes_lt_strict(a.dir, c.dir);
    lemma_bytes_lt_strict(b.dir, c.dir);
    if key_lt(a, b) && key_lt(b, c) {
        if a.ext != b.ext && b.ext != c.ext {
            lemma_bytes_lt_transitive(a.ext, b.ext, c.ext);
            lemma_bytes_lt_strict(a.ext, c.ext);
        } else if a.ext == b.ext && b.ext == c.ext && a.dir != b.dir && b.dir != c.dir {
            lemma_bytes_lt_transitive(a.dir, b.dir, c.dir);
        } else if a.ext == b.ext && b.ext == c.ext && a.dir == b.dir && b.dir == c.dir {
            lemma_bytes_lt_transitive(a.stem, b.stem, c.stem);
            lemma_bytes_lt_strict(a.stem, c.stem);
        }
    }
}

/// Entries ranked by their place in the tree.
pub struct TreeRank<'a> {
    pub entries: &'a [FileEntry],
}

impl<'a> StrictOrder for TreeRank<'a> {
    open spec fn size(&self) -> nat {
        self.entries@.len()
    }

    open spec fn before(&self, i: int, j: int) -> bool {
        tree_before(views(self.entries@), i, j)
    }

    proof fn lemma_strict_total(&self, i: int, j: int, k: int) {
        let es = views(self.entries@);
        lemma_key_lt_strict(es[i], es[j], es[k]);
        lemma_key_lt_strict(es[j], es[i], es[k]);
        lemma_key_lt_strict(es[i], es[k], es[j]);
        lemma_key_lt_strict(es[i], es[i], es[i]);
    }
}

impl<'a> Ranking for TreeRank<'a> {
    fn count(&self) -> (n: usize) {
        self.entries.len()
    }

    fn less(&self, i: usize, j: usize) -> (r: bool) {
        let a = &self.entries[i];
        let b = &self.entries[j];
        proof {
            lemma_bytes_lt_strict(a@.ext, b@.ext);
            lemma_bytes_lt_strict(a@.dir, b@.dir);
            lemma_bytes_lt_strict(a@.stem, b@.stem);
        }
        if bytes_less(a.ext(), b.ext()) {
            true
        } else if bytes_less(b.ext(), a.ext()) {
            false
        } else if bytes_less(a.dir(), b.dir()) {
            true
        } else if bytes_less(b.dir(), a.dir()) {
            false
        } else if bytes_less(a.stem(), b.stem()) {
            true
        } else if bytes_less(b.stem(), a.stem()) {
            false
        } else {
            i < j
        }
    }
}

/// There is exactly one order of the tree, so `tree_order` is it.
pub proof fn lemma_tree_order_unique(es: Seq<EntryView>, ord: Seq<usize>)
    requires
        tree_ordered(es, ord),
    ensures
        tree_order(es) == ord,
        tree_ordered(es, tree_order(es)),
{
    let other = tree_order(es);
    assert(tree_ordered(es, other));
    lemma_tree_ordered_unique(es, ord, other);
}

proof fn lemma_tree_ordered_unique(es: Seq<EntryView>, o1: Seq<usize>, o2: Seq<usize>)
    requires
        tree_ordered(es, o1),
        tree_ordered(es, o2),
    ensures
        o1 == o2,
{
    let r = TreeOrder { es };
    lemma_ranked_unique(&r, o1, o2);
}

/// The order of the tree over entry views.
pub ghost struct TreeOrder {
    pub es: Seq<EntryView>,
}

impl StrictOrder for TreeOrder {
    open spec fn size(&self) -> nat {
        self.es.len()
    }

    open spec fn before(&self, i: int, j: int) -> bool {
        tree_before(self.es, i, j)
    }

    proof fn lemma_strict_total(&self, i: int, j: int, k: int) {
        let es = self.es;
        lemma_key_lt_strict(es[i], es[j], es[k]);
        lemma_key_lt_strict(es[j], es[i], es[k]);
        lemma_key_lt_strict(es[i], es[k], es[j]);
        lemma_key_lt_strict(es[i], es[i], es[i]);
    }
}

/// Every list of entries has an order of the tree.
pub proof fn lemma_tree_order_exists(es: Seq<EntryView>)
    requires
        es.len() <= usize::MAX,
    ensures
        tree_ordered(es, tree_order(es)),
{
    let r = TreeOrder { es };
    lemma_ranked_exists(&r);
    let w = crate::order::ranked_prefix(&r, r.size());
    assert(tree_ordered(es, w));
}

proof fn lemma_data_section_prefix(es: Seq<EntryView>, ord: Seq<usize>, k: int, m: int)
    requires
        sized(es),
        forall|q: int| 0 <= q < ord.len() ==> #[trigger] ord[q] < es.len(),
        0 <= k <= m <= ord.len(),
    ensures
        data_section(es, ord, k).len() == embedded_len(es, ord, k),
        data_section(es, ord, m).len() == embedded_len(es, ord, m),
        data_section(es, ord, m).subrange(0, embedded_len(es, ord, k) as int) == data_section(es, ord, k),
    decreases m - k,
{
    if k < m {
        lemma_data_section_prefix(es, ord, k, m - 1);
        let e = es[ord[m - 1] as int];
        assert(e.data.len() == e.size);
        let prev = data_section(es, ord, m - 1);
        lemma_embedded_len_monotone(es, ord, k, m - 1);
        assert(data_section(es, ord, m) == prev + if is_embedded(e) { e.data } else { Seq::empty() });
        assert(data_section(es, ord, m).subrange(0, embedded_len(es, ord, k) as int) =~= prev.subrange(
            0,
            embedded_len(es, ord, k) as int,
        ));
    } else {
        lemma_data_section_len(es, ord, k);
        assert(data_section(es, ord, k).subrange(0, embedded_len(es, ord, k) as int) =~= data_section(es, ord, k));
    }
}

proof fn lemma_data_section_len(es: Seq<EntryView>, ord: Seq<usize>, k: int)
    requires
        sized(es),
        forall|q: int| 0 <= q < ord.len() ==> #[trigger] ord[q] < es.len(),
        k <= ord.len(),
    ensures
        data_section(es, ord, k).len() == embedded_len(es, ord, k),
    decreases k,
{
    if k > 0 {
        lemma_data_section_len(es, ord, k - 1);
        assert(es[ord[k - 1] as int].data.len() == es[ord[k - 1] as int].size);
    }
}

/// Each embedded file can be read back from the data section at the offset
/// that its record gives.
pub proof fn lemma_embedded_readback(es: Seq<EntryView>, k: int)
    requires
        sized(es),
        es.len() <= usize::MAX,
        embedded_total(es) <= max_archive_len(),
        0 <= k < es.len(),
        is_embedded(es[tree_order(es)[k] as int]),
    ensures
        ({
            let e = es[tree_order(es)[k] as int];
            let off = record_offset(es, tree_order(es), k);
            &&& off + e.size <= embedded_data(es).len()
            &&& embedded_data(es).subrange(off as int, off + e.size) == e.data
        }),
{
    let ord = tree_order(es);
    let n = es.len() as int;
    lemma_tree_order_exists(es);
    let e = es[ord[k] as int];
    assert(e.data.len() == e.size);
    lemma_data_section_prefix(es, ord, k + 1, n);
    lemma_data_section_prefix(es, ord, k, k + 1);
    lemma_embedded_len_monotone(es, ord, k + 1, n);
    let start = embedded_len(es, ord, k) as int;
    let all = embedded_data(es);
    let upto = data_section(es, ord, k + 1);
    assert(upto == data_section(es, ord, k) + e.data);
    assert(all.subrange(start, start + e.size) =~= upto.subrange(start, start + e.size));
    assert(upto.subrange(start, start + e.size) =~= e.data);
}

/// No two entries sit at the same place of the tree.
pub open spec fn distinct_keys(es: Seq<EntryView>) -> bool {
    forall|i: int, j: int| 0 <= i < j < es.len() ==> !same_key(#[trigger] es[i], #[trigger] es[j])
}

/// `es2` holds the entries of `es1` in another order: `es2[i]` is `es1[p[i]]`.
pub open spec fn reordering(es1: Seq<EntryView>, es2: Seq<EntryView>, p: Seq<usize>) -> bool {
    &&& es2.len() == es1.len()
    &&& p.len() == es1.len()
    &&& forall|i: int| 0 <= i < p.len() ==> #[trigger] p[i] < es1.len() && es2[i] == es1[p[i] as int]
    &&& forall|i: int, j: int| 0 <= i < p.len() && 0 <= j < p.len() && i != j ==> #[trigger] p[i] != #[trigger] p[j]
}

proof fn lemma_same_arrangement(
    es1: Seq<EntryView>,
    o1: Seq<usize>,
    es2: Seq<EntryView>,
    o2: Seq<usize>,
    k: int,
)
    requires
        0 <= k <= o1.len(),
        o1.len() == o2.len(),
        forall|m: int| 0 <= m < o1.len() ==> es1[#[trigger] o1[m] as int] == es2[o2[m] as int],
    ensures
        tree_body(es1, o1, k) == tree_body(es2, o2, k),
        embedded_len(es1, o1, k) == embedded_len(es2, o2, k),
        data_section(es1, o1, k) == data_section(es2, o2, k),
    decreases k,
{
    if k > 0 {
        lemma_same_arrangement(es1, o1, es2, o2, k - 1);
        assert(es1[o1[k - 1] as int] == es2[o2[k - 1] as int]);
        if k > 1 {
            assert(es1[o1[k - 2] as int] == es2[o2[k - 2] as int]);
        }
        assert(entry_head(es1, o1, k - 1) == entry_head(es2, o2, k - 1));
        assert(record_offset(es1, o1, k - 1) == record_offset(es2, o2, k - 1));
    }
}

/// When no two entries share a name, the tree and the embedded data do not
/// depend on the order in which the entries come: the output is the same
/// from run to run.
pub proof fn lemma_tree_independent_of_input_order(es1: Seq<EntryView>, es2: Seq<EntryView>, p: Seq<usize>)
    requires
        reordering(es1, es2, p),
        distinct_keys(es1),
        es1.len() <= usize::MAX,
    ensures
        tree_bytes(es1) == tree_bytes(es2),
        embedded_data(es1) == embedded_data(es2),
        embedded_total(es1) == embedded_total(es2),
{
    let n = es1.len() as int;
    lemma_tree_order_exists(es1);
    lemma_tree_order_exists(es2);
    let o1 = tree_order(es1);
    let o2 = tree_order(es2);
    let q = o2.map_values(|i: usize| p[i as int]);
    assert forall|a: int, b: int| 0 <= a < b < q.len() implies tree_before(
        es1,
        #[trigger] q[a] as int,
        #[trigger] q[b] as int,
    ) by {
        let x = o2[a] as int;
        let y = o2[b] as int;
        assert(tree_before(es2, x, y));
        assert(x != y);
        assert(p[x] != p[y]);
        assert(es2[x] == es1[q[a] as int]);
        assert(es2[y] == es1[q[b] as int]);
        if q[a] < q[b] {
            assert(!same_key(es1[q[a] as int], es1[q[b] as int]));
        } else {
            assert(!same_key(es1[q[b] as int], es1[q[a] as int]));
        }
    }
    assert(tree_ordered(es1, q));
    lemma_tree_order_unique(es1, q);
    assert forall|m: int| 0 <= m < o1.len() implies es1[#[trigger] o1[m] as int] == es2[o2[m] as int] by {
        assert(o1[m] == q[m]);
    }
    lemma_same_arrangement(es1, o1, es2, o2, n);
}

/// Why an archive cannot be written.
#[derive(Debug, Clone, Copy, PartialEq, Eq, Structural)]
pub enum VpkError {
    /// The data embedded after the tree would not fit in the 4 GiB that a
    /// VPK version 1 file can address.
    DataTooLarge,
    /// The tree is longer than its header can state.
    TreeTooLarge,
    /// More archive chunks are needed than the format can number.
    TooManyChunks,
}

/// Whether two byte strings are equal.
pub fn bytes_equal(a: &[u8], b: &[u8]) -> (r: bool)
    ensures
        r == (a@ == b@),
{
    if a.len() != b.len() {
        return false;
    }
    let n = a.len();
    for i in 0..n
        invariant
            n == a@.len(),
            n == b@.len(),
            forall|k: int| 0 <= k < i ==> a@[k] == b@[k],
    {
        if a[i] != b[i] {
            return false;
        }
    }
    assert(a@ =~= b@);
    true
}

/// Appends `s` and a terminating zero.
pub fn write_cstring(buf: &mut Vec<u8>, s: &[u8])
    ensures
        final(buf)@ == old(buf)@ + cstring(s@),
{
    buf.extend_from_slice(s);
    buf.push(0);
    assert(final(buf)@ =~= old(buf)@ + cstring(s@));
}

/// Appends the fixed part of the record of `e`, with `offset` as its offset.
fn push_record(buf: &mut Vec<u8>, e: &FileEntry, offset: u32)
    ensures
        final(buf)@ == old(buf)@ + record(e@, offset),
{
    push_le32(buf, e.crc32());
    push_le16(buf, 0);
    push_le16(buf, e.archive_index());
    push_le32(buf, offset);
    push_le32(buf, e.size());
    push_le16(buf, 0xffff);
    assert(final(buf)@ =~= old(buf)@ + record(e@, offset));
}

proof fn lemma_embedded_len_monotone(es: Seq<EntryView>, ord: Seq<usize>, k: int, m: int)
    requires
        0 <= k <= m,
    ensures
        embedded_len(es, ord, k) <= embedded_len(es, ord, m),
    decreases m - k,
{
    if k < m {
        lemma_embedded_len_monotone(es, ord, k, m - 1);
    }
}

/// The directory tree of the entries and the data embedded after it: the
/// data of each entry marked as embedded, in the order of the tree. The data
/// must fit in what one archive file can address.
pub fn build_tree(entries: &[FileEntry]) -> (r: Result<(Vec<u8>, Vec<u8>), VpkError>)
    ensures
        tree_ordered(views(entries@), tree_order(views(entries@))),
        match r {
            Ok((tree, data)) => {
                &&& tree@ == tree_bytes(views(entries@))
                &&& data@ == embedded_data(views(entries@))
                &&& embedded_total(views(entries@)) <= max_archive_len()
            },
            Err(e) => e == VpkError::DataTooLarge && embedded_total(views(entries@)) > max_archive_len(),
        },
{
    let ghost es = views(entries@);
    let rank = TreeRank { entries };
    let ord = rank_sort(&rank);
    proof {
        assert(tree_ordered(es, ord@));
        lemma_tree_order_unique(es, ord@);
    }
    let ghost o = ord@;
    let n = entries.len();
    let mut tree: Vec<u8> = Vec::new();
    let mut data: Vec<u8> = Vec::new();
    for k in 0..n
        invariant
            n == entries@.len(),
            es == views(entries@),
            o == ord@,
            o == tree_order(es),
            tree_ordered(es, o),
            tree@ == tree_body(es, o, k as int),
            data@ == data_section(es, o, k as int),
            data@.len() == embedded_len(es, o, k as int),
            embedded_len(es, o, k as int) <= max_archive_len(),
    {
        let i = ord[k];
        let e = &entries[i];
        assert(es[i as int] == e@);
        if k == 0 {
            write_cstring(&mut tree, e.ext());
            write_cstring(&mut tree, e.dir());
            assert(tree@ =~= tree_body(es, o, k as int) + entry_head(es, o, k as int));
        } else {
            let p = &entries[ord[k - 1]];
            assert(es[o[k - 1] as int] == p@);
            if !bytes_equal(p.ext(), e.ext()) {
                tree.push(0);
                tree.push(0);
                write_cstring(&mut tree, e.ext());
                write_cstring(&mut tree, e.dir());
            } else if !bytes_equal(p.dir(), e.dir()) {
                tree.push(0);
                write_cstring(&mut tree, e.dir());
            }
            assert(tree@ =~= tree_body(es, o, k as int) + entry_head(es, o, k as int));
        }
        write_cstring(&mut tree, e.stem());
        let offset = if e.archive_index() == 0x7fff {
            let size = e.size();
            if data.len() as u64 + size as u64 > 0xffff_ffffu64 {
                proof {
                    lemma_embedded_len_monotone(es, o, k + 1, n as int);
                }
                return Err(VpkError::DataTooLarge);
            }
            let off = data.len() as u32;
            data.extend_from_slice(e.data());
            off
        } else {
            e.offset()
        };
        assert(offset == record_offset(es, o, k as int));
        push_record(&mut tree, e, offset);
        assert(data@ =~= data_section(es, o, k + 1));
    }
    tree.push(0);
    if n > 0 {
        tree.push(0);
        tree.push(0);
    }
    assert(tree@ =~= tree_bytes(es));
    Ok((tree, data))
}

} // verus!
