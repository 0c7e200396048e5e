use vstd::prelude::*;
use crate::entry::{sized, EntryView, FileEntry};
use crate::layout::{directory_bytes, directory_file};
use crate::listing::{lemma_tree_reads_back, read_tree, tree_listing, tree_names};
use crate::order::{
    is_ranked, lemma_ranked_covers, lemma_ranked_exists, lemma_ranked_unique, rank_sort, Ranking,
    StrictOrder,
};
use crate::tree::{
    build_tree, embedded_len, is_embedded, lemma_tree_order_exists, max_archive_len, record_offset,
    tree_bytes, tree_order, views, VpkError,
};

verus! {

/// The size up to which files are packed together into one archive chunk
/// (600 MiB).
pub open spec fn chunk_limit() -> nat {
    600 * 1024 * 1024
}

/// How many archive chunks the format can number: chunk indices stay below
/// the marker of embedded data.
pub open spec fn max_chunks() -> nat {
    0x7fff
}

/// A file of `size` bytes may go into a chunk holding `fill` bytes: the
/// chunk is empty, or the file fits below the limit.
pub open spec fn fits(fill: nat, size: nat) -> bool {
    fill == 0 || fill + size <= chunk_limit()
}

/// The first chunk from `j` on that a file of `size` bytes fits in, or the
/// number of chunks when none does.
pub open spec fn first_fit_from(chunks: Seq<Seq<u8>>, size: nat, j: int) -> int
    decreases chunks.len() - j,
{
    if j < 0 || j >= chunks.len() {
        chunks.len() as int
    } else if fits(chunks[j].len(), size) {
        j
    } else {
        first_fit_from(chunks, size, j + 1)
    }
}

pub open spec fn first_fit(chunks: Seq<Seq<u8>>, size: nat) -> int {
    first_fit_from(chunks, size, 0)
}

/// `data` appended to chunk `j`, or put into a new chunk when `j` is past the last.
pub open spec fn add_to_chunk(chunks: Seq<Seq<u8>>, j: int, data: Seq<u8>) -> Seq<Seq<u8>> {
    if j < chunks.len() {
        chunks.update(j, chunks[j] + data)
    } else {
        chunks.push(data)
    }
}

/// Entry `i` is packed before entry `j`: it is larger, or as large and came first.
pub open spec fn size_before(es: Seq<EntryView>, i: int, j: int) -> bool {
    es[i].size > es[j].size || (es[i].size == es[j].size && i < j)
}

/// The order in which files are packed: largest first.
pub ghost struct SizeOrder {
    pub es: Seq<EntryView>,
}

impl StrictOrder for SizeOrder {
    open spec fn size(&self) -> nat {
        self.es.len()
    }

    open spec fn before(&self, i: int, j: int) -> bool {
        size_before(self.es, i, j)
    }

    proof fn lemma_strict_total(&self, i: int, j: int, k: int) {
    }
}

/// The packing order of `es`.
pub open spec fn size_order(es: Seq<EntryView>) -> Seq<usize> {
    choose|ord: Seq<usize>| is_ranked(&SizeOrder { es }, ord)
}

/// The chunks after packing the first `k` entries of `ord`, first fit: each
/// file goes into the first chunk it fits in, or into a new chunk. There is
/// always at least one chunk.
pub open spec fn packing(es: Seq<EntryView>, ord: Seq<usize>, k: int) -> Seq<Seq<u8>>
    decreases k,
{
    if k <= 0 {
        seq![Seq::empty()]
    } else {
        let c = packing(es, ord, k - 1);
        let e = es[ord[k - 1] as int];
        add_to_chunk(c, first_fit(c, e.size as nat), e.data)
    }
}

/// Chunk and offset of the `k`-th entry of `ord`.
pub open spec fn slot(es: Seq<EntryView>, ord: Seq<usize>, k: int) -> (int, int) {
    let c = packing(es, ord, k);
    let j = first_fit(c, es[ord[k] as int].size as nat);
    (j, if j < c.len() { c[j].len() as int } else { 0 })
}

/// `e` placed at `s`.
pub open spec fn placed(e: EntryView, s: (int, int)) -> EntryView {
    EntryView { archive_index: s.0 as u16, offset: s.1 as u32, ..e }
}

/// The same file: all but its placement agree.
pub open spec fn same_file(a: EntryView, b: EntryView) -> bool {
    &&& a.ext == b.ext
    &&& a.dir == b.dir
    &&& a.stem == b.stem
    &&& a.data == b.data
    &&& a.crc32 == b.crc32
    &&& a.size == b.size
}

/// The chunks of a multi-file archive, packed in the order of `size_order`.
pub open spec fn chunks_of(es: Seq<EntryView>) -> Seq<Seq<u8>> {
    packing(es, size_order(es), es.len() as int)
}

/// Entries ranked by size, largest first.
pub struct SizeRank<'a> {
    pub entries: &'a [FileEntry],
}

impl<'a> StrictOrder for SizeRank<'a> {
    open spec fn size(&self) -> nat {
        self.entries@.len()
    }

    open spec fn before(&self, i: int, j: int) -> bool {
        size_before(views(self.entries@), i, j)
    }

    proof fn lemma_strict_total(&self, i: int, j: int, k: int) {
    }
}

impl<'a> Ranking for SizeRank<'a> {
    fn count(&self) -> (n: usize) {
        self.entries.len()
    }

    fn less(&self, i: usize, j: usize) -> (r: bool) {
        let a = self.entries[i].size();
        let b = self.entries[j].size();
        a > b || (a == b && i < j)
    }
}

proof fn lemma_first_fit_bound(chunks: Seq<Seq<u8>>, size: nat, j: int)
    requires
        0 <= j,
    ensures
        j <= first_fit_from(chunks, size, j) <= chunks.len() || j > chunks.len(),
        first_fit_from(chunks, size, j) < chunks.len() ==> fits(
            chunks[first_fit_from(chunks, size, j)].len(),
            size,
        ),
        forall|m: int| j <= m < first_fit_from(chunks, size, j) ==> !fits(#[trigger] chunks[m].len(), size),
    decreases chunks.len() - j,
{
    if j < chunks.len() && !fits(chunks[j].len(), size) {
        lemma_first_fit_bound(chunks, size, j + 1);
    }
}

proof fn lemma_packing_grows(es: Seq<EntryView>, ord: Seq<usize>, k: int, m: int)
    requires
        0 <= k <= m,
    ensures
        packing(es, ord, k).len() <= packing(es, ord, m).len(),
    decreases m - k,
{
    if k < m {
        lemma_packing_grows(es, ord, k, m - 1);
        let c = packing(es, ord, m - 1);
        let e = es[ord[m - 1] as int];
        lemma_first_fit_bound(c, e.size as nat, 0);
    }
}

proof fn lemma_packing_nonempty(es: Seq<EntryView>, ord: Seq<usize>, k: int)
    ensures
        packing(es, ord, k).len() >= 1,
    decreases k,
{
    if k > 0 {
        lemma_packing_nonempty(es, ord, k - 1);
        lemma_packing_grows(es, ord, k - 1, k);
    }
}

/// A multi-file archive: the chunks holding the data, and the directory file.
pub struct MultiArchive {
    pub chunks: Vec<Vec<u8>>,
    pub directory: Vec<u8>,
}

pub open spec fn chunk_views(chunks: Seq<Vec<u8>>) -> Seq<Seq<u8>> {
    chunks.map_values(|c: Vec<u8>| c@)
}

/// Whether a file of `size` bytes goes into a chunk holding `fill` bytes.
fn fits_in(fill: usize, size: u32) -> (r: bool)
    ensures
        r == fits(fill as nat, size as nat),
{
    fill == 0 || (size as u64 <= 600 * 1024 * 1024 && fill as u64 <= 600 * 1024 * 1024 - size as u64)
}

proof fn lemma_nothing_embedded(es: Seq<EntryView>, ord: Seq<usize>, k: int)
    requires
        forall|i: int| 0 <= i < es.len() ==> !is_embedded(#[trigger] es[i]),
        forall|m: int| 0 <= m < ord.len() ==> #[trigger] ord[m] < es.len(),
        k <= ord.len(),
    ensures
        embedded_len(es, ord, k) == 0,
    decreases k,
{
    if k > 0 {
        lemma_nothing_embedded(es, ord, k - 1);
        assert(!is_embedded(es[ord[k - 1] as int]));
    }
}

/// The packing order is the one that `rank_sort` finds.
proof fn lemma_size_order_unique(es: Seq<EntryView>, ord: Seq<usize>)
    requires
        is_ranked(&SizeOrder { es }, ord),
    ensures
        size_order(es) == ord,
        is_ranked(&SizeOrder { es }, size_order(es)),
{
    let other = size_order(es);
    assert(is_ranked(&SizeOrder { es }, other));
    lemma_ranked_unique(&SizeOrder { es }, ord, other);
}

/// Lays out the entries over archive chunks, largest file first, each into
/// the first chunk with room for it below the chunk limit (a file larger than
/// the limit gets a chunk of its own), and builds the directory file for them.
pub fn multi_vpk(entries: &mut Vec<FileEntry>) -> (r: Result<MultiArchive, VpkError>)
    ensures
        final(entries)@.len() == old(entries)@.len(),
        forall|i: int|
            0 <= i < old(entries)@.len() ==> same_file(
                #[trigger] views(final(entries)@)[i],
                views(old(entries)@)[i],
            ),
        chunks_of(views(old(entries)@)).len() <= max_chunks() ==> forall|k: int|
            0 <= k < old(entries)@.len() ==> views(final(entries)@)[#[trigger] size_order(
                views(old(entries)@),
            )[k] as int] == placed(
                views(old(entries)@)[size_order(views(old(entries)@))[k] as int],
                slot(views(old(entries)@), size_order(views(old(entries)@)), k),
            ),
        match r {
            Ok(a) => {
                &&& chunks_of(views(old(entries)@)).len() <= max_chunks()
                &&& chunk_views(a.chunks@) == chunks_of(views(old(entries)@))
                &&& tree_bytes(views(final(entries)@)).len() <= max_archive_len()
                &&& a.directory@ == directory_bytes(tree_bytes(views(final(entries)@)))
            },
            Err(e) => {
                ||| e == VpkError::TooManyChunks && chunks_of(views(old(entries)@)).len()
                    > max_chunks()
                ||| e == VpkError::TreeTooLarge && chunks_of(views(old(entries)@)).len()
                    <= max_chunks() && tree_bytes(views(final(entries)@)).len()
                    > max_archive_len()
            },
        },
{
    let ghost es0 = views(entries@);
    let n = entries.len();
    let ord = rank_sort(&SizeRank { entries: entries.as_slice() });
    proof {
        assert(is_ranked(&SizeOrder { es: es0 }, ord@));
        lemma_size_order_unique(es0, ord@);
    }
    let ghost o = ord@;
    let mut chunks: Vec<Vec<u8>> = Vec::new();
    chunks.push(Vec::new());
    assert(chunk_views(chunks@) =~= packing(es0, o, 0));
    for k in 0..n
        invariant
            n == entries@.len(),
            es0.len() == n,
            es0 == views(old(entries)@),
            o == ord@,
            o == size_order(es0),
            is_ranked(&SizeOrder { es: es0 }, o),
            chunk_views(chunks@) == packing(es0, o, k as int),
            packing(es0, o, k as int).len() <= max_chunks(),
            forall|i: int| 0 <= i < n ==> same_file(#[trigger] entries@[i]@, es0[i]),
            forall|m: int| 0 <= m < k ==> (#[trigger] entries@[o[m] as int]@).archive_index < 0x7fff,
            forall|m: int|
                0 <= m < k ==> #[trigger] entries@[o[m] as int]@ == placed(
                    es0[o[m] as int],
                    slot(es0, o, m),
                ),
    {
        let i = ord[k];
        let size = entries[i].size();
        let ghost c = chunk_views(chunks@);
        let mut j: usize = 0;
        while j < chunks.len() && !fits_in(chunks[j].len(), size)
            invariant
                j <= chunks@.len(),
                c == chunk_views(chunks@),
                first_fit(c, size as nat) == first_fit_from(c, size as nat, j as int),
            decreases chunks@.len() - j,
        {
            assert(c[j as int] == chunks@[j as int]@);
            j = j + 1;
        }
        if j < chunks.len() {
            assert(c[j as int] == chunks@[j as int]@);
        }
        assert(j == first_fit(c, size as nat));
        if j == chunks.len() {
            if j >= 0x7fff {
                proof {
                    lemma_packing_grows(es0, o, k + 1, n as int);
                }
                return Err(VpkError::TooManyChunks);
            }
            chunks.push(Vec::new());
        }
        let off = chunks[j].len();
        assert(off as nat == slot(es0, o, k as int).1);
        assert(off <= 600 * 1024 * 1024);
        let ghost before_chunks = chunks@;
        chunks[j].extend_from_slice(entries[i].data());
        proof {
            let e = es0[i as int];
            assert(e.data == entries@[i as int]@.data);
            let expected = add_to_chunk(c, j as int, e.data);
            assert(packing(es0, o, k + 1) == expected);
            assert(chunks@.len() == before_chunks.len());
            assert forall|x: int| 0 <= x < expected.len() implies chunk_views(chunks@)[x] == expected[x] by {
                if x != j {
                    assert(chunks@[x] == before_chunks[x]);
                    assert(chunk_views(chunks@)[x] == chunks@[x]@);
                }
            }
            assert(chunk_views(chunks@) =~= expected);
        }
        let ghost before = entries@;
        entries[i].place(j as u16, off as u32);
        proof {
            assert forall|m: int| 0 <= m < k implies o[m] != i by {
                SizeOrder { es: es0 }.lemma_strict_total(o[m] as int, o[m] as int, o[m] as int);
                assert(size_before(es0, o[m] as int, o[k as int] as int));
            }
            assert(forall|x: int| 0 <= x < n && x != i ==> entries@[x] == before[x]);
        }
    }
    proof {
        assert forall|x: int| 0 <= x < n implies !is_embedded(#[trigger] views(entries@)[x]) by {
            lemma_ranked_covers(&SizeOrder { es: es0 }, o, x);
            let m = choose|m: int| 0 <= m < o.len() && o[m] == x as usize;
            assert(entries@[o[m] as int]@.archive_index < 0x7fff);
        }
    }
    let tree = match build_tree(entries.as_slice()) {
        Ok((tree, _)) => tree,
        Err(e) => {
            proof {
                let es1 = views(entries@);
                lemma_nothing_embedded(es1, tree_order(es1), es1.len() as int);
            }
            return Err(e);
        },
    };
    let directory = directory_file(tree.as_slice())?;
    Ok(MultiArchive { chunks, directory })
}

/// Every list of entries has a packing order.
pub proof fn lemma_size_order_exists(es: Seq<EntryView>)
    requires
        es.len() <= usize::MAX,
    ensures
        is_ranked(&SizeOrder { es }, size_order(es)),
{
    lemma_ranked_exists(&SizeOrder { es });
}

/// Indices into `es` only.
pub open spec fn indices_of(es: Seq<EntryView>, ord: Seq<usize>) -> bool {
    forall|q: int| 0 <= q < ord.len() ==> #[trigger] ord[q] < es.len()
}

/// Each packed file can be read back from its chunk at its offset, and it
/// stays there while later files are packed; a file that does not open its
/// chunk ends within the chunk limit.
pub proof fn lemma_packing_readback(es: Seq<EntryView>, ord: Seq<usize>, k: int, m: int)
    requires
        sized(es),
        indices_of(es, ord),
        0 <= m < k <= ord.len(),
    ensures
        ({
            let (j, off) = slot(es, ord, m);
            let c = packing(es, ord, k);
            let e = es[ord[m] as int];
            &&& 0 <= j < c.len()
            &&& 0 <= off
            &&& off + e.size <= c[j].len()
            &&& c[j].subrange(off, off + e.size) == e.data
            &&& off > 0 ==> off + e.size <= chunk_limit()
        }),
    decreases k - m,
{
    let (j, off) = slot(es, ord, m);
    let e = es[ord[m] as int];
    assert(e.data.len() == e.size);
    let c0 = packing(es, ord, m);
    lemma_first_fit_bound(c0, e.size as nat, 0);
    if k == m + 1 {
        let c = packing(es, ord, k);
        if j < c0.len() {
            assert(c[j] == c0[j] + e.data);
            assert(c[j].subrange(off, off + e.size) =~= e.data);
        } else {
            assert(c[j] == e.data);
            assert(c[j].subrange(off, off + e.size) =~= e.data);
        }
    } else {
        lemma_packing_readback(es, ord, k - 1, m);
        let cp = packing(es, ord, k - 1);
        let c = packing(es, ord, k);
        let e2 = es[ord[k - 1] as int];
        let j2 = first_fit(cp, e2.size as nat);
        lemma_first_fit_bound(cp, e2.size as nat, 0);
        if j2 == j {
            assert(c[j] == cp[j] + e2.data);
            assert(c[j].subrange(off, off + e.size) =~= cp[j].subrange(off, off + e.size));
        } else {
            assert(c[j] == cp[j]);
        }
    }
}

/// No chunk grows beyond `bound` when it is at least the chunk limit and no
/// file is larger: a chunk passes the limit only by one file that opens it.
pub proof fn lemma_packing_bounded(es: Seq<EntryView>, ord: Seq<usize>, k: int, bound: nat)
    requires
        sized(es),
        indices_of(es, ord),
        0 <= k <= ord.len(),
        bound >= chunk_limit(),
        forall|i: int| 0 <= i < es.len() ==> (#[trigger] es[i]).size <= bound,
    ensures
        forall|j: int|
            0 <= j < packing(es, ord, k).len() ==> (#[trigger] packing(es, ord, k)[j]).len() <= bound,
    decreases k,
{
    if k > 0 {
        lemma_packing_bounded(es, ord, k - 1, bound);
        let cp = packing(es, ord, k - 1);
        let e = es[ord[k - 1] as int];
        assert(e.data.len() == e.size);
        lemma_first_fit_bound(cp, e.size as nat, 0);
        let j2 = first_fit(cp, e.size as nat);
        let c = packing(es, ord, k);
        assert forall|j: int| 0 <= j < c.len() implies (#[trigger] c[j]).len() <= bound by {
            if j == j2 && j2 < cp.len() {
                assert(c[j] == cp[j] + e.data);
            } else if j < cp.len() {
                assert(c[j] == cp[j]);
            }
        }
    }
}

/// First fit: a file goes to the first chunk it fits in; none of the chunks
/// before it had room.
pub proof fn lemma_first_fit(es: Seq<EntryView>, ord: Seq<usize>, m: int)
    requires
        indices_of(es, ord),
        0 <= m < ord.len(),
    ensures
        ({
            let c = packing(es, ord, m);
            let size = es[ord[m] as int].size as nat;
            let j = slot(es, ord, m).0;
            &&& 0 <= j <= c.len()
            &&& j < c.len() ==> fits(c[j].len(), size)
            &&& forall|q: int| 0 <= q < j ==> !fits(#[trigger] c[q].len(), size)
        }),
{
    let c = packing(es, ord, m);
    lemma_first_fit_bound(c, es[ord[m] as int].size as nat, 0);
}

/// In a multi-file archive each file can be read back from the chunk and at
/// the offset that its entry records.
pub proof fn lemma_chunks_hold_files(es: Seq<EntryView>, k: int)
    requires
        sized(es),
        es.len() <= usize::MAX,
        chunks_of(es).len() <= max_chunks(),
        0 <= k < es.len(),
    ensures
        ({
            let o = size_order(es);
            let e = placed(es[o[k] as int], slot(es, o, k));
            &&& e.archive_index < chunks_of(es).len()
            &&& e.offset + e.size <= chunks_of(es)[e.archive_index as int].len()
            &&& chunks_of(es)[e.archive_index as int].subrange(
                e.offset as int,
                e.offset + e.size,
            ) == e.data
        }),
{
    let o = size_order(es);
    lemma_size_order_exists(es);
    lemma_packing_readback(es, o, es.len() as int, k);
    let (j, off) = slot(es, o, k);
    let e0 = es[o[k] as int];
    lemma_packing_nonempty(es, o, k);
    let c0 = packing(es, o, k);
    lemma_first_fit_bound(c0, e0.size as nat, 0);
    assert(off <= chunk_limit());
}

/// A multi-file archive reads back: the tree of the placed entries lists
/// every file with its chunk, offset and size, and that chunk holds the
/// file's data there.
pub proof fn lemma_multi_archive_reads_back(es0: Seq<EntryView>, es1: Seq<EntryView>, q: int)
    requires
        es0.len() <= usize::MAX,
        sized(es0),
        es1.len() == es0.len(),
        chunks_of(es0).len() <= max_chunks(),
        forall|k: int|
            0 <= k < es0.len() ==> es1[#[trigger] size_order(es0)[k] as int] == placed(
                es0[size_order(es0)[k] as int],
                slot(es0, size_order(es0), k),
            ),
        tree_names(es1),
        0 <= q < es1.len(),
    ensures
        read_tree(tree_bytes(es1)) == Some(tree_listing(es1)),
        ({
            let rec = tree_listing(es1)[q];
            let e = es1[tree_order(es1)[q] as int];
            &&& rec.ext == e.ext && rec.dir == e.dir && rec.stem == e.stem
            &&& rec.crc32 == e.crc32 && rec.size == e.size
            &&& rec.archive_index < chunks_of(es0).len()
            &&& rec.offset + rec.size <= chunks_of(es0)[rec.archive_index as int].len()
            &&& chunks_of(es0)[rec.archive_index as int].subrange(
                rec.offset as int,
                rec.offset + rec.size,
            ) == e.data
        }),
{
    lemma_tree_reads_back(es1);
    lemma_tree_order_exists(es1);
    lemma_size_order_exists(es0);
    let o = size_order(es0);
    let i = tree_order(es1)[q];
    lemma_ranked_covers(&SizeOrder { es: es0 }, o, i as int);
    let k = choose|k: int| 0 <= k < o.len() && o[k] == i;
    assert(es1[o[k] as int] == placed(es0[o[k] as int], slot(es0, o, k)));
    lemma_chunks_hold_files(es0, k);
    assert(!is_embedded(es1[i as int]));
    assert(record_offset(es1, tree_order(es1), q) == es1[i as int].offset);
}

} // verus!
