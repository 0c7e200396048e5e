use vstd::prelude::*;
use crate::encode::{from_le16, from_le32, lemma_le16_roundtrip, lemma_le32_roundtrip, le16, le32};
use crate::entry::EntryView;
use crate::tree::{
    cstring, entry_head, lemma_tree_order_exists, record, record_offset, tree_body, tree_bytes,
    tree_order,
};

verus! {

/// One file as a reader of the tree finds it.
pub ghost struct TreeRecord {
    pub ext: Seq<u8>,
    pub dir: Seq<u8>,
    pub stem: Seq<u8>,
    pub crc32: u32,
    pub archive_index: u16,
    pub offset: u32,
    pub size: u32,
}

/// The first zero byte of `b` from `i` on, or the length of `b`.
pub open spec fn first_nul(b: Seq<u8>, i: int) -> int
    decreases b.len() - i,
{
    if i < 0 || i >= b.len() {
        b.len() as int
    } else if b[i] == 0 {
        i
    } else {
        first_nul(b, i + 1)
    }
}

/// The fields of an 18-byte record that follows `stem` in directory `dir`
/// of extension `ext`.
pub open spec fn read_record(ext: Seq<u8>, dir: Seq<u8>, stem: Seq<u8>, r: Seq<u8>) -> TreeRecord {
    TreeRecord {
        ext,
        dir,
        stem,
        crc32: from_le32(r.subrange(0, 4)),
        archive_index: from_le16(r.subrange(6, 8)),
        offset: from_le32(r.subrange(8, 12)),
        size: from_le32(r.subrange(12, 16)),
    }
}

/// Reads a tree as the engine does. `level` says what comes next: 0 an
/// extension, 1 a directory of `ext`, 2 a file of `dir` in `ext`. An empty
/// string closes the current list: the files of a directory, the
/// directories of an extension, or the extensions and so the tree.
#[verifier::opaque]
pub open spec fn read_tree_from(b: Seq<u8>, ext: Seq<u8>, dir: Seq<u8>, level: int) -> Option<Seq<TreeRecord>>
    decreases b.len(),
{
    let j = first_nul(b, 0);
    if 0 <= j < b.len() {
        let s = b.take(j);
        let rest = b.skip(j + 1);
        if level == 0 {
            if s.len() == 0 {
                Some(Seq::empty())
            } else {
                read_tree_from(rest, s, dir, 1)
            }
        } else if level == 1 {
            if s.len() == 0 {
                read_tree_from(rest, ext, dir, 0)
            } else {
                read_tree_from(rest, ext, s, 2)
            }
        } else if s.len() == 0 {
            read_tree_from(rest, ext, dir, 1)
        } else if rest.len() >= 18 {
            match read_tree_from(rest.skip(18), ext, dir, 2) {
                Some(t) => Some(seq![read_record(ext, dir, s, rest.take(18))] + t),
                None => None,
            }
        } else {
            None
        }
    } else {
        None
    }
}

/// The files that a reader finds in the tree `b`.
pub open spec fn read_tree(b: Seq<u8>) -> Option<Seq<TreeRecord>> {
    read_tree_from(b, Seq::empty(), Seq::empty(), 0)
}

/// A name the tree can hold: not empty, and without a zero byte.
pub open spec fn tree_name(s: Seq<u8>) -> bool {
    s.len() > 0 && forall|i: int| 0 <= i < s.len() ==> s[i] != 0
}

/// Every entry has names the tree can hold.
pub open spec fn tree_names(es: Seq<EntryView>) -> bool {
    forall|i: int|
        0 <= i < es.len() ==> tree_name((#[trigger] es[i]).ext) && tree_name(es[i].dir) && tree_name(
            es[i].stem,
        )
}

/// What the tree records of the `k`-th entry of `ord`.
pub open spec fn listed(es: Seq<EntryView>, ord: Seq<usize>, k: int) -> TreeRecord {
    let e = es[ord[k] as int];
    TreeRecord {
        ext: e.ext,
        dir: e.dir,
        stem: e.stem,
        crc32: e.crc32,
        archive_index: e.archive_index,
        offset: record_offset(es, ord, k),
        size: e.size,
    }
}

/// The files of `es` as the tree lists them, in its order.
pub open spec fn tree_listing(es: Seq<EntryView>) -> Seq<TreeRecord> {
    Seq::new(es.len(), |k: int| listed(es, tree_order(es), k))
}

/// The tree bytes from the `k`-th entry of `ord` on.
pub open spec fn tree_rest(es: Seq<EntryView>, ord: Seq<usize>, k: int) -> Seq<u8>
    decreases es.len() - k,
{
    if k >= es.len() {
        if es.len() > 0 {
            seq![0u8, 0u8, 0u8]
        } else {
            seq![0u8]
        }
    } else {
        let e = es[ord[k] as int];
        entry_head(es, ord, k) + cstring(e.stem) + record(e, record_offset(es, ord, k)) + tree_rest(
            es,
            ord,
            k + 1,
        )
    }
}

proof fn lemma_tree_rest(es: Seq<EntryView>, ord: Seq<usize>, k: int)
    requires
        0 <= k <= es.len(),
    ensures
        tree_body(es, ord, es.len() as int) + (if es.len() > 0 { seq![0u8, 0u8] } else {
            Seq::empty()
        }) + seq![0u8] == tree_body(es, ord, k) + tree_rest(es, ord, k),
    decreases es.len() - k,
{
    let n = es.len() as int;
    if k == n {
        if n > 0 {
            assert(seq![0u8, 0u8] + seq![0u8] =~= seq![0u8, 0u8, 0u8]);
        } else {
            assert(Seq::<u8>::empty() + seq![0u8] =~= seq![0u8]);
        }
    } else {
        lemma_tree_rest(es, ord, k + 1);
        let e = es[ord[k] as int];
        assert(tree_body(es, ord, k + 1) == tree_body(es, ord, k) + entry_head(es, ord, k) + cstring(
            e.stem,
        ) + record(e, record_offset(es, ord, k)));
        assert(tree_body(es, ord, k + 1) + tree_rest(es, ord, k + 1) =~= tree_body(es, ord, k)
            + tree_rest(es, ord, k));
    }
}

proof fn lemma_first_nul(s: Seq<u8>, t: Seq<u8>, i: int)
    requires
        0 <= i <= s.len(),
        forall|m: int| 0 <= m < s.len() ==> s[m] != 0,
    ensures
        first_nul(cstring(s) + t, i) == s.len(),
    decreases s.len() - i,
{
    let b = cstring(s) + t;
    if i < s.len() {
        assert(b[i] == s[i]);
        lemma_first_nul(s, t, i + 1);
    } else {
        assert(b[i] == 0);
    }
}

/// Reading a string and what follows it.
proof fn lemma_read_cstring(s: Seq<u8>, t: Seq<u8>)
    requires
        forall|m: int| 0 <= m < s.len() ==> s[m] != 0,
    ensures
        first_nul(cstring(s) + t, 0) == s.len(),
        s.len() < (cstring(s) + t).len(),
        (cstring(s) + t).take(s.len() as int) == s,
        (cstring(s) + t).skip(s.len() as int + 1) == t,
{
    lemma_first_nul(s, t, 0);
    assert((cstring(s) + t).take(s.len() as int) =~= s);
    assert((cstring(s) + t).skip(s.len() as int + 1) =~= t);
}

proof fn lemma_read_record(e: EntryView, off: u32, t: Seq<u8>)
    ensures
        (record(e, off) + t).len() >= 18,
        (record(e, off) + t).skip(18) == t,
        read_record(e.ext, e.dir, e.stem, (record(e, off) + t).take(18)) == (TreeRecord {
            ext: e.ext,
            dir: e.dir,
            stem: e.stem,
            crc32: e.crc32,
            archive_index: e.archive_index,
            offset: off,
            size: e.size,
        }),
{
    lemma_le32_roundtrip(e.crc32);
    lemma_le16_roundtrip(e.archive_index);
    lemma_le32_roundtrip(off);
    lemma_le32_roundtrip(e.size);
    let r = record(e, off);
    let b = (r + t).take(18);
    assert(b =~= r);
    assert((r + t).skip(18) =~= t);
    assert(b.subrange(0, 4) =~= le32(e.crc32));
    assert(b.subrange(6, 8) =~= le16(e.archive_index));
    assert(b.subrange(8, 12) =~= le32(off));
    assert(b.subrange(12, 16) =~= le32(e.size));
}

/// A string with no zero byte and a non-empty string are read one after the
/// other.
proof fn lemma_step(s: Seq<u8>, t: Seq<u8>, ext: Seq<u8>, dir: Seq<u8>, level: int)
    requires
        forall|m: int| 0 <= m < s.len() ==> s[m] != 0,
    ensures
        read_tree_from(cstring(s) + t, ext, dir, level) == (if level == 0 {
            if s.len() == 0 {
                Some(Seq::empty())
            } else {
                read_tree_from(t, s, dir, 1)
            }
        } else if level == 1 {
            if s.len() == 0 {
                read_tree_from(t, ext, dir, 0)
            } else {
                read_tree_from(t, ext, s, 2)
            }
        } else if s.len() == 0 {
            read_tree_from(t, ext, dir, 1)
        } else if t.len() >= 18 {
            match read_tree_from(t.skip(18), ext, dir, 2) {
                Some(x) => Some(seq![read_record(ext, dir, s, t.take(18))] + x),
                None => None,
            }
        } else {
            None
        }),
{
    lemma_read_cstring(s, t);
    reveal(read_tree_from);
}

proof fn lemma_read_rest(es: Seq<EntryView>, ord: Seq<usize>, k: int, ext: Seq<u8>, dir: Seq<u8>, level: int)
    requires
        0 <= k <= es.len(),
        ord.len() == es.len(),
        forall|q: int| 0 <= q < ord.len() ==> #[trigger] ord[q] < es.len(),
        tree_names(es),
        k == 0 ==> level == 0,
        k > 0 ==> level == 2 && ext == es[ord[k - 1] as int].ext && dir == es[ord[k - 1] as int].dir,
    ensures
        read_tree_from(tree_rest(es, ord, k), ext, dir, level) == Some(
            Seq::new((es.len() - k) as nat, |m: int| listed(es, ord, k + m)),
        ),
    decreases es.len() - k, 2int,
{
    let n = es.len() as int;
    let empty = Seq::<u8>::empty();
    if k == n {
        lemma_read_end(es, ord, ext, dir, level);
    } else {
        lemma_read_entry(es, ord, k, ext, dir, level);
    }
}

proof fn lemma_read_end(es: Seq<EntryView>, ord: Seq<usize>, ext: Seq<u8>, dir: Seq<u8>, level: int)
    requires
        es.len() == 0 ==> level == 0,
        es.len() > 0 ==> level == 2,
    ensures
        read_tree_from(tree_rest(es, ord, es.len() as int), ext, dir, level) == Some(
            Seq::<TreeRecord>::empty(),
        ),
{
    let n = es.len() as int;
    let k = n;
    let empty = Seq::<u8>::empty();
    {
        let z = seq![0u8];
        assert(forall|m: int| 0 <= m < empty.len() ==> empty[m] != 0);
        if n > 0 {
            assert(tree_rest(es, ord, k) =~= cstring(empty) + (cstring(empty) + z));
            lemma_step(empty, cstring(empty) + z, ext, dir, 2);
            lemma_step(empty, z, ext, dir, 1);
            assert(z =~= cstring(empty) + empty);
            lemma_step(empty, empty, ext, dir, 0);
        } else {
            assert(tree_rest(es, ord, k) =~= cstring(empty) + empty);
            lemma_step(empty, empty, ext, dir, 0);
        }
    }
}

proof fn lemma_read_entry(es: Seq<EntryView>, ord: Seq<usize>, k: int, ext: Seq<u8>, dir: Seq<u8>, level: int)
    requires
        0 <= k < es.len(),
        ord.len() == es.len(),
        forall|q: int| 0 <= q < ord.len() ==> #[trigger] ord[q] < es.len(),
        tree_names(es),
        k == 0 ==> level == 0,
        k > 0 ==> level == 2 && ext == es[ord[k - 1] as int].ext && dir == es[ord[k - 1] as int].dir,
    ensures
        read_tree_from(tree_rest(es, ord, k), ext, dir, level) == Some(
            Seq::new((es.len() - k) as nat, |m: int| listed(es, ord, k + m)),
        ),
    decreases es.len() - k, 1int,
{
    let empty = Seq::<u8>::empty();
    {
        let e = es[ord[k] as int];
        assert(tree_name(e.ext) && tree_name(e.dir) && tree_name(e.stem));
        let off = record_offset(es, ord, k);
        let next = tree_rest(es, ord, k + 1);
        lemma_read_rest(es, ord, k + 1, e.ext, e.dir, 2);
        let tail = Seq::new((es.len() - k - 1) as nat, |m: int| listed(es, ord, k + 1 + m));
        let r_t = record(e, off) + next;
        lemma_read_record(e, off, next);
        let from_stem = cstring(e.stem) + r_t;
        lemma_step(e.stem, r_t, e.ext, e.dir, 2);
        assert(read_record(e.ext, e.dir, e.stem, r_t.take(18)) == listed(es, ord, k));
        assert(read_tree_from(from_stem, e.ext, e.dir, 2) == Some(seq![listed(es, ord, k)] + tail));
        let from_dir = cstring(e.dir) + from_stem;
        lemma_step(e.dir, from_stem, e.ext, dir, 1);
        if k == 0 {
            let from_ext = cstring(e.ext) + from_dir;
            lemma_step(e.ext, from_dir, ext, dir, 0);
            assert(tree_rest(es, ord, k) =~= from_ext);
        } else {
            let p = es[ord[k - 1] as int];
            if p.ext != e.ext {
                let from_ext = cstring(e.ext) + from_dir;
                lemma_step(e.ext, from_dir, p.ext, p.dir, 0);
                lemma_step(empty, from_ext, p.ext, p.dir, 1);
                lemma_step(empty, cstring(empty) + from_ext, p.ext, p.dir, 2);
                assert(tree_rest(es, ord, k) =~= cstring(empty) + (cstring(empty) + from_ext));
            } else if p.dir != e.dir {
                lemma_step(empty, from_dir, p.ext, p.dir, 2);
                assert(tree_rest(es, ord, k) =~= cstring(empty) + from_dir);
            } else {
                assert(tree_rest(es, ord, k) =~= from_stem);
            }
        }
        assert(Seq::new((es.len() - k) as nat, |m: int| listed(es, ord, k + m)) =~= seq![
            listed(es, ord, k),
        ] + tail);
    }
}

/// A reader of the tree finds every entry, each once and in the order of
/// the tree, under its extension, directory and stem, with its checksum,
/// archive index, offset and size.
pub proof fn lemma_tree_reads_back(es: Seq<EntryView>)
    requires
        es.len() <= usize::MAX,
        tree_names(es),
    ensures
        read_tree(tree_bytes(es)) == Some(tree_listing(es)),
{
    lemma_tree_order_exists(es);
    let ord = tree_order(es);
    lemma_tree_rest(es, ord, 0);
    assert(tree_body(es, ord, 0) == Seq::<u8>::empty());
    assert(tree_bytes(es) =~= tree_rest(es, ord, 0));
    lemma_read_rest(es, ord, 0, Seq::empty(), Seq::empty(), 0);
    assert(Seq::new((es.len() - 0) as nat, |m: int| listed(es, ord, 0 + m)) =~= tree_listing(es));
}

} // verus!
