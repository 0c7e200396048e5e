use vstd::prelude::*;
use vstd::utf8::valid_utf8;
use crate::entry::{dir_of, ext_of, max_file_size, split_name, stem_of, EntryView};
use crate::icon::{decode_safe, is_largest};
use crate::mode::{exceeds_single_limit, GuiState};
use crate::order::{bytes_lt, is_ranked, StrictOrder};
use crate::pack::{
    indices_of, lemma_first_fit, lemma_size_order_exists, max_chunks, packing, size_order, slot,
    SizeOrder,
};
use crate::tree::{embedded_marker, max_archive_len};

verus! {

/// First fit below 600 MiB: a file goes into the first chunk that is empty
/// or still has room for it within 600 MiB (629145600 bytes); every chunk
/// before that one is non-empty and would pass 600 MiB with it; a new chunk
/// is opened only when no chunk has that room; and the file's data are
/// appended to the chunk it goes into.
pub proof fn law_first_fit_below_600_mib(es: Seq<EntryView>, ord: Seq<usize>, m: int)
    requires
        indices_of(es, ord),
        0 <= m < ord.len(),
    ensures
        ({
            let c = packing(es, ord, m);
            let e = es[ord[m] as int];
            let s = e.size as int;
            let j = slot(es, ord, m).0;
            &&& 0 <= j <= c.len()
            &&& forall|q: int| 0 <= q < j ==> #[trigger] c[q].len() > 0 && c[q].len() + s > 629145600
            &&& j < c.len() ==> (c[j].len() == 0 || c[j].len() + s <= 629145600)
            &&& slot(es, ord, m).1 == (if j < c.len() { c[j].len() as int } else { 0 })
            &&& packing(es, ord, m + 1) == (if j < c.len() {
                c.update(j, c[j] + e.data)
            } else {
                c.push(e.data)
            })
        }),
{
    lemma_first_fit(es, ord, m);
}

/// Files are packed largest first; files of the same size keep the order
/// in which they came.
pub proof fn law_largest_first(es: Seq<EntryView>, a: int, b: int)
    requires
        es.len() <= usize::MAX,
        0 <= a < b < es.len(),
    ensures
        es[size_order(es)[a] as int].size >= es[size_order(es)[b] as int].size,
        es[size_order(es)[a] as int].size == es[size_order(es)[b] as int].size ==> size_order(es)[a]
            < size_order(es)[b],
{
    lemma_size_order_exists(es);
    let o = size_order(es);
    assert(is_ranked(&SizeOrder { es }, o));
    assert(SizeOrder { es }.before(o[a] as int, o[b] as int));
}

/// Chunk indices stop short of the index that marks embedded data, so a
/// chunk is never taken for data after the tree.
pub proof fn law_chunk_indices_below_marker()
    ensures
        max_chunks() == embedded_marker() as nat,
        embedded_marker() == 0x7fff,
{
}

/// Every backslash of a parent path becomes a forward slash, and nothing
/// else changes; an empty, missing or non-UTF-8 parent is a single space.
pub proof fn law_dir_forward_slashes(parent: Option<Seq<u8>>)
    ensures
        match parent {
            Some(p) => if valid_utf8(p) && p.len() > 0 {
                &&& dir_of(parent).len() == p.len()
                &&& forall|i: int|
                    0 <= i < p.len() ==> #[trigger] dir_of(parent)[i] == (if p[i] == 0x5c {
                        0x2fu8
                    } else {
                        p[i]
                    })
                &&& forall|i: int| 0 <= i < p.len() ==> dir_of(parent)[i] != 0x5c
            } else {
                dir_of(parent) == seq![0x20u8]
            },
            None => dir_of(parent) == seq![0x20u8],
        },
{
}

/// The tree never gets an empty extension or stem: a file without an
/// extension is listed under a single space, and a stem that is valid
/// UTF-8 is kept as it is.
pub proof fn law_names_never_empty(name: Seq<u8>)
    ensures
        ext_of(name).len() > 0,
        stem_of(name).len() > 0,
        split_name(name).1 is None ==> ext_of(name) == seq![0x20u8],
        valid_utf8(split_name(name).0) && split_name(name).0.len() > 0 ==> stem_of(name)
            == split_name(name).0,
        !valid_utf8(split_name(name).0) ==> stem_of(name) == seq![0x20u8],
{
}

/// A file is accepted exactly when its size fits the 32-bit size field of
/// its record, and embedded data exactly when their offsets fit the 32-bit
/// offset field.
pub proof fn law_sizes_fit_32_bits(s: nat)
    ensures
        s <= max_file_size() <==> s <= 0xffff_ffff,
        s <= max_archive_len() <==> s <= 0xffff_ffff,
{
}

/// A name splits at its last `.`: with such a dot at `k > 0`, the stem is
/// what comes before and the extension what comes after; without a dot, or
/// with the only dot first, the whole name is the stem.
pub proof fn law_split_at_last_dot(name: Seq<u8>, k: int)
    requires
        name != seq![0x2eu8, 0x2eu8],
    ensures
        0 < k < name.len() && name[k] == 0x2e && (forall|i: int| k < i < name.len() ==> name[i]
            != 0x2e) ==> split_name(name) == (name.take(k), Some(name.skip(k + 1))),
        (forall|i: int| 0 < i < name.len() ==> name[i] != 0x2e) ==> split_name(name) == (
            name,
            None::<Seq<u8>>,
        ),
{
    if 0 < k < name.len() && name[k] == 0x2e && (forall|i: int| k < i < name.len() ==> name[i]
        != 0x2e) {
        lemma_last_dot_is(name, name.len() as int, k);
    }
    if forall|i: int| 0 < i < name.len() ==> name[i] != 0x2e {
        lemma_no_dot_after_first(name, name.len() as int);
    }
}

proof fn lemma_last_dot_is(name: Seq<u8>, m: int, k: int)
    requires
        0 <= k < m <= name.len(),
        name[k] == 0x2e,
        forall|i: int| k < i < name.len() ==> name[i] != 0x2e,
    ensures
        crate::entry::last_dot_before(name, m) == k,
    decreases m,
{
    if m - 1 > k {
        lemma_last_dot_is(name, m - 1, k);
    }
}

proof fn lemma_no_dot_after_first(name: Seq<u8>, m: int)
    requires
        0 <= m <= name.len(),
        forall|i: int| 0 < i < name.len() ==> name[i] != 0x2e,
    ensures
        crate::entry::last_dot_before(name, m) <= 0,
    decreases m,
{
    if m > 0 {
        lemma_no_dot_after_first(name, m - 1);
    }
}

/// The tree order of names is the byte order of Rust strings: a proper
/// prefix comes first, otherwise the first differing byte decides.
pub proof fn law_bytes_order(a: Seq<u8>, b: Seq<u8>)
    ensures
        bytes_lt(a, b) <==> (a.len() < b.len() && a == b.take(a.len() as int)) || (exists|k: int|
            0 <= k < a.len() && k < b.len() && a.take(k) == b.take(k) && a[k] < b[k]),
    decreases a.len(),
{
    if a.len() > 0 && b.len() > 0 && a[0] == b[0] {
        let a1 = a.drop_first();
        let b1 = b.drop_first();
        law_bytes_order(a1, b1);
        if a1.len() < b1.len() && a1 == b1.take(a1.len() as int) {
            assert forall|i: int| 0 <= i < a.len() implies a[i] == b.take(a.len() as int)[i] by {
                if i > 0 {
                    assert(a[i] == a1[i - 1]);
                    assert(a1[i - 1] == b1.take(a1.len() as int)[i - 1]);
                }
            }
            assert(a =~= b.take(a.len() as int));
        }
        if a.len() < b.len() && a == b.take(a.len() as int) {
            assert(a1 =~= b1.take(a1.len() as int));
        }
        if exists|k: int| 0 <= k < a1.len() && k < b1.len() && a1.take(k) == b1.take(k) && a1[k] < b1[k] {
            let k = choose|k: int| 0 <= k < a1.len() && k < b1.len() && a1.take(k) == b1.take(k) && a1[k] < b1[k];
            assert(a.take(k + 1) =~= b.take(k + 1)) by {
                assert forall|i: int| 0 <= i < k + 1 implies a[i] == b[i] by {
                    if i > 0 {
                        assert(a1.take(k)[i - 1] == b1.take(k)[i - 1]);
                    }
                }
            }
            assert(a[k + 1] < b[k + 1]);
        }
        if exists|k: int| 0 <= k < a.len() && k < b.len() && a.take(k) == b.take(k) && a[k] < b[k] {
            let k = choose|k: int| 0 <= k < a.len() && k < b.len() && a.take(k) == b.take(k) && a[k] < b[k];
            assert(k > 0);
            assert(a1.take(k - 1) =~= b1.take(k - 1)) by {
                assert forall|i: int| 0 <= i < k - 1 implies a1[i] == b1[i] by {
                    assert(a.take(k)[i + 1] == b.take(k)[i + 1]);
                }
            }
            assert(a1[k - 1] < b1[k - 1]);
        }
    } else if a.len() > 0 && b.len() > 0 {
        if a[0] < b[0] {
            assert(a.take(0) =~= b.take(0));
        }
        if exists|k: int| 0 <= k < a.len() && k < b.len() && a.take(k) == b.take(k) && a[k] < b[k] {
            let k = choose|k: int| 0 <= k < a.len() && k < b.len() && a.take(k) == b.take(k) && a[k] < b[k];
            if k > 0 {
                assert(a.take(k)[0] == b.take(k)[0]);
            }
        }
        if a.len() < b.len() && a == b.take(a.len() as int) {
            assert(a[0] == b.take(a.len() as int)[0]);
        }
    } else if a.len() == 0 && b.len() > 0 {
        assert(a =~= b.take(0));
    }
}

/// Above 600 MB (629145600 bytes) the input goes into chunks whatever the
/// user asked for, and the larger an input, the more so: the decision is
/// taken on the full 64-bit size.
pub proof fn law_multi_above_limit(t: u64, u: u64)
    ensures
        exceeds_single_limit(t) <==> t > 629145600,
        exceeds_single_limit(t) && t <= u ==> exceeds_single_limit(u),
{
}

/// Single-file mode can be chosen exactly when there is no input yet or it
/// holds at most 600 MB (629145600 bytes).
pub proof fn law_single_available_up_to_limit<P>(s: GuiState<P>)
    ensures
        s.single_allowed() <==> match s.input_size {
            Some(size) => size <= 629145600,
            None => true,
        },
{
}

/// The icon chosen has the most pixels (counted up to `u32::MAX`): no image
/// with more pixels is passed over, and a later image has strictly fewer.
pub proof fn law_largest_icon_has_most_pixels(dims: Seq<(u32, u32)>, b: int)
    requires
        is_largest(dims, b),
    ensures
        0 <= b < dims.len(),
        forall|j: int|
            0 <= j < dims.len() && dims[j].0 * dims[j].1 > dims[b].0 * dims[b].1 ==> dims[b].0
                * dims[b].1 >= 4294967295,
        forall|j: int|
            b < j < dims.len() ==> dims[j].0 * dims[j].1 < dims[b].0 * dims[b].1 && dims[j].0
                * dims[j].1 < 4294967295,
{
    assert forall|j: int|
        0 <= j < dims.len() && dims[j].0 * dims[j].1 > dims[b].0 * dims[b].1 implies dims[b].0
        * dims[b].1 >= 4294967295 by {
        assert(crate::icon::icon_area(dims[j].0, dims[j].1) <= crate::icon::icon_area(
            dims[b].0,
            dims[b].1,
        ));
    }
    assert forall|j: int| b < j < dims.len() implies dims[j].0 * dims[j].1 < dims[b].0 * dims[b].1
        && dims[j].0 * dims[j].1 < 4294967295 by {
        assert(crate::icon::icon_area(dims[j].0, dims[j].1) < crate::icon::icon_area(
            dims[b].0,
            dims[b].1,
        ));
    }
}

/// Images up to 16384 pixels on a side decode safely, and a smaller image
/// than a safe one is safe too.
pub proof fn law_decode_safe_sizes(w: u32, h: u32, w2: u32, h2: u32)
    ensures
        w <= 16384 && h <= 16384 ==> decode_safe((w, h)),
        decode_safe((w, h)) && w2 <= w && h2 <= h ==> decode_safe((w2, h2)),
{
    if w <= 16384 && h <= 16384 {
        assert(w * h <= 16384 * 16384) by (nonlinear_arith)
            requires
                w <= 16384,
                h <= 16384,
        ;
    }
    if w2 <= w && h2 <= h {
        assert(w2 * h2 <= w * h) by (nonlinear_arith)
            requires
                w2 <= w,
                h2 <= h,
        ;
    }
}

} // verus!
