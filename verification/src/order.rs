use vstd::prelude::*;
use vstd::set_lib::set_int_range;

verus! {

/// Lexicographic order on byte strings, the order of `&str` and `[u8]` in Rust:
/// a proper prefix comes first, otherwise the first differing byte decides.
pub open spec fn bytes_lt(a: Seq<u8>, b: Seq<u8>) -> bool
    decreases a.len(),
{
    if b.len() == 0 {
        false
    } else if a.len() == 0 {
        true
    } else if a[0] != b[0] {
        a[0] < b[0]
    } else {
        bytes_lt(a.drop_first(), b.drop_first())
    }
}

/// `bytes_lt` is a strict total order.
pub proof fn lemma_bytes_lt_strict(a: Seq<u8>, b: Seq<u8>)
    ensures
        !bytes_lt(a, a),
        a != b ==> (bytes_lt(a, b) != bytes_lt(b, a)),
        a == b ==> !bytes_lt(a, b),
    decreases a.len(),
{
    if a.len() > 0 {
        lemma_bytes_lt_strict(a.drop_first(), a.drop_first());
    }
    if a.len() > 0 && b.len() > 0 && a[0] == b[0] {
        lemma_bytes_lt_strict(a.drop_first(), b.drop_first());
        if a != b {
            assert(a.drop_first() != b.drop_first()) by {
                if a.drop_first() == b.drop_first() {
                    assert forall|k: int| 0 <= k < a.len() implies a[k] == b[k] by {
                        if k > 0 {
                            assert(a[k] == a.drop_first()[k - 1]);
                            assert(b[k] == b.drop_first()[k - 1]);
                        }
                    }
                    assert(a =~= b);
                }
            }
        }
    }
    if a.len() == 0 && b.len() == 0 {
        assert(a =~= b);
    }
}

/// `bytes_lt` is transitive.
pub proof fn lemma_bytes_lt_transitive(a: Seq<u8>, b: Seq<u8>, c: Seq<u8>)
    requires
        bytes_lt(a, b),
        bytes_lt(b, c),
    ensures
        bytes_lt(a, c),
    decreases a.len(),
{
    if a.len() > 0 && a[0] == b[0] && b[0] == c[0] {
        lemma_bytes_lt_transitive(a.drop_first(), b.drop_first(), c.drop_first());
    }
}

/// Whether byte string `a` comes before byte string `b`.
pub fn bytes_less(a: &[u8], b: &[u8]) -> (r: bool)
    ensures
        r == bytes_lt(a@, b@),
{
    let mut i: usize = 0;
    assert(a@.skip(0) =~= a@);
    assert(b@.skip(0) =~= b@);
    while i < a.len() && i < b.len() && a[i] == b[i]
        invariant
            i <= a.len(),
            i <= b.len(),
            bytes_lt(a@, b@) == bytes_lt(a@.skip(i as int), b@.skip(i as int)),
        decreases a.len() - i,
    {
        assert(a@.skip(i as int).drop_first() =~= a@.skip(i + 1));
        assert(b@.skip(i as int).drop_first() =~= b@.skip(i + 1));
        i = i + 1;
    }
    let ghost sa = a@.skip(i as int);
    let ghost sb = b@.skip(i as int);
    if i == b.len() {
        assert(sb.len() == 0);
        false
    } else if i == a.len() {
        assert(sa.len() == 0);
        true
    } else {
        assert(sa[0] == a@[i as int]);
        assert(sb[0] == b@[i as int]);
        a[i] < b[i]
    }
}

/// A strict total order on the indices `0..size()` of some collection.
pub trait StrictOrder {
    spec fn size(&self) -> nat;

    /// Index `i` comes before index `j`.
    spec fn before(&self, i: int, j: int) -> bool;

    proof fn lemma_strict_total(&self, i: int, j: int, k: int)
        requires
            0 <= i < self.size(),
            0 <= j < self.size(),
            0 <= k < self.size(),
        ensures
            !self.before(i, i),
            i != j ==> self.before(i, j) != self.before(j, i),
            self.before(i, j) && self.before(j, k) ==> self.before(i, k),
    ;
}

/// A strict total order that can be computed.
pub trait Ranking: StrictOrder {
    fn count(&self) -> (n: usize)
        ensures
            n == self.size(),
    ;

    fn less(&self, i: usize, j: usize) -> (r: bool)
        requires
            i < self.size(),
            j < self.size(),
        ensures
            r == self.before(i as int, j as int),
    ;
}

/// `s` lists indices below `r.size()` in strictly increasing order of `r`.
pub open spec fn strictly_ranked<R: StrictOrder>(r: &R, s: Seq<usize>) -> bool {
    &&& forall|k: int| 0 <= k < s.len() ==> #[trigger] s[k] < r.size()
    &&& forall|a: int, b: int| 0 <= a < b < s.len() ==> r.before(#[trigger] s[a] as int, #[trigger] s[b] as int)
}

/// `s` is the arrangement of all indices `0..r.size()` in the order of `r`.
pub open spec fn is_ranked<R: StrictOrder>(r: &R, s: Seq<usize>) -> bool {
    &&& s.len() == r.size()
    &&& strictly_ranked(r, s)
}

proof fn lemma_ranked_no_duplicates<R: StrictOrder>(r: &R, s: Seq<usize>)
    requires
        strictly_ranked(r, s),
    ensures
        s.no_duplicates(),
{
    assert forall|a: int, b: int| 0 <= a < s.len() && 0 <= b < s.len() && a != b implies s[a] != s[b] by {
        r.lemma_strict_total(s[a] as int, s[a] as int, s[a] as int);
        if a < b {
            assert(r.before(s[a] as int, s[b] as int));
        } else {
            assert(r.before(s[b] as int, s[a] as int));
        }
    }
}

/// An arrangement in rank order holds every index.
pub proof fn lemma_ranked_covers<R: StrictOrder>(r: &R, s: Seq<usize>, x: int)
    requires
        is_ranked(r, s),
        0 <= x < r.size(),
    ensures
        s.contains(x as usize),
{
    lemma_ranked_no_duplicates(r, s);
    s.unique_seq_to_set();
    let si = s.to_set().map(|v: usize| v as int);
    let full = set_int_range(0, r.size() as int);
    vstd::set_lib::lemma_int_range(0, r.size() as int);
    assert(si.subset_of(full));
    vstd::seq_lib::seq_to_set_is_finite(s);
    assert(si.len() == s.to_set().len()) by {
        vstd::set_lib::lemma_map_size(s.to_set(), si, |v: usize| v as int);
    }
    vstd::set_lib::lemma_subset_equality(si, full);
    assert(full.contains(x));
    assert(si.contains(x));
}

proof fn lemma_same_elements_equal<R: StrictOrder>(r: &R, s1: Seq<usize>, s2: Seq<usize>)
    requires
        strictly_ranked(r, s1),
        strictly_ranked(r, s2),
        s1.len() == s2.len(),
        forall|x: usize| s1.contains(x) <==> s2.contains(x),
    ensures
        s1 == s2,
    decreases s1.len(),
{
    if s1.len() > 0 {
        let a = s1[0];
        let b = s2[0];
        assert(s1.contains(a));
        assert(s2.contains(b));
        let p = choose|p: int| 0 <= p < s2.len() && s2[p] == a;
        let q = choose|q: int| 0 <= q < s1.len() && s1[q] == b;
        r.lemma_strict_total(a as int, b as int, a as int);
        if a != b {
            assert(r.before(s1[0] as int, s1[q] as int));
            assert(r.before(s2[0] as int, s2[p] as int));
        }
        let t1 = s1.drop_first();
        let t2 = s2.drop_first();
        assert forall|x: usize| t1.contains(x) <==> t2.contains(x) by {
            if t1.contains(x) {
                let k = choose|k: int| 0 <= k < t1.len() && t1[k] == x;
                assert(r.before(s1[0] as int, s1[k + 1] as int));
                r.lemma_strict_total(x as int, x as int, x as int);
                assert(s2.contains(x));
                let m = choose|m: int| 0 <= m < s2.len() && s2[m] == x;
                assert(m != 0);
                assert(t2[m - 1] == x);
            }
            if t2.contains(x) {
                let k = choose|k: int| 0 <= k < t2.len() && t2[k] == x;
                assert(r.before(s2[0] as int, s2[k + 1] as int));
                r.lemma_strict_total(x as int, x as int, x as int);
                assert(s1.contains(x));
                let m = choose|m: int| 0 <= m < s1.len() && s1[m] == x;
                assert(m != 0);
                assert(t1[m - 1] == x);
            }
        }
        lemma_same_elements_equal(r, t1, t2);
        assert(s1 =~= s2) by {
            assert forall|k: int| 0 <= k < s1.len() implies s1[k] == s2[k] by {
                if k > 0 {
                    assert(s1[k] == t1[k - 1]);
                }
            }
        }
    } else {
        assert(s1 =~= s2);
    }
}

/// There is exactly one arrangement of the indices in rank order.
pub proof fn lemma_ranked_unique<R: StrictOrder>(r: &R, s1: Seq<usize>, s2: Seq<usize>)
    requires
        is_ranked(r, s1),
        is_ranked(r, s2),
    ensures
        s1 == s2,
{
    assert forall|x: usize| s1.contains(x) <==> s2.contains(x) by {
        if s1.contains(x) {
            lemma_ranked_covers(r, s2, x as int);
        }
        if s2.contains(x) {
            lemma_ranked_covers(r, s1, x as int);
        }
    }
    lemma_same_elements_equal(r, s1, s2);
}

/// The first position of `s`, from `p` on, whose index `x` comes before.
pub open spec fn insertion_point<R: StrictOrder>(r: &R, s: Seq<usize>, x: usize, p: int) -> int
    decreases s.len() - p,
{
    if p < 0 || p >= s.len() {
        s.len() as int
    } else if r.before(x as int, s[p] as int) {
        p
    } else {
        insertion_point(r, s, x, p + 1)
    }
}

proof fn lemma_insertion_point<R: StrictOrder>(r: &R, s: Seq<usize>, x: usize, p: int)
    requires
        0 <= p <= s.len(),
    ensures
        p <= insertion_point(r, s, x, p) <= s.len(),
        insertion_point(r, s, x, p) < s.len() ==> r.before(
            x as int,
            s[insertion_point(r, s, x, p)] as int,
        ),
        forall|q: int| p <= q < insertion_point(r, s, x, p) ==> !r.before(x as int, #[trigger] s[q] as int),
    decreases s.len() - p,
{
    if p < s.len() && !r.before(x as int, s[p] as int) {
        lemma_insertion_point(r, s, x, p + 1);
    }
}

proof fn lemma_insert_ranked<R: StrictOrder>(r: &R, s: Seq<usize>, x: usize)
    requires
        strictly_ranked(r, s),
        x < r.size(),
        !s.contains(x),
    ensures
        strictly_ranked(r, s.insert(insertion_point(r, s, x, 0), x)),
{
    let p = insertion_point(r, s, x, 0);
    lemma_insertion_point(r, s, x, 0);
    let t = s.insert(p, x);
    assert forall|a: int, b: int| 0 <= a < b < t.len() implies r.before(
        #[trigger] t[a] as int,
        #[trigger] t[b] as int,
    ) by {
        if a == p {
            assert(r.before(x as int, s[p] as int));
            if b - 1 > p {
                assert(r.before(s[p] as int, s[b - 1] as int));
                r.lemma_strict_total(x as int, s[p] as int, s[b - 1] as int);
            }
        } else if b == p {
            assert(!r.before(x as int, s[a] as int));
            assert(s[a] != x) by {
                assert(s.contains(s[a]));
            }
            r.lemma_strict_total(x as int, s[a] as int, x as int);
        } else if a < p && b > p {
            assert(r.before(s[a] as int, s[b - 1] as int));
        } else if b < p {
            assert(r.before(s[a] as int, s[b] as int));
        } else {
            assert(r.before(s[a - 1] as int, s[b - 1] as int));
        }
    }
}

/// The indices `0..k` in rank order.
pub open spec fn ranked_prefix<R: StrictOrder>(r: &R, k: nat) -> Seq<usize>
    decreases k,
{
    if k == 0 {
        Seq::empty()
    } else {
        let s = ranked_prefix(r, (k - 1) as nat);
        s.insert(insertion_point(r, s, (k - 1) as usize, 0), (k - 1) as usize)
    }
}

proof fn lemma_ranked_prefix<R: StrictOrder>(r: &R, k: nat)
    requires
        k <= r.size(),
        r.size() <= usize::MAX,
    ensures
        ranked_prefix(r, k).len() == k,
        strictly_ranked(r, ranked_prefix(r, k)),
        forall|m: int| 0 <= m < k ==> #[trigger] ranked_prefix(r, k)[m] < k,
    decreases k,
{
    if k > 0 {
        let s = ranked_prefix(r, (k - 1) as nat);
        lemma_ranked_prefix(r, (k - 1) as nat);
        let x = (k - 1) as usize;
        assert(!s.contains(x)) by {
            if s.contains(x) {
                let m = choose|m: int| 0 <= m < s.len() && s[m] == x;
                assert(s[m] < k - 1);
            }
        }
        lemma_insert_ranked(r, s, x);
        lemma_insertion_point(r, s, x, 0);
        let p = insertion_point(r, s, x, 0);
        assert forall|m: int| 0 <= m < k implies #[trigger] s.insert(p, x)[m] < k by {
            if m < p {
                assert(s.insert(p, x)[m] == s[m]);
            } else if m > p {
                assert(s.insert(p, x)[m] == s[m - 1]);
            }
        }
    }
}

/// Every strict total order on indices has an arrangement in rank order.
pub proof fn lemma_ranked_exists<R: StrictOrder>(r: &R)
    requires
        r.size() <= usize::MAX,
    ensures
        is_ranked(r, ranked_prefix(r, r.size())),
{
    lemma_ranked_prefix(r, r.size());
}

fn merge_ranked<R: Ranking>(
    r: &R,
    left: &Vec<usize>,
    right: &Vec<usize>,
    Ghost(lo): Ghost<int>,
    Ghost(mid): Ghost<int>,
    Ghost(hi): Ghost<int>,
) -> (out: Vec<usize>)
    requires
        lo <= mid <= hi,
        strictly_ranked(r, left@),
        strictly_ranked(r, right@),
        forall|k: int| 0 <= k < left@.len() ==> lo <= #[trigger] left@[k] < mid,
        forall|k: int| 0 <= k < right@.len() ==> mid <= #[trigger] right@[k] < hi,
    ensures
        out@.len() == left@.len() + right@.len(),
        strictly_ranked(r, out@),
        forall|k: int| 0 <= k < out@.len() ==> lo <= #[trigger] out@[k] < hi,
{
    let mut out: Vec<usize> = Vec::new();
    let mut i: usize = 0;
    let mut j: usize = 0;
    while i < left.len() || j < right.len()
        invariant
            lo <= mid <= hi,
            strictly_ranked(r, left@),
            strictly_ranked(r, right@),
            forall|k: int| 0 <= k < left@.len() ==> lo <= #[trigger] left@[k] < mid,
            forall|k: int| 0 <= k < right@.len() ==> mid <= #[trigger] right@[k] < hi,
            i <= left@.len(),
            j <= right@.len(),
            out@.len() == i + j,
            strictly_ranked(r, out@),
            forall|k: int| 0 <= k < out@.len() ==> lo <= #[trigger] out@[k] < hi,
            forall|a: int, b: int|
                0 <= a < out@.len() && i <= b < left@.len() ==> r.before(
                    #[trigger] out@[a] as int,
                    #[trigger] left@[b] as int,
                ),
            forall|a: int, b: int|
                0 <= a < out@.len() && j <= b < right@.len() ==> r.before(
                    #[trigger] out@[a] as int,
                    #[trigger] right@[b] as int,
                ),
        decreases left@.len() + right@.len() - i - j,
    {
        let take_left = if i < left.len() && j < right.len() {
            r.less(left[i], right[j])
        } else {
            i < left.len()
        };
        let ghost old_out = out@;
        if take_left {
            let x = left[i];
            proof {
                assert(lo <= left@[i as int] < mid);
                assert forall|b: int| i < b < left@.len() implies r.before(x as int, left@[b] as int) by {
                    assert(r.before(left@[i as int] as int, left@[b] as int));
                }
                assert forall|b: int| j <= b < right@.len() implies r.before(x as int, right@[b] as int) by {
                    r.lemma_strict_total(x as int, right@[j as int] as int, right@[b] as int);
                    if b > j {
                        assert(r.before(right@[j as int] as int, right@[b] as int));
                    }
                }
            }
            out.push(x);
            assert(out@[out@.len() - 1] == x);
            assert(lo <= x < hi);
            i = i + 1;
        } else {
            let x = right[j];
            proof {
                assert(mid <= right@[j as int] < hi);
                if i < left@.len() {
                    r.lemma_strict_total(left@[i as int] as int, x as int, left@[i as int] as int);
                }
                assert forall|b: int| i <= b < left@.len() implies r.before(x as int, left@[b] as int) by {
                    r.lemma_strict_total(x as int, left@[i as int] as int, left@[b] as int);
                    if b > i {
                        assert(r.before(left@[i as int] as int, left@[b] as int));
                    }
                }
                assert forall|b: int| j < b < right@.len() implies r.before(x as int, right@[b] as int) by {
                    assert(r.before(right@[j as int] as int, right@[b] as int));
                }
            }
            out.push(x);
            assert(out@[out@.len() - 1] == x);
            assert(lo <= x < hi);
            j = j + 1;
        }
        proof {
            assert forall|k: int| 0 <= k < out@.len() implies lo <= #[trigger] out@[k] < hi by {
                if k < old_out.len() {
                    assert(out@[k] == old_out[k]);
                }
            }
            assert forall|a: int, b: int| 0 <= a < b < out@.len() implies r.before(
                #[trigger] out@[a] as int,
                #[trigger] out@[b] as int,
            ) by {
                if b < old_out.len() {
                    assert(out@[a] == old_out[a] && out@[b] == old_out[b]);
                }
            }
        }
    }
    out
}

fn sort_range<R: Ranking>(r: &R, lo: usize, hi: usize) -> (out: Vec<usize>)
    requires
        lo <= hi <= r.size(),
    ensures
        out@.len() == hi - lo,
        strictly_ranked(r, out@),
        forall|k: int| 0 <= k < out@.len() ==> lo <= #[trigger] out@[k] < hi,
    decreases hi - lo,
{
    if hi - lo == 0 {
        Vec::new()
    } else if hi - lo == 1 {
        let mut out: Vec<usize> = Vec::new();
        out.push(lo);
        out
    } else {
        let mid = lo + (hi - lo) / 2;
        let left = sort_range(r, lo, mid);
        let right = sort_range(r, mid, hi);
        merge_ranked(r, &left, &right, Ghost(lo as int), Ghost(mid as int), Ghost(hi as int))
    }
}

/// Arranges the indices `0..r.size()` in the order of `r` (a merge sort).
pub fn rank_sort<R: Ranking>(r: &R) -> (out: Vec<usize>)
    ensures
        is_ranked(r, out@),
{
    let n = r.count();
    sort_range(r, 0, n)
}

} // verus!
