//! A static spatial index for 2D points based on a flat KD-tree.
//!
//! Points are pairs of integer coordinates. Each point carries an opaque
//! identifier; the identifier and point sequences are co-indexed and are only
//! ever permuted together. After `build_index`, the arrays encode an implicit
//! balanced KD-tree with an alternating splitting axis, and support
//! bounding-box and radius queries.

use vstd::multiset::Multiset;
use vstd::prelude::*;

verus! {

/// Default leaf-block size for the KD-tree.
pub const DEFAULT_NODE_SIZE: u8 = 64;

/// One indexed entry: an opaque identifier paired with its 2D point.
pub type Entry = (usize, (i32, i32));

/// Coordinate of a point along a splitting axis (0 = x, 1 = y).
pub open spec fn axis_val(p: (i32, i32), axis: int) -> int {
    if axis == 0 {
        p.0 as int
    } else {
        p.1 as int
    }
}

/// Closed-bounds membership of a point in an axis-aligned box.
pub open spec fn in_box(p: (i32, i32), minx: int, miny: int, maxx: int, maxy: int) -> bool {
    minx <= p.0 as int && p.0 as int <= maxx && miny <= p.1 as int && p.1 as int <= maxy
}

/// Squared Euclidean distance between a point and a query center.
pub open spec fn sq_dist(p: (i32, i32), qx: int, qy: int) -> int {
    (p.0 as int - qx) * (p.0 as int - qx) + (p.1 as int - qy) * (p.1 as int - qy)
}

/// Membership of a point in the closed disk of radius `r` around `(qx, qy)`.
pub open spec fn in_circle(p: (i32, i32), qx: int, qy: int, r: int) -> bool {
    sq_dist(p, qx, qy) <= r * r
}

/// Multiset of the entries stored at positions `lo..=hi`.
pub open spec fn entries_ms(s: Seq<Entry>, lo: int, hi: int) -> Multiset<Entry>
    decreases hi - lo + 1,
{
    if lo > hi {
        Multiset::empty()
    } else {
        entries_ms(s, lo + 1, hi).insert(s[lo])
    }
}

/// Multiset of the identifiers at positions `lo..=hi` whose point satisfies `pred`.
pub open spec fn matches_ms(
    s: Seq<Entry>,
    lo: int,
    hi: int,
    pred: spec_fn((i32, i32)) -> bool,
) -> Multiset<usize>
    decreases hi - lo + 1,
{
    if lo > hi {
        Multiset::empty()
    } else if pred(s[lo].1) {
        matches_ms(s, lo + 1, hi, pred).insert(s[lo].0)
    } else {
        matches_ms(s, lo + 1, hi, pred)
    }
}

/// The implicit KD-tree invariant over positions `lo..=hi` with splitting
/// axis `axis` and leaf-block threshold `ns`: blocks of at most `ns + 1`
/// entries are leaves; otherwise the median position holds an entry that
/// partitions the block along the current axis, and both halves are trees
/// on the opposite axis.
pub open spec fn kd_inv(s: Seq<Entry>, lo: int, hi: int, axis: int, ns: int) -> bool
    decreases hi - lo + 1,
{
    lo >= hi || hi - lo <= ns || {
        let m = (lo + hi) / 2;
        &&& partitioned(s, lo, m, hi, axis)
        &&& kd_inv(s, lo, m - 1, 1 - axis, ns)
        &&& kd_inv(s, m + 1, hi, 1 - axis, ns)
    }
}

/// Entries at `lo..=hi` are partitioned along `axis` around position `k`:
/// at most the `k`-th value on the left, at least it on the right.
pub open spec fn partitioned(s: Seq<Entry>, lo: int, k: int, hi: int, axis: int) -> bool {
    &&& forall|i: int|
        lo <= i < k ==> #[trigger] axis_val(s[i].1, axis) <= axis_val(s[k].1, axis)
    &&& forall|i: int|
        k < i <= hi ==> #[trigger] axis_val(s[i].1, axis) >= axis_val(s[k].1, axis)
}

/// The identifiers of positions `lo..=hi` whose point satisfies `pred`,
/// scanned left to right.
pub open spec fn scan_seq(
    s: Seq<Entry>,
    lo: int,
    hi: int,
    pred: spec_fn((i32, i32)) -> bool,
) -> Seq<usize>
    decreases hi - lo + 1,
{
    if lo > hi {
        Seq::empty()
    } else if pred(s[hi].1) {
        scan_seq(s, lo, hi - 1, pred).push(s[hi].0)
    } else {
        scan_seq(s, lo, hi - 1, pred)
    }
}

/// The identifiers a depth-first query over the block `lo..=hi` with
/// leaf-block threshold `ns` reports, in traversal order: at an internal
/// node the median entry comes first, then the left half, then the right
/// half; a leaf block is scanned left to right. Only identifiers whose point
/// satisfies `pred` appear. Pruning never changes this sequence: a half a
/// query can prune holds no match and contributes nothing.
pub open spec fn traversal_seq(
    s: Seq<Entry>,
    lo: int,
    hi: int,
    ns: int,
    pred: spec_fn((i32, i32)) -> bool,
) -> Seq<usize>
    decreases hi - lo + 1,
{
    if lo > hi {
        Seq::empty()
    } else if hi - lo <= ns {
        scan_seq(s, lo, hi, pred)
    } else {
        let m = (lo + hi) / 2;
        (if pred(s[m].1) {
            seq![s[m].0]
        } else {
            Seq::empty()
        }) + traversal_seq(s, lo, m - 1, ns, pred) + traversal_seq(s, m + 1, hi, ns, pred)
    }
}

/// `a` occurs inside `b` in order: `b` contains all of `a`'s elements, in
/// `a`'s order, possibly with other elements in between.
pub open spec fn subsequence_of(a: Seq<usize>, b: Seq<usize>) -> bool
    decreases b.len(),
{
    if a.len() == 0 {
        true
    } else if b.len() == 0 {
        false
    } else {
        (a[0] == b[0] && subsequence_of(a.drop_first(), b.drop_first())) || subsequence_of(
            a,
            b.drop_first(),
        )
    }
}

/// Every sequence is a subsequence of itself.
proof fn lemma_subseq_refl(a: Seq<usize>)
    ensures
        subsequence_of(a, a),
    decreases a.len(),
{
    if a.len() > 0 {
        lemma_subseq_refl(a.drop_first());
    }
}

/// A subsequence of `b` is a subsequence of `b` with anything prepended.
proof fn lemma_subseq_prepend(c: Seq<usize>, a: Seq<usize>, b: Seq<usize>)
    requires
        subsequence_of(a, b),
    ensures
        subsequence_of(a, c + b),
    decreases c.len(),
{
    if a.len() == 0 {
    } else if c.len() == 0 {
        assert(c + b =~= b);
    } else {
        lemma_subseq_prepend(c.drop_first(), a, b);
        assert((c + b).drop_first() =~= c.drop_first() + b);
        assert((c + b).len() > 0);
    }
}

/// Subsequences concatenate.
proof fn lemma_subseq_concat(a1: Seq<usize>, b1: Seq<usize>, a2: Seq<usize>, b2: Seq<usize>)
    requires
        subsequence_of(a1, b1),
        subsequence_of(a2, b2),
    ensures
        subsequence_of(a1 + a2, b1 + b2),
    decreases b1.len(),
{
    if a1.len() == 0 {
        assert(a1 + a2 =~= a2);
        lemma_subseq_prepend(b1, a2, b2);
    } else {
        if a1[0] == b1[0] && subsequence_of(a1.drop_first(), b1.drop_first()) {
            lemma_subseq_concat(a1.drop_first(), b1.drop_first(), a2, b2);
            assert((a1 + a2).drop_first() =~= a1.drop_first() + a2);
            assert((b1 + b2).drop_first() =~= b1.drop_first() + b2);
            assert((a1 + a2)[0] == (b1 + b2)[0]);
        } else {
            lemma_subseq_concat(a1, b1.drop_first(), a2, b2);
            assert((b1 + b2).drop_first() =~= b1.drop_first() + b2);
        }
        assert((a1 + a2).len() > 0 && (b1 + b2).len() > 0);
    }
}

/// A left-to-right scan splits at any interior point.
proof fn lemma_scan_seq_split(
    s: Seq<Entry>,
    lo: int,
    mid: int,
    hi: int,
    pred: spec_fn((i32, i32)) -> bool,
)
    requires
        lo - 1 <= mid <= hi,
    ensures
        scan_seq(s, lo, hi, pred) == scan_seq(s, lo, mid, pred) + scan_seq(s, mid + 1, hi, pred),
    decreases hi - mid,
{
    if mid == hi {
        assert(scan_seq(s, lo, hi, pred) =~= scan_seq(s, lo, mid, pred) + scan_seq(
            s,
            mid + 1,
            hi,
            pred,
        ));
    } else {
        lemma_scan_seq_split(s, lo, mid, hi - 1, pred);
        assert(scan_seq(s, lo, hi, pred) =~= scan_seq(s, lo, mid, pred) + scan_seq(
            s,
            mid + 1,
            hi,
            pred,
        ));
    }
}

/// A scan over positions where nothing matches is empty.
proof fn lemma_scan_seq_empty(s: Seq<Entry>, lo: int, hi: int, pred: spec_fn((i32, i32)) -> bool)
    requires
        forall|x: int| lo <= x <= hi ==> !pred(#[trigger] s[x].1),
    ensures
        scan_seq(s, lo, hi, pred) == Seq::<usize>::empty(),
    decreases hi - lo + 1,
{
    if lo <= hi {
        lemma_scan_seq_empty(s, lo, hi - 1, pred);
    }
}

/// A scan reports exactly the matching identifiers, with multiplicity.
proof fn lemma_scan_seq_ms(s: Seq<Entry>, lo: int, hi: int, pred: spec_fn((i32, i32)) -> bool)
    ensures
        ids_ms(scan_seq(s, lo, hi, pred)) == matches_ms(s, lo, hi, pred),
    decreases hi - lo + 1,
{
    if lo <= hi {
        lemma_scan_seq_ms(s, lo, hi - 1, pred);
        lemma_matches_ms_split(s, lo, hi - 1, hi, pred);
        lemma_matches_ms_one(s, hi, pred);
        if pred(s[hi].1) {
            lemma_ids_ms_push(scan_seq(s, lo, hi - 1, pred), s[hi].0);
            assert(ids_ms(scan_seq(s, lo, hi, pred)) =~= matches_ms(s, lo, hi, pred));
        } else {
            assert(ids_ms(scan_seq(s, lo, hi, pred)) =~= matches_ms(s, lo, hi, pred));
        }
    }
}

/// The traversal of a block where nothing matches is empty.
proof fn lemma_traversal_seq_empty(
    s: Seq<Entry>,
    lo: int,
    hi: int,
    ns: int,
    pred: spec_fn((i32, i32)) -> bool,
)
    requires
        forall|x: int| lo <= x <= hi ==> !pred(#[trigger] s[x].1),
    ensures
        traversal_seq(s, lo, hi, ns, pred) == Seq::<usize>::empty(),
    decreases hi - lo + 1,
{
    if lo > hi {
    } else if hi - lo <= ns {
        lemma_scan_seq_empty(s, lo, hi, pred);
    } else {
        let m = (lo + hi) / 2;
        lemma_traversal_seq_empty(s, lo, m - 1, ns, pred);
        lemma_traversal_seq_empty(s, m + 1, hi, ns, pred);
        assert(!pred(s[m].1));
        assert(traversal_seq(s, lo, hi, ns, pred) =~= Seq::<usize>::empty());
    }
}

/// The traversal reports exactly the matching identifiers, with
/// multiplicity; only their order comes from the tree walk.
pub proof fn lemma_traversal_seq_ms(
    s: Seq<Entry>,
    lo: int,
    hi: int,
    ns: int,
    pred: spec_fn((i32, i32)) -> bool,
)
    ensures
        ids_ms(traversal_seq(s, lo, hi, ns, pred)) == matches_ms(s, lo, hi, pred),
    decreases hi - lo + 1,
{
    if lo > hi {
    } else if hi - lo <= ns {
        lemma_scan_seq_ms(s, lo, hi, pred);
    } else {
        let m = (lo + hi) / 2;
        let node = (if pred(s[m].1) {
            seq![s[m].0]
        } else {
            Seq::<usize>::empty()
        });
        lemma_traversal_seq_ms(s, lo, m - 1, ns, pred);
        lemma_traversal_seq_ms(s, m + 1, hi, ns, pred);
        lemma_ids_ms_concat(node, traversal_seq(s, lo, m - 1, ns, pred));
        lemma_ids_ms_concat(
            node + traversal_seq(s, lo, m - 1, ns, pred),
            traversal_seq(s, m + 1, hi, ns, pred),
        );
        lemma_matches_ms_split(s, lo, m - 1, hi, pred);
        lemma_matches_ms_split(s, m, m, hi, pred);
        lemma_matches_ms_one(s, m, pred);
        if pred(s[m].1) {
            lemma_ids_ms_push(Seq::<usize>::empty(), s[m].0);
            assert(node =~= Seq::<usize>::empty().push(s[m].0));
        }
        assert(ids_ms(traversal_seq(s, lo, hi, ns, pred)) =~= matches_ms(s, lo, hi, pred));
    }
}

/// Splitting a position range splits its entry multiset.
proof fn lemma_entries_ms_split(s: Seq<Entry>, lo: int, mid: int, hi: int)
    requires
        lo - 1 <= mid <= hi,
    ensures
        entries_ms(s, lo, hi) == entries_ms(s, lo, mid).add(entries_ms(s, mid + 1, hi)),
    decreases mid - lo + 1,
{
    if mid < lo {
        assert(entries_ms(s, lo, mid) == Multiset::<Entry>::empty());
        assert(entries_ms(s, lo, hi) =~= Multiset::<Entry>::empty().add(entries_ms(s, lo, hi)));
    } else {
        lemma_entries_ms_split(s, lo + 1, mid, hi);
        assert(entries_ms(s, lo, hi) =~= entries_ms(s, lo, mid).add(entries_ms(s, mid + 1, hi)));
    }
}

/// The entry multiset of a range depends only on the values in that range.
proof fn lemma_entries_ms_frame(s1: Seq<Entry>, s2: Seq<Entry>, lo: int, hi: int)
    requires
        forall|i: int| lo <= i <= hi ==> s1[i] == s2[i],
    ensures
        entries_ms(s1, lo, hi) == entries_ms(s2, lo, hi),
    decreases hi - lo + 1,
{
    if lo <= hi {
        lemma_entries_ms_frame(s1, s2, lo + 1, hi);
    }
}

/// Updating one position inside a range replaces one occurrence in its multiset.
proof fn lemma_entries_ms_update(s: Seq<Entry>, lo: int, hi: int, i: int, v: Entry)
    requires
        lo <= i <= hi,
        0 <= lo,
        hi < s.len(),
    ensures
        entries_ms(s.update(i, v), lo, hi) == entries_ms(s, lo, hi).remove(s[i]).insert(v),
    decreases i - lo,
{
    let su = s.update(i, v);
    if i == lo {
        lemma_entries_ms_frame(su, s, lo + 1, hi);
        assert(entries_ms(su, lo, hi) =~= entries_ms(s, lo, hi).remove(s[i]).insert(v));
    } else {
        lemma_entries_ms_update(s, lo + 1, hi, i, v);
        lemma_entries_ms_contains(s, lo + 1, hi, s[i]);
        assert(lo + 1 <= i <= hi && s[i] == s[i]);
        assert(entries_ms(s, lo + 1, hi).count(s[i]) > 0);
        assert(entries_ms(su, lo, hi) =~= entries_ms(s, lo, hi).remove(s[i]).insert(v));
    }
}

/// Swapping two positions inside a range preserves its entry multiset.
proof fn lemma_entries_ms_swap(s: Seq<Entry>, lo: int, hi: int, i: int, j: int)
    requires
        lo <= i <= hi,
        lo <= j <= hi,
        0 <= lo,
        hi < s.len(),
    ensures
        entries_ms(s.update(i, s[j]).update(j, s[i]), lo, hi) == entries_ms(s, lo, hi),
    decreases 0int,
{
    if i == j {
        let su = s.update(i, s[j]).update(j, s[i]);
        assert(su =~= s);
    } else {
        let s1 = s.update(i, s[j]);
        lemma_entries_ms_update(s, lo, hi, i, s[j]);
        lemma_entries_ms_update(s1, lo, hi, j, s[i]);
        assert(s1[j] == s[j]);
        lemma_entries_ms_contains(s, lo, hi, s[i]);
        assert(lo <= i <= hi && s[i] == s[i]);
        assert(entries_ms(s, lo, hi).count(s[i]) > 0);
        lemma_entries_ms_contains(s1, lo, hi, s[j]);
        assert(lo <= j <= hi && s1[j] == s[j]);
        assert(entries_ms(s1, lo, hi).count(s[j]) > 0);
        assert(entries_ms(s.update(i, s[j]).update(j, s[i]), lo, hi) =~= entries_ms(s, lo, hi));
    }
}

/// An entry occurs in a range's multiset exactly when some position holds it.
pub proof fn lemma_entries_ms_contains(s: Seq<Entry>, lo: int, hi: int, e: Entry)
    ensures
        entries_ms(s, lo, hi).count(e) > 0 <==> exists|i: int| lo <= i <= hi && s[i] == e,
    decreases hi - lo + 1,
{
    if lo <= hi {
        lemma_entries_ms_contains(s, lo + 1, hi, e);
        if s[lo] == e {
            assert(lo <= lo <= hi && s[lo] == e);
        }
    }
}

/// Splitting a position range splits its matching-identifier multiset.
proof fn lemma_matches_ms_split(
    s: Seq<Entry>,
    lo: int,
    mid: int,
    hi: int,
    pred: spec_fn((i32, i32)) -> bool,
)
    requires
        lo - 1 <= mid <= hi,
    ensures
        matches_ms(s, lo, hi, pred) == matches_ms(s, lo, mid, pred).add(
            matches_ms(s, mid + 1, hi, pred),
        ),
    decreases mid - lo + 1,
{
    if mid < lo {
        assert(matches_ms(s, lo, hi, pred) =~= Multiset::<usize>::empty().add(
            matches_ms(s, lo, hi, pred),
        ));
    } else {
        lemma_matches_ms_split(s, lo + 1, mid, hi, pred);
        assert(matches_ms(s, lo, hi, pred) =~= matches_ms(s, lo, mid, pred).add(
            matches_ms(s, mid + 1, hi, pred),
        ));
    }
}

/// The matching-identifier multiset of a single position.
proof fn lemma_matches_ms_one(s: Seq<Entry>, i: int, pred: spec_fn((i32, i32)) -> bool)
    ensures
        pred(s[i].1) ==> matches_ms(s, i, i, pred) == Multiset::<usize>::empty().insert(s[i].0),
        !pred(s[i].1) ==> matches_ms(s, i, i, pred) == Multiset::<usize>::empty(),
{
    assert(matches_ms(s, i + 1, i, pred) == Multiset::<usize>::empty());
}

/// An identifier is reported for a range exactly when one of its positions
/// holds that identifier with a point satisfying the predicate.
pub proof fn lemma_matches_ms_count(
    s: Seq<Entry>,
    lo: int,
    hi: int,
    pred: spec_fn((i32, i32)) -> bool,
    id: usize,
)
    ensures
        matches_ms(s, lo, hi, pred).count(id) > 0 <==> exists|i: int|
            lo <= i <= hi && s[i].0 == id && pred(s[i].1),
    decreases hi - lo + 1,
{
    if lo <= hi {
        lemma_matches_ms_count(s, lo + 1, hi, pred, id);
        if s[lo].0 == id && pred(s[lo].1) {
            assert(lo <= lo <= hi && s[lo].0 == id && pred(s[lo].1));
        }
    }
}

/// A permutation confined to `l..=r` preserves the multiset of any
/// enclosing range.
proof fn lemma_ms_local_perm(s1: Seq<Entry>, s2: Seq<Entry>, left: int, right: int, l: int, r: int)
    requires
        s1.len() == s2.len(),
        0 <= left <= l,
        l - 1 <= r <= right,
        right < s1.len(),
        forall|x: int| 0 <= x < s1.len() && !(l <= x <= r) ==> s1[x] == s2[x],
        entries_ms(s2, l, r) == entries_ms(s1, l, r),
    ensures
        entries_ms(s2, left, right) == entries_ms(s1, left, right),
{
    lemma_entries_ms_split(s1, left, l - 1, right);
    lemma_entries_ms_split(s1, l, r, right);
    lemma_entries_ms_split(s2, left, l - 1, right);
    lemma_entries_ms_split(s2, l, r, right);
    lemma_entries_ms_frame(s1, s2, left, l - 1);
    lemma_entries_ms_frame(s1, s2, r + 1, right);
}

/// Multiset of the elements of an identifier sequence.
pub open spec fn ids_ms(s: Seq<usize>) -> Multiset<usize>
    decreases s.len(),
{
    if s.len() == 0 {
        Multiset::empty()
    } else {
        ids_ms(s.drop_last()).insert(s.last())
    }
}

/// The box-membership predicate of a fixed query box.
pub open spec fn box_pred(minx: int, miny: int, maxx: int, maxy: int) -> spec_fn(
    (i32, i32),
) -> bool {
    |p: (i32, i32)| in_box(p, minx, miny, maxx, maxy)
}

/// The disk-membership predicate of a fixed query center and radius.
pub open spec fn circle_pred(qx: int, qy: int, r: int) -> spec_fn((i32, i32)) -> bool {
    |p: (i32, i32)| in_circle(p, qx, qy, r)
}

/// An identifier occurs in a sequence's multiset exactly when the sequence
/// contains it.
pub proof fn lemma_ids_ms_contains(s: Seq<usize>, x: usize)
    ensures
        ids_ms(s).count(x) > 0 <==> s.contains(x),
    decreases s.len(),
{
    if s.len() > 0 {
        lemma_ids_ms_contains(s.drop_last(), x);
        if s.contains(x) {
            let k = choose|k: int| 0 <= k < s.len() && s[k] == x;
            if k < s.len() - 1 {
                assert(s.drop_last()[k] == x);
            }
        }
        if s.drop_last().contains(x) {
            let k = choose|k: int| 0 <= k < s.drop_last().len() && s.drop_last()[k] == x;
            assert(s[k] == x);
        }
    }
}

/// Appending one identifier inserts it into the sequence's multiset.
proof fn lemma_ids_ms_push(s: Seq<usize>, v: usize)
    ensures
        ids_ms(s.push(v)) == ids_ms(s).insert(v),
{
    assert(s.push(v).drop_last() =~= s);
    assert(s.push(v).last() == v);
}

/// Concatenation adds the identifier multisets.
proof fn lemma_ids_ms_concat(a: Seq<usize>, b: Seq<usize>)
    ensures
        ids_ms(a + b) == ids_ms(a).add(ids_ms(b)),
    decreases b.len(),
{
    if b.len() == 0 {
        assert(a + b =~= a);
        assert(ids_ms(a + b) =~= ids_ms(a).add(ids_ms(b)));
    } else {
        assert((a + b).drop_last() =~= a + b.drop_last());
        assert((a + b).last() == b.last());
        lemma_ids_ms_concat(a, b.drop_last());
        assert(b.drop_last().push(b.last()) =~= b);
        lemma_ids_ms_push(b.drop_last(), b.last());
        assert(ids_ms(a + b) =~= ids_ms(a).add(ids_ms(b)));
    }
}

/// A point inside the disk of radius `r` lies within `r` of the center on
/// both axes.
proof fn lemma_circle_axis_bound(p: (i32, i32), qx: int, qy: int, r: int)
    requires
        in_circle(p, qx, qy, r),
        r >= 0,
    ensures
        qx - r <= p.0 as int <= qx + r,
        qy - r <= p.1 as int <= qy + r,
{
    let px = p.0 as int;
    let py = p.1 as int;
    assert(qx - r <= px <= qx + r && qy - r <= py <= qy + r) by (nonlinear_arith)
        requires
            (px - qx) * (px - qx) + (py - qy) * (py - qy) <= r * r,
            r >= 0,
    ;
}

/// Query correctness at set level: an identifier is among the reported ones
/// exactly when some stored entry pairs it with a point satisfying the query
/// predicate - no false negatives and no false positives. The premise is the
/// reported-multiset contract that `range` and `within` establish.
pub proof fn lemma_query_reports_iff(
    reported: Seq<usize>,
    s: Seq<Entry>,
    pred: spec_fn((i32, i32)) -> bool,
    id: usize,
)
    requires
        ids_ms(reported) == matches_ms(s, 0, s.len() - 1, pred),
    ensures
        reported.contains(id) <==> exists|i: int| 0 <= i < s.len() && s[i].0 == id && pred(s[i].1),
{
    lemma_ids_ms_contains(reported, id);
    lemma_matches_ms_count(s, 0, s.len() - 1, pred, id);
}

/// For one point set — given as the multiset of identifier/point pairs — and
/// one query predicate, the set of reported identifiers does not depend on
/// how the entries are arranged: an identifier has a match among the entries
/// of one arrangement exactly when it has one in the other. Together with the
/// contracts of `build_index`, `range` and `within`, which only permute the
/// pairs and report exactly the matching identifiers, the identifier set a
/// query returns is independent of insertion order.
pub proof fn lemma_query_set_insertion_independent(
    s1: Seq<Entry>,
    s2: Seq<Entry>,
    pred: spec_fn((i32, i32)) -> bool,
    id: usize,
)
    requires
        entries_ms(s1, 0, s1.len() - 1) == entries_ms(s2, 0, s2.len() - 1),
    ensures
        matches_ms(s1, 0, s1.len() - 1, pred).count(id) > 0 <==> matches_ms(
            s2,
            0,
            s2.len() - 1,
            pred,
        ).count(id) > 0,
{
    lemma_matches_ms_count(s1, 0, s1.len() - 1, pred, id);
    lemma_matches_ms_count(s2, 0, s2.len() - 1, pred, id);
    if matches_ms(s1, 0, s1.len() - 1, pred).count(id) > 0 {
        let i = choose|i: int| 0 <= i <= s1.len() - 1 && s1[i].0 == id && pred(s1[i].1);
        lemma_entries_ms_contains(s1, 0, s1.len() - 1, s1[i]);
        lemma_entries_ms_contains(s2, 0, s2.len() - 1, s1[i]);
        let j = choose|j: int| 0 <= j <= s2.len() - 1 && s2[j] == s1[i];
        assert(0 <= j <= s2.len() - 1 && s2[j].0 == id && pred(s2[j].1));
    }
    if matches_ms(s2, 0, s2.len() - 1, pred).count(id) > 0 {
        let i = choose|i: int| 0 <= i <= s2.len() - 1 && s2[i].0 == id && pred(s2[i].1);
        lemma_entries_ms_contains(s2, 0, s2.len() - 1, s2[i]);
        lemma_entries_ms_contains(s1, 0, s1.len() - 1, s2[i]);
        let j = choose|j: int| 0 <= j <= s1.len() - 1 && s1[j] == s2[i];
        assert(0 <= j <= s1.len() - 1 && s1[j].0 == id && pred(s1[j].1));
    }
}

/// The midpoint of `lo..=hi` computed from the offset equals the average,
/// and lies inside the range.
proof fn lemma_mid(lo: int, hi: int)
    requires
        0 <= lo <= hi,
    ensures
        lo + (hi - lo) / 2 == (lo + hi) / 2,
        lo <= (lo + hi) / 2 <= hi,
        lo < hi ==> (lo + hi) / 2 < hi,
{
    assert(lo + (hi - lo) / 2 == (lo + hi) / 2 && lo <= (lo + hi) / 2 <= hi && (lo < hi ==> (lo
        + hi) / 2 < hi)) by (nonlinear_arith)
        requires
            0 <= lo <= hi,
    ;
}

/// Every entry of a range appears somewhere in a range with the same multiset.
pub proof fn lemma_perm_in_range(s1: Seq<Entry>, s2: Seq<Entry>, l: int, r: int, x: int)
    requires
        entries_ms(s1, l, r) == entries_ms(s2, l, r),
        l <= x <= r,
    ensures
        exists|y: int| l <= y <= r && s1[y] == s2[x],
{
    lemma_entries_ms_contains(s2, l, r, s2[x]);
    assert(l <= x <= r && s2[x] == s2[x]);
    lemma_entries_ms_contains(s1, l, r, s2[x]);
}

/// The KD-tree invariant depends only on the values in its range.
proof fn lemma_kd_inv_frame(s1: Seq<Entry>, s2: Seq<Entry>, lo: int, hi: int, axis: int, ns: int)
    requires
        forall|i: int| lo <= i <= hi ==> s1[i] == s2[i],
        kd_inv(s1, lo, hi, axis, ns),
    ensures
        kd_inv(s2, lo, hi, axis, ns),
    decreases hi - lo + 1,
{
    if !(lo >= hi || hi - lo <= ns) {
        let m = (lo + hi) / 2;
        lemma_kd_inv_frame(s1, s2, lo, m - 1, 1 - axis, ns);
        lemma_kd_inv_frame(s1, s2, m + 1, hi, 1 - axis, ns);
    }
}

/// A source of input points for bulk index construction. `points_spec` is
/// the mathematical sequence of points the reader will hand out; `size_hint`
/// is its exact length here, and `point_at` reads one point by position.
pub trait PointReader: Sized {
    /// The points this reader provides, in reading order.
    spec fn points_spec(&self) -> Seq<(i32, i32)>;

    /// The number of points to add.
    fn size_hint(&self) -> (n: usize)
        ensures
            n == self.points_spec().len(),
    ;

    /// Reads the point at position `i`.
    fn point_at(&self, i: usize) -> (p: (i32, i32))
        requires
            i < self.points_spec().len(),
        ensures
            p == self.points_spec()[i as int],
    ;
}

impl PointReader for Vec<(i32, i32)> {
    open spec fn points_spec(&self) -> Seq<(i32, i32)> {
        self@
    }

    fn size_hint(&self) -> (n: usize) {
        self.len()
    }

    fn point_at(&self, i: usize) -> (p: (i32, i32)) {
        self[i]
    }
}

/// A stateful consumer for the predicate-driven range search. The search
/// hands `visit` each matching identifier; returning `false` stops the scan
/// of the block being visited. `step_rel` is the mathematical meaning of one
/// visit and `more` says whether the visitor still asks for visits; a visitor
/// that has stopped must stay stopped.
pub trait RangeVisitor: Sized {
    /// Whether the visitor still asks for further visits.
    spec fn more(&self) -> bool;

    /// How one visit transforms the visitor's state.
    spec fn step_rel(pre: Self, id: usize, post: Self) -> bool;

    /// A visitor that no longer asks for visits never asks again.
    proof fn step_monotone(pre: Self, id: usize, post: Self)
        requires
            Self::step_rel(pre, id, post),
            !pre.more(),
        ensures
            !post.more(),
    ;

    /// Consumes one reported identifier and says whether to continue.
    fn visit(&mut self, id: usize) -> (cont: bool)
        ensures
            Self::step_rel(*old(self), id, *final(self)),
            cont == final(self).more(),
    ;
}

/// The visitor moves from `pre` to `post` by being handed each identifier of
/// `ids` in order.
pub open spec fn runs_to<V: RangeVisitor>(pre: V, ids: Seq<usize>, post: V) -> bool
    decreases ids.len(),
{
    if ids.len() == 0 {
        post == pre
    } else {
        exists|mid: V|
            runs_to(pre, ids.drop_last(), mid) && #[trigger] V::step_rel(mid, ids.last(), post)
    }
}

/// A run extends by one visit at its end.
proof fn lemma_runs_to_push<V: RangeVisitor>(pre: V, s: Seq<usize>, mid: V, id: usize, post: V)
    requires
        runs_to(pre, s, mid),
        V::step_rel(mid, id, post),
    ensures
        runs_to(pre, s.push(id), post),
{
    assert(s.push(id).drop_last() =~= s);
    assert(s.push(id).last() == id);
    assert(runs_to(pre, s.push(id).drop_last(), mid) && V::step_rel(
        mid,
        s.push(id).last(),
        post,
    ));
}

/// Runs compose by concatenating their identifier sequences.
proof fn lemma_runs_to_concat<V: RangeVisitor>(pre: V, a: Seq<usize>, mid: V, b: Seq<usize>, post: V)
    requires
        runs_to(pre, a, mid),
        runs_to(mid, b, post),
    ensures
        runs_to(pre, a + b, post),
    decreases b.len(),
{
    if b.len() == 0 {
        assert(a + b =~= a);
    } else {
        assert(runs_to(mid, b, post));
        assert(exists|m: V|
            runs_to(mid, b.drop_last(), m) && #[trigger] V::step_rel(m, b.last(), post));
        let m1 = choose|m: V|
            runs_to(mid, b.drop_last(), m) && #[trigger] V::step_rel(m, b.last(), post);
        lemma_runs_to_concat(pre, a, mid, b.drop_last(), m1);
        assert((a + b).drop_last() =~= a + b.drop_last());
        assert((a + b).last() == b.last());
        assert(runs_to(pre, (a + b).drop_last(), m1) && V::step_rel(m1, (a + b).last(), post));
    }
}

/// A stopped visitor is still stopped after any run.
proof fn lemma_runs_to_stopped<V: RangeVisitor>(pre: V, s: Seq<usize>, post: V)
    requires
        runs_to(pre, s, post),
        !pre.more(),
    ensures
        !post.more(),
    decreases s.len(),
{
    if s.len() > 0 {
        assert(runs_to(pre, s, post));
        assert(exists|m: V|
            runs_to(pre, s.drop_last(), m) && #[trigger] V::step_rel(m, s.last(), post));
        let m1 = choose|m: V|
            runs_to(pre, s.drop_last(), m) && #[trigger] V::step_rel(m, s.last(), post);
        lemma_runs_to_stopped(pre, s.drop_last(), m1);
        V::step_monotone(m1, s.last(), post);
    }
}

/// The visitor was handed the reports of the full query traversal in order
/// up to some stopping point `k` — all of `full` unless it answered `false`
/// — and after stopping it saw only later reports, in order. The visits as a
/// whole are therefore an order-preserving subsequence of `full`, and all of
/// `full` when the visitor still asks for more at the end.
pub open spec fn visited_ok<V: RangeVisitor>(pre: V, post: V, full: Seq<usize>) -> bool {
    exists|k: int, mid: V, w: Seq<usize>|
        #![trigger runs_to(pre, full.take(k), mid), runs_to(mid, w, post)]
        {
            &&& 0 <= k <= full.len()
            &&& runs_to(pre, full.take(k), mid)
            &&& runs_to(mid, w, post)
            &&& subsequence_of(w, full.skip(k))
            &&& (k < full.len() ==> !mid.more())
            &&& (post.more() ==> k == full.len() && w == Seq::<usize>::empty())
        }
}

/// What `visited_ok` says, read as one sequence: some visit sequence takes
/// the visitor from `pre` to `post`, it is an order-preserving subsequence
/// of the full traversal, and it is the whole traversal when the visitor
/// still asks for more at the end.
pub proof fn lemma_visited_is_subsequence<V: RangeVisitor>(pre: V, post: V, full: Seq<usize>)
    requires
        visited_ok(pre, post, full),
    ensures
        exists|vs: Seq<usize>|
            #![trigger runs_to(pre, vs, post)]
            runs_to(pre, vs, post) && subsequence_of(vs, full) && (post.more() ==> vs == full),
{
    let (k, mid, w) = choose|k: int, mid: V, w: Seq<usize>|
        #![trigger runs_to(pre, full.take(k), mid), runs_to(mid, w, post)]
        {
            &&& 0 <= k <= full.len()
            &&& runs_to(pre, full.take(k), mid)
            &&& runs_to(mid, w, post)
            &&& subsequence_of(w, full.skip(k))
            &&& (k < full.len() ==> !mid.more())
            &&& (post.more() ==> k == full.len() && w == Seq::<usize>::empty())
        };
    let vs = full.take(k) + w;
    lemma_runs_to_concat(pre, full.take(k), mid, w, post);
    lemma_subseq_refl(full.take(k));
    lemma_subseq_concat(full.take(k), full.take(k), w, full.skip(k));
    assert(full.take(k) + full.skip(k) =~= full);
    if post.more() {
        assert(vs =~= full);
    }
    assert(runs_to(pre, vs, post) && subsequence_of(vs, full) && (post.more() ==> vs == full));
}

/// A visitor that records every identifier it is handed and asks to continue
/// while fewer than `limit` have been recorded.
pub struct CollectVisitor {
    items: Vec<usize>,
    limit: usize,
}

impl CollectVisitor {
    /// The identifiers recorded so far, in visit order.
    pub closed spec fn items_s(&self) -> Seq<usize> {
        self.items@
    }

    /// The recording limit.
    pub closed spec fn limit_s(&self) -> int {
        self.limit as int
    }

    /// Creates a visitor that continues until `limit` identifiers are recorded.
    pub fn new(limit: usize) -> (r: CollectVisitor)
        ensures
            r.items_s() == Seq::<usize>::empty(),
            r.limit_s() == limit as int,
    {
        CollectVisitor { items: Vec::new(), limit }
    }

    /// The recorded identifiers.
    pub fn items(&self) -> (r: &Vec<usize>)
        ensures
            r@ == self.items_s(),
    {
        &self.items
    }
}

impl RangeVisitor for CollectVisitor {
    open spec fn more(&self) -> bool {
        self.items_s().len() < self.limit_s()
    }

    open spec fn step_rel(pre: Self, id: usize, post: Self) -> bool {
        post.items_s() == pre.items_s().push(id) && post.limit_s() == pre.limit_s()
    }

    proof fn step_monotone(pre: Self, id: usize, post: Self) {
    }

    fn visit(&mut self, id: usize) -> (cont: bool)
        ensures
            Self::step_rel(*old(self), id, *final(self)),
            cont == final(self).more(),
    {
        self.items.push(id);
        self.items.len() < self.limit
    }
}

/// Composes a predicate walk of an internal node — the median visit, the
/// left half's walk, the right half's walk — into the stopped-prefix form
/// over the whole block.
proof fn lemma_visited_compose<V: RangeVisitor>(
    v0: V,
    v1: V,
    v2: V,
    v3: V,
    node: Seq<usize>,
    full_l: Seq<usize>,
    full_r: Seq<usize>,
    k2: int,
    mid2: V,
    w2: Seq<usize>,
    k3: int,
    mid3: V,
    w3: Seq<usize>,
)
    requires
        runs_to(v0, node, v1),
        0 <= k2 <= full_l.len(),
        runs_to(v1, full_l.take(k2), mid2),
        runs_to(mid2, w2, v2),
        subsequence_of(w2, full_l.skip(k2)),
        k2 < full_l.len() ==> !mid2.more(),
        0 <= k3 <= full_r.len(),
        runs_to(v2, full_r.take(k3), mid3),
        runs_to(mid3, w3, v3),
        subsequence_of(w3, full_r.skip(k3)),
        k3 < full_r.len() ==> !mid3.more(),
    ensures
        visited_ok(v0, v3, (node + full_l) + full_r),
{
    let full = (node + full_l) + full_r;
    // The right walk, bundled: an order-preserving subsequence of its half.
    lemma_runs_to_concat(v2, full_r.take(k3), mid3, w3, v3);
    lemma_subseq_refl(full_r.take(k3));
    lemma_subseq_concat(full_r.take(k3), full_r.take(k3), w3, full_r.skip(k3));
    assert(full_r.take(k3) + full_r.skip(k3) =~= full_r);
    if k2 < full_l.len() {
        // The visitor stopped inside the left half: the in-order prefix ends
        // there and all later visits trail behind it.
        let kk = node.len() + k2;
        let ww = w2 + (full_r.take(k3) + w3);
        assert(full.take(kk as int) =~= node + full_l.take(k2));
        lemma_runs_to_concat(v0, node, v1, full_l.take(k2), mid2);
        assert(runs_to(v0, full.take(kk as int), mid2));
        lemma_runs_to_concat(mid2, w2, v2, full_r.take(k3) + w3, v3);
        lemma_subseq_concat(w2, full_l.skip(k2), full_r.take(k3) + w3, full_r);
        assert(full.skip(kk as int) =~= full_l.skip(k2) + full_r);
        assert(subsequence_of(ww, full.skip(kk as int)));
        lemma_runs_to_stopped(mid2, ww, v3);
        assert(visited_ok(v0, v3, full));
    } else {
        assert(full_l.take(k2) =~= full_l);
        assert(full_l.skip(k2) =~= Seq::<usize>::empty());
        assert(w2 =~= Seq::<usize>::empty());
        assert(v2 == mid2);
        lemma_runs_to_concat(v0, node, v1, full_l, v2);
        if k3 < full_r.len() {
            // The visitor stopped inside the right half.
            let kk = node.len() + full_l.len() + k3;
            assert(full.take(kk as int) =~= (node + full_l) + full_r.take(k3));
            lemma_runs_to_concat(v0, node + full_l, v2, full_r.take(k3), mid3);
            assert(runs_to(v0, full.take(kk as int), mid3));
            assert(full.skip(kk as int) =~= full_r.skip(k3));
            assert(subsequence_of(w3, full.skip(kk as int)));
            lemma_runs_to_stopped(mid3, w3, v3);
            assert(visited_ok(v0, v3, full));
        } else {
            // The whole block was walked in order.
            assert(full_r.take(k3) =~= full_r);
            assert(full_r.skip(k3) =~= Seq::<usize>::empty());
            assert(w3 =~= Seq::<usize>::empty());
            assert(v3 == mid3);
            lemma_runs_to_concat(v0, node + full_l, v2, full_r, v3);
            assert(full.take(full.len() as int) =~= full);
            assert(runs_to(v0, full.take(full.len() as int), v3));
            assert(runs_to(v3, Seq::<usize>::empty(), v3));
            assert(subsequence_of(Seq::<usize>::empty(), full.skip(full.len() as int)));
            assert(visited_ok(v0, v3, full));
        }
    }
}

/// A very fast static spatial index for 2D points based on a flat KD-tree.
pub struct KDBush {
    ids: Vec<usize>,
    points: Vec<(i32, i32)>,
    node_size: u8,
}

impl KDBush {
    /// The co-indexed identifier/point pairs, in storage order.
    pub closed spec fn entries(&self) -> Seq<Entry> {
        Seq::new(self.ids@.len(), |i: int| (self.ids@[i], self.points@[i]))
    }

    /// The stored identifiers, in storage order.
    pub closed spec fn ids_s(&self) -> Seq<usize> {
        self.ids@
    }

    /// The stored points, in storage order.
    pub closed spec fn points_s(&self) -> Seq<(i32, i32)> {
        self.points@
    }

    /// The leaf-block size threshold.
    pub closed spec fn ns(&self) -> int {
        self.node_size as int
    }

    /// Well-formed: the identifier and point arrays have equal length.
    pub closed spec fn wf(&self) -> bool {
        self.ids@.len() == self.points@.len()
    }

    /// Built: the storage satisfies the KD-tree invariant from the root.
    pub open spec fn built(&self) -> bool {
        kd_inv(self.entries(), 0, self.entries().len() - 1, 0, self.ns())
    }

    /// The identifier and point sequences are co-indexed views of `entries`:
    /// `ids_s()[i]` and `points_s()[i]` always belong to the same entry.
    pub proof fn lemma_co_indexed(&self)
        requires
            self.wf(),
        ensures
            self.entries().len() == self.ids_s().len(),
            self.entries().len() == self.points_s().len(),
            forall|i: int|
                0 <= i < self.entries().len() ==> #[trigger] self.entries()[i] == (
                self.ids_s()[i],
                self.points_s()[i],
                ),
    {
    }

    /// Creates an empty index.
    ///
    /// `size_hint` is the expected number of points (0 if unknown) and
    /// `node_size` the leaf-block size threshold.
    pub fn new(size_hint: usize, node_size: u8) -> (r: KDBush)
        ensures
            r.wf(),
            r.entries() =~= Seq::<Entry>::empty(),
            r.ns() == node_size as int,
    {
        KDBush { ids: Vec::with_capacity(size_hint), points: Vec::with_capacity(size_hint), node_size }
    }

    /// Returns the number of stored entries.
    pub fn len(&self) -> (n: usize)
        requires
            self.wf(),
        ensures
            n == self.entries().len(),
    {
        self.ids.len()
    }

    /// Returns true when the index holds no entries.
    pub fn is_empty(&self) -> (b: bool)
        requires
            self.wf(),
        ensures
            b == (self.entries().len() == 0),
    {
        self.ids.is_empty()
    }

    /// Adds one point under the given identifier; the pair is appended as a unit.
    pub fn add_point(&mut self, id: usize, x: i32, y: i32)
        requires
            old(self).wf(),
        ensures
            final(self).wf(),
            final(self).ns() == old(self).ns(),
            final(self).entries() =~= old(self).entries().push((id, (x, y))),
    {
        self.points.push((x, y));
        self.ids.push(id);
    }

    /// Swaps positions `i` and `j`, moving identifier and point together.
    fn swap_item(&mut self, i: usize, j: usize)
        requires
            old(self).wf(),
            i < old(self).entries().len(),
            j < old(self).entries().len(),
        ensures
            final(self).wf(),
            final(self).ns() == old(self).ns(),
            final(self).entries().len() == old(self).entries().len(),
            final(self).entries()[i as int] == old(self).entries()[j as int],
            final(self).entries()[j as int] == old(self).entries()[i as int],
            forall|x: int|
                0 <= x < old(self).entries().len() && x != i as int && x != j as int
                    ==> final(self).entries()[x] == old(self).entries()[x],
            forall|lo: int, hi: int|
                0 <= lo <= i as int && i as int <= hi && lo <= j as int && j as int <= hi && hi
                    < old(self).entries().len() ==> #[trigger] entries_ms(
                    final(self).entries(),
                    lo,
                    hi,
                ) == entries_ms(old(self).entries(), lo, hi),
    {
        let ghost s0 = self.entries();
        let pi = self.points[i];
        let pj = self.points[j];
        self.points[i] = pj;
        self.points[j] = pi;
        let idi = self.ids[i];
        let idj = self.ids[j];
        self.ids[i] = idj;
        self.ids[j] = idi;
        proof {
            assert(self.entries() =~= s0.update(i as int, s0[j as int]).update(
                j as int,
                s0[i as int],
            ));
            assert forall|lo: int, hi: int|
                0 <= lo <= i as int && i as int <= hi && lo <= j as int && j as int <= hi && hi
                    < s0.len() implies #[trigger] entries_ms(self.entries(), lo, hi) == entries_ms(
                s0,
                lo,
                hi,
            ) by {
                lemma_entries_ms_swap(s0, lo, hi, i as int, j as int);
                lemma_entries_ms_frame(
                    s0.update(i as int, s0[j as int]).update(j as int, s0[i as int]),
                    self.entries(),
                    lo,
                    hi,
                );
            }
        }
    }

    /// One partition pass over `l..=r` around the pivot value stored at `k`;
    /// returns the pivot value's final position.
    fn select_partition(&mut self, k: usize, l: usize, r: usize, axis: usize) -> (p: usize)
        requires
            old(self).wf(),
            axis == 0 || axis == 1,
            l <= k <= r,
            l < r,
            r < old(self).entries().len(),
        ensures
            final(self).wf(),
            final(self).ns() == old(self).ns(),
            final(self).entries().len() == old(self).entries().len(),
            forall|x: int|
                0 <= x < old(self).entries().len() && !(l <= x <= r as int)
                    ==> final(self).entries()[x] == old(self).entries()[x],
            entries_ms(final(self).entries(), l as int, r as int) == entries_ms(
                old(self).entries(),
                l as int,
                r as int,
            ),
            l <= p <= r,
            partitioned(final(self).entries(), l as int, p as int, r as int, axis as int),
    {
        let ghost s0 = self.entries();
        let ghost n = s0.len();
        let ghost ns0 = self.ns();
        let ghost ax = axis as int;

        let t = self.axis_coord(k, axis);
        let ghost tv = t as int;
        let mut i = l;
        let mut j = r;

        self.swap_item(l, k);
        if self.axis_coord(r, axis) > t {
            self.swap_item(l, r);
        }
        while i < j
            invariant
                self.wf(),
                self.ns() == ns0,
                self.entries().len() == n,
                axis == 0 || axis == 1,
                ax == axis as int,
                tv == t as int,
                l < r <= n - 1,
                l <= i <= r,
                l <= j <= r,
                i <= j + 1,
                (i == l) <==> (j == r),
                forall|x: int|
                    0 <= x < n && !(l <= x <= r as int) ==> self.entries()[x] == s0[x],
                entries_ms(self.entries(), l as int, r as int) == entries_ms(
                    s0,
                    l as int,
                    r as int,
                ),
                forall|x: int|
                    l <= x < i as int ==> #[trigger] axis_val(self.entries()[x].1, ax) <= tv,
                forall|x: int|
                    j < x <= r as int ==> #[trigger] axis_val(self.entries()[x].1, ax) >= tv,
                axis_val(self.entries()[i as int].1, ax) >= tv,
                axis_val(self.entries()[j as int].1, ax) <= tv,
                axis_val(self.entries()[l as int].1, ax) == tv || axis_val(
                    self.entries()[r as int].1,
                    ax,
                ) == tv,
            decreases j + 1 - i,
        {
            let ghost i0 = i;
            let ghost j0 = j;
            self.swap_item(i, j);
            i += 1;
            j -= 1;
            while self.axis_coord(i, axis) < t
                invariant
                    self.wf(),
                    self.entries().len() == n,
                    axis == 0 || axis == 1,
                    ax == axis as int,
                    tv == t as int,
                    i0 < i,
                    l < i,
                    i <= j + 1,
                    j < r <= n - 1,
                    forall|x: int|
                        l <= x < i as int ==> #[trigger] axis_val(self.entries()[x].1, ax) <= tv,
                    forall|x: int|
                        j < x <= r as int ==> #[trigger] axis_val(self.entries()[x].1, ax) >= tv,
                decreases j + 1 - i,
            {
                i += 1;
            }
            while self.axis_coord(j, axis) > t
                invariant
                    self.wf(),
                    self.entries().len() == n,
                    axis == 0 || axis == 1,
                    ax == axis as int,
                    tv == t as int,
                    i0 < i,
                    j < j0,
                    l < i <= r,
                    i - 1 <= j,
                    j < r <= n - 1,
                    forall|x: int|
                        l <= x < i as int ==> #[trigger] axis_val(self.entries()[x].1, ax) <= tv,
                    forall|x: int|
                        j < x <= r as int ==> #[trigger] axis_val(self.entries()[x].1, ax) >= tv,
                decreases j,
            {
                j -= 1;
            }
        }
        let p: usize;
        if self.axis_coord(l, axis) == t {
            self.swap_item(l, j);
            p = j;
        } else {
            j += 1;
            self.swap_item(j, r);
            p = j;
        }
        p
    }

    /// Rearranges `left..=right` in place so that position `k` holds the
    /// entry a full sort along `axis` would put there, with smaller-or-equal
    /// values on its left and greater-or-equal values on its right.
    fn select(&mut self, k: usize, left: usize, right: usize, axis: usize)
        requires
            old(self).wf(),
            axis == 0 || axis == 1,
            left <= k <= right,
            right < old(self).entries().len(),
        ensures
            final(self).wf(),
            final(self).ns() == old(self).ns(),
            final(self).entries().len() == old(self).entries().len(),
            forall|x: int|
                0 <= x < old(self).entries().len() && !(left <= x <= right as int)
                    ==> final(self).entries()[x] == old(self).entries()[x],
            entries_ms(final(self).entries(), left as int, right as int) == entries_ms(
                old(self).entries(),
                left as int,
                right as int,
            ),
            partitioned(final(self).entries(), left as int, k as int, right as int, axis as int),
    {
        let ghost s0 = self.entries();
        let ghost n = s0.len();
        let ghost ns0 = self.ns();
        let ghost ax = axis as int;
        let total = self.len();
        proof {
            assert(total as int == n && n <= usize::MAX);
        }
        let mut l = left;
        let mut r = right;
        while r > l
            invariant
                self.wf(),
                self.ns() == ns0,
                self.entries().len() == n,
                n <= usize::MAX,
                axis == 0 || axis == 1,
                ax == axis as int,
                left <= l,
                r <= right,
                left <= k <= right,
                right < n,
                forall|x: int|
                    0 <= x < n && !(left as int <= x <= right as int) ==> self.entries()[x]
                        == s0[x],
                entries_ms(self.entries(), left as int, right as int) == entries_ms(
                    s0,
                    left as int,
                    right as int,
                ),
                forall|x: int, y: int|
                    #![trigger axis_val(self.entries()[x].1, ax), axis_val(self.entries()[y].1, ax)]
                    left as int <= x < l as int && l as int <= y <= right as int ==> axis_val(
                        self.entries()[x].1,
                        ax,
                    ) <= axis_val(self.entries()[y].1, ax),
                forall|x: int, y: int|
                    #![trigger axis_val(self.entries()[x].1, ax), axis_val(self.entries()[y].1, ax)]
                    (r as int) < x <= right as int && left as int <= y <= r as int ==> axis_val(
                        self.entries()[y].1,
                        ax,
                    ) <= axis_val(self.entries()[x].1, ax),
                (l <= k <= r) || (l > r && partitioned(
                    self.entries(),
                    left as int,
                    k as int,
                    right as int,
                    ax,
                )),
            decreases (if l <= r { r + 1 - l } else { 0int }),
        {
            let ghost sprev = self.entries();
            let p = self.select_partition(k, l, r, axis);
            proof {
                lemma_ms_local_perm(
                    sprev,
                    self.entries(),
                    left as int,
                    right as int,
                    l as int,
                    r as int,
                );
                // Values outside the worked range kept their places, and the
                // worked range was only permuted, so both sandwich facts
                // carry over to the new arrangement.
                assert forall|x: int, y: int|
                    #![trigger axis_val(self.entries()[x].1, ax), axis_val(self.entries()[y].1, ax)]
                    left as int <= x < l as int && l as int <= y
                        <= right as int implies axis_val(self.entries()[x].1, ax) <= axis_val(
                    self.entries()[y].1,
                    ax,
                ) by {
                    if l as int <= y <= r as int {
                        lemma_perm_in_range(sprev, self.entries(), l as int, r as int, y);
                        let y2 = choose|y2: int|
                            l as int <= y2 <= r as int && sprev[y2] == self.entries()[y];
                        assert(axis_val(sprev[x].1, ax) <= axis_val(sprev[y2].1, ax));
                    }
                }
                assert forall|x: int, y: int|
                    #![trigger axis_val(self.entries()[x].1, ax), axis_val(self.entries()[y].1, ax)]
                    (r as int) < x <= right as int && left as int <= y
                        <= r as int implies axis_val(self.entries()[y].1, ax) <= axis_val(
                    self.entries()[x].1,
                    ax,
                ) by {
                    if l as int <= y <= r as int {
                        lemma_perm_in_range(sprev, self.entries(), l as int, r as int, y);
                        let y2 = choose|y2: int|
                            l as int <= y2 <= r as int && sprev[y2] == self.entries()[y];
                        assert(axis_val(sprev[y2].1, ax) <= axis_val(sprev[x].1, ax));
                    }
                }
            }
            if p == k {
                proof {
                    let s = self.entries();
                    assert forall|x: int| left as int <= x < k as int implies #[trigger] axis_val(
                        s[x].1,
                        ax,
                    ) <= axis_val(s[k as int].1, ax) by {
                        if x < l as int {
                            assert(axis_val(s[x].1, ax) <= axis_val(s[k as int].1, ax));
                        }
                    }
                    assert forall|x: int| (k as int) < x <= right as int implies #[trigger] axis_val(
                        s[x].1,
                        ax,
                    ) >= axis_val(s[k as int].1, ax) by {
                        if x > r as int {
                            assert(axis_val(s[k as int].1, ax) <= axis_val(s[x].1, ax));
                        }
                    }
                    assert(partitioned(s, left as int, k as int, right as int, ax));
                }
                l = k + 1;
                r = if k > 0 {
                    k - 1
                } else {
                    0
                };
            } else if p < k {
                l = p + 1;
            } else {
                r = p - 1;
            }
        }
        proof {
            if l <= k && k <= r {
                assert(l == k && k == r);
                assert(partitioned(self.entries(), left as int, k as int, right as int, ax));
            }
        }
    }

    /// Recursively arranges `left..=right` as a KD-tree block split along
    /// `axis`, by placing the median and recursing into both halves with the
    /// opposite axis.
    fn sort_kd(&mut self, left: usize, right: usize, axis: usize)
        requires
            old(self).wf(),
            axis == 0 || axis == 1,
            left <= right,
            right < old(self).entries().len(),
        ensures
            final(self).wf(),
            final(self).ns() == old(self).ns(),
            final(self).entries().len() == old(self).entries().len(),
            forall|x: int|
                0 <= x < old(self).entries().len() && !(left <= x <= right as int)
                    ==> final(self).entries()[x] == old(self).entries()[x],
            entries_ms(final(self).entries(), left as int, right as int) == entries_ms(
                old(self).entries(),
                left as int,
                right as int,
            ),
            kd_inv(final(self).entries(), left as int, right as int, axis as int, final(self).ns()),
        decreases right - left,
    {
        let ghost n = old(self).entries().len();
        if right - left <= self.node_size as usize {
            return;
        }
        let m = left + (right - left) / 2;
        proof {
            lemma_mid(left as int, right as int);
        }
        let ghost mm = m as int;
        let ghost ax = axis as int;
        let ghost s0 = self.entries();
        self.select(m, left, right, axis);
        let ghost s1 = self.entries();
        let next_axis = if axis == 0 {
            1
        } else {
            0
        };
        if m > left {
            self.sort_kd(left, m - 1, next_axis);
        }
        let ghost s2 = self.entries();
        proof {
            if m > left {
                lemma_ms_local_perm(s1, s2, left as int, right as int, left as int, mm - 1);
            }
        }
        if m < right {
            self.sort_kd(m + 1, right, next_axis);
        }
        let ghost s3 = self.entries();
        proof {
            if m < right {
                lemma_ms_local_perm(s2, s3, left as int, right as int, mm + 1, right as int);
            }
            // The median entry never moved.
            assert(s3[mm] == s1[mm]);
            // Left half: a permutation of a block of values at most the median.
            assert forall|x: int| left as int <= x < mm implies #[trigger] axis_val(s3[x].1, ax)
                <= axis_val(s3[mm].1, ax) by {
                if m > left {
                    assert(s3[x] == s2[x]);
                    lemma_perm_in_range(s1, s2, left as int, mm - 1, x);
                    let y = choose|y: int| left as int <= y <= mm - 1 && s1[y] == s2[x];
                    assert(axis_val(s1[y].1, ax) <= axis_val(s1[mm].1, ax));
                }
            }
            // Right half: a permutation of a block of values at least the median.
            assert forall|x: int| mm < x <= right as int implies #[trigger] axis_val(s3[x].1, ax)
                >= axis_val(s3[mm].1, ax) by {
                if m < right {
                    lemma_perm_in_range(s2, s3, mm + 1, right as int, x);
                    let y = choose|y: int| mm + 1 <= y <= right as int && s2[y] == s3[x];
                    assert(s2[y] == s1[y]);
                    assert(axis_val(s1[y].1, ax) >= axis_val(s1[mm].1, ax));
                }
            }
            assert(partitioned(s3, left as int, mm, right as int, ax));
            // The halves keep their own KD invariants: the right recursion did
            // not touch the left half, and vice versa.
            if m > left {
                lemma_kd_inv_frame(s2, s3, left as int, mm - 1, 1 - ax, self.ns());
            }
            assert(kd_inv(s3, left as int, mm - 1, 1 - ax, self.ns()));
            assert(kd_inv(s3, mm + 1, right as int, 1 - ax, self.ns()));
            assert(kd_inv(s3, left as int, right as int, ax, self.ns()));
        }
    }

    /// Builds the KD-tree in place; the entry pairs are only permuted. A
    /// no-op on an empty index.
    pub fn build_index(&mut self)
        requires
            old(self).wf(),
        ensures
            final(self).wf(),
            final(self).ns() == old(self).ns(),
            final(self).entries().len() == old(self).entries().len(),
            entries_ms(
                final(self).entries(),
                0,
                final(self).entries().len() - 1,
            ) == entries_ms(old(self).entries(), 0, old(self).entries().len() - 1),
            final(self).built(),
    {
        let size = self.len();
        if size > 0 {
            self.sort_kd(0, size - 1, 0);
        }
    }

    /// Creates a built index over the points of the given reader; the
    /// identifier of each point is its position in the reader's sequence.
    pub fn create<R: PointReader>(points: R, node_size: u8) -> (r: KDBush)
        ensures
            r.wf(),
            r.built(),
            r.ns() == node_size as int,
            r.entries().len() == points.points_spec().len(),
            entries_ms(r.entries(), 0, points.points_spec().len() - 1) == entries_ms(
                Seq::new(
                    points.points_spec().len(),
                    |i: int| (i as usize, points.points_spec()[i]),
                ),
                0,
                points.points_spec().len() - 1,
            ),
    {
        let ghost ideal = Seq::new(
            points.points_spec().len(),
            |i: int| (i as usize, points.points_spec()[i]),
        );
        let n = points.size_hint();
        let mut kdbush = KDBush::new(n, node_size);
        let mut i: usize = 0;
        while i < n
            invariant
                kdbush.wf(),
                kdbush.ns() == node_size as int,
                i <= n,
                n == points.points_spec().len(),
                kdbush.entries() =~= ideal.take(i as int),
                ideal == Seq::new(
                    points.points_spec().len(),
                    |x: int| (x as usize, points.points_spec()[x]),
                ),
            decreases n - i,
        {
            let p = points.point_at(i);
            kdbush.add_point(i, p.0, p.1);
            i += 1;
            proof {
                assert(kdbush.entries() =~= ideal.take(i as int));
            }
        }
        proof {
            assert(kdbush.entries() =~= ideal);
            lemma_entries_ms_frame(kdbush.entries(), ideal, 0, points.points_spec().len() - 1);
        }
        kdbush.build_index();
        kdbush
    }

    /// Depth-first bounding-box search over the block `left..=right`:
    /// at an internal node the median entry is reported first, then the left
    /// half, then the right half; a half the box cannot reach is skipped.
    fn range_idx(
        &self,
        minx: i32,
        miny: i32,
        maxx: i32,
        maxy: i32,
        out: &mut Vec<usize>,
        left: usize,
        right: usize,
        axis: usize,
    )
        requires
            self.wf(),
            axis == 0 || axis == 1,
            left <= right,
            right < self.entries().len(),
            kd_inv(self.entries(), left as int, right as int, axis as int, self.ns()),
        ensures
            final(out)@ == old(out)@ + traversal_seq(
                self.entries(),
                left as int,
                right as int,
                self.ns(),
                box_pred(minx as int, miny as int, maxx as int, maxy as int),
            ),
        decreases right - left,
    {
        let ghost s = self.entries();
        let ghost pred = box_pred(minx as int, miny as int, maxx as int, maxy as int);
        let ghost base = out@;
        let ghost ax = axis as int;
        let total = self.len();
        proof {
            assert(total as int == s.len());
        }
        if right - left <= self.node_size as usize {
            proof {
                assert(out@ =~= base + scan_seq(s, left as int, left as int - 1, pred));
            }
            let mut i = left;
            while i <= right
                invariant
                    self.wf(),
                    self.entries() == s,
                    pred == box_pred(minx as int, miny as int, maxx as int, maxy as int),
                    left <= i,
                    i <= right + 1,
                    right < s.len(),
                    s.len() <= usize::MAX,
                    out@ == base + scan_seq(s, left as int, i as int - 1, pred),
                decreases right + 1 - i,
            {
                let (px, py) = self.points[i];
                proof {
                    assert(s[i as int] == (self.ids@[i as int], (px, py)));
                }
                if px >= minx && px <= maxx && py >= miny && py <= maxy {
                    let id = self.ids[i];
                    out.push(id);
                    proof {
                        assert(pred(s[i as int].1));
                        assert(out@ =~= base + scan_seq(s, left as int, i as int, pred));
                    }
                } else {
                    proof {
                        assert(!pred(s[i as int].1));
                        assert(scan_seq(s, left as int, i as int, pred) == scan_seq(
                            s,
                            left as int,
                            i as int - 1,
                            pred,
                        ));
                    }
                }
                i += 1;
            }
            proof {
                assert(traversal_seq(s, left as int, right as int, self.ns(), pred) == scan_seq(
                    s,
                    left as int,
                    right as int,
                    pred,
                ));
            }
            return ;
        }
        let m = left + (right - left) / 2;
        proof {
            lemma_mid(left as int, right as int);
        }
        let ghost mm = m as int;
        proof {
            assert(partitioned(s, left as int, mm, right as int, ax));
            assert(kd_inv(s, left as int, mm - 1, 1 - ax, self.ns()));
            assert(kd_inv(s, mm + 1, right as int, 1 - ax, self.ns()));
        }
        let (px, py) = self.points[m];
        proof {
            assert(s[mm] == (self.ids@[mm], (px, py)));
        }
        let ghost node = (if pred(s[mm].1) {
            seq![s[mm].0]
        } else {
            Seq::<usize>::empty()
        });
        if px >= minx && px <= maxx && py >= miny && py <= maxy {
            let id = self.ids[m];
            out.push(id);
            proof {
                assert(pred(s[mm].1));
                assert(out@ =~= base + node);
            }
        } else {
            proof {
                assert(!pred(s[mm].1));
                assert(out@ =~= base + node);
            }
        }
        let ghost o1 = out@;
        let next_axis = if axis == 0 {
            1
        } else {
            0
        };
        let nodeval = self.axis_coord(m, axis);
        let lte = if axis == 0 {
            minx <= nodeval
        } else {
            miny <= nodeval
        };
        if lte && m > left {
            self.range_idx(minx, miny, maxx, maxy, out, left, m - 1, next_axis);
        }
        let ghost o2 = out@;
        proof {
            if !(lte && m > left) {
                if m > left {
                    // The box lies wholly above the splitting value, so the
                    // left half holds no match.
                    assert forall|x: int| left as int <= x <= mm - 1 implies !pred(
                        #[trigger] s[x].1,
                    ) by {
                        assert(axis_val(s[x].1, ax) <= axis_val(s[mm].1, ax));
                    }
                }
                lemma_traversal_seq_empty(s, left as int, mm - 1, self.ns(), pred);
            }
            assert(o2 =~= o1 + traversal_seq(s, left as int, mm - 1, self.ns(), pred));
        }
        let gte = if axis == 0 {
            maxx >= nodeval
        } else {
            maxy >= nodeval
        };
        if gte {
            self.range_idx(minx, miny, maxx, maxy, out, m + 1, right, next_axis);
        }
        let ghost o3 = out@;
        proof {
            if !gte {
                assert forall|x: int| mm + 1 <= x <= right as int implies !pred(
                    #[trigger] s[x].1,
                ) by {
                    assert(axis_val(s[x].1, ax) >= axis_val(s[mm].1, ax));
                }
                lemma_traversal_seq_empty(s, mm + 1, right as int, self.ns(), pred);
            }
            assert(o3 =~= o2 + traversal_seq(s, mm + 1, right as int, self.ns(), pred));
            assert(traversal_seq(s, left as int, right as int, self.ns(), pred) == (node
                + traversal_seq(s, left as int, mm - 1, self.ns(), pred)) + traversal_seq(
                s,
                mm + 1,
                right as int,
                self.ns(),
                pred,
            ));
            assert(o3 =~= base + traversal_seq(s, left as int, right as int, self.ns(), pred));
        }
    }

    /// Finds all entries within the given closed bounding box and returns
    /// their identifiers in depth-first traversal order (the median of a
    /// block before its halves, leaves left to right): exactly the sequence
    /// `traversal_seq` describes, whose identifiers are exactly those whose
    /// point lies inside the box, with multiplicity.
    pub fn range(&self, minx: i32, miny: i32, maxx: i32, maxy: i32) -> (r: Vec<usize>)
        requires
            self.wf(),
            self.built(),
        ensures
            r@ == traversal_seq(
                self.entries(),
                0,
                self.entries().len() - 1,
                self.ns(),
                box_pred(minx as int, miny as int, maxx as int, maxy as int),
            ),
            ids_ms(r@) == matches_ms(
                self.entries(),
                0,
                self.entries().len() - 1,
                box_pred(minx as int, miny as int, maxx as int, maxy as int),
            ),
    {
        let mut out: Vec<usize> = Vec::new();
        proof {
            lemma_traversal_seq_ms(
                self.entries(),
                0,
                self.entries().len() - 1,
                self.ns(),
                box_pred(minx as int, miny as int, maxx as int, maxy as int),
            );
        }
        if self.is_empty() {
            return out;
        }
        let n = self.len();
        self.range_idx(minx, miny, maxx, maxy, &mut out, 0, n - 1, 0);
        proof {
            assert(out@ =~= Seq::<usize>::empty() + out@);
        }
        out
    }

    /// Squared Euclidean distance between two points, exactly.
    fn sq_dist_of(ax: i32, ay: i32, bx: i32, by: i32) -> (d: i128)
        ensures
            d as int == sq_dist((ax, ay), bx as int, by as int),
    {
        let dx = ax as i128 - bx as i128;
        let dy = ay as i128 - by as i128;
        proof {
            assert(dx * dx <= 0x4_0000_0000_0000_0000 && dx * dx >= 0) by (nonlinear_arith)
                requires
                    -0x2_0000_0000 <= dx <= 0x2_0000_0000,
            ;
            assert(dy * dy <= 0x4_0000_0000_0000_0000 && dy * dy >= 0) by (nonlinear_arith)
                requires
                    -0x2_0000_0000 <= dy <= 0x2_0000_0000,
            ;
        }
        dx * dx + dy * dy
    }

    /// Depth-first radius search over the block `left..=right`: the median
    /// entry is reported first, then the left half, then the right half; a
    /// half the disk cannot reach is skipped.
    fn within_idx(
        &self,
        qx: i32,
        qy: i32,
        r: i32,
        out: &mut Vec<usize>,
        left: usize,
        right: usize,
        axis: usize,
    )
        requires
            self.wf(),
            axis == 0 || axis == 1,
            r >= 0,
            left <= right,
            right < self.entries().len(),
            kd_inv(self.entries(), left as int, right as int, axis as int, self.ns()),
        ensures
            final(out)@ == old(out)@ + traversal_seq(
                self.entries(),
                left as int,
                right as int,
                self.ns(),
                circle_pred(qx as int, qy as int, r as int),
            ),
        decreases right - left,
    {
        let ghost s = self.entries();
        let ghost pred = circle_pred(qx as int, qy as int, r as int);
        let ghost base = out@;
        let ghost ax = axis as int;
        let total = self.len();
        proof {
            assert(total as int == s.len());
        }
        let rw = r as i128;
        proof {
            assert(rw * rw <= 0x4000_0000_0000_0000 && rw * rw >= 0) by (nonlinear_arith)
                requires
                    0 <= rw <= 0x8000_0000,
            ;
        }
        let r2 = rw * rw;
        if right - left <= self.node_size as usize {
            proof {
                assert(out@ =~= base + scan_seq(s, left as int, left as int - 1, pred));
            }
            let mut i = left;
            while i <= right
                invariant
                    self.wf(),
                    self.entries() == s,
                    pred == circle_pred(qx as int, qy as int, r as int),
                    r2 == (r as int) * (r as int),
                    left <= i,
                    i <= right + 1,
                    right < s.len(),
                    s.len() <= usize::MAX,
                    out@ == base + scan_seq(s, left as int, i as int - 1, pred),
                decreases right + 1 - i,
            {
                let (px, py) = self.points[i];
                proof {
                    assert(s[i as int] == (self.ids@[i as int], (px, py)));
                }
                if KDBush::sq_dist_of(px, py, qx, qy) <= r2 {
                    let id = self.ids[i];
                    out.push(id);
                    proof {
                        assert(pred(s[i as int].1));
                        assert(out@ =~= base + scan_seq(s, left as int, i as int, pred));
                    }
                } else {
                    proof {
                        assert(!pred(s[i as int].1));
                        assert(scan_seq(s, left as int, i as int, pred) == scan_seq(
                            s,
                            left as int,
                            i as int - 1,
                            pred,
                        ));
                    }
                }
                i += 1;
            }
            proof {
                assert(traversal_seq(s, left as int, right as int, self.ns(), pred) == scan_seq(
                    s,
                    left as int,
                    right as int,
                    pred,
                ));
            }
            return ;
        }
        let m = left + (right - left) / 2;
        proof {
            lemma_mid(left as int, right as int);
        }
        let ghost mm = m as int;
        proof {
            assert(partitioned(s, left as int, mm, right as int, ax));
            assert(kd_inv(s, left as int, mm - 1, 1 - ax, self.ns()));
            assert(kd_inv(s, mm + 1, right as int, 1 - ax, self.ns()));
        }
        let (px, py) = self.points[m];
        proof {
            assert(s[mm] == (self.ids@[mm], (px, py)));
        }
        let ghost node = (if pred(s[mm].1) {
            seq![s[mm].0]
        } else {
            Seq::<usize>::empty()
        });
        if KDBush::sq_dist_of(px, py, qx, qy) <= r2 {
            let id = self.ids[m];
            out.push(id);
            proof {
                assert(pred(s[mm].1));
                assert(out@ =~= base + node);
            }
        } else {
            proof {
                assert(!pred(s[mm].1));
                assert(out@ =~= base + node);
            }
        }
        let ghost o1 = out@;
        let next_axis = if axis == 0 {
            1
        } else {
            0
        };
        let nodeval = self.axis_coord(m, axis);
        let qaxis = if axis == 0 {
            qx
        } else {
            qy
        };
        let lte = qaxis as i64 - r as i64 <= nodeval as i64;
        if lte && m > left {
            self.within_idx(qx, qy, r, out, left, m - 1, next_axis);
        }
        let ghost o2 = out@;
        proof {
            if !(lte && m > left) {
                if m > left {
                    // The disk lies wholly above the splitting value, so the
                    // left half holds no match.
                    assert forall|x: int| left as int <= x <= mm - 1 implies !pred(
                        #[trigger] s[x].1,
                    ) by {
                        assert(axis_val(s[x].1, ax) <= axis_val(s[mm].1, ax));
                        if pred(s[x].1) {
                            lemma_circle_axis_bound(s[x].1, qx as int, qy as int, r as int);
                        }
                    }
                }
                lemma_traversal_seq_empty(s, left as int, mm - 1, self.ns(), pred);
            }
            assert(o2 =~= o1 + traversal_seq(s, left as int, mm - 1, self.ns(), pred));
        }
        let gte = qaxis as i64 + r as i64 >= nodeval as i64;
        if gte {
            self.within_idx(qx, qy, r, out, m + 1, right, next_axis);
        }
        let ghost o3 = out@;
        proof {
            if !gte {
                assert forall|x: int| mm + 1 <= x <= right as int implies !pred(
                    #[trigger] s[x].1,
                ) by {
                    assert(axis_val(s[x].1, ax) >= axis_val(s[mm].1, ax));
                    if pred(s[x].1) {
                        lemma_circle_axis_bound(s[x].1, qx as int, qy as int, r as int);
                    }
                }
                lemma_traversal_seq_empty(s, mm + 1, right as int, self.ns(), pred);
            }
            assert(o3 =~= o2 + traversal_seq(s, mm + 1, right as int, self.ns(), pred));
            assert(traversal_seq(s, left as int, right as int, self.ns(), pred) == (node
                + traversal_seq(s, left as int, mm - 1, self.ns(), pred)) + traversal_seq(
                s,
                mm + 1,
                right as int,
                self.ns(),
                pred,
            ));
            assert(o3 =~= base + traversal_seq(s, left as int, right as int, self.ns(), pred));
        }
    }

    /// Finds all entries within the closed disk of radius `r` around the
    /// query point and returns their identifiers in depth-first traversal
    /// order (the median of a block before its halves, leaves left to
    /// right): exactly the sequence `traversal_seq` describes, whose
    /// identifiers are exactly those whose point has squared distance at
    /// most `r * r` from the center, with multiplicity.
    pub fn within(&self, qx: i32, qy: i32, r: i32) -> (res: Vec<usize>)
        requires
            self.wf(),
            self.built(),
            r >= 0,
        ensures
            res@ == traversal_seq(
                self.entries(),
                0,
                self.entries().len() - 1,
                self.ns(),
                circle_pred(qx as int, qy as int, r as int),
            ),
            ids_ms(res@) == matches_ms(
                self.entries(),
                0,
                self.entries().len() - 1,
                circle_pred(qx as int, qy as int, r as int),
            ),
    {
        let mut out: Vec<usize> = Vec::new();
        proof {
            lemma_traversal_seq_ms(
                self.entries(),
                0,
                self.entries().len() - 1,
                self.ns(),
                circle_pred(qx as int, qy as int, r as int),
            );
        }
        if self.is_empty() {
            return out;
        }
        let n = self.len();
        self.within_idx(qx, qy, r, &mut out, 0, n - 1, 0);
        proof {
            assert(out@ =~= Seq::<usize>::empty() + out@);
        }
        out
    }

    /// Depth-first bounding-box search over `left..=right` that hands each
    /// match to the visitor; when the visitor answers `false`, the scan of
    /// the block being visited stops, though blocks already entered higher up
    /// are still walked.
    #[verifier::loop_isolation(false)]
    #[verifier::rlimit(60)]
    fn range_idx_with_predicate<V: RangeVisitor>(
        &self,
        minx: i32,
        miny: i32,
        maxx: i32,
        maxy: i32,
        v: &mut V,
        left: usize,
        right: usize,
        axis: usize,
    )
        requires
            self.wf(),
            axis == 0 || axis == 1,
            left <= right,
            right < self.entries().len(),
            kd_inv(self.entries(), left as int, right as int, axis as int, self.ns()),
        ensures
            visited_ok(
                *old(v),
                *final(v),
                traversal_seq(
                    self.entries(),
                    left as int,
                    right as int,
                    self.ns(),
                    box_pred(minx as int, miny as int, maxx as int, maxy as int),
                ),
            ),
        decreases right - left,
    {
        let ghost s = self.entries();
        let ghost pred = box_pred(minx as int, miny as int, maxx as int, maxy as int);
        let ghost v0 = *v;
        let ghost ax = axis as int;
        let ghost full = traversal_seq(s, left as int, right as int, self.ns(), pred);
        let total = self.len();
        proof {
            assert(total as int == s.len());
        }
        if right - left <= self.node_size as usize {
            proof {
                assert(full == scan_seq(s, left as int, right as int, pred));
            }
            let ghost mut acc = Seq::<usize>::empty();
            proof {
                assert(runs_to(v0, acc, *v));
            }
            let mut i = left;
            while i <= right
                invariant
                    left <= i,
                    i <= right + 1,
                    runs_to(v0, acc, *v),
                    acc == scan_seq(s, left as int, i as int - 1, pred),
                decreases right + 1 - i,
            {
                let (px, py) = self.points[i];
                proof {
                    assert(s[i as int] == (self.ids@[i as int], (px, py)));
                }
                if px >= minx && px <= maxx && py >= miny && py <= maxy {
                    let id = self.ids[i];
                    let ghost vpre = *v;
                    let cont = v.visit(id);
                    proof {
                        lemma_runs_to_push(v0, acc, vpre, id, *v);
                        acc = acc.push(id);
                        assert(pred(s[i as int].1));
                        assert(acc == scan_seq(s, left as int, i as int, pred));
                    }
                    if !cont {
                        proof {
                            lemma_scan_seq_split(s, left as int, i as int, right as int, pred);
                            assert(full.take(acc.len() as int) =~= acc);
                            assert(runs_to(*v, Seq::<usize>::empty(), *v));
                            assert(subsequence_of(
                                Seq::<usize>::empty(),
                                full.skip(acc.len() as int),
                            ));
                            assert(visited_ok(v0, *v, full));
                        }
                        return ;
                    }
                } else {
                    proof {
                        assert(!pred(s[i as int].1));
                        assert(scan_seq(s, left as int, i as int, pred) == scan_seq(
                            s,
                            left as int,
                            i as int - 1,
                            pred,
                        ));
                    }
                }
                i += 1;
            }
            proof {
                assert(acc == full);
                assert(full.take(full.len() as int) =~= full);
                assert(runs_to(*v, Seq::<usize>::empty(), *v));
                assert(subsequence_of(Seq::<usize>::empty(), full.skip(full.len() as int)));
                assert(visited_ok(v0, *v, full));
            }
            return ;
        }
        let m = left + (right - left) / 2;
        proof {
            lemma_mid(left as int, right as int);
        }
        let ghost mm = m as int;
        proof {
            assert(partitioned(s, left as int, mm, right as int, ax));
            assert(kd_inv(s, left as int, mm - 1, 1 - ax, self.ns()));
            assert(kd_inv(s, mm + 1, right as int, 1 - ax, self.ns()));
        }
        let ghost node = (if pred(s[mm].1) {
            seq![s[mm].0]
        } else {
            Seq::<usize>::empty()
        });
        let ghost full_l = traversal_seq(s, left as int, mm - 1, self.ns(), pred);
        let ghost full_r = traversal_seq(s, mm + 1, right as int, self.ns(), pred);
        proof {
            assert(full == (node + full_l) + full_r);
        }
        let (px, py) = self.points[m];
        proof {
            assert(s[mm] == (self.ids@[mm], (px, py)));
        }
        if px >= minx && px <= maxx && py >= miny && py <= maxy {
            let id = self.ids[m];
            let ghost vpre = *v;
            let cont = v.visit(id);
            proof {
                assert(runs_to(v0, Seq::<usize>::empty(), vpre));
                lemma_runs_to_push(v0, Seq::<usize>::empty(), vpre, id, *v);
                assert(pred(s[mm].1));
                assert(node =~= Seq::<usize>::empty().push(id));
                assert(runs_to(v0, node, *v));
            }
            if !cont {
                proof {
                    assert(full.take(1) =~= node);
                    assert(runs_to(v0, full.take(1), *v));
                    assert(runs_to(*v, Seq::<usize>::empty(), *v));
                    assert(subsequence_of(Seq::<usize>::empty(), full.skip(1)));
                    assert(visited_ok(v0, *v, full));
                }
                return ;
            }
        } else {
            proof {
                assert(!pred(s[mm].1));
                assert(runs_to(v0, node, *v));
            }
        }
        let ghost v1 = *v;
        let next_axis = if axis == 0 {
            1
        } else {
            0
        };
        let nodeval = self.axis_coord(m, axis);
        let lte = if axis == 0 {
            minx <= nodeval
        } else {
            miny <= nodeval
        };
        let ghost mut k2: int = 0;
        let ghost mut mid2 = *v;
        let ghost mut w2 = Seq::<usize>::empty();
        if lte && m > left {
            self.range_idx_with_predicate(minx, miny, maxx, maxy, v, left, m - 1, next_axis);
            proof {
                let (ka, ma, wa) = choose|ka: int, ma: V, wa: Seq<usize>|
                    #![trigger runs_to(v1, full_l.take(ka), ma), runs_to(ma, wa, *v)]
                    {
                        &&& 0 <= ka <= full_l.len()
                        &&& runs_to(v1, full_l.take(ka), ma)
                        &&& runs_to(ma, wa, *v)
                        &&& subsequence_of(wa, full_l.skip(ka))
                        &&& (ka < full_l.len() ==> !ma.more())
                        &&& ((*v).more() ==> ka == full_l.len() && wa == Seq::<usize>::empty())
                    };
                k2 = ka;
                mid2 = ma;
                w2 = wa;
            }
        } else {
            proof {
                if m > left {
                    // The box lies wholly above the splitting value, so the
                    // left half holds no match.
                    assert forall|x: int| left as int <= x <= mm - 1 implies !pred(
                        #[trigger] s[x].1,
                    ) by {
                        assert(axis_val(s[x].1, ax) <= axis_val(s[mm].1, ax));
                    }
                }
                lemma_traversal_seq_empty(s, left as int, mm - 1, self.ns(), pred);
                assert(full_l.take(0) =~= Seq::<usize>::empty());
                assert(runs_to(v1, full_l.take(0), mid2));
                assert(runs_to(mid2, w2, *v));
                assert(subsequence_of(w2, full_l.skip(0)));
            }
        }
        let ghost v2 = *v;
        proof {
            assert(0 <= k2 <= full_l.len());
            assert(runs_to(v1, full_l.take(k2), mid2));
            assert(runs_to(mid2, w2, v2));
            assert(subsequence_of(w2, full_l.skip(k2)));
            assert(k2 < full_l.len() ==> !mid2.more());
        }
        let gte = if axis == 0 {
            maxx >= nodeval
        } else {
            maxy >= nodeval
        };
        let ghost mut k3: int = 0;
        let ghost mut mid3 = *v;
        let ghost mut w3 = Seq::<usize>::empty();
        if gte {
            self.range_idx_with_predicate(minx, miny, maxx, maxy, v, m + 1, right, next_axis);
            proof {
                let (kb, mb, wb) = choose|kb: int, mb: V, wb: Seq<usize>|
                    #![trigger runs_to(v2, full_r.take(kb), mb), runs_to(mb, wb, *v)]
                    {
                        &&& 0 <= kb <= full_r.len()
                        &&& runs_to(v2, full_r.take(kb), mb)
                        &&& runs_to(mb, wb, *v)
                        &&& subsequence_of(wb, full_r.skip(kb))
                        &&& (kb < full_r.len() ==> !mb.more())
                        &&& ((*v).more() ==> kb == full_r.len() && wb == Seq::<usize>::empty())
                    };
                k3 = kb;
                mid3 = mb;
                w3 = wb;
            }
        } else {
            proof {
                assert forall|x: int| mm + 1 <= x <= right as int implies !pred(
                    #[trigger] s[x].1,
                ) by {
                    assert(axis_val(s[x].1, ax) >= axis_val(s[mm].1, ax));
                }
                lemma_traversal_seq_empty(s, mm + 1, right as int, self.ns(), pred);
                assert(full_r.take(0) =~= Seq::<usize>::empty());
                assert(runs_to(v2, full_r.take(0), mid3));
                assert(runs_to(mid3, w3, *v));
                assert(subsequence_of(w3, full_r.skip(0)));
            }
        }
        proof {
            let v3 = *v;
            lemma_visited_compose(
                v0,
                v1,
                v2,
                v3,
                node,
                full_l,
                full_r,
                k2,
                mid2,
                w2,
                k3,
                mid3,
                w3,
            );
            assert(visited_ok(v0, v3, full));
        }
    }

    /// Finds entries within the given closed bounding box, handing each
    /// matching identifier to the visitor in depth-first traversal order; a
    /// visitor that answers `false` stops the scan of the block being
    /// visited, though blocks already entered higher up are still walked.
    /// The visits are the traversal's reports in order up to the stopping
    /// point, followed by an order-preserving subsequence of the later
    /// reports; a visitor that still asks for more at the end was handed the
    /// whole traversal.
    pub fn range_with_predicate<V: RangeVisitor>(
        &self,
        minx: i32,
        miny: i32,
        maxx: i32,
        maxy: i32,
        v: &mut V,
    )
        requires
            self.wf(),
            self.built(),
        ensures
            visited_ok(
                *old(v),
                *final(v),
                traversal_seq(
                    self.entries(),
                    0,
                    self.entries().len() - 1,
                    self.ns(),
                    box_pred(minx as int, miny as int, maxx as int, maxy as int),
                ),
            ),
    {
        let ghost v0 = *v;
        if self.is_empty() {
            proof {
                let full = traversal_seq(
                    self.entries(),
                    0,
                    self.entries().len() - 1,
                    self.ns(),
                    box_pred(minx as int, miny as int, maxx as int, maxy as int),
                );
                assert(full.take(0) =~= Seq::<usize>::empty());
                assert(runs_to(v0, full.take(0), *v));
                assert(runs_to(*v, Seq::<usize>::empty(), *v));
                assert(subsequence_of(Seq::<usize>::empty(), full.skip(0)));
                assert(visited_ok(v0, *v, full));
            }
            return ;
        }
        let n = self.len();
        self.range_idx_with_predicate(minx, miny, maxx, maxy, v, 0, n - 1, 0);
    }


    /// Reads the coordinate of the point at `idx` along `axis`.
    fn axis_coord(&self, idx: usize, axis: usize) -> (v: i32)
        requires
            self.wf(),
            idx < self.entries().len(),
            axis == 0 || axis == 1,
        ensures
            v as int == axis_val(self.entries()[idx as int].1, axis as int),
    {
        if axis == 0 {
            self.points[idx].0
        } else {
            self.points[idx].1
        }
    }
}

} // verus!
