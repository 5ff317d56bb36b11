//! The feature-oriented query layer over the spatial index: an immutable
//! feature index answering deduplicated, limited viewport queries and serving
//! per-feature heatmap centroids, and the staged builder that derives indexed
//! points and centroids from decoded features.

use vstd::multiset::Multiset;
use vstd::prelude::*;

use crate::kdbush::box_pred;
use crate::kdbush::entries_ms;
use crate::kdbush::lemma_perm_in_range;
use crate::kdbush::lemma_ids_ms_contains;
use crate::kdbush::lemma_matches_ms_count;
use crate::kdbush::lemma_traversal_seq_ms;
use crate::kdbush::matches_ms;
use crate::kdbush::runs_to;
use crate::kdbush::subsequence_of;
use crate::kdbush::traversal_seq;
use crate::kdbush::visited_ok;
use crate::kdbush::Entry;
use crate::kdbush::KDBush;
use crate::kdbush::RangeVisitor;
use crate::kdbush::DEFAULT_NODE_SIZE;

verus! {

/// A 2D point of the feature layer; once indexed, latitude comes first.
pub type GeoPoint = (i32, i32);

/// The hard ceiling on the number of features a viewport query returns.
pub const MAX_QUERY_LIMIT: usize = 10000;

/// Why a dataset cannot be loaded.
#[derive(Debug, PartialEq, Eq)]
pub enum GeoError {
    /// A feature carries neither a bounding box nor a point geometry.
    UnsupportedFeature,
}

/// The requested result limit clamped to the hard ceiling.
pub open spec fn clamped_limit(limit: int) -> int {
    if limit > MAX_QUERY_LIMIT as int {
        MAX_QUERY_LIMIT as int
    } else {
        limit
    }
}

/// The identifiers recorded when reading `s` front to back, starting from an
/// already-recorded `acc`: an identifier not yet recorded is appended while
/// fewer than `limit` are recorded; duplicates never are. With an empty
/// `acc` this is the first `limit` distinct identifiers of `s`, in
/// first-encounter order.
pub open spec fn dedup_take(s: Seq<usize>, acc: Seq<usize>, limit: int) -> Seq<usize>
    decreases s.len(),
{
    if s.len() == 0 {
        acc
    } else {
        let acc2 = if acc.len() < limit && !acc.contains(s[0]) {
            acc.push(s[0])
        } else {
            acc
        };
        dedup_take(s.drop_first(), acc2, limit)
    }
}

/// `dedup_take` handles the last identifier after all the others.
proof fn lemma_dedup_take_push(s: Seq<usize>, id: usize, acc: Seq<usize>, limit: int)
    ensures
        dedup_take(s.push(id), acc, limit) == ({
            let r = dedup_take(s, acc, limit);
            if r.len() < limit && !r.contains(id) {
                r.push(id)
            } else {
                r
            }
        }),
    decreases s.len(),
{
    if s.len() == 0 {
        assert(s.push(id)[0] == id);
        assert(s.push(id).drop_first() =~= Seq::<usize>::empty());
        let acc2 = if acc.len() < limit && !acc.contains(id) {
            acc.push(id)
        } else {
            acc
        };
        assert(dedup_take(Seq::<usize>::empty(), acc2, limit) == acc2);
        assert(dedup_take(s, acc, limit) == acc);
        assert(dedup_take(s.push(id), acc, limit) == acc2);
    } else {
        assert(s.push(id)[0] == s[0]);
        assert(s.push(id).drop_first() =~= s.drop_first().push(id));
        let acc2 = if acc.len() < limit && !acc.contains(s[0]) {
            acc.push(s[0])
        } else {
            acc
        };
        lemma_dedup_take_push(s.drop_first(), id, acc2, limit);
    }
}

/// `dedup_take` reads a concatenation left part first.
proof fn lemma_dedup_take_split(a: Seq<usize>, b: Seq<usize>, acc: Seq<usize>, limit: int)
    ensures
        dedup_take(a + b, acc, limit) == dedup_take(b, dedup_take(a, acc, limit), limit),
    decreases a.len(),
{
    if a.len() == 0 {
        assert(a + b =~= b);
    } else {
        assert((a + b)[0] == a[0]);
        assert((a + b).drop_first() =~= a.drop_first() + b);
        let acc2 = if acc.len() < limit && !acc.contains(a[0]) {
            acc.push(a[0])
        } else {
            acc
        };
        lemma_dedup_take_split(a.drop_first(), b, acc2, limit);
    }
}

/// Once the limit is reached, `dedup_take` records nothing more.
proof fn lemma_dedup_take_saturated(s: Seq<usize>, acc: Seq<usize>, limit: int)
    requires
        acc.len() >= limit,
    ensures
        dedup_take(s, acc, limit) == acc,
    decreases s.len(),
{
    if s.len() > 0 {
        lemma_dedup_take_saturated(s.drop_first(), acc, limit);
    }
}

/// Structural facts about `dedup_take`: the record only grows and keeps its
/// old prefix, stays duplicate-free and within the limit, every new element
/// comes from `s`, and while the limit is not reached every element of `s`
/// gets recorded.
proof fn lemma_dedup_take_props(s: Seq<usize>, acc: Seq<usize>, limit: int)
    requires
        acc.no_duplicates(),
        acc.len() <= limit,
    ensures
        ({
            let r = dedup_take(s, acc, limit);
            &&& r.no_duplicates()
            &&& acc.len() <= r.len() <= limit
            &&& r.take(acc.len() as int) == acc
            &&& forall|k: int| acc.len() <= k < r.len() ==> s.contains(#[trigger] r[k])
            &&& (r.len() < limit ==> forall|k: int|
                0 <= k < s.len() ==> r.contains(#[trigger] s[k]))
        }),
    decreases s.len(),
{
    let r = dedup_take(s, acc, limit);
    if s.len() == 0 {
        assert(r.take(acc.len() as int) =~= acc);
    } else {
        let acc2 = if acc.len() < limit && !acc.contains(s[0]) {
            acc.push(s[0])
        } else {
            acc
        };
        assert(acc2.no_duplicates()) by {
            if acc.len() < limit && !acc.contains(s[0]) {
                assert forall|i: int, j: int|
                    0 <= i < j < acc2.len() implies acc2[i] != acc2[j] by {
                    if j == acc2.len() - 1 {
                        if acc2[i] == s[0] {
                            assert(acc.contains(s[0]));
                        }
                    }
                }
            }
        }
        lemma_dedup_take_props(s.drop_first(), acc2, limit);
        assert(r.take(acc.len() as int) =~= acc) by {
            assert(r.take(acc2.len() as int) == acc2);
            assert(forall|x: int| 0 <= x < acc.len() ==> r[x] == acc2[x] && acc2[x] == acc[x]);
        }
        assert forall|k: int| acc.len() <= k < r.len() implies s.contains(#[trigger] r[k]) by {
            if k < acc2.len() {
                assert(r.take(acc2.len() as int) == acc2);
                assert(r[k] == acc2[k]);
                assert(acc2[k] == s[0]);
                assert(s[0] == s[0]);
            } else {
                assert(s.drop_first().contains(r[k]));
                let j = choose|j: int|
                    0 <= j < s.drop_first().len() && s.drop_first()[j] == r[k];
                assert(s[j + 1] == r[k]);
            }
        }
        if r.len() < limit {
            assert forall|k: int| 0 <= k < s.len() implies r.contains(#[trigger] s[k]) by {
                if k == 0 {
                    if acc.len() < limit && !acc.contains(s[0]) {
                        assert(acc2[acc.len() as int] == s[0]);
                        assert(r.take(acc2.len() as int) == acc2);
                        assert(r[acc.len() as int] == s[0]);
                    } else if acc.contains(s[0]) {
                        let j = choose|j: int| 0 <= j < acc.len() && acc[j] == s[0];
                        assert(r.take(acc2.len() as int) == acc2);
                        assert(r[j] == s[0]);
                    } else {
                        assert(acc.len() >= limit);
                        assert(false);
                    }
                } else {
                    assert(s.drop_first()[k - 1] == s[k]);
                }
            }
        }
    }
}

/// An immutable spatial index over features: a built KD-tree whose entry
/// identifiers point back into the feature list, plus heatmap centroids.
pub struct GeoIndex<T> {
    index: KDBush,
    data: Vec<T>,
    heatmap: Vec<GeoPoint>,
}

/// The viewport query's collector: records each identifier at most once,
/// while fewer than `limit` have been recorded.
struct DedupVisitor {
    seen: Vec<bool>,
    found: Vec<usize>,
    limit: usize,
}

impl DedupVisitor {
    pub closed spec fn seen_s(&self) -> Seq<bool> {
        self.seen@
    }

    pub closed spec fn found_s(&self) -> Seq<usize> {
        self.found@
    }

    pub closed spec fn limit_s(&self) -> int {
        self.limit as int
    }

    /// The collector's records are consistent: no duplicates, within the
    /// limit, and `seen` marks exactly the recorded identifiers.
    spec fn inv(&self) -> bool {
        &&& self.found_s().no_duplicates()
        &&& self.found_s().len() <= self.limit_s()
        &&& forall|k: int|
            0 <= k < self.found_s().len() ==> ((#[trigger] self.found_s()[k]) as int)
                < self.seen_s().len() && self.seen_s()[self.found_s()[k] as int]
        &&& forall|id: int|
            0 <= id < self.seen_s().len() && self.seen_s()[id] ==> self.found_s().contains(
                id as usize,
            )
    }
}

impl RangeVisitor for DedupVisitor {
    open spec fn more(&self) -> bool {
        self.found_s().len() < self.limit_s()
    }

    open spec fn step_rel(pre: Self, id: usize, post: Self) -> bool {
        if pre.found_s().len() < pre.limit_s() && (id as int) < pre.seen_s().len()
            && !pre.seen_s()[id as int] {
            &&& post.seen_s() == pre.seen_s().update(id as int, true)
            &&& post.found_s() == pre.found_s().push(id)
            &&& post.limit_s() == pre.limit_s()
        } else {
            post == pre
        }
    }

    proof fn step_monotone(pre: Self, id: usize, post: Self) {
    }

    fn visit(&mut self, id: usize) -> (cont: bool)
        ensures
            Self::step_rel(*old(self), id, *final(self)),
            cont == final(self).more(),
    {
        if self.found.len() < self.limit && id < self.seen.len() && !self.seen[id] {
            self.seen[id] = true;
            self.found.push(id);
        }
        self.found.len() < self.limit
    }
}

/// A collector that has reached its limit ignores every further visit.
proof fn lemma_dedup_identity_run(pre: DedupVisitor, vs: Seq<usize>, post: DedupVisitor)
    requires
        runs_to(pre, vs, post),
        pre.found_s().len() >= pre.limit_s(),
    ensures
        post == pre,
    decreases vs.len(),
{
    if vs.len() > 0 {
        assert(exists|m: DedupVisitor|
            runs_to(pre, vs.drop_last(), m) && #[trigger] DedupVisitor::step_rel(
                m,
                vs.last(),
                post,
            ));
        let mid = choose|m: DedupVisitor|
            runs_to(pre, vs.drop_last(), m) && #[trigger] DedupVisitor::step_rel(
                m,
                vs.last(),
                post,
            );
        lemma_dedup_identity_run(pre, vs.drop_last(), mid);
    }
}

/// Running the collector over in-range identifiers computes exactly
/// `dedup_take` of the visited sequence, and keeps the collector consistent.
proof fn lemma_dedup_run(pre: DedupVisitor, vs: Seq<usize>, post: DedupVisitor)
    requires
        runs_to(pre, vs, post),
        pre.inv(),
        forall|k: int| 0 <= k < vs.len() ==> ((#[trigger] vs[k]) as int) < pre.seen_s().len(),
    ensures
        post.inv(),
        post.seen_s().len() == pre.seen_s().len(),
        post.limit_s() == pre.limit_s(),
        post.found_s() == dedup_take(vs, pre.found_s(), pre.limit_s()),
    decreases vs.len(),
{
    if vs.len() == 0 {
        assert(post == pre);
    } else {
        assert(exists|m: DedupVisitor|
            runs_to(pre, vs.drop_last(), m) && #[trigger] DedupVisitor::step_rel(
                m,
                vs.last(),
                post,
            ));
        let mid = choose|m: DedupVisitor|
            runs_to(pre, vs.drop_last(), m) && #[trigger] DedupVisitor::step_rel(
                m,
                vs.last(),
                post,
            );
        let rest = vs.drop_last();
        assert(forall|k: int| 0 <= k < rest.len() ==> ((#[trigger] rest[k]) as int)
            < pre.seen_s().len()) by {
            assert(forall|k: int| 0 <= k < rest.len() ==> rest[k] == vs[k]);
        }
        lemma_dedup_run(pre, rest, mid);
        let id = vs.last();
        assert((id as int) < mid.seen_s().len());
        lemma_dedup_take_push(rest, id, pre.found_s(), pre.limit_s());
        assert(rest.push(id) =~= vs);
        // `seen` marks exactly the recorded identifiers, so the collector's
        // recording test agrees with `dedup_take`'s.
        if mid.found_s().len() < mid.limit_s() && !mid.seen_s()[id as int] {
            assert(!mid.found_s().contains(id)) by {
                if mid.found_s().contains(id) {
                    let k = choose|k: int| 0 <= k < mid.found_s().len() && mid.found_s()[k] == id;
                    assert(mid.seen_s()[mid.found_s()[k] as int]);
                }
            }
            assert(post.found_s() == mid.found_s().push(id));
            assert(post.found_s().no_duplicates()) by {
                assert forall|i: int, j: int|
                    0 <= i < j < post.found_s().len() implies post.found_s()[i]
                    != post.found_s()[j] by {
                    if j == post.found_s().len() - 1 {
                        assert(post.found_s()[j] == id);
                        assert(mid.found_s()[i] == post.found_s()[i]);
                        if post.found_s()[i] == id {
                            assert(mid.found_s().contains(id));
                        }
                    }
                }
            }
            assert forall|id2: int|
                0 <= id2 < post.seen_s().len() && post.seen_s()[id2] implies post.found_s()
                .contains(id2 as usize) by {
                if id2 == id as int {
                    assert(post.found_s()[post.found_s().len() - 1] == id);
                } else {
                    assert(mid.seen_s()[id2] == post.seen_s()[id2]);
                    let k = choose|k: int|
                        0 <= k < mid.found_s().len() && mid.found_s()[k] == id2 as usize;
                    assert(post.found_s()[k] == id2 as usize);
                }
            }
            assert(post.inv());
        } else {
            assert(post == mid);
            if mid.found_s().len() < mid.limit_s() {
                assert(mid.seen_s()[id as int]);
                assert(mid.found_s().contains(id));
            }
        }
    }
}

impl<T> GeoIndex<T> {
    /// The stored features, indexed by identifier.
    pub closed spec fn features(&self) -> Seq<T> {
        self.data@
    }

    /// The heatmap centroids, in feature-insertion order.
    pub closed spec fn heatmap_s(&self) -> Seq<GeoPoint> {
        self.heatmap@
    }

    /// The identifier/point entries of the underlying spatial index.
    pub closed spec fn index_entries(&self) -> Seq<Entry> {
        self.index.entries()
    }

    /// Well-formed: the spatial index is built and every indexed entry's
    /// identifier refers to a stored feature.
    pub closed spec fn wf(&self) -> bool {
        &&& self.index.wf()
        &&& self.index.built()
        &&& forall|i: int|
            0 <= i < self.index.entries().len() ==> ((#[trigger] self.index.entries()[i].0) as int)
                < self.data@.len()
    }

    /// The leaf-block size threshold of the underlying spatial index.
    pub closed spec fn node_size_s(&self) -> int {
        self.index.ns()
    }

    /// The multiset of identifiers whose indexed point lies in the closed
    /// viewport box.
    pub open spec fn viewport_matches(&self, ne_lat: int, ne_lng: int, sw_lat: int, sw_lng: int) -> Multiset<usize> {
        matches_ms(
            self.index_entries(),
            0,
            self.index_entries().len() - 1,
            box_pred(sw_lat, sw_lng, ne_lat, ne_lng),
        )
    }

    /// The identifiers the underlying bounding-box search reports for the
    /// viewport, in depth-first traversal order, with multiplicity.
    pub open spec fn viewport_traversal(
        &self,
        ne_lat: int,
        ne_lng: int,
        sw_lat: int,
        sw_lng: int,
    ) -> Seq<usize> {
        traversal_seq(
            self.index_entries(),
            0,
            self.index_entries().len() - 1,
            self.node_size_s(),
            box_pred(sw_lat, sw_lng, ne_lat, ne_lng),
        )
    }

    /// Returns exactly the first `limit` (clamped to the hard ceiling)
    /// distinct identifiers of the viewport's traversal, in first-encounter
    /// order: each matching feature at most once, all of them when the
    /// clamped limit is not reached, never more than the clamped limit.
    pub fn query_within_viewport(
        &self,
        ne_lat: i32,
        ne_lng: i32,
        sw_lat: i32,
        sw_lng: i32,
        limit: usize,
    ) -> (r: Vec<usize>)
        requires
            self.wf(),
        ensures
            r@ == dedup_take(
                self.viewport_traversal(ne_lat as int, ne_lng as int, sw_lat as int, sw_lng as int),
                Seq::<usize>::empty(),
                clamped_limit(limit as int),
            ),
            r@.no_duplicates(),
            forall|k: int|
                0 <= k < r@.len() ==> self.viewport_matches(
                    ne_lat as int,
                    ne_lng as int,
                    sw_lat as int,
                    sw_lng as int,
                ).count(#[trigger] r@[k]) > 0 && (r@[k] as int) < self.features().len(),
            r@.len() <= clamped_limit(limit as int),
            r@.len() < clamped_limit(limit as int) ==> forall|id: usize|
                self.viewport_matches(
                    ne_lat as int,
                    ne_lng as int,
                    sw_lat as int,
                    sw_lng as int,
                ).count(id) > 0 ==> r@.contains(id),
    {
        let eff = if limit > MAX_QUERY_LIMIT {
            MAX_QUERY_LIMIT
        } else {
            limit
        };
        let n = self.data.len();
        let mut visitor = DedupVisitor { seen: vec![false; n], found: Vec::new(), limit: eff };
        let ghost v0 = visitor;
        let ghost pred = box_pred(sw_lat as int, sw_lng as int, ne_lat as int, ne_lng as int);
        let ghost ms = self.viewport_matches(
            ne_lat as int,
            ne_lng as int,
            sw_lat as int,
            sw_lng as int,
        );
        let ghost full = self.viewport_traversal(
            ne_lat as int,
            ne_lng as int,
            sw_lat as int,
            sw_lng as int,
        );
        self.index.range_with_predicate(sw_lat, sw_lng, ne_lat, ne_lng, &mut visitor);
        proof {
            assert(visited_ok(v0, visitor, full));
            lemma_traversal_seq_ms(
                self.index_entries(),
                0,
                self.index_entries().len() - 1,
                self.node_size_s(),
                pred,
            );
            // Every reported identifier refers to a stored feature.
            assert forall|j: int| 0 <= j < full.len() implies ((#[trigger] full[j]) as int)
                < n as int by {
                assert(full.contains(full[j]));
                lemma_ids_ms_contains(full, full[j]);
                lemma_matches_ms_count(
                    self.index_entries(),
                    0,
                    self.index_entries().len() - 1,
                    pred,
                    full[j],
                );
            }
            assert(v0.inv());
            let (k, mid, w) = choose|k: int, mid: DedupVisitor, w: Seq<usize>|
                #![trigger runs_to(v0, full.take(k), mid), runs_to(mid, w, visitor)]
                {
                    &&& 0 <= k <= full.len()
                    &&& runs_to(v0, full.take(k), mid)
                    &&& runs_to(mid, w, visitor)
                    &&& subsequence_of(w, full.skip(k))
                    &&& (k < full.len() ==> !mid.more())
                    &&& (visitor.more() ==> k == full.len() && w == Seq::<usize>::empty())
                };
            assert(forall|j: int| 0 <= j < full.take(k).len() ==> ((#[trigger] full.take(
                k,
            )[j]) as int) < v0.seen_s().len());
            lemma_dedup_run(v0, full.take(k), mid);
            if k == full.len() {
                assert(full.skip(k) =~= Seq::<usize>::empty());
                assert(w =~= Seq::<usize>::empty());
                assert(visitor == mid);
                assert(full.take(k) =~= full);
            } else {
                // The collector reached its limit at `k`; later visits change
                // nothing, and `dedup_take` over the rest records nothing.
                lemma_dedup_identity_run(mid, w, visitor);
                assert(visitor == mid);
                lemma_dedup_take_split(full.take(k), full.skip(k), Seq::<usize>::empty(), eff as int);
                assert(full.take(k) + full.skip(k) =~= full);
                lemma_dedup_take_saturated(
                    full.skip(k),
                    dedup_take(full.take(k), Seq::<usize>::empty(), eff as int),
                    eff as int,
                );
            }
            assert(visitor.found_s() == dedup_take(full, Seq::<usize>::empty(), eff as int));
            // The remaining clauses follow from `dedup_take` alone.
            lemma_dedup_take_props(full, Seq::<usize>::empty(), eff as int);
            let r = dedup_take(full, Seq::<usize>::empty(), eff as int);
            assert forall|j: int| 0 <= j < r.len() implies ms.count(#[trigger] r[j]) > 0 && ((
            r[j]) as int) < self.features().len() by {
                assert(full.contains(r[j]));
                lemma_ids_ms_contains(full, r[j]);
                let x = choose|x: int| 0 <= x < full.len() && full[x] == r[j];
                assert(((full[x]) as int) < n as int);
            }
            if r.len() < eff as int {
                assert forall|id: usize| ms.count(id) > 0 implies r.contains(id) by {
                    lemma_ids_ms_contains(full, id);
                    let x = choose|x: int| 0 <= x < full.len() && full[x] == id;
                    assert(r.contains(full[x]));
                }
            }
        }
        visitor.found
    }

    /// The precomputed heatmap: centroid points in feature-insertion order.
    pub fn heatmap(&self) -> (r: &Vec<GeoPoint>)
        ensures
            r@ == self.heatmap_s(),
    {
        &self.heatmap
    }

    /// The number of stored features (not the number of indexed points).
    pub fn len(&self) -> (n: usize)
        ensures
            n == self.features().len(),
    {
        self.data.len()
    }

    /// The feature stored under `id`, if any.
    pub fn feature(&self, id: usize) -> (r: Option<&T>)
        ensures
            (id as int) < self.features().len() ==> r == Some(&self.features()[id as int]),
            (id as int) >= self.features().len() ==> r is None,
    {
        if id < self.data.len() {
            Some(&self.data[id])
        } else {
            None
        }
    }
}


/// One decoded input feature: an optional bounding box as a flat list of
/// `(longitude, latitude)` coordinate pairs, an optional single-point
/// geometry as `(longitude, latitude)`, and an opaque payload kept verbatim.
pub struct RawFeature<T> {
    pub bbox: Option<Vec<i32>>,
    pub point: Option<(i32, i32)>,
    pub payload: T,
}

/// A feature can be indexed when it carries a bounding box or a point.
pub open spec fn raw_supported<T>(f: RawFeature<T>) -> bool {
    f.bbox is Some || f.point is Some
}

/// The indexed points a bounding box contributes: one per coordinate pair,
/// latitude first.
pub open spec fn bbox_points(b: Seq<i32>) -> Seq<GeoPoint> {
    Seq::new((b.len() as int / 2) as nat, |i: int| (b[2 * i + 1], b[2 * i]))
}

/// Sum of the latitudes (odd positions) of the first `cnt` coordinate pairs.
pub open spec fn sum_lat(b: Seq<i32>, cnt: int) -> int
    decreases cnt,
{
    if cnt <= 0 {
        0
    } else {
        sum_lat(b, cnt - 1) + b[2 * (cnt - 1) + 1]
    }
}

/// Sum of the longitudes (even positions) of the first `cnt` coordinate pairs.
pub open spec fn sum_lng(b: Seq<i32>, cnt: int) -> int
    decreases cnt,
{
    if cnt <= 0 {
        0
    } else {
        sum_lng(b, cnt - 1) + b[2 * (cnt - 1)]
    }
}

/// Integer division truncated toward zero.
pub open spec fn div_trunc(a: int, b: int) -> int {
    if a >= 0 {
        a / b
    } else {
        -((-a) / b)
    }
}

/// The heatmap centroid of a bounding box with at least one coordinate pair:
/// the arithmetic mean of its corner coordinates, truncated toward zero,
/// latitude first.
pub open spec fn bbox_centroid(b: Seq<i32>) -> GeoPoint {
    let cnt = b.len() as int / 2;
    (div_trunc(sum_lat(b, cnt), cnt) as i32, div_trunc(sum_lng(b, cnt), cnt) as i32)
}

/// The indexed points a feature contributes.
pub open spec fn raw_points<T>(f: RawFeature<T>) -> Seq<GeoPoint> {
    match f.bbox {
        Option::Some(b) => bbox_points(b@),
        Option::None => match f.point {
            Option::Some(p) => seq![(p.1, p.0)],
            Option::None => Seq::empty(),
        },
    }
}

/// The heatmap centroids a feature contributes: one, except for a bounding
/// box without a complete coordinate pair, which contributes none.
pub open spec fn raw_centroids<T>(f: RawFeature<T>) -> Seq<GeoPoint> {
    match f.bbox {
        Option::Some(b) => if b@.len() >= 2 {
            seq![bbox_centroid(b@)]
        } else {
            Seq::empty()
        },
        Option::None => match f.point {
            Option::Some(p) => seq![(p.1, p.0)],
            Option::None => Seq::empty(),
        },
    }
}

/// A feature contributes exactly one heatmap centroid.
pub open spec fn has_centroid<T>(f: RawFeature<T>) -> bool {
    match f.bbox {
        Option::Some(b) => b@.len() >= 2,
        Option::None => f.point is Some,
    }
}

/// The points of `pts` paired with the identifier `id`.
pub open spec fn with_id(id: usize, pts: Seq<GeoPoint>) -> Seq<Entry> {
    pts.map_values(|p: GeoPoint| (id, p))
}

/// The payloads of a feature sequence, in order.
pub open spec fn payloads<T>(fs: Seq<RawFeature<T>>) -> Seq<T> {
    fs.map_values(|f: RawFeature<T>| f.payload)
}

/// Every feature of the sequence can be indexed.
pub open spec fn all_supported<T>(fs: Seq<RawFeature<T>>) -> bool {
    forall|k: int| 0 <= k < fs.len() ==> raw_supported(#[trigger] fs[k])
}

/// The indexed entries contributed by a feature sequence whose first feature
/// receives identifier `id0`.
pub open spec fn points_of<T>(fs: Seq<RawFeature<T>>, id0: int) -> Seq<Entry>
    decreases fs.len(),
{
    if fs.len() == 0 {
        Seq::empty()
    } else {
        points_of(fs.drop_last(), id0) + with_id(
            (id0 + fs.len() - 1) as usize,
            raw_points(fs.last()),
        )
    }
}

/// The heatmap centroids contributed by a feature sequence, in order.
pub open spec fn centroids_of<T>(fs: Seq<RawFeature<T>>) -> Seq<GeoPoint>
    decreases fs.len(),
{
    if fs.len() == 0 {
        Seq::empty()
    } else {
        centroids_of(fs.drop_last()) + raw_centroids(fs.last())
    }
}

/// Heatmap ordering: when every feature carries a point geometry or a
/// bounding box with at least one complete coordinate pair, the heatmap holds
/// exactly one centroid per feature, in insertion order: entry `k` is the
/// `k`-th feature's centroid.
pub proof fn lemma_heatmap_per_feature<T>(fs: Seq<RawFeature<T>>)
    requires
        forall|k: int| 0 <= k < fs.len() ==> has_centroid(#[trigger] fs[k]),
    ensures
        centroids_of(fs).len() == fs.len(),
        forall|k: int|
            0 <= k < fs.len() ==> centroids_of(fs)[k] == raw_centroids(#[trigger] fs[k])[0],
    decreases fs.len(),
{
    if fs.len() > 0 {
        assert forall|k: int| 0 <= k < fs.drop_last().len() implies has_centroid(
            #[trigger] fs.drop_last()[k],
        ) by {
            assert(fs.drop_last()[k] == fs[k]);
        }
        lemma_heatmap_per_feature(fs.drop_last());
        assert(raw_centroids(fs.last()).len() == 1);
        assert forall|k: int| 0 <= k < fs.len() implies centroids_of(fs)[k] == raw_centroids(
            #[trigger] fs[k],
        )[0] by {
            if k < fs.len() - 1 {
                assert(centroids_of(fs)[k] == centroids_of(fs.drop_last())[k]);
                assert(fs.drop_last()[k] == fs[k]);
            } else {
                assert(centroids_of(fs)[k] == raw_centroids(fs.last())[0]);
            }
        }
    }
}

/// A staged builder: features are added one by one or in one batch, each
/// receiving the next sequential identifier starting at 0; `build` then
/// freezes the index.
pub struct GeoIndexBuilder<T> {
    geo_index: GeoIndex<T>,
}

impl<T> GeoIndexBuilder<T> {
    /// The indexed entries added so far.
    pub closed spec fn entries(&self) -> Seq<Entry> {
        self.geo_index.index.entries()
    }

    /// The feature payloads added so far, indexed by identifier.
    pub closed spec fn features(&self) -> Seq<T> {
        self.geo_index.data@
    }

    /// The heatmap centroids added so far.
    pub closed spec fn heatmap_s(&self) -> Seq<GeoPoint> {
        self.geo_index.heatmap@
    }

    /// The leaf-block size threshold the index will be built with.
    pub closed spec fn node_size_s(&self) -> int {
        self.geo_index.index.ns()
    }

    /// Well-formed while building: the arrays are co-indexed and every added
    /// entry refers to an already-added feature.
    pub closed spec fn wfb(&self) -> bool {
        &&& self.geo_index.index.wf()
        &&& forall|i: int|
            0 <= i < self.geo_index.index.entries().len() ==> ((
            #[trigger] self.geo_index.index.entries()[i].0) as int) < self.geo_index.data@.len()
    }

    /// Creates an empty builder with the default leaf-block size.
    pub fn new() -> (r: Self)
        ensures
            r.wfb(),
            r.entries() == Seq::<Entry>::empty(),
            r.features() == Seq::<T>::empty(),
            r.heatmap_s() == Seq::<GeoPoint>::empty(),
            r.node_size_s() == DEFAULT_NODE_SIZE as int,
    {
        GeoIndexBuilder {
            geo_index: GeoIndex {
                index: KDBush::new(0, DEFAULT_NODE_SIZE),
                data: Vec::new(),
                heatmap: Vec::new(),
            },
        }
    }

    /// Truncating signed division of a bounded sum by a positive count.
    fn div_trunc_exec(a: i128, cnt: usize) -> (q: i32)
        requires
            cnt >= 1,
            -(cnt as int) * 0x8000_0000 <= a as int <= (cnt as int) * 0x7fff_ffff,
        ensures
            q as int == div_trunc(a as int, cnt as int),
    {
        if a >= 0 {
            let q = (a as u128) / (cnt as u128);
            proof {
                assert(q as int == (a as int) / (cnt as int) && q <= 0x7fff_ffff)
                    by (nonlinear_arith)
                    requires
                        q as int == (a as u128) as int / (cnt as u128) as int,
                        (a as u128) as int == a as int,
                        (cnt as u128) as int == cnt as int,
                        0 <= a as int <= (cnt as int) * 0x7fff_ffff,
                        cnt as int >= 1,
                ;
            }
            q as i32
        } else {
            let m = ((-a) as u128) / (cnt as u128);
            proof {
                assert(m as int == (-(a as int)) / (cnt as int) && m <= 0x8000_0000)
                    by (nonlinear_arith)
                    requires
                        m as int == ((-a) as u128) as int / (cnt as u128) as int,
                        ((-a) as u128) as int == -(a as int),
                        (cnt as u128) as int == cnt as int,
                        0 <= -(a as int) <= (cnt as int) * 0x8000_0000,
                        cnt as int >= 1,
                ;
            }
            (-(m as i64)) as i32
        }
    }

    /// Adds one indexed point per bounding-box coordinate pair under `id`
    /// (latitude first) and, when the box holds at least one pair, one
    /// heatmap centroid: the truncated mean of the corner coordinates.
    #[verifier::loop_isolation(false)]
    fn add_bbox_points(&mut self, id: usize, bbox: &Vec<i32>)
        requires
            old(self).wfb(),
            (id as int) < old(self).features().len(),
        ensures
            final(self).wfb(),
            final(self).node_size_s() == old(self).node_size_s(),
            final(self).features() == old(self).features(),
            final(self).entries() == old(self).entries() + with_id(id, bbox_points(bbox@)),
            final(self).heatmap_s() == old(self).heatmap_s() + (if bbox@.len() >= 2 {
                seq![bbox_centroid(bbox@)]
            } else {
                Seq::<GeoPoint>::empty()
            }),
    {
        let cnt = bbox.len() / 2;
        let ghost e0 = self.geo_index.index.entries();
        let mut i: usize = 0;
        let mut lat_sum: i128 = 0;
        let mut lng_sum: i128 = 0;
        while i < cnt
            invariant
                self.geo_index.index.wf(),
                self.geo_index.index.ns() == old(self).geo_index.index.ns(),
                self.geo_index.data@ == old(self).geo_index.data@,
                self.geo_index.heatmap@ == old(self).geo_index.heatmap@,
                i <= cnt,
                self.geo_index.index.entries() =~= e0 + with_id(
                    id,
                    bbox_points(bbox@).take(i as int),
                ),
                lat_sum as int == sum_lat(bbox@, i as int),
                lng_sum as int == sum_lng(bbox@, i as int),
                -((i as int) * 0x8000_0000) <= lat_sum as int <= (i as int) * 0x7fff_ffff,
                -((i as int) * 0x8000_0000) <= lng_sum as int <= (i as int) * 0x7fff_ffff,
            decreases cnt - i,
        {
            proof {
                assert(2 * (i as int) + 1 < bbox@.len()) by (nonlinear_arith)
                    requires
                        (i as int) < cnt as int,
                        cnt as int == bbox@.len() as int / 2,
                ;
            }
            let lat = bbox[2 * i + 1];
            let lng = bbox[2 * i];
            let ghost epre = self.geo_index.index.entries();
            self.geo_index.index.add_point(id, lat, lng);
            proof {
                assert((i as int) * 0x8000_0000 + 0x8000_0000 == ((i + 1) as int) * 0x8000_0000)
                    by (nonlinear_arith);
                assert((i as int) * 0x7fff_ffff + 0x7fff_ffff == ((i + 1) as int) * 0x7fff_ffff)
                    by (nonlinear_arith);
            }
            lat_sum = lat_sum + lat as i128;
            lng_sum = lng_sum + lng as i128;
            i = i + 1;
            proof {
                assert(bbox_points(bbox@).take(i as int)[i as int - 1] == (lat, lng));
                assert(self.geo_index.index.entries() =~= e0 + with_id(
                    id,
                    bbox_points(bbox@).take(i as int),
                ));
            }
        }
        proof {
            assert(bbox_points(bbox@).take(cnt as int) =~= bbox_points(bbox@));
        }
        if cnt > 0 {
            let lat_c = Self::div_trunc_exec(lat_sum, cnt);
            let lng_c = Self::div_trunc_exec(lng_sum, cnt);
            self.geo_index.heatmap.push((lat_c, lng_c));
            proof {
                assert(bbox@.len() >= 2);
                assert((lat_c, lng_c) == bbox_centroid(bbox@));
                assert(self.geo_index.heatmap@ =~= old(self).geo_index.heatmap@ + seq![
                    bbox_centroid(bbox@),
                ]);
            }
        } else {
            proof {
                assert(!(bbox@.len() >= 2)) by (nonlinear_arith)
                    requires
                        bbox@.len() as int / 2 == 0,
                        bbox@.len() >= 0,
                ;
                assert(self.geo_index.heatmap@ =~= old(self).geo_index.heatmap@
                    + Seq::<GeoPoint>::empty());
            }
        }
    }

    /// Adds the single indexed point of a point feature under `id` (latitude
    /// first) and that same point as its heatmap centroid.
    fn add_point_points(&mut self, id: usize, point: (i32, i32))
        requires
            old(self).wfb(),
            (id as int) < old(self).features().len(),
        ensures
            final(self).wfb(),
            final(self).node_size_s() == old(self).node_size_s(),
            final(self).features() == old(self).features(),
            final(self).entries() == old(self).entries().push((id, (point.1, point.0))),
            final(self).heatmap_s() == old(self).heatmap_s().push((point.1, point.0)),
    {
        self.geo_index.index.add_point(id, point.1, point.0);
        self.geo_index.heatmap.push((point.1, point.0));
    }

    /// Adds one feature under the next sequential identifier. A feature with
    /// a bounding box contributes one indexed point per coordinate pair and a
    /// centroid; otherwise a point feature contributes itself once; a feature
    /// with neither fails the load and consumes the builder.
    pub fn add_feature(self, feature: RawFeature<T>) -> (r: Result<Self, GeoError>)
        requires
            self.wfb(),
        ensures
            match r {
                Result::Ok(b) => raw_supported(feature) && b.wfb() && b.features()
                    == self.features().push(feature.payload) && b.entries() == self.entries()
                    + with_id(self.features().len() as usize, raw_points(feature)) && b.heatmap_s()
                    == self.heatmap_s() + raw_centroids(feature) && b.node_size_s()
                    == self.node_size_s(),
                Result::Err(e) => !raw_supported(feature) && e == GeoError::UnsupportedFeature,
            },
    {
        let mut this = self;
        let RawFeature { bbox, point, payload } = feature;
        let id = this.geo_index.data.len();
        match bbox {
            Option::Some(b) => {
                this.geo_index.data.push(payload);
                this.add_bbox_points(id, &b);
                Result::Ok(this)
            },
            Option::None => match point {
                Option::Some(p) => {
                    this.geo_index.data.push(payload);
                    this.add_point_points(id, p);
                    proof {
                        assert(with_id(id, raw_points(feature)) =~= Seq::<Entry>::empty().push(
                            (id, (p.1, p.0)),
                        ));
                    }
                    Result::Ok(this)
                },
                Option::None => Result::Err(GeoError::UnsupportedFeature),
            },
        }
    }

    /// Adds a batch of decoded features in order. The whole load fails on the
    /// first feature that cannot be indexed: no index is produced.
    #[verifier::loop_isolation(false)]
    pub fn add_features(self, features: Vec<RawFeature<T>>) -> (r: Result<Self, GeoError>)
        requires
            self.wfb(),
        ensures
            all_supported(features@) ==> match r {
                Result::Ok(b) => b.wfb() && b.features() == self.features() + payloads(features@)
                    && b.entries() == self.entries() + points_of(
                    features@,
                    self.features().len() as int,
                ) && b.heatmap_s() == self.heatmap_s() + centroids_of(features@)
                    && b.node_size_s() == self.node_size_s(),
                Result::Err(_) => false,
            },
            !all_supported(features@) ==> r == Result::<Self, GeoError>::Err(
                GeoError::UnsupportedFeature,
            ),
    {
        let ghost fs = features@;
        let ghost id0 = self.features().len() as int;
        let ghost init = self;
        let mut input = features;
        let mut rev: Vec<RawFeature<T>> = Vec::new();
        while input.len() > 0
            invariant
                input@ + rev@.reverse() =~= fs,
            decreases input.len(),
        {
            let f = input.pop().unwrap();
            rev.push(f);
            proof {
                assert(input@ + rev@.reverse() =~= fs);
            }
        }
        let mut cur = self;
        while rev.len() > 0
            invariant
                cur.wfb(),
                cur.node_size_s() == init.node_size_s(),
                rev@.len() <= fs.len(),
                forall|j: int| 0 <= j < rev@.len() ==> rev@[j] == fs[fs.len() - 1 - j],
                cur.features() =~= init.features() + payloads(
                    fs.take((fs.len() - rev@.len()) as int),
                ),
                cur.entries() =~= init.entries() + points_of(
                    fs.take((fs.len() - rev@.len()) as int),
                    id0,
                ),
                cur.heatmap_s() =~= init.heatmap_s() + centroids_of(
                    fs.take((fs.len() - rev@.len()) as int),
                ),
                forall|j: int| 0 <= j < fs.len() - rev@.len() ==> raw_supported(#[trigger] fs[j]),
            decreases rev.len(),
        {
            let ghost k = fs.len() - rev@.len();
            let f = rev.pop().unwrap();
            proof {
                assert(f == fs[k]);
            }
            let stepped = cur.add_feature(f);
            let ghost prev = cur;
            match stepped {
                Result::Ok(b) => {
                    cur = b;
                },
                Result::Err(e) => {
                    proof {
                        assert(!raw_supported(fs[k]));
                        assert(!all_supported(fs));
                    }
                    return Result::Err(e);
                },
            }
            proof {
                let taken = fs.take(k + 1);
                assert(taken.drop_last() =~= fs.take(k as int));
                assert(taken.last() == fs[k]);
                assert(payloads(taken) =~= payloads(fs.take(k as int)).push(fs[k].payload));
                assert(points_of(taken, id0) == points_of(taken.drop_last(), id0) + with_id(
                    (id0 + taken.len() - 1) as usize,
                    raw_points(taken.last()),
                ));
                assert(prev.features().len() as int == id0 + k);
                assert(cur.entries() =~= init.entries() + points_of(taken, id0));
                assert(centroids_of(taken) == centroids_of(taken.drop_last()) + raw_centroids(
                    taken.last(),
                ));
                assert(cur.heatmap_s() =~= init.heatmap_s() + centroids_of(taken));
                assert(cur.features() =~= init.features() + payloads(taken));
            }
        }
        proof {
            assert(fs.take(fs.len() as int) =~= fs);
        }
        Result::Ok(cur)
    }

    /// Freezes the builder: builds the KD-tree once and returns the immutable
    /// feature index. The identifier/point pairs are only permuted.
    pub fn build(self) -> (r: GeoIndex<T>)
        requires
            self.wfb(),
        ensures
            r.wf(),
            r.features() == self.features(),
            r.heatmap_s() == self.heatmap_s(),
            r.node_size_s() == self.node_size_s(),
            r.index_entries().len() == self.entries().len(),
            entries_ms(r.index_entries(), 0, r.index_entries().len() - 1) == entries_ms(
                self.entries(),
                0,
                self.entries().len() - 1,
            ),
    {
        let mut this = self;
        let ghost e0 = this.geo_index.index.entries();
        this.geo_index.index.build_index();
        proof {
            assert forall|i: int| 0 <= i < this.geo_index.index.entries().len() implies ((
            #[trigger] this.geo_index.index.entries()[i].0) as int)
                < this.geo_index.data@.len() by {
                lemma_perm_in_range(e0, this.geo_index.index.entries(), 0, e0.len() - 1, i);
                let y = choose|y: int|
                    0 <= y <= e0.len() - 1 && e0[y] == this.geo_index.index.entries()[i];
            }
        }
        this.geo_index
    }
}

} // verus!
