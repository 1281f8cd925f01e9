//! The space-filling-curve index: elements are ranked by a curve strategy,
//! kept sorted by that one-dimensional order, and a radius query scans the
//! contiguous order range spanned by the query circle's bounding box,
//! filtering candidates by exact distance.

use vstd::prelude::*;
use vstd::pervasive::VecAdditionalExecFns;
use vstd::seq_lib::group_to_multiset_ensures;
use crate::curves::SpaceFillingCurve;
use crate::particle::GeoQuery;
use crate::seq_facts::{
    lemma_filter_all, lemma_filter_congruent, lemma_filter_filter, lemma_filter_none,
    lemma_map_values_multiset,
};
use crate::numeric::lemma_abs_lt_of_sq;
use crate::v2::{in_range, Rect, TreeValue, V2, COORD_LIMIT};

verus! {

/// A stored element together with its precomputed curve order.
#[derive(Clone, Copy)]
pub struct OrderStore<T> {
    pub value: T,
    pub order: u64,
}

/// The curve order of an element under strategy `S`.
pub open spec fn order_of<S: SpaceFillingCurve>(t: S::T) -> u64 {
    S::order_spec(t.pos().x as int, t.pos().y as int)
}

/// The smaller of two orders.
pub open spec fn min64(a: u64, b: u64) -> u64 {
    if a < b {
        a
    } else {
        b
    }
}

/// The larger of two orders.
pub open spec fn max64(a: u64, b: u64) -> u64 {
    if a < b {
        b
    } else {
        a
    }
}

/// The smallest of a rectangle's four corner orders under `S`.
pub open spec fn rect_order_lo<S: SpaceFillingCurve>(rect: Rect) -> u64 {
    min64(
        min64(
            S::order_spec(rect.x0 as int, rect.y0 as int),
            S::order_spec(rect.x1 as int, rect.y0 as int),
        ),
        min64(
            S::order_spec(rect.x0 as int, rect.y1 as int),
            S::order_spec(rect.x1 as int, rect.y1 as int),
        ),
    )
}

/// The largest of a rectangle's four corner orders under `S`.
pub open spec fn rect_order_hi<S: SpaceFillingCurve>(rect: Rect) -> u64 {
    max64(
        max64(
            S::order_spec(rect.x0 as int, rect.y0 as int),
            S::order_spec(rect.x1 as int, rect.y0 as int),
        ),
        max64(
            S::order_spec(rect.x0 as int, rect.y1 as int),
            S::order_spec(rect.x1 as int, rect.y1 as int),
        ),
    )
}

/// The axis-aligned bounding box of a query circle.
pub open spec fn query_bbox(center: V2, radius: int) -> Rect {
    Rect {
        x0: (center.x - radius) as i64,
        y0: (center.y - radius) as i64,
        x1: (center.x + radius) as i64,
        y1: (center.y + radius) as i64,
    }
}

/// The retained elements, in curve order.
pub closed spec fn sft_contents<S: SpaceFillingCurve>(tree: &SpaceFillingTree<S>) -> Seq<S::T> {
    tree.values@.map_values(|os: OrderStore<S::T>| os.value)
}

/// Invariant: the store is sorted by order, every stored order is the curve
/// order of its element, and every position is in bounds.
pub closed spec fn sft_wf<S: SpaceFillingCurve>(tree: &SpaceFillingTree<S>) -> bool {
    &&& forall|i: int, j: int|
        0 <= i < j < tree.values@.len() ==> (#[trigger] tree.values@[i]).order <= (
        #[trigger] tree.values@[j]).order
    &&& forall|i: int|
        0 <= i < tree.values@.len() ==> (#[trigger] tree.values@[i]).order == order_of::<S>(
            tree.values@[i].value,
        )
    &&& forall|i: int|
        0 <= i < tree.values@.len() ==> (#[trigger] tree.values@[i]).value.pos().in_bounds()
}

/// An index over a point snapshot, sorted by the curve order of each point.
pub struct SpaceFillingTree<S: SpaceFillingCurve> {
    values: Vec<OrderStore<S::T>>,
}

/// Elements of a sequence of stores sorted ascending by order.
pub open spec fn sorted_orders<T>(s: Seq<OrderStore<T>>) -> bool {
    forall|i: int, j: int|
        0 <= i < j < s.len() ==> (#[trigger] s[i]).order <= (#[trigger] s[j]).order
}

impl<S: SpaceFillingCurve> SpaceFillingTree<S> {
    /// Sort the store ascending by curve order (insertion sort), preserving
    /// the multiset of entries.
    #[verifier::loop_isolation(false)]
    fn sort_by_order(v: &mut Vec<OrderStore<S::T>>)
        ensures
            final(v)@.to_multiset() == old(v)@.to_multiset(),
            sorted_orders(final(v)@),
            final(v)@.len() == old(v)@.len(),
    {
        broadcast use group_to_multiset_ensures;
        broadcast use vstd::seq_lib::to_multiset_update;
        broadcast use vstd::multiset::group_multiset_axioms;

        let ghost orig = v@;
        let n = v.len();
        if n <= 1 {
            return ;
        }
        let mut i: usize = 1;
        while i < n
            invariant
                1 <= i <= n == v@.len(),
                v@.to_multiset() == orig.to_multiset(),
                forall|p: int, q: int|
                    0 <= p < q < i ==> (#[trigger] v@[p]).order <= (#[trigger] v@[q]).order,
            decreases n - i,
        {
            let mut j: usize = i;
            while j > 0 && v[j - 1].order > v[j].order
                invariant
                    0 <= j <= i < n == v@.len(),
                    v@.to_multiset() == orig.to_multiset(),
                    forall|p: int, q: int|
                        0 <= p < q <= i && p != j && q != j ==> (#[trigger] v@[p]).order <= (
                        #[trigger] v@[q]).order,
                    forall|p: int|
                        j < p <= i ==> (#[trigger] v@[p]).order >= v@[j as int].order,
                decreases j,
            {
                let ghost before = v@;
                let a = v[j - 1];
                let b = v[j];
                v.set(j - 1, b);
                v.set(j, a);
                proof {
                    assert(v@ == before.update(j - 1, b).update(j as int, a));
                    assert(before.contains(a)) by {
                        assert(before[j - 1] == a);
                    }
                    assert(before.contains(b)) by {
                        assert(before[j as int] == b);
                    }
                    assert(before.to_multiset().count(a) > 0);
                    assert(before.to_multiset().count(b) > 0);
                    assert(before.update(j - 1, b)[j as int] == b);
                    assert(v@.to_multiset() =~= before.to_multiset());
                }
                j = j - 1;
            }
            proof {
                assert forall|p: int, q: int| 0 <= p < q <= i implies (#[trigger] v@[p]).order
                    <= (#[trigger] v@[q]).order by {
                    if q == j {
                        assert(j > 0);
                        if p < j - 1 {
                            assert(v@[p].order <= v@[j - 1].order);
                        }
                        assert(v@[j - 1].order <= v@[j as int].order);
                    }
                }
            }
            i = i + 1;
        }
    }

    /// Build the index: rank every element by the curve, then sort by rank.
    #[verifier::loop_isolation(false)]
    pub fn from_vec(vec: Vec<S::T>) -> (tree: Self)
        requires
            forall|i: int| 0 <= i < vec@.len() ==> (#[trigger] vec@[i]).pos().in_bounds(),
        ensures
            sft_wf(&tree),
            sft_contents(&tree).to_multiset() == vec@.to_multiset(),
            sft_contents(&tree).len() == vec@.len(),
    {
        broadcast use group_to_multiset_ensures;

        let mut v: Vec<OrderStore<S::T>> = Vec::new();
        let mut idx: usize = 0;
        while idx < vec.len()
            invariant
                idx <= vec@.len(),
                v@.len() == idx,
                forall|k: int|
                    0 <= k < idx ==> (#[trigger] v@[k]).value == vec@[k] && v@[k].order
                        == order_of::<S>(vec@[k]) && v@[k].value.pos().in_bounds(),
            decreases vec@.len() - idx,
        {
            let val = vec[idx];
            proof {
                assert(vec@[idx as int].pos().in_bounds());
            }
            let o = S::order_of(&val);
            v.push(OrderStore { value: val, order: o });
            idx = idx + 1;
        }
        proof {
            assert(v@.map_values(|os: OrderStore<S::T>| os.value) =~= vec@);
        }
        let ghost unsorted = v@;
        Self::sort_by_order(&mut v);
        let tree = SpaceFillingTree { values: v };
        proof {
            lemma_map_values_multiset(v@, unsorted, |os: OrderStore<S::T>| os.value);
            assert forall|i: int| 0 <= i < v@.len() implies (#[trigger] v@[i]).order
                == order_of::<S>(v@[i].value) && v@[i].value.pos().in_bounds() by {
                assert(v@.to_multiset().count(v@[i]) > 0) by {
                    assert(v@.contains(v@[i]));
                }
                assert(unsorted.to_multiset().count(v@[i]) > 0);
                assert(unsorted.contains(v@[i]));
                let k = choose|k: int| 0 <= k < unsorted.len() && unsorted[k] == v@[i];
                assert(unsorted[k].order == order_of::<S>(unsorted[k].value));
            }
        }
        tree
    }

    /// The stored elements, in curve order.
    #[verifier::loop_isolation(false)]
    pub fn values(&self) -> (res: Vec<S::T>)
        ensures
            res@ == sft_contents(self),
    {
        let mut res: Vec<S::T> = Vec::new();
        let mut i: usize = 0;
        while i < self.values.len()
            invariant
                i <= self.values@.len(),
                res@ =~= sft_contents(self).take(i as int),
            decreases self.values@.len() - i,
        {
            res.push(self.values[i].value);
            proof {
                assert(res@ =~= sft_contents(self).take(i + 1));
            }
            i = i + 1;
        }
        proof {
            assert(sft_contents(self).take(self.values@.len() as int) =~= sft_contents(self));
        }
        res
    }

    /// The forward mapping of the strategy this index was built with.
    pub fn number_of(&self, x: i64, y: i64) -> (r: u64)
        requires
            x > i64::MIN,
            y > i64::MIN,
        ensures
            r == S::order_spec(x as int, y as int),
    {
        S::number_of(x, y)
    }

    /// The inverse mapping of the strategy this index was built with.
    pub fn pair_of(&self, order: u64) -> (p: (i64, i64))
        ensures
            p == S::pair_spec(order),
    {
        S::pair_of(order)
    }

    /// The conservative one-dimensional order range spanned by a rectangle:
    /// the least and greatest of its four corner orders.
    pub fn get_rect_limits(&self, rect: &Rect) -> (r: (u64, u64))
        requires
            rect.x0 > i64::MIN,
            rect.y0 > i64::MIN,
            rect.x1 > i64::MIN,
            rect.y1 > i64::MIN,
        ensures
            r.0 == rect_order_lo::<S>(*rect),
            r.1 == rect_order_hi::<S>(*rect),
    {
        let top_left = S::number_of(rect.x0, rect.y0);
        let top_right = S::number_of(rect.x1, rect.y0);
        let bottom_left = S::number_of(rect.x0, rect.y1);
        let bottom_right = S::number_of(rect.x1, rect.y1);
        let max_value = u64_max(u64_max(top_left, top_right), u64_max(bottom_left, bottom_right));
        let min_value = u64_min(u64_min(top_left, top_right), u64_min(bottom_left, bottom_right));
        (min_value, max_value)
    }

    /// The insertion point for an order: the first index whose stored order
    /// is at least `order`.
    fn find_order_index(&self, order: u64) -> (idx: usize)
        requires
            sft_wf(self),
        ensures
            idx <= self.values@.len(),
            forall|k: int| 0 <= k < idx ==> (#[trigger] self.values@[k]).order < order,
            forall|k: int|
                idx <= k < self.values@.len() ==> (#[trigger] self.values@[k]).order >= order,
    {
        let mut lo: usize = 0;
        let mut hi: usize = self.values.len();
        while lo < hi
            invariant
                lo <= hi <= self.values@.len(),
                sft_wf(self),
                forall|k: int| 0 <= k < lo ==> (#[trigger] self.values@[k]).order < order,
                forall|k: int|
                    hi <= k < self.values@.len() ==> (#[trigger] self.values@[k]).order >= order,
            decreases hi - lo,
        {
            let mid = lo + (hi - lo) / 2;
            if self.values[mid].order < order {
                proof {
                    assert forall|k: int| 0 <= k < mid + 1 implies (
                    #[trigger] self.values@[k]).order < order by {
                        if k < mid {
                            assert(self.values@[k].order <= self.values@[mid as int].order);
                        }
                    }
                }
                lo = mid + 1;
            } else {
                proof {
                    assert forall|k: int| mid <= k < self.values@.len() implies (
                    #[trigger] self.values@[k]).order >= order by {
                        if k > mid {
                            assert(self.values@[mid as int].order <= self.values@[k].order);
                        }
                    }
                }
                hi = mid;
            }
        }
        lo
    }

    /// The first index whose stored order is strictly greater than `order`.
    fn find_order_end(&self, order: u64) -> (idx: usize)
        requires
            sft_wf(self),
        ensures
            idx <= self.values@.len(),
            forall|k: int| 0 <= k < idx ==> (#[trigger] self.values@[k]).order <= order,
            forall|k: int|
                idx <= k < self.values@.len() ==> (#[trigger] self.values@[k]).order > order,
    {
        let mut lo: usize = 0;
        let mut hi: usize = self.values.len();
        while lo < hi
            invariant
                lo <= hi <= self.values@.len(),
                sft_wf(self),
                forall|k: int| 0 <= k < lo ==> (#[trigger] self.values@[k]).order <= order,
                forall|k: int|
                    hi <= k < self.values@.len() ==> (#[trigger] self.values@[k]).order > order,
            decreases hi - lo,
        {
            let mid = lo + (hi - lo) / 2;
            if self.values[mid].order <= order {
                proof {
                    assert forall|k: int| 0 <= k < mid + 1 implies (
                    #[trigger] self.values@[k]).order <= order by {
                        if k < mid {
                            assert(self.values@[k].order <= self.values@[mid as int].order);
                        }
                    }
                }
                lo = mid + 1;
            } else {
                proof {
                    assert forall|k: int| mid <= k < self.values@.len() implies (
                    #[trigger] self.values@[k]).order > order by {
                        if k > mid {
                            assert(self.values@[mid as int].order <= self.values@[k].order);
                        }
                    }
                }
                hi = mid;
            }
        }
        lo
    }

    /// The pre-filter candidate slice for a rectangle: exactly the stored
    /// elements whose curve order lies in the rectangle's corner-order range.
    #[verifier::loop_isolation(false)]
    pub fn query_rect(&self, rect: &Rect) -> (res: Vec<S::T>)
        requires
            sft_wf(self),
            rect.x0 > i64::MIN,
            rect.y0 > i64::MIN,
            rect.x1 > i64::MIN,
            rect.y1 > i64::MIN,
        ensures
            res@ == sft_contents(self).filter(
                |t: S::T|
                    rect_order_lo::<S>(*rect) <= order_of::<S>(t) && order_of::<S>(t)
                        <= rect_order_hi::<S>(*rect),
            ),
            forall|k: int| 0 <= k < res@.len() ==> (#[trigger] res@[k]).pos().in_bounds(),
    {
        let (min_value, max_value) = self.get_rect_limits(rect);
        let start = self.find_order_index(min_value);
        let end = self.find_order_end(max_value);
        let ghost pred = |t: S::T|
            rect_order_lo::<S>(*rect) <= order_of::<S>(t) && order_of::<S>(t) <= rect_order_hi::<
                S,
            >(*rect);
        let mut res: Vec<S::T> = Vec::new();
        if start >= end {
            proof {
                lemma_filter_none(sft_contents(self), pred);
                assert forall|i: int| 0 <= i < sft_contents(self).len() implies !pred(
                    #[trigger] sft_contents(self)[i],
                ) by {
                    assert(sft_contents(self)[i] == self.values@[i].value);
                    if i < end {
                        assert(self.values@[i].order <= max_value);
                        assert(self.values@[i].order < min_value);
                    } else {
                        assert(self.values@[i].order > max_value);
                    }
                }
                lemma_filter_none(sft_contents(self), pred);
            }
            return res;
        }
        let mut i = start;
        while i < end
            invariant
                start <= i <= end <= self.values@.len(),
                sft_wf(self),
                res@ == sft_contents(self).subrange(start as int, i as int),
            decreases end - i,
        {
            res.push(self.values[i].value);
            proof {
                assert(res@ =~= sft_contents(self).subrange(start as int, i + 1));
            }
            i = i + 1;
        }
        proof {
            let c = sft_contents(self);
            let a = c.subrange(0, start as int);
            let b = c.subrange(start as int, end as int);
            let d = c.subrange(end as int, c.len() as int);
            assert(c =~= (a + b) + d);
            Seq::filter_distributes_over_add(a + b, d, pred);
            Seq::filter_distributes_over_add(a, b, pred);
            assert forall|i: int| 0 <= i < a.len() implies !pred(#[trigger] a[i]) by {
                assert(a[i] == self.values@[i].value);
                assert(self.values@[i].order < min_value);
            }
            lemma_filter_none(a, pred);
            assert forall|i: int| 0 <= i < b.len() implies pred(#[trigger] b[i]) by {
                assert(b[i] == self.values@[start + i].value);
                assert(self.values@[start + i].order >= min_value);
                assert(self.values@[start + i].order <= max_value);
            }
            lemma_filter_all(b, pred);
            assert forall|i: int| 0 <= i < d.len() implies !pred(#[trigger] d[i]) by {
                assert(d[i] == self.values@[end + i].value);
                assert(self.values@[end + i].order > max_value);
            }
            lemma_filter_none(d, pred);
            assert(c.filter(pred) == a.filter(pred) + b.filter(pred) + d.filter(pred));
            assert(c.filter(pred) =~= b);
            assert forall|k: int| 0 <= k < res@.len() implies (
            #[trigger] res@[k]).pos().in_bounds() by {
                assert(res@[k] == self.values@[start + k].value);
            }
        }
        res
    }

    /// Radius query: select the order range of the circle's bounding box,
    /// then keep candidates strictly within the radius. For a monotone
    /// strategy the result is exactly the in-radius subset of the contents.
    #[verifier::loop_isolation(false)]
    pub fn query_distance(&self, point: &V2, radius: i64) -> (res: Vec<S::T>)
        requires
            sft_wf(self),
            point.in_bounds(),
            0 <= radius <= COORD_LIMIT,
        ensures
            res@ == sft_contents(self).filter(
                |t: S::T|
                    in_range(t.pos(), *point, radius as int) && rect_order_lo::<S>(
                        query_bbox(*point, radius as int),
                    ) <= order_of::<S>(t) && order_of::<S>(t) <= rect_order_hi::<S>(
                        query_bbox(*point, radius as int),
                    ),
            ),
            S::monotone() ==> res@ == sft_contents(self).filter(
                |t: S::T| in_range(t.pos(), *point, radius as int),
            ),
    {
        let rect = Rect::new(point.x - radius, point.y - radius, point.x + radius, point.y
            + radius);
        proof {
            assert(rect == query_bbox(*point, radius as int));
        }
        let slice = self.query_rect(&rect);
        let ghost order_pred = |t: S::T|
            rect_order_lo::<S>(rect) <= order_of::<S>(t) && order_of::<S>(t) <= rect_order_hi::<
                S,
            >(rect);
        let ghost dist_pred = |t: S::T| in_range(t.pos(), *point, radius as int);
        let ghost both_pred = |t: S::T|
            in_range(t.pos(), *point, radius as int) && rect_order_lo::<S>(
                query_bbox(*point, radius as int),
            ) <= order_of::<S>(t) && order_of::<S>(t) <= rect_order_hi::<S>(
                query_bbox(*point, radius as int),
            );
        let mut res: Vec<S::T> = Vec::new();
        let mut i: usize = 0;
        proof {
            reveal(Seq::filter);
            assert(slice@.take(0).filter(dist_pred) =~= Seq::<S::T>::empty());
            assert(res@ =~= slice@.take(0).filter(dist_pred));
        }
        while i < slice.len()
            invariant
                i <= slice@.len(),
                point.in_bounds(),
                0 <= radius <= COORD_LIMIT,
                forall|k: int| 0 <= k < slice@.len() ==> (#[trigger] slice@[k]).pos().in_bounds(),
                res@ == slice@.take(i as int).filter(dist_pred),
            decreases slice@.len() - i,
        {
            let t = slice[i];
            let tp = t.position();
            let dx = tp.x - point.x;
            let dy = tp.y - point.y;
            proof {
                crate::numeric::lemma_square_bound(dx as int, 0x4000_0000);
                crate::numeric::lemma_square_bound(dy as int, 0x4000_0000);
                crate::numeric::lemma_square_bound(radius as int, 0x4000_0000);
            }
            let d2 = dx * dx + dy * dy;
            proof {
                reveal_with_fuel(Seq::filter, 2);
                let sprev = slice@.take(i as int);
                let scur = slice@.take(i + 1);
                assert(scur =~= sprev + seq![t]);
                Seq::filter_distributes_over_add(sprev, seq![t], dist_pred);
                assert(seq![t].drop_last() =~= Seq::<S::T>::empty());
                assert(seq![t].last() == t);
                assert(dist_pred(t) == in_range(t.pos(), *point, radius as int));
                assert(d2 == (t.pos().x - point.x) * (t.pos().x - point.x) + (t.pos().y
                    - point.y) * (t.pos().y - point.y));
                if in_range(t.pos(), *point, radius as int) {
                    assert(seq![t].filter(dist_pred) =~= Seq::<S::T>::empty().push(t));
                    assert(scur.filter(dist_pred) =~= sprev.filter(dist_pred).push(t));
                    assert(d2 < radius * radius);
                } else {
                    assert(seq![t].filter(dist_pred) =~= Seq::<S::T>::empty());
                    assert(scur.filter(dist_pred) =~= sprev.filter(dist_pred));
                    assert(!(d2 < radius * radius));
                }
            }
            if d2 < radius * radius {
                res.push(t);
            }
            i = i + 1;
        }
        proof {
            assert(slice@.take(slice@.len() as int) =~= slice@);
            lemma_filter_filter(sft_contents(self), order_pred, dist_pred);
            assert(res@ == sft_contents(self).filter(order_pred).filter(dist_pred));
            lemma_filter_congruent(
                sft_contents(self),
                |t: S::T| order_pred(t) && dist_pred(t),
                both_pred,
            );
            if S::monotone() {
                assert forall|k: int| 0 <= k < sft_contents(self).len() implies #[trigger] both_pred(
                    sft_contents(self)[k],
                ) == dist_pred(sft_contents(self)[k]) by {
                    let t = sft_contents(self)[k];
                    assert(t == self.values@[k].value);
                    if dist_pred(t) {
                        let tx = t.pos().x as int;
                        let ty = t.pos().y as int;
                        let cx = point.x as int;
                        let cy = point.y as int;
                        let r = radius as int;
                        assert((tx - cx) * (tx - cx) >= 0 && (ty - cy) * (ty - cy) >= 0)
                            by (nonlinear_arith);
                        lemma_abs_lt_of_sq(tx - cx, r);
                        lemma_abs_lt_of_sq(ty - cy, r);
                        S::lemma_mono(cx - r, cy - r, tx, ty);
                        S::lemma_mono(tx, ty, cx + r, cy + r);
                        assert(rect_order_lo::<S>(rect) <= S::order_spec(cx - r, cy - r));
                        assert(S::order_spec(cx + r, cy + r) <= rect_order_hi::<S>(rect));
                    }
                }
                lemma_filter_congruent(sft_contents(self), both_pred, dist_pred);
            }
        }
        res
    }
}

/// Range-query superset law: for a monotone strategy, the corner-order range
/// of a query circle's bounding box covers the curve order of every point
/// strictly inside the circle, so the selected contiguous range is a superset
/// of the exact matches.
pub proof fn lemma_range_superset<S: SpaceFillingCurve>(t: S::T, center: V2, radius: int)
    requires
        S::monotone(),
        in_range(t.pos(), center, radius),
        t.pos().in_bounds(),
        center.in_bounds(),
        0 <= radius <= COORD_LIMIT,
    ensures
        rect_order_lo::<S>(query_bbox(center, radius)) <= order_of::<S>(t),
        order_of::<S>(t) <= rect_order_hi::<S>(query_bbox(center, radius)),
{
    let tx = t.pos().x as int;
    let ty = t.pos().y as int;
    let cx = center.x as int;
    let cy = center.y as int;
    let rect = query_bbox(center, radius);
    assert(((tx - cx) * (tx - cx)) >= 0 && ((ty - cy) * (ty - cy)) >= 0) by (nonlinear_arith);
    lemma_abs_lt_of_sq(tx - cx, radius);
    lemma_abs_lt_of_sq(ty - cy, radius);
    S::lemma_mono(cx - radius, cy - radius, tx, ty);
    S::lemma_mono(tx, ty, cx + radius, cy + radius);
    assert(rect_order_lo::<S>(rect) <= S::order_spec(cx - radius, cy - radius));
    assert(S::order_spec(cx + radius, cy + radius) <= rect_order_hi::<S>(rect));
}

/// The smaller of two orders, executably.
fn u64_min(a: u64, b: u64) -> (r: u64)
    ensures
        r == min64(a, b),
{
    if a < b {
        a
    } else {
        b
    }
}

/// The larger of two orders, executably.
fn u64_max(a: u64, b: u64) -> (r: u64)
    ensures
        r == max64(a, b),
{
    if a < b {
        b
    } else {
        a
    }
}

impl<S: SpaceFillingCurve> GeoQuery<S::T> for SpaceFillingTree<S> {
    open spec fn contents(&self) -> Seq<S::T> {
        sft_contents(self)
    }

    open spec fn wf(&self) -> bool {
        sft_wf(self)
    }

    /// Range selection is exact only for strategies whose order respects the
    /// componentwise order of positions.
    open spec fn query_pre(radius: int) -> bool {
        S::monotone()
    }

    fn from_vec(vec: Vec<S::T>, max_dim: i64) -> (s: Self) {
        broadcast use group_to_multiset_ensures;

        proof {
            assert forall|i: int| 0 <= i < vec@.len() implies (
            #[trigger] vec@[i].pos()).in_bounds() by {
                assert(vec@[i].pos().abs_le(max_dim as int));
            }
        }
        let tree = SpaceFillingTree::<S>::from_vec(vec);
        proof {
            assert forall|i: int|
                0 <= i < vec@.len() && (forall|j: int|
                    0 <= j < i ==> (#[trigger] vec@[j]).pos() != vec@[i].pos()) implies sft_contents(
                &tree,
            ).contains(#[trigger] vec@[i]) by {
                assert(vec@.contains(vec@[i]));
                assert(vec@.to_multiset().count(vec@[i]) > 0);
                assert(sft_contents(&tree).to_multiset().count(vec@[i]) > 0);
            }
        }
        tree
    }

    fn query_distance(&self, point: &V2, radius: i64) -> (res: Vec<S::T>) {
        let res = self.query_distance(point, radius);
        proof {
            crate::seq_facts::lemma_filter_congruent(
                sft_contents(self),
                |t: S::T| in_range(t.pos(), *point, radius as int),
                crate::particle::range_pred(*point, radius as int),
            );
        }
        res
    }
}

} // verus!
