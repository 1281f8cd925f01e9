//! The point quadtree: recursive 4-way point-bucketing over a square region,
//! with bounding-circle pruning for radius queries. A node's bounding circle
//! (squared radius `size*size/2`) loosely encloses its square, and a query
//! descends exactly into the nodes whose circle intersects the query circle.

use vstd::prelude::*;
use vstd::multiset::Multiset;
use vstd::seq_lib::group_to_multiset_ensures;
use crate::particle::GeoQuery;
use crate::seq_facts::lemma_filter_none;
use crate::v2::{dist_sq, in_range, Circle, Rect, TreeValue, V2, COORD_LIMIT};

verus! {

/// Region corners stay within this bound, one power of two above the
/// coordinate bound, so all pruning arithmetic fits in `i64`.
pub const REGION_LIMIT: i64 = 0x2000_0000;

/// A node is empty, holds one point, or has four quadrant children in the
/// order NW, NE, SW, SE.
pub enum QuadTreeNode<T> {
    Empty,
    Leaf { value: T },
    Node(Box<QuadTree<T>>, Box<QuadTree<T>>, Box<QuadTree<T>>, Box<QuadTree<T>>),
}

/// A quadtree over the half-open square `[x0, x0 + size) x [y0, y0 + size)`,
/// with `size` a power of two.
pub struct QuadTree<T> {
    pub node: QuadTreeNode<T>,
    pub x0: i64,
    pub y0: i64,
    pub size: i64,
}

/// A positive power of two.
pub open spec fn is_pow2_int(n: int) -> bool
    decreases n,
{
    if n <= 0 {
        false
    } else if n == 1 {
        true
    } else {
        n % 2 == 0 && is_pow2_int(n / 2)
    }
}

/// Membership in the half-open square with corner `(x0, y0)` and side `s`.
pub open spec fn in_square(p: V2, x0: int, y0: int, s: int) -> bool {
    x0 <= p.x < x0 + s && y0 <= p.y < y0 + s
}

/// The quadrant picked for a point: west of the vertical midline when
/// `x < mid`, north of the horizontal midline when `y < mid`; ties go east
/// and south.
pub enum Quadrant {
    NW,
    NE,
    SW,
    SE,
}

/// The points a subtree retains, in NW, NE, SW, SE traversal order.
pub open spec fn qt_contents<T: TreeValue>(t: QuadTree<T>) -> Seq<T>
    decreases t,
{
    match t.node {
        QuadTreeNode::Empty => Seq::<T>::empty(),
        QuadTreeNode::Leaf { value } => seq![value],
        QuadTreeNode::Node(nw, ne, sw, se) => qt_contents(*nw) + qt_contents(*ne) + qt_contents(
            *sw,
        ) + qt_contents(*se),
    }
}

/// The quadtree invariant: power-of-two sizes within the region bound, leaf
/// points inside their node's square, and children tiling their parent's
/// square exactly.
pub open spec fn qt_wf<T: TreeValue>(t: QuadTree<T>) -> bool
    decreases t,
{
    &&& t.size >= 1
    &&& is_pow2_int(t.size as int)
    &&& -REGION_LIMIT <= t.x0
    &&& t.x0 + t.size <= REGION_LIMIT
    &&& -REGION_LIMIT <= t.y0
    &&& t.y0 + t.size <= REGION_LIMIT
    &&& match t.node {
        QuadTreeNode::Empty => true,
        QuadTreeNode::Leaf { value } => in_square(
            value.pos(),
            t.x0 as int,
            t.y0 as int,
            t.size as int,
        ) && value.pos().in_bounds(),
        QuadTreeNode::Node(nw, ne, sw, se) => {
            let h = t.size as int / 2;
            &&& t.size >= 2
            &&& nw.x0 == t.x0 && nw.y0 == t.y0 && nw.size == h
            &&& ne.x0 == t.x0 + h && ne.y0 == t.y0 && ne.size == h
            &&& sw.x0 == t.x0 && sw.y0 == t.y0 + h && sw.size == h
            &&& se.x0 == t.x0 + h && se.y0 == t.y0 + h && se.size == h
            &&& qt_wf(*nw)
            &&& qt_wf(*ne)
            &&& qt_wf(*sw)
            &&& qt_wf(*se)
        },
    }
}

/// Ordering rank used by the insertion termination measure: a leaf must be
/// allowed to rebuild itself as an internal node of the same size.
pub open spec fn node_rank<T>(n: QuadTreeNode<T>) -> int {
    match n {
        QuadTreeNode::Leaf { .. } => 1,
        _ => 0,
    }
}

/// Whether some retained point occupies the given position.
pub open spec fn ms_has_pos<T: TreeValue>(ms: Multiset<T>, p: V2) -> bool {
    exists|x: T| ms.count(x) > 0 && x.pos() == p
}

/// Every point a well-formed subtree retains lies inside its square.
pub proof fn lemma_contents_in_square<T: TreeValue>(t: QuadTree<T>)
    requires
        qt_wf(t),
    ensures
        forall|i: int|
            0 <= i < qt_contents(t).len() ==> in_square(
                (#[trigger] qt_contents(t)[i]).pos(),
                t.x0 as int,
                t.y0 as int,
                t.size as int,
            ) && qt_contents(t)[i].pos().in_bounds(),
    decreases t,
{
    match t.node {
        QuadTreeNode::Empty => {},
        QuadTreeNode::Leaf { value } => {},
        QuadTreeNode::Node(nw, ne, sw, se) => {
            lemma_contents_in_square(*nw);
            lemma_contents_in_square(*ne);
            lemma_contents_in_square(*sw);
            lemma_contents_in_square(*se);
            assert forall|i: int| 0 <= i < qt_contents(t).len() implies in_square(
                (#[trigger] qt_contents(t)[i]).pos(),
                t.x0 as int,
                t.y0 as int,
                t.size as int,
            ) && qt_contents(t)[i].pos().in_bounds() by {
                let a = qt_contents(*nw);
                let b = qt_contents(*ne);
                let c = qt_contents(*sw);
                let d = qt_contents(*se);
                assert(qt_contents(t) == a + b + c + d);
                if i < a.len() {
                    assert(qt_contents(t)[i] == a[i]);
                } else if i < a.len() + b.len() {
                    assert(qt_contents(t)[i] == b[i - a.len()]);
                } else if i < a.len() + b.len() + c.len() {
                    assert(qt_contents(t)[i] == c[i - a.len() - b.len()]);
                } else {
                    assert(qt_contents(t)[i] == d[i - a.len() - b.len() - c.len()]);
                }
            }
        },
    }
}

impl<T> QuadTreeNode<T> {
    /// Move the node out, leaving an empty node behind.
    fn take(&mut self) -> (r: QuadTreeNode<T>)
        ensures
            r == *old(self),
            *final(self) is Empty,
    {
        let mut tmp = QuadTreeNode::Empty;
        core::mem::swap(self, &mut tmp);
        tmp
    }
}

impl<T: TreeValue> QuadTree<T> {
    /// An empty tree over the square centered at `center` with the given
    /// half-extent, which must be a positive power of two.
    pub fn new(center: V2, half_width: i64, half_height: i64) -> (t: QuadTree<T>)
        requires
            half_width == half_height,
            1 <= half_width,
            is_pow2_int(2 * half_width),
            -REGION_LIMIT <= center.x - half_width,
            center.x + half_width <= REGION_LIMIT,
            -REGION_LIMIT <= center.y - half_height,
            center.y + half_height <= REGION_LIMIT,
        ensures
            qt_wf(t),
            qt_contents(t) == Seq::<T>::empty(),
            t.x0 == center.x - half_width,
            t.y0 == center.y - half_height,
            t.size == 2 * half_width,
            t.node is Empty,
    {
        QuadTree {
            node: QuadTreeNode::Empty,
            x0: center.x - half_width,
            y0: center.y - half_height,
            size: 2 * half_width,
        }
    }

    /// An internal node over the same square, with four empty quadrant
    /// children.
    pub fn new_node(center: V2, half_width: i64, half_height: i64) -> (t: QuadTree<T>)
        requires
            half_width == half_height,
            1 <= half_width,
            is_pow2_int(2 * half_width),
            -REGION_LIMIT <= center.x - half_width,
            center.x + half_width <= REGION_LIMIT,
            -REGION_LIMIT <= center.y - half_height,
            center.y + half_height <= REGION_LIMIT,
        ensures
            qt_wf(t),
            qt_contents(t) == Seq::<T>::empty(),
            t.x0 == center.x - half_width,
            t.y0 == center.y - half_height,
            t.size == 2 * half_width,
            t.node is Node,
    {
        let x0 = center.x - half_width;
        let y0 = center.y - half_height;
        let size = 2 * half_width;
        let h = half_width;
        let nw = QuadTree { node: QuadTreeNode::Empty, x0, y0, size: h };
        let ne = QuadTree { node: QuadTreeNode::Empty, x0: x0 + h, y0, size: h };
        let sw = QuadTree { node: QuadTreeNode::Empty, x0, y0: y0 + h, size: h };
        let se = QuadTree { node: QuadTreeNode::Empty, x0: x0 + h, y0: y0 + h, size: h };
        proof {
            assert(is_pow2_int(h as int)) by {
                assert(is_pow2_int(2 * half_width as int));
                assert((2 * half_width as int) / 2 == half_width as int);
            }
        }
        let t = QuadTree {
            node: QuadTreeNode::Node(Box::new(nw), Box::new(ne), Box::new(sw), Box::new(se)),
            x0,
            y0,
            size,
        };
        proof {
            match &t.node {
                QuadTreeNode::Node(bnw, bne, bsw, bse) => {
                    assert(qt_contents(**bnw) =~= Seq::<T>::empty());
                    assert(qt_contents(**bne) =~= Seq::<T>::empty());
                    assert(qt_contents(**bsw) =~= Seq::<T>::empty());
                    assert(qt_contents(**bse) =~= Seq::<T>::empty());
                    assert(qt_wf(**bnw) && qt_wf(**bne) && qt_wf(**bsw) && qt_wf(**bse));
                },
                _ => {
                    assert(false);
                },
            }
            assert(qt_contents(t) =~= Seq::<T>::empty());
        }
        t
    }

    /// The quadrant of a point relative to the node's midlines.
    pub fn quadrant(&self, point: &V2) -> (q: Quadrant)
        requires
            self.size >= 2,
            -REGION_LIMIT <= self.x0,
            self.x0 + self.size <= REGION_LIMIT,
            -REGION_LIMIT <= self.y0,
            self.y0 + self.size <= REGION_LIMIT,
        ensures
            q == spec_quadrant(
                *point,
                self.x0 as int + self.size as int / 2,
                self.y0 as int + self.size as int / 2,
            ),
    {
        let cx = self.x0 + self.size / 2;
        let cy = self.y0 + self.size / 2;
        if point.x < cx {
            if point.y < cy {
                Quadrant::NW
            } else {
                Quadrant::SW
            }
        } else {
            if point.y < cy {
                Quadrant::NE
            } else {
                Quadrant::SE
            }
        }
    }

    /// Insert one point. A point at an already-occupied position is nudged
    /// and dropped rather than stored twice; any other point joins the
    /// retained multiset.
    #[verifier::loop_isolation(false)]
    pub fn insert(&mut self, value: T)
        requires
            qt_wf(*old(self)),
            in_square(
                value.pos(),
                old(self).x0 as int,
                old(self).y0 as int,
                old(self).size as int,
            ),
            value.pos().in_bounds(),
        ensures
            qt_wf(*final(self)),
            final(self).x0 == old(self).x0,
            final(self).y0 == old(self).y0,
            final(self).size == old(self).size,
            old(self).node is Node ==> final(self).node is Node,
            ms_has_pos(qt_contents(*old(self)).to_multiset(), value.pos()) ==> qt_contents(
                *final(self),
            ).to_multiset() == qt_contents(*old(self)).to_multiset(),
            !ms_has_pos(qt_contents(*old(self)).to_multiset(), value.pos()) ==> qt_contents(
                *final(self),
            ).to_multiset() == qt_contents(*old(self)).to_multiset().insert(value),
        decreases old(self).size, node_rank(old(self).node),
    {
        broadcast use group_to_multiset_ensures;
        broadcast use vstd::multiset::group_multiset_axioms;

        let mut value = value;
        let node = self.node.take();
        match node {
            QuadTreeNode::Empty => {
                proof {
                    assert(qt_contents(*old(self)) =~= Seq::<T>::empty());
                    assert(!ms_has_pos(qt_contents(*old(self)).to_multiset(), value.pos()));
                }
                self.node = QuadTreeNode::Leaf { value };
                proof {
                    assert(qt_contents(*self) =~= Seq::<T>::empty().push(value));
                    assert(qt_contents(*self).to_multiset() =~= qt_contents(
                        *old(self),
                    ).to_multiset().insert(value));
                }
            },
            QuadTreeNode::Leaf { value: this_value } => {
                proof {
                    assert(qt_contents(*old(self)) =~= Seq::<T>::empty().push(this_value));
                    assert(qt_contents(*old(self)).to_multiset() =~= Multiset::<
                        T,
                    >::empty().insert(this_value));
                }
                let d = value.position().sub(&this_value.position()).len();
                if d < 1 {
                    proof {
                        let dsq = dist_sq(value.pos(), this_value.pos());
                        crate::v2::lemma_dist_sq_nonneg(value.pos(), this_value.pos());
                        crate::numeric::lemma_sqrt_floor_bounds(dsq);
                        assert(dsq <= 0);
                        let ax = value.pos().x - this_value.pos().x;
                        let ay = value.pos().y - this_value.pos().y;
                        assert(ax == 0 && ay == 0) by (nonlinear_arith)
                            requires
                                ax * ax + ay * ay <= 0,
                        ;
                        assert(value.pos() == this_value.pos());
                        assert(ms_has_pos(
                            qt_contents(*old(self)).to_multiset(),
                            value.pos(),
                        )) by {
                            assert(qt_contents(*old(self)).to_multiset().count(this_value) > 0);
                        }
                    }
                    value.offset_pos();
                    self.node = QuadTreeNode::Leaf { value: this_value };
                    proof {
                        assert(qt_contents(*self) =~= qt_contents(*old(self)));
                    }
                    return ;
                }
                proof {
                    let dsq = dist_sq(value.pos(), this_value.pos());
                    crate::v2::lemma_dist_sq_nonneg(value.pos(), this_value.pos());
                    crate::numeric::lemma_sqrt_floor_bounds(dsq);
                    assert(dsq >= 1);
                    assert(value.pos() != this_value.pos()) by {
                        if value.pos() == this_value.pos() {
                            assert(dist_sq(value.pos(), this_value.pos()) == 0)
                                by (nonlinear_arith)
                                requires
                                    value.pos() == this_value.pos(),
                            ;
                        }
                    }
                    assert(!ms_has_pos(qt_contents(*old(self)).to_multiset(), value.pos())) by {
                        if ms_has_pos(qt_contents(*old(self)).to_multiset(), value.pos()) {
                            let x = choose|x: T|
                                qt_contents(*old(self)).to_multiset().count(x) > 0 && x.pos()
                                    == value.pos();
                            assert(x == this_value);
                        }
                    }
                    assert(self.size >= 2) by {
                        if self.size == 1 {
                            assert(value.pos().x == self.x0 && this_value.pos().x == self.x0);
                            assert(value.pos().y == self.y0 && this_value.pos().y == self.y0);
                        }
                    }
                }
                let half = self.size / 2;
                let center = V2 { x: self.x0 + half, y: self.y0 + half };
                let mut other = QuadTree::new_node(center, half, half);
                other.insert(this_value);
                proof {
                    assert(!ms_has_pos(Seq::<T>::empty().to_multiset(), this_value.pos())) by {
                        assert(Seq::<T>::empty().to_multiset().len() == 0);
                    }
                    assert(qt_contents(other).to_multiset() =~= Multiset::<T>::empty().insert(
                        this_value,
                    ));
                    assert(!ms_has_pos(qt_contents(other).to_multiset(), value.pos())) by {
                        if ms_has_pos(qt_contents(other).to_multiset(), value.pos()) {
                            let x = choose|x: T|
                                qt_contents(other).to_multiset().count(x) > 0 && x.pos()
                                    == value.pos();
                            assert(x == this_value);
                        }
                    }
                }
                other.insert(value);
                proof {
                    assert(qt_contents(other).to_multiset() =~= qt_contents(
                        *old(self),
                    ).to_multiset().insert(value));
                }
                *self = other;
            },
            QuadTreeNode::Node(mut nw, mut ne, mut sw, mut se) => {
                proof {
                    lemma_contents_in_square(*nw);
                    lemma_contents_in_square(*ne);
                    lemma_contents_in_square(*sw);
                    lemma_contents_in_square(*se);
                }
                let ghost old_t = *old(self);
                let ghost a = qt_contents(*nw);
                let ghost b = qt_contents(*ne);
                let ghost c = qt_contents(*sw);
                let ghost d = qt_contents(*se);
                proof {
                    assert(qt_contents(old_t) == a + b + c + d);
                    vstd::seq_lib::lemma_multiset_commutative(a + b + c, d);
                    vstd::seq_lib::lemma_multiset_commutative(a + b, c);
                    vstd::seq_lib::lemma_multiset_commutative(a, b);
                    assert((a + b + c + d) =~= (a + b + c) + d);
                    assert((a + b + c) =~= (a + b) + c);
                }
                let q = self.quadrant(&value.position());
                match q {
                    Quadrant::NW => nw.insert(value),
                    Quadrant::NE => ne.insert(value),
                    Quadrant::SW => sw.insert(value),
                    Quadrant::SE => se.insert(value),
                }
                proof {
                    lemma_insert_node_case(
                        old_t,
                        a,
                        b,
                        c,
                        d,
                        qt_contents(*nw),
                        qt_contents(*ne),
                        qt_contents(*sw),
                        qt_contents(*se),
                        value,
                        q,
                    );
                }
                self.node = QuadTreeNode::Node(nw, ne, sw, se);
                proof {
                    let a2 = qt_contents(*self).subrange(0, 0);
                    assert(qt_contents(*self) == qt_contents(*nw) + qt_contents(*ne)
                        + qt_contents(*sw) + qt_contents(*se));
                }
            },
        }
    }
}

/// The circle-intersection pruning test, exactly as the sum of radii against
/// the center distance: a node's bounding circle of radius `h * sqrt(2)`
/// intersects the query circle of radius `r` iff `d < r + h * sqrt(2)`, i.e.
/// `d*d < r*r + 2*h*h + 2*sqrt(2)*r*h`. Squaring the irrational part away
/// keeps the test in integers: either `d*d` is already below `r*r + 2*h*h`,
/// or the excess squared is below `8*r*r*h*h`. (The two sides of the second
/// comparison can never be equal: `sqrt(2)` is irrational.)
pub open spec fn prune_keep(cx: int, cy: int, h: int, qx: int, qy: int, r: int) -> bool {
    let d2 = (cx - qx) * (cx - qx) + (cy - qy) * (cy - qy);
    let a = r * r + 2 * (h * h);
    d2 < a || (d2 - a) * (d2 - a) < 8 * ((r * h) * (r * h))
}

/// The pruning test applied to a node: its center, its half-extent, the
/// query circle.
pub open spec fn qt_keep<T: TreeValue>(t: QuadTree<T>, q: V2, r: int) -> bool {
    let h = t.size as int / 2;
    prune_keep(t.x0 as int + h, t.y0 as int + h, h, q.x as int, q.y as int, r)
}

/// The rectangle a node covers.
pub open spec fn qt_rect_spec<T: TreeValue>(t: QuadTree<T>) -> Rect {
    Rect {
        x0: t.x0,
        y0: t.y0,
        x1: (t.x0 + t.size) as i64,
        y1: (t.y0 + t.size) as i64,
    }
}

/// The nodes a query visits, in pre-order, as their rectangles.
pub open spec fn qt_path_spec<T: TreeValue>(t: QuadTree<T>, q: V2, r: int) -> Seq<Rect>
    decreases t,
{
    if !qt_keep(t, q, r) {
        Seq::<Rect>::empty()
    } else {
        seq![qt_rect_spec(t)] + (match t.node {
            QuadTreeNode::Node(nw, ne, sw, se) => qt_path_spec(*nw, q, r) + qt_path_spec(
                *ne,
                q,
                r,
            ) + qt_path_spec(*sw, q, r) + qt_path_spec(*se, q, r),
            _ => Seq::<Rect>::empty(),
        })
    }
}

/// Completeness of the pruning test: a point of the node's square that lies
/// strictly inside the query circle forces the bounding circle to intersect
/// the query circle. The squared form follows from the Lagrange identity
/// (Cauchy-Schwarz over the two axis gaps).
proof fn lemma_prune_complete(px: int, py: int, qx: int, qy: int, cx: int, cy: int, h: int, r: int)
    requires
        cx - h <= px <= cx + h,
        cy - h <= py <= cy + h,
        (px - qx) * (px - qx) + (py - qy) * (py - qy) < r * r,
        r >= 0,
        h >= 0,
    ensures
        prune_keep(cx, cy, h, qx, qy, r),
{
    let u = px - qx;
    let v = py - qy;
    let e = cx - px;
    let f = cy - py;
    let d2 = (cx - qx) * (cx - qx) + (cy - qy) * (cy - qy);
    let aa = r * r + 2 * (h * h);
    assert(e * e <= h * h) by (nonlinear_arith)
        requires
            -h <= e <= h,
    ;
    assert(f * f <= h * h) by (nonlinear_arith)
        requires
            -h <= f <= h,
    ;
    let s = u * e + v * f;
    assert(d2 == u * u + v * v + 2 * s + (e * e + f * f)) by (nonlinear_arith)
        requires
            cx - qx == u + e,
            cy - qy == v + f,
            d2 == (cx - qx) * (cx - qx) + (cy - qy) * (cy - qy),
            s == u * e + v * f,
    ;
    if d2 >= aa {
        // The excess over `r*r + 2*h*h` is strictly below `2*s`, since the
        // point is strictly in range and the square bounds the axis gaps.
        assert(d2 - aa < 2 * s);
        assert(s > 0);
        // Lagrange identity: s*s <= (u*u + v*v) * (e*e + f*f).
        assert(u * u >= 0 && v * v >= 0 && e * e >= 0 && f * f >= 0) by (nonlinear_arith);
        assert(s * s <= (u * u + v * v) * (e * e + f * f)) by (nonlinear_arith)
            requires
                s == u * e + v * f,
        ;
        assert((u * u + v * v) * (e * e + f * f) <= (r * r) * (2 * (h * h))) by (nonlinear_arith)
            requires
                0 <= u * u + v * v,
                u * u + v * v < r * r,
                0 <= e * e + f * f,
                e * e + f * f <= 2 * (h * h),
        ;
        assert((d2 - aa) * (d2 - aa) < 4 * (s * s)) by (nonlinear_arith)
            requires
                0 <= d2 - aa,
                d2 - aa < 2 * s,
        ;
        assert(4 * ((r * r) * (2 * (h * h))) == 8 * ((r * h) * (r * h))) by (nonlinear_arith);
    }
}


/// The executable circle-intersection test between a node's bounding circle
/// (center `(cx, cy)`, squared radius `2*h*h`) and the query circle, shared
/// by `query_distance` and `query_distance_path`; 128-bit intermediates
/// carry the squared comparison.
fn circles_intersect(cx: i64, cy: i64, h: i64, point: &V2, radius: i64) -> (b: bool)
    requires
        -REGION_LIMIT <= cx <= REGION_LIMIT,
        -REGION_LIMIT <= cy <= REGION_LIMIT,
        0 <= h <= REGION_LIMIT,
        point.in_bounds(),
        0 <= radius <= COORD_LIMIT,
    ensures
        b == prune_keep(
            cx as int,
            cy as int,
            h as int,
            point.x as int,
            point.y as int,
            radius as int,
        ),
{
    let dx = cx - point.x;
    let dy = cy - point.y;
    proof {
        crate::numeric::lemma_square_bound(dx as int, 0x4000_0000);
        crate::numeric::lemma_square_bound(dy as int, 0x4000_0000);
        crate::numeric::lemma_square_bound(radius as int, 0x4000_0000);
        crate::numeric::lemma_square_bound(h as int, 0x4000_0000);
    }
    let d2 = dx * dx + dy * dy;
    let a = radius * radius + 2 * (h * h);
    if d2 < a {
        true
    } else {
        let t = (d2 - a) as i128;
        proof {
            assert(0 <= (radius as int) * (h as int) <= 0x200_0000_0000_0000) by (nonlinear_arith)
                requires
                    0 <= radius <= 0x1000_0000,
                    0 <= h <= 0x2000_0000,
            ;
        }
        let rh = (radius as i128) * (h as i128);
        proof {
            crate::numeric::lemma_square_bound(t as int, 0x4000_0000_0000_0000);
            crate::numeric::lemma_square_bound(rh as int, 0x200_0000_0000_0000);
        }
        t * t < 8 * (rh * rh)
    }
}

impl<T: TreeValue> QuadTree<T> {
    /// The node's bounding rectangle.
    pub fn get_rect(&self) -> (r: Rect)
        requires
            qt_wf(*self),
        ensures
            r == qt_rect_spec(*self),
    {
        Rect::new(self.x0, self.y0, self.x0 + self.size, self.y0 + self.size)
    }

    /// The node's bounding circle: its center and the squared radius
    /// `size * size / 2`, which encloses the whole square.
    pub fn get_circ(&self) -> (c: Circle)
        requires
            qt_wf(*self),
        ensures
            c.center.x == self.x0 as int + self.size as int / 2,
            c.center.y == self.y0 as int + self.size as int / 2,
            c.radius_sq == (self.size as int * self.size as int) / 2,
    {
        proof {
            crate::numeric::lemma_square_bound(self.size as int, 0x4000_0000);
        }
        Circle {
            center: V2 { x: self.x0 + self.size / 2, y: self.y0 + self.size / 2 },
            radius_sq: (self.size * self.size) / 2,
        }
    }

    /// All node rectangles of the tree, in pre-order.
    pub fn get_rects(&self) -> (res: Vec<Rect>)
        requires
            qt_wf(*self),
        ensures
            res@ == qt_rects_spec(*self),
        decreases self.size, node_rank(self.node),
    {
        let mut res: Vec<Rect> = Vec::new();
        res.push(self.get_rect());
        match &self.node {
            QuadTreeNode::Empty => {},
            QuadTreeNode::Leaf { .. } => {},
            QuadTreeNode::Node(nw, ne, sw, se) => {
                let mut v1 = nw.get_rects();
                let mut v2 = ne.get_rects();
                let mut v3 = sw.get_rects();
                let mut v4 = se.get_rects();
                res.append(&mut v1);
                res.append(&mut v2);
                res.append(&mut v3);
                res.append(&mut v4);
            },
        }
        proof {
            assert(res@ =~= qt_rects_spec(*self));
        }
        res
    }

    /// Radius query: descend into nodes surviving the bounding-circle prune
    /// and test surviving leaves by exact distance.
    pub fn query_distance(&self, point: &V2, radius: i64) -> (res: Vec<T>)
        requires
            qt_wf(*self),
            point.in_bounds(),
            0 <= radius <= COORD_LIMIT,
        ensures
            res@ == qt_contents(*self).filter(|t: T| in_range(t.pos(), *point, radius as int)),
        decreases self.size, node_rank(self.node),
    {
        let ghost pred = |t: T| in_range(t.pos(), *point, radius as int);
        let h = self.size / 2;
        let cx = self.x0 + h;
        let cy = self.y0 + h;
        let keep = circles_intersect(cx, cy, h, point, radius);
        if !keep {
            proof {
                lemma_contents_in_square(*self);
                assert forall|i: int| 0 <= i < qt_contents(*self).len() implies !pred(
                    #[trigger] qt_contents(*self)[i],
                ) by {
                    let t = qt_contents(*self)[i];
                    if in_range(t.pos(), *point, radius as int) {
                        assert(self.size as int == 1 || self.size as int % 2 == 0) by {
                            assert(is_pow2_int(self.size as int));
                        }
                        assert(cx as int - h as int <= t.pos().x <= cx as int + h as int);
                        assert(cy as int - h as int <= t.pos().y <= cy as int + h as int);
                        lemma_prune_complete(
                            t.pos().x as int,
                            t.pos().y as int,
                            point.x as int,
                            point.y as int,
                            cx as int,
                            cy as int,
                            h as int,
                            radius as int,
                        );
                    }
                }
                lemma_filter_none(qt_contents(*self), pred);
            }
            return Vec::new();
        }
        match &self.node {
            QuadTreeNode::Empty => {
                proof {
                    assert(qt_contents(*self) =~= Seq::<T>::empty());
                    lemma_filter_none(qt_contents(*self), pred);
                }
                Vec::new()
            },
            QuadTreeNode::Leaf { value } => {
                let vp = value.position();
                let ddx = vp.x - point.x;
                let ddy = vp.y - point.y;
                proof {
                    crate::numeric::lemma_square_bound(ddx as int, 0x4000_0000);
                    crate::numeric::lemma_square_bound(ddy as int, 0x4000_0000);
                    crate::numeric::lemma_square_bound(radius as int, 0x4000_0000);
                }
                let vd2 = ddx * ddx + ddy * ddy;
                let mut res: Vec<T> = Vec::new();
                proof {
                    reveal_with_fuel(Seq::filter, 2);
                    assert(qt_contents(*self) =~= Seq::<T>::empty().push(*value));
                }
                if vd2 < radius * radius {
                    res.push(*value);
                    proof {
                        assert(res@ =~= qt_contents(*self).filter(pred));
                    }
                } else {
                    proof {
                        assert(res@ =~= qt_contents(*self).filter(pred));
                    }
                }
                res
            },
            QuadTreeNode::Node(nw, ne, sw, se) => {
                let mut res = nw.query_distance(point, radius);
                let mut v2 = ne.query_distance(point, radius);
                let mut v3 = sw.query_distance(point, radius);
                let mut v4 = se.query_distance(point, radius);
                res.append(&mut v2);
                res.append(&mut v3);
                res.append(&mut v4);
                proof {
                    let a = qt_contents(**nw);
                    let b = qt_contents(**ne);
                    let c = qt_contents(**sw);
                    let d = qt_contents(**se);
                    assert(qt_contents(*self) == a + b + c + d);
                    Seq::filter_distributes_over_add(a + b + c, d, pred);
                    Seq::filter_distributes_over_add(a + b, c, pred);
                    Seq::filter_distributes_over_add(a, b, pred);
                    assert((a + b + c + d) =~= ((a + b) + c) + d);
                    assert((a + b + c) =~= (a + b) + c);
                }
                res
            },
        }
    }

    /// The rectangles of the nodes a query visits, in pre-order: exactly the
    /// nodes `query_distance` descends into, by the same pruning test.
    pub fn query_distance_path(&self, point: &V2, r: i64) -> (res: Vec<Rect>)
        requires
            qt_wf(*self),
            point.in_bounds(),
            0 <= r <= COORD_LIMIT,
        ensures
            res@ == qt_path_spec(*self, *point, r as int),
        decreases self.size, node_rank(self.node),
    {
        let h = self.size / 2;
        let cx = self.x0 + h;
        let cy = self.y0 + h;
        let keep = circles_intersect(cx, cy, h, point, r);
        let mut res: Vec<Rect> = Vec::new();
        if !keep {
            return res;
        }
        res.push(self.get_rect());
        match &self.node {
            QuadTreeNode::Empty => {},
            QuadTreeNode::Leaf { .. } => {},
            QuadTreeNode::Node(nw, ne, sw, se) => {
                let mut v1 = nw.query_distance_path(point, r);
                let mut v2 = ne.query_distance_path(point, r);
                let mut v3 = sw.query_distance_path(point, r);
                let mut v4 = se.query_distance_path(point, r);
                res.append(&mut v1);
                res.append(&mut v2);
                res.append(&mut v3);
                res.append(&mut v4);
            },
        }
        proof {
            assert(res@ =~= qt_path_spec(*self, *point, r as int));
        }
        res
    }

    /// Insert every point of a snapshot.
    #[verifier::loop_isolation(false)]
    #[verifier::rlimit(100)]
    #[verifier::spinoff_prover]
    fn add_vec(&mut self, vec: Vec<T>)
        requires
            qt_wf(*old(self)),
            forall|i: int|
                0 <= i < vec@.len() ==> in_square(
                    (#[trigger] vec@[i]).pos(),
                    old(self).x0 as int,
                    old(self).y0 as int,
                    old(self).size as int,
                ) && vec@[i].pos().in_bounds(),
        ensures
            qt_wf(*final(self)),
            final(self).x0 == old(self).x0,
            final(self).y0 == old(self).y0,
            final(self).size == old(self).size,
            forall|x: T|
                #[trigger] qt_contents(*final(self)).to_multiset().count(x) <= qt_contents(
                    *old(self),
                ).to_multiset().count(x) + vec@.to_multiset().count(x),
            forall|i: int|
                0 <= i < vec@.len() && (forall|j: int|
                    0 <= j < i ==> (#[trigger] vec@[j]).pos() != vec@[i].pos()) && !ms_has_pos(
                    qt_contents(*old(self)).to_multiset(),
                    vec@[i].pos(),
                ) ==> qt_contents(*final(self)).contains(#[trigger] vec@[i]),
    {
        broadcast use group_to_multiset_ensures;
        broadcast use vstd::multiset::group_multiset_axioms;

        let ghost ms0 = qt_contents(*old(self)).to_multiset();
        let mut i: usize = 0;
        while i < vec.len()
            invariant
                i <= vec@.len(),
                qt_wf(*self),
                self.x0 == old(self).x0,
                self.y0 == old(self).y0,
                self.size == old(self).size,
                forall|x: T|
                    #[trigger] qt_contents(*self).to_multiset().count(x) <= ms0.count(x)
                        + vec@.take(i as int).to_multiset().count(x),
                forall|j: int|
                    0 <= j < i && (forall|j2: int|
                        0 <= j2 < j ==> (#[trigger] vec@[j2]).pos() != vec@[j].pos())
                        && !ms_has_pos(ms0, vec@[j].pos()) ==> qt_contents(*self).contains(
                        #[trigger] vec@[j],
                    ),
                forall|p: V2|
                    #[trigger] ms_has_pos(qt_contents(*self).to_multiset(), p) <==> (ms_has_pos(
                        ms0,
                        p,
                    ) || exists|j: int| 0 <= j < i && (#[trigger] vec@[j]).pos() == p),
            decreases vec@.len() - i,
        {
            let v = vec[i];
            let ghost ms_before = qt_contents(*self).to_multiset();
            self.insert(v);
            proof {
                assert(vec@.take(i + 1).to_multiset() =~= vec@.take(
                    i as int,
                ).to_multiset().insert(v)) by {
                    assert(vec@.take(i + 1) =~= vec@.take(i as int).push(v));
                }
                let ms_after = qt_contents(*self).to_multiset();
                if ms_has_pos(ms_before, v.pos()) {
                    assert(ms_after == ms_before);
                    assert forall|p: V2|
                        #[trigger] ms_has_pos(ms_after, p) <==> (ms_has_pos(ms0, p) || exists|
                        j: int,
                    |
                        0 <= j < i + 1 && (#[trigger] vec@[j]).pos() == p) by {
                        if p == v.pos() {
                            assert(vec@[i as int].pos() == p);
                        } else {
                            if exists|j: int| 0 <= j < i + 1 && (#[trigger] vec@[j]).pos() == p {
                                let j = choose|j: int|
                                    0 <= j < i + 1 && (#[trigger] vec@[j]).pos() == p;
                                assert(j < i);
                            }
                        }
                    }
                } else {
                    assert(ms_after == ms_before.insert(v));
                    assert forall|p: V2|
                        #[trigger] ms_has_pos(ms_after, p) <==> (ms_has_pos(ms0, p) || exists|
                        j: int,
                    |
                        0 <= j < i + 1 && (#[trigger] vec@[j]).pos() == p) by {
                        if ms_has_pos(ms_after, p) {
                            let x = choose|x: T| ms_after.count(x) > 0 && x.pos() == p;
                            if x == v {
                                assert(vec@[i as int].pos() == p);
                            } else {
                                assert(ms_before.count(x) > 0);
                            }
                        }
                        if p == v.pos() {
                            assert(ms_after.count(v) > 0);
                        }
                        if exists|j: int| 0 <= j < i + 1 && (#[trigger] vec@[j]).pos() == p {
                            let j = choose|j: int|
                                0 <= j < i + 1 && (#[trigger] vec@[j]).pos() == p;
                            if j < i {
                                assert(ms_has_pos(ms_before, p));
                                let x = choose|x: T| ms_before.count(x) > 0 && x.pos() == p;
                                assert(ms_after.count(x) > 0);
                            }
                        }
                        if ms_has_pos(ms0, p) {
                            assert(ms_has_pos(ms_before, p));
                            let x = choose|x: T| ms_before.count(x) > 0 && x.pos() == p;
                            assert(ms_after.count(x) > 0);
                        }
                    }
                    assert forall|j: int|
                        0 <= j < i + 1 && (forall|j2: int|
                            0 <= j2 < j ==> (#[trigger] vec@[j2]).pos() != vec@[j].pos())
                            && !ms_has_pos(ms0, vec@[j].pos()) implies qt_contents(
                        *self,
                    ).contains(#[trigger] vec@[j]) by {
                        if j == i {
                            assert(ms_after.count(v) > 0);
                            assert(qt_contents(*self).contains(v));
                        } else {
                            assert(ms_before.count(vec@[j]) > 0 || qt_contents(*self).contains(
                                vec@[j],
                            )) by {
                                assert(qt_contents(*self).to_multiset().count(vec@[j]) >= 0);
                            }
                            assert(ms_after.count(vec@[j]) > 0);
                            assert(qt_contents(*self).contains(vec@[j]));
                        }
                    }
                }
            }
            i = i + 1;
        }
        proof {
            assert(vec@.take(vec@.len() as int) =~= vec@);
        }
    }

    /// Build a tree over a square region centered at the origin that covers
    /// `[-max_dim, max_dim]` on both axes, then insert every point. The
    /// half-extent is `max_dim` rounded up to the next power of two so that
    /// quadrant subdivision halves exactly in integers; the rounding at most
    /// doubles the extent.
    #[verifier::loop_isolation(false)]
    pub fn from_vec(vec: Vec<T>, max_dim: i64) -> (tree: Self)
        requires
            0 <= max_dim <= COORD_LIMIT,
            forall|i: int|
                0 <= i < vec@.len() ==> (#[trigger] vec@[i]).pos().abs_le(max_dim as int),
        ensures
            qt_wf(tree),
            tree.x0 == -(tree.size / 2),
            tree.y0 == -(tree.size / 2),
            is_pow2_int(tree.size as int / 2),
            tree.size > 2 * max_dim,
            max_dim >= 1 ==> tree.size <= 4 * max_dim,
            max_dim == 0 ==> tree.size == 2,
            forall|x: T|
                #[trigger] qt_contents(tree).to_multiset().count(x) <= vec@.to_multiset().count(
                    x,
                ),
            forall|i: int|
                0 <= i < vec@.len() && (forall|j: int|
                    0 <= j < i ==> (#[trigger] vec@[j]).pos() != vec@[i].pos()) ==> qt_contents(
                    tree,
                ).contains(#[trigger] vec@[i]),
    {
        broadcast use group_to_multiset_ensures;
        broadcast use vstd::multiset::group_multiset_axioms;

        let mut hw: i64 = 1;
        while hw <= max_dim
            invariant
                1 <= hw <= 0x2000_0000,
                is_pow2_int(hw as int),
                hw == 1 || hw <= 2 * max_dim,
            decreases 2 * max_dim - hw,
        {
            hw = hw * 2;
            proof {
                assert(is_pow2_int(hw as int)) by {
                    assert(hw as int / 2 == (hw / 2) as int);
                }
            }
        }
        proof {
            assert(is_pow2_int(2 * hw as int)) by {
                assert((2 * hw as int) / 2 == hw as int);
            }
        }
        let mut tree = QuadTree::<T>::new(V2 { x: 0, y: 0 }, hw, hw);
        proof {
            assert(qt_contents(tree).to_multiset() =~= Multiset::<T>::empty());
            assert forall|i: int| 0 <= i < vec@.len() implies in_square(
                (#[trigger] vec@[i]).pos(),
                tree.x0 as int,
                tree.y0 as int,
                tree.size as int,
            ) && vec@[i].pos().in_bounds() by {
                assert(vec@[i].pos().abs_le(max_dim as int));
            }
        }
        tree.add_vec(vec);
        proof {
            assert forall|x: T| true implies #[trigger] qt_contents(tree).to_multiset().count(x)
                <= vec@.to_multiset().count(x) by {
                assert(Multiset::<T>::empty().count(x) == 0);
            }
            assert forall|i: int|
                0 <= i < vec@.len() && (forall|j: int|
                    0 <= j < i ==> (#[trigger] vec@[j]).pos() != vec@[i].pos()) implies
            qt_contents(tree).contains(#[trigger] vec@[i]) by {
                assert(!ms_has_pos(Multiset::<T>::empty(), vec@[i].pos()));
            }
        }
        tree
    }
}

impl<T: TreeValue> GeoQuery<T> for QuadTree<T> {
    open spec fn contents(&self) -> Seq<T> {
        qt_contents(*self)
    }

    open spec fn wf(&self) -> bool {
        qt_wf(*self)
    }

    /// Bounding-circle pruning is exact for every radius.
    open spec fn query_pre(radius: int) -> bool {
        true
    }

    fn from_vec(vec: Vec<T>, max_dim: i64) -> (s: Self) {
        QuadTree::<T>::from_vec(vec, max_dim)
    }

    fn query_distance(&self, point: &V2, radius: i64) -> (res: Vec<T>) {
        let res = self.query_distance(point, radius);
        proof {
            crate::seq_facts::lemma_filter_congruent(
                qt_contents(*self),
                |t: T| in_range(t.pos(), *point, radius as int),
                crate::particle::range_pred(*point, radius as int),
            );
        }
        res
    }
}

/// All node rectangles of a tree, in pre-order.
pub open spec fn qt_rects_spec<T: TreeValue>(t: QuadTree<T>) -> Seq<Rect>
    decreases t,
{
    seq![qt_rect_spec(t)] + (match t.node {
        QuadTreeNode::Node(nw, ne, sw, se) => qt_rects_spec(*nw) + qt_rects_spec(*ne)
            + qt_rects_spec(*sw) + qt_rects_spec(*se),
        _ => Seq::<Rect>::empty(),
    })
}

/// The quadrant of a point relative to midlines at `(mx, my)`.
pub open spec fn spec_quadrant(p: V2, mx: int, my: int) -> Quadrant {
    if p.x < mx {
        if p.y < my {
            Quadrant::NW
        } else {
            Quadrant::SW
        }
    } else {
        if p.y < my {
            Quadrant::NE
        } else {
            Quadrant::SE
        }
    }
}

/// Lifts the child-level insertion contract to the parent's concatenated
/// contents for the internal-node case.
#[verifier::rlimit(60)]
proof fn lemma_insert_node_case<T: TreeValue>(
    old_t: QuadTree<T>,
    a: Seq<T>,
    b: Seq<T>,
    c: Seq<T>,
    d: Seq<T>,
    a2: Seq<T>,
    b2: Seq<T>,
    c2: Seq<T>,
    d2: Seq<T>,
    value: T,
    q: Quadrant,
)
    requires
        qt_contents(old_t) == a + b + c + d,
        forall|i: int|
            0 <= i < qt_contents(old_t).len() ==> in_square(
                (#[trigger] qt_contents(old_t)[i]).pos(),
                old_t.x0 as int,
                old_t.y0 as int,
                old_t.size as int,
            ),
        old_t.node is Node,
        qt_wf(old_t),
        q == spec_quadrant(
            value.pos(),
            old_t.x0 as int + old_t.size as int / 2,
            old_t.y0 as int + old_t.size as int / 2,
        ),
        in_square(value.pos(), old_t.x0 as int, old_t.y0 as int, old_t.size as int),
        (match old_t.node {
            QuadTreeNode::Node(nw, ne, sw, se) => a == qt_contents(*nw) && b == qt_contents(*ne)
                && c == qt_contents(*sw) && d == qt_contents(*se),
            _ => false,
        }),
        (match q {
            Quadrant::NW => b2 == b && c2 == c && d2 == d && (if ms_has_pos(
                a.to_multiset(),
                value.pos(),
            ) {
                a2.to_multiset() == a.to_multiset()
            } else {
                a2.to_multiset() == a.to_multiset().insert(value)
            }),
            Quadrant::NE => a2 == a && c2 == c && d2 == d && (if ms_has_pos(
                b.to_multiset(),
                value.pos(),
            ) {
                b2.to_multiset() == b.to_multiset()
            } else {
                b2.to_multiset() == b.to_multiset().insert(value)
            }),
            Quadrant::SW => a2 == a && b2 == b && d2 == d && (if ms_has_pos(
                c.to_multiset(),
                value.pos(),
            ) {
                c2.to_multiset() == c.to_multiset()
            } else {
                c2.to_multiset() == c.to_multiset().insert(value)
            }),
            Quadrant::SE => a2 == a && b2 == b && c2 == c && (if ms_has_pos(
                d.to_multiset(),
                value.pos(),
            ) {
                d2.to_multiset() == d.to_multiset()
            } else {
                d2.to_multiset() == d.to_multiset().insert(value)
            }),
        }),
    ensures
        ms_has_pos(qt_contents(old_t).to_multiset(), value.pos()) ==> (a2 + b2 + c2
            + d2).to_multiset() == qt_contents(old_t).to_multiset(),
        !ms_has_pos(qt_contents(old_t).to_multiset(), value.pos()) ==> (a2 + b2 + c2
            + d2).to_multiset() == qt_contents(old_t).to_multiset().insert(value),
{
    broadcast use group_to_multiset_ensures;
    broadcast use vstd::multiset::group_multiset_axioms;

    vstd::seq_lib::lemma_multiset_commutative(a + b + c, d);
    vstd::seq_lib::lemma_multiset_commutative(a + b, c);
    vstd::seq_lib::lemma_multiset_commutative(a, b);
    assert((a + b + c + d) =~= ((a + b) + c) + d);
    vstd::seq_lib::lemma_multiset_commutative(a2 + b2 + c2, d2);
    vstd::seq_lib::lemma_multiset_commutative(a2 + b2, c2);
    vstd::seq_lib::lemma_multiset_commutative(a2, b2);
    assert((a2 + b2 + c2 + d2) =~= ((a2 + b2) + c2) + d2);
    let h = old_t.size as int / 2;
    let mx = old_t.x0 as int + h;
    let my = old_t.y0 as int + h;
    let whole = qt_contents(old_t);
    // The chosen child's positional occupancy decides the whole tree's:
    // other children live in disjoint quadrants.
    match old_t.node {
        QuadTreeNode::Node(nw, ne, sw, se) => {
            lemma_contents_in_square(*nw);
            lemma_contents_in_square(*ne);
            lemma_contents_in_square(*sw);
            lemma_contents_in_square(*se);
            let sel = match q {
                Quadrant::NW => a,
                Quadrant::NE => b,
                Quadrant::SW => c,
                Quadrant::SE => d,
            };
            assert(ms_has_pos(whole.to_multiset(), value.pos()) == ms_has_pos(
                sel.to_multiset(),
                value.pos(),
            )) by {
                if ms_has_pos(whole.to_multiset(), value.pos()) {
                    let x = choose|x: T|
                        whole.to_multiset().count(x) > 0 && x.pos() == value.pos();
                    assert(whole.contains(x));
                    let i = choose|i: int| 0 <= i < whole.len() && whole[i] == x;
                    if i < a.len() {
                        assert(whole[i] == a[i]);
                        assert(in_square(x.pos(), nw.x0 as int, nw.y0 as int, nw.size as int));
                        assert(q is NW);
                        assert(a.contains(x));
                        assert(sel.to_multiset().count(x) > 0);
                    } else if i < a.len() + b.len() {
                        assert(whole[i] == b[i - a.len()]);
                        assert(in_square(x.pos(), ne.x0 as int, ne.y0 as int, ne.size as int));
                        assert(q is NE);
                        assert(b.contains(x));
                        assert(sel.to_multiset().count(x) > 0);
                    } else if i < a.len() + b.len() + c.len() {
                        assert(whole[i] == c[i - a.len() - b.len()]);
                        assert(in_square(x.pos(), sw.x0 as int, sw.y0 as int, sw.size as int));
                        assert(q is SW);
                        assert(c.contains(x));
                        assert(sel.to_multiset().count(x) > 0);
                    } else {
                        assert(whole[i] == d[i - a.len() - b.len() - c.len()]);
                        assert(in_square(x.pos(), se.x0 as int, se.y0 as int, se.size as int));
                        assert(q is SE);
                        assert(d.contains(x));
                        assert(sel.to_multiset().count(x) > 0);
                    }
                }
                if ms_has_pos(sel.to_multiset(), value.pos()) {
                    let x = choose|x: T| sel.to_multiset().count(x) > 0 && x.pos() == value.pos();
                    assert(sel.contains(x));
                    assert(whole.to_multiset().count(x) > 0) by {
                        let i = choose|i: int| 0 <= i < sel.len() && sel[i] == x;
                        match q {
                            Quadrant::NW => {
                                assert(whole[i] == x);
                            },
                            Quadrant::NE => {
                                assert(whole[a.len() + i] == x);
                            },
                            Quadrant::SW => {
                                assert(whole[a.len() + b.len() + i] == x);
                            },
                            Quadrant::SE => {
                                assert(whole[a.len() + b.len() + c.len() + i] == x);
                            },
                        }
                        assert(whole.contains(x));
                    }
                }
            }
        },
        _ => {},
    }
}

} // verus!
