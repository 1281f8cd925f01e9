//! The uniform grid index: the plane is cut into fixed-size square cells and
//! each point is hash-bucketed by its cell. A radius query visits the 3-by-3
//! block of cells around the query point's cell and keeps candidates by exact
//! distance, which is exact whenever the radius does not exceed the cell
//! size.

use std::collections::HashMap;
use vstd::prelude::*;
use vstd::seq_lib::group_to_multiset_ensures;
use crate::particle::GeoQuery;
use crate::seq_facts::lemma_filter_none;
use crate::numeric::lemma_abs_lt_of_sq;
use crate::v2::{in_range, Rect, TreeValue, V2, COORD_LIMIT};

verus! {

/// Side length of a grid cell, in milli-units (10 length units).
pub const CELL_SIZE: i64 = 10_000;

/// The cell index a coordinate falls in: floor division by the cell size.
pub open spec fn cell_of(x: int) -> int {
    x / (CELL_SIZE as int)
}

/// Pack a cell pair into one bucket key, offsetting each cell index into the
/// unsigned 32-bit window.
pub open spec fn key_join(cx: int, cy: int) -> u64 {
    (((cx + 0x8000_0000) * 0x1_0000_0000) + (cy + 0x8000_0000)) as u64
}

/// The bucket key of a position.
pub open spec fn grid_key(p: V2) -> u64 {
    key_join(cell_of(p.x as int), cell_of(p.y as int))
}

/// Cell packing is injective on the 32-bit cell window.
pub proof fn lemma_key_join_inj(cx: int, cy: int, cx2: int, cy2: int)
    requires
        -0x8000_0000 <= cx < 0x8000_0000,
        -0x8000_0000 <= cy < 0x8000_0000,
        -0x8000_0000 <= cx2 < 0x8000_0000,
        -0x8000_0000 <= cy2 < 0x8000_0000,
        key_join(cx, cy) == key_join(cx2, cy2),
    ensures
        cx == cx2,
        cy == cy2,
{
    let u = ((cx + 0x8000_0000) * 0x1_0000_0000) + (cy + 0x8000_0000);
    let u2 = ((cx2 + 0x8000_0000) * 0x1_0000_0000) + (cy2 + 0x8000_0000);
    assert(0 <= u < 0x1_0000_0000_0000_0000);
    assert(0 <= u2 < 0x1_0000_0000_0000_0000);
    assert(u == u2);
    vstd::arithmetic::div_mod::lemma_fundamental_div_mod_converse(
        u,
        0x1_0000_0000,
        cx + 0x8000_0000,
        cy + 0x8000_0000,
    );
    vstd::arithmetic::div_mod::lemma_fundamental_div_mod_converse(
        u2,
        0x1_0000_0000,
        cx2 + 0x8000_0000,
        cy2 + 0x8000_0000,
    );
}

/// Cell indexes of in-bounds coordinates fit the 32-bit cell window.
pub proof fn lemma_cell_window(x: int)
    requires
        -(COORD_LIMIT as int) <= x <= COORD_LIMIT as int,
    ensures
        -0x8000_0000 <= cell_of(x) < 0x8000_0000,
{
    vstd::arithmetic::div_mod::lemma_fundamental_div_mod_converse(0x1000_0000, 10000, 26843, 5456);
    vstd::arithmetic::div_mod::lemma_fundamental_div_mod_converse(
        -0x1000_0000,
        10000,
        -26844,
        4544,
    );
    vstd::arithmetic::div_mod::lemma_div_is_ordered(-(COORD_LIMIT as int), x, CELL_SIZE as int);
    vstd::arithmetic::div_mod::lemma_div_is_ordered(x, COORD_LIMIT as int, CELL_SIZE as int);
}

/// Executable floor division by the cell size.
pub fn cell_i64(x: i64) -> (c: i64)
    requires
        -0x4000_0000_0000_0000 < x < 0x4000_0000_0000_0000,
    ensures
        c == cell_of(x as int),
{
    if x >= 0 {
        x / CELL_SIZE
    } else {
        let q = (-x + (CELL_SIZE - 1)) / CELL_SIZE;
        proof {
            let d = CELL_SIZE as int;
            let qe = (x as int) / d;
            let re = (x as int) % d;
            vstd::arithmetic::div_mod::lemma_fundamental_div_mod(x as int, d);
            assert(-x + (d - 1) == (-qe) * d + (d - 1 - re));
            vstd::arithmetic::div_mod::lemma_fundamental_div_mod_converse(
                -x + (d - 1),
                d,
                -qe,
                d - 1 - re,
            );
        }
        -q
    }
}

/// Executable cell-pair packing.
pub fn key_of_cells(cx: i64, cy: i64) -> (k: u64)
    requires
        -0x8000_0000 <= cx < 0x8000_0000,
        -0x8000_0000 <= cy < 0x8000_0000,
    ensures
        k == key_join(cx as int, cy as int),
{
    let ox = (cx + 0x8000_0000) as u64;
    let oy = (cy + 0x8000_0000) as u64;
    ox * 0x1_0000_0000 + oy
}

/// A grid of hash-bucketed cells over a point snapshot. Buckets hold indices
/// into the retained point sequence, in insertion order.
pub struct HashGrid<T> {
    data: HashMap<u64, Vec<usize>>,
    cells: Vec<(i64, i64)>,
    points: Vec<T>,
}

/// The retained points, in insertion order.
pub closed spec fn grid_contents<T: TreeValue>(g: &HashGrid<T>) -> Seq<T> {
    g.points@
}

/// The grid invariant: every bucket holds ascending in-range indices of
/// points keyed to it, every point is filed in its bucket, and the occupied
/// cell list mirrors the bucket keys.
pub closed spec fn grid_wf<T: TreeValue>(g: &HashGrid<T>) -> bool {
    &&& forall|i: int| 0 <= i < g.points@.len() ==> (#[trigger] g.points@[i]).pos().in_bounds()
    &&& forall|k: u64, j: int|
        #![trigger g.data@[k]@[j]]
        g.data@.contains_key(k) && 0 <= j < g.data@[k]@.len() ==> g.data@[k]@[j] < g.points@.len()
            && grid_key(g.points@[g.data@[k]@[j] as int].pos()) == k
    &&& forall|k: u64, j1: int, j2: int|
        #![trigger g.data@[k]@[j1], g.data@[k]@[j2]]
        g.data@.contains_key(k) && 0 <= j1 < j2 < g.data@[k]@.len() ==> g.data@[k]@[j1]
            < g.data@[k]@[j2]
    &&& forall|i: int|
        0 <= i < g.points@.len() ==> g.data@.contains_key(
            #[trigger] grid_key(g.points@[i].pos()),
        ) && g.data@[grid_key(g.points@[i].pos())]@.contains(i as usize)
    &&& forall|k: u64| #[trigger] g.data@.contains_key(k) ==> g.data@[k]@.len() > 0
    &&& forall|j: int|
        0 <= j < g.cells@.len() ==> -0x8000_0000 <= (#[trigger] g.cells@[j]).0 < 0x8000_0000
            && -0x8000_0000 <= g.cells@[j].1 < 0x8000_0000 && g.data@.contains_key(
            key_join(g.cells@[j].0 as int, g.cells@[j].1 as int),
        )
    &&& forall|j1: int, j2: int|
        0 <= j1 < j2 < g.cells@.len() ==> (#[trigger] g.cells@[j1]) != (#[trigger] g.cells@[j2])
    &&& forall|i: int|
        0 <= i < g.points@.len() ==> g.cells@.contains(
            #[trigger] cell_pair_of(g.points@[i].pos()),
        )
}

/// The cell pair of a position, as stored in the occupied-cell list.
pub open spec fn cell_pair_of(p: V2) -> (i64, i64) {
    (cell_of(p.x as int) as i64, cell_of(p.y as int) as i64)
}

/// Copy a bucket of indices.
#[verifier::loop_isolation(false)]
fn copy_indices(src: &Vec<usize>) -> (out: Vec<usize>)
    ensures
        out@ == src@,
{
    let mut out: Vec<usize> = Vec::new();
    let mut i: usize = 0;
    while i < src.len()
        invariant
            i <= src@.len(),
            out@ == src@.take(i as int),
        decreases src@.len() - i,
    {
        out.push(src[i]);
        proof {
            assert(out@ =~= src@.take(i + 1));
        }
        i = i + 1;
    }
    proof {
        assert(src@.take(src@.len() as int) =~= src@);
    }
    out
}

impl<T: TreeValue> HashGrid<T> {
    /// Bucket every point by its cell.
    #[verifier::loop_isolation(false)]
    fn build(vec: Vec<T>) -> (g: Self)
        requires
            forall|i: int| 0 <= i < vec@.len() ==> (#[trigger] vec@[i]).pos().in_bounds(),
        ensures
            grid_wf(&g),
            grid_contents(&g) == vec@,
    {
        broadcast use vstd::std_specs::hash::group_hash_axioms;

        let mut g = HashGrid {
            data: HashMap::<u64, Vec<usize>>::new(),
            cells: Vec::new(),
            points: Vec::new(),
        };
        let mut i: usize = 0;
        while i < vec.len()
            invariant
                i <= vec@.len(),
                g.points@ == vec@.take(i as int),
                grid_wf(&g),
            decreases vec@.len() - i,
        {
            let p = vec[i];
            let pos = p.position();
            let cx = cell_i64(pos.x);
            let cy = cell_i64(pos.y);
            proof {
                assert(vec@[i as int].pos().in_bounds());
                lemma_cell_window(pos.x as int);
                lemma_cell_window(pos.y as int);
            }
            let key = key_of_cells(cx, cy);
            let ghost old_g = g;
            let mut bucket: Vec<usize>;
            match g.data.get(&key) {
                Some(b) => {
                    bucket = copy_indices(b);
                },
                None => {
                    bucket = Vec::new();
                    g.cells.push((cx, cy));
                },
            }
            bucket.push(i);
            g.points.push(p);
            g.data.insert(key, bucket);
            proof {
                let gp = g.points@;
                assert(gp =~= vec@.take(i + 1));
                assert(gp[i as int] == p);
                assert(grid_key(p.pos()) == key);
                assert forall|k: u64, j: int|
                    g.data@.contains_key(k) && 0 <= j < g.data@[k]@.len() implies
                    #[trigger] g.data@[k]@[j] < gp.len() && grid_key(
                    gp[g.data@[k]@[j] as int].pos(),
                ) == k by {
                    if k == key {
                        if j < g.data@[k]@.len() - 1 {
                            assert(g.data@[k]@[j] == old_g.data@[k]@[j]);
                            assert(old_g.data@[k]@[j] < old_g.points@.len());
                        } else {
                            assert(g.data@[k]@[j] == i);
                        }
                    } else {
                        assert(g.data@[k]@ == old_g.data@[k]@);
                        assert(old_g.data@[k]@[j] < old_g.points@.len());
                        assert(gp[old_g.data@[k]@[j] as int] == old_g.points@[old_g.data@[k]@[j] as int]);
                    }
                }
                assert forall|k: u64, j1: int, j2: int|
                    g.data@.contains_key(k) && 0 <= j1 < j2 < g.data@[k]@.len() implies
                    #[trigger] g.data@[k]@[j1] < #[trigger] g.data@[k]@[j2] by {
                    if k == key {
                        if j2 == g.data@[k]@.len() - 1 {
                            if old_g.data@.contains_key(k) {
                                assert(g.data@[k]@[j1] == old_g.data@[k]@[j1]);
                                assert(old_g.data@[k]@[j1] < old_g.points@.len());
                            }
                        }
                    }
                }
                assert forall|ii: int| 0 <= ii < gp.len() implies g.data@.contains_key(
                    #[trigger] grid_key(gp[ii].pos()),
                ) && g.data@[grid_key(gp[ii].pos())]@.contains(ii as usize) by {
                    if ii < i {
                        assert(gp[ii] == old_g.points@[ii]);
                        let ok = grid_key(old_g.points@[ii].pos());
                        assert(old_g.data@.contains_key(ok));
                        assert(old_g.data@[ok]@.contains(ii as usize));
                        if ok == key {
                            let w = choose|w: int|
                                0 <= w < old_g.data@[ok]@.len() && old_g.data@[ok]@[w]
                                    == ii as usize;
                            assert(g.data@[ok]@[w] == ii as usize);
                        } else {
                            assert(g.data@[ok]@ == old_g.data@[ok]@);
                        }
                    } else {
                        assert(gp[ii] == p);
                        assert(g.data@[key]@[g.data@[key]@.len() - 1] == i);
                    }
                }
                assert forall|ii: int| 0 <= ii < gp.len() implies g.cells@.contains(
                    #[trigger] cell_pair_of(gp[ii].pos()),
                ) by {
                    if ii < i {
                        assert(old_g.cells@.contains(cell_pair_of(old_g.points@[ii].pos())));
                        let w = choose|w: int|
                            0 <= w < old_g.cells@.len() && old_g.cells@[w] == cell_pair_of(
                                old_g.points@[ii].pos(),
                            );
                        assert(g.cells@[w] == cell_pair_of(gp[ii].pos()));
                    } else {
                        assert(cell_pair_of(p.pos()) == (cx, cy));
                        if old_g.data@.contains_key(key) {
                            assert(old_g.cells@.contains(cell_pair_of(p.pos()))) by {
                                assert(old_g.points@.len() > 0 || true);
                                assert(exists|w: int|
                                    0 <= w < old_g.cells@.len() && (#[trigger] old_g.cells@[w])
                                        == (cx, cy)) by {
                                    lemma_occupied_cell_listed(&old_g, key, cx, cy);
                                }
                            }
                            let w = choose|w: int|
                                0 <= w < old_g.cells@.len() && old_g.cells@[w] == cell_pair_of(
                                    p.pos(),
                                );
                            assert(g.cells@[w] == cell_pair_of(p.pos()));
                        } else {
                            assert(g.cells@[g.cells@.len() - 1] == (cx, cy));
                        }
                    }
                }
                assert forall|j1: int, j2: int| 0 <= j1 < j2 < g.cells@.len() implies (
                #[trigger] g.cells@[j1]) != (#[trigger] g.cells@[j2]) by {
                    if !old_g.data@.contains_key(key) && j2 == g.cells@.len() - 1 {
                        assert(g.cells@[j1] == old_g.cells@[j1]);
                        assert(g.cells@[j2] == (cx, cy));
                        if old_g.cells@[j1] == (cx, cy) {
                            assert(old_g.data@.contains_key(
                                key_join(old_g.cells@[j1].0 as int, old_g.cells@[j1].1 as int),
                            ));
                        }
                    } else {
                        assert(g.cells@[j1] == old_g.cells@[j1]);
                        assert(g.cells@[j2] == old_g.cells@[j2]);
                    }
                }
            }
            i = i + 1;
        }
        proof {
            assert(g.points@ =~= vec@);
        }
        g
    }

    /// One rectangle per occupied cell, in first-use order.
    #[verifier::loop_isolation(false)]
    pub fn get_rects(&self) -> (res: Vec<Rect>)
        requires
            grid_wf(self),
        ensures
            res@.len() == occupied_cells(self).len(),
            forall|j: int|
                0 <= j < res@.len() ==> #[trigger] res@[j] == cell_rect(occupied_cells(self)[j]),
            forall|j1: int, j2: int|
                0 <= j1 < j2 < occupied_cells(self).len() ==> (#[trigger] occupied_cells(
                    self,
                )[j1]) != (#[trigger] occupied_cells(self)[j2]),
            forall|i: int|
                0 <= i < grid_contents(self).len() ==> occupied_cells(self).contains(
                    #[trigger] cell_pair_of(grid_contents(self)[i].pos()),
                ),
    {
        let mut res: Vec<Rect> = Vec::new();
        let mut j: usize = 0;
        while j < self.cells.len()
            invariant
                j <= self.cells@.len(),
                res@.len() == j,
                forall|w: int| 0 <= w < j ==> #[trigger] res@[w] == cell_rect(self.cells@[w]),
            decreases self.cells@.len() - j,
        {
            let (cx, cy) = self.cells[j];
            let x = cx * CELL_SIZE;
            let y = cy * CELL_SIZE;
            res.push(Rect::new(x, y, x + CELL_SIZE, y + CELL_SIZE));
            j = j + 1;
        }
        res
    }
}

/// Neighbor cell `d` of 9 around a center cell, row-major.
pub open spec fn nb_cell(cx: int, cy: int, d: int) -> (int, int) {
    (cx + d / 3 - 1, cy + d % 3 - 1)
}

/// Whether point `i` of the grid lies in one of the first `c` neighbor cells
/// of the 3-by-3 block around `(cx, cy)`.
pub closed spec fn in_block_upto<T: TreeValue>(
    g: &HashGrid<T>,
    i: int,
    cx: int,
    cy: int,
    c: int,
) -> bool {
    exists|d: int|
        0 <= d < c && cell_of(g.points@[i].pos().x as int) == (#[trigger] nb_cell(cx, cy, d)).0
            && cell_of(g.points@[i].pos().y as int) == nb_cell(cx, cy, d).1
}

/// Insertion sort for candidate indices.
#[verifier::loop_isolation(false)]
fn sort_usize(v: &mut Vec<usize>)
    ensures
        final(v)@.to_multiset() == old(v)@.to_multiset(),
        final(v)@.len() == old(v)@.len(),
        forall|p: int, q: int| 0 <= p < q < final(v)@.len() ==> final(v)@[p] <= final(v)@[q],
{
    broadcast use group_to_multiset_ensures;
    broadcast use vstd::seq_lib::to_multiset_update;
    broadcast use vstd::multiset::group_multiset_axioms;

    let ghost orig = v@;
    let n = v.len();
    if n <= 1 {
        return ;
    }
    let mut i: usize = 1;
    while i < n
        invariant
            1 <= i <= n == v@.len(),
            v@.to_multiset() == orig.to_multiset(),
            forall|p: int, q: int| 0 <= p < q < i ==> v@[p] <= v@[q],
        decreases n - i,
    {
        let mut j: usize = i;
        while j > 0 && v[j - 1] > v[j]
            invariant
                0 <= j <= i < n == v@.len(),
                v@.to_multiset() == orig.to_multiset(),
                forall|p: int, q: int| 0 <= p < q <= i && p != j && q != j ==> v@[p] <= v@[q],
                forall|p: int| j < p <= i ==> v@[p] >= v@[j as int],
            decreases j,
        {
            let ghost before = v@;
            let a = v[j - 1];
            let b = v[j];
            v.set(j - 1, b);
            v.set(j, a);
            proof {
                assert(v@ == before.update(j - 1, b).update(j as int, a));
                assert(before.contains(a)) by {
                    assert(before[j - 1] == a);
                }
                assert(before.contains(b)) by {
                    assert(before[j as int] == b);
                }
                assert(before.to_multiset().count(a) > 0);
                assert(before.to_multiset().count(b) > 0);
                assert(before.update(j - 1, b)[j as int] == b);
                assert(v@.to_multiset() =~= before.to_multiset());
            }
            j = j - 1;
        }
        proof {
            assert forall|p: int, q: int| 0 <= p < q <= i implies v@[p] <= v@[q] by {
                if q == j {
                    assert(j > 0);
                    if p < j - 1 {
                        assert(v@[p] <= v@[j - 1]);
                    }
                    assert(v@[j - 1] <= v@[j as int]);
                }
            }
        }
        i = i + 1;
    }
}

/// Neighboring cells cover every cell a strictly-in-radius point can occupy,
/// for radii up to the cell size.
proof fn lemma_cell_near(a: int, q: int)
    requires
        q - CELL_SIZE <= a <= q + CELL_SIZE,
    ensures
        cell_of(q) - 1 <= cell_of(a) <= cell_of(q) + 1,
{
    let d = CELL_SIZE as int;
    vstd::arithmetic::div_mod::lemma_fundamental_div_mod(q, d);
    vstd::arithmetic::div_mod::lemma_fundamental_div_mod_converse(q - d, d, q / d - 1, q % d);
    vstd::arithmetic::div_mod::lemma_fundamental_div_mod_converse(q + d, d, q / d + 1, q % d);
    vstd::arithmetic::div_mod::lemma_div_is_ordered(q - d, a, d);
    vstd::arithmetic::div_mod::lemma_div_is_ordered(a, q + d, d);
}

impl<T: TreeValue> HashGrid<T> {
    /// Radius query: test every point of the 3-by-3 cell block around the
    /// query point's cell by exact distance. Exact for radii up to the cell
    /// size.
    #[verifier::loop_isolation(false)]
    #[verifier::rlimit(60)]
    pub fn query_distance(&self, point: &V2, radius: i64) -> (res: Vec<T>)
        requires
            grid_wf(self),
            point.in_bounds(),
            0 <= radius <= CELL_SIZE,
        ensures
            res@ == grid_contents(self).filter(|t: T| in_range(t.pos(), *point, radius as int)),
    {
        broadcast use vstd::std_specs::hash::group_hash_axioms;
        broadcast use group_to_multiset_ensures;

        let cx = cell_i64(point.x);
        let cy = cell_i64(point.y);
        let n_pts = self.points.len();
        proof {
            lemma_cell_window(point.x as int);
            lemma_cell_window(point.y as int);
        }
        let mut idxs: Vec<usize> = Vec::new();
        let mut c: usize = 0;
        while c < 9
            invariant
                c <= 9,
                idxs@.no_duplicates(),
                forall|w: int| 0 <= w < idxs@.len() ==> (#[trigger] idxs@[w]) < self.points@.len(),
                forall|w: int|
                    0 <= w < idxs@.len() ==> in_block_upto(
                        self,
                        #[trigger] idxs@[w] as int,
                        cx as int,
                        cy as int,
                        c as int,
                    ),
                forall|i: int|
                    0 <= i < self.points@.len() && in_block_upto(
                        self,
                        i,
                        cx as int,
                        cy as int,
                        c as int,
                    ) ==> idxs@.contains(i as usize),
            decreases 9 - c,
        {
            let nx = cx + (c as i64) / 3 - 1;
            let ny = cy + (c as i64) % 3 - 1;
            let key = key_of_cells(nx, ny);
            let ghost old_idxs = idxs@;
            match self.data.get(&key) {
                Some(bucket) => {
                    let mut j: usize = 0;
                    while j < bucket.len()
                        invariant
                            j <= bucket@.len(),
                            bucket@ == self.data@[key]@,
                            self.data@.contains_key(key),
                            idxs@.no_duplicates(),
                            forall|w: int|
                                0 <= w < idxs@.len() ==> (#[trigger] idxs@[w])
                                    < self.points@.len(),
                            forall|w: int|
                                0 <= w < old_idxs.len() ==> idxs@[w] == old_idxs[w],
                            idxs@.len() == old_idxs.len() + j,
                            forall|w: int|
                                old_idxs.len() <= w < idxs@.len() ==> idxs@[w] == bucket@[w
                                    - old_idxs.len()],
                            forall|w: int|
                                0 <= w < old_idxs.len() ==> in_block_upto(
                                    self,
                                    #[trigger] old_idxs[w] as int,
                                    cx as int,
                                    cy as int,
                                    c as int,
                                ),
                        decreases bucket@.len() - j,
                    {
                        let idx = bucket[j];
                        proof {
                            let bi = bucket@[j as int];
                            assert(bi < self.points@.len());
                            assert(grid_key(self.points@[bi as int].pos()) == key);
                            lemma_cell_window(self.points@[bi as int].pos().x as int);
                            lemma_cell_window(self.points@[bi as int].pos().y as int);
                            lemma_key_join_inj(
                                cell_of(self.points@[bi as int].pos().x as int),
                                cell_of(self.points@[bi as int].pos().y as int),
                                nx as int,
                                ny as int,
                            );
                            assert(nb_cell(cx as int, cy as int, c as int) == (
                                nx as int,
                                ny as int,
                            ));
                            assert(in_block_upto(self, bi as int, cx as int, cy as int, c + 1));
                            assert(!idxs@.contains(bi)) by {
                                if idxs@.contains(bi) {
                                    let w = choose|w: int|
                                        0 <= w < idxs@.len() && idxs@[w] == bi;
                                    if w < old_idxs.len() {
                                        assert(old_idxs[w] == bi);
                                        assert(in_block_upto(
                                            self,
                                            bi as int,
                                            cx as int,
                                            cy as int,
                                            c as int,
                                        ));
                                        let d = choose|d: int|
                                            0 <= d < c && cell_of(
                                                self.points@[bi as int].pos().x as int,
                                            ) == (#[trigger] nb_cell(cx as int, cy as int, d)).0
                                                && cell_of(self.points@[bi as int].pos().y as int)
                                                == nb_cell(cx as int, cy as int, d).1;
                                        assert(nb_cell(cx as int, cy as int, d) == nb_cell(
                                            cx as int,
                                            cy as int,
                                            c as int,
                                        ));
                                        assert(d == 3 * (d / 3) + d % 3);
                                        assert(c == 3 * ((c as int) / 3) + (c as int) % 3);
                                        assert(false);
                                    } else {
                                        assert(idxs@[w] == bucket@[w - old_idxs.len()]);
                                        assert(bucket@[w - old_idxs.len()] < bucket@[j as int]);
                                        assert(false);
                                    }
                                }
                            }
                        }
                        idxs.push(idx);
                        j = j + 1;
                    }
                },
                None => {
                },
            }
            proof {
                assert forall|w: int| 0 <= w < idxs@.len() implies in_block_upto(
                    self,
                    #[trigger] idxs@[w] as int,
                    cx as int,
                    cy as int,
                    c + 1,
                ) by {
                    if w < old_idxs.len() {
                        assert(idxs@[w] == old_idxs[w]);
                        assert(in_block_upto(self, idxs@[w] as int, cx as int, cy as int, c as int));
                        let d = choose|d: int|
                            0 <= d < c && cell_of(self.points@[idxs@[w] as int].pos().x as int) == (
                            #[trigger] nb_cell(cx as int, cy as int, d)).0 && cell_of(
                                self.points@[idxs@[w] as int].pos().y as int,
                            ) == nb_cell(cx as int, cy as int, d).1;
                        assert(0 <= d < c + 1);
                    } else {
                        let key = key_join(nx as int, ny as int);
                        let bi = idxs@[w];
                        assert(self.data@.contains_key(key));
                        assert(self.data@[key]@[w - old_idxs.len()] == bi);
                        assert(grid_key(self.points@[bi as int].pos()) == key);
                        lemma_cell_window(self.points@[bi as int].pos().x as int);
                        lemma_cell_window(self.points@[bi as int].pos().y as int);
                        lemma_key_join_inj(
                            cell_of(self.points@[bi as int].pos().x as int),
                            cell_of(self.points@[bi as int].pos().y as int),
                            nx as int,
                            ny as int,
                        );
                        assert(nb_cell(cx as int, cy as int, c as int) == (nx as int, ny as int));
                    }
                }
                assert forall|i: int|
                    0 <= i < self.points@.len() && #[trigger] in_block_upto(
                        self,
                        i,
                        cx as int,
                        cy as int,
                        c + 1,
                    ) implies idxs@.contains(i as usize) by {
                    let d = choose|d: int|
                        0 <= d < c + 1 && cell_of(self.points@[i].pos().x as int) == (
                        #[trigger] nb_cell(cx as int, cy as int, d)).0 && cell_of(
                            self.points@[i].pos().y as int,
                        ) == nb_cell(cx as int, cy as int, d).1;
                    if d < c {
                        assert(in_block_upto(self, i, cx as int, cy as int, c as int));
                        let w = choose|w: int|
                            0 <= w < old_idxs.len() && old_idxs[w] == i as usize;
                        assert(idxs@[w] == i as usize);
                    } else {
                        lemma_cell_window(self.points@[i].pos().x as int);
                        lemma_cell_window(self.points@[i].pos().y as int);
                        assert(grid_key(self.points@[i].pos()) == key_join(nx as int, ny as int));
                        assert(self.data@.contains_key(grid_key(self.points@[i].pos())));
                        assert(self.data@[grid_key(self.points@[i].pos())]@.contains(i as usize));
                        let w = choose|w: int|
                            0 <= w < self.data@[key_join(nx as int, ny as int)]@.len()
                                && self.data@[key_join(nx as int, ny as int)]@[w] == i as usize;
                        assert(idxs@[old_idxs.len() + w] == i as usize);
                    }
                }
            }
            c = c + 1;
        }
        proof {
            idxs@.lemma_multiset_has_no_duplicates();
        }
        let ghost unsorted = idxs@;
        sort_usize(&mut idxs);
        proof {
            broadcast use vstd::multiset::group_multiset_axioms;

            idxs@.lemma_multiset_has_no_duplicates_conv();
            assert(idxs@.no_duplicates());
            assert forall|i: int|
                0 <= i < self.points@.len() && #[trigger] in_block_upto(
                    self,
                    i,
                    cx as int,
                    cy as int,
                    9,
                ) implies idxs@.contains(i as usize) by {
                assert(unsorted.contains(i as usize));
                assert(unsorted.to_multiset().count(i as usize) > 0);
                assert(idxs@.to_multiset().count(i as usize) > 0);
            }
            assert forall|w: int| 0 <= w < idxs@.len() implies (#[trigger] idxs@[w])
                < self.points@.len() by {
                assert(idxs@.contains(idxs@[w]));
                assert(idxs@.to_multiset().count(idxs@[w]) > 0);
                assert(unsorted.to_multiset().count(idxs@[w]) > 0);
                assert(unsorted.contains(idxs@[w]));
                let ww = choose|ww: int| 0 <= ww < unsorted.len() && unsorted[ww] == idxs@[w];
            }
            assert forall|w1: int, w2: int| 0 <= w1 < w2 < idxs@.len() implies idxs@[w1]
                < idxs@[w2] by {
                assert(idxs@[w1] <= idxs@[w2]);
                assert(idxs@[w1] != idxs@[w2]);
            }
        }
        let ghost p = |t: T| in_range(t.pos(), *point, radius as int);
        let mut res: Vec<T> = Vec::new();
        let mut k: usize = 0;
        let ghost mut m: int = 0;
        proof {
            reveal_with_fuel(Seq::filter, 2);
            assert(grid_contents(self).take(0).filter(p) =~= Seq::<T>::empty());
            assert forall|jj: int|
                m <= jj < self.points@.len() && p(#[trigger] self.points@[jj]) implies exists|
                l: int,
            |
                k <= l < idxs@.len() && idxs@[l] == jj as usize by {
                let t = self.points@[jj];
                let tx = t.pos().x as int;
                let ty = t.pos().y as int;
                let qx = point.x as int;
                let qy = point.y as int;
                let r = radius as int;
                assert((tx - qx) * (tx - qx) >= 0 && (ty - qy) * (ty - qy) >= 0)
                    by (nonlinear_arith);
                lemma_abs_lt_of_sq(tx - qx, r);
                lemma_abs_lt_of_sq(ty - qy, r);
                lemma_cell_near(tx, qx);
                lemma_cell_near(ty, qy);
                let dx = cell_of(tx) - cx as int + 1;
                let dy = cell_of(ty) - cy as int + 1;
                let d = 3 * dx + dy;
                assert(0 <= d < 9);
                assert(d / 3 == dx && d % 3 == dy) by {
                    vstd::arithmetic::div_mod::lemma_fundamental_div_mod_converse(d, 3, dx, dy);
                }
                assert(nb_cell(cx as int, cy as int, d) == (cell_of(tx), cell_of(ty)));
                assert(in_block_upto(self, jj, cx as int, cy as int, 9));
                assert(idxs@.contains(jj as usize));
                let l = choose|l: int| 0 <= l < idxs@.len() && idxs@[l] == jj as usize;
                assert(k <= l);
            }
        }
        while k < idxs.len()
            invariant
                k <= idxs@.len(),
                0 <= m <= self.points@.len(),
                grid_wf(self),
                point.in_bounds(),
                0 <= radius <= CELL_SIZE,
                forall|w: int| 0 <= w < idxs@.len() ==> (#[trigger] idxs@[w]) < self.points@.len(),
                forall|w1: int, w2: int| 0 <= w1 < w2 < idxs@.len() ==> idxs@[w1] < idxs@[w2],
                res@ == grid_contents(self).take(m).filter(p),
                forall|l: int| k <= l < idxs@.len() ==> (#[trigger] idxs@[l]) >= m,
                forall|jj: int|
                    m <= jj < self.points@.len() && p(#[trigger] self.points@[jj]) ==> exists|
                    l: int,
                |
                    k <= l < idxs@.len() && idxs@[l] == jj as usize,
            decreases idxs@.len() - k,
        {
            let idx = idxs[k];
            proof {
                let s = grid_contents(self);
                let gap = s.subrange(m, idx as int);
                assert forall|w: int| 0 <= w < gap.len() implies !p(#[trigger] gap[w]) by {
                    let jj = m + w;
                    assert(gap[w] == s[jj]);
                    if p(s[jj]) {
                        let l = choose|l: int|
                            k <= l < idxs@.len() && idxs@[l] == jj as usize;
                        if l == k {
                            assert(false);
                        } else {
                            assert(idxs@[k as int] < idxs@[l]);
                            assert(false);
                        }
                    }
                }
                lemma_filter_none(gap, p);
                assert(s.take(idx as int) =~= s.take(m) + gap);
                Seq::filter_distributes_over_add(s.take(m), gap, p);
                assert(s.take(idx as int).filter(p) == s.take(m).filter(p));
            }
            let t = self.points[idx];
            let tp = t.position();
            let dx = tp.x - point.x;
            let dy = tp.y - point.y;
            proof {
                crate::numeric::lemma_square_bound(dx as int, 0x4000_0000);
                crate::numeric::lemma_square_bound(dy as int, 0x4000_0000);
                crate::numeric::lemma_square_bound(radius as int, 0x4000_0000);
            }
            let d2 = dx * dx + dy * dy;
            proof {
                reveal_with_fuel(Seq::filter, 2);
                let s = grid_contents(self);
                let sprev = s.take(idx as int);
                let scur = s.take(idx + 1);
                assert(scur =~= sprev + seq![t]);
                Seq::filter_distributes_over_add(sprev, seq![t], p);
                assert(seq![t].drop_last() =~= Seq::<T>::empty());
                assert(d2 == (t.pos().x - point.x) * (t.pos().x - point.x) + (t.pos().y
                    - point.y) * (t.pos().y - point.y));
                if p(t) {
                    assert(seq![t].filter(p) =~= Seq::<T>::empty().push(t));
                    assert(scur.filter(p) =~= sprev.filter(p).push(t));
                    assert(d2 < radius * radius);
                } else {
                    assert(seq![t].filter(p) =~= Seq::<T>::empty());
                    assert(scur.filter(p) =~= sprev.filter(p));
                    assert(!(d2 < radius * radius));
                }
            }
            if d2 < radius * radius {
                res.push(t);
            }
            proof {
                m = idx + 1;
                assert forall|l: int| k + 1 <= l < idxs@.len() implies (#[trigger] idxs@[l])
                    >= m by {
                    assert(idxs@[k as int] < idxs@[l]);
                }
                assert forall|jj: int|
                    m <= jj < self.points@.len() && p(#[trigger] self.points@[jj]) implies exists|
                    l: int,
                |
                    k + 1 <= l < idxs@.len() && idxs@[l] == jj as usize by {
                    let l = choose|l: int| k <= l < idxs@.len() && idxs@[l] == jj as usize;
                    assert(jj < n_pts as int);
                    assert((jj as usize) as int == jj);
                    assert(idxs@[l] as int == jj);
                    if l == k {
                        assert(idx as int == jj);
                        assert(jj >= idx + 1);
                        assert(false);
                    }
                }
            }
            k = k + 1;
        }
        proof {
            let s = grid_contents(self);
            let gap = s.subrange(m, s.len() as int);
            assert forall|w: int| 0 <= w < gap.len() implies !p(#[trigger] gap[w]) by {
                let jj = m + w;
                assert(gap[w] == s[jj]);
            }
            lemma_filter_none(gap, p);
            assert(s =~= s.take(m) + gap);
            Seq::filter_distributes_over_add(s.take(m), gap, p);
            assert(res@ == s.filter(p));
        }
        res
    }
}

impl<T: TreeValue> GeoQuery<T> for HashGrid<T> {
    open spec fn contents(&self) -> Seq<T> {
        grid_contents(self)
    }

    open spec fn wf(&self) -> bool {
        grid_wf(self)
    }

    /// The 3-by-3 neighborhood only covers radii up to one cell.
    open spec fn query_pre(radius: int) -> bool {
        radius <= CELL_SIZE as int
    }

    fn from_vec(vec: Vec<T>, max_dim: i64) -> (s: Self) {
        broadcast use group_to_multiset_ensures;

        proof {
            assert forall|i: int| 0 <= i < vec@.len() implies (
            #[trigger] vec@[i]).pos().in_bounds() by {
                assert(vec@[i].pos().abs_le(max_dim as int));
            }
        }
        let g = Self::build(vec);
        proof {
            assert(grid_contents(&g) == vec@);
            assert forall|i: int|
                0 <= i < vec@.len() && (forall|j: int|
                    0 <= j < i ==> (#[trigger] vec@[j]).pos() != vec@[i].pos()) implies
            grid_contents(&g).contains(#[trigger] vec@[i]) by {
                assert(grid_contents(&g)[i] == vec@[i]);
            }
        }
        g
    }

    fn query_distance(&self, point: &V2, radius: i64) -> (res: Vec<T>) {
        let res = self.query_distance(point, radius);
        proof {
            crate::seq_facts::lemma_filter_congruent(
                grid_contents(self),
                |t: T| in_range(t.pos(), *point, radius as int),
                crate::particle::range_pred(*point, radius as int),
            );
        }
        res
    }
}

/// Any bucket key is backed by an entry in the occupied-cell list.
proof fn lemma_occupied_cell_listed<T: TreeValue>(g: &HashGrid<T>, key: u64, cx: i64, cy: i64)
    requires
        grid_wf(g),
        g.data@.contains_key(key),
        -0x8000_0000 <= cx < 0x8000_0000,
        -0x8000_0000 <= cy < 0x8000_0000,
        key == key_join(cx as int, cy as int),
        g.data@[key]@.len() > 0,
    ensures
        exists|w: int| 0 <= w < g.cells@.len() && (#[trigger] g.cells@[w]) == (cx, cy),
{
    let idx = g.data@[key]@[0];
    assert(idx < g.points@.len());
    assert(grid_key(g.points@[idx as int].pos()) == key);
    let p = g.points@[idx as int].pos();
    assert(g.cells@.contains(cell_pair_of(p)));
    let pair = cell_pair_of(p);
    assert(-0x8000_0000 <= pair.0 < 0x8000_0000 && -0x8000_0000 <= pair.1 < 0x8000_0000) by {
        let w = choose|w: int| 0 <= w < g.cells@.len() && g.cells@[w] == pair;
        assert(g.cells@[w] == pair);
    }
    lemma_key_join_inj(pair.0 as int, pair.1 as int, cx as int, cy as int);
    let w = choose|w: int| 0 <= w < g.cells@.len() && g.cells@[w] == pair;
    assert(g.cells@[w] == (cx, cy));
}

/// The occupied cells, in first-use order.
pub closed spec fn occupied_cells<T: TreeValue>(g: &HashGrid<T>) -> Seq<(i64, i64)> {
    g.cells@
}

/// The rectangle covered by a cell.
pub open spec fn cell_rect(c: (i64, i64)) -> Rect {
    Rect {
        x0: (c.0 * CELL_SIZE) as i64,
        y0: (c.1 * CELL_SIZE) as i64,
        x1: (c.0 * CELL_SIZE + CELL_SIZE) as i64,
        y1: (c.1 * CELL_SIZE + CELL_SIZE) as i64,
    }
}

} // verus!
