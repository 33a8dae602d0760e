use crate::coord_util::{box_buffer_size, coord_to_linear_in_box, linear_to_coord_in_box, Aabb};
use vstd::prelude::*;

verus! {

/// Number of unit cells spanned by the first `n` axes of `b`: the product of
/// `hi - lo` over them.
pub open spec fn cell_count_upto(b: &Aabb, n: nat) -> int
    decreases n,
{
    if n == 0 {
        1
    } else {
        cell_count_upto(b, (n - 1) as nat) * (b.hi@[n - 1] - b.lo@[n - 1])
    }
}

/// Number of unit cells of the grid `b`.
pub open spec fn cell_count_of(b: &Aabb) -> int {
    cell_count_upto(b, b.dim())
}

/// Row-major index, over the first `n` axes, of the cell whose lowest corner is `c`.
pub open spec fn cell_linear_upto(b: &Aabb, c: Seq<i32>, n: nat) -> int
    decreases n,
{
    if n == 0 {
        0
    } else {
        cell_linear_upto(b, c, (n - 1) as nat) * (b.hi@[n - 1] - b.lo@[n - 1]) + (c[n - 1] - b.lo@[n
            - 1])
    }
}

/// Row-major index of the cell whose lowest corner is `c`.
pub open spec fn cell_linear(b: &Aabb, c: Seq<i32>) -> int {
    cell_linear_upto(b, c, b.dim())
}

/// `c` is the lowest corner of a unit cell of `b`: inside it and below its upper bound on every axis.
pub open spec fn is_corner(b: &Aabb, c: Seq<i32>) -> bool {
    &&& b.lo@.len() == b.hi@.len()
    &&& c.len() == b.dim()
    &&& forall|d: int| 0 <= d < c.len() ==> b.lo@[d] <= #[trigger] c[d] < b.hi@[d]
}

/// Offset of vertex `v` (0 to 7) of a hexahedral cell from its lowest corner,
/// in the winding order of the connectivity table.
pub open spec fn hex_vertex(v: int) -> (int, int, int) {
    if v == 0 {
        (0, 0, 0)
    } else if v == 1 {
        (1, 0, 0)
    } else if v == 2 {
        (1, 0, 1)
    } else if v == 3 {
        (0, 0, 1)
    } else if v == 4 {
        (0, 1, 0)
    } else if v == 5 {
        (1, 1, 0)
    } else if v == 6 {
        (1, 1, 1)
    } else {
        (0, 1, 1)
    }
}

/// Vertex `v` of the cell whose lowest corner is `c`.
pub open spec fn vertex_of(c: Seq<i32>, v: int) -> Seq<i32> {
    seq![
        (c[0] + hex_vertex(v).0) as i32,
        (c[1] + hex_vertex(v).1) as i32,
        (c[2] + hex_vertex(v).2) as i32,
    ]
}

/// Offset of vertex `v` of a hexahedral cell from its lowest corner.
fn hex_vertex_offset(v: usize) -> (r: (i32, i32, i32))
    requires
        v < 8,
    ensures
        r.0 == hex_vertex(v as int).0,
        r.1 == hex_vertex(v as int).1,
        r.2 == hex_vertex(v as int).2,
{
    if v == 0 {
        (0, 0, 0)
    } else if v == 1 {
        (1, 0, 0)
    } else if v == 2 {
        (1, 0, 1)
    } else if v == 3 {
        (0, 0, 1)
    } else if v == 4 {
        (0, 1, 0)
    } else if v == 5 {
        (1, 1, 0)
    } else if v == 6 {
        (1, 1, 1)
    } else {
        (0, 1, 1)
    }
}

/// A box one short of `b` on every upper bound spans the cells of `b`.
proof fn lemma_cell_box(b: &Aabb, cb: &Aabb, c: Seq<i32>, n: nat)
    requires
        b.lo@.len() == b.hi@.len(),
        cb.lo@ == b.lo@,
        cb.hi@.len() == b.hi@.len(),
        forall|d: int| 0 <= d < b.hi@.len() ==> #[trigger] cb.hi@[d] == b.hi@[d] - 1,
        n <= b.dim(),
    ensures
        cb.size_upto(n) == cell_count_upto(b, n),
        cb.linear_upto(c, n) == cell_linear_upto(b, c, n),
    decreases n,
{
    if n > 0 {
        lemma_cell_box(b, cb, c, (n - 1) as nat);
    }
}

/// The cell box of `b`, one short of it on every upper bound, where `b` has
/// at least one cell; `None` where some axis is flat.
fn cell_bounds(b: &Aabb) -> (r: Option<Aabb>)
    requires
        b.wf(),
    ensures
        r is Some <==> forall|d: int| 0 <= d < b.dim() ==> #[trigger] b.lo@[d] < b.hi@[d],
        r matches Some(cb) ==> {
            &&& cb.wf()
            &&& cb.lo@ == b.lo@
            &&& cb.hi@.len() == b.hi@.len()
            &&& forall|d: int| 0 <= d < b.hi@.len() ==> #[trigger] cb.hi@[d] == b.hi@[d] - 1
        },
{
    let n = b.lo.len();
    let mut lo: Vec<i32> = Vec::new();
    let mut hi: Vec<i32> = Vec::new();
    let mut d: usize = 0;
    while d < n
        invariant
            b.wf(),
            n == b.dim(),
            d <= n,
            lo@ == b.lo@.subrange(0, d as int),
            hi@.len() == d,
            forall|k: int| 0 <= k < d ==> #[trigger] b.lo@[k] < b.hi@[k],
            forall|k: int| 0 <= k < d ==> #[trigger] hi@[k] == b.hi@[k] - 1,
        decreases n - d,
    {
        if b.lo[d] >= b.hi[d] {
            return None;
        }
        lo.push(b.lo[d]);
        hi.push(b.hi[d] - 1);
        d = d + 1;
    }
    assert(b.lo@.subrange(0, n as int) == b.lo@);
    Some(Aabb { lo, hi })
}

/// Every point of the grid `b`, in row-major order.
pub fn coord_iter(aabb: &Aabb) -> (r: Vec<Vec<i32>>)
    requires
        aabb.wf(),
        aabb.size() <= usize::MAX,
    ensures
        r@.len() == aabb.size(),
        forall|i: int| 0 <= i < r@.len() ==> (#[trigger] r@[i])@ == aabb.coord_at(i),
{
    let size = box_buffer_size(aabb);
    let mut r: Vec<Vec<i32>> = Vec::new();
    let mut i: usize = 0;
    while i < size
        invariant
            aabb.wf(),
            aabb.size() <= usize::MAX,
            size == aabb.size(),
            i <= size,
            r@.len() == i,
            forall|k: int| 0 <= k < i ==> (#[trigger] r@[k])@ == aabb.coord_at(k),
        decreases size - i,
    {
        r.push(linear_to_coord_in_box(i, aabb));
        i = i + 1;
    }
    r
}

/// Number of unit cells of the grid `aabb`; zero where some axis is flat.
pub fn cell_count(aabb: &Aabb) -> (r: usize)
    requires
        aabb.wf(),
        aabb.size() <= usize::MAX,
    ensures
        r == cell_count_of(aabb),
{
    match cell_bounds(aabb) {
        None => {
            proof {
                lemma_cell_count_zero(aabb, aabb.dim());
            }
            0
        },
        Some(cb) => {
            proof {
                lemma_cell_box(aabb, &cb, cb.lo@, cb.dim());
                lemma_cells_le_points(aabb, &cb);
            }
            box_buffer_size(&cb)
        },
    }
}

proof fn lemma_cell_count_zero(b: &Aabb, n: nat)
    requires
        b.wf(),
        n <= b.dim(),
    ensures
        (exists|d: int| 0 <= d < n && b.lo@[d] == b.hi@[d]) ==> cell_count_upto(b, n) == 0,
    decreases n,
{
    if n > 0 {
        lemma_cell_count_zero(b, (n - 1) as nat);
        let p = cell_count_upto(b, (n - 1) as nat);
        if b.lo@[n - 1] == b.hi@[n - 1] {
            assert(p * 0 == 0) by (nonlinear_arith);
        }
    }
}

/// A grid has no more cells than points.
proof fn lemma_cells_le_points(b: &Aabb, cb: &Aabb)
    requires
        b.wf(),
        cb.wf(),
        cb.lo@ == b.lo@,
        cb.hi@.len() == b.hi@.len(),
        forall|d: int| 0 <= d < b.hi@.len() ==> #[trigger] cb.hi@[d] == b.hi@[d] - 1,
    ensures
        cb.size() <= b.size(),
{
    lemma_cells_le_points_upto(b, cb, b.dim());
}

proof fn lemma_cells_le_points_upto(b: &Aabb, cb: &Aabb, n: nat)
    requires
        b.wf(),
        cb.wf(),
        cb.lo@ == b.lo@,
        cb.hi@.len() == b.hi@.len(),
        forall|d: int| 0 <= d < b.hi@.len() ==> #[trigger] cb.hi@[d] == b.hi@[d] - 1,
        n <= b.dim(),
    ensures
        1 <= cb.size_upto(n) <= b.size_upto(n),
    decreases n,
{
    if n > 0 {
        lemma_cells_le_points_upto(b, cb, (n - 1) as nat);
        let p = cb.size_upto((n - 1) as nat);
        let q = b.size_upto((n - 1) as nat);
        let e1 = cb.extent(n - 1);
        let e2 = b.extent(n - 1);
        assert(1 <= p * e1 <= q * e2) by (nonlinear_arith)
            requires
                1 <= p <= q,
                1 <= e1 <= e2,
        ;
    }
}

/// The lowest corner of every unit cell of the grid `aabb`, in row-major order
/// of the cells.
pub fn cell_coord_iter(aabb: &Aabb) -> (r: Vec<Vec<i32>>)
    requires
        aabb.wf(),
        aabb.size() <= usize::MAX,
    ensures
        r@.len() == cell_count_of(aabb),
        forall|i: int|
            0 <= i < r@.len() ==> is_corner(aabb, (#[trigger] r@[i])@) && cell_linear(aabb, r@[i]@)
                == i,
{
    let mut r: Vec<Vec<i32>> = Vec::new();
    match cell_bounds(aabb) {
        None => {
            proof {
                lemma_cell_count_zero(aabb, aabb.dim());
            }
            r
        },
        Some(cb) => {
            proof {
                lemma_cell_box(aabb, &cb, cb.lo@, cb.dim());
                lemma_cells_le_points(aabb, &cb);
            }
            let n = box_buffer_size(&cb);
            let mut i: usize = 0;
            while i < n
                invariant
                    cb.wf(),
                    aabb.wf(),
                    cb.lo@ == aabb.lo@,
                    cb.hi@.len() == aabb.hi@.len(),
                    forall|d: int| 0 <= d < aabb.hi@.len() ==> #[trigger] cb.hi@[d] == aabb.hi@[d] - 1,
                    cb.size() <= usize::MAX,
                    n == cb.size(),
                    i <= n,
                    r@.len() == i,
                    forall|k: int|
                        0 <= k < i ==> is_corner(aabb, (#[trigger] r@[k])@) && cell_linear(aabb, r@[k]@)
                            == k,
                decreases n - i,
            {
                let c = linear_to_coord_in_box(i, &cb);
                proof {
                    lemma_cell_box(aabb, &cb, c@, cb.dim());
                }
                r.push(c);
                i = i + 1;
            }
            r
        },
    }
}

proof fn lemma_corner_unique_upto(b: &Aabb, c1: Seq<i32>, c2: Seq<i32>, n: nat)
    requires
        is_corner(b, c1),
        is_corner(b, c2),
        n <= b.dim(),
        cell_linear_upto(b, c1, n) == cell_linear_upto(b, c2, n),
    ensures
        0 <= cell_linear_upto(b, c1, n) < cell_count_upto(b, n),
        forall|d: int| 0 <= d < n ==> #[trigger] c1[d] == c2[d],
    decreases n,
{
    if n > 0 {
        let m = (n - 1) as nat;
        let e = b.hi@[n - 1] - b.lo@[n - 1];
        let t1 = c1[n - 1] - b.lo@[n - 1];
        let t2 = c2[n - 1] - b.lo@[n - 1];
        let a1 = cell_linear_upto(b, c1, m);
        let a2 = cell_linear_upto(b, c2, m);
        lemma_corner_range(b, c1, m);
        lemma_corner_range(b, c2, m);
        assert(a1 == a2 && t1 == t2) by (nonlinear_arith)
            requires
                a1 * e + t1 == a2 * e + t2,
                0 <= t1 < e,
                0 <= t2 < e,
                a1 >= 0,
                a2 >= 0,
        ;
        lemma_corner_unique_upto(b, c1, c2, m);
        let p = cell_count_upto(b, m);
        assert(0 <= a1 * e + t1 < p * e) by (nonlinear_arith)
            requires
                0 <= a1 < p,
                0 <= t1 < e,
        ;
    }
}

proof fn lemma_corner_range(b: &Aabb, c: Seq<i32>, n: nat)
    requires
        is_corner(b, c),
        n <= b.dim(),
    ensures
        0 <= cell_linear_upto(b, c, n) < cell_count_upto(b, n),
    decreases n,
{
    if n > 0 {
        let m = (n - 1) as nat;
        lemma_corner_range(b, c, m);
        let e = b.hi@[n - 1] - b.lo@[n - 1];
        let t = c[n - 1] - b.lo@[n - 1];
        let a = cell_linear_upto(b, c, m);
        let p = cell_count_upto(b, m);
        assert(0 <= a * e + t < p * e) by (nonlinear_arith)
            requires
                0 <= a < p,
                0 <= t < e,
        ;
    }
}

/// Distinct cell corners have distinct cell indices, each below the cell count.
proof fn lemma_corner_unique(b: &Aabb, c1: Seq<i32>, c2: Seq<i32>)
    requires
        is_corner(b, c1),
        is_corner(b, c2),
        cell_linear(b, c1) == cell_linear(b, c2),
    ensures
        0 <= cell_linear(b, c1) < cell_count_of(b),
        c1 == c2,
{
    lemma_corner_unique_upto(b, c1, c2, b.dim());
    assert(c1 =~= c2);
}

/// Hexahedral connectivity of the grid `grid`: for each unit cell, in
/// row-major order, the point indices of its eight vertices in the order of
/// `hex_vertex`.
pub fn hex_connectivity(grid: &Aabb) -> (r: Vec<u64>)
    requires
        grid.wf(),
        grid.dim() == 3,
        grid.size() <= usize::MAX,
    ensures
        r@.len() == 8 * cell_count_of(grid),
        forall|c: Seq<i32>, v: int|
            is_corner(grid, c) && 0 <= v < 8 ==> #[trigger] r@[8 * cell_linear(grid, c) + v] == grid.linear(
                vertex_of(c, v),
            ),
{
    let corners = cell_coord_iter(grid);
    let mut r: Vec<u64> = Vec::new();
    let mut i: usize = 0;
    while i < corners.len()
        invariant
            grid.wf(),
            grid.dim() == 3,
            grid.size() <= usize::MAX,
            corners@.len() == cell_count_of(grid),
            forall|k: int|
                0 <= k < corners@.len() ==> is_corner(grid, (#[trigger] corners@[k])@) && cell_linear(
                    grid,
                    corners@[k]@,
                ) == k,
            i <= corners@.len(),
            r@.len() == 8 * i,
            forall|k: int, v: int|
                0 <= k < i && 0 <= v < 8 ==> #[trigger] r@[8 * k + v] == grid.linear(
                    vertex_of(corners@[k]@, v),
                ),
        decreases corners@.len() - i,
    {
        let c = &corners[i];
        assert(is_corner(grid, c@));
        let mut v: usize = 0;
        while v < 8
            invariant
                grid.wf(),
                grid.dim() == 3,
                grid.size() <= usize::MAX,
                is_corner(grid, c@),
                c@ == corners@[i as int]@,
                i < corners@.len(),
                v <= 8,
                r@.len() == 8 * i + v,
                forall|k: int, w: int|
                    0 <= k < i && 0 <= w < 8 ==> #[trigger] r@[8 * k + w] == grid.linear(
                        vertex_of(corners@[k]@, w),
                    ),
                forall|w: int| 0 <= w < v ==> #[trigger] r@[8 * i + w] == grid.linear(vertex_of(c@, w)),
            decreases 8 - v,
        {
            let (dx, dy, dz) = hex_vertex_offset(v);
            let vert = vec![c[0] + dx, c[1] + dy, c[2] + dz];
            proof {
                assert(vert@ =~= vertex_of(c@, v as int));
            }
            let index = coord_to_linear_in_box(&vert, grid);
            r.push(index as u64);
            v = v + 1;
        }
        i = i + 1;
    }
    proof {
        assert forall|c: Seq<i32>, v: int| is_corner(grid, c) && 0 <= v < 8 implies #[trigger] r@[8
            * cell_linear(grid, c) + v] == grid.linear(vertex_of(c, v)) by {
            lemma_corner_range(grid, c, grid.dim());
            let k = cell_linear(grid, c);
            assert(is_corner(grid, corners@[k]@) && cell_linear(grid, corners@[k]@) == k);
            lemma_corner_unique(grid, c, corners@[k]@);
        }
    }
    r
}

} // verus!
