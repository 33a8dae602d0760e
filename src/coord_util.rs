use vstd::prelude::*;

verus! {

/// An axis-aligned integer box: along axis `d` it spans `lo[d] ..= hi[d]`.
pub struct Aabb {
    pub lo: Vec<i32>,
    pub hi: Vec<i32>,
}

impl Aabb {
    pub open spec fn dim(&self) -> nat {
        self.lo@.len()
    }

    /// Both bound vectors have one entry per axis and `lo <= hi` on every axis.
    pub open spec fn wf(&self) -> bool {
        &&& self.lo@.len() == self.hi@.len()
        &&& forall|d: int| 0 <= d < self.lo@.len() ==> self.lo@[d] <= self.hi@[d]
    }

    /// Number of grid points along axis `d`.
    pub open spec fn extent(&self, d: int) -> int {
        self.hi@[d] - self.lo@[d] + 1
    }

    /// Product of the extents of the first `n` axes.
    pub open spec fn size_upto(&self, n: nat) -> int
        decreases n,
    {
        if n == 0 {
            1
        } else {
            self.size_upto((n - 1) as nat) * self.extent(n - 1)
        }
    }

    /// Number of grid points in the box.
    pub open spec fn size(&self) -> int {
        self.size_upto(self.dim())
    }

    /// `c` has one entry per axis and lies inside the box on every axis.
    pub open spec fn contains(&self, c: Seq<i32>) -> bool {
        &&& self.lo@.len() == self.hi@.len()
        &&& c.len() == self.dim()
        &&& forall|d: int| 0 <= d < c.len() ==> self.lo@[d] <= #[trigger] c[d] <= self.hi@[d]
    }

    /// Row-major offset of `c` over the first `n` axes, the last of them varying fastest.
    pub open spec fn linear_upto(&self, c: Seq<i32>, n: nat) -> int
        decreases n,
    {
        if n == 0 {
            0
        } else {
            self.linear_upto(c, (n - 1) as nat) * self.extent(n - 1) + (c[n - 1] - self.lo@[n - 1])
        }
    }

    /// Row-major offset of `c` in the box.
    pub open spec fn linear(&self, c: Seq<i32>) -> int {
        self.linear_upto(c, self.dim())
    }

    /// The point of the first `n` axes whose row-major offset is `i`.
    pub open spec fn coord_upto(&self, i: int, n: nat) -> Seq<i32>
        decreases n,
    {
        if n == 0 {
            Seq::empty()
        } else {
            let e = self.extent(n - 1);
            self.coord_upto(i / e, (n - 1) as nat).push((self.lo@[n - 1] + i % e) as i32)
        }
    }

    /// The point of the box whose row-major offset is `i`.
    pub open spec fn coord_at(&self, i: int) -> Seq<i32> {
        self.coord_upto(i, self.dim())
    }
}

impl Aabb {
    /// Both boxes have the same bounds.
    pub open spec fn same_as(&self, o: &Aabb) -> bool {
        self.lo@ == o.lo@ && self.hi@ == o.hi@
    }

    /// A copy of the box.
    pub fn copy_box(&self) -> (r: Aabb)
        ensures
            r.same_as(self),
    {
        Aabb { lo: copy_coord(&self.lo), hi: copy_coord(&self.hi) }
    }

    /// This box with one more axis, spanning `0 ..= last`, appended.
    pub fn with_axis(&self, last: i32) -> (r: Aabb)
        ensures
            r.lo@ == self.lo@.push(0),
            r.hi@ == self.hi@.push(last),
    {
        let mut r = self.copy_box();
        r.lo.push(0);
        r.hi.push(last);
        r
    }
}

/// A copy of a coordinate vector.
pub fn copy_coord(v: &Vec<i32>) -> (r: Vec<i32>)
    ensures
        r@ == v@,
{
    let mut r: Vec<i32> = Vec::new();
    let mut i: usize = 0;
    while i < v.len()
        invariant
            i <= v@.len(),
            r@ == v@.subrange(0, i as int),
        decreases v@.len() - i,
    {
        r.push(v[i]);
        i = i + 1;
    }
    assert(v@.subrange(0, v@.len() as int) == v@);
    r
}

/// Two boxes that agree on their first `n` axes agree on sizes and offsets over them.
proof fn lemma_prefix_boxes(b1: &Aabb, b2: &Aabb, c1: Seq<i32>, c2: Seq<i32>, n: nat)
    requires
        n <= b1.lo@.len(),
        n <= b1.hi@.len(),
        n <= b2.lo@.len(),
        n <= b2.hi@.len(),
        n <= c1.len(),
        n <= c2.len(),
        forall|d: int| 0 <= d < n ==> #[trigger] b1.lo@[d] == b2.lo@[d],
        forall|d: int| 0 <= d < n ==> #[trigger] b1.hi@[d] == b2.hi@[d],
        forall|d: int| 0 <= d < n ==> #[trigger] c1[d] == c2[d],
    ensures
        b1.size_upto(n) == b2.size_upto(n),
        b1.linear_upto(c1, n) == b2.linear_upto(c2, n),
    decreases n,
{
    if n > 0 {
        lemma_prefix_boxes(b1, b2, c1, c2, (n - 1) as nat);
    }
}

/// Boxes with the same bounds have the same size, points and offsets.
pub proof fn lemma_same_box(b1: &Aabb, b2: &Aabb)
    requires
        b1.same_as(b2),
        b1.wf(),
    ensures
        b2.wf(),
        b1.dim() == b2.dim(),
        b1.size() == b2.size(),
        forall|c: Seq<i32>| #[trigger] b1.contains(c) == b2.contains(c),
        forall|c: Seq<i32>| b1.contains(c) ==> #[trigger] b1.linear(c) == b2.linear(c),
{
    lemma_prefix_boxes(b1, b2, b1.lo@, b1.lo@, b1.dim());
    assert forall|c: Seq<i32>| b1.contains(c) implies #[trigger] b1.linear(c) == b2.linear(c) by {
        lemma_prefix_boxes(b1, b2, c, c, b1.dim());
    }
}

/// Appending an axis `0 ..= k - 1` to a box: the size grows `k`-fold, and the
/// offset of a point extended by `q` is `k` times its old offset plus `q`.
pub proof fn lemma_append_axis(b: &Aabb, ext: &Aabb, k: int, c: Seq<i32>, q: int)
    requires
        b.wf(),
        k >= 1,
        ext.lo@ == b.lo@.push(0),
        k - 1 <= i32::MAX,
        ext.hi@ == b.hi@.push((k - 1) as i32),
    ensures
        ext.wf(),
        ext.size() == b.size() * k,
        b.contains(c) && 0 <= q < k ==> ext.contains(c.push(q as i32)) && ext.linear(c.push(q as i32))
            == b.linear(c) * k + q,
{
    let n = b.dim();
    lemma_prefix_boxes(b, ext, b.lo@, b.lo@, n);
    assert(ext.extent(n as int) == k);
    if b.contains(c) && 0 <= q < k {
        let e = ext;
        lemma_prefix_boxes(b, ext, c, c.push(q as i32), n);
        assert forall|d: int| 0 <= d < c.len() + 1 implies e.lo@[d] <= #[trigger] c.push(q as i32)[d]
            <= e.hi@[d] by {
            if d < c.len() {
                assert(c.push(q as i32)[d] == c[d]);
            }
        }
    }
}

proof fn lemma_mul_step_bound(a: int, big_a: int, t: int, e: int)
    requires
        0 <= a < big_a,
        0 <= t < e,
    ensures
        0 <= a * e + t < big_a * e,
        a * e <= big_a * e - e,
{
    assert(a * e + t < big_a * e && 0 <= a * e && a * e <= big_a * e - e) by (nonlinear_arith)
        requires
            0 <= a < big_a,
            0 <= t < e,
    ;
}

proof fn lemma_size_upto_pos(b: &Aabb, n: nat)
    requires
        b.wf(),
        n <= b.dim(),
    ensures
        b.size_upto(n) >= 1,
    decreases n,
{
    if n > 0 {
        lemma_size_upto_pos(b, (n - 1) as nat);
        let p = b.size_upto((n - 1) as nat);
        let e = b.extent(n - 1);
        assert(p * e >= 1) by (nonlinear_arith)
            requires
                p >= 1,
                e >= 1,
        ;
    }
}

/// The size of a box never shrinks as more axes are taken in.
pub proof fn lemma_size_upto_mono(b: &Aabb, m: nat, n: nat)
    requires
        b.wf(),
        m <= n <= b.dim(),
    ensures
        1 <= b.size_upto(m) <= b.size_upto(n),
    decreases n - m,
{
    lemma_size_upto_pos(b, m);
    if m < n {
        lemma_size_upto_mono(b, m, (n - 1) as nat);
        let p = b.size_upto((n - 1) as nat);
        let e = b.extent(n - 1);
        assert(p <= p * e) by (nonlinear_arith)
            requires
                p >= 1,
                e >= 1,
        ;
    }
}

/// Each extent divides into the size of a box, so it is no larger.
proof fn lemma_extent_le_size(b: &Aabb, d: int)
    requires
        b.wf(),
        0 <= d < b.dim(),
    ensures
        1 <= b.extent(d) <= b.size(),
{
    lemma_size_upto_mono(b, d as nat, (d + 1) as nat);
    lemma_size_upto_mono(b, (d + 1) as nat, b.dim());
    let p = b.size_upto(d as nat);
    let e = b.extent(d);
    assert(e <= p * e) by (nonlinear_arith)
        requires
            p >= 1,
            e >= 1,
    ;
}

/// The row-major offset over `n` axes reads the first `n` entries only.
proof fn lemma_linear_prefix(b: &Aabb, c1: Seq<i32>, c2: Seq<i32>, n: nat)
    requires
        n <= c1.len(),
        n <= c2.len(),
        forall|d: int| 0 <= d < n ==> c1[d] == c2[d],
    ensures
        b.linear_upto(c1, n) == b.linear_upto(c2, n),
    decreases n,
{
    if n > 0 {
        lemma_linear_prefix(b, c1, c2, (n - 1) as nat);
    }
}

proof fn lemma_linear_upto_bounds(b: &Aabb, c: Seq<i32>, n: nat)
    requires
        b.wf(),
        n <= b.dim(),
        n <= c.len(),
        forall|d: int| 0 <= d < n ==> b.lo@[d] <= #[trigger] c[d] <= b.hi@[d],
    ensures
        0 <= b.linear_upto(c, n) < b.size_upto(n),
    decreases n,
{
    if n > 0 {
        lemma_linear_upto_bounds(b, c, (n - 1) as nat);
        lemma_mul_step_bound(
            b.linear_upto(c, (n - 1) as nat),
            b.size_upto((n - 1) as nat),
            c[n - 1] - b.lo@[n - 1],
            b.extent(n - 1),
        );
    }
}

proof fn lemma_coord_upto_valid(b: &Aabb, i: int, n: nat)
    requires
        b.wf(),
        n <= b.dim(),
        0 <= i < b.size_upto(n),
    ensures
        b.coord_upto(i, n).len() == n,
        forall|d: int| 0 <= d < n ==> b.lo@[d] <= #[trigger] b.coord_upto(i, n)[d] <= b.hi@[d],
        b.linear_upto(b.coord_upto(i, n), n) == i,
    decreases n,
{
    if n > 0 {
        let e = b.extent(n - 1);
        let q = i / e;
        let r = i % e;
        let p = b.size_upto((n - 1) as nat);
        assert(q * e + r == i && 0 <= r < e && 0 <= q < p) by (nonlinear_arith)
            requires
                e >= 1,
                0 <= i < p * e,
                q == i / e,
                r == i % e,
        ;
        lemma_coord_upto_valid(b, q, (n - 1) as nat);
        let prev = b.coord_upto(q, (n - 1) as nat);
        let c = b.coord_upto(i, n);
        assert(c == prev.push((b.lo@[n - 1] + r) as i32));
        assert forall|d: int| 0 <= d < n implies b.lo@[d] <= #[trigger] c[d] <= b.hi@[d] by {
            if d < n - 1 {
                assert(c[d] == prev[d]);
            }
        }
        lemma_linear_prefix(b, c, prev, (n - 1) as nat);
    }
}

proof fn lemma_coord_upto_of_linear(b: &Aabb, c: Seq<i32>, n: nat)
    requires
        b.wf(),
        n <= b.dim(),
        n <= c.len(),
        forall|d: int| 0 <= d < n ==> b.lo@[d] <= #[trigger] c[d] <= b.hi@[d],
    ensures
        b.coord_upto(b.linear_upto(c, n), n) == c.subrange(0, n as int),
    decreases n,
{
    if n > 0 {
        let e = b.extent(n - 1);
        let prev = b.linear_upto(c, (n - 1) as nat);
        let t = c[n - 1] - b.lo@[n - 1];
        lemma_linear_upto_bounds(b, c, (n - 1) as nat);
        assert((prev * e + t) / e == prev && (prev * e + t) % e == t) by (nonlinear_arith)
            requires
                e >= 1,
                0 <= t < e,
                prev >= 0,
        ;
        lemma_coord_upto_of_linear(b, c, (n - 1) as nat);
        assert(c.subrange(0, n as int) == c.subrange(0, n - 1).push(c[n - 1]));
    }
}

/// Every offset below the size of the box names a point of the box, and that
/// point's row-major offset is the offset itself.
pub proof fn lemma_coord_at_valid(b: &Aabb, i: int)
    requires
        b.wf(),
        0 <= i < b.size(),
    ensures
        b.contains(b.coord_at(i)),
        b.linear(b.coord_at(i)) == i,
{
    lemma_coord_upto_valid(b, i, b.dim());
}

/// Row-major offsets of the points of a box lie in `[0, size)`.
pub proof fn lemma_linear_in_range(b: &Aabb, c: Seq<i32>)
    requires
        b.wf(),
        b.contains(c),
    ensures
        0 <= b.linear(c) < b.size(),
{
    lemma_linear_upto_bounds(b, c, b.dim());
}

/// Indexing round trip: offset to point and back gives the offset, and point to
/// offset and back gives the point.
pub proof fn lemma_index_round_trip(b: &Aabb, i: int, c: Seq<i32>)
    requires
        b.wf(),
    ensures
        0 <= i < b.size() ==> b.linear(b.coord_at(i)) == i,
        b.contains(c) ==> b.coord_at(b.linear(c)) == c,
{
    if 0 <= i < b.size() {
        lemma_coord_at_valid(b, i);
    }
    if b.contains(c) {
        lemma_coord_upto_of_linear(b, c, b.dim());
        assert(c.subrange(0, c.len() as int) == c);
    }
}

/// Distinct points of a box have distinct row-major offsets.
pub proof fn lemma_linear_injective(b: &Aabb, c1: Seq<i32>, c2: Seq<i32>)
    requires
        b.wf(),
        b.contains(c1),
        b.contains(c2),
        b.linear(c1) == b.linear(c2),
    ensures
        c1 == c2,
{
    lemma_index_round_trip(b, 0, c1);
    lemma_index_round_trip(b, 0, c2);
}

/// Number of grid points along axis `d`, computed without overflow.
fn axis_extent(b: &Aabb, d: usize) -> (r: i64)
    requires
        b.wf(),
        d < b.dim(),
    ensures
        r == b.extent(d as int),
        r >= 1,
{
    b.hi[d] as i64 - b.lo[d] as i64 + 1
}

/// Row-major offset of `coord` in `b`, the last axis varying fastest.
pub fn coord_to_linear_in_box(coord: &Vec<i32>, b: &Aabb) -> (r: usize)
    requires
        b.wf(),
        b.contains(coord@),
        b.size() <= usize::MAX,
    ensures
        r == b.linear(coord@),
        r < b.size(),
{
    let n = b.lo.len();
    let mut acc: usize = 0;
    let mut d: usize = 0;
    while d < n
        invariant
            b.wf(),
            b.contains(coord@),
            b.size() <= usize::MAX,
            n == b.dim(),
            d <= n,
            acc == b.linear_upto(coord@, d as nat),
            acc < b.size_upto(d as nat),
        decreases n - d,
    {
        let e = axis_extent(b, d);
        let t = coord[d] as i64 - b.lo[d] as i64;
        proof {
            lemma_size_upto_mono(b, (d + 1) as nat, n as nat);
            lemma_mul_step_bound(acc as int, b.size_upto(d as nat), t as int, e as int);
        }
        acc = acc * (e as usize) + t as usize;
        d = d + 1;
    }
    acc
}

/// The point of `b` whose row-major offset is `index`.
pub fn linear_to_coord_in_box(index: usize, b: &Aabb) -> (r: Vec<i32>)
    requires
        b.wf(),
        index < b.size(),
        b.size() <= usize::MAX,
    ensures
        r@ == b.coord_at(index as int),
        b.contains(r@),
        b.linear(r@) == index,
{
    let n = b.lo.len();
    let mut r: Vec<i32> = Vec::new();
    let mut k: usize = 0;
    while k < n
        invariant
            k <= n,
            r@.len() == k,
        decreases n - k,
    {
        r.push(0);
        k = k + 1;
    }
    let mut idx: usize = index;
    let mut d: usize = n;
    while d > 0
        invariant
            b.wf(),
            b.size() <= usize::MAX,
            n == b.dim(),
            d <= n,
            r@.len() == n,
            b.coord_at(index as int) == b.coord_upto(idx as int, d as nat) + r@.subrange(
                d as int,
                n as int,
            ),
        decreases d,
    {
        let e = axis_extent(b, d - 1);
        proof {
            lemma_extent_le_size(b, d - 1);
        }
        let eu = e as usize;
        let v = b.lo[d - 1] as i64 + (idx % eu) as i64;
        proof {
            assert(0 <= idx % eu < eu);
            assert(v <= b.hi@[d - 1]);
        }
        let ghost old_r = r@;
        let ghost old_idx = idx;
        r.set(d - 1, v as i32);
        idx = idx / eu;
        proof {
            assert(b.coord_upto(old_idx as int, d as nat) == b.coord_upto(idx as int, (d - 1) as nat).push(
                v as i32,
            ));
            assert(r@.subrange(d - 1, n as int) == seq![v as i32] + old_r.subrange(d as int, n as int));
            assert(b.coord_upto(idx as int, (d - 1) as nat).push(v as i32) + old_r.subrange(
                d as int,
                n as int,
            ) == b.coord_upto(idx as int, (d - 1) as nat) + r@.subrange(d - 1, n as int));
        }
        d = d - 1;
    }
    proof {
        assert(r@.subrange(0, n as int) == r@);
        assert(b.coord_upto(idx as int, 0) + r@ == r@);
        lemma_coord_at_valid(b, index as int);
    }
    r
}

/// Product of the first `n` entries of `s`.
pub open spec fn product_upto(s: Seq<i32>, n: nat) -> int
    decreases n,
{
    if n == 0 {
        1
    } else {
        product_upto(s, (n - 1) as nat) * s[n - 1]
    }
}

/// Whether `b` has one upper bound per lower bound and `lo <= hi` on every axis.
pub fn box_is_well_formed(b: &Aabb) -> (r: bool)
    ensures
        r == b.wf(),
{
    let n = b.lo.len();
    if b.hi.len() != n {
        return false;
    }
    let mut k: usize = 0;
    while k < n
        invariant
            n == b.lo@.len(),
            n == b.hi@.len(),
            k <= n,
            forall|d: int| 0 <= d < k ==> b.lo@[d] <= #[trigger] b.hi@[d],
        decreases n - k,
    {
        if b.lo[k] > b.hi[k] {
            return false;
        }
        k = k + 1;
    }
    true
}

/// The number of grid points in `view_box`, or `None` where the box is
/// malformed or its point count does not fit in `usize`.
pub fn checked_box_size(view_box: &Aabb) -> (r: Option<usize>)
    ensures
        r is Some <==> view_box.wf() && view_box.size() <= usize::MAX,
        r matches Some(n) ==> n == view_box.size(),
{
    if !box_is_well_formed(view_box) {
        return None;
    }
    let n = view_box.lo.len();
    let mut acc: usize = 1;
    let mut d: usize = 0;
    while d < n
        invariant
            view_box.wf(),
            n == view_box.dim(),
            d <= n,
            acc == view_box.size_upto(d as nat),
        decreases n - d,
    {
        let e = axis_extent(view_box, d);
        proof {
            lemma_size_upto_mono(view_box, (d + 1) as nat, n as nat);
            lemma_size_upto_mono(view_box, d as nat, n as nat);
        }
        if e as u64 > usize::MAX as u64 || acc > usize::MAX / (e as usize) {
            proof {
                let p = acc as int;
                let ei = e as int;
                assert(p * ei > usize::MAX) by (nonlinear_arith)
                    requires
                        p >= 1,
                        ei >= 1,
                        ei > usize::MAX || p > usize::MAX as int / ei,
                ;
                if n > d + 1 {
                    lemma_size_upto_mono(view_box, (d + 1) as nat, n as nat);
                }
            }
            return None;
        }
        let eu = e as usize;
        assert(acc * eu <= usize::MAX) by (nonlinear_arith)
            requires
                eu >= 1,
                acc as int <= usize::MAX as int / (eu as int),
        ;
        acc = acc * eu;
        d = d + 1;
    }
    Some(acc)
}

/// The number of grid points in `view_box`.
pub fn box_buffer_size(view_box: &Aabb) -> (r: usize)
    requires
        view_box.wf(),
        view_box.size() <= usize::MAX,
    ensures
        r == view_box.size(),
{
    match checked_box_size(view_box) {
        Some(n) => n,
        None => 0,
    }
}

/// The number of cells of a grid whose extents are `space_size`: the product of its entries.
pub fn real_buffer_size(space_size: &Vec<i32>) -> (r: usize)
    requires
        forall|d: int| 0 <= d < space_size@.len() ==> 1 <= #[trigger] space_size@[d],
        product_upto(space_size@, space_size@.len()) <= usize::MAX,
    ensures
        r == product_upto(space_size@, space_size@.len()),
{
    let n = space_size.len();
    let mut acc: usize = 1;
    let mut d: usize = 0;
    while d < n
        invariant
            n == space_size@.len(),
            d <= n,
            forall|k: int| 0 <= k < n ==> 1 <= #[trigger] space_size@[k],
            product_upto(space_size@, n as nat) <= usize::MAX,
            acc == product_upto(space_size@, d as nat),
        decreases n - d,
    {
        proof {
            lemma_product_mono(space_size@, (d + 1) as nat, n as nat);
        }
        acc = acc * (space_size[d] as usize);
        d = d + 1;
    }
    acc
}

proof fn lemma_product_mono(s: Seq<i32>, m: nat, n: nat)
    requires
        m <= n <= s.len(),
        forall|d: int| 0 <= d < s.len() ==> 1 <= #[trigger] s[d],
    ensures
        1 <= product_upto(s, m) <= product_upto(s, n),
    decreases n,
{
    if n > 0 {
        if m < n {
            lemma_product_mono(s, m, (n - 1) as nat);
        } else {
            lemma_product_mono(s, (n - 1) as nat, (n - 1) as nat);
        }
        let p = product_upto(s, (n - 1) as nat);
        let e = s[n - 1] as int;
        assert(p <= p * e && 1 <= p * e) by (nonlinear_arith)
            requires
                p >= 1,
                e >= 1,
        ;
    }
}

/// Whether `coord` has one entry per axis of `aabb` and lies inside it.
pub fn box_contains_coord(aabb: &Aabb, coord: &Vec<i32>) -> (r: bool)
    ensures
        r == aabb.contains(coord@),
{
    let n = aabb.lo.len();
    if aabb.hi.len() != n || coord.len() != n {
        return false;
    }
    let mut d: usize = 0;
    while d < n
        invariant
            n == aabb.lo@.len(),
            n == aabb.hi@.len(),
            n == coord@.len(),
            d <= n,
            forall|k: int| 0 <= k < d ==> aabb.lo@[k] <= #[trigger] coord@[k] <= aabb.hi@[k],
        decreases n - d,
    {
        if coord[d] < aabb.lo[d] || coord[d] > aabb.hi[d] {
            return false;
        }
        d = d + 1;
    }
    true
}

} // verus!
