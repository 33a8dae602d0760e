use crate::array4d::{Array3D, Array4D, VelArray};
use crate::coord_util::{
    box_buffer_size, box_is_well_formed, checked_box_size, lemma_append_axis,
    lemma_index_round_trip, lemma_linear_in_range, lemma_linear_injective, lemma_same_box, linear_to_coord_in_box, Aabb,
};
use crate::lattice::{d3q27_offset, d3q27_opp, lemma_lattice_symmetry, offset_axis, opp_of};
use vstd::prelude::*;

verus! {

/// Why a solver could not be built.
#[derive(Debug, Clone, Copy, PartialEq, Eq)]
pub enum SolverError {
    /// The domain is not a 3-axis box with `lo <= hi` on every axis.
    MalformedBox,
    /// The distribution array of the domain would not fit in memory addressing.
    TooLarge,
}

/// Point `c` moved by `sign` times the offset of direction `q`.
pub open spec fn shift(c: Seq<i32>, q: int, sign: int) -> Seq<i32> {
    seq![
        (c[0] + sign * offset_axis(q, 0)) as i32,
        (c[1] + sign * offset_axis(q, 1)) as i32,
        (c[2] + sign * offset_axis(q, 2)) as i32,
    ]
}

/// Point `c` moved by `sign` times the offset of direction `q` lies in `b`.
pub open spec fn shift_in(b: Aabb, c: Seq<i32>, q: int, sign: int) -> bool {
    &&& b.lo@[0] <= c[0] + sign * offset_axis(q, 0) <= b.hi@[0]
    &&& b.lo@[1] <= c[1] + sign * offset_axis(q, 1) <= b.hi@[1]
    &&& b.lo@[2] <= c[2] + sign * offset_axis(q, 2) <= b.hi@[2]
}

/// Moving a point of a box forth along a direction and back returns it, and
/// the other way round.
pub proof fn lemma_shift_round_trip(b: Aabb, c: Seq<i32>, q: int, sign: int)
    requires
        b.wf(),
        b.dim() == 3,
        b.contains(c),
        shift_in(b, c, q, sign),
        sign == 1 || sign == -1,
        0 <= q < 27,
    ensures
        b.contains(shift(c, q, sign)),
        shift_in(b, shift(c, q, sign), q, -sign),
        shift(shift(c, q, sign), q, -sign) == c,
{
    let s = shift(c, q, sign);
    assert(s.len() == 3);
    if sign == 1 {
        assert(s[0] == c[0] + offset_axis(q, 0));
        assert(s[1] == c[1] + offset_axis(q, 1));
        assert(s[2] == c[2] + offset_axis(q, 2));
    } else {
        assert(s[0] == c[0] - offset_axis(q, 0));
        assert(s[1] == c[1] - offset_axis(q, 1));
        assert(s[2] == c[2] - offset_axis(q, 2));
    }
    assert(shift(s, q, -sign) =~= c);
}

/// The neighbour of `coord` along direction `q`, where it lies in `grid`.
fn neighbor(grid: &Aabb, coord: &Vec<i32>, q: usize) -> (r: Option<Vec<i32>>)
    requires
        grid.wf(),
        grid.dim() == 3,
        grid.contains(coord@),
        q < 27,
    ensures
        r is Some <==> shift_in(*grid, coord@, q as int, 1),
        r matches Some(n) ==> n@ == shift(coord@, q as int, 1),
{
    let (ox, oy, oz) = d3q27_offset(q);
    let x = coord[0] as i64 + ox as i64;
    let y = coord[1] as i64 + oy as i64;
    let z = coord[2] as i64 + oz as i64;
    if x < grid.lo[0] as i64 || x > grid.hi[0] as i64 || y < grid.lo[1] as i64 || y > grid.hi[1] as i64
        || z < grid.lo[2] as i64 || z > grid.hi[2] as i64 {
        return None;
    }
    let n = vec![x as i32, y as i32, z as i32];
    proof {
        assert(n@ =~= shift(coord@, q as int, 1));
    }
    Some(n)
}

proof fn lemma_slot_split(a: int, k: int, b: int, q: int)
    requires
        a * 27 + k == b * 27 + q,
        0 <= k < 27,
        0 <= q < 27,
    ensures
        a == b,
        k == q,
{
    assert(a == b) by (nonlinear_arith)
        requires
            a * 27 + k == b * 27 + q,
            0 <= k < 27,
            0 <= q < 27,
    ;
}

/// `buf` with the 27 slots from `base` permuted by the opposite-direction table:
/// slot `base + q` takes the value of slot `base + opp(q)`.
pub open spec fn bounced<T>(buf: Seq<T>, base: int) -> Seq<T> {
    Seq::new(
        buf.len(),
        |k: int|
            if base <= k < base + 27 {
                buf[base + opp_of(k - base)]
            } else {
                buf[k]
            },
    )
}

/// Bounce-back is an involution: reflecting a cell's distributions twice
/// restores them.
pub proof fn lemma_bounce_back_involution<T>(buf: Seq<T>, base: int)
    requires
        0 <= base,
        base + 27 <= buf.len(),
    ensures
        bounced(bounced(buf, base), base) == buf,
{
    lemma_lattice_symmetry();
    assert forall|k: int| 0 <= k < buf.len() implies #[trigger] bounced(bounced(buf, base), base)[k]
        == buf[k] by {
        if base <= k < base + 27 {
            assert(opp_of(opp_of(k - base)) == k - base);
        }
    }
    assert(bounced(bounced(buf, base), base) =~= buf);
}

/// Cell `c` lies on a face of `g`: on some axis it sits at the lower or upper bound.
pub open spec fn on_boundary(g: Aabb, c: Seq<i32>) -> bool {
    ||| c[0] == g.lo@[0]
    ||| c[0] == g.hi@[0]
    ||| c[1] == g.lo@[1]
    ||| c[1] == g.hi@[1]
    ||| c[2] == g.lo@[2]
    ||| c[2] == g.hi@[2]
}

/// Whether `c` lies on a face of `g`.
fn is_boundary_cell(g: &Aabb, c: &Vec<i32>) -> (r: bool)
    requires
        g.dim() == 3,
        g.contains(c@),
    ensures
        r == on_boundary(*g, c@),
{
    c[0] == g.lo[0] || c[0] == g.hi[0] || c[1] == g.lo[1] || c[1] == g.hi[1] || c[2] == g.lo[2]
        || c[2] == g.hi[2]
}

/// A D3Q27 solver's grid state: the distributions, their spare buffer for
/// streaming, the derived density and velocity fields, and the run parameters.
pub struct Solver<T, V> {
    pub grid_dimensions: Aabb,
    pub distributions: Array4D<T>,
    pub distributions_buffer: Array4D<T>,
    pub pressure: Array3D<T>,
    pub velocity: VelArray<V>,
    pub omega: T,
    pub c_sqr: T,
    pub inflow_density: T,
    pub inflow_accel: T,
}

/// Whether `a` spans `grid` with a direction axis `0 ..= 26` appended.
pub open spec fn spans_with_directions<T: Copy>(a: &Array4D<T>, grid: &Aabb) -> bool {
    &&& a.wf()
    &&& a.dimensions.lo@ == grid.lo@.push(0)
    &&& a.dimensions.hi@ == grid.hi@.push(26)
}

impl<T: Copy, V: Copy> Solver<T, V> {
    pub open spec fn wf(&self) -> bool {
        &&& self.grid_dimensions.wf()
        &&& self.grid_dimensions.dim() == 3
        &&& spans_with_directions(&self.distributions, &self.grid_dimensions)
        &&& spans_with_directions(&self.distributions_buffer, &self.grid_dimensions)
        &&& self.pressure.wf()
        &&& self.pressure.dimensions.same_as(&self.grid_dimensions)
        &&& self.velocity.wf()
        &&& self.velocity.dimensions.same_as(&self.grid_dimensions)
    }

    /// Distribution of direction `q` at cell `c`.
    pub open spec fn dist(&self, c: Seq<i32>, q: int) -> T {
        self.distributions.at(c.push(q as i32))
    }

    /// Spare-buffer value of direction `q` at cell `c`.
    pub open spec fn spare(&self, c: Seq<i32>, q: int) -> T {
        self.distributions_buffer.at(c.push(q as i32))
    }

    /// Number of cells in the grid.
    pub open spec fn cells(&self) -> int {
        self.grid_dimensions.size()
    }

    /// Index of the slot of direction `q` at cell `c` in a distribution buffer.
    pub open spec fn slot(&self, c: Seq<i32>, q: int) -> int {
        self.grid_dimensions.linear(c) * 27 + q
    }

    /// All but the distributions and the spare buffer are as in `o`.
    pub open spec fn same_fields_but_distributions(&self, o: &Self) -> bool {
        &&& self.grid_dimensions == o.grid_dimensions
        &&& self.pressure == o.pressure
        &&& self.velocity == o.velocity
        &&& self.omega == o.omega
        &&& self.c_sqr == o.c_sqr
        &&& self.inflow_density == o.inflow_density
        &&& self.inflow_accel == o.inflow_accel
    }

    /// The slots of a cell are the 27 consecutive buffer entries from `27 * linear(c)`.
    pub proof fn lemma_slot(&self, c: Seq<i32>, q: int)
        requires
            self.wf(),
        ensures
            self.distributions.dimensions.size() == self.cells() * 27,
            self.distributions_buffer.dimensions.size() == self.cells() * 27,
            self.grid_dimensions.contains(c) && 0 <= q < 27 ==> {
                &&& self.distributions.dimensions.contains(c.push(q as i32))
                &&& self.distributions.dimensions.linear(c.push(q as i32)) == self.slot(c, q)
                &&& self.distributions_buffer.dimensions.contains(c.push(q as i32))
                &&& self.distributions_buffer.dimensions.linear(c.push(q as i32)) == self.slot(c, q)
                &&& 0 <= self.grid_dimensions.linear(c) < self.cells()
                &&& 0 <= self.slot(c, q) < self.cells() * 27
            },
    {
        lemma_append_axis(&self.grid_dimensions, &self.distributions.dimensions, 27, c, q);
        lemma_append_axis(&self.grid_dimensions, &self.distributions_buffer.dimensions, 27, c, q);
        if self.grid_dimensions.contains(c) && 0 <= q < 27 {
            lemma_linear_in_range(&self.grid_dimensions, c);
        }
    }

    /// The distributions are those of `before` after one streaming sweep: each
    /// slot holds the value of the same direction at the cell one offset back,
    /// where that cell lies in the grid, and the spare value of `before` otherwise.
    pub open spec fn streamed_from(&self, before: &Self) -> bool {
        forall|n: Seq<i32>, q: int|
            before.grid_dimensions.contains(n) && 0 <= q < 27 ==> #[trigger] self.dist(n, q) == if shift_in(
                before.grid_dimensions,
                n,
                q,
                -1,
            ) {
                before.dist(shift(n, q, -1), q)
            } else {
                before.spare(n, q)
            }
    }

    /// Streaming only relocates values: a value whose neighbour along its
    /// direction lies in the grid arrives there unchanged, two distinct slots
    /// whose neighbours lie in the grid never arrive at the same slot, and every
    /// slot whose source cell lies in the grid receives its value from that
    /// source, whose neighbour it is.
    pub proof fn lemma_streaming_relocates(
        before: &Self,
        after: &Self,
        c: Seq<i32>,
        q: int,
        c2: Seq<i32>,
        q2: int,
        n: Seq<i32>,
        k: int,
    )
        requires
            before.wf(),
            after.streamed_from(before),
            before.grid_dimensions.contains(c),
            0 <= q < 27,
            shift_in(before.grid_dimensions, c, q, 1),
        ensures
            before.grid_dimensions.contains(shift(c, q, 1)),
            after.dist(shift(c, q, 1), q) == before.dist(c, q),
            before.grid_dimensions.contains(c2) && 0 <= q2 < 27 && shift_in(
                before.grid_dimensions,
                c2,
                q2,
                1,
            ) && (c2 != c || q2 != q) ==> before.slot(shift(c2, q2, 1), q2) != before.slot(
                shift(c, q, 1),
                q,
            ),
            before.grid_dimensions.contains(n) && 0 <= k < 27 && shift_in(
                before.grid_dimensions,
                n,
                k,
                -1,
            ) ==> {
                &&& before.grid_dimensions.contains(shift(n, k, -1))
                &&& shift_in(before.grid_dimensions, shift(n, k, -1), k, 1)
                &&& shift(shift(n, k, -1), k, 1) == n
                &&& after.dist(n, k) == before.dist(shift(n, k, -1), k)
            },
    {
        let g = before.grid_dimensions;
        if g.contains(n) && 0 <= k < 27 && shift_in(g, n, k, -1) {
            lemma_shift_round_trip(g, n, k, -1);
        }
        lemma_shift_round_trip(g, c, q, 1);
        assert(after.dist(shift(c, q, 1), q) == before.dist(shift(shift(c, q, 1), q, -1), q));
        if g.contains(c2) && 0 <= q2 < 27 && shift_in(g, c2, q2, 1) && before.slot(shift(c2, q2, 1), q2)
            == before.slot(shift(c, q, 1), q) {
            lemma_shift_round_trip(g, c2, q2, 1);
            lemma_slot_split(g.linear(shift(c2, q2, 1)), q2, g.linear(shift(c, q, 1)), q);
            lemma_linear_injective(&g, shift(c2, q2, 1), shift(c, q, 1));
        }
    }

    /// Streaming has filled the spare buffer from the cells before slot `p`: a
    /// slot whose source cell lies in the grid and comes earlier holds the
    /// source's value, every other slot what `old_spare` held there.
    pub open spec fn streamed_upto(&self, old_spare: Array4D<T>, p: int) -> bool {
        forall|n: Seq<i32>, k: int|
            self.grid_dimensions.contains(n) && 0 <= k < 27 ==> #[trigger] self.spare(n, k) == if shift_in(
                self.grid_dimensions,
                n,
                k,
                -1,
            ) && self.slot(shift(n, k, -1), k) < p {
                self.dist(shift(n, k, -1), k)
            } else {
                old_spare.at(n.push(k as i32))
            }
    }

    proof fn lemma_stream_step(
        before: &Self,
        after: &Self,
        old_spare: Array4D<T>,
        c: Seq<i32>,
        q: int,
    )
        requires
            before.wf(),
            after.wf(),
            after.grid_dimensions == before.grid_dimensions,
            after.distributions == before.distributions,
            after.distributions_buffer.dimensions == before.distributions_buffer.dimensions,
            before.grid_dimensions.contains(c),
            0 <= q < 27,
            before.streamed_upto(old_spare, before.slot(c, q)),
            shift_in(before.grid_dimensions, c, q, 1) ==> after.distributions_buffer.buffer@
                == before.distributions_buffer.buffer@.update(
                before.slot(shift(c, q, 1), q),
                before.dist(c, q),
            ),
            !shift_in(before.grid_dimensions, c, q, 1) ==> after.distributions_buffer.buffer@
                == before.distributions_buffer.buffer@,
        ensures
            after.streamed_upto(old_spare, before.slot(c, q) + 1),
    {
        let g = before.grid_dimensions;
        let p = before.slot(c, q);
        before.lemma_slot(c, q);
        if shift_in(g, c, q, 1) {
            lemma_shift_round_trip(g, c, q, 1);
            before.lemma_slot(shift(c, q, 1), q);
        }
        assert forall|n: Seq<i32>, k: int| g.contains(n) && 0 <= k < 27 implies #[trigger] after.spare(
            n,
            k,
        ) == if shift_in(g, n, k, -1) && after.slot(shift(n, k, -1), k) < p + 1 {
            after.dist(shift(n, k, -1), k)
        } else {
            old_spare.at(n.push(k as i32))
        } by {
            before.lemma_slot(n, k);
            after.lemma_slot(n, k);
            assert(before.spare(n, k) == if shift_in(g, n, k, -1) && before.slot(shift(n, k, -1), k)
                < p {
                before.dist(shift(n, k, -1), k)
            } else {
                old_spare.at(n.push(k as i32))
            });
            if shift_in(g, n, k, -1) {
                lemma_shift_round_trip(g, n, k, -1);
                before.lemma_slot(shift(n, k, -1), k);
                if before.slot(shift(n, k, -1), k) == p {
                    lemma_slot_split(g.linear(shift(n, k, -1)), k, g.linear(c), q);
                    lemma_linear_injective(&g, shift(n, k, -1), c);
                }
            }
            if shift_in(g, c, q, 1) && before.slot(n, k) == before.slot(shift(c, q, 1), q) {
                lemma_slot_split(g.linear(n), k, g.linear(shift(c, q, 1)), q);
                lemma_linear_injective(&g, n, shift(c, q, 1));
            }
        }
    }

    /// Streaming: the value of each direction at each cell moves to the cell's
    /// neighbour along that direction, where the neighbour lies in the grid;
    /// values leaving the grid are dropped. The moves are written into the spare
    /// buffer, which then becomes the distributions; slots that no value moved
    /// into keep what the spare buffer held.
    pub fn streaming(&mut self)
        requires
            old(self).wf(),
        ensures
            final(self).wf(),
            final(self).same_fields_but_distributions(old(self)),
            final(self).distributions_buffer == old(self).distributions,
            final(self).streamed_from(old(self)),
    {
        let ghost old_spare = self.distributions_buffer;
        let ghost start = *self;
        proof {
            self.lemma_slot(self.grid_dimensions.lo@, 0);
            assert(self.cells() <= self.cells() * 27);
        }
        let n_cells = box_buffer_size(&self.grid_dimensions);
        proof {
            assert forall|n: Seq<i32>, k: int|
                self.grid_dimensions.contains(n) && 0 <= k < 27 && shift_in(
                    self.grid_dimensions,
                    n,
                    k,
                    -1,
                ) implies #[trigger] self.slot(shift(n, k, -1), k) >= 0 by {
                lemma_shift_round_trip(self.grid_dimensions, n, k, -1);
                self.lemma_slot(shift(n, k, -1), k);
            }
        }
        let mut i: usize = 0;
        while i < n_cells
            invariant
                self.wf(),
                self.same_fields_but_distributions(&start),
                self.grid_dimensions == start.grid_dimensions,
                self.distributions == start.distributions,
                self.distributions_buffer.dimensions == old_spare.dimensions,
                n_cells == self.cells(),
                i <= n_cells,
                self.streamed_upto(old_spare, i * 27),
            decreases n_cells - i,
        {
            let coord = linear_to_coord_in_box(i, &self.grid_dimensions);
            let mut q: usize = 0;
            while q < 27
                invariant
                    self.wf(),
                    self.same_fields_but_distributions(&start),
                    self.grid_dimensions == start.grid_dimensions,
                    self.distributions == start.distributions,
                    self.distributions_buffer.dimensions == old_spare.dimensions,
                    n_cells == self.cells(),
                    i < n_cells,
                    self.grid_dimensions.contains(coord@),
                    self.grid_dimensions.linear(coord@) == i,
                    q <= 27,
                    self.streamed_upto(old_spare, i * 27 + q),
                decreases 27 - q,
            {
                proof {
                    self.lemma_slot(coord@, q as int);
                }
                let v = self.distributions.get_q(&coord, q as i32);
                let ghost before = *self;
                match neighbor(&self.grid_dimensions, &coord, q) {
                    Some(t) => {
                        proof {
                            lemma_shift_round_trip(self.grid_dimensions, coord@, q as int, 1);
                            self.lemma_slot(t@, q as int);
                        }
                        self.distributions_buffer.set_q(&t, q as i32, v);
                    },
                    None => {},
                }
                proof {
                    Self::lemma_stream_step(&before, self, old_spare, coord@, q as int);
                }
                q = q + 1;
            }
            i = i + 1;
        }
        proof {
            assert forall|n: Seq<i32>, q: int|
                self.grid_dimensions.contains(n) && 0 <= q < 27 implies #[trigger] self.spare(n, q)
                == if shift_in(self.grid_dimensions, n, q, -1) {
                start.dist(shift(n, q, -1), q)
            } else {
                start.spare(n, q)
            } by {
                if shift_in(self.grid_dimensions, n, q, -1) {
                    lemma_shift_round_trip(self.grid_dimensions, n, q, -1);
                    self.lemma_slot(shift(n, q, -1), q);
                }
            }
        }
        let ghost fin = *self;
        std::mem::swap(&mut self.distributions, &mut self.distributions_buffer);
        proof {
            assert forall|n: Seq<i32>, q: int|
                self.grid_dimensions.contains(n) && 0 <= q < 27 implies #[trigger] self.dist(n, q)
                == fin.spare(n, q) by {}
        }
    }

    /// Equilibrium initialisation: every cell's distribution of direction `q`
    /// becomes `seed[q]` (the inflow density times the weight of `q`, for a
    /// fluid at rest).
    pub fn equilibrium_init(&mut self, seed: &Vec<T>)
        requires
            old(self).wf(),
            seed@.len() == 27,
        ensures
            final(self).wf(),
            final(self).same_fields_but_distributions(old(self)),
            final(self).distributions_buffer == old(self).distributions_buffer,
            forall|k: int|
                0 <= k < old(self).cells() * 27 ==> #[trigger] final(self).distributions.buffer@[k]
                    == seed@[k % 27],
            forall|c: Seq<i32>, q: int|
                old(self).grid_dimensions.contains(c) && 0 <= q < 27 ==> #[trigger] final(self).dist(c, q)
                    == seed@[q],
    {
        let ghost start = *self;
        proof {
            self.lemma_slot(self.grid_dimensions.lo@, 0);
            assert(self.cells() <= self.cells() * 27);
        }
        let n_cells = box_buffer_size(&self.grid_dimensions);
        let mut i: usize = 0;
        while i < n_cells
            invariant
                self.wf(),
                self.same_fields_but_distributions(&start),
                self.grid_dimensions == start.grid_dimensions,
                self.distributions_buffer == start.distributions_buffer,
                self.distributions.dimensions == start.distributions.dimensions,
                seed@.len() == 27,
                n_cells == self.cells(),
                i <= n_cells,
                forall|k: int| 0 <= k < i * 27 ==> #[trigger] self.distributions.buffer@[k] == seed@[k % 27],
            decreases n_cells - i,
        {
            let coord = linear_to_coord_in_box(i, &self.grid_dimensions);
            let mut q: usize = 0;
            while q < 27
                invariant
                    self.wf(),
                    self.same_fields_but_distributions(&start),
                    self.grid_dimensions == start.grid_dimensions,
                    self.distributions_buffer == start.distributions_buffer,
                    self.distributions.dimensions == start.distributions.dimensions,
                    seed@.len() == 27,
                    n_cells == self.cells(),
                    i < n_cells,
                    self.grid_dimensions.contains(coord@),
                    self.grid_dimensions.linear(coord@) == i,
                    q <= 27,
                    forall|k: int|
                        0 <= k < i * 27 + q ==> #[trigger] self.distributions.buffer@[k] == seed@[k % 27],
                decreases 27 - q,
            {
                proof {
                    self.lemma_slot(coord@, q as int);
                    assert((i * 27 + q) % 27 == q as int) by (nonlinear_arith)
                        requires
                            0 <= q < 27,
                            i >= 0,
                    ;
                }
                self.distributions.set_q(&coord, q as i32, seed[q]);
                q = q + 1;
            }
            i = i + 1;
        }
        proof {
            assert forall|c: Seq<i32>, q: int|
                self.grid_dimensions.contains(c) && 0 <= q < 27 implies #[trigger] self.dist(c, q)
                == seed@[q] by {
                self.lemma_slot(c, q);
                let l = self.grid_dimensions.linear(c);
                assert((l * 27 + q) % 27 == q) by (nonlinear_arith)
                    requires
                        0 <= q < 27,
                        l >= 0,
                ;
            }
        }
    }

    /// Bounce-back at `coord`: every direction's slot takes the value that the
    /// opposite direction held, reversing the particles at a solid wall.
    pub fn apply_bounce_back(&mut self, coord: &Vec<i32>)
        requires
            old(self).wf(),
            old(self).grid_dimensions.contains(coord@),
        ensures
            final(self).wf(),
            final(self).same_fields_but_distributions(old(self)),
            final(self).distributions_buffer == old(self).distributions_buffer,
            final(self).distributions.dimensions == old(self).distributions.dimensions,
            final(self).distributions.buffer@ == bounced(
                old(self).distributions.buffer@,
                old(self).slot(coord@, 0),
            ),
            forall|q: int|
                0 <= q < 27 ==> #[trigger] final(self).dist(coord@, q) == old(self).dist(
                    coord@,
                    opp_of(q),
                ),
    {
        let ghost start = *self;
        let ghost base = self.slot(coord@, 0);
        proof {
            lemma_lattice_symmetry();
            self.lemma_slot(coord@, 0);
        }
        let mut vals: Vec<T> = Vec::new();
        let mut q: usize = 0;
        while q < 27
            invariant
                *self == start,
                self.wf(),
                self.grid_dimensions.contains(coord@),
                q <= 27,
                vals@.len() == q,
                forall|k: int| 0 <= k < q ==> #[trigger] vals@[k] == self.dist(coord@, k),
            decreases 27 - q,
        {
            proof {
                self.lemma_slot(coord@, q as int);
            }
            vals.push(self.distributions.get_q(coord, q as i32));
            q = q + 1;
        }
        let mut q: usize = 0;
        while q < 27
            invariant
                self.wf(),
                self.same_fields_but_distributions(&start),
                self.grid_dimensions == start.grid_dimensions,
                self.distributions_buffer == start.distributions_buffer,
                self.distributions.dimensions == start.distributions.dimensions,
                self.grid_dimensions.contains(coord@),
                start.wf(),
                base == self.slot(coord@, 0),
                0 <= base,
                base + 27 <= self.distributions.buffer@.len(),
                q <= 27,
                vals@.len() == 27,
                forall|k: int| 0 <= k < 27 ==> #[trigger] vals@[k] == start.dist(coord@, k),
                forall|k: int| 0 <= k < 27 ==> 0 <= #[trigger] opp_of(k) < 27,
                forall|k: int|
                    0 <= k < start.distributions.buffer@.len() ==> #[trigger] self.distributions.buffer@[k]
                        == if base <= k < base + q {
                        bounced(start.distributions.buffer@, base)[k]
                    } else {
                        start.distributions.buffer@[k]
                    },
                self.distributions.buffer@.len() == start.distributions.buffer@.len(),
            decreases 27 - q,
        {
            proof {
                self.lemma_slot(coord@, q as int);
                start.lemma_slot(coord@, opp_of(q as int));
            }
            let o = d3q27_opp(q);
            self.distributions.set_q(coord, q as i32, vals[o]);
            q = q + 1;
        }
        proof {
            assert(self.distributions.buffer@ =~= bounced(start.distributions.buffer@, base));
            assert forall|q: int| 0 <= q < 27 implies #[trigger] self.dist(coord@, q) == start.dist(
                coord@,
                opp_of(q),
            ) by {
                self.lemma_slot(coord@, q);
                start.lemma_slot(coord@, opp_of(q));
            }
        }
    }

    /// Bounce-back applied to the distributions after sweeping cells `0 .. i`:
    /// each slot of an earlier face cell holds its cell's opposite slot,
    /// every other slot its value in `orig`.
    pub open spec fn bounced_upto(&self, orig: Seq<T>, i: int) -> bool {
        forall|k: int|
            0 <= k < orig.len() ==> #[trigger] self.distributions.buffer@[k] == if k / 27 < i
                && on_boundary(self.grid_dimensions, self.grid_dimensions.coord_at(k / 27)) {
                orig[(k / 27) * 27 + opp_of(k % 27)]
            } else {
                orig[k]
            }
    }

    /// Wall boundaries: bounce-back at every cell on a face of the grid, each
    /// such cell exactly once; interior cells are left as they were.
    pub fn apply_bcs(&mut self)
        requires
            old(self).wf(),
        ensures
            final(self).wf(),
            final(self).same_fields_but_distributions(old(self)),
            final(self).distributions_buffer == old(self).distributions_buffer,
            final(self).distributions.dimensions == old(self).distributions.dimensions,
            forall|c: Seq<i32>, q: int|
                old(self).grid_dimensions.contains(c) && 0 <= q < 27 ==> #[trigger] final(self).dist(c, q)
                    == if on_boundary(old(self).grid_dimensions, c) {
                    old(self).dist(c, opp_of(q))
                } else {
                    old(self).dist(c, q)
                },
    {
        let ghost start = *self;
        let ghost orig = self.distributions.buffer@;
        proof {
            lemma_lattice_symmetry();
            self.lemma_slot(self.grid_dimensions.lo@, 0);
            assert(self.cells() <= self.cells() * 27);
        }
        let n_cells = box_buffer_size(&self.grid_dimensions);
        let mut i: usize = 0;
        while i < n_cells
            invariant
                self.wf(),
                start.wf(),
                self.same_fields_but_distributions(&start),
                self.grid_dimensions == start.grid_dimensions,
                self.distributions_buffer == start.distributions_buffer,
                self.distributions.dimensions == start.distributions.dimensions,
                orig == start.distributions.buffer@,
                orig.len() == n_cells * 27,
                n_cells == self.cells(),
                i <= n_cells,
                forall|k: int| 0 <= k < 27 ==> 0 <= #[trigger] opp_of(k) < 27,
                self.bounced_upto(orig, i as int),
            decreases n_cells - i,
        {
            let coord = linear_to_coord_in_box(i, &self.grid_dimensions);
            let ghost before = self.distributions.buffer@;
            if is_boundary_cell(&self.grid_dimensions, &coord) {
                self.apply_bounce_back(&coord);
            }
            proof {
                assert forall|k: int| 0 <= k < orig.len() implies #[trigger] self.distributions.buffer@[k]
                    == if k / 27 < i + 1 && on_boundary(
                    self.grid_dimensions,
                    self.grid_dimensions.coord_at(k / 27),
                ) {
                    orig[(k / 27) * 27 + opp_of(k % 27)]
                } else {
                    orig[k]
                } by {
                    let l = k / 27;
                    let q = k % 27;
                    assert(0 <= q < 27 && k == l * 27 + q && l >= 0) by (nonlinear_arith)
                        requires
                            k >= 0,
                            l == k / 27,
                            q == k % 27,
                    ;
                    if l == i {
                        let j = l * 27 + opp_of(q);
                        assert(j / 27 == l) by (nonlinear_arith)
                            requires
                                j == l * 27 + opp_of(q),
                                0 <= opp_of(q) < 27,
                        ;
                        assert(before[j] == orig[j]);
                        assert(before[k] == orig[k]);
                    } else {
                        assert(before[k] == if k / 27 < i && on_boundary(
                            self.grid_dimensions,
                            self.grid_dimensions.coord_at(k / 27),
                        ) {
                            orig[(k / 27) * 27 + opp_of(k % 27)]
                        } else {
                            orig[k]
                        });
                    }
                }
            }
            i = i + 1;
        }
        proof {
            assert forall|c: Seq<i32>, q: int|
                self.grid_dimensions.contains(c) && 0 <= q < 27 implies #[trigger] self.dist(c, q) == if on_boundary(self.grid_dimensions, c) {
                start.dist(c, opp_of(q))
            } else {
                start.dist(c, q)
            } by {
                self.lemma_slot(c, q);
                start.lemma_slot(c, opp_of(q));
                start.lemma_slot(c, q);
                let l = self.grid_dimensions.linear(c);
                let k = l * 27 + q;
                assert(k / 27 == l && k % 27 == q) by (nonlinear_arith)
                    requires
                        k == l * 27 + q,
                        0 <= q < 27,
                ;
                lemma_index_round_trip(&self.grid_dimensions, 0, c);
                assert(self.distributions.buffer@[k] == if k / 27 < n_cells && on_boundary(
                    self.grid_dimensions,
                    self.grid_dimensions.coord_at(k / 27),
                ) {
                    orig[(k / 27) * 27 + opp_of(k % 27)]
                } else {
                    orig[k]
                });
            }
        }
    }

    /// The distribution of direction `q` at every cell, in row-major order of the cells.
    pub fn distribution_field(&self, q: usize) -> (r: Vec<T>)
        requires
            self.wf(),
            q < 27,
        ensures
            r@.len() == self.cells(),
            forall|i: int|
                0 <= i < self.cells() ==> #[trigger] r@[i] == self.dist(self.grid_dimensions.coord_at(i), q as int),
    {
        proof {
            self.lemma_slot(self.grid_dimensions.lo@, 0);
            assert(self.cells() <= self.cells() * 27);
        }
        let n_cells = box_buffer_size(&self.grid_dimensions);
        let mut r: Vec<T> = Vec::new();
        let mut i: usize = 0;
        while i < n_cells
            invariant
                self.wf(),
                q < 27,
                n_cells == self.cells(),
                i <= n_cells,
                r@.len() == i,
                forall|k: int|
                    0 <= k < i ==> #[trigger] r@[k] == self.dist(self.grid_dimensions.coord_at(k), q as int),
            decreases n_cells - i,
        {
            let coord = linear_to_coord_in_box(i, &self.grid_dimensions);
            proof {
                self.lemma_slot(coord@, q as int);
            }
            r.push(self.distributions.get_q(&coord, q as i32));
            i = i + 1;
        }
        r
    }

    /// A solver over `grid_dimensions` with every distribution and density set
    /// to `zero`, every velocity to `zero_velocity`, and the given parameters.
    /// Fails with `MalformedBox` unless the domain is a well-formed 3-axis box,
    /// and with `TooLarge` where its distribution array exceeds `usize`.
    pub fn new(
        grid_dimensions: Aabb,
        omega: T,
        c_sqr: T,
        inflow_density: T,
        inflow_accel: T,
        zero: T,
        zero_velocity: V,
    ) -> (r: Result<Self, SolverError>)
        ensures
            r matches Err(SolverError::MalformedBox) <==> !(grid_dimensions.wf()
                && grid_dimensions.dim() == 3),
            r matches Err(SolverError::TooLarge) <==> grid_dimensions.wf()
                && grid_dimensions.dim() == 3 && grid_dimensions.size() * 27 > usize::MAX,
            r matches Ok(s) ==> {
                &&& s.wf()
                &&& s.grid_dimensions.same_as(&grid_dimensions)
                &&& s.omega == omega
                &&& s.c_sqr == c_sqr
                &&& s.inflow_density == inflow_density
                &&& s.inflow_accel == inflow_accel
                &&& forall|i: int| 0 <= i < s.cells() * 27 ==> s.distributions.buffer@[i] == zero
                &&& forall|i: int| 0 <= i < s.cells() ==> s.pressure.buffer@[i] == zero
                &&& forall|i: int| 0 <= i < s.cells() ==> s.velocity.buffer@[i] == zero_velocity
            },
    {
        if grid_dimensions.lo.len() != 3 || !box_is_well_formed(&grid_dimensions) {
            return Err(SolverError::MalformedBox);
        }
        let dims4 = grid_dimensions.with_axis(26);
        proof {
            lemma_append_axis(&grid_dimensions, &dims4, 27, grid_dimensions.lo@, 0);
        }
        match checked_box_size(&dims4) {
            None => Err(SolverError::TooLarge),
            Some(_) => {
                let dims4_copy = dims4.copy_box();
                let grid_copy = grid_dimensions.copy_box();
                let grid_copy2 = grid_dimensions.copy_box();
                proof {
                    assert(grid_dimensions.size() <= grid_dimensions.size() * 27);
                    lemma_same_box(&dims4, &dims4_copy);
                    lemma_same_box(&grid_dimensions, &grid_copy);
                    lemma_same_box(&grid_dimensions, &grid_copy2);
                }
                let distributions = Array4D::new(dims4_copy, zero);
                let distributions_buffer = Array4D::new(dims4, zero);
                let pressure = Array3D::new(grid_copy, zero);
                let velocity = VelArray::new(grid_copy2, zero_velocity);
                let s = Solver {
                    grid_dimensions,
                    distributions,
                    distributions_buffer,
                    pressure,
                    velocity,
                    omega,
                    c_sqr,
                    inflow_density,
                    inflow_accel,
                };
                proof {
                    lemma_same_box(&s.pressure.dimensions, &s.grid_dimensions);
                    lemma_same_box(&s.velocity.dimensions, &s.grid_dimensions);
                    lemma_same_box(&dims4, &s.distributions.dimensions);
                    s.lemma_slot(s.grid_dimensions.lo@, 0);
                }
                Ok(s)
            },
        }
    }
}

} // verus!
