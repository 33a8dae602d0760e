use vstd::prelude::*;

verus! {

/// Common denominator of the quadrature weights: direction `q` weighs
/// `d3q27_weight(q) / D3Q27_W_DENOM`.
pub const D3Q27_W_DENOM: u32 = 216;

/// Number of lattice directions.
pub const D3Q27_Q: usize = 27;

/// Neighbour offset of direction `q` as `(x, y, z)`; direction 0 is the rest vector.
pub open spec fn offset_of(q: int) -> (int, int, int) {
    if q == 0 {
        (0, 0, 0)
    } else if q == 1 {
        (1, 0, 0)
    } else if q == 2 {
        (-1, 0, 0)
    } else if q == 3 {
        (0, 1, 0)
    } else if q == 4 {
        (0, -1, 0)
    } else if q == 5 {
        (0, 0, 1)
    } else if q == 6 {
        (0, 0, -1)
    } else if q == 7 {
        (1, 1, 0)
    } else if q == 8 {
        (1, -1, 0)
    } else if q == 9 {
        (-1, 1, 0)
    } else if q == 10 {
        (-1, -1, 0)
    } else if q == 11 {
        (1, 0, 1)
    } else if q == 12 {
        (1, 0, -1)
    } else if q == 13 {
        (-1, 0, 1)
    } else if q == 14 {
        (-1, 0, -1)
    } else if q == 15 {
        (0, 1, 1)
    } else if q == 16 {
        (0, 1, -1)
    } else if q == 17 {
        (0, -1, 1)
    } else if q == 18 {
        (0, -1, -1)
    } else if q == 19 {
        (1, 1, 1)
    } else if q == 20 {
        (1, 1, -1)
    } else if q == 21 {
        (1, -1, 1)
    } else if q == 22 {
        (-1, 1, 1)
    } else if q == 23 {
        (1, -1, -1)
    } else if q == 24 {
        (-1, -1, 1)
    } else if q == 25 {
        (-1, 1, -1)
    } else {
        (-1, -1, -1)
    }
}

/// Component `d` (0, 1 or 2) of the neighbour offset of direction `q`.
pub open spec fn offset_axis(q: int, d: int) -> int {
    let o = offset_of(q);
    if d == 0 {
        o.0
    } else if d == 1 {
        o.1
    } else {
        o.2
    }
}

/// The direction opposite to `q`.
pub open spec fn opp_of(q: int) -> int {
    if q == 0 {
        0
    } else if q == 1 {
        2
    } else if q == 2 {
        1
    } else if q == 3 {
        4
    } else if q == 4 {
        3
    } else if q == 5 {
        6
    } else if q == 6 {
        5
    } else if q == 7 {
        10
    } else if q == 8 {
        9
    } else if q == 9 {
        8
    } else if q == 10 {
        7
    } else if q == 11 {
        14
    } else if q == 12 {
        13
    } else if q == 13 {
        12
    } else if q == 14 {
        11
    } else if q == 15 {
        18
    } else if q == 16 {
        17
    } else if q == 17 {
        16
    } else if q == 18 {
        15
    } else if q == 19 {
        26
    } else if q == 20 {
        24
    } else if q == 21 {
        25
    } else if q == 22 {
        23
    } else if q == 23 {
        22
    } else if q == 24 {
        20
    } else if q == 25 {
        21
    } else {
        19
    }
}

/// Numerator of the quadrature weight of direction `q`, over `D3Q27_W_DENOM`.
pub open spec fn weight_of(q: int) -> int {
    if q == 0 {
        64
    } else if q <= 6 {
        16
    } else if q <= 18 {
        4
    } else {
        1
    }
}

/// Sum of the weight numerators of the first `n` directions.
pub open spec fn weight_sum(n: nat) -> int
    decreases n,
{
    if n == 0 {
        0
    } else {
        weight_sum((n - 1) as nat) + weight_of(n - 1)
    }
}

/// Sum of component `d` of the offsets of the first `n` directions.
pub open spec fn offset_sum(n: nat, d: int) -> int
    decreases n,
{
    if n == 0 {
        0
    } else {
        offset_sum((n - 1) as nat, d) + offset_axis(n - 1, d)
    }
}

/// Sum of component `d` of the weighted offsets of the first `n` directions.
pub open spec fn weighted_offset_sum(n: nat, d: int) -> int
    decreases n,
{
    if n == 0 {
        0
    } else {
        weighted_offset_sum((n - 1) as nat, d) + weight_of(n - 1) * offset_axis(n - 1, d)
    }
}

/// Lattice symmetry: every offset cancels against its opposite's, `opp` is an
/// involution on the directions fixing the rest direction alone, the weights sum
/// to one, and the offsets, plain or weighted, sum to the zero vector.
pub proof fn lemma_lattice_symmetry()
    ensures
        forall|q: int|
            0 <= q < 27 ==> {
                &&& 0 <= #[trigger] opp_of(q) < 27
                &&& opp_of(opp_of(q)) == q
                &&& (opp_of(q) == q <==> q == 0)
                &&& forall|d: int| 0 <= d < 3 ==> #[trigger] offset_axis(q, d) + offset_axis(opp_of(q), d) == 0
            },
        weight_sum(27) == D3Q27_W_DENOM,
        forall|d: int| 0 <= d < 3 ==> #[trigger] offset_sum(27, d) == 0,
        forall|d: int| 0 <= d < 3 ==> #[trigger] weighted_offset_sum(27, d) == 0,
{
    reveal_with_fuel(weight_sum, 28);
    reveal_with_fuel(offset_sum, 28);
    reveal_with_fuel(weighted_offset_sum, 28);
}

/// Neighbour offset of direction `q` as `(x, y, z)`.
pub fn d3q27_offset(q: usize) -> (r: (i32, i32, i32))
    requires
        q < 27,
    ensures
        r.0 == offset_axis(q as int, 0),
        r.1 == offset_axis(q as int, 1),
        r.2 == offset_axis(q as int, 2),
{
    if q == 0 {
        (0, 0, 0)
    } else if q == 1 {
        (1, 0, 0)
    } else if q == 2 {
        (-1, 0, 0)
    } else if q == 3 {
        (0, 1, 0)
    } else if q == 4 {
        (0, -1, 0)
    } else if q == 5 {
        (0, 0, 1)
    } else if q == 6 {
        (0, 0, -1)
    } else if q == 7 {
        (1, 1, 0)
    } else if q == 8 {
        (1, -1, 0)
    } else if q == 9 {
        (-1, 1, 0)
    } else if q == 10 {
        (-1, -1, 0)
    } else if q == 11 {
        (1, 0, 1)
    } else if q == 12 {
        (1, 0, -1)
    } else if q == 13 {
        (-1, 0, 1)
    } else if q == 14 {
        (-1, 0, -1)
    } else if q == 15 {
        (0, 1, 1)
    } else if q == 16 {
        (0, 1, -1)
    } else if q == 17 {
        (0, -1, 1)
    } else if q == 18 {
        (0, -1, -1)
    } else if q == 19 {
        (1, 1, 1)
    } else if q == 20 {
        (1, 1, -1)
    } else if q == 21 {
        (1, -1, 1)
    } else if q == 22 {
        (-1, 1, 1)
    } else if q == 23 {
        (1, -1, -1)
    } else if q == 24 {
        (-1, -1, 1)
    } else if q == 25 {
        (-1, 1, -1)
    } else {
        (-1, -1, -1)
    }
}

/// The direction opposite to `q`.
pub fn d3q27_opp(q: usize) -> (r: usize)
    requires
        q < 27,
    ensures
        r == opp_of(q as int),
{
    if q == 0 {
        0
    } else if q == 1 {
        2
    } else if q == 2 {
        1
    } else if q == 3 {
        4
    } else if q == 4 {
        3
    } else if q == 5 {
        6
    } else if q == 6 {
        5
    } else if q == 7 {
        10
    } else if q == 8 {
        9
    } else if q == 9 {
        8
    } else if q == 10 {
        7
    } else if q == 11 {
        14
    } else if q == 12 {
        13
    } else if q == 13 {
        12
    } else if q == 14 {
        11
    } else if q == 15 {
        18
    } else if q == 16 {
        17
    } else if q == 17 {
        16
    } else if q == 18 {
        15
    } else if q == 19 {
        26
    } else if q == 20 {
        24
    } else if q == 21 {
        25
    } else if q == 22 {
        23
    } else if q == 23 {
        22
    } else if q == 24 {
        20
    } else if q == 25 {
        21
    } else {
        19
    }
}

/// Numerator of the quadrature weight of direction `q`, over `D3Q27_W_DENOM`.
pub fn d3q27_weight(q: usize) -> (r: u32)
    requires
        q < 27,
    ensures
        r == weight_of(q as int),
{
    if q == 0 {
        64
    } else if q <= 6 {
        16
    } else if q <= 18 {
        4
    } else {
        1
    }
}

/// The 27 neighbour offsets, each as an `[x, y, z]` vector.
pub fn gen_d3q27_offsets() -> (r: Vec<Vec<i32>>)
    ensures
        r@.len() == 27,
        forall|q: int|
            0 <= q < 27 ==> (#[trigger] r@[q])@.len() == 3 && r@[q]@[0] == offset_axis(q, 0)
                && r@[q]@[1] == offset_axis(q, 1) && r@[q]@[2] == offset_axis(q, 2),
{
    let mut r: Vec<Vec<i32>> = Vec::new();
    let mut q: usize = 0;
    while q < 27
        invariant
            q <= 27,
            r@.len() == q,
            forall|k: int|
                0 <= k < q ==> (#[trigger] r@[k])@.len() == 3 && r@[k]@[0] == offset_axis(k, 0)
                    && r@[k]@[1] == offset_axis(k, 1) && r@[k]@[2] == offset_axis(k, 2),
        decreases 27 - q,
    {
        let (x, y, z) = d3q27_offset(q);
        r.push(vec![x, y, z]);
        q = q + 1;
    }
    r
}

} // verus!
