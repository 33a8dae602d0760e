use lbm_clean::lattice::{d3q27_offset, d3q27_opp, d3q27_weight, gen_d3q27_offsets, D3Q27_W_DENOM};

#[test]
fn opposites() {
    let offsets = gen_d3q27_offsets();
    for i in 0..27 {
        let o = d3q27_opp(i);
        for d in 0..3 {
            assert_eq!(offsets[i][d] + offsets[o][d], 0);
        }
    }
}

#[test]
fn weights() {
    let s: f32 = (0..27).map(|q| d3q27_weight(q) as f32 / D3Q27_W_DENOM as f32).sum();
    assert!((1.0 - s).abs() < 0.00001);
}

#[test]
fn dirs() {
    let mut sum = [0.0f32; 3];
    for d in gen_d3q27_offsets() {
        for k in 0..3 {
            sum[k] += d[k] as f32;
        }
    }
    for d in 0..3 {
        assert!(sum[d].abs() < 0.000001);
    }
}

#[test]
fn opposite_is_an_involution_fixing_rest_only() {
    let mut seen = [false; 27];
    for q in 0..27 {
        let o = d3q27_opp(q);
        assert!(o < 27);
        assert_eq!(d3q27_opp(o), q);
        assert_eq!(o == q, q == 0);
        seen[o] = true;
    }
    assert!(seen.iter().all(|s| *s));
}

#[test]
fn weight_numerators_sum_to_denominator() {
    let total: u32 = (0..27).map(d3q27_weight).sum();
    assert_eq!(total, D3Q27_W_DENOM);
    assert_eq!(d3q27_weight(0), 64);
    assert_eq!(d3q27_weight(1), 16);
    assert_eq!(d3q27_weight(7), 4);
    assert_eq!(d3q27_weight(26), 1);
}

#[test]
fn weighted_offsets_cancel() {
    for d in 0..3 {
        let s: i64 = (0..27)
            .map(|q| {
                let o = d3q27_offset(q);
                let c = [o.0, o.1, o.2][d];
                d3q27_weight(q) as i64 * c as i64
            })
            .sum();
        assert_eq!(s, 0);
    }
}

#[test]
fn offsets_table_entries() {
    let offsets = gen_d3q27_offsets();
    assert_eq!(offsets.len(), 27);
    assert_eq!(offsets[0], vec![0, 0, 0]);
    assert_eq!(offsets[1], vec![1, 0, 0]);
    assert_eq!(offsets[20], vec![1, 1, -1]);
    assert_eq!(offsets[26], vec![-1, -1, -1]);
    assert_eq!(d3q27_offset(22), (-1, 1, 1));
    assert_eq!(d3q27_opp(20), 24);
    assert_eq!(d3q27_opp(21), 25);
}
