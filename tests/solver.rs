use lbm_clean::coord_util::{linear_to_coord_in_box, Aabb};
use lbm_clean::lattice::{d3q27_offset, d3q27_opp, d3q27_weight, D3Q27_W_DENOM};
use lbm_clean::mesh::coord_iter;
use lbm_clean::solver::{Solver, SolverError};

fn aabb(lo: &[i32], hi: &[i32]) -> Aabb {
    Aabb { lo: lo.to_vec(), hi: hi.to_vec() }
}

fn int_solver(n: i32) -> Solver<u64, u64> {
    let g = aabb(&[0, 0, 0], &[n - 1, n - 1, n - 1]);
    Solver::new(g, 0, 0, 0, 0, 0, 0).unwrap()
}

fn label(c: &[i32], q: usize) -> u64 {
    1 + (c[0] as u64) * 100_000 + (c[1] as u64) * 1_000 + (c[2] as u64) * 100 + q as u64
}

fn fill_labels(s: &mut Solver<u64, u64>) {
    for c in coord_iter(&s.grid_dimensions) {
        for q in 0..27 {
            s.distributions.set_q(&c, q, label(&c, q as usize));
        }
    }
}

fn neighbour(g: &Aabb, c: &[i32], q: usize, sign: i32) -> Option<Vec<i32>> {
    let o = d3q27_offset(q);
    let n = vec![c[0] + sign * o.0, c[1] + sign * o.1, c[2] + sign * o.2];
    let inside = (0..3).all(|d| n[d] >= g.lo[d] && n[d] <= g.hi[d]);
    if inside {
        Some(n)
    } else {
        None
    }
}

fn seed(density: f32) -> Vec<f32> {
    (0..27).map(|q| density * d3q27_weight(q) as f32 / D3Q27_W_DENOM as f32).collect()
}

#[test]
fn construction_rejects_malformed_boxes() {
    let r = Solver::<f32, [f32; 3]>::new(aabb(&[0, 2, 0], &[3, 1, 3]), 0.8, 1.0 / 3.0, 0.1, 0.0, 0.0, [0.0; 3]);
    assert!(matches!(r, Err(SolverError::MalformedBox)));
    let r = Solver::<f32, [f32; 3]>::new(aabb(&[0, 0], &[3, 3]), 0.8, 1.0 / 3.0, 0.1, 0.0, 0.0, [0.0; 3]);
    assert!(matches!(r, Err(SolverError::MalformedBox)));
    let huge = aabb(&[i32::MIN, i32::MIN, i32::MIN], &[i32::MAX, i32::MAX, i32::MAX]);
    let r = Solver::<f32, [f32; 3]>::new(huge, 0.8, 1.0 / 3.0, 0.1, 0.0, 0.0, [0.0; 3]);
    assert!(matches!(r, Err(SolverError::TooLarge)));
}

#[test]
fn construction_sizes_every_array() {
    let s = Solver::<f32, [f32; 3]>::new(aabb(&[0, 0, 0], &[2, 3, 4]), 0.8, 0.5, 0.1, 0.015, 0.0, [0.0; 3])
        .unwrap();
    assert_eq!(s.distributions.buffer.len(), 60 * 27);
    assert_eq!(s.distributions_buffer.buffer.len(), 60 * 27);
    assert_eq!(s.pressure.buffer.len(), 60);
    assert_eq!(s.velocity.buffer.len(), 60);
    assert_eq!(s.omega, 0.8);
    assert_eq!(s.c_sqr, 0.5);
    assert_eq!(s.inflow_density, 0.1);
    assert_eq!(s.inflow_accel, 0.015);
    assert!(s.distributions.buffer.iter().all(|v| *v == 0.0));
}

#[test]
fn equilibrium_initialisation_gives_inflow_density_at_rest() {
    let mut s = Solver::<f32, [f32; 3]>::new(aabb(&[0, 0, 0], &[3, 4, 2]), 0.8, 1.0 / 3.0, 0.1, 0.0, 0.0, [0.0; 3])
        .unwrap();
    s.equilibrium_init(&seed(0.1));
    for c in coord_iter(&s.grid_dimensions) {
        let mut density = 0.0f32;
        let mut momentum = [0.0f32; 3];
        for q in 0..27 {
            let f = s.distributions.get_q(&c, q);
            density += f;
            let o = d3q27_offset(q as usize);
            momentum[0] += o.0 as f32 * f;
            momentum[1] += o.1 as f32 * f;
            momentum[2] += o.2 as f32 * f;
        }
        assert!((density - 0.1).abs() < 1e-5);
        for m in momentum {
            assert!(m.abs() < 1e-7);
        }
    }
}

#[test]
fn equilibrium_initialisation_sets_each_direction() {
    let mut s = int_solver(2);
    let seed: Vec<u64> = (0..27).map(|q| 10 + q).collect();
    s.equilibrium_init(&seed);
    for c in coord_iter(&s.grid_dimensions) {
        for q in 0..27 {
            assert_eq!(s.distributions.get_q(&c, q), 10 + q as u64);
        }
    }
}

#[test]
fn streaming_moves_each_value_to_its_neighbour() {
    let mut s = int_solver(4);
    fill_labels(&mut s);
    let before = s.distributions.buffer.clone();
    s.streaming();
    assert_eq!(s.distributions_buffer.buffer, before);
    for c in coord_iter(&s.grid_dimensions) {
        for q in 0..27 {
            let got = s.distributions.get_q(&c, q);
            match neighbour(&s.grid_dimensions, &c, q as usize, -1) {
                Some(src) => assert_eq!(got, label(&src, q as usize)),
                None => assert_eq!(got, 0),
            }
        }
    }
}

#[test]
fn streaming_loses_only_what_leaves_the_grid() {
    let mut s = int_solver(5);
    fill_labels(&mut s);
    let total_before: u64 = s.distributions.buffer.iter().sum();
    let mut leaving = 0u64;
    for c in coord_iter(&s.grid_dimensions) {
        for q in 0..27 {
            if neighbour(&s.grid_dimensions, &c, q, 1).is_none() {
                leaving += label(&c, q);
            }
        }
    }
    assert!(leaving > 0);
    s.streaming();
    let total_after: u64 = s.distributions.buffer.iter().sum();
    assert_eq!(total_after, total_before - leaving);
}

#[test]
fn streaming_keeps_spare_values_where_nothing_arrives() {
    let mut s = int_solver(3);
    fill_labels(&mut s);
    for v in s.distributions_buffer.buffer.iter_mut() {
        *v = 7;
    }
    s.streaming();
    let corner = vec![0, 0, 0];
    assert_eq!(s.distributions.get_q(&corner, 1), 7);
    assert_eq!(s.distributions.get_q(&corner, 0), label(&corner, 0));
    assert_eq!(s.distributions.get_q(&corner, 2), label(&[1, 0, 0], 2));
}

#[test]
fn bounce_back_reflects_and_twice_restores() {
    let mut s = int_solver(3);
    fill_labels(&mut s);
    let before = s.distributions.buffer.clone();
    let c = vec![1, 2, 0];
    s.apply_bounce_back(&c);
    for q in 0..27 {
        assert_eq!(s.distributions.get_q(&c, q), label(&c, d3q27_opp(q as usize)));
    }
    assert_eq!(s.distributions.get_q(&vec![1, 1, 0], 3), label(&[1, 1, 0], 3));
    s.apply_bounce_back(&c);
    assert_eq!(s.distributions.buffer, before);
}

#[test]
fn boundary_conditions_reflect_face_cells_once() {
    let mut s = int_solver(3);
    fill_labels(&mut s);
    s.apply_bcs();
    for c in coord_iter(&s.grid_dimensions) {
        let interior = c == vec![1, 1, 1];
        for q in 0..27 {
            let expect = if interior { label(&c, q) } else { label(&c, d3q27_opp(q)) };
            assert_eq!(s.distributions.get_q(&c, q as i32), expect);
        }
    }
}

#[test]
fn boundary_conditions_on_a_single_layer() {
    let g = aabb(&[0, 0, 0], &[2, 0, 2]);
    let mut s: Solver<u64, u64> = Solver::new(g, 0, 0, 0, 0, 0, 0).unwrap();
    fill_labels(&mut s);
    s.apply_bcs();
    let c = vec![1, 0, 1];
    assert_eq!(s.distributions.get_q(&c, 1), label(&c, 2));
}

#[test]
fn distribution_field_follows_cell_order() {
    let mut s = int_solver(2);
    fill_labels(&mut s);
    let field = s.distributions.buffer.len() / 27;
    let f5 = s.distribution_field(5);
    assert_eq!(f5.len(), field);
    for (i, v) in f5.iter().enumerate() {
        let c = linear_to_coord_in_box(i, &s.grid_dimensions);
        assert_eq!(*v, label(&c, 5));
    }
}

fn moments(s: &mut Solver<f32, [f32; 3]>) {
    for c in coord_iter(&s.grid_dimensions) {
        let mut p = 0.0f32;
        let mut u = [0.0f32; 3];
        for q in 0..27 {
            let f = s.distributions.get_q(&c, q);
            let o = d3q27_offset(q as usize);
            p += f;
            u[0] += o.0 as f32 * f;
            u[1] += o.1 as f32 * f;
            u[2] += o.2 as f32 * f;
        }
        if p.abs() > 0.00001 {
            for k in 0..3 {
                u[k] /= p;
            }
        }
        s.pressure.set(&c, p);
        s.velocity.set(&c, u);
    }
}

fn collision(s: &mut Solver<f32, [f32; 3]>) {
    for c in coord_iter(&s.grid_dimensions) {
        let u = s.velocity.get(&c);
        let p = s.pressure.get(&c);
        let uu = u[0] * u[0] + u[1] * u[1] + u[2] * u[2];
        for q in 0..27 {
            let o = d3q27_offset(q as usize);
            let du = o.0 as f32 * u[0] + o.1 as f32 * u[1] + o.2 as f32 * u[2];
            let w = d3q27_weight(q as usize) as f32 / D3Q27_W_DENOM as f32;
            let t1 = (3.0 * du) / s.c_sqr;
            let t2 = (9.0 * du * du) / (2.0 * s.c_sqr * s.c_sqr);
            let t3 = -(3.0 * uu) / (2.0 * s.c_sqr);
            let eq = w * p * (1.0 + t1 + t2 + t3);
            let f = s.distributions.get_q(&c, q);
            s.distributions.set_q(&c, q, f + s.omega * (eq - f));
        }
    }
}

fn mass(s: &Solver<f32, [f32; 3]>) -> f32 {
    s.distributions.buffer.iter().sum()
}

#[test]
fn twenty_iterations_stay_finite_and_walls_keep_cell_mass() {
    let g = aabb(&[0, 0, 0], &[5, 5, 5]);
    let mut s = Solver::<f32, [f32; 3]>::new(g, 0.8, 1.0 / 3.0, 0.1, 0.015, 0.0, [0.0; 3]).unwrap();
    s.equilibrium_init(&seed(0.1));
    let initial = mass(&s);
    assert!((initial - 21.6).abs() < 1e-3);
    for _ in 0..20 {
        s.streaming();
        moments(&mut s);
        assert!(s.pressure.buffer.iter().all(|p| p.is_finite()));
        assert!(s.velocity.buffer.iter().all(|u| u.iter().all(|x| x.is_finite())));
        collision(&mut s);
        let before_bcs = mass(&s);
        let cells_before: Vec<f32> = coord_iter(&s.grid_dimensions)
            .iter()
            .map(|c| (0..27).map(|q| s.distributions.get_q(c, q)).sum())
            .collect();
        s.apply_bcs();
        for (c, m) in coord_iter(&s.grid_dimensions).iter().zip(cells_before) {
            let now: f32 = (0..27).map(|q| s.distributions.get_q(c, q)).sum();
            assert!((now - m).abs() <= 1e-5 * m.abs().max(1.0), "cell mass {} became {}", m, now);
        }
        let after_bcs = mass(&s);
        assert!((after_bcs - before_bcs).abs() <= 1e-4 * before_bcs.abs(), "{} {}", before_bcs, after_bcs);
        assert!(after_bcs.is_finite());
    }
}
