use barnes_hut::body::Body;
use barnes_hut::quadtree::{bounding_square, in_square_at, Quadtree};
use barnes_hut::simulation::{acceleration, direct_acceleration, render, Params, Simulation};

fn params(theta_num: i64, theta_den: i64) -> Params {
    Params::new(theta_num, theta_den, 1, 1024, 1, 60)
}

// A tiny deterministic generator for scattered test bodies.
fn scattered(n: usize) -> Vec<Body> {
    let mut state: u64 = 0x2545_f491_4f6c_dd1d;
    let mut bodies = Vec::new();
    for _ in 0..n {
        state = state.wrapping_mul(6364136223846793005).wrapping_add(1442695040888963407);
        let x = ((state >> 16) % 200_001) as i64 - 100_000;
        state = state.wrapping_mul(6364136223846793005).wrapping_add(1442695040888963407);
        let y = ((state >> 16) % 200_001) as i64 - 100_000;
        state = state.wrapping_mul(6364136223846793005).wrapping_add(1442695040888963407);
        let m = ((state >> 16) % 1000) as i64 + 1;
        bodies.push(Body::new(x, y, 0, 0, m, 1, 0xffff_ffff));
    }
    bodies
}

#[test]
fn exact_two_body_contribution() {
    // bodies at (0,0) and (100,0), the far one of the largest mass:
    // num = 1024 * 2^30 * 100, denom = 10001 * 100, truncated.
    let bodies = vec![
        Body::new(0, 0, 0, 0, 0x4000_0000, 1, 0),
        Body::new(100, 0, 0, 0, 0x4000_0000, 1, 0),
    ];
    let pr = params(0, 1);
    let (ax, ay) = direct_acceleration(&bodies, 0, &pr);
    assert_eq!(ax, 109_940_168);
    assert_eq!(ay, 0);
}

#[test]
fn isolated_body_zero_acceleration() {
    // a single body: the tree walk must yield exactly zero
    let bodies = vec![Body::new(1234, -5678, 10, 20, 1000, 1, 0)];
    let sq = bounding_square(&bodies);
    let tree = Quadtree::build(&bodies, sq);
    let pr = params(1, 2);
    let (ax, ay) = acceleration(&tree, &bodies, 0, &pr);
    assert_eq!((ax, ay), (0, 0));
    // and a step leaves its velocity unchanged
    let mut sim = Simulation::new(bodies, pr);
    sim.step();
    assert_eq!(sim.bodies[0].vel_x, 10);
    assert_eq!(sim.bodies[0].vel_y, 20);
}

#[test]
fn symmetric_pair_opposite_accelerations() {
    let bodies = vec![
        Body::new(500, 0, 0, 0, 0x4000_0000, 1, 0),
        Body::new(-500, 0, 0, 0, 0x4000_0000, 1, 0),
    ];
    let pr = params(0, 1); // theta = 0: no approximation anywhere
    let d0 = direct_acceleration(&bodies, 0, &pr);
    let d1 = direct_acceleration(&bodies, 1, &pr);
    assert_eq!(d0.0, -d1.0);
    assert_eq!(d0.1, -d1.1);
    assert_eq!(d0, (-1_099_510, 0));
    // the tree walk gives the same values here
    let sq = bounding_square(&bodies);
    let tree = Quadtree::build(&bodies, sq);
    assert_eq!(acceleration(&tree, &bodies, 0, &pr), d0);
    assert_eq!(acceleration(&tree, &bodies, 1, &pr), d1);
}

#[test]
fn mass_conservation_over_steps() {
    let bodies = scattered(50);
    let total0: i64 = bodies.iter().map(|b| b.mass).sum();
    let mut sim = Simulation::new(bodies, params(1, 2));
    for _ in 0..20 {
        assert!(sim.ready());
        sim.step();
        let total: i64 = sim.bodies.iter().map(|b| b.mass).sum();
        assert_eq!(total, total0);
    }
}

#[test]
fn tree_mass_aggregation() {
    let bodies = scattered(200);
    let total: i64 = bodies.iter().map(|b| b.mass).sum();
    let sq = bounding_square(&bodies);
    let tree = Quadtree::build(&bodies, sq);
    assert!(!tree.nodes.is_empty());
    assert_eq!(tree.nodes[0].total_mass, total);
    for p in 0..tree.nodes.len() {
        let nd = tree.nodes[p];
        if !nd.leaf {
            let mut sum: i64 = 0;
            let mut c = p + 1;
            while c < nd.skip {
                sum += tree.nodes[c].total_mass;
                c = tree.nodes[c].skip;
            }
            assert_eq!(nd.total_mass, sum, "internal node {} mass mismatch", p);
            // and its center of mass is the mass-weighted mean of the
            // children's centers, truncated toward zero
            let mut mx: i128 = 0;
            let mut my: i128 = 0;
            let mut c = p + 1;
            while c < nd.skip {
                let ch = tree.nodes[c];
                mx += (ch.total_mass as i128) * (ch.com_x as i128);
                my += (ch.total_mass as i128) * (ch.com_y as i128);
                c = tree.nodes[c].skip;
            }
            assert_eq!(nd.com_x as i128, mx / (nd.total_mass as i128));
            assert_eq!(nd.com_y as i128, my / (nd.total_mass as i128));
        }
    }
}

#[test]
fn containment_in_root_square() {
    let bodies = scattered(150);
    let sq = bounding_square(&bodies);
    for b in &bodies {
        assert!(in_square_at(&sq, b.pos_x, b.pos_y));
    }
    // the square is pinned: anchored at the least coordinates, sized to the
    // least power of two covering both spans
    let min_x = bodies.iter().map(|b| b.pos_x).min().unwrap();
    let min_y = bodies.iter().map(|b| b.pos_y).min().unwrap();
    let max_x = bodies.iter().map(|b| b.pos_x).max().unwrap();
    let max_y = bodies.iter().map(|b| b.pos_y).max().unwrap();
    let need = (max_x - min_x).max(max_y - min_y) + 1;
    assert_eq!(sq.x, min_x);
    assert_eq!(sq.y, min_y);
    assert_eq!(sq.side.count_ones(), 1);
    assert!(sq.side >= need && sq.side / 2 < need);
    // the square a step actually used covers the pre-step positions
    let before = bodies.clone();
    let mut sim = Simulation::new(bodies, params(1, 2));
    sim.step();
    let root = sim.quadtree.nodes[0].square;
    for b in &before {
        assert!(in_square_at(&root, b.pos_x, b.pos_y));
    }
}

#[test]
fn determinism_two_runs() {
    let bodies = scattered(80);
    let mut s1 = Simulation::new(bodies.clone(), params(1, 2));
    let mut s2 = Simulation::new(bodies, params(1, 2));
    for _ in 0..15 {
        assert!(s1.ready() && s2.ready());
        s1.step();
        s2.step();
        assert_eq!(s1.bodies, s2.bodies);
    }
}

#[test]
fn convergence_to_direct_sum() {
    let bodies = scattered(50);
    let sq = bounding_square(&bodies);
    let tree = Quadtree::build(&bodies, sq);
    // theta = 0: the walk reaches every leaf, so it equals the O(n^2) sum
    let exact = params(0, 1);
    for i in 0..bodies.len() {
        let a = acceleration(&tree, &bodies, i, &exact);
        let d = direct_acceleration(&bodies, i, &exact);
        assert_eq!(a, d, "body {}", i);
    }
    // theta = 1/2: the approximation stays within a bounded error
    let approx = params(1, 2);
    for i in 0..bodies.len() {
        let a = acceleration(&tree, &bodies, i, &approx);
        let d = direct_acceleration(&bodies, i, &exact);
        let ex = (a.0 - d.0).abs();
        let ey = (a.1 - d.1).abs();
        assert!(ex <= d.0.abs() / 2 + 2000, "body {}: {} vs {}", i, a.0, d.0);
        assert!(ey <= d.1.abs() / 2 + 2000, "body {}: {} vs {}", i, a.1, d.1);
    }
}

#[test]
fn spawn_queue_and_snapshot() {
    let bodies = scattered(10);
    let mut sim = Simulation::new(bodies, params(1, 2));
    sim.step();
    let mut spawn = vec![Body::new(7, 8, 0, 0, 5, 1, 1), Body::new(9, 10, 0, 0, 6, 1, 2)];
    let mut bodies_out = Vec::new();
    let mut nodes_out = Vec::new();
    let before = sim.bodies.clone();
    render(&mut sim, &mut spawn, &mut bodies_out, &mut nodes_out);
    assert!(spawn.is_empty());
    assert_eq!(sim.bodies.len(), 12);
    assert_eq!(sim.bodies[10].mass, 5);
    assert_eq!(sim.bodies[11].mass, 6);
    // the snapshot pair is of one body generation: the pre-spawn bodies with
    // the tree that was built from them
    assert_eq!(bodies_out, before);
    assert_eq!(nodes_out.len(), sim.quadtree.nodes.len());
    assert_eq!(nodes_out[0].end, bodies_out.len());
    // the spawned bodies take part in the very next step, and in the next
    // snapshot
    sim.step();
    assert_eq!(sim.bodies.len(), 12);
    assert_eq!(sim.quadtree.nodes[0].end, 12);
    let mut spawn2: Vec<Body> = Vec::new();
    render(&mut sim, &mut spawn2, &mut bodies_out, &mut nodes_out);
    assert_eq!(bodies_out.len(), 12);
    assert_eq!(nodes_out[0].end, 12);
}

#[test]
fn scenario_disc_momentum_drift() {
    // a rotating disc around a heavy center, all carried by a common drift;
    // theta = 1/2, dt = 1/60; after many steps the total momentum stays
    // close to its initial value (symplectic integration, pairwise forces).
    let n = 300;
    let drift: i64 = 2000;
    let mut bodies = Vec::new();
    bodies.push(Body::new(0, 0, drift, 0, 0x4000_0000, 25, 0));
    let mut k: u64 = 1;
    while bodies.len() < n {
        k = k.wrapping_mul(6364136223846793005).wrapping_add(1442695040888963407);
        let ang = (k >> 16) % 6283;
        let r = 20_000 + ((k >> 40) % 60_000) as i64;
        let (s, c) = ((ang as f64) / 1000.0).sin_cos();
        let x = ((c * r as f64) as i64).clamp(-100_000, 100_000);
        let y = ((s * r as f64) as i64).clamp(-100_000, 100_000);
        let vx = ((-s * 300.0) as i64) + drift;
        let vy = (c * 300.0) as i64;
        bodies.push(Body::new(x, y, vx, vy, 1000, 1, 0));
    }
    let p0: (i128, i128) = bodies.iter().fold((0, 0), |acc, b| {
        (acc.0 + (b.mass as i128) * (b.vel_x as i128), acc.1 + (b.mass as i128) * (b.vel_y as i128))
    });
    let mag0 = ((p0.0 as f64).powi(2) + (p0.1 as f64).powi(2)).sqrt();
    assert!(mag0 > 0.0);
    let mut sim = Simulation::new(bodies, Params::new(1, 2, 1000, 4, 1, 60));
    for _ in 0..120 {
        assert!(sim.ready());
        sim.step();
    }
    let p1: (i128, i128) = sim.bodies.iter().fold((0, 0), |acc, b| {
        (acc.0 + (b.mass as i128) * (b.vel_x as i128), acc.1 + (b.mass as i128) * (b.vel_y as i128))
    });
    let drift_mag = (((p1.0 - p0.0) as f64).powi(2) + ((p1.1 - p0.1) as f64).powi(2)).sqrt();
    assert!(drift_mag <= 0.05 * mag0, "momentum drift {} of {}", drift_mag, mag0);
}

#[test]
fn empty_body_set_steps() {
    let mut sim = Simulation::new(Vec::new(), params(1, 2));
    assert!(sim.ready());
    sim.step();
    assert!(sim.bodies.is_empty());
    assert!(sim.quadtree.nodes.is_empty());
}

#[test]
fn coincident_bodies_form_one_leaf() {
    // all bodies at one point: a tree with no internal nodes, and zero
    // acceleration on each (the aggregate sits at their own position)
    let bodies = vec![
        Body::new(100, 100, 0, 0, 7, 1, 0),
        Body::new(100, 100, 0, 0, 11, 1, 0),
        Body::new(100, 100, 0, 0, 13, 1, 0),
    ];
    let sq = bounding_square(&bodies);
    let tree = Quadtree::build(&bodies, sq);
    assert_eq!(tree.nodes.len(), 1);
    assert!(tree.nodes[0].leaf);
    assert_eq!(tree.nodes[0].total_mass, 31);
    assert_eq!((tree.nodes[0].com_x, tree.nodes[0].com_y), (100, 100));
    let pr = params(1, 2);
    for i in 0..3 {
        assert_eq!(acceleration(&tree, &bodies, i, &pr), (0, 0));
    }
}

#[test]
fn extreme_coordinates_build() {
    let m = 0x8000_0000; // the largest supported coordinate magnitude
    let bodies = vec![
        Body::new(-m, -m, 0, 0, 1, 1, 0),
        Body::new(m, m, 0, 0, 1, 1, 0),
        Body::new(m, -m, 0, 0, 1, 1, 0),
    ];
    let sq = bounding_square(&bodies);
    for b in &bodies {
        assert!(in_square_at(&sq, b.pos_x, b.pos_y));
    }
    let tree = Quadtree::build(&bodies, sq);
    assert_eq!(tree.nodes[0].total_mass, 3);
    let pr = params(0, 1);
    let a = acceleration(&tree, &bodies, 0, &pr);
    assert_eq!(a, direct_acceleration(&bodies, 0, &pr));
}

#[test]
fn pause_semantics_equivalent_state() {
    // skipping steps (a pause) then resuming gives the same trajectory as
    // never having observed the pause: a step is atomic and state is only
    // what the bodies hold
    let bodies = scattered(30);
    let mut s1 = Simulation::new(bodies.clone(), params(1, 2));
    let mut s2 = Simulation::new(bodies, params(1, 2));
    s1.step();
    s1.step();
    s2.step();
    // s2 "paused" here: no partial work happened
    s2.step();
    assert_eq!(s1.bodies, s2.bodies);
}
