use force_layout::config::{Config, Ratio};
use force_layout::geom::IVec2;
use force_layout::graph::{new_contacts, Contact, Graph, TickError};
use force_layout::graph::damp_velocity;
use force_layout::repulsion::{repulsive_force, repulsive_force_dir, DirParam};
use force_layout::topology::generate_edges;

fn v(x: i64, y: i64) -> IVec2 {
    IVec2 { x, y }
}

fn default_ratios() -> (Ratio, Ratio) {
    (Ratio::new(50, 1), Ratio::new(1, 1000))
}

#[test]
fn default_config_matches_documented_values() {
    let c = Config::default();
    assert_eq!(c.ideal_length, Ratio { n: 50, d: 1 });
    assert_eq!(c.cooling_factor, Ratio { n: 1, d: 5 });
    assert_eq!(c.node_mass, Ratio { n: 5, d: 1 });
    assert_eq!(c.compliance, Ratio { n: 1, d: 1000 });
    assert_eq!(c.node_total, 50);
    assert_eq!(c.collider_radius, Ratio { n: 49, d: 1 });
}

#[test]
fn topology_six_nodes_gives_two_triples() {
    let (rest, comp) = default_ratios();
    let es = generate_edges(6, rest, comp);
    let pairs: Vec<(usize, usize)> = es.iter().map(|e| (e.a, e.b)).collect();
    assert_eq!(pairs, vec![(0, 1), (0, 2), (3, 4), (3, 5)]);
}

#[test]
fn topology_small_counts_have_no_edges() {
    let (rest, comp) = default_ratios();
    for n in 0..3 {
        assert!(generate_edges(n, rest, comp).is_empty());
    }
}

#[test]
fn topology_edge_count_is_twice_the_triple_count() {
    let (rest, comp) = default_ratios();
    for n in [3usize, 4, 5, 7, 50, 100] {
        let es = generate_edges(n, rest, comp);
        assert_eq!(es.len(), 2 * (n / 3));
        for e in es.iter() {
            assert_ne!(e.a, e.b);
            assert!(e.a < n && e.b < n);
            assert_eq!(e.rest, rest);
            assert_eq!(e.compliance, comp);
        }
    }
}

#[test]
fn repulsion_two_nodes_on_axis() {
    // pA = (0,0), pB = (10,0), ideal length 50: force 2500 / 10 = 250,
    // impulse on A = (-250, 0), on B = (250, 0).
    let l = Ratio::new(50, 1);
    let (ra, rb) = repulsive_force_dir(v(0, 0), v(10, 0), l, DirParam { n: 0, d: 1 });
    // ra == (-250, 0) as an exact rational: xn/den == -250, yn == 0.
    assert_eq!(ra.xn, 2500 * -10);
    assert_eq!(ra.yn, 0);
    assert_eq!(ra.den, 100);
    assert_eq!(ra.xn, -250 * ra.den);
    // exactly opposite
    assert_eq!(rb.xn, -ra.xn);
    assert_eq!(rb.yn, 0);
    assert_eq!(rb.den, ra.den);
}

#[test]
fn repulsion_impulses_are_opposite_with_exact_magnitude() {
    let l = Ratio::new(50, 1);
    let (ra, rb) = repulsive_force(v(3, 4), v(1, 1), l);
    assert_eq!(rb.xn, -ra.xn);
    assert_eq!(rb.yn, -ra.yn);
    assert_eq!(rb.den, ra.den);
    // |impulse|^2 * |diff|^2 == L^4, cross-multiplied: diff = (2,3), d2 = 13.
    let mag2_num = ra.xn * ra.xn + ra.yn * ra.yn;
    let l4: i128 = 2500 * 2500;
    assert_eq!(mag2_num * 13, l4 * ra.den * ra.den);
}

#[test]
fn repulsion_degenerate_pair_has_magnitude_ideal_length_squared() {
    let l = Ratio::new(50, 1);
    // Direction t = 1/1 is the unit vector (0, 1): impulse (0, 2500).
    let (ra, rb) = repulsive_force_dir(v(7, 7), v(7, 7), l, DirParam { n: 1, d: 1 });
    assert_eq!(ra.xn, 0);
    assert_eq!(ra.yn, 2500 * ra.den);
    assert_eq!(rb.yn, -ra.yn);
    // For every direction the squared magnitude is exactly L^4.
    for t in [-3i64, -1, 0, 2, 9] {
        let (ra, rb) = repulsive_force_dir(v(5, -2), v(5, -2), l, DirParam { n: t, d: 4 });
        let mag2_num = ra.xn * ra.xn + ra.yn * ra.yn;
        let l4: i128 = 2500 * 2500;
        assert_eq!(mag2_num, l4 * ra.den * ra.den);
        assert_eq!((rb.xn, rb.yn, rb.den), (-ra.xn, -ra.yn, ra.den));
    }
}

#[test]
fn degenerate_repulsion_draws_a_direction_at_random() {
    let l = Ratio::new(50, 1);
    let (ra, _rb) = repulsive_force(v(5, 5), v(5, 5), l);
    let mag2_num = ra.xn * ra.xn + ra.yn * ra.yn;
    let l4: i128 = 2500 * 2500;
    assert_eq!(mag2_num, l4 * ra.den * ra.den);
}

#[test]
fn tick_applies_repulsion_before_integration() {
    // Scenario: two contacting nodes at (0,0) and (10,0); no springs for
    // n = 2. The queued impulses move the nodes by exactly (-250, 0) and
    // (250, 0), then damping scales the velocities by 1/6, toward zero.
    let cfg = Config::default();
    let mut g = Graph::from_positions(cfg, &vec![v(0, 0), v(10, 0)]);
    let events = vec![Contact { a: 0, b: 1 }];
    let dirs = vec![DirParam { n: 0, d: 1 }];
    let r = g.tick_with_dirs(&events, &dirs);
    assert_eq!(r, Ok(()));
    assert_eq!(g.nodes[0].pos, v(-250, 0));
    assert_eq!(g.nodes[1].pos, v(260, 0));
    assert_eq!(g.nodes[0].vel, v(-41, 0));
    assert_eq!(g.nodes[1].vel, v(41, 0));
}

#[test]
fn contacts_on_one_node_accumulate_additively() {
    // The same pair reported twice: both queued deltas are applied,
    // additively, before integration (no overwrite).
    let cfg = Config::default();
    let mut g = Graph::from_positions(cfg, &vec![v(0, 0), v(10, 0)]);
    let events = vec![Contact { a: 0, b: 1 }, Contact { a: 0, b: 1 }];
    let dirs = vec![DirParam { n: 0, d: 1 }, DirParam { n: 0, d: 1 }];
    let r = g.tick_with_dirs(&events, &dirs);
    assert_eq!(r, Ok(()));
    assert_eq!(g.nodes[0].pos, v(-500, 0));
    assert_eq!(g.nodes[1].pos, v(510, 0));
}

#[test]
fn damping_single_node_slows_toward_rest() {
    // cooling factor 0.2 is damping coefficient 5; one tick takes
    // velocity (100, 0) to (16, 0): strictly smaller, same sign.
    let cfg = Config::default();
    let mut g = Graph::from_positions(cfg, &vec![v(0, 0)]);
    g.nodes[0].vel = v(100, 0);
    let r = g.tick_with_dirs(&vec![], &vec![]);
    assert_eq!(r, Ok(()));
    assert_eq!(g.nodes[0].pos, v(100, 0));
    assert_eq!(g.nodes[0].vel, v(16, 0));
    assert!(g.nodes[0].vel.x > 0 && g.nodes[0].vel.x < 100);
}

#[test]
fn damping_is_exact_truncation_toward_zero() {
    let cool = Ratio::new(1, 5);
    assert_eq!(damp_velocity(v(100, 0), cool), v(16, 0));
    assert_eq!(damp_velocity(v(-100, 7), cool), v(-16, 1));
    assert_eq!(damp_velocity(v(0, 0), cool), v(0, 0));
    assert_eq!(damp_velocity(v(5, -5), cool), v(0, 0));
}

#[test]
fn damping_magnitude_decreases_until_rest() {
    let cfg = Config::default();
    let mut g = Graph::from_positions(cfg, &vec![v(0, 0)]);
    g.nodes[0].vel = v(1000, -300);
    let mut prev = 1000i64 * 1000 + 300 * 300;
    loop {
        assert_eq!(g.tick_with_dirs(&vec![], &vec![]), Ok(()));
        let w = g.nodes[0].vel;
        let m = w.x * w.x + w.y * w.y;
        if prev == 0 {
            assert_eq!(m, 0);
            break;
        }
        assert!(m < prev);
        prev = m;
        if m == 0 {
            break;
        }
    }
}

#[test]
fn override_pins_position_and_is_idempotent() {
    let cfg = Config::default();
    let mut g = Graph::from_positions(cfg, &vec![v(0, 0), v(10, 0)]);
    g.nodes[0].vel = v(3, 4);
    g.apply_override(0, Some(v(55, -7)));
    assert_eq!(g.nodes[0].pos, v(55, -7));
    assert_eq!(g.nodes[0].vel, v(3, 4));
    let before = g.nodes[0];
    g.apply_override(0, Some(v(55, -7)));
    assert_eq!(g.nodes[0], before);
    // The other node is untouched.
    assert_eq!(g.nodes[1].pos, v(10, 0));
}

#[test]
fn override_without_target_is_a_no_op() {
    let cfg = Config::default();
    let mut g = Graph::from_positions(cfg, &vec![v(2, 3)]);
    g.apply_override(0, None);
    assert_eq!(g.nodes[0].pos, v(2, 3));
}

#[test]
fn tick_rejects_a_step_out_of_the_world_region() {
    let cfg = Config::default();
    let mut g = Graph::from_positions(cfg, &vec![v(16777216, 0)]);
    g.nodes[0].vel = v(16777216, 0);
    let r = g.tick_with_dirs(&vec![], &vec![]);
    assert_eq!(r, Err(TickError::OutOfRange));
    // The state is left unchanged.
    assert_eq!(g.nodes[0].pos, v(16777216, 0));
    assert_eq!(g.nodes[0].vel, v(16777216, 0));
}

#[test]
fn springs_pull_stretched_edge_together() {
    // Three nodes in a line; edges (0,1) and (0,2) with rest length 50.
    // Edge (0,1) spans 100: the spring pulls 0 and 1 toward each other.
    let cfg = Config::default();
    let mut g = Graph::from_positions(cfg, &vec![v(0, 0), v(100, 0), v(0, 200)]);
    let r = g.tick_with_dirs(&vec![], &vec![]);
    assert_eq!(r, Ok(()));
    assert!(g.nodes[0].pos.x > 0);
    assert!(g.nodes[1].pos.x < 100);
    // Edge (0,2) spans 200 vertically: node 2 is pulled down.
    assert!(g.nodes[2].pos.y < 200);
    // The exact corrections of the truncating solver.
    assert_eq!(g.nodes[1].pos, v(82, 0));
    assert_eq!(g.nodes[2].pos, v(4, 154));
}

#[test]
fn springs_push_compressed_edge_apart() {
    let cfg = Config::default();
    let mut g = Graph::from_positions(cfg, &vec![v(0, 0), v(10, 0), v(0, 10)]);
    let r = g.tick_with_dirs(&vec![], &vec![]);
    assert_eq!(r, Ok(()));
    // Edge (0,1) is far shorter than the rest length 50: it is solved
    // first, from the starting positions, and pushes its endpoints apart.
    assert!(g.nodes[1].pos.x > 10);
}

#[test]
fn random_start_is_inside_the_placement_disc() {
    let cfg = Config::default();
    let g = Graph::new_random(cfg);
    assert_eq!(g.nodes.len(), 50);
    assert_eq!(g.edges.len(), 2 * (50 / 3));
    for nd in g.nodes.iter() {
        let m = nd.pos.x * nd.pos.x + nd.pos.y * nd.pos.y;
        assert!(m < 500 * 500);
        assert_eq!(nd.vel, v(0, 0));
    }
}

#[test]
fn random_graph_ticks_without_contacts() {
    let cfg = Config::default();
    let mut g = Graph::new_random(cfg);
    for _ in 0..10 {
        assert_eq!(g.tick(&vec![]), Ok(()));
    }
}

#[test]
fn detection_reports_overlapping_pairs_once() {
    // Interaction radius 49: discs overlap below centre distance 98.
    let cfg = Config::default();
    let g = Graph::from_positions(cfg, &vec![v(0, 0), v(10, 0), v(200, 0)]);
    let cs = g.overlapping_pairs();
    let pairs: Vec<(usize, usize)> = cs.iter().map(|c| (c.a, c.b)).collect();
    assert_eq!(pairs, vec![(0, 1)]);
    // Node 2 is 190 away from node 1: reported with neither.
}

#[test]
fn detection_boundary_is_strictly_below_the_diameter() {
    let cfg = Config::default();
    // Centre distance 98 equals the diameter: not overlapping; 97 is.
    let g = Graph::from_positions(cfg, &vec![v(0, 0), v(98, 0)]);
    assert!(g.overlapping_pairs().is_empty());
    let g = Graph::from_positions(cfg, &vec![v(0, 0), v(97, 0)]);
    assert_eq!(g.overlapping_pairs().len(), 1);
}

#[test]
fn contacts_are_edge_triggered() {
    let a = Contact { a: 0, b: 1 };
    let b = Contact { a: 1, b: 2 };
    let c = Contact { a: 2, b: 3 };
    let curr = vec![a, b, c];
    let prev = vec![b];
    let es = new_contacts(&curr, &prev);
    let pairs: Vec<(usize, usize)> = es.iter().map(|e| (e.a, e.b)).collect();
    // Pairs that never separated are not re-reported.
    assert_eq!(pairs, vec![(0, 1), (2, 3)]);
}
