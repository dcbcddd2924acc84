use rust_maze_solver::bitset::NodeBitset;
use rust_maze_solver::clock::{budget_used, Deadline};
use rust_maze_solver::exact::{exact_longest_path, exact_start_nodes, longest_path_avoiding, longest_path_from};
use rust_maze_solver::faces::find_faces;
use rust_maze_solver::graph::{Graph, GraphError};
use rust_maze_solver::heuristic::{heuristic_longest_path, heuristic_start_nodes};
use rust_maze_solver::improve::{accepts, anneal_step, exp_neg_ppm, improve_path, Rng};
use rust_maze_solver::labels::{parse_label, sort_clockwise};
use rust_maze_solver::path::{is_simple_path, validate_path};
use rust_maze_solver::refine::{dedup_nodes, free_region, refine_end, refine_endpoints};
use rust_maze_solver::solve::{solve_component, solve_components, SolverPolicy};

fn comp(entries: &[(&str, &[&str])]) -> Vec<(String, Vec<String>)> {
    entries
        .iter()
        .map(|(n, nb)| (n.to_string(), nb.iter().map(|s| s.to_string()).collect()))
        .collect()
}

fn adjacent(c: &[(String, Vec<String>)], a: &str, b: &str) -> bool {
    a != b
        && c.iter().any(|(n, nb)| (n == a && nb.iter().any(|x| x == b)) || (n == b && nb.iter().any(|x| x == a)))
}

fn assert_name_path(c: &[(String, Vec<String>)], p: &[String]) {
    for i in 0..p.len() {
        for j in (i + 1)..p.len() {
            assert_ne!(p[i], p[j], "repeated node in {:?}", p);
        }
    }
    for w in p.windows(2) {
        assert!(adjacent(c, &w[0], &w[1]), "{} and {} are not adjacent", w[0], w[1]);
    }
}

fn cycle4() -> Vec<(String, Vec<String>)> {
    comp(&[("A", &["B", "D"]), ("B", &["A", "C"]), ("C", &["B", "D"]), ("D", &["C", "A"])])
}

fn star5() -> Vec<(String, Vec<String>)> {
    comp(&[
        ("X", &["L1", "L2", "L3", "L4", "L5"]),
        ("L1", &["X"]),
        ("L2", &["X"]),
        ("L3", &["X"]),
        ("L4", &["X"]),
        ("L5", &["X"]),
    ])
}

fn graph_of(n: usize, edges: &[(u32, u32)]) -> Graph {
    let mut g = Graph::new();
    for _ in 0..n {
        g.add_node().unwrap();
    }
    for &(a, b) in edges {
        g.add_edge(a, b).unwrap();
    }
    g
}

fn grid(w: u32, h: u32) -> Graph {
    let mut edges = Vec::new();
    for r in 0..h {
        for c in 0..w {
            let v = r * w + c;
            if c + 1 < w {
                edges.push((v, v + 1));
            }
            if r + 1 < h {
                edges.push((v, v + w));
            }
        }
    }
    graph_of((w * h) as usize, &edges)
}

#[test]
fn scenario_cycle_visits_all_four() {
    let c = cycle4();
    let p = solve_component(&c, &SolverPolicy::unlimited()).unwrap();
    assert_eq!(p.len(), 4);
    assert_name_path(&c, &p);
}

#[test]
fn scenario_star_path_has_three_nodes() {
    let c = star5();
    let p = solve_component(&c, &SolverPolicy::unlimited()).unwrap();
    assert_eq!(p.len(), 3);
    assert_eq!(p[1], "X");
    assert_name_path(&c, &p);
}

#[test]
fn scenario_two_components_in_order() {
    let comps = vec![cycle4(), star5()];
    let out = solve_components(&comps, &SolverPolicy::unlimited());
    assert_eq!(out.len(), 2);
    let first = out[0].clone().unwrap();
    let second = out[1].clone().unwrap();
    assert_eq!(first.len(), 4);
    assert_name_path(&comps[0], &first);
    assert_eq!(second.len(), 3);
    assert_eq!(second[1], "X");
    assert_name_path(&comps[1], &second);
}

#[test]
fn scenario_chain_full_length() {
    let c = comp(&[("A", &["B"]), ("B", &["A", "C"]), ("C", &["B", "D"]), ("D", &["C", "E"]), ("E", &["D"])]);
    let p = solve_component(&c, &SolverPolicy::unlimited()).unwrap();
    let fwd: Vec<String> = ["A", "B", "C", "D", "E"].iter().map(|s| s.to_string()).collect();
    let mut bwd = fwd.clone();
    bwd.reverse();
    assert!(p == fwd || p == bwd, "{:?}", p);
}

#[test]
fn empty_component_gives_empty_path() {
    let c: Vec<(String, Vec<String>)> = Vec::new();
    assert_eq!(solve_component(&c, &SolverPolicy::unlimited()).unwrap(), Vec::<String>::new());
}

#[test]
fn lone_node_is_its_own_path() {
    let c = comp(&[("7", &[])]);
    assert_eq!(solve_component(&c, &SolverPolicy::unlimited()).unwrap(), vec!["7".to_string()]);
}

#[test]
fn neighbor_only_names_become_nodes() {
    let c = comp(&[("A", &["B"]), ("B", &["C"])]);
    let p = solve_component(&c, &SolverPolicy::unlimited()).unwrap();
    assert_eq!(p.len(), 3);
    assert_name_path(&c, &p);
}

#[test]
fn degree_over_capacity_fails_alone() {
    let leaves: Vec<String> = (0..9).map(|i| format!("L{}", i)).collect();
    let mut big = vec![("H".to_string(), leaves.clone())];
    for l in &leaves {
        big.push((l.clone(), vec!["H".to_string()]));
    }
    let out = solve_components(&vec![big, cycle4()], &SolverPolicy::unlimited());
    assert_eq!(out[0], Err(GraphError::CapacityExceeded));
    assert_eq!(out[1].clone().unwrap().len(), 4);
}

#[test]
fn too_many_nodes_fails() {
    let mut c = Vec::new();
    for i in 0..2049 {
        c.push((format!("{}", i), Vec::new()));
    }
    assert_eq!(solve_component(&c, &SolverPolicy::unlimited()), Err(GraphError::CapacityExceeded));
}

#[test]
fn larger_component_uses_heuristic_and_stays_valid() {
    let mut c = Vec::new();
    let w = 12;
    let h = 11;
    for r in 0..h {
        for col in 0..w {
            let v = r * w + col;
            let mut nb = Vec::new();
            if col > 0 {
                nb.push(format!("{}", v - 1));
            }
            if col + 1 < w {
                nb.push(format!("{}", v + 1));
            }
            if r > 0 {
                nb.push(format!("{}", v - w));
            }
            if r + 1 < h {
                nb.push(format!("{}", v + w));
            }
            c.push((format!("{}", v), nb));
        }
    }
    let mut policy = SolverPolicy::standard(3);
    policy.heuristic_budget_ms = Some(3000);
    policy.improve_budget_ms = Some(1000);
    let p = solve_component(&c, &policy).unwrap();
    assert!(p.len() >= 2);
    assert_name_path(&c, &p);
}

#[test]
fn add_edge_is_symmetric_and_idempotent() {
    let mut g = graph_of(3, &[]);
    assert_eq!(g.add_edge(0, 1), Ok(()));
    assert_eq!(g.add_edge(1, 0), Ok(()));
    assert_eq!(g.add_edge(0, 1), Ok(()));
    assert_eq!(g.get_neighbors(0), vec![1]);
    assert_eq!(g.get_neighbors(1), vec![0]);
    assert_eq!(g.add_edge(2, 2), Ok(()));
    assert_eq!(g.get_neighbors(2), Vec::<u32>::new());
    assert_eq!(g.add_edge(0, 3), Err(GraphError::UnknownNode));
    assert_eq!(g.get_neighbors(9), Vec::<u32>::new());
}

#[test]
fn add_edge_degree_capacity() {
    let mut g = graph_of(10, &[]);
    for v in 1..9 {
        assert_eq!(g.add_edge(0, v), Ok(()));
    }
    assert_eq!(g.get_neighbors(0), vec![1, 2, 3, 4, 5, 6, 7, 8]);
    assert_eq!(g.add_edge(0, 9), Err(GraphError::CapacityExceeded));
    assert_eq!(g.get_neighbors(9), Vec::<u32>::new());
    assert_eq!(g.add_edge(0, 8), Ok(()));
}

#[test]
fn add_node_capacity() {
    let mut g = Graph::new();
    for i in 0..2048u32 {
        assert_eq!(g.add_node(), Ok(i));
    }
    assert_eq!(g.add_node(), Err(GraphError::CapacityExceeded));
    assert_eq!(g.node_count(), 2048);
}

#[test]
fn from_rows_checks_shape() {
    assert!(Graph::from_rows(&vec![vec![1], vec![0]]).is_ok());
    assert_eq!(Graph::from_rows(&vec![vec![1], vec![]]).err(), Some(GraphError::MalformedAdjacency));
    assert_eq!(Graph::from_rows(&vec![vec![0]]).err(), Some(GraphError::MalformedAdjacency));
    assert_eq!(Graph::from_rows(&vec![vec![1, 1], vec![0]]).err(), Some(GraphError::MalformedAdjacency));
    assert_eq!(Graph::from_rows(&vec![vec![2]]).err(), Some(GraphError::MalformedAdjacency));
    let mut rows = vec![(1..10).collect::<Vec<u32>>()];
    for _ in 1..10 {
        rows.push(vec![0]);
    }
    assert_eq!(Graph::from_rows(&rows).err(), Some(GraphError::CapacityExceeded));
}

#[test]
fn next_clockwise_wraps_around() {
    let g = graph_of(4, &[(0, 1), (0, 2), (0, 3)]);
    assert_eq!(g.next_clockwise_neighbor(0, 1), Some(2));
    assert_eq!(g.next_clockwise_neighbor(0, 3), Some(1));
    assert_eq!(g.next_clockwise_neighbor(1, 0), Some(0));
    assert_eq!(g.next_clockwise_neighbor(1, 2), None);
}

#[test]
fn validator_rejects_repeats_and_gaps() {
    let g = graph_of(4, &[(0, 1), (1, 2), (2, 3)]);
    assert!(validate_path(&g, &vec![]));
    assert!(validate_path(&g, &vec![0, 1, 2, 3]));
    assert!(!validate_path(&g, &vec![0, 1, 0]));
    assert!(!validate_path(&g, &vec![0, 2]));
    assert!(!validate_path(&g, &vec![3, 9]));
    let p = vec![1, 2, 3];
    let first = validate_path(&g, &p);
    let second = validate_path(&g, &p);
    assert_eq!(first, second);
    assert_eq!(p, vec![1, 2, 3]);
    assert!(is_simple_path(&g, &p));
    assert!(!is_simple_path(&g, &vec![9]));
}

#[test]
fn exact_search_is_complete_without_deadline() {
    let g = graph_of(5, &[(0, 1), (1, 2), (2, 3), (3, 4), (1, 3)]);
    let r = exact_longest_path(&g, &Deadline::unlimited());
    assert!(r.complete);
    assert_eq!(r.path.len(), 5);
    assert!(validate_path(&g, &r.path));
    let (from, done) = longest_path_from(&g, 2, &Deadline::unlimited());
    assert!(done);
    assert_eq!(from[0], 2);
    assert_eq!(from.len(), 4);
}

#[test]
fn exact_start_nodes_prefer_low_degree() {
    let g = graph_of(4, &[(0, 1), (0, 2), (0, 3), (1, 2)]);
    assert_eq!(exact_start_nodes(&g), vec![1, 2, 3]);
    let k4 = graph_of(4, &[(0, 1), (0, 2), (0, 3), (1, 2), (1, 3), (2, 3)]);
    assert_eq!(exact_start_nodes(&k4), vec![0, 1, 2, 3]);
}

#[test]
fn exact_not_shorter_than_heuristic() {
    let g = grid(3, 3);
    let exact = exact_longest_path(&g, &Deadline::unlimited());
    let faces = find_faces(&g);
    let heur = heuristic_longest_path(&g, &faces, &Deadline::unlimited());
    assert!(validate_path(&g, &heur));
    assert!(exact.path.len() >= heur.len());
    assert_eq!(exact.path.len(), 9);
}

#[test]
fn faces_consume_each_half_edge_once() {
    let g = grid(3, 3);
    let fs = find_faces(&g);
    let n = g.node_count();
    for u in 0..n {
        let deg = g.get_neighbors(u as u32).len();
        for k in 0..8 {
            let slot = fs.consumed_by[u * 8 + k];
            if k < deg {
                assert!(slot.unwrap() < fs.attempts);
            } else {
                assert!(slot.is_none());
            }
        }
    }
    for f in &fs.faces {
        assert!(f.len() >= 3 && f.len() <= 16);
        for w in f.windows(2) {
            assert!(g.get_neighbors(w[0]).contains(&w[1]));
        }
        assert!(g.get_neighbors(*f.last().unwrap()).contains(&f[0]));
    }
}

#[test]
fn faces_of_a_square() {
    let g = graph_of(4, &[(0, 1), (1, 2), (2, 3), (3, 0)]);
    let fs = find_faces(&g);
    assert_eq!(fs.attempts, 2);
    assert_eq!(fs.faces.len(), 2);
    assert_eq!(fs.faces[0].len(), 4);
}

#[test]
fn heuristic_candidates_small_graph_all_nodes() {
    let g = grid(3, 2);
    assert_eq!(heuristic_start_nodes(&g), vec![0, 1, 2, 3, 4, 5]);
    let big = grid(20, 15);
    let s = heuristic_start_nodes(&big);
    assert!(!s.is_empty() && s.len() <= 254);
    assert!(s.iter().all(|&v| (v as usize) < big.node_count()));
}

#[test]
fn heuristic_on_grid_is_valid() {
    let g = grid(14, 14);
    let fs = find_faces(&g);
    let p = heuristic_longest_path(&g, &fs, &Deadline::after_ms(2000));
    assert!(p.len() >= 14);
    assert!(is_simple_path(&g, &p));
}

#[test]
fn refinement_never_shortens() {
    let g = grid(4, 4);
    let p: Vec<u32> = vec![0, 1, 2, 3, 7, 6, 5];
    let r = refine_endpoints(&g, &p, &Deadline::unlimited());
    assert!(r.len() >= p.len());
    assert!(is_simple_path(&g, &r));
    let short = vec![0, 1];
    assert_eq!(refine_endpoints(&g, &short, &Deadline::unlimited()), short);
}

#[test]
fn refinement_extends_into_free_region() {
    let g = graph_of(8, &[(0, 1), (1, 2), (2, 3), (3, 4), (4, 5), (5, 6), (6, 7)]);
    let p: Vec<u32> = vec![0, 1, 2, 3, 4, 5];
    let r = refine_endpoints(&g, &p, &Deadline::unlimited());
    assert_eq!(r, vec![0, 1, 2, 3, 4, 5, 6, 7]);
}

#[test]
fn improver_never_shortens() {
    let g = grid(5, 5);
    let p: Vec<u32> = vec![12, 13, 14];
    let mut rng = Rng::new(42);
    let r = improve_path(&g, &p, &mut rng, &Deadline::after_ms(500));
    assert!(r.len() >= p.len());
    assert!(is_simple_path(&g, &r));
}

#[test]
fn rng_replays_from_seed() {
    let mut a = Rng::new(7);
    let mut b = Rng::new(7);
    for _ in 0..10 {
        assert_eq!(a.next_u64(), b.next_u64());
    }
    let mut c = Rng::new(1);
    assert_eq!(c.next_u64(), 1 ^ (1 << 13) ^ ((1 ^ (1 << 13)) >> 7) ^ ((1 ^ (1 << 13) ^ ((1 ^ (1 << 13)) >> 7)) << 17));
    for _ in 0..100 {
        assert!(c.below(6) < 6);
    }
}

#[test]
fn labels_parse_decimal_names() {
    assert_eq!(parse_label("123"), 123);
    assert_eq!(parse_label("0"), 0);
    assert_eq!(parse_label("12a"), 0);
    assert_eq!(parse_label(""), 0);
    assert_eq!(parse_label("18446744073709551615"), u64::MAX);
    assert_eq!(parse_label("18446744073709551616"), 0);
}

#[test]
fn clockwise_order_around_center() {
    let labels: Vec<u64> = vec![5, 4, 6, 1, 9, 0];
    let row: Vec<u32> = vec![1, 2, 3, 4, 5];
    assert_eq!(sort_clockwise(&row, &labels, 0), vec![5, 3, 2, 4, 1]);
}

#[test]
fn repeated_entries_and_listings_merge() {
    let c = comp(&[("A", &["B", "B"]), ("A", &["C"]), ("B", &["A"]), ("C", &[])]);
    let p = solve_component(&c, &SolverPolicy::unlimited()).unwrap();
    assert_eq!(p.len(), 3);
    assert_eq!(p[1], "A");
    assert_name_path(&c, &p);
}

#[test]
fn self_listing_is_ignored() {
    let c = comp(&[("A", &["A", "B"]), ("B", &["A"])]);
    let p = solve_component(&c, &SolverPolicy::unlimited()).unwrap();
    assert_eq!(p.len(), 2);
    assert_name_path(&c, &p);
}

#[test]
fn dedup_keeps_first_occurrences() {
    assert_eq!(dedup_nodes(&vec![3, 1, 3, 2, 1, 5000, 2]), vec![3, 1, 2]);
    assert_eq!(dedup_nodes(&vec![]), Vec::<u32>::new());
}

#[test]
fn budget_used_at_the_limit() {
    assert!(budget_used(12_000, 12_000));
    assert!(!budget_used(11_999, 12_000));
}

#[test]
fn annealing_acceptance_rule() {
    assert_eq!(exp_neg_ppm(0), 1_000_000);
    assert_eq!(exp_neg_ppm(1_000_000), 367_879);
    assert!(accepts(5, 4, 1, 999_999));
    assert!(accepts(3, 4, 1_000_000, 0));
    assert!(!accepts(3, 4, 1_000_000, 400_000));
    let g = graph_of(3, &[(0, 1), (1, 2)]);
    assert_eq!(anneal_step(&g, &vec![0, 1], &vec![0, 1, 2], 1_000_000, 999_999), vec![0, 1, 2]);
    assert_eq!(anneal_step(&g, &vec![0, 1], &vec![0, 2], 1_000_000, 0), vec![0, 1]);
    assert_eq!(anneal_step(&g, &vec![0, 1, 2], &vec![1, 2], 1_000_000, 999_999), vec![0, 1, 2]);
}

#[test]
fn search_avoiding_blocked_nodes() {
    let g = graph_of(5, &[(0, 1), (1, 2), (2, 3), (3, 4), (0, 4)]);
    let mut blocked = NodeBitset::new();
    blocked.set(4);
    let (p, done) = longest_path_avoiding(&g, 0, &blocked, &Deadline::unlimited());
    assert!(done);
    assert_eq!(p, vec![0, 1, 2, 3]);
}

#[test]
fn free_region_stops_at_excluded() {
    let g = graph_of(5, &[(0, 1), (1, 2), (2, 3), (3, 4)]);
    let mut ex = NodeBitset::new();
    ex.set(3);
    let r = free_region(&g, 1, &ex);
    assert_eq!(r, vec![1, 0, 2]);
}

#[test]
fn refine_back_end_regrows() {
    let g = graph_of(9, &[(0, 1), (1, 2), (2, 3), (3, 4), (4, 5), (5, 6), (3, 7), (7, 8)]);
    let p: Vec<u32> = vec![0, 1, 2, 3, 4, 5];
    let r = refine_end(&g, &p, false, &Deadline::unlimited());
    assert_eq!(r.len(), 7);
    assert!(is_simple_path(&g, &r));
}
