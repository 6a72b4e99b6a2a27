use imo::traits::Solver;
use imo::tsp::def::{TSPInstance, TSPSolution};
use imo::tsp::local_solvers::{LocalGreedySolver, LocalRandomWalker, LocalSteepestSolver};
use imo::tsp::memory_solver::MemorySolver;
use imo::tsp::neighborhoods::edges_transition::EdgesTransition;
use imo::tsp::neighborhoods::inter_cycle_transition::InterCycleTransition;
use imo::tsp::neighborhoods::neighborhood::Neighborhood;
use imo::tsp::neighborhoods::transition::TransitionKind;
use imo::tsp::neighborhoods::vertex_transition::VertexTransition;
use imo::tsp::partial_path::PartialPath;
use imo::tsp::pickers::cycle_picker::CyclePicker;
use imo::tsp::pickers::cycle_simultaneous_picker::CycleSimultaneousPicker;
use imo::tsp::pickers::nearest_picker::NearestPicker;
use imo::tsp::random_solver::RandomSolver;
use imo::tsp::solver::GreedySolver;
use imo::tsp::similarities::edge_similarity::EdgeSimilarity;
use imo::tsp::similarities::vertex_similarity::VertexSimilarity;
use imo::tsp::similarity::Similarity;

/// Rounded Euclidean distance matrix over integer coordinates, as instance
/// files carry them.
fn matrix_from_points(points: &[(f64, f64)]) -> Vec<Vec<i64>> {
    let n = points.len();
    let mut m = vec![vec![0i64; n]; n];
    for i in 0..n {
        for j in 0..n {
            let dx = points[i].0 - points[j].0;
            let dy = points[i].1 - points[j].1;
            m[i][j] = (dx * dx + dy * dy).sqrt().round() as i64;
        }
    }
    m
}

/// Two tight clusters far apart: points 0,1,2 near the origin and points
/// 3,4,5 far away, each an equilateral-ish triangle.
fn two_cluster_instance() -> TSPInstance {
    let points = [
        (0.0, 0.0),
        (10.0, 0.0),
        (5.0, 8.0),
        (1000.0, 0.0),
        (1010.0, 0.0),
        (1005.0, 8.0),
    ];
    TSPInstance::from_matrix(matrix_from_points(&points)).unwrap()
}

fn cluster_solution() -> TSPSolution {
    TSPSolution::new(vec![0, 1, 2], vec![3, 4, 5])
}

fn check_all_nodes(perm_a: &Vec<usize>, perm_b: &Vec<usize>, n: usize) {
    let mut v: Vec<usize> = Vec::new();
    v.append(&mut perm_a.clone());
    v.append(&mut perm_b.clone());
    v.sort();
    assert_eq!(v.len(), n);
    for i in 0..n {
        assert_eq!(v[i], i);
    }
}

#[test]
fn from_matrix_rejects_bad_input() {
    // ragged
    assert!(TSPInstance::from_matrix(vec![vec![0, 1], vec![0]]).is_none());
    // asymmetric
    assert!(TSPInstance::from_matrix(vec![vec![0, 1], vec![2, 0]]).is_none());
    // negative
    assert!(TSPInstance::from_matrix(vec![vec![0, -1], vec![-1, 0]]).is_none());
    // nonzero diagonal
    assert!(TSPInstance::from_matrix(vec![vec![1, 2], vec![2, 1]]).is_none());
    // accepted
    assert!(TSPInstance::from_matrix(vec![vec![0, 2], vec![2, 0]]).is_some());
}

#[test]
fn solution_tables_and_check() {
    let mut s = cluster_solution();
    assert!(s.check());
    assert_eq!(s.cycle, vec![0, 0, 0, 1, 1, 1]);
    assert_eq!(s.order, vec![0, 1, 2, 0, 1, 2]);
    // scramble a table entry and watch check object, then reorder repair it
    s.order[4] = 0;
    assert!(!s.check());
    s.reorder();
    assert!(s.check());
    assert_eq!(s.order, vec![0, 1, 2, 0, 1, 2]);
}

#[test]
fn cluster_exchange_scores_positive() {
    let instance = two_cluster_instance();
    let solution = cluster_solution();
    // swapping point 0 into the far tour and point 3 into the near one
    // stretches both tours across the gap
    let t = InterCycleTransition::new();
    let delta = t.score_explicit(0, 0, &instance, &solution).unwrap();
    assert!(delta > 0);
}

#[test]
fn degenerate_edge_exchange_is_rejected() {
    let solution = cluster_solution();
    // tours of three points admit no 2-opt move at all: every index is out
    // of range for this kind
    let t = EdgesTransition::new();
    assert_eq!(t.size(&solution), 0);
    assert!(t.unpack_state(1, &solution).is_none());
    assert!(t.score(1, &two_cluster_instance(), &solution).is_none());
}

/// Brute-force delta check: applying any scorable move changes the
/// evaluation by exactly the score the move was given beforehand.
#[test]
fn deltas_match_full_reevaluation() {
    let points = [
        (0.0, 0.0),
        (37.0, 5.0),
        (12.0, 40.0),
        (55.0, 33.0),
        (8.0, 19.0),
        (70.0, 12.0),
        (23.0, 61.0),
        (44.0, 48.0),
    ];
    let instance = TSPInstance::from_matrix(matrix_from_points(&points)).unwrap();
    let solution = TSPSolution::new(vec![0, 2, 4, 6], vec![1, 3, 5, 7]);

    let inter = InterCycleTransition::new();
    for state in 1..=inter.size(&solution) {
        let before = instance.eval(&solution);
        let delta = inter.score(state, &instance, &solution).unwrap();
        let mut applied = solution.deep_clone();
        inter.apply(state, &mut applied);
        assert!(applied.check());
        check_all_nodes(&applied.perm_a, &applied.perm_b, 8);
        assert_eq!(instance.eval(&applied) - before, delta);
    }

    let edges = EdgesTransition::new();
    for state in 1..=edges.size(&solution) {
        let before = instance.eval(&solution);
        let delta = edges.score(state, &instance, &solution).unwrap();
        let mut applied = solution.deep_clone();
        edges.apply(state, &mut applied);
        assert!(applied.check());
        check_all_nodes(&applied.perm_a, &applied.perm_b, 8);
        assert_eq!(instance.eval(&applied) - before, delta);
    }

    let vertex = VertexTransition::new();
    for state in 1..=vertex.size(&solution) {
        let before = instance.eval(&solution);
        let delta = vertex.score(state, &instance, &solution).unwrap();
        let mut applied = solution.deep_clone();
        vertex.apply(state, &mut applied);
        // the vertex exchange leaves the position table to the caller
        applied.reorder();
        assert!(applied.check());
        check_all_nodes(&applied.perm_a, &applied.perm_b, 8);
        assert_eq!(instance.eval(&applied) - before, delta);
    }
}

/// Permutation completeness of the pseudorandom enumerator: one full
/// traversal offers every addressable move exactly once.
#[test]
fn random_traversal_visits_every_move_once() {
    let instance = two_cluster_instance();
    let solution = cluster_solution();
    let kinds = vec![TransitionKind::InterCycle, TransitionKind::Vertex];
    let inter_size = InterCycleTransition::new().size(&solution);
    let vertex_size = VertexTransition::new().size(&solution);
    let total = inter_size + vertex_size;
    for _round in 0..10 {
        let mut nbr = Neighborhood::new(kinds.clone(), &solution, true);
        nbr.reset();
        let mut seen = vec![0usize; total + 1];
        while let Some((_delta, idx)) = nbr.next(&instance, &solution) {
            assert!(1 <= idx && idx <= total);
            seen[idx] += 1;
        }
        for idx in 1..=total {
            assert_eq!(seen[idx], 1, "move {} not visited exactly once", idx);
        }
    }
}

#[test]
fn ordered_traversal_visits_every_move_once() {
    let instance = two_cluster_instance();
    let solution = cluster_solution();
    let kinds = vec![TransitionKind::InterCycle, TransitionKind::Edges];
    let total = InterCycleTransition::new().size(&solution) + EdgesTransition::new().size(
        &solution,
    );
    let mut nbr = Neighborhood::new(kinds, &solution, false);
    nbr.reset();
    let mut seen = vec![0usize; total + 1];
    while let Some((_delta, idx)) = nbr.next(&instance, &solution) {
        seen[idx] += 1;
    }
    for idx in 1..=total {
        assert_eq!(seen[idx], 1);
    }
}

#[test]
fn local_search_descends_and_restores_tables() {
    let points = [
        (0.0, 0.0),
        (100.0, 3.0),
        (13.0, 42.0),
        (60.0, 71.0),
        (25.0, 11.0),
        (91.0, 55.0),
        (47.0, 29.0),
        (5.0, 88.0),
        (72.0, 16.0),
        (34.0, 64.0),
    ];
    let instance = TSPInstance::from_matrix(matrix_from_points(&points)).unwrap();
    let start = TSPSolution::new(vec![0, 1, 2, 3, 4], vec![5, 6, 7, 8, 9]);
    let start_cost = instance.eval(&start);

    let greedy = LocalGreedySolver::new(
        RandomSolver::new(),
        vec![TransitionKind::InterCycle, TransitionKind::Edges],
    );
    let improved = greedy.solve_s(0, &instance, start.deep_clone());
    assert!(improved.check());
    check_all_nodes(&improved.perm_a, &improved.perm_b, 10);
    assert!(instance.eval(&improved) <= start_cost);

    let steepest = LocalSteepestSolver::new(
        RandomSolver::new(),
        vec![TransitionKind::InterCycle, TransitionKind::Vertex],
    );
    let improved = steepest.solve_s(0, &instance, start.deep_clone());
    assert!(improved.check());
    check_all_nodes(&improved.perm_a, &improved.perm_b, 10);
    assert!(instance.eval(&improved) <= start_cost);

    let walker = LocalRandomWalker::new(
        RandomSolver::new(),
        vec![TransitionKind::InterCycle, TransitionKind::Edges],
    );
    let walked = walker.walk(&instance, start.deep_clone(), 25);
    assert!(walked.check());
    check_all_nodes(&walked.perm_a, &walked.perm_b, 10);
    assert!(instance.eval(&walked) <= start_cost);
}

/// The incremental engine reaches a solution at least as good as the
/// full-rescan steepest engine from the same start.
#[test]
fn incremental_matches_full_rescan() {
    let points = [
        (0.0, 0.0),
        (100.0, 3.0),
        (13.0, 42.0),
        (60.0, 71.0),
        (25.0, 11.0),
        (91.0, 55.0),
        (47.0, 29.0),
        (5.0, 88.0),
        (72.0, 16.0),
        (34.0, 64.0),
        (83.0, 37.0),
        (19.0, 73.0),
    ];
    let instance = TSPInstance::from_matrix(matrix_from_points(&points)).unwrap();
    let start = TSPSolution::new(vec![0, 1, 2, 3, 4, 5], vec![6, 7, 8, 9, 10, 11]);

    let steepest = LocalSteepestSolver::new(
        RandomSolver::new(),
        vec![TransitionKind::InterCycle, TransitionKind::Edges],
    );
    let full = steepest.solve_s(0, &instance, start.deep_clone());

    let memory = MemorySolver::new(RandomSolver::new());
    let incremental = memory.solve_s(0, &instance, start.deep_clone());
    assert!(incremental.check());
    check_all_nodes(&incremental.perm_a, &incremental.perm_b, 12);
    assert!(instance.eval(&incremental) <= instance.eval(&start));
    assert!(instance.eval(&incremental) <= instance.eval(&full));
}

#[test]
fn random_solver_partitions_all_points() {
    let instance = two_cluster_instance();
    let solver = RandomSolver::new();
    for _ in 0..5 {
        let s = solver.solve(0, &instance);
        assert!(s.check());
        check_all_nodes(&s.perm_a, &s.perm_b, 6);
        assert_eq!(s.perm_a.len(), 3);
        assert_eq!(s.perm_b.len(), 3);
    }
}

#[test]
fn random_helpers_behave() {
    for _ in 0..20 {
        let (x, y) = imo::utils::random_combination(7);
        assert!(x < 7 && y < 7 && x != y);
        let p = imo::utils::random_permutation(9);
        let mut sorted = p.clone();
        sorted.sort();
        assert_eq!(sorted, (0..9).collect::<Vec<usize>>());
    }
}

#[test]
fn similarity_measures() {
    let instance = two_cluster_instance();
    let s1 = cluster_solution();
    let s2 = TSPSolution::new(vec![3, 4, 5], vec![0, 1, 2]);
    let s3 = TSPSolution::new(vec![0, 1, 3], vec![2, 4, 5]);

    let vs = VertexSimilarity::new();
    // identical memberships agree everywhere
    assert_eq!(vs.sim(&instance, &s1, &s1), 6);
    // swapped tour labels still count as full agreement after the flip
    assert_eq!(vs.sim(&instance, &s1, &s2), 6);
    assert_eq!(vs.sim(&instance, &s1, &s3), 4);

    let es = EdgeSimilarity::new();
    // every edge of a solution is shared with itself
    assert_eq!(es.sim(&instance, &s1, &s1), 6);
    assert_eq!(es.sim(&instance, &s1, &s2), 6);
    // reversing one tour keeps the same undirected edges
    let s4 = TSPSolution::new(vec![2, 1, 0], vec![3, 4, 5]);
    assert_eq!(es.sim(&instance, &s1, &s4), 6);
}

#[test]
fn greedy_construction_covers_all_points() {

    let points = [
        (0.0, 0.0),
        (100.0, 3.0),
        (13.0, 42.0),
        (60.0, 71.0),
        (25.0, 11.0),
        (91.0, 55.0),
        (47.0, 29.0),
    ];
    let instance = TSPInstance::from_matrix(matrix_from_points(&points)).unwrap();

    let cycle_greedy = GreedySolver::new(CyclePicker::new());
    let s = cycle_greedy.solve(0, &instance);
    assert!(s.check());
    check_all_nodes(&s.perm_a, &s.perm_b, 7);
    // the tours differ in size by at most one
    assert!(s.perm_a.len().abs_diff(s.perm_b.len()) <= 1);

    let nearest_greedy = GreedySolver::new(NearestPicker::new());
    let s = nearest_greedy.solve(2, &instance);
    assert!(s.check());
    check_all_nodes(&s.perm_a, &s.perm_b, 7);

    // the greedy construction can seed the local engines
    let refined = LocalGreedySolver::new(
        GreedySolver::new(CyclePicker::new()),
        vec![TransitionKind::InterCycle, TransitionKind::Edges],
    )
    .solve(0, &instance);
    assert!(refined.check());
    check_all_nodes(&refined.perm_a, &refined.perm_b, 7);
    assert!(instance.eval(&refined) <= instance.eval(&cycle_greedy.solve(0, &instance)));
}

#[test]
fn try_insert_scores_the_detour() {

    let instance = two_cluster_instance();
    let path = PartialPath { instance: &instance, vec: vec![0, 1] };
    // inserting point 2 between 1 and 0 pays both new edges minus the one
    // removed
    let d01 = instance.dist_k(0, 1);
    let d12 = instance.dist_k(1, 2);
    let d20 = instance.dist_k(2, 0);
    assert_eq!(path.try_insert(0, 2), d12 + d20 - d01);
}

#[test]
fn simultaneous_greedy_construction() {
    let points = [
        (0.0, 0.0),
        (100.0, 3.0),
        (13.0, 42.0),
        (60.0, 71.0),
        (25.0, 11.0),
        (91.0, 55.0),
        (47.0, 29.0),
        (5.0, 88.0),
    ];
    let instance = TSPInstance::from_matrix(matrix_from_points(&points)).unwrap();
    let solver = GreedySolver::new(CycleSimultaneousPicker::new());
    let s = solver.solve(1, &instance);
    assert!(s.check());
    check_all_nodes(&s.perm_a, &s.perm_b, 8);
    assert_eq!(s.perm_a.len(), 4);
    assert_eq!(s.perm_b.len(), 4);
}
