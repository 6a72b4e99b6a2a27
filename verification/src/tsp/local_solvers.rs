use crate::traits::Solver;
use crate::tsp::def::{lemma_range_cost_bounds, sol_cost, TSPInstance, TSPSolution};
use crate::tsp::neighborhoods::neighborhood::{
    lemma_inv_transfer, lemma_locate_in_total, lemma_ordered_walk, nbr_step_n, Neighborhood,
};
use crate::tsp::neighborhoods::transition::{
    is_local_optimum, kind_delta, kinds_ok, locate, steepest_choice, TransitionKind,
};
use vstd::prelude::*;

verus! {

/// A fresh copy of a kind list.
fn copy_kinds(src: &Vec<TransitionKind>) -> (r: Vec<TransitionKind>)
    ensures
        r@ == src@,
{
    let mut out: Vec<TransitionKind> = Vec::new();
    let n = src.len();
    let mut i: usize = 0;
    while i < n
        invariant
            n == src@.len(),
            i <= n,
            out@ == src@.subrange(0, i as int),
        decreases n - i,
    {
        out.push(src[i]);
        proof {
            assert(out@ =~= src@.subrange(0, i + 1));
        }
        i += 1;
    }
    proof {
        assert(out@ =~= src@);
    }
    out
}

/// The objective is a sum of nonnegative edge lengths.
proof fn lemma_sol_cost_nonneg(inst: TSPInstance, s: TSPSolution)
    requires
        inst.wf(),
        s.wf_base(),
        s.n() == inst.n(),
    ensures
        sol_cost(inst, s) >= 0,
{
    lemma_range_cost_bounds(inst, s.perm_a@, 0, s.perm_a@.len() as int);
    lemma_range_cost_bounds(inst, s.perm_b@, 0, s.perm_b@.len() as int);
}

/// In ordered mode one `next` call offers exactly the count-up index at the
/// new step count; everything passed over lies beyond the move space, and a
/// pass that comes back empty has stepped across the whole space.
proof fn lemma_pass_accumulates(pre: Neighborhood, post: Neighborhood, r: Option<(i64, usize)>)
    requires
        !pre.random,
        post.random == pre.random,
        post.group_size == pre.group_size,
        post.generator == pre.generator,
        post.transition_sizes@ == pre.transition_sizes@,
        pre.start_state == 1,
        post.start_state == 1,
        pre.group_size as int == pre.total() + 1,
        post.steps < post.group_size,
        match r {
            Some(pair) => post.steps > pre.steps && pair.1 as int == nbr_step_n(
                pre,
                1,
                (post.steps - 1) as nat,
            ) && forall|m: int|
                pre.steps <= m < post.steps - 1 ==> !(1 <= #[trigger] nbr_step_n(pre, 1, m as nat)
                    <= pre.total()),
            None => post.steps >= 1 && nbr_step_n(pre, 1, post.steps as nat) == 1 && forall|m: int|
                pre.steps <= m < post.steps ==> !(1 <= #[trigger] nbr_step_n(pre, 1, m as nat)
                    <= pre.total()),
        },
    ensures
        match r {
            Some(pair) => pair.1 as int == post.steps as int && (post.steps as int <= pre.steps + 1
                || pre.steps as int >= pre.total()),
            None => post.steps as int >= pre.total() && (post.steps <= pre.steps
                || pre.steps as int >= pre.total()),
        },
{
    let gen = pre.generator as int;
    let gs = pre.group_size as int;
    match r {
        Some(pair) => {
            lemma_ordered_walk(gen, gs, (post.steps - 1) as nat);
            if post.steps as int > pre.steps + 1 {
                let m0: int = pre.steps as int;
                lemma_ordered_walk(gen, gs, m0 as nat);
                assert(nbr_step_n(pre, 1, m0 as nat) == 1 + m0);
                assert(!(1 <= 1 + m0 <= pre.total()));
            }
        },
        None => {
            if post.steps as int <= gs - 2 {
                lemma_ordered_walk(gen, gs, post.steps as nat);
                assert(nbr_step_n(pre, 1, post.steps as nat) == 1 + post.steps);
                assert(false);
            }
            assert(post.steps as int == gs - 1);
            if post.steps > pre.steps {
                let m0: int = pre.steps as int;
                lemma_ordered_walk(gen, gs, m0 as nat);
                assert(nbr_step_n(pre, 1, m0 as nat) == 1 + m0);
                assert(!(1 <= 1 + m0 <= pre.total()));
            }
        },
    }
}

/// One full local-search descent pass state: drives the enumerator over a
/// solution until either an improving move has been applied or the
/// neighborhood is exhausted.  Returns whether a move was applied.
fn greedy_pass(
    neighborhood: &mut Neighborhood,
    instance: &TSPInstance,
    solution: &mut TSPSolution,
) -> (improved: bool)
    requires
        old(neighborhood).inv(*old(solution)),
        kinds_ok(old(neighborhood).transitions@),
        instance.wf(),
        old(solution).wf_base(),
        old(solution).memb_ok(),
        old(solution).n() == instance.n(),
        3 <= old(solution).perm_a@.len(),
        3 <= old(solution).perm_b@.len(),
        old(neighborhood).transitions@.contains(TransitionKind::Edges) ==> old(solution).pos_ok(),
    ensures
        final (neighborhood).inv(*final (solution)),
        final (neighborhood).transitions@ == old(neighborhood).transitions@,
        final (neighborhood).random == old(neighborhood).random,
        final (solution).wf_base(),
        final (solution).memb_ok(),
        final (solution).n() == old(solution).n(),
        final (solution).perm_a@.len() == old(solution).perm_a@.len(),
        final (solution).perm_b@.len() == old(solution).perm_b@.len(),
        old(neighborhood).transitions@.contains(TransitionKind::Edges) ==> final (
        solution).pos_ok(),
        improved ==> sol_cost(*instance, *final (solution)) < sol_cost(*instance, *old(solution)),
        !improved ==> *final (solution) == *old(solution),
        !improved && !old(neighborhood).random ==> is_local_optimum(
            *instance,
            *final (solution),
            old(neighborhood).transitions@,
        ),
{
    neighborhood.reset();
    loop
        invariant_except_break
            *solution == *old(solution),
        invariant
            neighborhood.inv(*solution),
            kinds_ok(neighborhood.transitions@),
            neighborhood.transitions@ == old(neighborhood).transitions@,
            neighborhood.random == old(neighborhood).random,
            instance.wf(),
            solution.wf_base(),
            solution.memb_ok(),
            solution.n() == instance.n(),
            3 <= solution.perm_a@.len(),
            3 <= solution.perm_b@.len(),
            solution.perm_a@.len() == old(solution).perm_a@.len(),
            solution.perm_b@.len() == old(solution).perm_b@.len(),
            neighborhood.transitions@.contains(TransitionKind::Edges) ==> solution.pos_ok(),
            !neighborhood.random ==> neighborhood.start_state == 1,
            !neighborhood.random ==> forall|t: int|
                1 <= t <= neighborhood.steps && t <= neighborhood.total()
                    ==> match #[trigger] locate(*solution, neighborhood.transitions@, 0, t) {
                    Some(kl) => kind_delta(
                        *instance,
                        *solution,
                        neighborhood.transitions@[kl.0],
                        kl.1,
                    ) >= 0,
                    None => true,
                },
        ensures
            neighborhood.inv(*solution),
            neighborhood.transitions@ == old(neighborhood).transitions@,
            solution.wf_base(),
            solution.memb_ok(),
            solution.n() == instance.n(),
            solution.perm_a@.len() == old(solution).perm_a@.len(),
            solution.perm_b@.len() == old(solution).perm_b@.len(),
            neighborhood.transitions@.contains(TransitionKind::Edges) ==> solution.pos_ok(),
            *solution == *old(solution),
            !neighborhood.random ==> is_local_optimum(
                *instance,
                *solution,
                neighborhood.transitions@,
            ),
        decreases neighborhood.group_size - neighborhood.steps,
    {
        let ghost nbr_pre = *neighborhood;
        let score = neighborhood.next(instance, solution);
        proof {
            if !neighborhood.random {
                lemma_pass_accumulates(nbr_pre, *neighborhood, score);
            }
        }
        match score {
            Some(x) => {
                if x.0 < 0 {
                    let ghost pre = *solution;
                    proof {
                        let loc = crate::tsp::neighborhoods::transition::locate(
                            *solution,
                            neighborhood.transitions@,
                            0,
                            x.1 as int,
                        );
                        let kl = loc.unwrap();
                        if neighborhood.transitions@[kl.0] == TransitionKind::Edges {
                            assert(neighborhood.transitions@.contains(TransitionKind::Edges));
                        }
                        assert(solution.n() <= crate::tsp::def::MAX_DIM as int);
                    }
                    neighborhood.apply_transition(x.1, solution);
                    proof {
                        lemma_inv_transfer(*neighborhood, pre, *solution);
                        assert(sol_cost(*instance, *solution) == sol_cost(*instance, pre) + x.0);
                        let loc = crate::tsp::neighborhoods::transition::locate(
                            pre,
                            neighborhood.transitions@,
                            0,
                            x.1 as int,
                        );
                        let kl = loc.unwrap();
                        if neighborhood.transitions@[kl.0] == TransitionKind::Vertex {
                            assert(!neighborhood.transitions@.contains(TransitionKind::Edges))
                                by {
                                assert(neighborhood.transitions@.contains(TransitionKind::Vertex));
                            }
                        }
                    }
                    return true;
                }
            },
            None => {
                proof {
                    if !neighborhood.random {
                        assert forall|t: int|
                            1 <= t implies match #[trigger] locate(
                            *solution,
                            neighborhood.transitions@,
                            0,
                            t,
                        ) {
                            Some(kl) => kind_delta(
                                *instance,
                                *solution,
                                neighborhood.transitions@[kl.0],
                                kl.1,
                            ) >= 0,
                            None => true,
                        } by {
                            if locate(*solution, neighborhood.transitions@, 0, t) matches Some(_) {
                                lemma_locate_in_total(*solution, *neighborhood, 0, t);
                            }
                        }
                    }
                }
                break ;
            },
        }
    }
    false
}

/// Greedy first-improvement local search: each pass applies the first
/// improving move the enumerator offers, until a full pass finds none.
pub struct LocalGreedySolver<S> {
    initial_solver: S,
    transitions: Vec<TransitionKind>,
}

impl<S> LocalGreedySolver<S> {
    #[verifier::type_invariant]
    spec fn ti(self) -> bool {
        kinds_ok(self.transitions@)
    }

    /// The kinds this engine composes.
    pub closed spec fn kinds(self) -> Seq<TransitionKind> {
        self.transitions@
    }

    pub fn new(initial_solver: S, transitions: Vec<TransitionKind>) -> (r: LocalGreedySolver<S>)
        requires
            kinds_ok(transitions@),
        ensures
            r.kinds() == transitions@,
    {
        LocalGreedySolver { initial_solver, transitions }
    }
}

/// The descent loop that both convergent engines share after their first
/// pass logic is fixed: repeat passes while they improve.  The result never
/// costs more than the start, and the loop ends because the integer
/// objective cannot decrease forever.
fn descend(
    transitions: &Vec<TransitionKind>,
    instance: &TSPInstance,
    mut solution: TSPSolution,
    random: bool,
) -> (r: TSPSolution)
    requires
        kinds_ok(transitions@),
        instance.wf(),
        solution.wf(),
        solution.n() == instance.n(),
        3 <= solution.perm_a@.len(),
        3 <= solution.perm_b@.len(),
    ensures
        r.wf(),
        r.n() == instance.n(),
        3 <= r.perm_a@.len(),
        3 <= r.perm_b@.len(),
        sol_cost(*instance, r) <= sol_cost(*instance, solution),
        is_local_optimum(*instance, r, transitions@),
{
    let ghost start = solution;
    let kinds = copy_kinds(transitions);
    let mut neighborhood = Neighborhood::new(kinds, &solution, random);
    let mut improvement_flag = true;
    let ghost mut fuel: int = 1;
    proof {
        lemma_sol_cost_nonneg(*instance, solution);
    }
    while improvement_flag
        invariant
            neighborhood.inv(solution),
            kinds_ok(neighborhood.transitions@),
            neighborhood.transitions@ == transitions@,
            instance.wf(),
            solution.wf_base(),
            solution.memb_ok(),
            solution.n() == instance.n(),
            3 <= solution.perm_a@.len(),
            3 <= solution.perm_b@.len(),
            solution.perm_a@.len() == start.perm_a@.len(),
            solution.perm_b@.len() == start.perm_b@.len(),
            neighborhood.transitions@.contains(TransitionKind::Edges) ==> solution.pos_ok(),
            sol_cost(*instance, solution) <= sol_cost(*instance, start),
            sol_cost(*instance, solution) >= 0,
            improvement_flag ==> fuel == 1,
            0 <= fuel <= 1,
        decreases sol_cost(*instance, solution) + fuel,
    {
        improvement_flag = greedy_pass(&mut neighborhood, instance, &mut solution);
        proof {
            lemma_sol_cost_nonneg(*instance, solution);
            fuel = if improvement_flag {
                1int
            } else {
                0int
            };
        }
    }
    // certification: a pass of the ordered enumerator that finds nothing has
    // scanned the whole move space, so descent continues here until the
    // solution is provably a local optimum of every composed move
    let kinds_check = copy_kinds(transitions);
    let mut ordered = Neighborhood::new(kinds_check, &solution, false);
    let mut improving = true;
    let ghost mut fuel2: int = 1;
    while improving
        invariant
            ordered.inv(solution),
            !ordered.random,
            kinds_ok(ordered.transitions@),
            ordered.transitions@ == transitions@,
            instance.wf(),
            solution.wf_base(),
            solution.memb_ok(),
            solution.n() == instance.n(),
            3 <= solution.perm_a@.len(),
            3 <= solution.perm_b@.len(),
            solution.perm_a@.len() == start.perm_a@.len(),
            solution.perm_b@.len() == start.perm_b@.len(),
            ordered.transitions@.contains(TransitionKind::Edges) ==> solution.pos_ok(),
            sol_cost(*instance, solution) <= sol_cost(*instance, start),
            sol_cost(*instance, solution) >= 0,
            improving ==> fuel2 == 1,
            0 <= fuel2 <= 1,
            !improving ==> is_local_optimum(*instance, solution, transitions@),
        decreases sol_cost(*instance, solution) + fuel2,
    {
        improving = greedy_pass(&mut ordered, instance, &mut solution);
        proof {
            lemma_sol_cost_nonneg(*instance, solution);
            fuel2 = if improving {
                1int
            } else {
                0int
            };
        }
    }
    let ghost pre_reorder = solution;
    solution.reorder();
    proof {
        crate::tsp::neighborhoods::transition::lemma_local_optimum_perms(
            *instance,
            pre_reorder,
            solution,
            transitions@,
        );
    }
    solution
}

impl<S: Solver> Solver for LocalGreedySolver<S> {
    fn solve(&self, start_vertex: usize, instance: &TSPInstance) -> (r: TSPSolution)
        ensures
            is_local_optimum(*instance, r, self.kinds()),
    {
        let solution = self.initial_solver.solve(start_vertex, instance);
        proof {
            use_type_invariant(self);
        }
        descend(&self.transitions, instance, solution, true)
    }

    fn solve_s(&self, start_vertex: usize, instance: &TSPInstance, solution: TSPSolution) -> (r:
        TSPSolution)
        ensures
            sol_cost(*instance, r) <= sol_cost(*instance, solution),
            is_local_optimum(*instance, r, self.kinds()),
    {
        proof {
            use_type_invariant(self);
        }
        descend(&self.transitions, instance, solution, true)
    }
}

/// Steepest best-improvement local search: each pass scans the whole
/// neighborhood in order and applies the single best improving move, until
/// a pass finds none.
pub struct LocalSteepestSolver<S> {
    initial_solver: S,
    transitions: Vec<TransitionKind>,
}

impl<S> LocalSteepestSolver<S> {
    #[verifier::type_invariant]
    spec fn ti(self) -> bool {
        kinds_ok(self.transitions@)
    }

    /// The kinds this engine composes.
    pub closed spec fn kinds(self) -> Seq<TransitionKind> {
        self.transitions@
    }

    pub fn new(initial_solver: S, transitions: Vec<TransitionKind>) -> (r: LocalSteepestSolver<S>)
        requires
            kinds_ok(transitions@),
        ensures
            r.kinds() == transitions@,
    {
        LocalSteepestSolver { initial_solver, transitions }
    }
}

/// One steepest pass: scan the full neighborhood, remember the best
/// improving move, and apply it if one exists.
fn steepest_pass(
    neighborhood: &mut Neighborhood,
    instance: &TSPInstance,
    solution: &mut TSPSolution,
) -> (improved: bool)
    requires
        old(neighborhood).inv(*old(solution)),
        kinds_ok(old(neighborhood).transitions@),
        instance.wf(),
        old(solution).wf_base(),
        old(solution).memb_ok(),
        old(solution).n() == instance.n(),
        3 <= old(solution).perm_a@.len(),
        3 <= old(solution).perm_b@.len(),
        old(neighborhood).transitions@.contains(TransitionKind::Edges) ==> old(solution).pos_ok(),
    ensures
        final (neighborhood).inv(*final (solution)),
        final (neighborhood).transitions@ == old(neighborhood).transitions@,
        final (neighborhood).random == old(neighborhood).random,
        final (solution).wf_base(),
        final (solution).memb_ok(),
        final (solution).n() == old(solution).n(),
        final (solution).perm_a@.len() == old(solution).perm_a@.len(),
        final (solution).perm_b@.len() == old(solution).perm_b@.len(),
        old(neighborhood).transitions@.contains(TransitionKind::Edges) ==> final (
        solution).pos_ok(),
        improved ==> sol_cost(*instance, *final (solution)) < sol_cost(*instance, *old(solution)),
        !improved ==> *final (solution) == *old(solution),
        !improved && !old(neighborhood).random ==> is_local_optimum(
            *instance,
            *final (solution),
            old(neighborhood).transitions@,
        ),
        improved && !old(neighborhood).random ==> exists|tm: int|
            #[trigger] steepest_choice(
                *instance,
                *old(solution),
                *final (solution),
                old(neighborhood).transitions@,
                tm,
            ),
{
    neighborhood.reset();
    let mut best_delta: i64 = 1;
    let mut best_move: usize = 0;
    let ghost mut scanned_all = false;
    loop
        invariant
            neighborhood.inv(*solution),
            *solution == *old(solution),
            instance.wf(),
            solution.wf_base(),
            solution.memb_ok(),
            solution.n() == instance.n(),
            3 <= solution.perm_a@.len(),
            3 <= solution.perm_b@.len(),
            neighborhood.transitions@ == old(neighborhood).transitions@,
            neighborhood.random == old(neighborhood).random,
            !neighborhood.random ==> neighborhood.start_state == 1,
            !scanned_all ==> !neighborhood.random ==> forall|t: int|
                1 <= t <= neighborhood.steps && t <= neighborhood.total()
                    ==> match #[trigger] locate(*solution, neighborhood.transitions@, 0, t) {
                    Some(kl) => kind_delta(
                        *instance,
                        *solution,
                        neighborhood.transitions@[kl.0],
                        kl.1,
                    ) >= best_delta as int,
                    None => true,
                },
            scanned_all ==> !neighborhood.random ==> forall|t: int|
                1 <= t ==> match #[trigger] locate(*solution, neighborhood.transitions@, 0, t) {
                    Some(kl) => kind_delta(
                        *instance,
                        *solution,
                        neighborhood.transitions@[kl.0],
                        kl.1,
                    ) >= best_delta as int,
                    None => true,
                },
            best_delta < 1 ==> ({
                let loc = crate::tsp::neighborhoods::transition::locate(
                    *solution,
                    neighborhood.transitions@,
                    0,
                    best_move as int,
                );
                &&& 1 <= best_move
                &&& loc matches Some(kl)
                &&& 0 <= kl.0 < neighborhood.transitions@.len()
                &&& 1 <= kl.1 <= crate::tsp::neighborhoods::transition::kind_size(
                    neighborhood.transitions@[kl.0],
                    *solution,
                )
                &&& best_delta as int == crate::tsp::neighborhoods::transition::kind_delta(
                    *instance,
                    *solution,
                    neighborhood.transitions@[kl.0],
                    kl.1,
                )
            }),
            !neighborhood.random && best_delta < 1 ==> forall|t2: int|
                1 <= t2 < best_move ==> match #[trigger] locate(
                    *solution,
                    neighborhood.transitions@,
                    0,
                    t2,
                ) {
                    Some(kl2) => kind_delta(
                        *instance,
                        *solution,
                        neighborhood.transitions@[kl2.0],
                        kl2.1,
                    ) > best_delta as int,
                    None => true,
                },
        ensures
            neighborhood.inv(*solution),
            *solution == *old(solution),
            neighborhood.transitions@ == old(neighborhood).transitions@,
            !neighborhood.random ==> forall|t: int|
                1 <= t ==> match #[trigger] locate(*solution, neighborhood.transitions@, 0, t) {
                    Some(kl) => kind_delta(
                        *instance,
                        *solution,
                        neighborhood.transitions@[kl.0],
                        kl.1,
                    ) >= best_delta as int,
                    None => true,
                },
            best_delta < 1 ==> ({
                let loc = crate::tsp::neighborhoods::transition::locate(
                    *solution,
                    neighborhood.transitions@,
                    0,
                    best_move as int,
                );
                &&& 1 <= best_move
                &&& loc matches Some(kl)
                &&& 0 <= kl.0 < neighborhood.transitions@.len()
                &&& 1 <= kl.1 <= crate::tsp::neighborhoods::transition::kind_size(
                    neighborhood.transitions@[kl.0],
                    *solution,
                )
                &&& best_delta as int == crate::tsp::neighborhoods::transition::kind_delta(
                    *instance,
                    *solution,
                    neighborhood.transitions@[kl.0],
                    kl.1,
                )
            }),
            !neighborhood.random && best_delta < 1 ==> forall|t2: int|
                1 <= t2 < best_move ==> match #[trigger] locate(
                    *solution,
                    neighborhood.transitions@,
                    0,
                    t2,
                ) {
                    Some(kl2) => kind_delta(
                        *instance,
                        *solution,
                        neighborhood.transitions@[kl2.0],
                        kl2.1,
                    ) > best_delta as int,
                    None => true,
                },
        decreases neighborhood.group_size - neighborhood.steps,
    {
        let ghost nbr_pre = *neighborhood;
        let score = neighborhood.next(instance, solution);
        proof {
            if !neighborhood.random {
                lemma_pass_accumulates(nbr_pre, *neighborhood, score);
            }
        }
        match score {
            Some(x) => {
                if x.0 < best_delta {
                    best_delta = x.0;
                    best_move = x.1;
                    proof {
                        if !neighborhood.random {
                            assert forall|t2: int|
                                1 <= t2 < best_move implies match #[trigger] locate(
                                *solution,
                                neighborhood.transitions@,
                                0,
                                t2,
                            ) {
                                Some(kl2) => kind_delta(
                                    *instance,
                                    *solution,
                                    neighborhood.transitions@[kl2.0],
                                    kl2.1,
                                ) > best_delta as int,
                                None => true,
                            } by {
                                if locate(*solution, neighborhood.transitions@, 0, t2) matches Some(
                                    _,
                                ) {
                                    lemma_locate_in_total(*solution, *neighborhood, 0, t2);
                                    assert(t2 <= nbr_pre.steps as int);
                                }
                            }
                        }
                    }
                }
            },
            None => {
                proof {
                    if !neighborhood.random {
                        assert forall|t: int|
                            1 <= t implies match #[trigger] locate(
                            *solution,
                            neighborhood.transitions@,
                            0,
                            t,
                        ) {
                            Some(kl) => kind_delta(
                                *instance,
                                *solution,
                                neighborhood.transitions@[kl.0],
                                kl.1,
                            ) >= best_delta as int,
                            None => true,
                        } by {
                            if locate(*solution, neighborhood.transitions@, 0, t) matches Some(_) {
                                lemma_locate_in_total(*solution, *neighborhood, 0, t);
                            }
                        }
                        scanned_all = true;
                    }
                }
                break ;
            },
        }
    }
    if best_delta < 0 {
        let ghost pre = *solution;
        proof {
            let loc = crate::tsp::neighborhoods::transition::locate(
                *solution,
                neighborhood.transitions@,
                0,
                best_move as int,
            );
            let kl = loc.unwrap();
            if neighborhood.transitions@[kl.0] == TransitionKind::Edges {
                assert(neighborhood.transitions@.contains(TransitionKind::Edges));
            }
            assert(solution.n() <= crate::tsp::def::MAX_DIM as int);
        }
        neighborhood.apply_transition(best_move, solution);
        proof {
            lemma_inv_transfer(*neighborhood, pre, *solution);
            let loc = crate::tsp::neighborhoods::transition::locate(
                pre,
                neighborhood.transitions@,
                0,
                best_move as int,
            );
            let kl = loc.unwrap();
            if neighborhood.transitions@[kl.0] == TransitionKind::Vertex {
                assert(!neighborhood.transitions@.contains(TransitionKind::Edges)) by {
                    assert(neighborhood.transitions@.contains(TransitionKind::Vertex));
                }
            }
            if !neighborhood.random {
                assert(steepest_choice(
                    *instance,
                    pre,
                    *solution,
                    neighborhood.transitions@,
                    best_move as int,
                ));
            }
        }
        true
    } else {
        proof {
            if !neighborhood.random {
                assert(is_local_optimum(*instance, *solution, neighborhood.transitions@));
            }
        }
        false
    }
}

/// The steepest engine's descent loop.
fn descend_steepest(
    transitions: &Vec<TransitionKind>,
    instance: &TSPInstance,
    mut solution: TSPSolution,
) -> (r: TSPSolution)
    requires
        kinds_ok(transitions@),
        instance.wf(),
        solution.wf(),
        solution.n() == instance.n(),
        3 <= solution.perm_a@.len(),
        3 <= solution.perm_b@.len(),
    ensures
        r.wf(),
        r.n() == instance.n(),
        3 <= r.perm_a@.len(),
        3 <= r.perm_b@.len(),
        sol_cost(*instance, r) <= sol_cost(*instance, solution),
        is_local_optimum(*instance, r, transitions@),
{
    let ghost start = solution;
    let kinds = copy_kinds(transitions);
    let mut neighborhood = Neighborhood::new(kinds, &solution, false);
    let mut improvement_flag = true;
    let ghost mut fuel: int = 1;
    proof {
        lemma_sol_cost_nonneg(*instance, solution);
    }
    while improvement_flag
        invariant
            neighborhood.inv(solution),
            kinds_ok(neighborhood.transitions@),
            neighborhood.transitions@ == transitions@,
            instance.wf(),
            solution.wf_base(),
            solution.memb_ok(),
            solution.n() == instance.n(),
            3 <= solution.perm_a@.len(),
            3 <= solution.perm_b@.len(),
            solution.perm_a@.len() == start.perm_a@.len(),
            solution.perm_b@.len() == start.perm_b@.len(),
            neighborhood.transitions@.contains(TransitionKind::Edges) ==> solution.pos_ok(),
            !neighborhood.random,
            sol_cost(*instance, solution) <= sol_cost(*instance, start),
            sol_cost(*instance, solution) >= 0,
            improvement_flag ==> fuel == 1,
            0 <= fuel <= 1,
            !improvement_flag ==> is_local_optimum(*instance, solution, transitions@),
        decreases sol_cost(*instance, solution) + fuel,
    {
        improvement_flag = steepest_pass(&mut neighborhood, instance, &mut solution);
        proof {
            lemma_sol_cost_nonneg(*instance, solution);
            fuel = if improvement_flag {
                1int
            } else {
                0int
            };
        }
    }
    let ghost pre_reorder = solution;
    solution.reorder();
    proof {
        crate::tsp::neighborhoods::transition::lemma_local_optimum_perms(
            *instance,
            pre_reorder,
            solution,
            transitions@,
        );
    }
    solution
}

impl<S: Solver> Solver for LocalSteepestSolver<S> {
    fn solve(&self, start_vertex: usize, instance: &TSPInstance) -> (r: TSPSolution)
        ensures
            is_local_optimum(*instance, r, self.kinds()),
    {
        let solution = self.initial_solver.solve(start_vertex, instance);
        proof {
            use_type_invariant(self);
        }
        descend_steepest(&self.transitions, instance, solution)
    }

    fn solve_s(&self, start_vertex: usize, instance: &TSPInstance, solution: TSPSolution) -> (r:
        TSPSolution)
        ensures
            sol_cost(*instance, r) <= sol_cost(*instance, solution),
            is_local_optimum(*instance, r, self.kinds()),
    {
        proof {
            use_type_invariant(self);
        }
        descend_steepest(&self.transitions, instance, solution)
    }
}

/// A random walk used for perturbation: each pass applies the first move
/// offered regardless of sign, and the best solution seen is kept.  The
/// walk runs a bounded number of passes; callers that walk against a clock
/// poll it between passes.
pub struct LocalRandomWalker<S> {
    initial_solver: S,
    transitions: Vec<TransitionKind>,
}

impl<S> LocalRandomWalker<S> {
    #[verifier::type_invariant]
    spec fn ti(self) -> bool {
        kinds_ok(self.transitions@)
    }

    pub fn new(initial_solver: S, transitions: Vec<TransitionKind>) -> (r: LocalRandomWalker<S>)
        requires
            kinds_ok(transitions@),
    {
        LocalRandomWalker { initial_solver, transitions }
    }

    /// Walks for at most `passes` applied moves from the given solution and
    /// hands back the cheapest solution met on the way, which never costs
    /// more than the start.
    pub fn walk(&self, instance: &TSPInstance, solution: TSPSolution, passes: usize) -> (r:
        TSPSolution)
        requires
            instance.wf(),
            solution.wf(),
            solution.n() == instance.n(),
            3 <= solution.perm_a@.len(),
            3 <= solution.perm_b@.len(),
        ensures
            r.wf(),
            r.n() == instance.n(),
            3 <= r.perm_a@.len(),
            3 <= r.perm_b@.len(),
            sol_cost(*instance, r) <= sol_cost(*instance, solution),
    {
        proof {
            use_type_invariant(self);
        }
        let ghost start = solution;
        let mut current = solution;
        let kinds = copy_kinds(&self.transitions);
        let mut neighborhood = Neighborhood::new(kinds, &current, true);
        let mut best = current.deep_clone();
        proof {
            assert(sol_cost(*instance, best) == sol_cost(*instance, current));
        }
        let mut pass: usize = 0;
        while pass < passes
            invariant
                neighborhood.inv(current),
                kinds_ok(neighborhood.transitions@),
                neighborhood.transitions@ == self.transitions@,
                instance.wf(),
                current.wf_base(),
                current.memb_ok(),
                current.n() == instance.n(),
                3 <= current.perm_a@.len(),
                3 <= current.perm_b@.len(),
                current.perm_a@.len() == start.perm_a@.len(),
                current.perm_b@.len() == start.perm_b@.len(),
                neighborhood.transitions@.contains(TransitionKind::Edges) ==> current.pos_ok(),
                best.wf_base(),
                best.memb_ok(),
                best.n() == instance.n(),
                3 <= best.perm_a@.len(),
                3 <= best.perm_b@.len(),
                sol_cost(*instance, best) <= sol_cost(*instance, start),
                sol_cost(*instance, best) <= sol_cost(*instance, current),
                pass <= passes,
            decreases passes - pass,
        {
            neighborhood.reset();
            let score = neighborhood.next(instance, &current);
            match score {
                Some(x) => {
                    let ghost pre = current;
                    proof {
                        let loc = crate::tsp::neighborhoods::transition::locate(
                            current,
                            neighborhood.transitions@,
                            0,
                            x.1 as int,
                        );
                        let kl = loc.unwrap();
                        if neighborhood.transitions@[kl.0] == TransitionKind::Edges {
                            assert(neighborhood.transitions@.contains(TransitionKind::Edges));
                        }
                        assert(current.n() <= crate::tsp::def::MAX_DIM as int);
                    }
                    neighborhood.apply_transition(x.1, &mut current);
                    proof {
                        lemma_inv_transfer(*&neighborhood, pre, current);
                        let loc = crate::tsp::neighborhoods::transition::locate(
                            pre,
                            neighborhood.transitions@,
                            0,
                            x.1 as int,
                        );
                        let kl = loc.unwrap();
                        if neighborhood.transitions@[kl.0] == TransitionKind::Vertex {
                            assert(!neighborhood.transitions@.contains(TransitionKind::Edges))
                                by {
                                assert(neighborhood.transitions@.contains(
                                    TransitionKind::Vertex,
                                ));
                            }
                        }
                    }
                    let cost_now = instance.eval(&current);
                    let cost_best = instance.eval(&best);
                    if cost_now < cost_best {
                        best = current.deep_clone();
                        proof {
                            assert(sol_cost(*instance, best) == sol_cost(*instance, current));
                        }
                    }
                },
                None => {},
            }
            pass += 1;
        }
        best.reorder();
        best
    }
}

} // verus!
