use crate::primes::{is_prime_spec, Primes, PRIME_CEILING};
use crate::tsp::def::{sol_cost, TSPInstance, TSPSolution, MAX_DIM};
use crate::tsp::neighborhoods::edges_transition::EdgesTransition;
use crate::tsp::neighborhoods::inter_cycle_transition::InterCycleTransition;
use crate::tsp::neighborhoods::transition::{kind_delta, kind_size, locate, TransitionKind};
use crate::tsp::neighborhoods::vertex_transition::VertexTransition;
use vstd::prelude::*;

verus! {

/// The sum of the tail of the size table from position `i` on.
pub open spec fn sizes_sum(sizes: Seq<usize>, i: int) -> int
    decreases sizes.len() - i,
{
    if i < 0 || i >= sizes.len() {
        0
    } else {
        sizes[i] + sizes_sum(sizes, i + 1)
    }
}

proof fn lemma_sizes_sum_push(sizes: Seq<usize>, x: usize, i: int)
    requires
        0 <= i <= sizes.len(),
    ensures
        sizes_sum(sizes.push(x), i) == sizes_sum(sizes, i) + x,
    decreases sizes.len() - i,
{
    let p = sizes.push(x);
    if i < sizes.len() {
        assert(p[i] == sizes[i]);
        lemma_sizes_sum_push(sizes, x, i + 1);
        assert(sizes_sum(p, i) == p[i] + sizes_sum(p, i + 1));
        assert(sizes_sum(sizes, i) == sizes[i] + sizes_sum(sizes, i + 1));
    } else {
        assert(p[i] == x);
        assert(sizes_sum(p, i) == p[i] + sizes_sum(p, i + 1));
        assert(sizes_sum(p, i + 1) == 0);
        assert(sizes_sum(sizes, i) == 0);
    }
}

proof fn lemma_sizes_sum_nonneg(sizes: Seq<usize>, i: int)
    ensures
        sizes_sum(sizes, i) >= 0,
    decreases sizes.len() - i,
{
    if 0 <= i < sizes.len() {
        lemma_sizes_sum_nonneg(sizes, i + 1);
    }
}

proof fn lemma_sizes_sum_element(sizes: Seq<usize>, i: int, k: int)
    requires
        0 <= i <= k < sizes.len(),
    ensures
        sizes_sum(sizes, i) >= sizes[k],
    decreases sizes.len() - i,
{
    if i < k {
        lemma_sizes_sum_element(sizes, i + 1, k);
    } else {
        lemma_sizes_sum_nonneg(sizes, i + 1);
    }
}

/// The facts the traversal's state stepping relies on: a group size of at
/// least 2 and, in random order, a prime modulus with a nonzero multiplier.
pub open spec fn walk_ok(random: bool, generator: int, gs: int) -> bool {
    &&& 2 <= gs
    &&& random ==> is_prime_spec(gs) && 1 <= generator < gs
}

/// One step of the traversal's state walk: multiplication by the generator
/// modulo the group size in random order, the cyclic successor over
/// `1 ..= group_size - 1` otherwise.
pub open spec fn walk_step(random: bool, generator: int, gs: int, s: int) -> int {
    if random {
        (s * generator) % gs
    } else {
        if s + 1 == gs {
            1
        } else {
            s + 1
        }
    }
}

/// The walk iterated `k` times from `s`.
pub open spec fn step_n(random: bool, generator: int, gs: int, s: int, k: nat) -> int
    decreases k,
{
    if k == 0 {
        s
    } else {
        walk_step(random, generator, gs, step_n(random, generator, gs, s, (k - 1) as nat))
    }
}

/// The walk of this enumerator, iterated `k` times from `s`.
pub open spec fn nbr_step_n(nbr: Neighborhood, s: int, k: nat) -> int {
    step_n(nbr.random, nbr.generator as int, nbr.group_size as int, s, k)
}

/// Whether a traversal state addresses a move of the composed space.
pub open spec fn offer_in_range(nbr: Neighborhood, s: int) -> bool {
    1 <= s <= nbr.total()
}

/// The walk never leaves the nonzero residues.
proof fn lemma_walk_step_range(random: bool, generator: int, gs: int, s: int)
    requires
        walk_ok(random, generator, gs),
        1 <= s < gs,
    ensures
        1 <= walk_step(random, generator, gs, s) < gs,
{
    if random {
        crate::primes::lemma_mul_nonzero_mod_prime(gs, s, generator);
    }
}

proof fn lemma_step_n_range(random: bool, generator: int, gs: int, s: int, k: nat)
    requires
        walk_ok(random, generator, gs),
        1 <= s < gs,
    ensures
        1 <= step_n(random, generator, gs, s, k) < gs,
    decreases k,
{
    if k > 0 {
        lemma_step_n_range(random, generator, gs, s, (k - 1) as nat);
        lemma_walk_step_range(random, generator, gs, step_n(random, generator, gs, s, (k - 1) as nat));
    }
}

/// One walk step maps distinct states to distinct states.
proof fn lemma_walk_step_injective(random: bool, generator: int, gs: int, x: int, y: int)
    requires
        walk_ok(random, generator, gs),
        1 <= x < gs,
        1 <= y < gs,
        x != y,
    ensures
        walk_step(random, generator, gs, x) != walk_step(random, generator, gs, y),
{
    if random {
        crate::primes::lemma_step_injective(gs, generator, x, y);
    }
}

/// In ordered mode the walk from state 1 counts up: after `m` steps it
/// stands at `1 + m`, until it wraps back to 1 after `gs - 1` steps.
pub proof fn lemma_ordered_walk(generator: int, gs: int, m: nat)
    requires
        2 <= gs,
        m <= gs - 2,
    ensures
        step_n(false, generator, gs, 1, m) == 1 + m,
    decreases m,
{
    if m > 0 {
        lemma_ordered_walk(generator, gs, (m - 1) as nat);
    }
}

/// If two walk positions coincide, the walk already returned to its origin
/// after their distance.
proof fn lemma_orbit_descend(random: bool, generator: int, gs: int, s: int, i: nat, j: nat)
    requires
        walk_ok(random, generator, gs),
        1 <= s < gs,
        i < j,
        step_n(random, generator, gs, s, i) == step_n(random, generator, gs, s, j),
    ensures
        step_n(random, generator, gs, s, (j - i) as nat) == s,
    decreases i,
{
    if i == 0 {
    } else {
        lemma_step_n_range(random, generator, gs, s, (i - 1) as nat);
        lemma_step_n_range(random, generator, gs, s, (j - 1) as nat);
        if step_n(random, generator, gs, s, (i - 1) as nat) != step_n(
            random,
            generator,
            gs,
            s,
            (j - 1) as nat,
        ) {
            lemma_walk_step_injective(
                random,
                generator,
                gs,
                step_n(random, generator, gs, s, (i - 1) as nat),
                step_n(random, generator, gs, s, (j - 1) as nat),
            );
            assert(false);
        }
        lemma_orbit_descend(random, generator, gs, s, (i - 1) as nat, (j - 1) as nat);
    }
}

/// The walk returns to its origin within the group's order: it moves inside
/// the set of nonzero residues, whose size it cannot exceed, and a first
/// repeated position must be the origin because stepping is injective.
pub proof fn lemma_orbit_returns(random: bool, generator: int, gs: int, s: int)
    requires
        walk_ok(random, generator, gs),
        1 <= s < gs,
    ensures
        exists|k: int|
            1 <= k <= gs - 1 && #[trigger] step_n(random, generator, gs, s, k as nat) == s,
{
    let xs = Seq::<int>::new(gs as nat, |k: int| step_n(random, generator, gs, s, k as nat));
    assert forall|k: int| 0 <= k < gs implies 1 <= #[trigger] xs[k] < gs by {
        lemma_step_n_range(random, generator, gs, s, k as nat);
    }
    if xs.no_duplicates() {
        xs.unique_seq_to_set();
        vstd::set_lib::lemma_int_range(1, gs);
        assert(xs.to_set().subset_of(vstd::set_lib::set_int_range(1, gs))) by {
            assert forall|x: int| xs.to_set().contains(x) implies vstd::set_lib::set_int_range(
                1,
                gs,
            ).contains(x) by {
                let k = choose|k: int| 0 <= k < xs.len() && xs[k] == x;
                assert(1 <= xs[k] < gs);
            }
        }
        vstd::set_lib::lemma_len_subset(xs.to_set(), vstd::set_lib::set_int_range(1, gs));
        assert(false);
    }
    let (i, j) = choose|i: int, j: int|
        0 <= i < xs.len() && 0 <= j < xs.len() && i != j && xs[i] == xs[j];
    let (lo, hi) = if i < j {
        (i, j)
    } else {
        (j, i)
    };
    assert(step_n(random, generator, gs, s, lo as nat) == step_n(
        random,
        generator,
        gs,
        s,
        hi as nat,
    ));
    lemma_orbit_descend(random, generator, gs, s, lo as nat, hi as nat);
    assert(1 <= hi - lo <= gs - 1 && step_n(random, generator, gs, s, (hi - lo) as nat) == s);
}

/// Composes one or more move kinds into a single addressable move space and
/// walks it, either in order or along a full-period pseudorandom cycle of
/// the multiplicative group modulo a prime.
pub struct Neighborhood {
    pub generator: usize,
    pub group_size: usize,
    pub random: bool,
    pub state: usize,
    pub active: bool,
    pub start_state: usize,
    pub steps: usize,
    pub transitions: Vec<TransitionKind>,
    pub transition_sizes: Vec<usize>,
}

impl Neighborhood {
    /// The number of addressable moves over all composed kinds.
    pub open spec fn total(self) -> int {
        sizes_sum(self.transition_sizes@, 0)
    }

    /// The cached per-kind sizes agree with the solution's tour lengths.
    pub open spec fn sizes_ok(self, s: TSPSolution) -> bool {
        &&& self.transition_sizes@.len() == self.transitions@.len()
        &&& forall|i: int|
            0 <= i < self.transitions@.len() ==> #[trigger] (self.transition_sizes@[i] as int)
                == kind_size(self.transitions@[i], s)
    }

    /// The enumerator's invariant, relative to the solution it addresses.
    pub open spec fn inv(self, s: TSPSolution) -> bool {
        &&& self.sizes_ok(s)
        &&& 1 <= (self.state as int) < (self.group_size as int)
        &&& 1 <= (self.start_state as int) < (self.group_size as int)
        &&& 1 <= self.total()
        &&& self.total() + 1 <= self.group_size as int
        &&& self.steps < self.group_size
        &&& self.random ==> is_prime_spec(self.group_size as int) && 1 <= (self.generator as int)
            < (self.group_size as int) && self.group_size as int <= PRIME_CEILING as int
        &&& !self.random ==> self.group_size as int == self.total() + 1
        &&& self.state as int == nbr_step_n(self, self.start_state as int, self.steps as nat)
        &&& self.active <==> self.steps >= 1
        &&& forall|m: int|
            1 <= m < self.steps ==> #[trigger] nbr_step_n(self, self.start_state as int, m as nat)
                != (self.start_state as int)
    }

    /// Builds the enumerator for a solution.  Random order is kept only when
    /// a generator of the group is found and the move space is small enough
    /// for the prime search; otherwise the traversal falls back to visiting
    /// the moves in order.
    pub fn new(transitions: Vec<TransitionKind>, solution: &TSPSolution, random: bool) -> (r:
        Neighborhood)
        requires
            solution.wf_base(),
            3 <= solution.perm_a@.len(),
            3 <= solution.perm_b@.len(),
            solution.n() <= MAX_DIM as int,
            transitions@.len() <= 3,
            transitions@.contains(TransitionKind::InterCycle),
        ensures
            r.inv(*solution),
            r.transitions@ == transitions@,
            r.active == false,
            r.state == r.start_state,
            !random ==> !r.random,
            !r.random ==> r.group_size as int == r.total() + 1 && r.generator == 1 && r.state == 1,
            r.random ==> {
                &&& is_prime_spec(r.group_size as int)
                &&& r.total() < r.group_size as int
                &&& (forall|m: int| r.total() < m < r.group_size as int ==> !is_prime_spec(m))
                &&& crate::primes::passes_root_test(r.generator as int, r.group_size as int)
            },
    {
        let ghost na = solution.perm_a@.len() as int;
        let ghost nb = solution.perm_b@.len() as int;
        let mut transition_sizes: Vec<usize> = Vec::new();
        let mut neighborhood_size: usize = 0;
        let count = transitions.len();
        let mut i: usize = 0;
        while i < count
            invariant
                solution.wf_base(),
                3 <= solution.perm_a@.len(),
                3 <= solution.perm_b@.len(),
                solution.n() <= MAX_DIM as int,
                count == transitions@.len() <= 3,
                i <= count,
                transition_sizes@.len() == i,
                forall|k: int|
                    0 <= k < i ==> #[trigger] (transition_sizes@[k] as int) == kind_size(
                        transitions@[k],
                        *solution,
                    ),
                neighborhood_size as int == sizes_sum(transition_sizes@, 0),
                neighborhood_size as int <= (i as int) * (MAX_DIM as int) * (MAX_DIM as int),
            decreases count - i,
        {
            proof {
                lemma_kind_size_bound(transitions@[i as int], *solution);
            }
            let size: usize = match transitions[i] {
                TransitionKind::InterCycle => InterCycleTransition::new().size(solution),
                TransitionKind::Edges => EdgesTransition::new().size(solution),
                TransitionKind::Vertex => VertexTransition::new().size(solution),
            };
            proof {
                lemma_sizes_sum_push(transition_sizes@, size, 0);
                assert((i as int) * (MAX_DIM as int) * (MAX_DIM as int) + (MAX_DIM as int) * (
                MAX_DIM as int) == (i as int + 1) * (MAX_DIM as int) * (MAX_DIM as int))
                    by (nonlinear_arith);
            }
            transition_sizes.push(size);
            neighborhood_size = neighborhood_size + size;
            i += 1;
            proof {
                assert((i as int) * (MAX_DIM as int) * (MAX_DIM as int) <= 3 * (MAX_DIM as int) * (
                MAX_DIM as int)) by (nonlinear_arith)
                    requires
                        0 <= i as int <= 3,
                ;
            }
        }
        proof {
            let ghost j = choose|j: int|
                0 <= j < transitions@.len() && transitions@[j] == TransitionKind::InterCycle;
            lemma_sizes_sum_element(transition_sizes@, 0, j);
            assert(kind_size(transitions@[j], *solution) >= 9) by (nonlinear_arith)
                requires
                    kind_size(transitions@[j], *solution) == na * nb,
                    na >= 3,
                    nb >= 3,
            ;
        }
        let (generator, group_size, random) = if random && neighborhood_size < PRIME_CEILING - 2 {
            let (g, p) = Primes::group_generator_and_size(neighborhood_size);
            if g == 0 {
                (1, neighborhood_size + 1, false)
            } else {
                (g, p, true)
            }
        } else {
            (1, neighborhood_size + 1, false)
        };
        let mut neighborhood = Neighborhood {
            generator,
            group_size,
            random,
            state: 1,
            active: false,
            start_state: 1,
            steps: 0,
            transitions,
            transition_sizes,
        };
        neighborhood.reset();
        neighborhood
    }

    /// Rewinds the traversal: a fresh random start state in random order, or
    /// the first index in ordered mode.  The start is remembered so that a
    /// completed full cycle can be detected.
    pub fn reset(&mut self)
        requires
            old(self).total() + 1 <= old(self).group_size as int,
            old(self).random ==> is_prime_spec(old(self).group_size as int) && 1 <= (old(
                self,
            ).generator as int) < (old(self).group_size as int) && old(self).group_size as int
                <= PRIME_CEILING as int,
            !old(self).random ==> old(self).group_size as int == old(self).total() + 1,
            1 <= old(self).total(),
        ensures
            final (self).transitions@ == old(self).transitions@,
            final (self).transition_sizes@ == old(self).transition_sizes@,
            final (self).group_size == old(self).group_size,
            final (self).generator == old(self).generator,
            final (self).random == old(self).random,
            final (self).active == false,
            final (self).steps == 0,
            1 <= (final (self).state as int) < (final (self).group_size as int),
            final (self).start_state == final (self).state,
            !old(self).random ==> final (self).state == 1,
            forall|s: TSPSolution| old(self).sizes_ok(s) ==> final (self).inv(s),
    {
        if self.random {
            self.state = crate::utils::rand_below(1, self.group_size);
        } else {
            self.state = 1;
        }
        self.start_state = self.state;
        self.active = false;
        self.steps = 0;
    }

    /// Advances the traversal to the next scorable move and hands back its
    /// delta and global index.  The index offered is pinned to the group
    /// walk: every state skipped on the way was out of range, and nothing is
    /// offered exactly when the walk has come back to its start.
    pub fn next(&mut self, instance: &TSPInstance, solution: &TSPSolution) -> (r: Option<
        (i64, usize),
    >)
        requires
            old(self).inv(*solution),
            instance.wf(),
            solution.wf_base(),
            solution.n() == instance.n(),
            3 <= solution.perm_a@.len(),
            3 <= solution.perm_b@.len(),
        ensures
            final (self).inv(*solution),
            final (self).transitions@ == old(self).transitions@,
            final (self).transition_sizes@ == old(self).transition_sizes@,
            final (self).group_size == old(self).group_size,
            final (self).generator == old(self).generator,
            final (self).random == old(self).random,
            final (self).start_state == old(self).start_state,
            final (self).steps >= old(self).steps,
            match r {
                Some(pair) => ({
                    let loc = locate(*solution, old(self).transitions@, 0, pair.1 as int);
                    &&& 1 <= pair.1 as int <= old(self).total()
                    &&& loc matches Some(kl)
                    &&& 0 <= kl.0 < old(self).transitions@.len()
                    &&& 1 <= kl.1 <= kind_size(old(self).transitions@[kl.0], *solution)
                    &&& pair.0 as int == kind_delta(
                        *instance,
                        *solution,
                        old(self).transitions@[kl.0],
                        kl.1,
                    )
                    &&& final (self).steps > old(self).steps
                    &&& pair.1 as int == nbr_step_n(
                        *old(self),
                        old(self).start_state as int,
                        (final (self).steps - 1) as nat,
                    )
                    &&& final (self).state as int == nbr_step_n(
                        *old(self),
                        old(self).start_state as int,
                        final (self).steps as nat,
                    )
                    &&& forall|m: int|
                        old(self).steps <= m < final (self).steps - 1 ==> !offer_in_range(
                            *old(self),
                            #[trigger] nbr_step_n(*old(self), old(self).start_state as int, m as nat),
                        )
                }),
                None => ({
                    &&& final (self).steps >= 1
                    &&& final (self).state == final (self).start_state
                    &&& nbr_step_n(
                        *old(self),
                        old(self).start_state as int,
                        final (self).steps as nat,
                    ) == old(self).start_state as int
                    &&& forall|m: int|
                        old(self).steps <= m < final (self).steps ==> !offer_in_range(
                            *old(self),
                            #[trigger] nbr_step_n(*old(self), old(self).start_state as int, m as nat),
                        )
                }),
            },
    {
        proof {
            lemma_orbit_returns(
                self.random,
                self.generator as int,
                self.group_size as int,
                self.start_state as int,
            );
        }
        let ghost kret: int = choose|k: int|
            1 <= k <= old(self).group_size - 1 && #[trigger] step_n(
                old(self).random,
                old(self).generator as int,
                old(self).group_size as int,
                old(self).start_state as int,
                k as nat,
            ) == old(self).start_state as int;
        proof {
            if old(self).steps > kret {
                assert(nbr_step_n(*old(self), old(self).start_state as int, kret as nat) == old(
                    self,
                ).start_state as int);
                assert(false);
            }
        }
        loop
            invariant
                self.inv(*solution),
                self.steps >= old(self).steps,
                instance.wf(),
                solution.wf_base(),
                solution.n() == instance.n(),
                3 <= solution.perm_a@.len(),
                3 <= solution.perm_b@.len(),
                self.transitions@ == old(self).transitions@,
                self.transition_sizes@ == old(self).transition_sizes@,
                self.group_size == old(self).group_size,
                self.generator == old(self).generator,
                self.random == old(self).random,
                self.start_state == old(self).start_state,
                self.state == old(self).state || self.steps > old(self).steps,
                1 <= kret <= self.group_size - 1,
                nbr_step_n(*old(self), old(self).start_state as int, kret as nat) == old(
                    self,
                ).start_state as int,
                self.steps <= kret,
                forall|m: int|
                    old(self).steps <= m < self.steps ==> !offer_in_range(
                        *old(self),
                        #[trigger] nbr_step_n(*old(self), old(self).start_state as int, m as nat),
                    ),
            decreases kret - self.steps,
        {
            if self.active && self.state == self.start_state {
                return None;
            }
            self.active = true;
            let mut score: Option<i64> = None;
            let mut current_state = self.state;
            let count = self.transitions.len();
            let mut i: usize = 0;
            while i < count
                invariant_except_break
                    i <= count,
                    1 <= current_state,
                    current_state <= self.state,
                    locate(*solution, self.transitions@, 0, self.state as int) == locate(
                        *solution,
                        self.transitions@,
                        i as int,
                        current_state as int,
                    ),
                    score matches Option::None,
                invariant
                    self.sizes_ok(*solution),
                    1 <= self.state,
                    instance.wf(),
                    solution.wf_base(),
                    solution.n() == instance.n(),
                    3 <= solution.perm_a@.len(),
                    3 <= solution.perm_b@.len(),
                    count == self.transitions@.len(),
                ensures
                    self.sizes_ok(*solution),
                    count == self.transitions@.len(),
                    match score {
                        Some(x) => ({
                            let loc = locate(*solution, self.transitions@, 0, self.state as int);
                            &&& loc matches Some(kl)
                            &&& 0 <= kl.0 < self.transitions@.len()
                            &&& 1 <= kl.1 <= kind_size(self.transitions@[kl.0], *solution)
                            &&& x as int == kind_delta(
                                *instance,
                                *solution,
                                self.transitions@[kl.0],
                                kl.1,
                            )
                        }),
                        None => locate(
                            *solution,
                            self.transitions@,
                            0,
                            self.state as int,
                        ) matches Option::None,
                    },
                decreases count - i,
            {
                if current_state <= self.transition_sizes[i] {
                    let delta = match self.transitions[i] {
                        TransitionKind::InterCycle => InterCycleTransition::new().score(
                            current_state,
                            instance,
                            solution,
                        ),
                        TransitionKind::Edges => EdgesTransition::new().score(
                            current_state,
                            instance,
                            solution,
                        ),
                        TransitionKind::Vertex => VertexTransition::new().score(
                            current_state,
                            instance,
                            solution,
                        ),
                    };
                    proof {
                        assert(delta matches Some(_));
                        assert(locate(*solution, self.transitions@, i as int, current_state as int)
                            == Some((i as int, current_state as int)));
                    }
                    score = Some(delta.unwrap());
                    break ;
                }
                current_state -= self.transition_sizes[i];
                i += 1;
            }
            let prev_state = self.state;
            let ghost pre = *self;
            proof {
                if pre.steps == kret {
                    assert(pre.state as int == nbr_step_n(
                        pre,
                        pre.start_state as int,
                        pre.steps as nat,
                    ));
                    assert(nbr_step_n(pre, pre.start_state as int, kret as nat) == nbr_step_n(
                        *old(self),
                        old(self).start_state as int,
                        kret as nat,
                    ));
                    assert(pre.state == pre.start_state);
                    assert(false);
                }
            }
            if self.random {
                let st = self.state;
                let gen = self.generator;
                let gs = self.group_size;
                proof {
                    crate::primes::lemma_mul_nonzero_mod_prime(gs as int, st as int, gen as int);
                    assert((st as int) * (gen as int) < 0x7FFF_FFFF_FFFF_FFFFint)
                        by (nonlinear_arith)
                        requires
                            1 <= (st as int) < (gs as int),
                            1 <= (gen as int) < (gs as int),
                            gs as int <= 1_000_000_007,
                    ;
                }
                self.state = (((st as u64) * (gen as u64)) % (gs as u64)) as usize;
                proof {
                    assert(((st as u64) * (gen as u64)) as int == (st as int) * (gen as int));
                    assert(self.state as int == ((st as int) * (gen as int)) % (gs as int));
                }
            } else {
                let st = self.state;
                let gs = self.group_size;
                self.state = (st + 1) % gs;
                proof {
                    if st + 1 == gs {
                        vstd::arithmetic::div_mod::lemma_mod_self_0(gs as int);
                    } else {
                        vstd::arithmetic::div_mod::lemma_small_mod((st + 1) as nat, gs as nat);
                    }
                }
                if self.state == 0 {
                    self.state = 1;
                }
            }
            self.steps += 1;
            proof {
                assert(self.state as int == walk_step(
                    pre.random,
                    pre.generator as int,
                    pre.group_size as int,
                    prev_state as int,
                ));
                assert(prev_state as int == nbr_step_n(
                    *old(self),
                    old(self).start_state as int,
                    pre.steps as nat,
                ));
                assert(self.state as int == nbr_step_n(
                    *old(self),
                    old(self).start_state as int,
                    self.steps as nat,
                ));
                let cur = *self;
                assert(cur.state as int == nbr_step_n(cur, cur.start_state as int, cur.steps as nat));
                assert forall|m: int| 1 <= m < cur.steps implies #[trigger] nbr_step_n(
                    cur,
                    cur.start_state as int,
                    m as nat,
                ) != (cur.start_state as int) by {
                    assert(nbr_step_n(cur, cur.start_state as int, m as nat) == nbr_step_n(
                        pre,
                        pre.start_state as int,
                        m as nat,
                    ));
                    if m < pre.steps {
                        assert(nbr_step_n(pre, pre.start_state as int, m as nat) != (
                        pre.start_state as int));
                    } else {
                        assert(m == pre.steps);
                        assert(nbr_step_n(pre, pre.start_state as int, m as nat)
                            == pre.state as int);
                        assert(pre.state != pre.start_state);
                    }
                }
            }
            match score {
                Some(x) => {
                    proof {
                        let loc = locate(*solution, self.transitions@, 0, prev_state as int);
                        assert(loc matches Some(kl));
                        lemma_locate_in_total(*solution, pre, 0, prev_state as int);
                    }
                    return Some((x, prev_state));
                },
                None => {
                    proof {
                        if offer_in_range(*old(self), prev_state as int) {
                            lemma_locate_some(*solution, pre, 0, prev_state as int);
                            assert(false);
                        }
                    }
                },
            }
        }
    }

    /// Applies the move with the given global index to the solution; the
    /// owning kind is found by walking the composed address spaces.
    pub fn apply_transition(&self, transition: usize, solution: &mut TSPSolution)
        requires
            self.sizes_ok(*old(solution)),
            old(solution).wf_base(),
            old(solution).memb_ok(),
            3 <= old(solution).perm_a@.len(),
            3 <= old(solution).perm_b@.len(),
            old(solution).n() <= MAX_DIM as int,
            1 <= transition,
            ({
                let loc = locate(*old(solution), self.transitions@, 0, transition as int);
                &&& loc matches Some(kl)
                &&& 1 <= kl.1 <= kind_size(self.transitions@[kl.0], *old(solution))
                &&& (self.transitions@[kl.0] == TransitionKind::Edges ==> old(solution).pos_ok())
            }),
        ensures
            final (solution).wf_base(),
            final (solution).memb_ok(),
            final (solution).n() == old(solution).n(),
            final (solution).perm_a@.len() == old(solution).perm_a@.len(),
            final (solution).perm_b@.len() == old(solution).perm_b@.len(),
            ({
                let kl = locate(*old(solution), self.transitions@, 0, transition as int).unwrap();
                &&& crate::tsp::neighborhoods::transition::kind_effect(
                    *old(solution),
                    *final (solution),
                    self.transitions@[kl.0],
                    kl.1,
                )
                &&& (old(solution).pos_ok() && self.transitions@[kl.0] != TransitionKind::Vertex
                    ==> final (solution).pos_ok())
                &&& forall|inst: TSPInstance|
                    inst.wf() && inst.n() == old(solution).n() ==> #[trigger] sol_cost(
                        inst,
                        *final (solution),
                    ) == sol_cost(inst, *old(solution)) + kind_delta(
                        inst,
                        *old(solution),
                        self.transitions@[kl.0],
                        kl.1,
                    )
            }),
    {
        let mut current_state = transition;
        let count = self.transitions.len();
        let mut i: usize = 0;
        while i < count
            invariant
                self.sizes_ok(*old(solution)),
                *solution == *old(solution),
                old(solution).wf_base(),
                old(solution).memb_ok(),
                3 <= old(solution).perm_a@.len(),
                3 <= old(solution).perm_b@.len(),
                old(solution).n() <= MAX_DIM as int,
                count == self.transitions@.len(),
                i <= count,
                1 <= current_state,
                locate(*old(solution), self.transitions@, 0, transition as int) == locate(
                    *old(solution),
                    self.transitions@,
                    i as int,
                    current_state as int,
                ),
                ({
                    let loc = locate(*old(solution), self.transitions@, 0, transition as int);
                    &&& loc matches Some(kl)
                    &&& 1 <= kl.1 <= kind_size(self.transitions@[kl.0], *old(solution))
                    &&& (self.transitions@[kl.0] == TransitionKind::Edges ==> old(
                        solution,
                    ).pos_ok())
                }),
            decreases count - i,
        {
            if current_state <= self.transition_sizes[i] {
                proof {
                    assert(locate(*old(solution), self.transitions@, i as int, current_state as int)
                        == Some((i as int, current_state as int)));
                }
                match self.transitions[i] {
                    TransitionKind::InterCycle => {
                        let t = InterCycleTransition::new();
                        t.apply(current_state, solution);
                        proof {
                            let s = *old(solution);
                            let ns = *solution;
                            let nb = s.perm_b@.len() as int;
                            let na = s.perm_a@.len() as int;
                            let st = (current_state - 1) as int;
                            let ca = st / nb;
                            let cb = st % nb;
                            vstd::arithmetic::div_mod::lemma_fundamental_div_mod(st, nb);
                            vstd::arithmetic::div_mod::lemma_mod_bound(st, nb);
                            assert(ca < na) by (nonlinear_arith)
                                requires
                                    nb >= 1,
                                    0 <= st,
                                    st < na * nb,
                                    st == nb * (st / nb) + (st % nb),
                                    0 <= st % nb < nb,
                                    ca == st / nb,
                            {}
                            assert(ca >= 0) by (nonlinear_arith)
                                requires
                                    nb >= 1,
                                    0 <= st,
                                    st == nb * (st / nb) + (st % nb),
                                    0 <= st % nb < nb,
                                    ca == st / nb,
                            {}
                            assert forall|inst: TSPInstance|
                                inst.wf() && inst.n() == s.n() implies #[trigger] sol_cost(inst, ns)
                                == sol_cost(inst, s) + kind_delta(
                                inst,
                                s,
                                TransitionKind::InterCycle,
                                current_state as int,
                            ) by {
                                crate::tsp::neighborhoods::inter_cycle_transition::lemma_inter_delta_correct(
                                    inst,
                                    s,
                                    ns,
                                    ca,
                                    cb,
                                );
                            }
                        }
                    },
                    TransitionKind::Edges => {
                        let t = EdgesTransition::new();
                        t.apply(current_state, solution);
                        proof {
                            let s = *old(solution);
                            let ns = *solution;
                            let u = crate::tsp::neighborhoods::edges_transition::edges_unpack(
                                s,
                                current_state as int,
                            );
                            crate::tsp::neighborhoods::edges_transition::lemma_edges_unpack_valid(
                                s,
                                current_state as int,
                            );
                            assert forall|inst: TSPInstance|
                                inst.wf() && inst.n() == s.n() implies #[trigger] sol_cost(inst, ns)
                                == sol_cost(inst, s) + kind_delta(
                                inst,
                                s,
                                TransitionKind::Edges,
                                current_state as int,
                            ) by {
                                if u.0 == 0 {
                                    crate::tsp::neighborhoods::edges_transition::lemma_edges_delta_correct(
                                        inst,
                                        s.perm_a@,
                                        u.1,
                                        u.2,
                                    );
                                } else {
                                    crate::tsp::neighborhoods::edges_transition::lemma_edges_delta_correct(
                                        inst,
                                        s.perm_b@,
                                        u.1,
                                        u.2,
                                    );
                                }
                            }
                        }
                    },
                    TransitionKind::Vertex => {
                        let t = VertexTransition::new();
                        t.apply(current_state, solution);
                        proof {
                            let s = *old(solution);
                            let ns = *solution;
                            let u = crate::tsp::neighborhoods::vertex_transition::vertex_unpack(
                                s,
                                current_state as int,
                            );
                            crate::tsp::neighborhoods::vertex_transition::lemma_vertex_unpack_valid(
                                s,
                                current_state as int,
                            );
                            assert forall|inst: TSPInstance|
                                inst.wf() && inst.n() == s.n() implies #[trigger] sol_cost(inst, ns)
                                == sol_cost(inst, s) + kind_delta(
                                inst,
                                s,
                                TransitionKind::Vertex,
                                current_state as int,
                            ) by {
                                if u.0 == 0 {
                                    crate::tsp::neighborhoods::vertex_transition::lemma_vertex_delta_correct(
                                        inst,
                                        s.perm_a@,
                                        u.1,
                                        u.2,
                                    );
                                } else {
                                    crate::tsp::neighborhoods::vertex_transition::lemma_vertex_delta_correct(
                                        inst,
                                        s.perm_b@,
                                        u.1,
                                        u.2,
                                    );
                                }
                            }
                        }
                    },
                }
                return ;
            }
            current_state -= self.transition_sizes[i];
            i += 1;
        }
        proof {
            assert(false);
        }
    }
}

/// The enumerator's invariant carries over to any solution with the same
/// tour lengths, since the cached sizes depend only on those.
pub proof fn lemma_inv_transfer(nbr: Neighborhood, s: TSPSolution, t: TSPSolution)
    requires
        nbr.inv(s),
        s.perm_a@.len() == t.perm_a@.len(),
        s.perm_b@.len() == t.perm_b@.len(),
    ensures
        nbr.inv(t),
{
    assert forall|i: int| 0 <= i < nbr.transitions@.len() implies #[trigger] (
    nbr.transition_sizes@[i] as int) == kind_size(nbr.transitions@[i], t) by {
        crate::tsp::neighborhoods::transition::lemma_kind_size_depends_on_lens(
            nbr.transitions@[i],
            s,
            t,
        );
    }
}

/// Every kind's address space is bounded by the square of the point count.
proof fn lemma_kind_size_bound(k: TransitionKind, s: TSPSolution)
    requires
        3 <= s.perm_a@.len(),
        3 <= s.perm_b@.len(),
        s.n() <= MAX_DIM as int,
    ensures
        0 <= kind_size(k, s) <= (MAX_DIM as int) * (MAX_DIM as int),
{
    let na = s.perm_a@.len() as int;
    let nb = s.perm_b@.len() as int;
    let m = MAX_DIM as int;
    match k {
        TransitionKind::InterCycle => {
            assert(0 <= na * nb <= m * m) by (nonlinear_arith)
                requires
                    3 <= na,
                    3 <= nb,
                    na + nb <= m,
            ;
        },
        TransitionKind::Edges => {
            assert(0 <= na * (na - 3) + nb * (nb - 3) <= m * m) by (nonlinear_arith)
                requires
                    3 <= na,
                    3 <= nb,
                    na + nb <= m,
            ;
        },
        TransitionKind::Vertex => {
            assert(0 <= na * (na - 1) + nb * (nb - 1) <= m * m) by (nonlinear_arith)
                requires
                    3 <= na,
                    3 <= nb,
                    na + nb <= m,
            ;
        },
    }
}

/// Every index within the total move count is claimed by some kind.
proof fn lemma_locate_some(s: TSPSolution, nbr: Neighborhood, i: int, cur: int)
    requires
        nbr.sizes_ok(s),
        0 <= i <= nbr.transitions@.len(),
        1 <= cur,
        cur <= sizes_sum(nbr.transition_sizes@, i),
    ensures
        locate(s, nbr.transitions@, i, cur) matches Some(_),
    decreases nbr.transitions@.len() - i,
{
    if i < nbr.transitions@.len() {
        if cur <= kind_size(nbr.transitions@[i], s) {
        } else {
            lemma_locate_some(s, nbr, i + 1, cur - kind_size(nbr.transitions@[i], s));
        }
    } else {
        assert(sizes_sum(nbr.transition_sizes@, i) == 0);
    }
}

/// A located move's global index is at most the total move count.
pub proof fn lemma_locate_in_total(s: TSPSolution, nbr: Neighborhood, i: int, cur: int)
    requires
        nbr.sizes_ok(s),
        0 <= i <= nbr.transitions@.len(),
        1 <= cur,
        locate(s, nbr.transitions@, i, cur) matches Some(_),
    ensures
        cur <= sizes_sum(nbr.transition_sizes@, i),
    decreases nbr.transitions@.len() - i,
{
    if i < nbr.transitions@.len() {
        if cur <= kind_size(nbr.transitions@[i], s) {
            lemma_sizes_sum_nonneg(nbr.transition_sizes@, i + 1);
        } else {
            lemma_locate_in_total(s, nbr, i + 1, cur - kind_size(nbr.transitions@[i], s));
        }
    }
}

} // verus!
