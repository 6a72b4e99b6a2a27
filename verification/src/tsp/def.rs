use vstd::prelude::*;

verus! {

/// Distances are nonnegative integers bounded by this constant, so that
/// whole-tour sums and move deltas stay far from overflow.
pub const MAX_DIST: i64 = 1_000_000;

/// The largest point count an instance may have.
pub const MAX_DIM: usize = 20_000;

/// An immutable metric-space instance: a point count and a symmetric,
/// nonnegative, zero-diagonal distance matrix.
pub struct TSPInstance {
    pub dimension: usize,
    pub distance_cache: Vec<Vec<i64>>,
}

impl TSPInstance {
    pub open spec fn n(self) -> int {
        self.dimension as int
    }

    /// The distance between points `a` and `b`.
    pub open spec fn d(self, a: int, b: int) -> int {
        self.distance_cache@[a]@[b] as int
    }

    pub open spec fn wf(self) -> bool {
        &&& self.dimension <= MAX_DIM
        &&& self.distance_cache@.len() == self.n()
        &&& forall|i: int| 0 <= i < self.n() ==> #[trigger] self.distance_cache@[i]@.len() == self.n()
        &&& forall|i: int, j: int|
            0 <= i < self.n() && 0 <= j < self.n() ==> 0 <= #[trigger] self.d(i, j) <= MAX_DIST
        &&& forall|i: int, j: int|
            0 <= i < self.n() && 0 <= j < self.n() ==> #[trigger] self.d(i, j) == self.d(j, i)
        &&& forall|i: int| 0 <= i < self.n() ==> #[trigger] self.d(i, i) == 0
    }

    /// What `from_matrix` accepts: a square matrix of at most `MAX_DIM`
    /// rows whose entries are bounded nonnegative distances, symmetric and
    /// zero on the diagonal.
    pub open spec fn matrix_ok(m: Seq<Vec<i64>>) -> bool {
        &&& m.len() <= MAX_DIM
        &&& forall|i: int| 0 <= i < m.len() ==> #[trigger] m[i]@.len() == m.len()
        &&& forall|i: int, j: int|
            0 <= i < m.len() && 0 <= j < m.len() ==> 0 <= #[trigger] (m[i]@[j] as int) <= MAX_DIST
        &&& forall|i: int, j: int|
            0 <= i < m.len() && 0 <= j < m.len() ==> #[trigger] (m[i]@[j] as int) == m[j]@[i] as int
        &&& forall|i: int| 0 <= i < m.len() ==> #[trigger] (m[i]@[i] as int) == 0
    }

    /// Wraps a distance matrix; it is accepted exactly when it is square,
    /// bounded, symmetric and zero on the diagonal.
    pub fn from_matrix(matrix: Vec<Vec<i64>>) -> (r: Option<TSPInstance>)
        ensures
            match r {
                Some(inst) => inst.wf() && inst.distance_cache@ == matrix@ && inst.n()
                    == matrix@.len() && Self::matrix_ok(matrix@),
                None => !Self::matrix_ok(matrix@),
            },
    {
        let n = matrix.len();
        if n > MAX_DIM {
            return None;
        }
        for i in 0..n
            invariant
                n == matrix@.len(),
                forall|k: int| 0 <= k < i ==> #[trigger] matrix@[k]@.len() == n,
        {
            if matrix[i].len() != n {
                proof {
                    assert(matrix@[i as int]@.len() != n);
                }
                return None;
            }
        }
        for i in 0..n
            invariant
                n == matrix@.len() <= MAX_DIM,
                forall|k: int| 0 <= k < n ==> #[trigger] matrix@[k]@.len() == n,
                forall|k: int, j: int|
                    0 <= k < i && 0 <= j < n ==> 0 <= #[trigger] (matrix@[k]@[j] as int) <= MAX_DIST,
                forall|k: int, j: int|
                    0 <= k < i && 0 <= j < n ==> #[trigger] (matrix@[k]@[j] as int) == matrix@[j]@[k]
                        as int,
                forall|k: int| 0 <= k < i ==> #[trigger] (matrix@[k]@[k] as int) == 0,
        {
            for j in 0..n
                invariant
                    n == matrix@.len() <= MAX_DIM,
                    i < n,
                    forall|k: int| 0 <= k < n ==> #[trigger] matrix@[k]@.len() == n,
                    forall|j2: int|
                        0 <= j2 < j ==> 0 <= #[trigger] (matrix@[i as int]@[j2] as int) <= MAX_DIST,
                    forall|j2: int|
                        0 <= j2 < j ==> #[trigger] (matrix@[i as int]@[j2] as int)
                            == matrix@[j2]@[i as int] as int,
                    i < j ==> matrix@[i as int]@[i as int] as int == 0,
            {
                let v = matrix[i][j];
                if v < 0 || v > MAX_DIST {
                    proof {
                        assert(!(0 <= matrix@[i as int]@[j as int] as int <= MAX_DIST));
                    }
                    return None;
                }
                if j == i && v != 0 {
                    proof {
                        assert(matrix@[i as int]@[i as int] as int != 0);
                    }
                    return None;
                }
                if matrix[j][i] != v {
                    proof {
                        assert(matrix@[i as int]@[j as int] as int != matrix@[j as int]@[i as int]
                            as int);
                    }
                    return None;
                }
            }
        }
        let inst = TSPInstance { dimension: n, distance_cache: matrix };
        proof {
            assert forall|i: int, j: int|
                0 <= i < inst.n() && 0 <= j < inst.n() implies (0 <= #[trigger] inst.d(i, j)
                <= MAX_DIST && inst.d(i, j) == inst.d(j, i)) by {
                assert(inst.distance_cache@[i]@[j] as int == inst.distance_cache@[j]@[i] as int);
                assert(0 <= inst.distance_cache@[i]@[j] as int <= MAX_DIST);
            }
            assert forall|i: int| 0 <= i < inst.n() implies #[trigger] inst.d(i, i) == 0 by {
                assert(inst.distance_cache@[i]@[i] as int == 0);
            }
        }
        Some(inst)
    }

    /// The distance between points `a` and `b`, read from the matrix.
    pub fn dist_k(&self, a: usize, b: usize) -> (r: i64)
        requires
            self.wf(),
            a < self.dimension,
            b < self.dimension,
        ensures
            r as int == self.d(a as int, b as int),
            0 <= r <= MAX_DIST,
    {
        proof {
            assert(0 <= self.d(a as int, b as int) <= MAX_DIST);
        }
        self.distance_cache[a][b]
    }
}

/// Every entry of the sequence is an index below `n`.
pub open spec fn bounded(s: Seq<usize>, n: int) -> bool {
    forall|i: int| 0 <= i < s.len() ==> (#[trigger] s[i] as int) < n
}

/// No entry of the sequence repeats.
pub open spec fn distinct(s: Seq<usize>) -> bool {
    forall|i: int, j: int| 0 <= i < j < s.len() ==> s[i] != s[j]
}

/// The two sequences share no entry.
pub open spec fn disjoint_seqs(a: Seq<usize>, b: Seq<usize>) -> bool {
    forall|i: int, j: int| 0 <= i < a.len() && 0 <= j < b.len() ==> a[i] != b[j]
}

/// Together the two sequences hold `n` pairwise distinct indices below `n`:
/// they partition the point set.
pub open spec fn is_partition(a: Seq<usize>, b: Seq<usize>, n: int) -> bool {
    &&& a.len() + b.len() == n
    &&& bounded(a, n)
    &&& bounded(b, n)
    &&& distinct(a)
    &&& distinct(b)
    &&& disjoint_seqs(a, b)
}

/// A partition of points into two closed tours, with two redundant side
/// tables: `cycle[v]` names the tour that holds `v` and `order[v]` the
/// position of `v` inside it.
pub struct TSPSolution {
    pub perm_a: Vec<usize>,
    pub perm_b: Vec<usize>,
    pub cycle: Vec<usize>,
    pub order: Vec<usize>,
}

impl TSPSolution {
    /// The total number of points.
    pub open spec fn n(self) -> int {
        self.perm_a@.len() + self.perm_b@.len() as int
    }

    /// The tours partition the points and the side tables have full length.
    pub open spec fn wf_base(self) -> bool {
        &&& is_partition(self.perm_a@, self.perm_b@, self.n())
        &&& self.cycle@.len() == self.n()
        &&& self.order@.len() == self.n()
    }

    /// The membership table is right: points of the first tour map to 0,
    /// points of the second to 1.
    pub open spec fn memb_ok(self) -> bool {
        &&& forall|i: int|
            0 <= i < self.perm_a@.len() ==> #[trigger] (self.cycle@[self.perm_a@[i] as int] as int)
                == 0
        &&& forall|i: int|
            0 <= i < self.perm_b@.len() ==> #[trigger] (self.cycle@[self.perm_b@[i] as int] as int)
                == 1
    }

    /// The position table is right: every point's recorded position is its
    /// index in its owning tour.
    pub open spec fn pos_ok(self) -> bool {
        &&& forall|i: int|
            0 <= i < self.perm_a@.len() ==> #[trigger] (self.order@[self.perm_a@[i] as int] as int)
                == i
        &&& forall|i: int|
            0 <= i < self.perm_b@.len() ==> #[trigger] (self.order@[self.perm_b@[i] as int] as int)
                == i
    }

    pub open spec fn wf(self) -> bool {
        self.wf_base() && self.memb_ok() && self.pos_ok()
    }

    /// Builds a solution from the two tours and derives the side tables.
    pub fn new(perm_a: Vec<usize>, perm_b: Vec<usize>) -> (r: TSPSolution)
        requires
            is_partition(perm_a@, perm_b@, perm_a@.len() + perm_b@.len() as int),
            perm_a@.len() + perm_b@.len() as int <= usize::MAX as int,
        ensures
            r.wf(),
            r.perm_a@ == perm_a@,
            r.perm_b@ == perm_b@,
            r.n() == perm_a@.len() + perm_b@.len(),
    {
        let n_a = perm_a.len();
        let total = n_a + perm_b.len();
        let mut cycle: Vec<usize> = Vec::new();
        let mut order: Vec<usize> = Vec::new();
        for _k in 0..total
            invariant
                cycle@.len() == _k,
                order@.len() == _k,
        {
            cycle.push(0);
            order.push(0);
        }
        let mut solution = TSPSolution { perm_a, perm_b, cycle, order };
        solution.reorder();
        solution
    }

    /// Rebuilds both side tables from the tours in one pass each.
    pub fn reorder(&mut self)
        requires
            old(self).wf_base(),
        ensures
            final (self).wf(),
            final (self).perm_a@ == old(self).perm_a@,
            final (self).perm_b@ == old(self).perm_b@,
            final (self).n() == old(self).n(),
    {
        let n_a = self.perm_a.len();
        let n_b = self.perm_b.len();
        let mut i: usize = 0;
        while i < n_a
            invariant
                self.wf_base(),
                self.perm_a@ == old(self).perm_a@,
                self.perm_b@ == old(self).perm_b@,
                n_a == self.perm_a@.len(),
                n_b == self.perm_b@.len(),
                i <= n_a,
                forall|k: int|
                    0 <= k < i ==> #[trigger] (self.order@[self.perm_a@[k] as int] as int) == k,
                forall|k: int|
                    0 <= k < i ==> #[trigger] (self.cycle@[self.perm_a@[k] as int] as int) == 0,
            decreases n_a - i,
        {
            let v = self.perm_a[i];
            self.order.set(v, i);
            self.cycle.set(v, 0);
            i += 1;
        }
        let mut i: usize = 0;
        while i < n_b
            invariant
                self.wf_base(),
                self.perm_a@ == old(self).perm_a@,
                self.perm_b@ == old(self).perm_b@,
                n_a == self.perm_a@.len(),
                n_b == self.perm_b@.len(),
                i <= n_b,
                forall|k: int|
                    0 <= k < n_a ==> #[trigger] (self.order@[self.perm_a@[k] as int] as int) == k,
                forall|k: int|
                    0 <= k < n_a ==> #[trigger] (self.cycle@[self.perm_a@[k] as int] as int) == 0,
                forall|k: int|
                    0 <= k < i ==> #[trigger] (self.order@[self.perm_b@[k] as int] as int) == k,
                forall|k: int|
                    0 <= k < i ==> #[trigger] (self.cycle@[self.perm_b@[k] as int] as int) == 1,
            decreases n_b - i,
        {
            let v = self.perm_b[i];
            self.order.set(v, i);
            self.cycle.set(v, 1);
            i += 1;
        }
    }

    /// Reports whether both side tables agree with the tours.
    #[verifier::rlimit(50)]
    pub fn check(&self) -> (r: bool)
        requires
            self.wf_base(),
        ensures
            r == (self.memb_ok() && self.pos_ok()),
    {
        let mut res = true;
        let n_a = self.perm_a.len();
        let n_b = self.perm_b.len();
        let mut i: usize = 0;
        while i < n_a
            invariant
                self.wf_base(),
                n_a == self.perm_a@.len(),
                i <= n_a,
                res ==> forall|k: int|
                    0 <= k < i ==> #[trigger] (self.order@[self.perm_a@[k] as int] as int) == k && (
                    self.cycle@[self.perm_a@[k] as int] as int) == 0,
                !res ==> !(self.memb_ok() && self.pos_ok()),
            decreases n_a - i,
        {
            let v = self.perm_a[i];
            let here = self.order[v] == i && self.cycle[v] == 0;
            proof {
                if !here && self.memb_ok() && self.pos_ok() {
                    assert((self.order@[self.perm_a@[i as int] as int] as int) == i as int);
                    assert((self.cycle@[self.perm_a@[i as int] as int] as int) == 0);
                }
            }
            res = res && here;
            proof {
                if res {
                    assert forall|k: int|
                        0 <= k < i + 1 implies #[trigger] (self.order@[self.perm_a@[k] as int]
                        as int) == k && (self.cycle@[self.perm_a@[k] as int] as int) == 0 by {
                        if k == i as int {
                            assert((self.order@[self.perm_a@[k] as int] as int) == k);
                            assert((self.cycle@[self.perm_a@[k] as int] as int) == 0);
                        } else {
                            assert(0 <= k < i as int);
                            assert((self.order@[self.perm_a@[k] as int] as int) == k);
                            assert((self.cycle@[self.perm_a@[k] as int] as int) == 0);
                        }
                    }
                }
            }
            i += 1;
        }
        proof {
            if res {
                assert forall|k: int|
                    0 <= k < n_a implies #[trigger] (self.order@[self.perm_a@[k] as int] as int)
                        == k && (self.cycle@[self.perm_a@[k] as int] as int) == 0 by {
                    assert((self.order@[self.perm_a@[k] as int] as int) == k);
                    assert((self.cycle@[self.perm_a@[k] as int] as int) == 0);
                }
            }
        }
        let mut i: usize = 0;
        while i < n_b
            invariant
                self.wf_base(),
                n_a == self.perm_a@.len(),
                n_b == self.perm_b@.len(),
                i <= n_b,
                res ==> forall|k: int|
                    0 <= k < n_a ==> #[trigger] (self.order@[self.perm_a@[k] as int] as int) == k
                        && (self.cycle@[self.perm_a@[k] as int] as int) == 0,
                res ==> forall|k: int|
                    0 <= k < i ==> #[trigger] (self.order@[self.perm_b@[k] as int] as int) == k && (
                    self.cycle@[self.perm_b@[k] as int] as int) == 1,
                !res ==> !(self.memb_ok() && self.pos_ok()),
            decreases n_b - i,
        {
            let v = self.perm_b[i];
            let here = self.order[v] == i && self.cycle[v] == 1;
            proof {
                if !here && self.memb_ok() && self.pos_ok() {
                    assert((self.order@[self.perm_b@[i as int] as int] as int) == i as int);
                    assert((self.cycle@[self.perm_b@[i as int] as int] as int) == 1);
                }
            }
            res = res && here;
            proof {
                if res {
                    assert forall|k: int|
                        0 <= k < i + 1 implies #[trigger] (self.order@[self.perm_b@[k] as int]
                        as int) == k && (self.cycle@[self.perm_b@[k] as int] as int) == 1 by {
                        if k == i as int {
                            assert((self.order@[self.perm_b@[k] as int] as int) == k);
                            assert((self.cycle@[self.perm_b@[k] as int] as int) == 1);
                        } else {
                            assert(0 <= k < i as int);
                            assert((self.order@[self.perm_b@[k] as int] as int) == k);
                            assert((self.cycle@[self.perm_b@[k] as int] as int) == 1);
                        }
                    }
                }
            }
            i += 1;
        }
        proof {
            if res {
                assert forall|k: int|
                    0 <= k < self.perm_a@.len() implies #[trigger] (self.cycle@[self.perm_a@[k]
                    as int] as int) == 0 by {
                    assert((self.order@[self.perm_a@[k] as int] as int) == k && (
                    self.cycle@[self.perm_a@[k] as int] as int) == 0);
                }
                assert forall|k: int|
                    0 <= k < self.perm_a@.len() implies #[trigger] (self.order@[self.perm_a@[k]
                    as int] as int) == k by {
                    assert((self.order@[self.perm_a@[k] as int] as int) == k && (
                    self.cycle@[self.perm_a@[k] as int] as int) == 0);
                }
                assert forall|k: int|
                    0 <= k < self.perm_b@.len() implies #[trigger] (self.cycle@[self.perm_b@[k]
                    as int] as int) == 1 by {
                    assert((self.order@[self.perm_b@[k] as int] as int) == k && (
                    self.cycle@[self.perm_b@[k] as int] as int) == 1);
                }
                assert forall|k: int|
                    0 <= k < self.perm_b@.len() implies #[trigger] (self.order@[self.perm_b@[k]
                    as int] as int) == k by {
                    assert((self.order@[self.perm_b@[k] as int] as int) == k && (
                    self.cycle@[self.perm_b@[k] as int] as int) == 1);
                }
                assert(self.memb_ok());
                assert(self.pos_ok());
            }
        }
        res
    }

    /// A full copy, side tables included.
    pub fn deep_clone(&self) -> (r: TSPSolution)
        ensures
            r.perm_a@ == self.perm_a@,
            r.perm_b@ == self.perm_b@,
            r.cycle@ == self.cycle@,
            r.order@ == self.order@,
    {
        let mut perm_a: Vec<usize> = Vec::new();
        let mut perm_b: Vec<usize> = Vec::new();
        let mut cycle: Vec<usize> = Vec::new();
        let mut order: Vec<usize> = Vec::new();
        copy_into(&self.perm_a, &mut perm_a);
        copy_into(&self.perm_b, &mut perm_b);
        copy_into(&self.cycle, &mut cycle);
        copy_into(&self.order, &mut order);
        TSPSolution { perm_a, perm_b, cycle, order }
    }
}

/// The set of indices below `n`.
spec fn below_set(n: int) -> Set<usize> {
    Set::new(|v: usize| 0 <= (v as int) < n)
}

proof fn lemma_below_set_len(n: int)
    requires
        0 <= n <= usize::MAX,
    ensures
        below_set(n).finite(),
        below_set(n).len() == n,
    decreases n,
{
    if n == 0 {
        assert(below_set(0) =~= Set::<usize>::empty());
    } else {
        lemma_below_set_len(n - 1);
        assert(below_set(n) =~= below_set(n - 1).insert((n - 1) as usize));
        assert(!below_set(n - 1).contains((n - 1) as usize));
    }
}

/// Coverage law: a partition omits no point.  Every index below `n` occurs
/// in one of the two tours; together with the disjointness and
/// distinctness that `is_partition` carries, it occurs exactly once over
/// both.
pub proof fn lemma_partition_coverage(a: Seq<usize>, b: Seq<usize>, n: int, v: int)
    requires
        is_partition(a, b, n),
        n <= usize::MAX,
        0 <= v < n,
    ensures
        (exists|i: int| 0 <= i < a.len() && a[i] as int == v) || (exists|j: int|
            0 <= j < b.len() && b[j] as int == v),
{
    let all = a + b;
    assert(all.len() == n);
    assert(all.no_duplicates()) by {
        assert forall|i: int, j: int| 0 <= i < all.len() && 0 <= j < all.len() && i != j implies
            all[i] != all[j] by {
            if i < a.len() && j < a.len() {
                assert(a[i] == all[i] && a[j] == all[j]);
            } else if i < a.len() {
                assert(a[i] == all[i] && b[j - a.len()] == all[j]);
            } else if j < a.len() {
                assert(b[i - a.len()] == all[i] && a[j] == all[j]);
            } else {
                assert(b[i - a.len()] == all[i] && b[j - a.len()] == all[j]);
            }
        }
    }
    all.unique_seq_to_set();
    lemma_below_set_len(n);
    assert(all.to_set().subset_of(below_set(n))) by {
        assert forall|x: usize| all.to_set().contains(x) implies below_set(n).contains(x) by {
            let k = choose|k: int| 0 <= k < all.len() && all[k] == x;
            if k < a.len() {
                assert(a[k] == x);
            } else {
                assert(b[k - a.len()] == x);
            }
        }
    }
    if !all.to_set().contains(v as usize) {
        let smaller = below_set(n).remove(v as usize);
        assert(all.to_set().subset_of(smaller));
        vstd::set_lib::lemma_len_subset(all.to_set(), smaller);
        assert(smaller.len() == n - 1);
        assert(false);
    }
    assert(all.contains(v as usize));
    let k = choose|k: int| 0 <= k < all.len() && all[k] == v as usize;
    if k < a.len() {
        assert(a[k] as int == v);
    } else {
        assert(b[k - a.len()] as int == v);
    }
}

/// A point's recorded membership and position locate it in its tour: for a
/// fully consistent solution, the tables invert the tours.
pub proof fn lemma_tables_locate(s: TSPSolution, v: int)
    requires
        s.wf(),
        s.n() <= usize::MAX,
        0 <= v < s.n(),
    ensures
        (s.cycle@[v] as int == 0) ==> 0 <= (s.order@[v] as int) < s.perm_a@.len()
            && s.perm_a@[s.order@[v] as int] as int == v,
        (s.cycle@[v] as int != 0) ==> 0 <= (s.order@[v] as int) < s.perm_b@.len()
            && s.perm_b@[s.order@[v] as int] as int == v,
{
    lemma_partition_coverage(s.perm_a@, s.perm_b@, s.n(), v);
    if exists|i: int| 0 <= i < s.perm_a@.len() && s.perm_a@[i] as int == v {
        let i = choose|i: int| 0 <= i < s.perm_a@.len() && s.perm_a@[i] as int == v;
        assert((s.cycle@[s.perm_a@[i] as int] as int) == 0);
        assert((s.order@[s.perm_a@[i] as int] as int) == i);
    } else {
        let j = choose|j: int| 0 <= j < s.perm_b@.len() && s.perm_b@[j] as int == v;
        assert((s.cycle@[s.perm_b@[j] as int] as int) == 1);
        assert((s.order@[s.perm_b@[j] as int] as int) == j);
    }
}

/// The position that follows `i` on a closed tour of length `len`.
pub open spec fn next_pos(len: int, i: int) -> int {
    if i + 1 == len {
        0
    } else {
        i + 1
    }
}

/// The position that precedes `i` on a closed tour of length `len`.
pub open spec fn prev_pos(len: int, i: int) -> int {
    if i == 0 {
        len - 1
    } else {
        i - 1
    }
}

/// The length of the tour edge that leaves position `i`.
pub open spec fn edge_cost(inst: TSPInstance, p: Seq<usize>, i: int) -> int {
    inst.d(p[i] as int, p[next_pos(p.len() as int, i)] as int)
}

/// The sum of the edge lengths leaving positions `lo .. hi`.
pub open spec fn range_cost(inst: TSPInstance, p: Seq<usize>, lo: int, hi: int) -> int
    decreases hi - lo,
{
    if lo >= hi {
        0
    } else {
        edge_cost(inst, p, lo) + range_cost(inst, p, lo + 1, hi)
    }
}

/// The length of the closed tour `p`.
pub open spec fn tour_cost(inst: TSPInstance, p: Seq<usize>) -> int {
    range_cost(inst, p, 0, p.len() as int)
}

/// The objective: the summed length of both tours.
pub open spec fn sol_cost(inst: TSPInstance, s: TSPSolution) -> int {
    tour_cost(inst, s.perm_a@) + tour_cost(inst, s.perm_b@)
}

/// A sum over a range splits at any midpoint.
pub proof fn lemma_range_cost_split(inst: TSPInstance, p: Seq<usize>, lo: int, mid: int, hi: int)
    requires
        lo <= mid <= hi,
    ensures
        range_cost(inst, p, lo, hi) == range_cost(inst, p, lo, mid) + range_cost(inst, p, mid, hi),
    decreases mid - lo,
{
    if lo < mid {
        lemma_range_cost_split(inst, p, lo + 1, mid, hi);
    }
}

/// Two tours whose edges agree on a range of positions have the same sum
/// there.
pub proof fn lemma_range_cost_congruence(
    inst: TSPInstance,
    p: Seq<usize>,
    q: Seq<usize>,
    lo: int,
    hi: int,
)
    requires
        forall|i: int| lo <= i < hi ==> #[trigger] edge_cost(inst, p, i) == edge_cost(inst, q, i),
    ensures
        range_cost(inst, p, lo, hi) == range_cost(inst, q, lo, hi),
    decreases hi - lo,
{
    if lo < hi {
        lemma_range_cost_congruence(inst, p, q, lo + 1, hi);
    }
}

/// Every edge of a bounded tour has a length between 0 and `MAX_DIST`, so a
/// range sum is bounded by its width times `MAX_DIST`.
pub proof fn lemma_range_cost_bounds(inst: TSPInstance, p: Seq<usize>, lo: int, hi: int)
    requires
        inst.wf(),
        bounded(p, inst.n()),
        0 <= lo,
        hi <= p.len(),
    ensures
        0 <= range_cost(inst, p, lo, hi),
        range_cost(inst, p, lo, hi) <= (if lo <= hi {
            (hi - lo) * (MAX_DIST as int)
        } else {
            0
        }),
    decreases hi - lo,
{
    if lo < hi {
        lemma_range_cost_bounds(inst, p, lo + 1, hi);
        assert(0 <= edge_cost(inst, p, lo) <= MAX_DIST as int);
        assert((hi - lo) * (MAX_DIST as int) == (hi - lo - 1) * (MAX_DIST as int) + MAX_DIST as int)
            by (nonlinear_arith);
    }
}

/// Replacing the point at one position changes the tour length by exactly
/// the two adjacent edges' difference.
pub proof fn lemma_update_cost(inst: TSPInstance, p: Seq<usize>, pos: int, v: usize)
    requires
        inst.wf(),
        bounded(p, inst.n()),
        (v as int) < inst.n(),
        0 <= pos < p.len(),
        p.len() >= 2,
    ensures
        tour_cost(inst, p.update(pos, v)) - tour_cost(inst, p) == inst.d(
            p[prev_pos(p.len() as int, pos)] as int,
            v as int,
        ) + inst.d(v as int, p[next_pos(p.len() as int, pos)] as int) - inst.d(
            p[prev_pos(p.len() as int, pos)] as int,
            p[pos] as int,
        ) - inst.d(p[pos] as int, p[next_pos(p.len() as int, pos)] as int),
{
    let len = p.len() as int;
    let q = p.update(pos, v);
    let pr = prev_pos(len, pos);
    assert(q.len() == len);
    assert forall|i: int| 0 <= i < len && i != pos && i != pr implies #[trigger] edge_cost(inst, q, i)
        == edge_cost(inst, p, i) by {
        assert(q[i] == p[i]);
        assert(next_pos(len, i) != pos);
        assert(q[next_pos(len, i)] == p[next_pos(len, i)]);
    }
    assert(edge_cost(inst, q, pos) == inst.d(v as int, p[next_pos(len, pos)] as int)) by {
        if next_pos(len, pos) != pos {
            assert(q[next_pos(len, pos)] == p[next_pos(len, pos)]);
        }
    }
    assert(edge_cost(inst, q, pr) == inst.d(p[pr] as int, v as int)) by {
        assert(next_pos(len, pr) == pos);
        if pr != pos {
            assert(q[pr] == p[pr]);
        }
    }
    let x = if pr < pos {
        pr
    } else {
        pos
    };
    let y = if pr < pos {
        pos
    } else {
        pr
    };
    assert(x < y || len == 2 && pos == pr);
    if x == y {
        assert(len <= 1);
        assert(false);
    }
    lemma_range_cost_split(inst, p, 0, x, len);
    lemma_range_cost_split(inst, p, x, x + 1, len);
    lemma_range_cost_split(inst, p, x + 1, y, len);
    lemma_range_cost_split(inst, p, y, y + 1, len);
    lemma_range_cost_split(inst, q, 0, x, len);
    lemma_range_cost_split(inst, q, x, x + 1, len);
    lemma_range_cost_split(inst, q, x + 1, y, len);
    lemma_range_cost_split(inst, q, y, y + 1, len);
    lemma_range_cost_congruence(inst, p, q, 0, x);
    lemma_range_cost_congruence(inst, p, q, x + 1, y);
    lemma_range_cost_congruence(inst, p, q, y + 1, len);
    assert(range_cost(inst, p, x, x + 1) == edge_cost(inst, p, x));
    assert(range_cost(inst, p, y, y + 1) == edge_cost(inst, p, y));
    assert(range_cost(inst, q, x, x + 1) == edge_cost(inst, q, x));
    assert(range_cost(inst, q, y, y + 1) == edge_cost(inst, q, y));
}

/// The tour with the block of positions `x ..= y` reversed in place.
pub open spec fn reverse_range(p: Seq<usize>, x: int, y: int) -> Seq<usize> {
    Seq::new(
        p.len(),
        |k: int|
            if x <= k <= y {
                p[x + y - k]
            } else {
                p[k]
            },
    )
}

/// A sum of edges that mirror another range's edges in reverse order equals
/// that range's sum.
proof fn lemma_mirror_sum(
    inst: TSPInstance,
    p: Seq<usize>,
    q: Seq<usize>,
    qlo: int,
    qhi: int,
    plo: int,
    phi: int,
    m: int,
)
    requires
        qlo <= qhi,
        qhi - qlo == phi - plo,
        m == qlo + phi - 1,
        forall|i: int| qlo <= i < qhi ==> #[trigger] edge_cost(inst, q, i) == edge_cost(inst, p, m - i),
    ensures
        range_cost(inst, q, qlo, qhi) == range_cost(inst, p, plo, phi),
    decreases qhi - qlo,
{
    if qlo < qhi {
        assert(edge_cost(inst, q, qlo) == edge_cost(inst, p, m - qlo));
        assert(m - qlo == phi - 1);
        lemma_range_cost_split(inst, p, plo, phi - 1, phi);
        lemma_mirror_sum(inst, p, q, qlo + 1, qhi, plo, phi - 1, m);
        assert(range_cost(inst, p, phi - 1, phi) == edge_cost(inst, p, phi - 1) + range_cost(
            inst,
            p,
            phi,
            phi,
        ));
        assert(range_cost(inst, q, qlo, qhi) == edge_cost(inst, q, qlo) + range_cost(
            inst,
            q,
            qlo + 1,
            qhi,
        ));
    }
}

/// Reversing a block of a closed tour changes its length by exactly the two
/// boundary edges' difference: the block's inner edges keep their lengths by
/// symmetry of the distance.
pub proof fn lemma_reverse_cost(inst: TSPInstance, p: Seq<usize>, x: int, y: int)
    requires
        inst.wf(),
        bounded(p, inst.n()),
        0 <= x <= y < p.len(),
        y - x + 1 <= p.len() - 2,
    ensures
        tour_cost(inst, reverse_range(p, x, y)) - tour_cost(inst, p) == inst.d(
            p[prev_pos(p.len() as int, x)] as int,
            p[y] as int,
        ) + inst.d(p[x] as int, p[next_pos(p.len() as int, y)] as int) - inst.d(
            p[prev_pos(p.len() as int, x)] as int,
            p[x] as int,
        ) - inst.d(p[y] as int, p[next_pos(p.len() as int, y)] as int),
{
    let n = p.len() as int;
    let q = reverse_range(p, x, y);
    let pr = prev_pos(n, x);
    let nx = next_pos(n, y);
    assert(q.len() == n);
    // the boundary positions lie outside the reversed block
    assert(!(x <= pr <= y));
    assert(!(x <= nx <= y));
    // mirrored inner edges
    assert forall|i: int| x <= i < y implies #[trigger] edge_cost(inst, q, i) == edge_cost(
        inst,
        p,
        x + y - 1 - i,
    ) by {
        assert(next_pos(n, i) == i + 1);
        assert(q[i] == p[x + y - i]);
        assert(q[i + 1] == p[x + y - i - 1]);
        let j = x + y - 1 - i;
        assert(x <= j < y);
        assert(next_pos(n, j) == j + 1);
        assert(edge_cost(inst, p, j) == inst.d(p[j] as int, p[j + 1] as int));
        assert(inst.d(p[x + y - i] as int, p[x + y - i - 1] as int) == inst.d(
            p[x + y - i - 1] as int,
            p[x + y - i] as int,
        ));
    }
    lemma_mirror_sum(inst, p, q, x, y, x, y, x + y - 1);
    // the boundary edges after the reversal
    assert(edge_cost(inst, q, pr) == inst.d(p[pr] as int, p[y] as int)) by {
        assert(next_pos(n, pr) == x);
        assert(q[pr] == p[pr]);
        assert(q[x] == p[y]);
    }
    assert(edge_cost(inst, q, y) == inst.d(p[x] as int, p[nx] as int)) by {
        assert(next_pos(n, y) == nx);
        assert(q[y] == p[x]);
        assert(q[nx] == p[nx]);
    }
    // unchanged edges elsewhere
    assert forall|i: int|
        0 <= i < n && !(x <= i <= y) && i != pr implies #[trigger] edge_cost(inst, q, i)
        == edge_cost(inst, p, i) by {
        assert(q[i] == p[i]);
        let ni = next_pos(n, i);
        assert(!(x <= ni <= y)) by {
            if x <= ni <= y {
                assert(ni == x);
                assert(i == pr);
            }
        }
        assert(q[ni] == p[ni]);
    }
    if x == 0 {
        // the block starts the tour; the preceding edge is the wrap edge
        assert(pr == n - 1);
        assert(y + 1 < n - 1 || y + 1 == n - 1);
        lemma_range_cost_split(inst, p, 0, y, n);
        lemma_range_cost_split(inst, p, y, y + 1, n);
        lemma_range_cost_split(inst, p, y + 1, n - 1, n);
        lemma_range_cost_split(inst, q, 0, y, n);
        lemma_range_cost_split(inst, q, y, y + 1, n);
        lemma_range_cost_split(inst, q, y + 1, n - 1, n);
        lemma_range_cost_congruence(inst, p, q, y + 1, n - 1);
        assert(range_cost(inst, p, y, y + 1) == edge_cost(inst, p, y) + range_cost(
            inst,
            p,
            y + 1,
            y + 1,
        ));
        assert(range_cost(inst, q, y, y + 1) == edge_cost(inst, q, y) + range_cost(
            inst,
            q,
            y + 1,
            y + 1,
        ));
        assert(range_cost(inst, p, n - 1, n) == edge_cost(inst, p, n - 1) + range_cost(
            inst,
            p,
            n,
            n,
        ));
        assert(range_cost(inst, q, n - 1, n) == edge_cost(inst, q, n - 1) + range_cost(
            inst,
            q,
            n,
            n,
        ));
    } else {
        assert(pr == x - 1);
        lemma_range_cost_split(inst, p, 0, x - 1, n);
        lemma_range_cost_split(inst, p, x - 1, x, n);
        lemma_range_cost_split(inst, p, x, y, n);
        lemma_range_cost_split(inst, p, y, y + 1, n);
        lemma_range_cost_split(inst, q, 0, x - 1, n);
        lemma_range_cost_split(inst, q, x - 1, x, n);
        lemma_range_cost_split(inst, q, x, y, n);
        lemma_range_cost_split(inst, q, y, y + 1, n);
        lemma_range_cost_congruence(inst, p, q, 0, x - 1);
        lemma_range_cost_congruence(inst, p, q, y + 1, n);
    }
}

impl TSPInstance {
    /// The length of one closed tour, summed over the matrix.
    fn eval_permutation(&self, perm: &Vec<usize>) -> (r: i64)
        requires
            self.wf(),
            bounded(perm@, self.n()),
            perm@.len() <= self.n(),
        ensures
            r as int == tour_cost(*self, perm@),
    {
        let len = perm.len();
        let mut acc: i64 = 0;
        let mut i: usize = 0;
        proof {
            lemma_range_cost_bounds(*self, perm@, 0, perm@.len() as int);
        }
        while i < len
            invariant
                self.wf(),
                bounded(perm@, self.n()),
                len == perm@.len() <= self.n(),
                i <= len,
                acc as int == range_cost(*self, perm@, 0, i as int),
                0 <= acc as int <= (i as int) * (MAX_DIST as int),
            decreases len - i,
        {
            let next = if i + 1 == len {
                0
            } else {
                i + 1
            };
            let dist = self.dist_k(perm[i], perm[next]);
            proof {
                lemma_range_cost_split(*self, perm@, 0, i as int, i + 1 as int);
                lemma_range_cost_bounds(*self, perm@, 0, i + 1 as int);
                assert(range_cost(*self, perm@, i as int, i + 1 as int) == edge_cost(
                    *self,
                    perm@,
                    i as int,
                ) + range_cost(*self, perm@, i + 1 as int, i + 1 as int));
                assert(next as int == next_pos(perm@.len() as int, i as int));
                assert(dist as int == edge_cost(*self, perm@, i as int));
                assert((i as int) * (MAX_DIST as int) <= (self.n()) * (MAX_DIST as int))
                    by (nonlinear_arith)
                    requires
                        0 <= i as int <= self.n(),
                ;
                assert(self.n() * (MAX_DIST as int) <= (MAX_DIM as int) * (MAX_DIST as int))
                    by (nonlinear_arith)
                    requires
                        0 <= self.n() <= MAX_DIM as int,
                ;
            }
            acc = acc + dist;
            i += 1;
            proof {
                lemma_range_cost_bounds(*self, perm@, 0, i as int);
            }
        }
        acc
    }

    /// The total length of both tours of the solution.  The solution must
    /// have exactly as many points as the instance.
    pub fn eval(&self, solution: &TSPSolution) -> (r: i64)
        requires
            self.wf(),
            solution.wf_base(),
            solution.n() == self.n(),
        ensures
            r as int == sol_cost(*self, *solution),
            0 <= r as int <= 2 * (MAX_DIM as int) * (MAX_DIST as int),
    {
        proof {
            lemma_range_cost_bounds(*self, solution.perm_a@, 0, solution.perm_a@.len() as int);
            lemma_range_cost_bounds(*self, solution.perm_b@, 0, solution.perm_b@.len() as int);
            assert(solution.perm_a@.len() * (MAX_DIST as int) + solution.perm_b@.len() * (
            MAX_DIST as int) <= 2 * (MAX_DIM as int) * (MAX_DIST as int)) by (nonlinear_arith)
                requires
                    solution.perm_a@.len() + solution.perm_b@.len() as int <= MAX_DIM as int,
            ;
        }
        let a = self.eval_permutation(&solution.perm_a);
        let b = self.eval_permutation(&solution.perm_b);
        a + b
    }
}

/// Appends every element of `src` to the freshly drained `dst`.
fn copy_into(src: &Vec<usize>, dst: &mut Vec<usize>)
    requires
        old(dst)@.len() == 0,
    ensures
        final (dst)@ == src@,
{
    let n = src.len();
    let mut i: usize = 0;
    while i < n
        invariant
            n == src@.len(),
            i <= n,
            dst@ == src@.subrange(0, i as int),
        decreases n - i,
    {
        dst.push(src[i]);
        proof {
            assert(dst@ =~= src@.subrange(0, i + 1));
        }
        i += 1;
    }
    proof {
        assert(dst@ =~= src@);
    }
}

} // verus!
