use vstd::calc;
use vstd::prelude::*;

verus! {

/// A number is prime when it is at least 2 and no smaller number above 1
/// divides it.
pub open spec fn is_prime_spec(n: int) -> bool {
    n >= 2 && forall|d: int| 2 <= d < n ==> #[trigger] (n % d) != 0
}

/// Number-theory helpers: primality testing, prime search, factoring and
/// modular exponentiation, used to drive the pseudorandom move enumerator.
pub struct Primes {}

impl Primes {
    /// Trial division up to the square root decides primality.
    pub fn is_prime(n: usize) -> (r: bool)
        ensures
            r == is_prime_spec(n as int),
    {
        if n < 2 {
            return false;
        }
        let mut i: usize = 2;
        while i <= n / i
            invariant
                2 <= i,
                n >= 2,
                forall|d: int| 2 <= d < i ==> #[trigger] ((n as int) % d) != 0,
            decreases n - i,
        {
            proof {
                assert(i < n) by (nonlinear_arith)
                    requires
                        2 <= i,
                        i <= n / i,
                        n >= 2,
                {
                    vstd::arithmetic::div_mod::lemma_fundamental_div_mod(n as int, i as int);
                }
            }
            if n % i == 0 {
                return false;
            }
            i += 1;
        }
        proof {
            lemma_no_small_divisor_means_prime(n as int, i as int);
        }
        true
    }
}

/// The largest number the prime search will scan up to; it is itself prime,
/// which bounds the search loop.
pub const PRIME_CEILING: usize = 1_000_000_007;

/// The ceiling has no divisor up to its square root, checked bit-exactly,
/// so it is prime.
#[verifier::rlimit(100)]
#[verifier::spinoff_prover]
proof fn lemma_prime_ceiling()
    ensures
        is_prime_spec(PRIME_CEILING as int),
{
    assert(forall|d: u32| 2 <= d < 31624 ==> #[trigger] (1000000007u32 % d) != 0) by (bit_vector);
    assert forall|d: int| 2 <= d < 31624 implies #[trigger] ((1_000_000_007int) % d) != 0 by {
        let du = d as u32;
        assert(1000000007u32 % du != 0);
    }
    lemma_no_small_divisor_means_prime(1_000_000_007, 31624);
}

impl Primes {
    /// The least prime that is at least `number`; the bounded search range
    /// keeps the scan from running past a known prime.
    pub fn next_prime(number: usize) -> (r: usize)
        requires
            number <= PRIME_CEILING,
        ensures
            is_prime_spec(r as int),
            number <= r <= PRIME_CEILING,
            forall|m: int| number <= m < r ==> !is_prime_spec(m),
    {
        proof {
            lemma_prime_ceiling();
        }
        let mut n = number;
        while !Primes::is_prime(n)
            invariant
                number <= n <= PRIME_CEILING,
                is_prime_spec(PRIME_CEILING as int),
                forall|m: int| number <= m < n ==> !is_prime_spec(m),
            decreases PRIME_CEILING - n,
        {
            n += 1;
        }
        n
    }

    /// Modular exponentiation by repeated squaring; intermediate products are
    /// widened so that no multiplication can overflow.
    pub fn fpow(base: usize, exponent: usize, modulus: usize) -> (r: usize)
        requires
            2 <= modulus,
        ensures
            r as int == vstd::arithmetic::power::pow(base as int, exponent as nat) % (
            modulus as int),
    {
        let m: u128 = modulus as u128;
        let mut res: u128 = 1;
        let mut k = exponent;
        let mut a: u128 = (base as u128) % m;
        proof {
            vstd::arithmetic::power::lemma_pow_mod_noop(base as int, exponent as nat, m as int);
        }
        while k > 0
            invariant
                2 <= m <= u64::MAX as u128,
                res < m,
                a < m,
                (res as int * vstd::arithmetic::power::pow(a as int, k as nat)) % (m as int)
                    == vstd::arithmetic::power::pow(base as int, exponent as nat) % (m as int),
            decreases k,
        {
            proof {
                lemma_fpow_step(res as int, a as int, k as int, m as int);
                assert(res * a < m * m && a * a < m * m && m * m <= u128::MAX) by (nonlinear_arith)
                    requires
                        res < m,
                        a < m,
                        2 <= m <= u64::MAX as u128,
                ;
            }
            if k % 2 == 1 {
                res = (res * a) % m;
            }
            a = (a * a) % m;
            k /= 2;
        }
        proof {
            assert(vstd::arithmetic::power::pow(a as int, 0) == 1) by {
                vstd::arithmetic::power::lemma_pow0(a as int);
            }
            vstd::arithmetic::div_mod::lemma_small_mod(res as nat, m as nat);
        }
        res as usize
    }
}

/// One squaring step preserves the partial-product identity of `fpow`.
proof fn lemma_fpow_step(res: int, a: int, k: int, m: int)
    requires
        2 <= m,
        0 <= res < m,
        0 <= a < m,
        1 <= k,
    ensures
        k % 2 == 1 ==> ((res * a) % m) * vstd::arithmetic::power::pow((a * a) % m, (k / 2) as nat)
            % m == (res * vstd::arithmetic::power::pow(a, k as nat)) % m,
        k % 2 == 0 ==> res * vstd::arithmetic::power::pow((a * a) % m, (k / 2) as nat) % m == (res
            * vstd::arithmetic::power::pow(a, k as nat)) % m,
{
    broadcast use vstd::arithmetic::power::lemma_pow_adds;
    broadcast use vstd::arithmetic::power::lemma_pow1;
    broadcast use vstd::arithmetic::power::lemma_pow0;

    let h = (k / 2) as nat;
    let aa = (a * a) % m;
    // pow(aa, h) % m == pow(a * a, h) % m == pow(a, 2 * h) % m
    vstd::arithmetic::power::lemma_pow_mod_noop(a * a, h, m);
    vstd::arithmetic::power::lemma_pow_distributes(a, a, h);
    assert(vstd::arithmetic::power::pow(a * a, h) == vstd::arithmetic::power::pow(a, h)
        * vstd::arithmetic::power::pow(a, h));
    assert(vstd::arithmetic::power::pow(a, h + h) == vstd::arithmetic::power::pow(a, h)
        * vstd::arithmetic::power::pow(a, h));
    let pow_aa = vstd::arithmetic::power::pow(aa, h);
    let pow_a2h = vstd::arithmetic::power::pow(a, h + h);
    assert(pow_aa % m == pow_a2h % m);
    if k % 2 == 1 {
        assert(k as nat == h + h + 1);
        let pk = vstd::arithmetic::power::pow(a, k as nat);
        assert(pk == pow_a2h * a);
        calc! {
            (==)
            (((res * a) % m) * pow_aa) % m; {
                vstd::arithmetic::div_mod::lemma_mul_mod_noop_general(res * a, pow_aa, m);
            }
            (((res * a) % m) * (pow_aa % m)) % m; {}
            (((res * a) % m) * (pow_a2h % m)) % m; {
                vstd::arithmetic::div_mod::lemma_mul_mod_noop_general(res * a, pow_a2h, m);
            }
            ((res * a) * pow_a2h) % m; {
                vstd::arithmetic::mul::lemma_mul_is_associative(res, a, pow_a2h);
                vstd::arithmetic::mul::lemma_mul_is_commutative(a, pow_a2h);
                vstd::arithmetic::mul::lemma_mul_is_associative(res, pow_a2h, a);
            }
            (res * (pow_a2h * a)) % m; {}
            (res * pk) % m;
        }
    } else {
        assert(k as nat == h + h);
        calc! {
            (==)
            (res * pow_aa) % m; {
                vstd::arithmetic::div_mod::lemma_mul_mod_noop_general(res, pow_aa, m);
            }
            ((res % m) * (pow_aa % m)) % m; {}
            ((res % m) * (pow_a2h % m)) % m; {
                vstd::arithmetic::div_mod::lemma_mul_mod_noop_general(res, pow_a2h, m);
            }
            (res * pow_a2h) % m;
        }
    }
}

/// A divisor of a positive number is no larger than the number.
proof fn lemma_divisor_le(d: int, n: int)
    requires
        1 <= d,
        1 <= n,
        n % d == 0,
    ensures
        d <= n,
{
    if d > n {
        vstd::arithmetic::div_mod::lemma_small_mod(n as nat, d as nat);
    }
}

/// Divisibility is transitive.
proof fn lemma_divides_trans(a: int, b: int, c: int)
    requires
        1 <= a,
        1 <= b,
        b % a == 0,
        c % b == 0,
    ensures
        c % a == 0,
{
    vstd::arithmetic::div_mod::lemma_fundamental_div_mod(b, a);
    vstd::arithmetic::div_mod::lemma_fundamental_div_mod(c, b);
    let x = b / a;
    let y = c / b;
    assert(c == a * (x * y)) by (nonlinear_arith)
        requires
            b == a * x,
            c == b * y,
    ;
    vstd::arithmetic::div_mod::lemma_mod_multiples_basic(x * y, a);
}

/// Descent step for the divisibility argument below: if p divides x * b with
/// 0 < x < p, then p also divides (p % x) * b, and p % x is smaller than x.
proof fn lemma_euclid_descent(p: int, x: int, b: int)
    requires
        is_prime_spec(p),
        1 <= x < p,
        0 <= b,
        (x * b) % p == 0,
    ensures
        b % p == 0,
    decreases x,
{
    if x == 1 {
        assert(x * b == b);
    } else {
        // x does not divide the prime p, so s = p % x is in [1, x).
        let s = p % x;
        assert(s != 0);
        vstd::arithmetic::div_mod::lemma_mod_bound(p, x);
        vstd::arithmetic::div_mod::lemma_fundamental_div_mod(p, x);
        let k = p / x;
        let m = (x * b) / p;
        vstd::arithmetic::div_mod::lemma_fundamental_div_mod(x * b, p);
        assert(x * b == p * m);
        assert(m >= 0) by (nonlinear_arith)
            requires
                x * b == p * m,
                x >= 1,
                b >= 0,
                p >= 2,
        ;
        assert(s * b == p * (b - k * m)) by (nonlinear_arith)
            requires
                p == x * k + s,
                x * b == p * m,
        ;
        vstd::arithmetic::div_mod::lemma_mod_multiples_basic(b - k * m, p);
        assert((s * b) % p == 0);
        lemma_euclid_descent(p, s, b);
    }
}

/// A prime that divides a product divides one of the factors.
pub proof fn lemma_prime_divides_product(p: int, a: int, b: int)
    requires
        is_prime_spec(p),
        0 <= a,
        0 <= b,
        (a * b) % p == 0,
    ensures
        a % p == 0 || b % p == 0,
{
    if a % p != 0 {
        let x = a % p;
        vstd::arithmetic::div_mod::lemma_mod_bound(a, p);
        vstd::arithmetic::div_mod::lemma_mul_mod_noop_left(a, b, p);
        assert((x * b) % p == 0);
        lemma_euclid_descent(p, x, b);
    }
}

/// Whether the number `p` occurs in the sequence.
pub open spec fn in_list(s: Seq<usize>, p: int) -> bool {
    exists|j: int| 0 <= j < s.len() && s[j] as int == p
}

proof fn lemma_in_list_push(s: Seq<usize>, x: usize, p: int)
    requires
        in_list(s, p),
    ensures
        in_list(s.push(x), p),
{
    let j = choose|j: int| 0 <= j < s.len() && s[j] as int == p;
    assert(s.push(x)[j] as int == p);
}

impl Primes {
    /// The set of prime divisors of `n`, in increasing order: every listed
    /// number is a prime divisor of `n`, and every prime divisor of `n`
    /// is listed.
    pub fn get_prime_divisors(n: usize) -> (r: Vec<usize>)
        requires
            1 <= n,
        ensures
            forall|j: int|
                0 <= j < r@.len() ==> is_prime_spec(r@[j] as int) && (n as int) % (r@[j] as int)
                    == 0,
            forall|p: int| is_prime_spec(p) && (n as int) % p == 0 ==> #[trigger] in_list(r@, p),
            forall|j1: int, j2: int| 0 <= j1 < j2 < r@.len() ==> r@[j1] < r@[j2],
    {
        let mut m = n;
        let mut i: usize = 2;
        let mut prime_divisors: Vec<usize> = Vec::new();
        while i <= n / i
            invariant
                1 <= n,
                2 <= i,
                1 <= m <= n,
                (n as int) % (m as int) == 0,
                forall|d: int| 2 <= d < i ==> #[trigger] ((m as int) % d) != 0,
                forall|j: int|
                    0 <= j < prime_divisors@.len() ==> is_prime_spec(prime_divisors@[j] as int) && (
                    n as int) % (prime_divisors@[j] as int) == 0 && (prime_divisors@[j] as int) < i,
                forall|p: int|
                    is_prime_spec(p) && p < i && (n as int) % p == 0 ==> #[trigger] in_list(
                        prime_divisors@,
                        p,
                    ),
                forall|p: int|
                    is_prime_spec(p) && p >= i ==> (((n as int) % p == 0) <==> ((m as int) % p
                        == 0)),
                forall|j1: int, j2: int|
                    0 <= j1 < j2 < prime_divisors@.len() ==> prime_divisors@[j1]
                        < prime_divisors@[j2],
            decreases n - i,
        {
            proof {
                vstd::arithmetic::div_mod::lemma_div_is_ordered_by_denominator(n as int, 2, i as int);
                vstd::arithmetic::div_mod::lemma_div_is_strictly_smaller(n as int, 2);
                assert(i < n);
            }
            if m % i == 0 {
                proof {
                    assert(m >= i) by {
                        if m < i {
                            vstd::arithmetic::div_mod::lemma_small_mod(m as nat, i as nat);
                        }
                    }
                    lemma_smallest_divisor_is_prime(m as int, i as int);
                    lemma_divides_trans(i as int, m as int, n as int);
                }
                let ghost pre_push = prime_divisors@;
                prime_divisors.push(i);
                proof {
                    assert forall|p: int|
                        is_prime_spec(p) && p < i + 1 && (n as int) % p == 0 implies #[trigger] in_list(
                        prime_divisors@,
                        p,
                    ) by {
                        if p < i {
                            lemma_in_list_push(pre_push, i, p);
                        } else {
                            assert(prime_divisors@[prime_divisors@.len() - 1] as int == p);
                        }
                    }
                }
                while m % i == 0
                    invariant
                        2 <= i,
                        1 <= m <= n,
                        1 <= n,
                        (n as int) % (m as int) == 0,
                        forall|d: int| 2 <= d < i ==> #[trigger] ((m as int) % d) != 0,
                        forall|p: int|
                            is_prime_spec(p) && p > i ==> (((n as int) % p == 0) <==> ((m as int)
                                % p == 0)),
                    decreases m,
                {
                    let m_old: Ghost<int> = Ghost(m as int);
                    m = m / i;
                    proof {
                        lemma_strip_factor(n as int, m_old@, m as int, i as int);
                    }
                }
                proof {
                    let last = prime_divisors@.len() - 1;
                    assert(prime_divisors@[last] as int == i as int);
                }
            } else {
                proof {
                    if is_prime_spec(i as int) && (n as int) % (i as int) == 0 {
                        assert((m as int) % (i as int) == 0);
                        assert(false);
                    }
                }
            }
            i += 1;
        }
        if m > 1 {
            proof {
                lemma_residual_is_prime(n as int, m as int, i as int);
                assert forall|j: int| 0 <= j < prime_divisors@.len() implies prime_divisors@[j]
                    < m by {
                    assert((m as int) % (m as int) == 0) by {
                        vstd::arithmetic::div_mod::lemma_mod_self_0(m as int);
                    }
                }
            }
            let ghost pre_push = prime_divisors@;
            prime_divisors.push(m);
            proof {
                assert forall|p: int|
                    is_prime_spec(p) && (n as int) % p == 0 implies #[trigger] in_list(
                    prime_divisors@,
                    p,
                ) by {
                    if p < i {
                        lemma_in_list_push(pre_push, m, p);
                    } else if p > m as int {
                        assert((m as int) % p == 0);
                        lemma_divisor_le(p, m as int);
                        assert(false);
                    } else if p == m as int {
                        assert(prime_divisors@[prime_divisors@.len() - 1] as int == p);
                    } else {
                        // i <= p < m: the iff invariant makes p a divisor of the
                        // residual, which is prime.
                        assert((m as int) % p == 0);
                        assert(false);
                    }
                }
            }
        } else {
            proof {
                assert forall|p: int|
                    is_prime_spec(p) && (n as int) % p == 0 implies #[trigger] in_list(
                    prime_divisors@,
                    p,
                ) by {
                    if p >= i {
                        assert((m as int) % p == 0);
                        vstd::arithmetic::div_mod::lemma_small_mod(1nat, p as nat);
                        assert(false);
                    }
                }
            }
        }
        prime_divisors
    }
}

/// The standard primitive-root trial: `g` raised to `(p - 1) / q` is not 1
/// modulo `p`, for any prime divisor `q` of `p - 1`.  A residue that passes
/// generates the whole multiplicative group modulo `p`.
pub open spec fn passes_root_test(g: int, p: int) -> bool {
    forall|q: int|
        is_prime_spec(q) && (p - 1) % q == 0 ==> #[trigger] (vstd::arithmetic::power::pow(
            g,
            (((p - 1) / q)) as nat,
        ) % p) != 1
}

/// How many random residues the generator search will try before giving up
/// and letting the caller fall back to an ordered traversal.
pub const GENERATOR_ATTEMPTS: usize = 1024;

impl Primes {
    /// Searches for a generator of the multiplicative group modulo the prime
    /// `p` by drawing random candidates and applying the primitive-root
    /// trial; gives up after a bounded number of attempts so that the search
    /// always terminates.
    pub fn group_generator(p: usize) -> (r: Option<usize>)
        requires
            is_prime_spec(p as int),
            3 <= p,
        ensures
            match r {
                Some(g) => 1 <= g < p - 1 && passes_root_test(g as int, p as int),
                None => true,
            },
    {
        let fi = p - 1;
        let divisors = Primes::get_prime_divisors(fi);
        let mut attempt: usize = 0;
        while attempt < GENERATOR_ATTEMPTS
            invariant
                is_prime_spec(p as int),
                3 <= p,
                fi == p - 1,
                forall|j: int|
                    0 <= j < divisors@.len() ==> is_prime_spec(divisors@[j] as int) && (fi as int)
                        % (divisors@[j] as int) == 0,
                forall|q: int|
                    is_prime_spec(q) && (fi as int) % q == 0 ==> #[trigger] in_list(divisors@, q),
            decreases GENERATOR_ATTEMPTS - attempt,
        {
            let g = crate::utils::rand_below(1, fi);
            let mut flag = true;
            let mut k: usize = 0;
            while k < divisors.len()
                invariant
                    is_prime_spec(p as int),
                    3 <= p,
                    fi == p - 1,
                    1 <= g < fi,
                    k <= divisors@.len(),
                    forall|j: int|
                        0 <= j < divisors@.len() ==> is_prime_spec(divisors@[j] as int) && (
                        fi as int) % (divisors@[j] as int) == 0,
                    flag ==> forall|j: int|
                        0 <= j < k ==> #[trigger] (vstd::arithmetic::power::pow(
                            g as int,
                            ((fi as int) / (divisors@[j] as int)) as nat,
                        ) % (p as int)) != 1,
                decreases divisors@.len() - k,
            {
                let q = divisors[k];
                proof {
                    assert(q >= 2);
                    lemma_divisor_le(q as int, fi as int);
                }
                if Primes::fpow(g, fi / q, p) == 1 {
                    flag = false;
                }
                k += 1;
            }
            if flag {
                proof {
                    assert forall|q: int| is_prime_spec(q) && ((p - 1) as int) % q == 0 implies #[trigger] (
                    vstd::arithmetic::power::pow(g as int, (((p - 1) as int) / q) as nat) % (
                    p as int)) != 1 by {
                        assert(in_list(divisors@, q));
                        let j = choose|j: int| 0 <= j < divisors@.len() && divisors@[j] as int == q;
                        assert(vstd::arithmetic::power::pow(
                            g as int,
                            ((fi as int) / (divisors@[j] as int)) as nat,
                        ) % (p as int) != 1);
                    }
                }
                return Some(g);
            }
            attempt += 1;
        }
        None
    }

    /// The smallest prime group size above `n`, paired with a generator of
    /// its multiplicative group, or with 0 when the randomized search gave
    /// up.
    pub fn group_generator_and_size(n: usize) -> (r: (usize, usize))
        requires
            2 <= n,
            n < PRIME_CEILING,
        ensures
            is_prime_spec(r.1 as int),
            n < r.1 <= PRIME_CEILING,
            forall|m: int| n < m < r.1 ==> !is_prime_spec(m),
            r.0 != 0 ==> 1 <= r.0 < r.1 - 1 && passes_root_test(r.0 as int, r.1 as int),
    {
        let p = Primes::next_prime(n + 1);
        match Primes::group_generator(p) {
            Some(g) => (g, p),
            None => (0, p),
        }
    }
}

/// Multiplying two nonzero residues modulo a prime gives a nonzero residue.
pub proof fn lemma_mul_nonzero_mod_prime(p: int, s: int, g: int)
    requires
        is_prime_spec(p),
        1 <= s < p,
        1 <= g < p,
    ensures
        1 <= (s * g) % p < p,
{
    vstd::arithmetic::div_mod::lemma_mod_bound(s * g, p);
    assert(s * g >= 0) by (nonlinear_arith)
        requires
            s >= 1,
            g >= 1,
    ;
    if (s * g) % p == 0 {
        lemma_prime_divides_product(p, s, g);
        vstd::arithmetic::div_mod::lemma_small_mod(s as nat, p as nat);
        vstd::arithmetic::div_mod::lemma_small_mod(g as nat, p as nat);
        assert(false);
    }
}

/// Repetition-freeness of the pseudorandom traversal's stepping: one
/// multiplication step of the walk maps distinct nonzero residues modulo a
/// prime to distinct nonzero residues.  Iterated from any seed, the walk
/// therefore never revisits a state before returning to its start.
pub proof fn lemma_step_injective(p: int, g: int, x: int, y: int)
    requires
        is_prime_spec(p),
        1 <= g < p,
        1 <= x < p,
        1 <= y < p,
        x != y,
    ensures
        (x * g) % p != (y * g) % p,
{
    if (x * g) % p == (y * g) % p {
        let (lo, hi) = if x < y {
            (x, y)
        } else {
            (y, x)
        };
        vstd::arithmetic::div_mod::lemma_sub_mod_noop(hi * g, lo * g, p);
        assert((hi * g - lo * g) % p == 0) by {
            assert(((hi * g) % p - (lo * g) % p) % p == 0) by {
                vstd::arithmetic::div_mod::lemma_mod_self_0(p);
                assert((hi * g) % p - (lo * g) % p == 0);
                vstd::arithmetic::div_mod::lemma_small_mod(0nat, p as nat);
            }
        }
        assert((hi - lo) * g == hi * g - lo * g) by (nonlinear_arith);
        assert(((hi - lo) * g) % p == 0);
        lemma_prime_divides_product(p, hi - lo, g);
        vstd::arithmetic::div_mod::lemma_small_mod((hi - lo) as nat, p as nat);
        vstd::arithmetic::div_mod::lemma_small_mod(g as nat, p as nat);
        assert(false);
    }
}

/// The smallest nontrivial divisor of a number is prime.
proof fn lemma_smallest_divisor_is_prime(m: int, i: int)
    requires
        2 <= i <= m,
        m % i == 0,
        forall|d: int| 2 <= d < i ==> #[trigger] (m % d) != 0,
    ensures
        is_prime_spec(i),
{
    assert forall|d: int| 2 <= d < i implies #[trigger] (i % d) != 0 by {
        if i % d == 0 {
            lemma_divides_trans(d, i, m);
        }
    }
}

/// Dividing one copy of the prime `i` out of `m` keeps every other prime's
/// divisibility of `n` in step with its divisibility of the quotient.
proof fn lemma_strip_factor(n: int, m_old: int, m_new: int, i: int)
    requires
        2 <= i,
        1 <= m_old <= n,
        m_old % i == 0,
        m_new == m_old / i,
        n % m_old == 0,
        forall|d: int| 2 <= d < i ==> #[trigger] (m_old % d) != 0,
        forall|p: int| is_prime_spec(p) && p > i ==> ((n % p == 0) <==> (#[trigger] (m_old % p)
            == 0)),
    ensures
        1 <= m_new <= n,
        n % m_new == 0,
        forall|d: int| 2 <= d < i ==> #[trigger] (m_new % d) != 0,
        forall|p: int| is_prime_spec(p) && p > i ==> ((n % p == 0) <==> (#[trigger] (m_new % p)
            == 0)),
        m_new < m_old,
{
    vstd::arithmetic::div_mod::lemma_fundamental_div_mod(m_old, i);
    assert(m_old == i * m_new);
    assert(1 <= m_new && m_new < m_old) by (nonlinear_arith)
        requires
            m_old == i * m_new,
            i >= 2,
            m_old >= 1,
    ;
    assert(m_old % m_new == 0) by {
        vstd::arithmetic::div_mod::lemma_mod_multiples_basic(i, m_new);
        assert(m_old == m_new * i) by (nonlinear_arith)
            requires
                m_old == i * m_new,
        ;
    }
    lemma_divides_trans(m_new, m_old, n);
    assert forall|d: int| 2 <= d < i implies #[trigger] (m_new % d) != 0 by {
        if m_new % d == 0 {
            lemma_divides_trans(d, m_new, m_old);
        }
    }
    assert forall|p: int| is_prime_spec(p) && p > i implies ((n % p == 0) <==> (#[trigger] (m_new
        % p) == 0)) by {
        if m_new % p == 0 {
            lemma_divides_trans(p, m_new, m_old);
        } else if n % p == 0 {
            assert(m_old % p == 0);
            assert((i * m_new) % p == 0);
            lemma_prime_divides_product(p, i, m_new);
            if i % p == 0 {
                lemma_divisor_le(p, i);
            }
        }
    }
}

/// After trial division has passed the square root of `n`, a residual above 1
/// is itself prime.
proof fn lemma_residual_is_prime(n: int, m: int, i: int)
    requires
        2 <= i,
        2 <= m <= n,
        n % m == 0,
        n / i < i,
        forall|d: int| 2 <= d < i ==> #[trigger] (m % d) != 0,
    ensures
        is_prime_spec(m),
        m >= i,
{
    assert(m >= i) by {
        if m < i {
            assert(m % m == 0) by {
                vstd::arithmetic::div_mod::lemma_mod_self_0(m);
            }
        }
    }
    if m / i >= i {
        assert(false) by (nonlinear_arith)
            requires
                m <= n,
                i >= 2,
                n / i < i,
                m / i >= i,
        {
            vstd::arithmetic::div_mod::lemma_div_is_ordered(m, n, i);
        }
    }
    lemma_no_small_divisor_means_prime(m, i);
}

/// If no divisor of n lies in [2, i) and i * i > n, then none lies in [2, n)
/// either: a divisor d of n pairs with n / d, and the smaller of the two is
/// at most the square root of n.
proof fn lemma_no_small_divisor_means_prime(n: int, i: int)
    requires
        n >= 2,
        i >= 2,
        n / i < i,
        forall|d: int| 2 <= d < i ==> #[trigger] (n % d) != 0,
    ensures
        is_prime_spec(n),
{
    assert forall|d: int| 2 <= d < n implies #[trigger] (n % d) != 0 by {
        if n % d == 0 && d >= i {
            let q = n / d;
            vstd::arithmetic::div_mod::lemma_fundamental_div_mod(n, d);
            assert(n == d * q);
            assert(q >= 1) by (nonlinear_arith)
                requires
                    n >= 2,
                    2 <= d < n,
                    n == d * q,
            ;
            assert(q >= 2) by (nonlinear_arith)
                requires
                    n == d * q,
                    d < n,
                    q >= 1,
            ;
            assert(q < i) by (nonlinear_arith)
                requires
                    n == d * q,
                    d >= i,
                    i >= 2,
                    q >= 1,
                    n / i < i,
                    n >= 2,
            {
                assert(i * i > n) by {
                    vstd::arithmetic::div_mod::lemma_fundamental_div_mod(n, i);
                }
            }
            assert(n % q == 0) by (nonlinear_arith)
                requires
                    n == d * q,
                    q >= 2,
            {
                vstd::arithmetic::div_mod::lemma_mod_multiples_basic(d, q);
            }
            assert(false);
        }
    }
}

} // verus!
