use vstd::arithmetic::div_mod::{
    lemma_fundamental_div_mod, lemma_fundamental_div_mod_converse_mod, lemma_mod_multiples_basic,
    lemma_small_mod,
};
use vstd::arithmetic::div_mod::{lemma_mul_mod_noop_general, lemma_mul_mod_noop_left};
use vstd::arithmetic::power::pow;
use vstd::prelude::*;
use vstd::relations::injective_on;
use vstd::set::fold::{is_fun_commutative, lemma_fold_empty, lemma_fold_insert};
use vstd::set_lib::{lemma_int_range, lemma_map_size, lemma_subset_equality, set_int_range};

verus! {

/// `p` is a prime number.
pub open spec fn is_prime(p: int) -> bool {
    p >= 2 && forall|d: int| 2 <= d < p ==> #[trigger] (p % d) != 0
}

/// A prime divides no product of two numbers in `[1, p)`.
pub proof fn lemma_prime_product_nonzero(p: int, a: int, b: int)
    requires
        is_prime(p),
        0 < a < p,
        0 < b < p,
    ensures
        (a * b) % p != 0,
    decreases b,
{
    if b == 1 {
        lemma_small_mod(a as nat, p as nat);
    } else if (a * b) % p == 0 {
        // The remainder of `p` by `b` would be a smaller counterexample.
        let q = p / b;
        let r = p % b;
        lemma_fundamental_div_mod(p, b);
        assert(r != 0);
        assert(0 < r < b);
        lemma_fundamental_div_mod(a * b, p);
        let k = (a * b) / p;
        assert(a * r == (a - q * k) * p) by (nonlinear_arith)
            requires
                p == b * q + r,
                a * b == p * k,
        ;
        lemma_mod_multiples_basic(a - q * k, p);
        lemma_prime_product_nonzero(p, a, r);
    }
}

/// Trial division up to the square root.
pub fn is_prime_u64(n: u64) -> (r: bool)
    ensures
        r == is_prime(n as int),
{
    if n < 2 {
        return false;
    }
    let mut d: u64 = 2;
    while d <= n / d
        invariant
            2 <= d <= n,
            forall|e: int| 2 <= e < d ==> #[trigger] (n as int % e) != 0,
        decreases n - d,
    {
        if n % d == 0 {
            assert(d < n) by (nonlinear_arith)
                requires
                    d <= n / d,
                    d >= 2,
            ;
            assert(n as int % d as int == 0);
            return false;
        }
        assert(d + 1 <= n) by (nonlinear_arith)
            requires
                d <= n / d,
                d >= 2,
        ;
        d = d + 1;
    }
    proof {
        assert(n < d * d) by (nonlinear_arith)
            requires
                d > n / d,
                d >= 2,
        ;
        assert forall|e: int| 2 <= e < n implies #[trigger] (n as int % e) != 0 by {
            if e >= d && n as int % e == 0 {
                let f = n as int / e;
                lemma_fundamental_div_mod(n as int, e);
                assert(2 <= f < d && n as int == f * e) by (nonlinear_arith)
                    requires
                        n as int == e * f,
                        e >= d,
                        e < n,
                        n < d * d,
                        d >= 2,
                ;
                lemma_fundamental_div_mod_converse_mod(n as int, f, e, 0);
            }
        }
    }
    true
}

/// The integers `1 ..= n`.
pub open spec fn first(n: int) -> Set<int> {
    set_int_range(1, n + 1)
}

/// One step of a product modulo `p`.
pub open spec fn times_mod(p: int) -> spec_fn(int, int) -> int {
    |b: int, a: int| (b * a) % p
}

/// Multiplication by `g` modulo `p`.
pub open spec fn scaled(p: int, g: int) -> spec_fn(int) -> int {
    |x: int| (x * g) % p
}

/// One step of a product modulo `p` of the factors scaled by `g`.
pub open spec fn times_scaled_mod(p: int, g: int) -> spec_fn(int, int) -> int {
    |b: int, a: int| (b * ((a * g) % p)) % p
}

proof fn lemma_products_commute(p: int, g: int)
    requires
        p > 0,
    ensures
        is_fun_commutative(times_mod(p)),
        is_fun_commutative(times_scaled_mod(p, g)),
{
    let f = times_mod(p);
    assert forall|a1: int, a2: int, b: int| #[trigger] f(f(b, a2), a1) == f(f(b, a1), a2) by {
        lemma_mul_mod_noop_left(b * a2, a1, p);
        lemma_mul_mod_noop_left(b * a1, a2, p);
        assert(b * a2 * a1 == b * a1 * a2) by (nonlinear_arith);
    }
    let h = times_scaled_mod(p, g);
    assert forall|a1: int, a2: int, b: int| #[trigger] h(h(b, a2), a1) == h(h(b, a1), a2) by {
        let k1 = (a1 * g) % p;
        let k2 = (a2 * g) % p;
        lemma_mul_mod_noop_left(b * k2, k1, p);
        lemma_mul_mod_noop_left(b * k1, k2, p);
        assert(b * k2 * k1 == b * k1 * k2) by (nonlinear_arith);
    }
}

proof fn lemma_first_insert(n: int)
    requires
        n >= 1,
    ensures
        first(n) == first(n - 1).insert(n),
        !first(n - 1).contains(n),
        first(n - 1).finite(),
{
    assert(first(n) =~= first(n - 1).insert(n));
    lemma_int_range(1, n);
}

/// The product of `1 ..= n` modulo the prime `p` is not a multiple of `p`.
proof fn lemma_product_nonzero(p: int, n: int)
    requires
        is_prime(p),
        0 <= n < p,
    ensures
        0 < first(n).fold(1, times_mod(p)) < p,
    decreases n,
{
    lemma_products_commute(p, 1);
    if n == 0 {
        assert(first(0) =~= Set::empty());
        lemma_fold_empty(1, times_mod(p));
    } else {
        lemma_first_insert(n);
        lemma_product_nonzero(p, n - 1);
        lemma_fold_insert(first(n - 1), 1, times_mod(p), n);
        lemma_prime_product_nonzero(p, first(n - 1).fold(1, times_mod(p)), n);
    }
}

/// Scaling each of `n` factors by `g` scales their product by `g^n`.
proof fn lemma_scaled_product(p: int, g: int, n: int)
    requires
        p > 1,
        0 <= n,
    ensures
        first(n).fold(1, times_scaled_mod(p, g)) == (pow(g, n as nat) * first(n).fold(
            1,
            times_mod(p),
        )) % p,
    decreases n,
{
    reveal(pow);
    lemma_products_commute(p, g);
    if n == 0 {
        assert(first(0) =~= Set::empty());
        lemma_fold_empty(1, times_mod(p));
        lemma_fold_empty(1, times_scaled_mod(p, g));
        lemma_small_mod(1, p as nat);
    } else {
        lemma_first_insert(n);
        lemma_scaled_product(p, g, n - 1);
        lemma_fold_insert(first(n - 1), 1, times_mod(p), n);
        lemma_fold_insert(first(n - 1), 1, times_scaled_mod(p, g), n);
        let f = first(n - 1).fold(1, times_mod(p));
        let e = pow(g, (n - 1) as nat);
        let x = e * f;
        let y = n * g;
        lemma_mul_mod_noop_general(x, y, p);
        lemma_mul_mod_noop_general(pow(g, n as nat), f * n, p);
        assert(x * y == pow(g, n as nat) * (f * n)) by (nonlinear_arith)
            requires
                pow(g, n as nat) == g * e,
                x == e * f,
                y == n * g,
        ;
    }
}

/// Multiplication by `g` does not merge two residues in `[1, p)`.
proof fn lemma_scaled_injective(p: int, g: int)
    requires
        is_prime(p),
        0 < g < p,
    ensures
        injective_on(scaled(p, g), first(p - 1)),
{
    let h = scaled(p, g);
    assert forall|x: int, y: int|
        first(p - 1).contains(x) && first(p - 1).contains(y) && #[trigger] h(x) == #[trigger] h(
            y,
        ) implies x == y by {
        if x != y {
            let (u, v) = if x > y {
                (x, y)
            } else {
                (y, x)
            };
            lemma_fundamental_div_mod(u * g, p);
            lemma_fundamental_div_mod(v * g, p);
            let q = (u * g) / p - (v * g) / p;
            assert(g * (u - v) == q * p) by (nonlinear_arith)
                requires
                    u * g == p * ((u * g) / p) + (u * g) % p,
                    v * g == p * ((v * g) / p) + (v * g) % p,
                    (u * g) % p == (v * g) % p,
                    q == (u * g) / p - (v * g) / p,
            ;
            lemma_mod_multiples_basic(q, p);
            lemma_prime_product_nonzero(p, g, u - v);
        }
    }
}

/// The product of the first `n` residues scaled by `g` is the product over
/// their images.
proof fn lemma_product_over_image(p: int, g: int, n: int)
    requires
        is_prime(p),
        0 < g < p,
        0 <= n < p,
    ensures
        first(n).map(scaled(p, g)).finite(),
        first(n).map(scaled(p, g)).fold(1, times_mod(p)) == first(n).fold(
            1,
            times_scaled_mod(p, g),
        ),
    decreases n,
{
    lemma_products_commute(p, g);
    let h = scaled(p, g);
    if n == 0 {
        assert(first(0) =~= Set::empty());
        assert(first(0).map(h) =~= Set::empty());
        lemma_fold_empty(1, times_mod(p));
        lemma_fold_empty(1, times_scaled_mod(p, g));
    } else {
        lemma_first_insert(n);
        lemma_product_over_image(p, g, n - 1);
        let m = first(n - 1).map(h);
        assert forall|v: int| #[trigger] first(n).map(h).contains(v) == m.insert(h(n)).contains(
            v,
        ) by {
            if first(n).map(h).contains(v) {
                let k = choose|k: int| first(n).contains(k) && v == #[trigger] h(k);
                if k < n {
                    assert(first(n - 1).contains(k));
                }
            }
            if m.insert(h(n)).contains(v) {
                if v == h(n) {
                    assert(first(n).contains(n));
                } else {
                    let k = choose|k: int| first(n - 1).contains(k) && v == #[trigger] h(k);
                    assert(first(n).contains(k));
                }
            }
        }
        assert(first(n).map(h) =~= m.insert(h(n)));
        lemma_scaled_injective(p, g);
        if m.contains(h(n)) {
            let k = choose|k: int| first(n - 1).contains(k) && h(n) == #[trigger] h(k);
            assert(first(p - 1).contains(k) && first(p - 1).contains(n));
        }
        lemma_fold_insert(m, 1, times_mod(p), h(n));
        lemma_fold_insert(first(n - 1), 1, times_scaled_mod(p, g), n);
    }
}

/// Fermat's little theorem: `g^(p-1)` is 1 modulo the prime `p` for every
/// `g` in `[1, p)`.
pub proof fn lemma_fermat(p: int, g: int)
    requires
        is_prime(p),
        0 < g < p,
    ensures
        pow(g, (p - 1) as nat) % p == 1,
{
    let r = first(p - 1);
    let h = scaled(p, g);
    lemma_products_commute(p, g);
    lemma_int_range(1, p);
    lemma_scaled_injective(p, g);
    lemma_map_size(r, r.map(h), h);
    assert(r.map(h).subset_of(r)) by {
        assert forall|v: int| r.map(h).contains(v) implies r.contains(v) by {
            let k = choose|k: int| r.contains(k) && v == h(k);
            lemma_prime_product_nonzero(p, k, g);
        }
    }
    lemma_subset_equality(r.map(h), r);
    lemma_product_over_image(p, g, p - 1);
    lemma_scaled_product(p, g, p - 1);
    lemma_product_nonzero(p, p - 1);
    let f = r.fold(1, times_mod(p));
    let e = pow(g, (p - 1) as nat);
    let b = e % p;
    // The product is unchanged by scaling, so the scale factor is 1.
    assert(f == (e * f) % p);
    vstd::arithmetic::power::lemma_pow_positive(g, (p - 1) as nat);
    lemma_mul_mod_noop_general(e, f, p);
    lemma_small_mod(f as nat, p as nat);
    assert((b * f) % p == f);
    if b != 1 {
        assert(b != 0) by {
            if b == 0 {
                assert(b * f == 0) by (nonlinear_arith)
                    requires
                        b == 0,
                ;
                lemma_small_mod(0, p as nat);
            }
        }
        lemma_fundamental_div_mod(b * f, p);
        let q = (b * f) / p;
        assert(f * (b - 1) == q * p) by (nonlinear_arith)
            requires
                b * f == p * q + f,
        ;
        lemma_mod_multiples_basic(q, p);
        lemma_prime_product_nonzero(p, f, b - 1);
    }
}

} // verus!
