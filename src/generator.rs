use crate::db::next_state;
use crate::primes::{is_prime, lemma_fermat, lemma_prime_product_nonzero};
use vstd::arithmetic::div_mod::{
    lemma_fundamental_div_mod, lemma_mod_multiples_basic, lemma_mul_mod_noop_general,
    lemma_small_mod,
};
use vstd::arithmetic::power::{lemma_pow_adds, pow};
use vstd::prelude::*;

verus! {

/// The generator's position after `k` steps from `s`.
pub open spec fn state_after(p: int, g: int, s: int, k: nat) -> int
    decreases k,
{
    if k == 0 {
        s
    } else {
        next_state(p, g, state_after(p, g, s, (k - 1) as nat))
    }
}

/// `g` is a primitive root modulo `p`: no power `g^k` with `1 <= k < p - 1`
/// is 1 modulo `p`.
pub open spec fn is_primitive_root(p: int, g: int) -> bool {
    forall|k: nat| 1 <= k < p - 1 ==> #[trigger] pow(g, k) % p != 1
}

/// After `k` steps from `s` the generator stands at `s * g^k mod p`.
pub proof fn lemma_state_after_power(p: int, g: int, s: int, k: nat)
    requires
        p > 0,
        0 <= s < p,
    ensures
        state_after(p, g, s, k) == (s * pow(g, k)) % p,
    decreases k,
{
    reveal(pow);
    if k == 0 {
        lemma_small_mod(s as nat, p as nat);
    } else {
        let k1 = (k - 1) as nat;
        lemma_state_after_power(p, g, s, k1);
        lemma_mul_mod_noop_general(s * pow(g, k1), g, p);
        assert(s * pow(g, k1) * g == s * pow(g, k)) by (nonlinear_arith)
            requires
                pow(g, k) == g * pow(g, k1),
        ;
    }
}

/// No power of a number in `[1, p)` is a multiple of the prime `p`.
pub proof fn lemma_pow_mod_nonzero(p: int, g: int, k: nat)
    requires
        is_prime(p),
        0 < g < p,
    ensures
        0 < pow(g, k) % p < p,
    decreases k,
{
    reveal(pow);
    if k == 0 {
        lemma_small_mod(1, p as nat);
    } else {
        let k1 = (k - 1) as nat;
        lemma_pow_mod_nonzero(p, g, k1);
        lemma_mul_mod_noop_general(g, pow(g, k1), p);
        lemma_small_mod(g as nat, p as nat);
        lemma_prime_product_nonzero(p, g, pow(g, k1) % p);
    }
}

/// Two powers of `g` that agree modulo the prime `p` differ by a power that
/// is 1 modulo `p`.
proof fn lemma_power_cancel(p: int, g: int, i: nat, j: nat)
    requires
        is_prime(p),
        0 < g < p,
        i < j,
        pow(g, i) % p == pow(g, j) % p,
    ensures
        pow(g, (j - i) as nat) % p == 1,
{
    let d = (j - i) as nat;
    lemma_pow_adds(g, i, d);
    assert((i + d) as nat == j);
    let a = pow(g, i) % p;
    let b = pow(g, d) % p;
    lemma_pow_mod_nonzero(p, g, i);
    lemma_pow_mod_nonzero(p, g, d);
    lemma_mul_mod_noop_general(pow(g, i), pow(g, d), p);
    assert((a * b) % p == a);
    if b != 1 {
        lemma_fundamental_div_mod(a * b, p);
        let q = (a * b) / p;
        assert(a * (b - 1) == q * p) by (nonlinear_arith)
            requires
                a * b == p * q + a,
        ;
        lemma_mod_multiples_basic(q, p);
        lemma_prime_product_nonzero(p, a, b - 1);
    }
}

/// Seeded with `g`, the generator comes back to `g` after exactly `p - 1`
/// steps; when `g` is a primitive root, the `p - 1` positions it passes
/// through before that are pairwise distinct.
pub proof fn lemma_generator_cycle(p: int, g: int)
    requires
        is_prime(p),
        1 < g < p,
    ensures
        state_after(p, g, g, (p - 1) as nat) == g,
        is_primitive_root(p, g) ==> forall|i: nat, j: nat|
            i < j < p - 1 ==> #[trigger] state_after(p, g, g, i) != #[trigger] state_after(
                p,
                g,
                g,
                j,
            ),
{
    lemma_fermat(p, g);
    let e = pow(g, (p - 1) as nat);
    lemma_state_after_power(p, g, g, (p - 1) as nat);
    lemma_mul_mod_noop_general(g, e, p);
    lemma_small_mod(g as nat, p as nat);
    assert((g % p) * (e % p) == g);
    if is_primitive_root(p, g) {
        assert forall|i: nat, j: nat| i < j < p - 1 implies #[trigger] state_after(p, g, g, i)
            != #[trigger] state_after(p, g, g, j) by {
            lemma_positions_distinct(p, g, i, j);
        }
    }
}

proof fn lemma_positions_distinct(p: int, g: int, i: nat, j: nat)
    requires
        is_prime(p),
        1 < g < p,
        is_primitive_root(p, g),
        i < j < p - 1,
    ensures
        state_after(p, g, g, i) != state_after(p, g, g, j),
{
    reveal(pow);
    lemma_state_after_power(p, g, g, i);
    lemma_state_after_power(p, g, g, j);
    assert(pow(g, i + 1) == g * pow(g, i));
    assert(pow(g, j + 1) == g * pow(g, j));
    if state_after(p, g, g, i) == state_after(p, g, g, j) {
        lemma_power_cancel(p, g, i + 1, j + 1);
        assert((j + 1 - (i + 1)) as nat == (j - i) as nat);
    }
}

} // verus!
