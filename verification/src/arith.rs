//! Facts about division and remainder that the wheel's slot arithmetic needs.

use vstd::prelude::*;
use vstd::arithmetic::div_mod::{
    lemma_fundamental_div_mod,
    lemma_fundamental_div_mod_converse,
    lemma_mod_mod,
    lemma_multiply_divide_lt,
};
use vstd::arithmetic::mul::lemma_mul_is_commutative;

verus! {

/// Where a fire time `tau` below `u * c` falls among `c` slots of width `u`.
pub(crate) proof fn lemma_slot_facts(tau: int, u: int, c: int)
    requires
        u >= 1,
        c >= 1,
        0 <= tau < u * c,
    ensures
        0 <= tau / u < c,
        (tau / u) * u <= tau < (tau / u) * u + u,
        (tau / u) * u + u <= u * c,
{
    lemma_fundamental_div_mod(tau, u);
    lemma_multiply_divide_lt(tau, u, c);
    let s = tau / u;
    assert(0 <= tau % u < u);
    lemma_mul_is_commutative(u, s);
    assert(s >= 0) by (nonlinear_arith)
        requires
            u >= 1,
            s * u + u > 0,
            s * u <= tau,
            tau >= 0,
            tau < s * u + u,
    ;
    assert(s * u + u <= u * c) by (nonlinear_arith)
        requires
            s + 1 <= c,
            u >= 1,
    ;
}

/// The remainder of the successor.
pub(crate) proof fn lemma_succ_mod(x: int, m: int)
    requires
        x >= 0,
        m >= 1,
    ensures
        (x + 1) % m == if x % m + 1 == m {
            0
        } else {
            x % m + 1
        },
{
    lemma_fundamental_div_mod(x, m);
    let q = x / m;
    let r = x % m;
    lemma_mul_is_commutative(m, q);
    if r + 1 == m {
        assert(x + 1 == (q + 1) * m + 0) by (nonlinear_arith)
            requires
                x == q * m + r,
                r + 1 == m,
        ;
        lemma_fundamental_div_mod_converse(x + 1, m, q + 1, 0);
    } else {
        lemma_fundamental_div_mod_converse(x + 1, m, q, r + 1);
    }
}

/// Reducing modulo a multiple of `u` and then modulo `u` is reducing modulo `u`.
pub(crate) proof fn lemma_mod_of_mod(x: int, u: int, c: int)
    requires
        u >= 1,
        c >= 1,
    ensures
        u * c >= 1,
        (x % (u * c)) % u == x % u,
{
    lemma_mod_mod(x, u, c);
}

/// A multiple of `u` leaves no remainder, and dividing it by `u` gives the factor back.
pub(crate) proof fn lemma_multiple(s: int, u: int)
    requires
        u >= 1,
        s >= 0,
    ensures
        (s * u) % u == 0,
        (s * u) / u == s,
{
    lemma_fundamental_div_mod_converse(s * u, u, s, 0);
}

/// A number without remainder is the multiple of its quotient.
pub(crate) proof fn lemma_exact(x: int, u: int)
    requires
        u >= 1,
        x >= 0,
        x % u == 0,
    ensures
        (x / u) * u == x,
{
    lemma_fundamental_div_mod(x, u);
    lemma_mul_is_commutative(u, x / u);
}

} // verus!
