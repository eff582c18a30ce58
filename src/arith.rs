//! Greatest common divisor and Euler's totient.
use crate::factors::{factorize, factors_of, Factorization};
use crate::natural::{nat_eq, nat_mul, nat_pow, nat_rem, nat_sub, Natural};
use vstd::arithmetic::div_mod::{lemma_fundamental_div_mod, lemma_mod_multiples_basic, lemma_small_mod};
use vstd::arithmetic::power::pow;
use vstd::prelude::*;

verus! {

/// Euclid's recursion: `gcd(a, 0) = a`, `gcd(a, b) = gcd(b, a mod b)`.
pub open spec fn gcd_spec(a: nat, b: nat) -> nat
    decreases b,
{
    if b == 0 {
        a
    } else {
        gcd_spec(b, a % b)
    }
}

/// Greatest common divisor by Euclid's algorithm; `gcd(0, 0) = 0`.
pub fn gcd(a: Natural, b: Natural) -> (r: Natural)
    ensures
        r@ == gcd_spec(a@, b@),
    decreases b@,
{
    let zero = Natural::from_u64(0);
    if nat_eq(&b, &zero) {
        a
    } else {
        let m = nat_rem(&a, &b);
        gcd(b, m)
    }
}

/// `x - k * y` is a multiple of `d` when `x` and `y` are.
proof fn lemma_multiple_combo(d: int, x: int, y: int, k: int)
    requires
        d > 0,
        x % d == 0,
        y % d == 0,
    ensures
        (x - k * y) % d == 0,
        (k * y + x) % d == 0,
{
    lemma_fundamental_div_mod(x, d);
    lemma_fundamental_div_mod(y, d);
    let (u, v) = (x / d, y / d);
    assert(x - k * y == (u - k * v) * d) by (nonlinear_arith)
        requires
            x == d * u + 0,
            y == d * v + 0,
    ;
    assert(k * y + x == (k * v + u) * d) by (nonlinear_arith)
        requires
            x == d * u + 0,
            y == d * v + 0,
    ;
    lemma_mod_multiples_basic(u - k * v, d);
    lemma_mod_multiples_basic(k * v + u, d);
}

/// Unless both are zero, `gcd(a, b)` is positive and divides `a` and `b`, and
/// every positive common divisor of `a` and `b` divides it.
proof fn lemma_gcd_divides(a: nat, b: nat)
    ensures
        a == 0 && b == 0 ==> gcd_spec(a, b) == 0,
        a != 0 || b != 0 ==> gcd_spec(a, b) > 0 && a % gcd_spec(a, b) == 0 && b % gcd_spec(a, b) == 0,
        forall|d: nat| d > 0 && a % d == 0 && b % d == 0 ==> #[trigger] (gcd_spec(a, b) % d) == 0,
    decreases b,
{
    if b == 0 {
        if a != 0 {
            vstd::arithmetic::div_mod::lemma_mod_self_0(a as int);
        }
    } else {
        let r = a % b;
        lemma_gcd_divides(b, r);
        let g = gcd_spec(b, r);
        lemma_fundamental_div_mod(a as int, b as int);
        lemma_multiple_combo(g as int, r as int, b as int, (a / b) as int);
        let k = (a / b) as int;
        assert(a == b * k + r);
        assert(b * k == k * b) by (nonlinear_arith);
        assert(a == k * b + r);
        assert forall|d: nat| d > 0 && a % d == 0 && b % d == 0 implies #[trigger] (g % d) == 0 by {
            lemma_multiple_combo(d as int, a as int, b as int, (a / b) as int);
            assert(r == a - (a / b) * b);
        }
    }
}

/// The laws of the greatest common divisor: it is symmetric, `gcd(a, 0) = a`,
/// it divides both arguments, and no common divisor is larger than it (each
/// divides it).
pub proof fn lemma_gcd_laws(a: nat, b: nat)
    ensures
        gcd_spec(a, b) == gcd_spec(b, a),
        gcd_spec(a, 0) == a,
        a != 0 || b != 0 ==> gcd_spec(a, b) > 0 && a % gcd_spec(a, b) == 0 && b % gcd_spec(a, b) == 0,
        a == 0 && b == 0 ==> gcd_spec(a, b) == 0,
        forall|d: nat|
            d > 0 && a % d == 0 && b % d == 0 ==> #[trigger] (gcd_spec(a, b) % d) == 0 && (gcd_spec(a, b)
                > 0 ==> d <= gcd_spec(a, b)),
{
    lemma_gcd_divides(a, b);
    if a < b {
        lemma_small_mod(a, b);
    } else if b < a {
        lemma_small_mod(b, a);
    }
    assert forall|d: nat| d > 0 && a % d == 0 && b % d == 0 implies #[trigger] (gcd_spec(a, b) % d) == 0 && (
    gcd_spec(a, b) > 0 ==> d <= gcd_spec(a, b)) by {
        let g = gcd_spec(a, b);
        if g > 0 && d > g {
            lemma_small_mod(g, d);
        }
    }
}

/// The product over the pairs `(q, e)` of `f`, in order, of `q^(e-1) * (q-1)`.
pub open spec fn phi_of(f: Seq<(nat, nat)>) -> int
    decreases f.len(),
{
    if f.len() == 0 {
        1
    } else {
        let (q, e) = f.last();
        phi_of(f.drop_last()) * pow(q as int, (e - 1) as nat) * (q - 1)
    }
}

/// Every prime and every exponent of `f` is at least one.
pub open spec fn positive_pairs(f: Seq<(nat, nat)>) -> bool {
    forall|i: int| 0 <= i < f.len() ==> f[i].0 >= 1 && f[i].1 >= 1
}

/// Euler's totient of `n`. A supplied factorization is trusted as it is and
/// not checked against `n`; without one, `n` is factored, and the result is
/// the product for the factorization that came back.
pub fn eulers_phi(n: Natural, factors: Option<Factorization>) -> (r: Natural)
    requires
        match factors {
            Some(f) => positive_pairs(f@),
            None => n@ >= 1,
        },
    ensures
        factors matches Some(f) ==> r@ == phi_of(f@),
        factors is None ==> exists|f: Seq<(nat, nat)>| factors_of(f, n@) && r@ == phi_of(f),
{
    let ghost supplied = factors;
    let f = match factors {
        Some(f) => f,
        None => factorize(&n),
    };
    assert(supplied matches Some(g) ==> g@ == f@);
    assert(supplied is None ==> factors_of(f@, n@));
    let one = Natural::from_u64(1);
    let mut acc = Natural::from_u64(1);
    let mut i: usize = 0;
    while i < f.entries.len()
        invariant
            i <= f@.len(),
            positive_pairs(f@),
            one@ == 1,
            acc@ == phi_of(f@.take(i as int)),
        decreases f@.len() - i,
    {
        let q = &f.entries[i].0;
        let e = f.entries[i].1;
        assert(f@[i as int] == (q@, e as nat));
        let t = nat_pow(q, e - 1);
        let s = nat_sub(q, &one);
        let acc_t = nat_mul(&acc, &t);
        acc = nat_mul(&acc_t, &s);
        assert(f@.take(i + 1).drop_last() =~= f@.take(i as int));
        i = i + 1;
    }
    assert(f@.take(i as int) =~= f@);
    assert(supplied is None ==> factors_of(f@, n@) && acc@ == phi_of(f@));
    acc
}

} // verus!
