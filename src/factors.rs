//! Factorizations (prime -> exponent, ascending primes) and the primality
//! and factoring routines of `num_prime`.
use crate::natural::Natural;
use num::BigUint;
use num_prime::Primality;
use vstd::arithmetic::power::{lemma_pow1, lemma_pow_increases, lemma_pow_positive, pow};
use vstd::prelude::*;

verus! {

/// `n` is a prime number.
pub open spec fn is_prime_nat(n: nat) -> bool {
    n >= 2 && forall|d: nat| 1 < d < n ==> #[trigger] (n % d) != 0
}


/// The product of `q^e` over the pairs of `f`.
pub open spec fn product_of(f: Seq<(nat, nat)>) -> int
    decreases f.len(),
{
    if f.len() == 0 {
        1
    } else {
        product_of(f.drop_last()) * pow(f.last().0 as int, f.last().1)
    }
}

/// A product of powers `q^e` with every `q >= 2` and `e >= 1` is positive,
/// and at least 2 unless there are none.
pub proof fn lemma_product_bounds(f: Seq<(nat, nat)>)
    requires
        forall|i: int| 0 <= i < f.len() ==> f[i].0 >= 2 && f[i].1 >= 1,
    ensures
        product_of(f) >= 1,
        f.len() > 0 ==> product_of(f) >= 2,
    decreases f.len(),
{
    if f.len() > 0 {
        let g = f.drop_last();
        assert forall|i: int| 0 <= i < g.len() implies g[i].0 >= 2 && g[i].1 >= 1 by {
            assert(g[i] == f[i]);
        }
        lemma_product_bounds(g);
        let (q, e) = f.last();
        lemma_pow1(q as int);
        lemma_pow_increases(q, 1, e);
        let x = product_of(g);
        let y = pow(q as int, e);
        assert(x * y >= 2) by (nonlinear_arith)
            requires
                x >= 1,
                y >= 2,
        ;
    }
}

/// What holds of every factorization of `n` that factoring returns: the
/// powers multiply to `n`, the keys ascend and are at least 2, the exponents
/// are at least 1, and below 2^64 every key is prime.
pub open spec fn factors_of(f: Seq<(nat, nat)>, n: nat) -> bool {
    &&& product_of(f) == n
    &&& ascending(f)
    &&& forall|i: int| 0 <= i < f.len() ==> f[i].0 >= 2 && f[i].1 >= 1
    &&& n <= u64::MAX as nat ==> forall|i: int| 0 <= i < f.len() ==> is_prime_nat(#[trigger] f[i].0)
}

/// The primes of `f` are strictly ascending.
pub open spec fn ascending(f: Seq<(nat, nat)>) -> bool {
    forall|i: int, j: int| 0 <= i < j < f.len() ==> f[i].0 < f[j].0
}

/// A factorization: pairs of a prime and its exponent.
#[derive(Clone, Debug)]
pub struct Factorization {
    pub entries: Vec<(Natural, usize)>,
}

impl View for Factorization {
    type V = Seq<(nat, nat)>;

    open spec fn view(&self) -> Seq<(nat, nat)> {
        self.entries@.map_values(|x: (Natural, usize)| (x.0@, x.1 as nat))
    }
}

impl Factorization {
    /// The primes are strictly ascending, hence pairwise distinct.
    pub open spec fn wf(&self) -> bool {
        ascending(self@)
    }

    /// The number of (prime, exponent) pairs.
    pub fn len(&self) -> (r: usize)
        ensures
            r == self@.len(),
    {
        self.entries.len()
    }

    /// The prime and exponent at position `i`, as plain integers when the
    /// prime fits in 64 bits.
    pub fn entry_u64(&self, i: usize) -> (r: Option<(u64, usize)>)
        requires
            i < self@.len(),
        ensures
            r == (if self@[i as int].0 <= u64::MAX as nat {
                Some((self@[i as int].0 as u64, self@[i as int].1 as usize))
            } else {
                None::<(u64, usize)>
            }),
    {
        let (q, e) = &self.entries[i];
        match q.to_u64() {
            Some(x) => Some((x, *e)),
            None => None,
        }
    }
}

/// Relies on `num_prime::nt_funcs::is_prime` with the default configuration:
/// `Primality::Yes` comes only from its deterministic test, made for 2 and for
/// every value below 2^64; larger values give `No` or `Probable`.
#[verifier::external_body]
pub(crate) fn certainly_prime(n: &Natural) -> (r: bool)
    ensures
        r == (n@ <= u64::MAX as nat && is_prime_nat(n@)),
{
    match num_prime::nt_funcs::is_prime(&BigUint::new(n.digits.clone()), None) {
        Primality::Yes => true,
        Primality::No => false,
        Primality::Probable(_) => false,
    }
}

/// Relies on `num_prime::nt_funcs::factorize`: a map from prime factors to
/// exponents whose product is `n`, read in ascending key order. Below 2^64
/// primality is decided by a deterministic test; above 2^128 cofactors are
/// judged with random bases, so two calls need not agree there.
#[verifier::external_body]
pub(crate) fn factorize(n: &Natural) -> (r: Factorization)
    requires
        n@ >= 1,
    ensures
        factors_of(r@, n@),
        r.wf(),
{
    let entries = num_prime::nt_funcs::factorize(BigUint::new(n.digits.clone()))
        .into_iter()
        .map(|(q, e)| (Natural { digits: q.to_u32_digits() }, e))
        .collect();
    Factorization { entries }
}

} // verus!
