//! Finding a generator of Z_p^* by Shoup's randomized construction, and
//! checking a candidate.
use crate::factors::{certainly_prime, factorize, factors_of, is_prime_nat, Factorization};
use crate::natural::{nat_div, nat_eq, nat_mod_pow, nat_mul, nat_pow, nat_rem, nat_sample, nat_sub, Natural};
use vstd::arithmetic::power::{lemma_pow_positive, pow};
use vstd::prelude::*;

verus! {

/// How many random samples the search draws for one prime factor before it
/// gives up; each draw succeeds with probability at least 1/2.
pub const MAX_TRIES: usize = 256;

/// Why a generator operation failed.
#[derive(Clone, Copy, Debug, PartialEq, Eq)]
pub enum GeneratorError {
    /// The modulus is not (certainly) prime.
    NotPrime,
    /// Every sample drawn for some prime factor had too small an order.
    SearchExhausted,
}

/// The value held by an optional number.
pub open spec fn opt_view(r: Option<Natural>) -> Option<nat> {
    match r {
        Some(x) => Some(x@),
        None => None,
    }
}

/// For the factor `q^e` of `p - 1`: `None` when `a^((p-1)/q) = 1 (mod p)`,
/// else the element `a^((p-1)/q^e) mod p`.
pub open spec fn partial_of(a: nat, p: nat, q: nat, e: nat) -> Option<nat> {
    let n = (p - 1) as nat;
    if pow(a as int, n / q) % (p as int) == 1 {
        None
    } else {
        Some((pow(a as int, n / (pow(q as int, e) as nat)) % (p as int)) as nat)
    }
}

/// The product modulo `p` of the partial elements that the samples `s`
/// give for the factors `f`, one sample per factor; `None` when a sample fails.
pub open spec fn combined(p: nat, f: Seq<(nat, nat)>, s: Seq<nat>) -> Option<nat>
    decreases f.len(),
{
    if f.len() == 0 || s.len() != f.len() {
        if f.len() == 0 && s.len() == 0 {
            Some(1)
        } else {
            None
        }
    } else {
        match combined(p, f.drop_last(), s.drop_last()) {
            None => None,
            Some(x) => match partial_of(s.last(), p, f.last().0, f.last().1) {
                None => None,
                Some(h) => Some((x * h) % p),
            },
        }
    }
}

/// `g^((p-1)/q^e) != 1 (mod p)` for every pair `(q, e)` of `f`.
pub open spec fn passes_test(g: nat, p: nat, f: Seq<(nat, nat)>) -> bool {
    forall|i: int|
        0 <= i < f.len() ==> pow(g as int, ((p - 1) as nat) / (pow(f[i].0 as int, f[i].1) as nat))
            % (p as int) != 1
}

/// The primes of `f` are positive.
pub open spec fn positive_primes(f: Seq<(nat, nat)>) -> bool {
    forall|i: int| 0 <= i < f.len() ==> f[i].0 >= 1
}

/// One step of the search: the partial element that the sample `a` gives for
/// the factor `q^e` of `p - 1`, or `None` when `a` has too small an order.
pub fn partial_generator(a: &Natural, p: &Natural, q: &Natural, e: usize) -> (r: Option<Natural>)
    requires
        p@ >= 1,
        q@ >= 1,
    ensures
        opt_view(r) == partial_of(a@, p@, q@, e as nat),
{
    let one = Natural::from_u64(1);
    let n = nat_sub(p, &one);
    let m = nat_div(&n, q);
    let b = nat_mod_pow(a, &m, p);
    if nat_eq(&b, &one) {
        None
    } else {
        let qe = nat_pow(q, e);
        proof {
            lemma_pow_positive(q@ as int, e as nat);
        }
        let m2 = nat_div(&n, &qe);
        Some(nat_mod_pow(a, &m2, p))
    }
}

/// Shoup's construction with the samples given: the product modulo `p` of the
/// partial elements of `samples[i]` for the factors `f[i]`, or `None` when
/// some sample fails.
pub fn generator_from_samples(p: &Natural, f: &Factorization, samples: &Vec<Natural>) -> (r: Option<Natural>)
    requires
        p@ >= 1,
        positive_primes(f@),
        samples@.len() == f@.len(),
    ensures
        opt_view(r) == combined(p@, f@, samples@.map_values(|x: Natural| x@)),
{
    let ghost sv = samples@.map_values(|x: Natural| x@);
    let mut acc = Natural::from_u64(1);
    let mut i: usize = 0;
    while i < f.entries.len()
        invariant
            i <= f@.len(),
            samples@.len() == f@.len(),
            p@ >= 1,
            positive_primes(f@),
            sv == samples@.map_values(|x: Natural| x@),
            combined(p@, f@.take(i as int), sv.take(i as int)) == Some(acc@),
        decreases f@.len() - i,
    {
        let (q, e) = (&f.entries[i].0, f.entries[i].1);
        assert(f@[i as int] == (q@, e as nat));
        assert(f@.take(i + 1).drop_last() =~= f@.take(i as int));
        assert(sv.take(i + 1).drop_last() =~= sv.take(i as int));
        match partial_generator(&samples[i], p, q, e) {
            None => {
                assert(combined(p@, f@.take(i + 1), sv.take(i + 1)) is None);
                proof {
                    lemma_failure_sticks(p@, f@, sv, i as int + 1);
                }
                return None;
            },
            Some(h) => {
                let t = nat_mul(&acc, &h);
                acc = nat_rem(&t, p);
            },
        }
        i = i + 1;
    }
    assert(f@.take(i as int) =~= f@);
    assert(sv.take(i as int) =~= sv);
    Some(acc)
}

/// Once a prefix of the samples fails, the whole combination fails.
proof fn lemma_failure_sticks(p: nat, f: Seq<(nat, nat)>, s: Seq<nat>, k: int)
    requires
        0 <= k <= f.len(),
        s.len() == f.len(),
        combined(p, f.take(k), s.take(k)) is None,
    ensures
        combined(p, f, s) is None,
    decreases f.len() - k,
{
    if k < f.len() {
        assert(f.take(k + 1).drop_last() =~= f.take(k));
        assert(s.take(k + 1).drop_last() =~= s.take(k));
        lemma_failure_sticks(p, f, s, k + 1);
    } else {
        assert(f.take(k) =~= f);
        assert(s.take(k) =~= s);
    }
}

/// Whether `g` passes the generator test for `p` against the factorization
/// `f` of `p - 1`.
pub fn check_generator(g: &Natural, p: &Natural, f: &Factorization) -> (r: bool)
    requires
        p@ >= 1,
        positive_primes(f@),
    ensures
        r == passes_test(g@, p@, f@),
{
    let one = Natural::from_u64(1);
    let n = nat_sub(p, &one);
    let mut i: usize = 0;
    while i < f.entries.len()
        invariant
            i <= f@.len(),
            p@ >= 1,
            one@ == 1,
            n@ == p@ - 1,
            positive_primes(f@),
            forall|j: int|
                0 <= j < i ==> pow(g@ as int, ((p@ - 1) as nat) / (pow(f@[j].0 as int, f@[j].1) as nat))
                    % (p@ as int) != 1,
        decreases f@.len() - i,
    {
        let (q, e) = (&f.entries[i].0, f.entries[i].1);
        assert(f@[i as int] == (q@, e as nat));
        let qe = nat_pow(q, e);
        proof {
            lemma_pow_positive(q@ as int, e as nat);
        }
        let m = nat_div(&n, &qe);
        let b = nat_mod_pow(g, &m, p);
        if nat_eq(&b, &one) {
            return false;
        }
        i = i + 1;
    }
    true
}

/// The element 1 fails the test whenever `p > 2` and `f` is a factorization of
/// `p - 1` into positive prime powers.
pub proof fn lemma_one_is_not_generator(p: nat, f: Seq<(nat, nat)>)
    requires
        p > 2,
        positive_primes(f),
        crate::factors::product_of(f) == p - 1,
    ensures
        !passes_test(1, p, f),
{
    assert(f.len() > 0);
    let k = ((p - 1) as nat) / (pow(f[0].0 as int, f[0].1) as nat);
    vstd::arithmetic::power::lemma1_pow(k);
    vstd::arithmetic::div_mod::lemma_small_mod(1, p);
    assert(pow(1, k) % (p as int) == 1);
    assert(pow(1, ((p - 1) as nat) / (pow(f[0].0 as int, f[0].1) as nat)) % (p as int) == 1);
}

/// A generator of Z_p^*: for each prime power `q^e` exactly dividing `p - 1`,
/// random elements are drawn until one, `a`, has `a^((p-1)/q) != 1`, giving
/// `a^((p-1)/q^e)`; the result is the product of these modulo `p`.
pub fn get_generator(p: Natural) -> (r: Result<Natural, GeneratorError>)
    ensures
        (r == Err::<Natural, GeneratorError>(GeneratorError::NotPrime)) <==> !(p@ <= u64::MAX as nat
            && is_prime_nat(p@)),
        r is Ok ==> exists|f: Seq<(nat, nat)>, s: Seq<nat>|
            #![trigger combined(p@, f, s)]
            factors_of(f, (p@ - 1) as nat) && s.len() == f.len() && (forall|i: int|
                0 <= i < s.len() ==> 1 <= #[trigger] s[i] < p@) && combined(p@, f, s) == Some(r->Ok_0@),
        p@ == 2 ==> r is Ok && r->Ok_0@ == 1,
        r is Ok ==> r->Ok_0@ < p@,
{
    if !certainly_prime(&p) {
        return Err(GeneratorError::NotPrime);
    }
    let one = Natural::from_u64(1);
    let n = nat_sub(&p, &one);
    let f = factorize(&n);
    let ghost fv = f@;
    proof {
        crate::factors::lemma_product_bounds(fv);
    }
    let mut acc = Natural::from_u64(1);
    let ghost mut s: Seq<nat> = Seq::empty();
    let mut i: usize = 0;
    while i < f.entries.len()
        invariant
            i <= fv.len(),
            fv == f@,
            factors_of(fv, (p@ - 1) as nat),
            forall|j: int| 0 <= j < fv.len() ==> fv[j].0 >= 2,
            p@ <= u64::MAX as nat && is_prime_nat(p@),
            p@ == 2 ==> fv.len() == 0,
            p@ >= 2,
            one@ == 1,
            s.len() == i,
            forall|j: int| 0 <= j < s.len() ==> 1 <= #[trigger] s[j] < p@,
            combined(p@, fv.take(i as int), s) == Some(acc@),
            acc@ < p@,
        decreases fv.len() - i,
    {
        let (q, e) = (&f.entries[i].0, f.entries[i].1);
        assert(fv[i as int] == (q@, e as nat));
        let mut found: Option<Natural> = None;
        let ghost mut a_used: nat = 0;
        let mut t: usize = 0;
        while t < MAX_TRIES && found.is_none()
            invariant
                p@ >= 2,
                q@ >= 1,
                one@ == 1,
                match found {
                    None => true,
                    Some(h) => 1 <= a_used < p@ && partial_of(a_used, p@, q@, e as nat) == Some(h@),
                },
            decreases MAX_TRIES - t,
        {
            let a = nat_sample(&one, &p);
            let h = partial_generator(&a, &p, q, e);
            proof {
                a_used = a@;
            }
            found = h;
            t = t + 1;
        }
        match found {
            None => {
                return Err(GeneratorError::SearchExhausted);
            },
            Some(h) => {
                assert(fv.take(i + 1).drop_last() =~= fv.take(i as int));
                assert(s.push(a_used).drop_last() =~= s);
                let prod = nat_mul(&acc, &h);
                acc = nat_rem(&prod, &p);
                proof {
                    s = s.push(a_used);
                }
            },
        }
        i = i + 1;
    }
    assert(fv.take(i as int) =~= fv);
    assert(combined(p@, fv, s) == Some(acc@));
    Ok(acc)
}

/// Whether `g` is a generator of Z_p^*, by the test against the factorization
/// of `p - 1`. The test is `g^((p-1)/q^e) != 1` for each prime power `q^e`,
/// not the textbook `g^((p-1)/q) != 1`; the two agree when every exponent is
/// one and may differ otherwise.
pub fn is_generator(g: Natural, p: Natural) -> (r: Result<bool, GeneratorError>)
    ensures
        r is Err <==> !(p@ <= u64::MAX as nat && is_prime_nat(p@)),
        r is Err ==> r == Err::<bool, GeneratorError>(GeneratorError::NotPrime),
        r is Ok ==> exists|f: Seq<(nat, nat)>| factors_of(f, (p@ - 1) as nat) && r->Ok_0 == passes_test(g@, p@, f),
        g@ == 1 && p@ > 2 && r is Ok ==> r == Ok::<bool, GeneratorError>(false),
{
    if !certainly_prime(&p) {
        return Err(GeneratorError::NotPrime);
    }
    let one = Natural::from_u64(1);
    let n = nat_sub(&p, &one);
    let f = factorize(&n);
    let b = check_generator(&g, &p, &f);
    proof {
        if g@ == 1 && p@ > 2 {
            lemma_one_is_not_generator(p@, f@);
        }
        assert(factors_of(f@, (p@ - 1) as nat) && b == passes_test(g@, p@, f@));
    }
    Ok(b)
}

} // verus!
