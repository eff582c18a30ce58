use ntutils::arith::{eulers_phi, gcd};
use ntutils::factors::Factorization;
use ntutils::generator::{
    check_generator, generator_from_samples, get_generator, is_generator, partial_generator,
    GeneratorError,
};
use ntutils::natural::Natural;
use ntutils::parse::{is_space, parse_cli_factorization, TokenFault};
use ntutils::render::{count_text, render_factorization};

fn n(x: u64) -> Natural {
    Natural::from_u64(x)
}

fn pairs(f: &Factorization) -> Vec<(u64, usize)> {
    (0..f.len()).map(|i| f.entry_u64(i).unwrap()).collect()
}

fn factorization(v: &[(u64, usize)]) -> Factorization {
    Factorization { entries: v.iter().map(|&(q, e)| (n(q), e)).collect() }
}

#[test]
fn test_parse_cli_factorization() {
    let malformed_inputs: Vec<&str> = vec![
        "", "^", "2^", "^2", "2^^", "2^^3", "a^b", "2^3^4", "garbage", ",", "2,3", "2^3,",
        "2^3,,3^2", "4^2, 3^6", "2^3 5^2", "2^3,2^5",
    ];
    assert!(malformed_inputs
        .into_iter()
        .all(|m| parse_cli_factorization(m).is_err()));

    let good_inputs: Vec<&str> = vec!["2^1", "2^256", "5^2,3^1", "2^1,3^2, 5^3"];
    let good_outputs: Vec<Vec<(u64, usize)>> = vec![
        vec![(2, 1)],
        vec![(2, 256)],
        vec![(3, 1), (5, 2)],
        vec![(2, 1), (3, 2), (5, 3)],
    ];
    for (input, output) in good_inputs.into_iter().zip(good_outputs) {
        assert_eq!(pairs(&parse_cli_factorization(input).unwrap()), output);
    }
}

#[test]
fn test_gcd() {
    let cases = vec![
        (0, 0, 0),
        (0, 1, 1),
        (1, 0, 1),
        (1, 1, 1),
        (2, 0, 2),
        (0, 2, 2),
        (2, 1, 1),
        (1, 2, 1),
        (2, 2, 2),
        (2, 3, 1),
        (3, 2, 1),
        (2, 4, 2),
        (4, 2, 2),
        (4, 3, 1),
        (4, 4, 4),
        (5, 2, 1),
        (5, 3, 1),
        (5, 4, 1),
    ];
    assert!(cases
        .into_iter()
        .all(|(a, b, d)| gcd(n(a), n(b)).to_u64() == Some(d)))
}

#[test]
fn gcd_scenarios_and_laws() {
    assert_eq!(gcd(n(0), n(5)).to_u64(), Some(5));
    assert_eq!(gcd(n(12), n(18)).to_u64(), Some(6));
    for a in 0..30u64 {
        for b in 0..30u64 {
            let g = gcd(n(a), n(b)).to_u64().unwrap();
            assert_eq!(g, gcd(n(b), n(a)).to_u64().unwrap());
            if g > 0 {
                assert_eq!(a % g, 0);
                assert_eq!(b % g, 0);
                for d in g + 1..=a.max(b) {
                    assert!(a % d != 0 || b % d != 0);
                }
            }
        }
        assert_eq!(gcd(n(a), n(0)).to_u64(), Some(a));
    }
    let big = n(u64::MAX);
    assert_eq!(gcd(big.clone(), big).to_u64(), Some(u64::MAX));
}

#[test]
fn phi_values() {
    assert_eq!(eulers_phi(n(9), None).to_u64(), Some(6));
    assert_eq!(eulers_phi(n(1), None).to_u64(), Some(1));
    assert_eq!(eulers_phi(n(36), None).to_u64(), Some(12));
    assert_eq!(eulers_phi(n(97), None).to_u64(), Some(96));
    // a supplied factorization is used as it is, even one that is not of n
    let f = factorization(&[(2, 2), (3, 1)]);
    assert_eq!(eulers_phi(n(1000), Some(f)).to_u64(), Some(4));
}

#[test]
fn parse_faults_each_kind() {
    assert_eq!(parse_cli_factorization("").unwrap_err(), vec![Some(TokenFault::MissingCaret)]);
    assert_eq!(parse_cli_factorization("7").unwrap_err(), vec![Some(TokenFault::MissingCaret)]);
    assert_eq!(parse_cli_factorization("x^2").unwrap_err(), vec![Some(TokenFault::BadPrime)]);
    assert_eq!(parse_cli_factorization("3^y").unwrap_err(), vec![Some(TokenFault::BadExponent)]);
    assert_eq!(parse_cli_factorization("4^2").unwrap_err(), vec![Some(TokenFault::NotPrime)]);
    assert_eq!(
        parse_cli_factorization("2^2,2^3").unwrap_err(),
        vec![None, Some(TokenFault::Duplicate)]
    );
    assert_eq!(
        parse_cli_factorization("2^1,4^1,q^1, 3^1").unwrap_err(),
        vec![None, Some(TokenFault::NotPrime), Some(TokenFault::BadPrime), None]
    );
}

#[test]
fn parse_scenarios_and_round_trip() {
    assert_eq!(pairs(&parse_cli_factorization("2^2,3^1").unwrap()), vec![(2, 2), (3, 1)]);
    assert_eq!(pairs(&parse_cli_factorization(" 7 ^ 0 , 2^5 ").unwrap()), vec![(2, 5), (7, 0)]);
    for text in ["2^2,3^1", "13^1,2^4,5^2", "101^3", " 7^0 , 2^5"] {
        let f = parse_cli_factorization(text).unwrap();
        let canon = render_factorization(&f);
        let again = parse_cli_factorization(&canon).unwrap();
        assert_eq!(pairs(&f), pairs(&again));
        assert_eq!(render_factorization(&again), canon);
    }
    let f = parse_cli_factorization("13^1,2^4,5^2").unwrap();
    assert_eq!(render_factorization(&f), "2^4,5^2,13^1");
    let big = factorization(&[(18446744073709551557, 12)]);
    assert_eq!(render_factorization(&big), "18446744073709551557^12");
}

#[test]
fn generator_of_seven() {
    let g = get_generator(n(7)).unwrap().to_u64().unwrap();
    assert!(g == 3 || g == 5);
    assert_eq!(is_generator(n(2), n(7)), Ok(false));
    assert_eq!(is_generator(n(3), n(7)), Ok(true));
    assert_eq!(is_generator(n(5), n(7)), Ok(true));
}

#[test]
fn found_generators_pass_the_test() {
    for p in [3u64, 5, 11, 13, 101, 7919, 65537, 1_000_000_007] {
        let g = get_generator(n(p)).unwrap();
        assert!(g.to_u64().unwrap() < p);
        assert_eq!(is_generator(g, n(p)), Ok(true));
    }
    assert_eq!(get_generator(n(2)).unwrap().to_u64(), Some(1));
}

#[test]
fn one_is_never_a_generator() {
    for p in [3u64, 5, 7, 11, 13, 17, 101] {
        assert_eq!(is_generator(n(1), n(p)), Ok(false));
    }
}

#[test]
fn composite_modulus_is_refused() {
    assert_eq!(get_generator(n(8)).unwrap_err(), GeneratorError::NotPrime);
    assert_eq!(get_generator(n(1)).unwrap_err(), GeneratorError::NotPrime);
    assert_eq!(is_generator(n(3), n(9)), Err(GeneratorError::NotPrime));
}

#[test]
fn partial_steps() {
    // p = 7, n = 6; factor 3^1: 2^2 = 4 != 1, so 2 gives 2^2 mod 7 = 4
    assert_eq!(partial_generator(&n(2), &n(7), &n(3), 1).unwrap().to_u64(), Some(4));
    // factor 2^1: 2^3 = 8 = 1 mod 7, so 2 is refused
    assert!(partial_generator(&n(2), &n(7), &n(2), 1).is_none());
    // factor 2^1 with 3: 3^3 = 27 = 6 mod 7, giving 6
    assert_eq!(partial_generator(&n(3), &n(7), &n(2), 1).unwrap().to_u64(), Some(6));
    let f = factorization(&[(2, 1), (3, 1)]);
    let g = generator_from_samples(&n(7), &f, &vec![n(3), n(2)]).unwrap();
    assert_eq!(g.to_u64(), Some(3));
    assert!(generator_from_samples(&n(7), &f, &vec![n(2), n(2)]).is_none());
    assert!(check_generator(&n(3), &n(7), &f));
    assert!(!check_generator(&n(2), &n(7), &f));
}

#[test]
fn large_values() {
    // phi of 2^64 from the supplied factorization is 2^63
    let f = factorization(&[(2, 64)]);
    assert_eq!(eulers_phi(n(0), Some(f)).to_u64(), Some(1u64 << 63));
    // phi of 2^65 does not fit in 64 bits; its digits are 0, 0, 1
    let f = factorization(&[(2, 65)]);
    let big = eulers_phi(n(0), Some(f));
    assert_eq!(big.to_u64(), None);
    assert_eq!(big.digits, vec![0, 0, 1]);
    assert_eq!(Natural::from_u64(u64::MAX).digits, vec![u32::MAX, u32::MAX]);
    assert_eq!(Natural::from_digits(vec![5, 1]).to_u64(), Some((1u64 << 32) + 5));
    // the prime 2^61 - 1: its generators pass the test
    let p = (1u64 << 61) - 1;
    let g = get_generator(n(p)).unwrap();
    assert_eq!(is_generator(g, n(p)), Ok(true));
    assert_eq!(gcd(n(1u64 << 40), n(3u64 << 20)).to_u64(), Some(1u64 << 20));
}

#[test]
fn white_space_matches_std() {
    for u in 0u32..0x3100 {
        if let Some(c) = char::from_u32(u) {
            assert_eq!(is_space(c), c.is_whitespace(), "code point {:#x}", u);
        }
    }
    assert!(!is_space('\u{feff}'));
}

#[test]
fn count_text_values() {
    let s: String = count_text(0).into_iter().collect();
    assert_eq!(s, "0");
    let s: String = count_text(1907).into_iter().collect();
    assert_eq!(s, "1907");
    let s: String = count_text(usize::MAX).into_iter().collect();
    assert_eq!(s, usize::MAX.to_string());
}

#[test]
fn phi_of_primes() {
    for p in [2u64, 3, 7, 101, 7919, 1_000_000_007] {
        assert_eq!(eulers_phi(n(p), None).to_u64(), Some(p - 1));
    }
}
