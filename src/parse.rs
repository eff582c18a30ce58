//! Reading a factorization written as `q1^e1,q2^e2,...`.
use crate::factors::{certainly_prime, is_prime_nat, Factorization};
use crate::natural::{nat_eq, nat_lt, Natural};
use num::BigUint;
use std::str::FromStr;
use vstd::prelude::*;

verus! {

/// `c` has the Unicode White_Space property: tab to carriage return, space,
/// U+0085, U+00A0, U+1680, U+2000 to U+200A, U+2028, U+2029, U+202F,
/// U+205F and U+3000.
pub open spec fn white_space(c: char) -> bool {
    let u = c as u32;
    (9 <= u <= 13) || u == 32 || u == 0x85 || u == 0xa0 || u == 0x1680 || (0x2000 <= u <= 0x200a)
        || u == 0x2028 || u == 0x2029 || u == 0x202f || u == 0x205f || u == 0x3000
}

/// `c` is one of the ASCII digits.
pub open spec fn is_digit(c: char) -> bool {
    '0' <= c <= '9'
}

/// The value of the decimal digits of `s`, read most significant first, with
/// every `_` skipped.
pub open spec fn digits_ten(s: Seq<char>) -> nat
    decreases s.len(),
{
    if s.len() == 0 {
        0
    } else if s.last() == '_' {
        digits_ten(s.drop_last())
    } else {
        digits_ten(s.drop_last()) * 10 + ((s.last() as u32) - 48) as nat
    }
}

/// The number that `s` writes in decimal: one optional leading `+`, then
/// digits, where `_` may stand between and after them but not first.
pub open spec fn decimal_of(s: Seq<char>) -> Option<nat> {
    let d = if s.len() > 0 && s[0] == '+' {
        s.drop_first()
    } else {
        s
    };
    if d.len() > 0 && d[0] != '_' && forall|i: int| 0 <= i < d.len() ==> is_digit(#[trigger] d[i]) || d[i] == '_' {
        Some(digits_ten(d))
    } else {
        None
    }
}

/// The count that `s` writes in decimal: one optional leading `+` before at
/// least one digit, then digits only, with a value that fits in `usize`.
pub open spec fn count_of(s: Seq<char>) -> Option<usize> {
    let d = if s.len() > 1 && s[0] == '+' {
        s.drop_first()
    } else {
        s
    };
    if d.len() > 0 && (forall|i: int| 0 <= i < d.len() ==> is_digit(#[trigger] d[i])) && digits_ten(d)
        <= usize::MAX as nat {
        Some(digits_ten(d) as usize)
    } else {
        None
    }
}

/// Whether `c` has the Unicode White_Space property.
pub fn is_space(c: char) -> (r: bool)
    ensures
        r == white_space(c),
{
    let u = c as u32;
    (9 <= u && u <= 13) || u == 32 || u == 0x85 || u == 0xa0 || u == 0x1680 || (0x2000 <= u && u <= 0x200a)
        || u == 0x2028 || u == 0x2029 || u == 0x202f || u == 0x205f || u == 0x3000
}

/// Relies on `str::chars`: the characters of `s` in order.
#[verifier::external_body]
fn chars_of(s: &str) -> (r: Vec<char>)
    ensures
        r@ == s@,
{
    s.chars().collect()
}

/// Relies on `BigUint::from_str` (`from_str_radix` with radix 10): the number
/// written in decimal, if any.
#[verifier::external_body]
fn read_decimal(t: &Vec<char>) -> (r: Option<Natural>)
    ensures
        match r {
            Some(x) => decimal_of(t@) == Some(x@),
            None => decimal_of(t@) is None,
        },
{
    let s: String = t.iter().collect();
    BigUint::from_str(&s).ok().map(|b| Natural { digits: b.to_u32_digits() })
}

/// Relies on `usize::from_str`: the count written in decimal, if any; `None`
/// on overflow.
#[verifier::external_body]
fn read_count(t: &Vec<char>) -> (r: Option<usize>)
    ensures
        r == count_of(t@),
{
    let s: String = t.iter().collect();
    usize::from_str(&s).ok()
}

/// `s` without its leading white space.
pub open spec fn trim_start(s: Seq<char>) -> Seq<char>
    decreases s.len(),
{
    if s.len() > 0 && white_space(s[0]) {
        trim_start(s.drop_first())
    } else {
        s
    }
}

/// `s` without its trailing white space.
pub open spec fn trim_end(s: Seq<char>) -> Seq<char>
    decreases s.len(),
{
    if s.len() > 0 && white_space(s.last()) {
        trim_end(s.drop_last())
    } else {
        s
    }
}

/// `s` without white space at either end.
pub open spec fn trimmed(s: Seq<char>) -> Seq<char> {
    trim_end(trim_start(s))
}

/// The pieces of `s` between occurrences of `sep` (one piece when `sep` does
/// not occur, empty pieces kept).
pub open spec fn pieces(s: Seq<char>, sep: char) -> Seq<Seq<char>>
    decreases s.len(),
{
    if s.len() == 0 {
        seq![Seq::empty()]
    } else {
        let p = pieces(s.drop_last(), sep);
        if s.last() == sep {
            p.push(Seq::empty())
        } else {
            p.update(p.len() - 1, p.last().push(s.last()))
        }
    }
}

/// The first position at or after `i` where `c` occurs in `s`.
pub open spec fn find_from(s: Seq<char>, c: char, i: nat) -> Option<nat>
    decreases s.len() - i,
{
    if i >= s.len() {
        None
    } else if s[i as int] == c {
        Some(i)
    } else {
        find_from(s, c, i + 1)
    }
}

/// Why one token of a factorization was refused.
#[derive(Clone, Copy, Debug, PartialEq, Eq)]
pub enum TokenFault {
    /// The token holds no `^`.
    MissingCaret,
    /// The part before the first `^` is not a decimal number.
    BadPrime,
    /// The part after the first `^` is not a decimal count.
    BadExponent,
    /// The number before the `^` is not (certainly) prime.
    NotPrime,
    /// The prime already occurred in an earlier token.
    Duplicate,
}

/// What one token reads as, ignoring repetition: a prime and its exponent, or
/// why it is refused. Both halves around the first `^` are trimmed.
pub open spec fn token_value(t: Seq<char>) -> Result<(nat, nat), TokenFault> {
    let tt = trimmed(t);
    match find_from(tt, '^', 0) {
        None => Err(TokenFault::MissingCaret),
        Some(i) => match decimal_of(trimmed(tt.take(i as int))) {
            None => Err(TokenFault::BadPrime),
            Some(q) => match count_of(trimmed(tt.skip(i as int + 1))) {
                None => Err(TokenFault::BadExponent),
                Some(e) => if q <= u64::MAX as nat && is_prime_nat(q) {
                    Ok((q, e as nat))
                } else {
                    Err(TokenFault::NotPrime)
                },
            },
        },
    }
}

/// The tokens of a factorization text.
pub open spec fn tokens_of(s: Seq<char>) -> Seq<Seq<char>> {
    pieces(trimmed(s), ',')
}

/// Some token of `toks` before position `i` reads as a pair with the prime `q`.
pub open spec fn seen_before(toks: Seq<Seq<char>>, i: int, q: nat) -> bool {
    exists|j: int| 0 <= j < i && #[trigger] token_value(toks[j]) is Ok && token_value(toks[j])->Ok_0.0 == q
}

/// The fault of token `i` of `toks`, repetition of a prime included.
pub open spec fn fault_at(toks: Seq<Seq<char>>, i: int) -> Option<TokenFault> {
    match token_value(toks[i]) {
        Err(k) => Some(k),
        Ok(v) => if seen_before(toks, i, v.0) {
            Some(TokenFault::Duplicate)
        } else {
            None
        },
    }
}

/// The characters of `v` from `lo` up to `hi`.
fn copy_range(v: &Vec<char>, lo: usize, hi: usize) -> (r: Vec<char>)
    requires
        lo <= hi <= v@.len(),
    ensures
        r@ == v@.subrange(lo as int, hi as int),
{
    let mut out: Vec<char> = Vec::new();
    let mut k: usize = lo;
    while k < hi
        invariant
            lo <= k <= hi <= v@.len(),
            out@ == v@.subrange(lo as int, k as int),
        decreases hi - k,
    {
        out.push(v[k]);
        assert(out@ =~= v@.subrange(lo as int, k + 1));
        k = k + 1;
    }
    out
}

/// `v` without white space at either end.
pub fn trim_chars(v: &Vec<char>) -> (r: Vec<char>)
    ensures
        r@ == trimmed(v@),
{
    let len = v.len();
    let mut lo: usize = 0;
    assert(v@.subrange(0, len as int) =~= v@);
    while lo < len && is_space(v[lo])
        invariant
            lo <= len == v@.len(),
            trim_start(v@) == trim_start(v@.subrange(lo as int, len as int)),
        decreases len - lo,
    {
        assert(v@.subrange(lo as int, len as int).drop_first() =~= v@.subrange(lo + 1, len as int));
        lo = lo + 1;
    }
    let mut hi: usize = len;
    while hi > lo && is_space(v[hi - 1])
        invariant
            lo <= hi <= len == v@.len(),
            trim_start(v@) == v@.subrange(lo as int, len as int),
            trim_end(v@.subrange(lo as int, len as int)) == trim_end(v@.subrange(lo as int, hi as int)),
        decreases hi - lo,
    {
        assert(v@.subrange(lo as int, hi as int).drop_last() =~= v@.subrange(lo as int, hi - 1));
        hi = hi - 1;
    }
    copy_range(v, lo, hi)
}

/// The pieces of `v` between occurrences of `sep`.
pub fn split_chars(v: &Vec<char>, sep: char) -> (r: Vec<Vec<char>>)
    ensures
        r@.map_values(|x: Vec<char>| x@) == pieces(v@, sep),
{
    let mut done: Vec<Vec<char>> = Vec::new();
    let mut cur: Vec<char> = Vec::new();
    let mut i: usize = 0;
    assert(v@.take(0) =~= Seq::<char>::empty());
    assert(done@.map_values(|x: Vec<char>| x@).push(cur@) =~= seq![Seq::<char>::empty()]);
    while i < v.len()
        invariant
            i <= v@.len(),
            pieces(v@.take(i as int), sep) == done@.map_values(|x: Vec<char>| x@).push(cur@),
        decreases v@.len() - i,
    {
        let c = v[i];
        assert(v@.take(i + 1).drop_last() =~= v@.take(i as int));
        let ghost before = done@.map_values(|x: Vec<char>| x@);
        if c == sep {
            let piece = cur;
            done.push(piece);
            cur = Vec::new();
            assert(done@.map_values(|x: Vec<char>| x@) =~= before.push(piece@));
            assert(done@.map_values(|x: Vec<char>| x@).push(cur@) =~= before.push(piece@).push(
                Seq::empty(),
            ));
        } else {
            let ghost old_cur = cur@;
            cur.push(c);
            assert(before.push(old_cur).update(before.len() as int, old_cur.push(c)) =~= before.push(
                cur@,
            ));
        }
        i = i + 1;
    }
    assert(v@.take(i as int) =~= v@);
    done.push(cur);
    assert(done@.map_values(|x: Vec<char>| x@) =~= pieces(v@, sep));
    done
}

/// The first position of `c` in `v`, if any.
fn find_char(v: &Vec<char>, c: char) -> (r: Option<usize>)
    ensures
        match r {
            Some(i) => find_from(v@, c, 0) == Some(i as nat),
            None => find_from(v@, c, 0) is None,
        },
{
    let mut i: usize = 0;
    while i < v.len()
        invariant
            i <= v@.len(),
            find_from(v@, c, 0) == find_from(v@, c, i as nat),
        decreases v@.len() - i,
    {
        if v[i] == c {
            return Some(i);
        }
        i = i + 1;
    }
    None
}

/// A position that `find_from` reports lies in `s` and holds `c`.
proof fn lemma_find_from_bounds(s: Seq<char>, c: char, k: nat)
    ensures
        find_from(s, c, k) matches Some(i) ==> k <= i < s.len() && s[i as int] == c,
    decreases s.len() - k,
{
    if k < s.len() && s[k as int] != c {
        lemma_find_from_bounds(s, c, k + 1);
    }
}

/// Reads one token `prime^exponent`, ignoring repetition of primes.
pub fn parse_token(t: &Vec<char>) -> (r: Result<(Natural, usize), TokenFault>)
    ensures
        match r {
            Ok((q, e)) => token_value(t@) == Ok::<(nat, nat), TokenFault>((q@, e as nat)),
            Err(k) => token_value(t@) == Err::<(nat, nat), TokenFault>(k),
        },
{
    let tt = trim_chars(t);
    match find_char(&tt, '^') {
        None => Err(TokenFault::MissingCaret),
        Some(i) => {
            proof {
                lemma_find_from_bounds(tt@, '^', 0);
                assert(find_from(tt@, '^', 0) == Some(i as nat));
            }
            let n = tt.len();
            assert(i < n);
            let left = copy_range(&tt, 0, i);
            let right = copy_range(&tt, i + 1, n);
            assert(left@ =~= tt@.take(i as int));
            assert(right@ =~= tt@.skip(i + 1));
            let lt = trim_chars(&left);
            let rt = trim_chars(&right);
            match read_decimal(&lt) {
                None => Err(TokenFault::BadPrime),
                Some(q) => match read_count(&rt) {
                    None => Err(TokenFault::BadExponent),
                    Some(e) => {
                        if certainly_prime(&q) {
                            Ok((q, e))
                        } else {
                            Err(TokenFault::NotPrime)
                        }
                    },
                },
            }
        },
    }
}

/// Some token of `toks` before position `i` reads as the pair `p`.
pub open spec fn from_token(toks: Seq<Seq<char>>, i: int, p: (nat, nat)) -> bool {
    exists|j: int| 0 <= j < i && #[trigger] token_value(toks[j]) == Ok::<(nat, nat), TokenFault>(p)
}

/// A pair read before position `i` was read before `i + 1`.
proof fn lemma_from_token_grows(toks: Seq<Seq<char>>, i: int, p: (nat, nat))
    requires
        from_token(toks, i, p),
    ensures
        from_token(toks, i + 1, p),
{
    let j = choose|j: int| 0 <= j < i && #[trigger] token_value(toks[j]) == Ok::<(nat, nat), TokenFault>(p);
    assert(0 <= j < i + 1 && token_value(toks[j]) == Ok::<(nat, nat), TokenFault>(p));
}

/// What was seen before position `i` was seen before `i + 1`.
proof fn lemma_seen_grows(toks: Seq<Seq<char>>, i: int, q: nat)
    requires
        seen_before(toks, i, q),
    ensures
        seen_before(toks, i + 1, q),
{
    let j = choose|j: int| 0 <= j < i && #[trigger] token_value(toks[j]) is Ok && token_value(toks[j])->Ok_0.0 == q;
    assert(0 <= j < i + 1 && token_value(toks[j]) is Ok && token_value(toks[j])->Ok_0.0 == q);
}

/// Every token of `toks` is read without fault.
pub open spec fn all_accepted(toks: Seq<Seq<char>>) -> bool {
    forall|i: int| 0 <= i < toks.len() ==> #[trigger] fault_at(toks, i) is None
}

/// Some pair of `f` has the prime `q`.
pub open spec fn has_prime(f: Seq<(nat, nat)>, q: nat) -> bool {
    exists|k: int| 0 <= k < f.len() && #[trigger] f[k].0 == q
}

/// Adds the pair `(q, e)` at its place in ascending order, unless `q` is
/// already there; tells whether it was added.
pub fn add_factor(f: &mut Factorization, q: Natural, e: usize) -> (r: bool)
    requires
        old(f).wf(),
    ensures
        r == !has_prime(old(f)@, q@),
        !r ==> final(f)@ == old(f)@,
        r ==> final(f).wf() && final(f)@.len() == old(f)@.len() + 1 && final(f)@.contains(
            (q@, e as nat),
        ) && (forall|k: int| 0 <= k < old(f)@.len() ==> final(f)@.contains(#[trigger] old(f)@[k]))
            && (forall|k: int|
            0 <= k < final(f)@.len() ==> #[trigger] final(f)@[k] == (q@, e as nat) || old(f)@.contains(
                final(f)@[k],
            )),
{
    let ghost fv = f@;
    let mut pos: usize = 0;
    while pos < f.entries.len() && nat_lt(&f.entries[pos].0, &q)
        invariant
            pos <= f@.len(),
            fv == f@,
            forall|k: int| 0 <= k < pos ==> #[trigger] f@[k].0 < q@,
        decreases f@.len() - pos,
    {
        assert(f@[pos as int].0 == f.entries@[pos as int].0@);
        pos = pos + 1;
    }
    if pos < f.entries.len() && nat_eq(&f.entries[pos].0, &q) {
        assert(f@[pos as int].0 == q@);
        return false;
    }
    assert forall|k: int| 0 <= k < fv.len() implies #[trigger] fv[k].0 != q@ by {
        if k >= pos {
            assert(f@[pos as int].0 == f.entries@[pos as int].0@);
        }
    }
    let ghost qv = q@;
    f.entries.insert(pos, (q, e));
    assert(f@ =~= fv.insert(pos as int, (qv, e as nat)));
    assert(f@[pos as int] == (qv, e as nat));
    assert forall|k: int| 0 <= k < fv.len() implies f@.contains(#[trigger] fv[k]) by {
        if k < pos {
            assert(f@[k] == fv[k]);
        } else {
            assert(f@[k + 1] == fv[k]);
        }
    }
    assert forall|k: int| 0 <= k < f@.len() implies #[trigger] f@[k] == (qv, e as nat) || fv.contains(f@[k]) by {
        if k < pos {
            assert(f@[k] == fv[k]);
        } else if k > pos {
            assert(f@[k] == fv[k - 1]);
        }
    }
    true
}

/// Parses a factorization `q1^e1,q2^e2,...` (white space around tokens and
/// around the halves of each token ignored) into its pairs in ascending order
/// of the prime. Each token must have a `^`, a decimal prime before it and a
/// decimal count after it, and no prime may occur twice; otherwise the
/// outcome of every token is reported, `None` for a good one and the fault
/// of each faulty one.
pub fn parse_cli_factorization(factors: &str) -> (r: Result<Factorization, Vec<Option<TokenFault>>>)
    ensures
        r is Ok <==> all_accepted(tokens_of(factors@)),
        r matches Ok(f) ==> f.wf() && f@.len() == tokens_of(factors@).len() && (forall|i: int|
            0 <= i < tokens_of(factors@).len() ==> f@.contains(
                #[trigger] token_value(tokens_of(factors@)[i])->Ok_0,
            )) && forall|k: int|
            0 <= k < f@.len() ==> from_token(tokens_of(factors@), tokens_of(factors@).len() as int, #[trigger] f@[k]),
        r matches Err(errs) ==> errs@.len() == tokens_of(factors@).len() && forall|i: int|
            0 <= i < errs@.len() ==> #[trigger] errs@[i] == fault_at(tokens_of(factors@), i),
{
    let text = chars_of(factors);
    let trimmed_text = trim_chars(&text);
    let toks = split_chars(&trimmed_text, ',');
    let ghost tv = toks@.map_values(|x: Vec<char>| x@);
    assert(tv == tokens_of(factors@));
    let mut f = Factorization { entries: Vec::new() };
    let mut errs: Vec<Option<TokenFault>> = Vec::new();
    let mut faulty = false;
    let mut i: usize = 0;
    while i < toks.len()
        invariant
            i <= tv.len() == toks@.len(),
            tv == toks@.map_values(|x: Vec<char>| x@),
            tv == tokens_of(factors@),
            f.wf(),
            forall|j: int|
                0 <= j < i && #[trigger] token_value(tv[j]) is Ok ==> has_prime(f@, token_value(tv[j])->Ok_0.0),
            forall|k: int| 0 <= k < f@.len() ==> seen_before(tv, i as int, #[trigger] f@[k].0),
            forall|k: int| 0 <= k < f@.len() ==> from_token(tv, i as int, #[trigger] f@[k]),
            forall|j: int| 0 <= j < i && #[trigger] fault_at(tv, j) is None ==> f@.contains(token_value(tv[j])->Ok_0),
            errs@.len() == i,
            forall|j: int| 0 <= j < i ==> #[trigger] errs@[j] == fault_at(tv, j),
            faulty <==> exists|j: int| 0 <= j < i && #[trigger] fault_at(tv, j) is Some,
            !faulty ==> f@.len() == i,
        decreases tv.len() - i,
    {
        assert(toks@[i as int]@ == tv[i as int]);
        let ghost fv = f@;
        match parse_token(&toks[i]) {
            Err(k) => {
                assert(fault_at(tv, i as int) == Some(k));
                errs.push(Some(k));
                faulty = true;
                assert forall|m: int| 0 <= m < f@.len() implies seen_before(tv, i + 1, #[trigger] f@[m].0) by {
                    lemma_seen_grows(tv, i as int, f@[m].0);
                }
                assert forall|m: int| 0 <= m < f@.len() implies from_token(tv, i + 1, #[trigger] f@[m]) by {
                    lemma_from_token_grows(tv, i as int, f@[m]);
                }
                assert(errs@[i as int] == fault_at(tv, i as int));
            },
            Ok((q, e)) => {
                let ghost qv = q@;
                assert(token_value(tv[i as int]) == Ok::<(nat, nat), TokenFault>((qv, e as nat)));
                if add_factor(&mut f, q, e) {
                    assert(!seen_before(tv, i as int, qv));
                    assert(fault_at(tv, i as int) is None);
                    errs.push(None);
                    assert(errs@[i as int] == fault_at(tv, i as int));
                    proof {
                        let k1 = choose|k: int| 0 <= k < f@.len() && f@[k] == (qv, e as nat);
                        assert(f@[k1].0 == qv);
                    }
                    assert(has_prime(f@, qv));
                    assert forall|k: int| 0 <= k < f@.len() implies seen_before(tv, i + 1, #[trigger] f@[k].0) by {
                        if f@[k] != (qv, e as nat) {
                            let k2 = choose|k2: int| 0 <= k2 < fv.len() && fv[k2] == f@[k];
                            assert(seen_before(tv, i as int, fv[k2].0));
                            lemma_seen_grows(tv, i as int, fv[k2].0);
                        } else {
                            assert(token_value(tv[i as int]) is Ok);
                        }
                    }
                    assert forall|k: int| 0 <= k < f@.len() implies from_token(tv, i + 1, #[trigger] f@[k]) by {
                        if f@[k] != (qv, e as nat) {
                            let k2 = choose|k2: int| 0 <= k2 < fv.len() && fv[k2] == f@[k];
                            assert(from_token(tv, i as int, fv[k2]));
                            lemma_from_token_grows(tv, i as int, fv[k2]);
                        } else {
                            assert(token_value(tv[i as int]) == Ok::<(nat, nat), TokenFault>(f@[k]));
                        }
                    }
                    assert forall|j: int|
                        0 <= j < i + 1 && #[trigger] token_value(tv[j]) is Ok implies has_prime(
                        f@,
                        token_value(tv[j])->Ok_0.0,
                    ) by {
                        if j < i {
                            let k0 = choose|k: int| 0 <= k < fv.len() && #[trigger] fv[k].0 == token_value(tv[j])->Ok_0.0;
                            assert(f@.contains(fv[k0]));
                        }
                    }
                } else {
                    proof {
                        let k0 = choose|k: int| 0 <= k < fv.len() && #[trigger] fv[k].0 == qv;
                        assert(seen_before(tv, i as int, fv[k0].0));
                        assert(fault_at(tv, i as int) == Some(TokenFault::Duplicate));
                    }
                    errs.push(Some(TokenFault::Duplicate));
                    faulty = true;
                    assert forall|m: int| 0 <= m < f@.len() implies seen_before(tv, i + 1, #[trigger] f@[m].0) by {
                        lemma_seen_grows(tv, i as int, f@[m].0);
                    }
                    assert forall|m: int| 0 <= m < f@.len() implies from_token(tv, i + 1, #[trigger] f@[m]) by {
                        lemma_from_token_grows(tv, i as int, f@[m]);
                    }
                    assert(errs@[i as int] == fault_at(tv, i as int));
                }
            },
        }
        i = i + 1;
    }
    if !faulty {
        assert forall|j: int| 0 <= j < tv.len() implies f@.contains(#[trigger] token_value(tv[j])->Ok_0) by {
            assert(fault_at(tv, j) is None);
        }
        Ok(f)
    } else {
        Err(errs)
    }
}

/// Parsing refuses the empty text, a token without `^`, a token whose prime
/// or exponent is not a number or whose prime is not prime, and a prime that
/// occurs in two tokens.
pub proof fn lemma_parse_rejects(s: Seq<char>)
    ensures
        s.len() == 0 ==> !all_accepted(tokens_of(s)),
        forall|i: int|
            0 <= i < tokens_of(s).len() && #[trigger] token_value(tokens_of(s)[i]) is Err ==> !all_accepted(
                tokens_of(s),
            ),
        forall|i: int, j: int|
            0 <= i < j < tokens_of(s).len() && #[trigger] token_value(tokens_of(s)[i]) is Ok
                && #[trigger] token_value(tokens_of(s)[j]) is Ok && token_value(tokens_of(s)[i])->Ok_0.0
                == token_value(tokens_of(s)[j])->Ok_0.0 ==> !all_accepted(tokens_of(s)),
{
    let toks = tokens_of(s);
    if s.len() == 0 {
        assert(trim_start(s) == s);
        assert(trim_end(s) == s);
        assert(toks == seq![Seq::<char>::empty()]);
        assert(trimmed(toks[0]) == toks[0]);
        assert(find_from(toks[0], '^', 0) is None);
        assert(fault_at(toks, 0) is Some);
    }
    assert forall|i: int| 0 <= i < toks.len() && #[trigger] token_value(toks[i]) is Err implies !all_accepted(
        toks,
    ) by {
        assert(fault_at(toks, i) is Some);
    }
    assert forall|i: int, j: int|
        0 <= i < j < toks.len() && #[trigger] token_value(toks[i]) is Ok && #[trigger] token_value(toks[j]) is Ok
            && token_value(toks[i])->Ok_0.0 == token_value(toks[j])->Ok_0.0 implies !all_accepted(toks) by {
        assert(seen_before(toks, j, token_value(toks[j])->Ok_0.0));
        assert(fault_at(toks, j) is Some);
    }
}

} // verus!
