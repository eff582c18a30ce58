//! Writing a factorization back as text, in ascending order of the prime.
use crate::factors::{ascending, is_prime_nat, Factorization};
use crate::natural::Natural;
use num::BigUint;
use crate::parse::{
    all_accepted, count_of, decimal_of, digits_ten, fault_at, find_from, from_token, is_digit, pieces, seen_before,
    tokens_of, token_value, trim_end, trim_start, trimmed, white_space, TokenFault,
};
use vstd::prelude::*;

verus! {

/// The ASCII digit of value `k` (below ten).
pub open spec fn digit_char(k: nat) -> char {
    ((k + 48) as u8) as char
}

/// `n` in decimal, without leading zeros (`0` for zero).
pub open spec fn dec(n: nat) -> Seq<char>
    decreases n,
{
    if n < 10 {
        seq![digit_char(n)]
    } else {
        dec(n / 10).push(digit_char(n % 10))
    }
}

/// The token `q^e`.
pub open spec fn token_text(p: (nat, nat)) -> Seq<char> {
    dec(p.0) + seq!['^'] + dec(p.1)
}

/// The tokens of `f` joined by commas.
pub open spec fn render(f: Seq<(nat, nat)>) -> Seq<char>
    decreases f.len(),
{
    if f.len() <= 1 {
        if f.len() == 0 {
            Seq::empty()
        } else {
            token_text(f[0])
        }
    } else {
        render(f.drop_last()) + seq![','] + token_text(f.last())
    }
}

/// `dec(n)` is a non-empty run of digits whose value is `n`.
proof fn lemma_dec(n: nat)
    ensures
        dec(n).len() > 0,
        forall|i: int| 0 <= i < dec(n).len() ==> is_digit(#[trigger] dec(n)[i]),
        digits_ten(dec(n)) == n,
    decreases n,
{
    let k = n % 10;
    assert((digit_char(k) as u32) - 48 == k);
    assert(digit_char(k) != '_');
    assert(dec(n).last() == digit_char(k));
    if n < 10 {
        assert(dec(n).drop_last() =~= Seq::<char>::empty());
        assert(digits_ten(Seq::<char>::empty()) == 0);
        assert(digits_ten(dec(n)) == 0 * 10 + k);
    } else {
        lemma_dec(n / 10);
        assert(dec(n).drop_last() =~= dec(n / 10));
        assert(digits_ten(dec(n)) == digits_ten(dec(n / 10)) * 10 + k);
        assert(n == (n / 10) * 10 + n % 10);
    }
}

/// A text that starts and ends with a character that is not white space is
/// its own trimmed form.
proof fn lemma_trim_none(s: Seq<char>)
    requires
        s.len() > 0,
        !white_space(s[0]),
        !white_space(s.last()),
    ensures
        trimmed(s) == s,
{
    assert(trim_start(s) == s);
    assert(trim_end(s) == s);
}

/// `find_from` passes over positions that do not hold `c`.
proof fn lemma_find_at(s: Seq<char>, c: char, i: nat, j: nat)
    requires
        i <= j < s.len(),
        s[j as int] == c,
        forall|k: int| i <= k < j ==> s[k] != c,
    ensures
        find_from(s, c, i) == Some(j),
    decreases j - i,
{
    if i < j {
        lemma_find_at(s, c, i + 1, j);
    }
}

/// Each token reads back as its pair.
proof fn lemma_token(p: (nat, nat))
    requires
        p.0 <= u64::MAX as nat,
        is_prime_nat(p.0),
        p.1 <= usize::MAX as nat,
    ensures
        token_value(token_text(p)) == Ok::<(nat, nat), TokenFault>(p),
        forall|i: int| 0 <= i < token_text(p).len() ==> #[trigger] token_text(p)[i] != ',',
        is_digit(token_text(p)[0]),
        is_digit(token_text(p).last()),
{
    let (q, e) = p;
    lemma_dec(q);
    lemma_dec(e);
    let t = token_text(p);
    let l = dec(q).len();
    assert(t[l as int] == '^');
    assert(t.last() == dec(e).last());
    lemma_trim_none(t);
    assert forall|k: int| 0 <= k < l implies t[k] != '^' by {
        assert(t[k] == dec(q)[k]);
    }
    lemma_find_at(t, '^', 0, l);
    assert(t.take(l as int) =~= dec(q));
    assert(t.skip(l as int + 1) =~= dec(e));
    lemma_trim_none(dec(q));
    lemma_trim_none(dec(e));
    assert forall|i: int| 0 <= i < t.len() implies #[trigger] t[i] != ',' by {
        if i < l {
            assert(t[i] == dec(q)[i]);
        } else if i > l {
            assert(t[i] == dec(e)[i - l - 1]);
        }
    }
}

/// `pieces` never returns an empty list.
proof fn lemma_pieces_len(s: Seq<char>, sep: char)
    ensures
        pieces(s, sep).len() >= 1,
    decreases s.len(),
{
    if s.len() > 0 {
        lemma_pieces_len(s.drop_last(), sep);
    }
}

/// Appending text without `sep` extends the last piece.
proof fn lemma_pieces_append(s: Seq<char>, t: Seq<char>, sep: char)
    requires
        forall|i: int| 0 <= i < t.len() ==> #[trigger] t[i] != sep,
    ensures
        pieces(s + t, sep) == pieces(s, sep).update(
            pieces(s, sep).len() - 1,
            pieces(s, sep).last() + t,
        ),
    decreases t.len(),
{
    lemma_pieces_len(s, sep);
    if t.len() == 0 {
        assert(s + t =~= s);
        assert(pieces(s, sep).last() + t =~= pieces(s, sep).last());
        assert(pieces(s, sep).update(pieces(s, sep).len() - 1, pieces(s, sep).last()) =~= pieces(s, sep));
    } else {
        let t0 = t.drop_last();
        lemma_pieces_append(s, t0, sep);
        assert((s + t).drop_last() =~= s + t0);
        assert((s + t).last() == t.last());
        let p = pieces(s, sep);
        assert((p.last() + t0).push(t.last()) =~= p.last() + t);
        assert(p.update(p.len() - 1, p.last() + t0).update(p.len() - 1, p.last() + t) =~= p.update(
            p.len() - 1,
            p.last() + t,
        ));
    }
}

/// The pieces of a rendered factorization are its tokens.
proof fn lemma_render_pieces(f: Seq<(nat, nat)>)
    requires
        f.len() > 0,
        forall|i: int|
            0 <= i < f.len() ==> (#[trigger] f[i]).0 <= u64::MAX as nat && is_prime_nat(f[i].0) && f[i].1
                <= usize::MAX as nat,
    ensures
        pieces(render(f), ',') == Seq::new(f.len(), |i: int| token_text(f[i])),
        is_digit(render(f)[0]),
        is_digit(render(f).last()),
    decreases f.len(),
{
    lemma_token(f.last());
    lemma_token(f[0]);
    let t = token_text(f.last());
    if f.len() == 1 {
        lemma_pieces_append(Seq::empty(), t, ',');
        assert(Seq::<char>::empty() + t =~= t);
        assert(pieces(Seq::<char>::empty(), ',') =~= seq![Seq::<char>::empty()]);
        assert(Seq::new(f.len(), |i: int| token_text(f[i])) =~= seq![t]);
    } else {
        let g = f.drop_last();
        assert forall|i: int| 0 <= i < g.len() implies (#[trigger] g[i]).0 <= u64::MAX as nat && is_prime_nat(
            g[i].0,
        ) && g[i].1 <= usize::MAX as nat by {
            assert(g[i] == f[i]);
        }
        lemma_render_pieces(g);
        let r = render(g);
        assert(render(f) =~= r.push(',') + t);
        lemma_pieces_append(r.push(','), t, ',');
        assert(r.push(',').drop_last() =~= r);
        lemma_pieces_len(r, ',');
        assert(pieces(r.push(','), ',') == pieces(r, ',').push(Seq::empty()));
        assert(Seq::<char>::empty() + t =~= t);
        assert(Seq::new(f.len(), |i: int| token_text(f[i])) =~= Seq::new(g.len(), |i: int| token_text(g[i])).push(
            t,
        ));
        assert(render(f)[0] == r[0]);
    }
}

/// Rendering a factorization (ascending primes below 2^64, exponents that fit
/// in `usize`, at least one pair) gives a text that parses without fault,
/// with one token per pair that reads as exactly that pair.
pub proof fn lemma_round_trip(f: Seq<(nat, nat)>)
    requires
        f.len() > 0,
        ascending(f),
        forall|i: int|
            0 <= i < f.len() ==> (#[trigger] f[i]).0 <= u64::MAX as nat && is_prime_nat(f[i].0) && f[i].1
                <= usize::MAX as nat,
    ensures
        tokens_of(render(f)).len() == f.len(),
        forall|i: int| 0 <= i < f.len() ==> #[trigger] token_value(tokens_of(render(f))[i]) == Ok::<(nat, nat), TokenFault>(f[i]),
        all_accepted(tokens_of(render(f))),
{
    lemma_render_pieces(f);
    let s = render(f);
    lemma_trim_none(s);
    let toks = tokens_of(s);
    assert(toks == Seq::new(f.len(), |i: int| token_text(f[i])));
    assert forall|i: int| 0 <= i < f.len() implies #[trigger] token_value(toks[i]) == Ok::<(nat, nat), TokenFault>(f[i]) by {
        lemma_token(f[i]);
    }
    assert forall|i: int| 0 <= i < toks.len() implies #[trigger] fault_at(toks, i) is None by {
        lemma_token(f[i]);
        if seen_before(toks, i, f[i].0) {
            let j = choose|j: int| 0 <= j < i && #[trigger] token_value(toks[j]) is Ok && token_value(toks[j])->Ok_0.0 == f[i].0;
            lemma_token(f[j]);
        }
    }
}

/// Where `g` holds `f[i]`.
spec fn place(f: Seq<(nat, nat)>, g: Seq<(nat, nat)>, i: int) -> int {
    choose|k: int| 0 <= k < g.len() && g[k] == f[i]
}

/// Places of the pairs of `f` in `g` are at least their positions in `f`.
proof fn lemma_place_low(f: Seq<(nat, nat)>, g: Seq<(nat, nat)>, i: int)
    requires
        ascending(f),
        ascending(g),
        0 <= i < f.len(),
        forall|j: int| 0 <= j < f.len() ==> g.contains(#[trigger] f[j]),
    ensures
        0 <= place(f, g, i) < g.len(),
        g[place(f, g, i)] == f[i],
        place(f, g, i) >= i,
    decreases i,
{
    assert(g.contains(f[i]));
    if i > 0 {
        lemma_place_low(f, g, i - 1);
        let (a, b) = (place(f, g, i - 1), place(f, g, i));
        assert(f[i - 1].0 < f[i].0);
        if b <= a {
            if b < a {
                assert(g[b].0 < g[a].0);
            }
        }
    }
}

/// Places of the pairs of `f` in `g` are at most their positions in `f`
/// when the two have the same length.
proof fn lemma_place_high(f: Seq<(nat, nat)>, g: Seq<(nat, nat)>, i: int)
    requires
        ascending(f),
        ascending(g),
        f.len() == g.len(),
        0 <= i < f.len(),
        forall|j: int| 0 <= j < f.len() ==> g.contains(#[trigger] f[j]),
    ensures
        place(f, g, i) <= i,
    decreases f.len() - i,
{
    lemma_place_low(f, g, i);
    if i + 1 < f.len() {
        lemma_place_high(f, g, i + 1);
        lemma_place_low(f, g, i + 1);
        let (a, b) = (place(f, g, i), place(f, g, i + 1));
        assert(f[i].0 < f[i + 1].0);
        if b <= a {
            if b < a {
                assert(g[b].0 < g[a].0);
            }
        }
    }
}

/// Two lists with strictly ascending primes, of one length, where the second
/// holds every pair of the first, are equal.
pub proof fn lemma_sorted_unique(f: Seq<(nat, nat)>, g: Seq<(nat, nat)>)
    requires
        ascending(f),
        ascending(g),
        f.len() == g.len(),
        forall|j: int| 0 <= j < f.len() ==> g.contains(#[trigger] f[j]),
    ensures
        f == g,
{
    assert forall|i: int| 0 <= i < f.len() implies f[i] == g[i] by {
        lemma_place_low(f, g, i);
        lemma_place_high(f, g, i);
    }
    assert(f =~= g);
}

/// Parsing the rendered text of a factorization (ascending primes below
/// 2^64, exponents that fit in `usize`, at least one pair) succeeds, and any
/// result that the parser's contract allows is that factorization itself.
pub proof fn lemma_parse_render(f: Seq<(nat, nat)>, g: Seq<(nat, nat)>)
    requires
        f.len() > 0,
        ascending(f),
        forall|i: int|
            0 <= i < f.len() ==> (#[trigger] f[i]).0 <= u64::MAX as nat && is_prime_nat(f[i].0) && f[i].1
                <= usize::MAX as nat,
        ascending(g),
        g.len() == tokens_of(render(f)).len(),
        forall|i: int|
            0 <= i < tokens_of(render(f)).len() ==> g.contains(
                #[trigger] token_value(tokens_of(render(f))[i])->Ok_0,
            ),
    ensures
        all_accepted(tokens_of(render(f))),
        g == f,
{
    lemma_round_trip(f);
    assert forall|j: int| 0 <= j < f.len() implies g.contains(#[trigger] f[j]) by {
        assert(token_value(tokens_of(render(f))[j]) == Ok::<(nat, nat), TokenFault>(f[j]));
    }
    lemma_sorted_unique(f, g);
}

/// The canonical text is a fixed point: when `s` parses to `m` (every token
/// accepted, `m` ascending with one pair per token, each pair read from a
/// token), the rendered `m` parses without fault, any result `g` of parsing it
/// is `m` itself, and rendering `g` gives the same text again.
pub proof fn lemma_canonical_round_trip(s: Seq<char>, m: Seq<(nat, nat)>, g: Seq<(nat, nat)>)
    requires
        all_accepted(tokens_of(s)),
        ascending(m),
        m.len() == tokens_of(s).len(),
        forall|k: int| 0 <= k < m.len() ==> from_token(tokens_of(s), tokens_of(s).len() as int, #[trigger] m[k]),
        ascending(g),
        g.len() == tokens_of(render(m)).len(),
        forall|i: int|
            0 <= i < tokens_of(render(m)).len() ==> g.contains(
                #[trigger] token_value(tokens_of(render(m))[i])->Ok_0,
            ),
    ensures
        all_accepted(tokens_of(render(m))),
        g == m,
        render(g) == render(m),
{
    let toks = tokens_of(s);
    lemma_pieces_len(trimmed(s), ',');
    assert forall|k: int| 0 <= k < m.len() implies (#[trigger] m[k]).0 <= u64::MAX as nat && is_prime_nat(
        m[k].0,
    ) && m[k].1 <= usize::MAX as nat by {
        assert(from_token(toks, toks.len() as int, m[k]));
        let j = choose|j: int| 0 <= j < toks.len() && #[trigger] token_value(toks[j]) == Ok::<(nat, nat), TokenFault>(m[k]);
        assert(token_value(toks[j]) == Ok::<(nat, nat), TokenFault>(m[k]));
    }
    lemma_parse_render(m, g);
}

/// Relies on `Display` for `BigUint` (`to_str_radix(10)`): decimal digits
/// without leading zeros, `0` for zero.
#[verifier::external_body]
fn decimal_text(n: &Natural) -> (r: Vec<char>)
    ensures
        r@ == dec(n@),
{
    BigUint::new(n.digits.clone()).to_string().chars().collect()
}

/// `e` in decimal.
pub fn count_text(e: usize) -> (r: Vec<char>)
    ensures
        r@ == dec(e as nat),
    decreases e,
{
    let d = (((e % 10) + 48) as u8) as char;
    if e < 10 {
        let mut v: Vec<char> = Vec::new();
        v.push(d);
        assert(v@ =~= seq![digit_char(e as nat)]);
        v
    } else {
        let mut v = count_text(e / 10);
        v.push(d);
        v
    }
}

/// Relies on `FromIterator<char>` for `String`: the characters in order.
#[verifier::external_body]
fn string_of(v: &Vec<char>) -> (r: String)
    ensures
        r@ == v@,
{
    v.iter().collect()
}

/// Appends the characters of `t` to `out`.
fn push_all(out: &mut Vec<char>, t: &Vec<char>)
    ensures
        final(out)@ == old(out)@ + t@,
{
    let mut k: usize = 0;
    while k < t.len()
        invariant
            k <= t@.len(),
            out@ == old(out)@ + t@.take(k as int),
        decreases t@.len() - k,
    {
        out.push(t[k]);
        assert(t@.take(k + 1) =~= t@.take(k as int).push(t@[k as int]));
        k = k + 1;
    }
    assert(t@.take(k as int) =~= t@);
}

/// The factorization as text: `q^e` for each pair, in the stored order,
/// joined by commas.
pub fn render_factorization(f: &Factorization) -> (r: String)
    ensures
        r@ == render(f@),
{
    let mut out: Vec<char> = Vec::new();
    let mut i: usize = 0;
    while i < f.entries.len()
        invariant
            i <= f@.len(),
            out@ == render(f@.take(i as int)),
        decreases f@.len() - i,
    {
        let ghost before = out@;
        if i > 0 {
            out.push(',');
        }
        let q = decimal_text(&f.entries[i].0);
        let e = count_text(f.entries[i].1);
        assert(f@[i as int] == (f.entries@[i as int].0@, f.entries@[i as int].1 as nat));
        push_all(&mut out, &q);
        out.push('^');
        push_all(&mut out, &e);
        let ghost g = f@.take(i + 1);
        assert(g.drop_last() =~= f@.take(i as int));
        assert(g.last() == f@[i as int]);
        if i > 0 {
            assert(out@ =~= before + seq![','] + token_text(f@[i as int]));
        } else {
            assert(out@ =~= token_text(f@[i as int]));
        }
        i = i + 1;
    }
    assert(f@.take(i as int) =~= f@);
    string_of(&out)
}

} // verus!
