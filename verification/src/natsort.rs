//! Natural ("human") ordering for page file names.
//!
//! Plain lexicographic ordering sorts `page10.jpg` before `page2.jpg`, which
//! breaks reading order for the vast majority of CBZ files in the wild.
//! Natural ordering compares runs of digits by numeric value instead.

use std::cmp::Ordering;

use vstd::prelude::*;

use crate::order::{int_rank, is_total_order, lemma_lex_equal, lemma_lex_flip, lemma_lex_transitive,
    lex_rank, Rank};
use crate::text::{all_digits, chars_of, digit, digits_value, is_digit, lower_char, lowered, to_lower_char};

verus! {

/// What natural ordering compares: a run of digits counts as the number it
/// writes, any other character as itself, in lower case.
pub enum Token {
    Number(nat),
    Symbol(char),
}

/// The rank of two tokens. Symbols rank by code point; numbers by value, as a
/// block that stands where the digits do among the symbols.
pub open spec fn token_rank() -> spec_fn(Token, Token) -> Rank {
    |a: Token, b: Token|
        match (a, b) {
            (Token::Number(x), Token::Number(y)) => int_rank(x as int, y as int),
            (Token::Symbol(x), Token::Symbol(y)) => int_rank(x as int, y as int),
            (Token::Number(_), Token::Symbol(y)) => if '9' < y {
                Rank::Less
            } else {
                Rank::Greater
            },
            (Token::Symbol(x), Token::Number(_)) => if '9' < x {
                Rank::Greater
            } else {
                Rank::Less
            },
        }
}

/// How many digits `s` begins with.
pub open spec fn run_len(s: Seq<char>) -> nat
    decreases s.len(),
{
    if s.len() > 0 && is_digit(s[0]) {
        1 + run_len(s.drop_first())
    } else {
        0
    }
}

/// The tokens of `s`.
pub open spec fn tokens(s: Seq<char>) -> Seq<Token>
    decreases s.len(),
    via tokens_terminates
{
    if s.len() == 0 {
        seq![]
    } else if is_digit(s[0]) {
        let n = run_len(s) as int;
        seq![Token::Number(digits_value(s.take(n)))] + tokens(s.skip(n))
    } else {
        seq![Token::Symbol(lower_char(s[0]))] + tokens(s.drop_first())
    }
}

#[via_fn]
proof fn tokens_terminates(s: Seq<char>) {
    lemma_run_len(s);
}

/// The natural rank of two texts: by their tokens, in dictionary order.
pub open spec fn natural_order(a: Seq<char>, b: Seq<char>) -> Rank {
    lex_rank(token_rank(), tokens(a), tokens(b))
}

proof fn lemma_run_len(s: Seq<char>)
    ensures
        run_len(s) <= s.len(),
        s.len() > 0 && is_digit(s[0]) ==> run_len(s) >= 1,
        forall|i: int| 0 <= i < run_len(s) ==> is_digit(#[trigger] s[i]),
        run_len(s) < s.len() ==> !is_digit(s[run_len(s) as int]),
    decreases s.len(),
{
    if s.len() > 0 && is_digit(s[0]) {
        let t = s.drop_first();
        lemma_run_len(t);
        assert forall|i: int| 0 <= i < run_len(s) implies is_digit(#[trigger] s[i]) by {
            if i > 0 {
                assert(s[i] == t[i - 1]);
            }
        }
        if run_len(s) < s.len() {
            assert(s[run_len(s) as int] == t[run_len(t) as int]);
        }
    }
}

proof fn lemma_run_len_is(s: Seq<char>, n: nat)
    requires
        n <= s.len(),
        forall|i: int| 0 <= i < n ==> is_digit(#[trigger] s[i]),
        n < s.len() ==> !is_digit(s[n as int]),
    ensures
        run_len(s) == n,
{
    lemma_run_len(s);
    if run_len(s) < n {
        assert(is_digit(s[run_len(s) as int]));
    }
}

/// Ten to the power `n`.
spec fn pow10(n: nat) -> nat
    decreases n,
{
    if n == 0 {
        1
    } else {
        10 * pow10((n - 1) as nat)
    }
}

/// A digit run's value, taken from its first digit on.
proof fn lemma_value_first(s: Seq<char>)
    requires
        s.len() > 0,
        all_digits(s),
    ensures
        digits_value(s) == (s[0] as int - '0' as int) * pow10((s.len() - 1) as nat) + digits_value(
            s.drop_first(),
        ),
    decreases s.len(),
{
    if s.len() == 1 {
        assert(s.drop_last() =~= Seq::<char>::empty());
        assert(s.drop_first() =~= Seq::<char>::empty());
        assert((s[0] as int - '0' as int) * 1 == s[0] as int - '0' as int);
    } else {
        let t = s.drop_last();
        assert forall|i: int| 0 <= i < t.len() implies is_digit(#[trigger] t[i]) by {
            assert(t[i] == s[i]);
        }
        lemma_value_first(t);
        assert(t.drop_first() =~= s.drop_first().drop_last());
        assert(s.drop_first().last() == s.last());
        let d = s[0] as int - '0' as int;
        let p = pow10((t.len() - 1) as nat) as int;
        let rest = digits_value(t.drop_first()) as int;
        assert((d * p + rest) * 10 == d * (10 * p) + rest * 10) by (nonlinear_arith);
        assert(pow10((s.len() - 1) as nat) == 10 * p);
        assert(digits_value(s) == digits_value(t) * 10 + (s.last() as nat - '0' as nat));
    }
}

proof fn lemma_value_bound(s: Seq<char>)
    requires
        all_digits(s),
    ensures
        digits_value(s) < pow10(s.len()),
    decreases s.len(),
{
    if s.len() > 0 {
        let t = s.drop_last();
        assert forall|i: int| 0 <= i < t.len() implies is_digit(#[trigger] t[i]) by {
            assert(t[i] == s[i]);
        }
        lemma_value_bound(t);
        assert(is_digit(s[s.len() - 1]));
    }
}

proof fn lemma_pow10_grows(a: nat, b: nat)
    requires
        a <= b,
    ensures
        1 <= pow10(a) <= pow10(b),
    decreases b,
{
    if a < b {
        lemma_pow10_grows(a, (b - 1) as nat);
    } else if a > 0 {
        lemma_pow10_grows((a - 1) as nat, (b - 1) as nat);
    }
}

/// Without leading zeros, a longer run writes a larger number.
proof fn lemma_longer_is_larger(s: Seq<char>, t: Seq<char>)
    requires
        all_digits(s),
        all_digits(t),
        t.len() > 0,
        t[0] != '0',
        s.len() < t.len(),
    ensures
        digits_value(s) < digits_value(t),
{
    lemma_value_bound(s);
    lemma_value_first(t);
    lemma_pow10_grows(s.len(), (t.len() - 1) as nat);
    let p = pow10((t.len() - 1) as nat) as int;
    let d = t[0] as int - '0' as int;
    assert(is_digit(t[0]));
    assert(d * p >= p) by (nonlinear_arith)
        requires
            d >= 1,
            p >= 1,
    ;
}

/// Of two equally long runs, the first digit in which they differ decides.
proof fn lemma_first_digit_decides(s: Seq<char>, t: Seq<char>)
    requires
        all_digits(s),
        all_digits(t),
        s.len() == t.len(),
        s.len() > 0,
    ensures
        s[0] < t[0] ==> digits_value(s) < digits_value(t),
        s[0] == t[0] ==> int_rank(digits_value(s) as int, digits_value(t) as int) == int_rank(
            digits_value(s.drop_first()) as int,
            digits_value(t.drop_first()) as int,
        ),
{
    lemma_value_first(s);
    lemma_value_first(t);
    let u = s.drop_first();
    assert forall|i: int| 0 <= i < u.len() implies is_digit(#[trigger] u[i]) by {
        assert(u[i] == s[i + 1]);
    }
    lemma_value_bound(u);
    let p = pow10((s.len() - 1) as nat) as int;
    let d = s[0] as int - '0' as int;
    let e = t[0] as int - '0' as int;
    if s[0] < t[0] {
        assert(e * p >= d * p + p) by (nonlinear_arith)
            requires
                e >= d + 1,
                p >= 0,
        ;
    }
}

/// The end of the digit run that starts at `from`.
fn run_end(v: &Vec<char>, from: usize) -> (to: usize)
    requires
        from <= v@.len(),
    ensures
        from <= to <= v@.len(),
        to == from + run_len(v@.skip(from as int)),
{
    let mut to: usize = from;
    while to < v.len() && digit(v[to])
        invariant
            from <= to <= v@.len(),
            forall|i: int| from <= i < to ==> is_digit(#[trigger] v@[i]),
        decreases v@.len() - to,
    {
        to = to + 1;
    }
    proof {
        let s = v@.skip(from as int);
        assert forall|i: int| 0 <= i < to - from implies is_digit(#[trigger] s[i]) by {
            assert(s[i] == v@[from + i]);
        }
        lemma_run_len_is(s, (to - from) as nat);
    }
    to
}

/// Where the run from `from` up to `to` begins once its leading zeros are
/// dropped; that changes nothing about the number it writes.
fn skip_zeros(v: &Vec<char>, from: usize, to: usize) -> (res: usize)
    requires
        from <= to <= v@.len(),
        all_digits(v@.subrange(from as int, to as int)),
    ensures
        from <= res <= to,
        res < to ==> v@[res as int] != '0',
        digits_value(v@.subrange(res as int, to as int)) == digits_value(
            v@.subrange(from as int, to as int),
        ),
{
    let mut i: usize = from;
    while i < to && v[i] == '0'
        invariant
            from <= i <= to <= v@.len(),
            all_digits(v@.subrange(from as int, to as int)),
            digits_value(v@.subrange(i as int, to as int)) == digits_value(
                v@.subrange(from as int, to as int),
            ),
        decreases to - i,
    {
        proof {
            let s = v@.subrange(i as int, to as int);
            assert forall|k: int| 0 <= k < s.len() implies is_digit(#[trigger] s[k]) by {
                assert(s[k] == v@.subrange(from as int, to as int)[i - from + k]);
            }
            lemma_value_first(s);
            assert(s.drop_first() =~= v@.subrange(i + 1, to as int));
            assert(0 * pow10((s.len() - 1) as nat) == 0);
        }
        i = i + 1;
    }
    i
}

/// The rank of two digit runs by the numbers they write.
///
/// Leading zeros are ignored; the rest is compared by length and then digit by
/// digit, so arbitrarily long digit runs still work.
fn rank_runs(a: &Vec<char>, a_from: usize, a_to: usize, b: &Vec<char>, b_from: usize, b_to: usize) -> (res:
    Rank)
    requires
        a_from <= a_to <= a@.len(),
        b_from <= b_to <= b@.len(),
        all_digits(a@.subrange(a_from as int, a_to as int)),
        all_digits(b@.subrange(b_from as int, b_to as int)),
    ensures
        res == int_rank(
            digits_value(a@.subrange(a_from as int, a_to as int)) as int,
            digits_value(b@.subrange(b_from as int, b_to as int)) as int,
        ),
{
    let i: usize = skip_zeros(a, a_from, a_to);
    let j: usize = skip_zeros(b, b_from, b_to);
    let ghost s = a@.subrange(i as int, a_to as int);
    let ghost t = b@.subrange(j as int, b_to as int);
    proof {
        assert forall|k: int| 0 <= k < s.len() implies is_digit(#[trigger] s[k]) by {
            assert(s[k] == a@.subrange(a_from as int, a_to as int)[i - a_from + k]);
        }
        assert forall|k: int| 0 <= k < t.len() implies is_digit(#[trigger] t[k]) by {
            assert(t[k] == b@.subrange(b_from as int, b_to as int)[j - b_from + k]);
        }
    }
    let n: usize = a_to - i;
    let m: usize = b_to - j;
    if n < m {
        proof {
            lemma_longer_is_larger(s, t);
        }
        return Rank::Less;
    }
    if m < n {
        proof {
            lemma_longer_is_larger(t, s);
        }
        return Rank::Greater;
    }
    let mut k: usize = 0;
    assert(s.skip(0) =~= s && t.skip(0) =~= t);
    while k < n
        invariant
            0 <= k <= n,
            i + n == a_to <= a@.len(),
            j + n == b_to <= b@.len(),
            s == a@.subrange(i as int, a_to as int),
            t == b@.subrange(j as int, b_to as int),
            all_digits(s),
            all_digits(t),
            digits_value(s) == digits_value(a@.subrange(a_from as int, a_to as int)),
            digits_value(t) == digits_value(b@.subrange(b_from as int, b_to as int)),
            int_rank(digits_value(s) as int, digits_value(t) as int) == int_rank(
                digits_value(s.skip(k as int)) as int,
                digits_value(t.skip(k as int)) as int,
            ),
        decreases n - k,
    {
        proof {
            let u = s.skip(k as int);
            let v = t.skip(k as int);
            assert forall|x: int| 0 <= x < u.len() implies is_digit(#[trigger] u[x]) by {
                assert(u[x] == s[k + x]);
            }
            assert forall|x: int| 0 <= x < v.len() implies is_digit(#[trigger] v[x]) by {
                assert(v[x] == t[k + x]);
            }
            lemma_first_digit_decides(u, v);
            lemma_first_digit_decides(v, u);
            assert(u.drop_first() =~= s.skip(k + 1));
            assert(v.drop_first() =~= t.skip(k + 1));
        }
        if a[i + k] < b[j + k] {
            return Rank::Less;
        }
        if b[j + k] < a[i + k] {
            return Rank::Greater;
        }
        k = k + 1;
    }
    assert(s.skip(n as int) =~= Seq::<char>::empty());
    assert(t.skip(n as int) =~= Seq::<char>::empty());
    Rank::Equal
}

proof fn lemma_digit_step(s: Seq<char>)
    requires
        s.len() > 0,
        is_digit(s[0]),
    ensures
        tokens(s).len() > 0,
        tokens(s)[0] == Token::Number(digits_value(s.take(run_len(s) as int))),
        tokens(s).drop_first() == tokens(s.skip(run_len(s) as int)),
{
    assert(tokens(s).drop_first() =~= tokens(s.skip(run_len(s) as int)));
}

proof fn lemma_symbol_step(s: Seq<char>)
    requires
        s.len() > 0,
        !is_digit(s[0]),
    ensures
        tokens(s).len() > 0,
        tokens(s)[0] == Token::Symbol(lower_char(s[0])),
        tokens(s).drop_first() == tokens(s.drop_first()),
{
    assert(tokens(s).drop_first() =~= tokens(s.drop_first()));
}

/// The natural rank of two texts.
pub fn rank_natural(a: &str, b: &str) -> (res: Rank)
    ensures
        res == natural_order(a@, b@),
{
    let x = chars_of(a);
    let y = chars_of(b);
    let mut i: usize = 0;
    let mut j: usize = 0;
    assert(x@.skip(0) =~= x@ && y@.skip(0) =~= y@);
    while i < x.len() && j < y.len()
        invariant
            i <= x@.len(),
            j <= y@.len(),
            x@ == a@,
            y@ == b@,
            natural_order(a@, b@) == natural_order(x@.skip(i as int), y@.skip(j as int)),
        decreases x@.len() - i,
    {
        let ghost s = x@.skip(i as int);
        let ghost t = y@.skip(j as int);
        let x_digit = digit(x[i]);
        let y_digit = digit(y[j]);
        proof {
            lemma_run_len(s);
            lemma_run_len(t);
            if x_digit {
                lemma_digit_step(s);
            } else {
                lemma_symbol_step(s);
            }
            if y_digit {
                lemma_digit_step(t);
            } else {
                lemma_symbol_step(t);
            }
        }
        if x_digit && y_digit {
            let i_end: usize = run_end(&x, i);
            let j_end: usize = run_end(&y, j);
            proof {
                assert(s.take(run_len(s) as int) =~= x@.subrange(i as int, i_end as int));
                assert(t.take(run_len(t) as int) =~= y@.subrange(j as int, j_end as int));
                assert(s.skip(run_len(s) as int) =~= x@.skip(i_end as int));
                assert(t.skip(run_len(t) as int) =~= y@.skip(j_end as int));
                let u = s.take(run_len(s) as int);
                let v = t.take(run_len(t) as int);
                assert forall|k: int| 0 <= k < u.len() implies is_digit(#[trigger] u[k]) by {
                    assert(u[k] == s[k]);
                }
                assert forall|k: int| 0 <= k < v.len() implies is_digit(#[trigger] v[k]) by {
                    assert(v[k] == t[k]);
                }
            }
            let rank = rank_runs(&x, i, i_end, &y, j, j_end);
            if rank != Rank::Equal {
                return rank;
            }
            i = i_end;
            j = j_end;
        } else {
            proof {
                assert(s.drop_first() =~= x@.skip(i + 1));
                assert(t.drop_first() =~= y@.skip(j + 1));
            }
            let p = to_lower_char(x[i]);
            let q = to_lower_char(y[j]);
            if p < q {
                return Rank::Less;
            }
            if q < p {
                return Rank::Greater;
            }
            i = i + 1;
            j = j + 1;
        }
    }
    proof {
        if i < x@.len() {
            assert(tokens(y@.skip(j as int)).len() == 0);
            assert(tokens(x@.skip(i as int)).len() > 0);
        } else if j < y@.len() {
            assert(tokens(x@.skip(i as int)).len() == 0);
            assert(tokens(y@.skip(j as int)).len() > 0);
        }
    }
    if i < x.len() {
        Rank::Greater
    } else if j < y.len() {
        Rank::Less
    } else {
        Rank::Equal
    }
}

/// Compare two strings using natural ordering, case-insensitively.
pub fn natural_cmp(a: &str, b: &str) -> (res: Ordering)
    ensures
        res == match natural_order(a@, b@) {
            Rank::Less => Ordering::Less,
            Rank::Equal => Ordering::Equal,
            Rank::Greater => Ordering::Greater,
        },
{
    match rank_natural(a, b) {
        Rank::Less => Ordering::Less,
        Rank::Equal => Ordering::Equal,
        Rank::Greater => Ordering::Greater,
    }
}

proof fn lemma_tokens_ordered()
    ensures
        is_total_order(token_rank()),
{
}

/// Two texts rank as equal exactly when they have the same tokens: when they
/// differ at most in ASCII case and in leading zeros of their numbers.
pub proof fn natural_equal_means_same_tokens(a: Seq<char>, b: Seq<char>)
    ensures
        natural_order(a, b) == Rank::Equal <==> tokens(a) == tokens(b),
{
    lemma_tokens_ordered();
    lemma_lex_equal(token_rank(), tokens(a), tokens(b));
}

/// Swapping the two texts flips their natural rank.
pub proof fn natural_order_flips(a: Seq<char>, b: Seq<char>)
    ensures
        natural_order(b, a) == natural_order(a, b).flipped(),
{
    lemma_tokens_ordered();
    lemma_lex_flip(token_rank(), tokens(a), tokens(b));
}

/// Natural ordering is transitive: what ranks no later than something that
/// ranks no later than `c` ranks no later than `c` itself.
pub proof fn natural_order_is_transitive(a: Seq<char>, b: Seq<char>, c: Seq<char>)
    requires
        natural_order(a, b) != Rank::Greater,
        natural_order(b, c) != Rank::Greater,
    ensures
        natural_order(a, c) != Rank::Greater,
        natural_order(a, c) == Rank::Equal ==> natural_order(a, b) == Rank::Equal && natural_order(
            b,
            c,
        ) == Rank::Equal,
{
    lemma_tokens_ordered();
    natural_equal_means_same_tokens(a, b);
    natural_equal_means_same_tokens(b, c);
    natural_equal_means_same_tokens(a, c);
    natural_order_flips(a, b);
    if natural_order(a, b) == Rank::Less && natural_order(b, c) == Rank::Less {
        lemma_lex_transitive(token_rank(), tokens(a), tokens(b), tokens(c));
    }
}

proof fn lemma_lowered_run(s: Seq<char>)
    ensures
        run_len(lowered(s)) == run_len(s),
        lowered(s).take(run_len(s) as int) == s.take(run_len(s) as int),
{
    lemma_run_len(s);
    let n = run_len(s);
    assert forall|i: int| 0 <= i < n implies is_digit(#[trigger] lowered(s)[i]) && lowered(s)[i]
        == s[i] by {
        assert(is_digit(s[i]));
    }
    lemma_run_len_is(lowered(s), n);
    assert(lowered(s).take(n as int) =~= s.take(n as int));
}

proof fn lemma_lowered_tokens(s: Seq<char>)
    ensures
        tokens(lowered(s)) == tokens(s),
    decreases s.len(),
{
    if s.len() > 0 {
        lemma_run_len(s);
        if is_digit(s[0]) {
            let n = run_len(s) as int;
            lemma_lowered_run(s);
            lemma_lowered_tokens(s.skip(n));
            assert(lowered(s).skip(n) =~= lowered(s.skip(n)));
        } else {
            lemma_lowered_tokens(s.drop_first());
            assert(lowered(s).drop_first() =~= lowered(s.drop_first()));
            assert(!is_digit(lower_char(s[0])));
            assert(lower_char(lower_char(s[0])) == lower_char(s[0]));
        }
    } else {
        assert(lowered(s) =~= s);
    }
}

/// Natural ordering does not tell the case of ASCII letters apart.
pub proof fn letter_case_does_not_count(a: Seq<char>, b: Seq<char>)
    ensures
        natural_order(lowered(a), b) == natural_order(a, b),
        natural_order(a, lowered(b)) == natural_order(a, b),
{
    lemma_lowered_tokens(a);
    lemma_lowered_tokens(b);
}

proof fn lemma_zero_tokens(before: Seq<char>, after: Seq<char>)
    requires
        before.len() > 0 ==> !is_digit(before.last()),
        after.len() > 0 && is_digit(after[0]),
    ensures
        tokens(before + seq!['0'] + after) == tokens(before + after),
    decreases before.len(),
{
    let with = before + seq!['0'] + after;
    let without = before + after;
    if before.len() == 0 {
        let n = run_len(after) as int;
        lemma_run_len(after);
        assert(without =~= after);
        assert(with =~= seq!['0'] + after);
        assert forall|i: int| 0 <= i < n + 1 implies is_digit(#[trigger] with[i]) by {
            if i > 0 {
                assert(with[i] == after[i - 1]);
            }
        }
        if n + 1 < with.len() {
            assert(with[n + 1] == after[n]);
        }
        lemma_run_len_is(with, (n + 1) as nat);
        let run = after.take(n);
        let long = with.take(n + 1);
        assert(long.drop_first() =~= run);
        assert(all_digits(long));
        lemma_value_first(long);
        let p = pow10((long.len() - 1) as nat) as int;
        assert(0 * p == 0);
        assert(long[0] as int - '0' as int == 0);
        assert(digits_value(long) == digits_value(run));
        assert(with.skip(n + 1) =~= after.skip(n));
    } else {
        lemma_run_len(before);
        let n = run_len(before);
        if is_digit(before[0]) {
            if n == before.len() {
                assert(is_digit(before[n - 1]));
            }
            assert(n < before.len());
            assert forall|i: int| 0 <= i < n implies is_digit(#[trigger] with[i]) && is_digit(
                without[i],
            ) by {
                assert(is_digit(before[i]));
            }
            lemma_run_len_is(with, n);
            assert forall|i: int| 0 <= i < n implies is_digit(#[trigger] without[i]) by {
                assert(is_digit(before[i]));
            }
            lemma_run_len_is(without, n);
            let rest = before.skip(n as int);
            assert(rest.last() == before.last());
            lemma_zero_tokens(rest, after);
            assert(with.take(n as int) =~= without.take(n as int));
            assert(with.skip(n as int) =~= rest + seq!['0'] + after);
            assert(without.skip(n as int) =~= rest + after);
        } else {
            let rest = before.drop_first();
            if rest.len() > 0 {
                assert(rest.last() == before.last());
            }
            lemma_zero_tokens(rest, after);
            assert(with.drop_first() =~= rest + seq!['0'] + after);
            assert(without.drop_first() =~= rest + after);
        }
    }
}

/// A zero in front of a run of digits does not count.
pub proof fn leading_zeros_do_not_count(before: Seq<char>, after: Seq<char>, other: Seq<char>)
    requires
        before.len() > 0 ==> !is_digit(before.last()),
        after.len() > 0 && is_digit(after[0]),
    ensures
        natural_order(before + seq!['0'] + after, before + after) == Rank::Equal,
        natural_order(before + seq!['0'] + after, other) == natural_order(before + after, other),
        natural_order(other, before + seq!['0'] + after) == natural_order(other, before + after),
{
    lemma_zero_tokens(before, after);
    natural_equal_means_same_tokens(before + seq!['0'] + after, before + after);
}

/// Whether two texts can be put together without a run of digits of the one
/// going on in the other.
pub open spec fn are_apart(p: Seq<char>, q: Seq<char>) -> bool {
    p.len() == 0 || q.len() == 0 || !('0' <= p.last() <= '9') || !('0' <= q[0] <= '9')
}

proof fn lemma_tokens_concat(p: Seq<char>, q: Seq<char>)
    requires
        are_apart(p, q),
    ensures
        tokens(p + q) == tokens(p) + tokens(q),
    decreases p.len(),
{
    let all = p + q;
    if p.len() == 0 {
        assert(all =~= q);
        assert(tokens(p) + tokens(q) =~= tokens(q));
    } else {
        lemma_run_len(p);
        let n = run_len(p);
        if is_digit(p[0]) {
            assert forall|i: int| 0 <= i < n implies is_digit(#[trigger] all[i]) by {
                assert(is_digit(p[i]));
            }
            if n == p.len() && q.len() > 0 {
                assert(is_digit(p[n - 1]));
                assert(all[n as int] == q[0]);
            } else if n < p.len() {
                assert(all[n as int] == p[n as int]);
            }
            lemma_run_len_is(all, n);
            let rest = p.skip(n as int);
            if rest.len() > 0 {
                assert(rest.last() == p.last());
            }
            lemma_tokens_concat(rest, q);
            assert(all.take(n as int) =~= p.take(n as int));
            assert(all.skip(n as int) =~= rest + q);
            assert(tokens(all) =~= tokens(p) + tokens(q));
        } else {
            let rest = p.drop_first();
            if rest.len() > 0 {
                assert(rest.last() == p.last());
            }
            lemma_tokens_concat(rest, q);
            assert(all.drop_first() =~= rest + q);
            assert(tokens(all) =~= tokens(p) + tokens(q));
        }
    }
}

proof fn lemma_common_tokens(p: Seq<Token>, a: Seq<Token>, b: Seq<Token>)
    ensures
        lex_rank(token_rank(), p + a, p + b) == lex_rank(token_rank(), a, b),
    decreases p.len(),
{
    if p.len() > 0 {
        lemma_tokens_ordered();
        let r = p.drop_first();
        lemma_common_tokens(r, a, b);
        assert((p + a).drop_first() =~= r + a);
        assert((p + b).drop_first() =~= r + b);
        assert(token_rank()(p[0], p[0]) == Rank::Equal);
    } else {
        assert(p + a =~= a);
        assert(p + b =~= b);
    }
}

proof fn lemma_number_tokens(x: Seq<char>)
    requires
        x.len() > 0,
        all_digits(x),
    ensures
        tokens(x) == seq![Token::Number(digits_value(x))],
{
    lemma_run_len_is(x, x.len());
    assert(x.take(x.len() as int) =~= x);
    assert(is_digit(x[0]));
    assert(x.skip(x.len() as int) =~= Seq::<char>::empty());
    assert(tokens(Seq::<char>::empty()) =~= Seq::<Token>::empty());
    assert(tokens(x) =~= seq![Token::Number(digits_value(x))]);
}

proof fn lemma_symbol_tokens(c: char)
    requires
        !is_digit(c),
    ensures
        tokens(seq![c]) == seq![Token::Symbol(lower_char(c))],
{
    assert(seq![c].drop_first() =~= Seq::<char>::empty());
    assert(tokens(Seq::<char>::empty()) =~= Seq::<Token>::empty());
    assert(tokens(seq![c]) =~= seq![Token::Symbol(lower_char(c))]);
}

proof fn lemma_ranks_at(p: Seq<char>, x: Seq<char>, y: Seq<char>, s: Seq<char>, t: Seq<char>)
    requires
        are_apart(p, x + s),
        are_apart(p, y + t),
        are_apart(x, s),
        are_apart(y, t),
        tokens(x).len() == 1,
        tokens(y).len() == 1,
    ensures
        natural_order(p + x + s, p + y + t) == if token_rank()(tokens(x)[0], tokens(y)[0])
            != Rank::Equal {
            token_rank()(tokens(x)[0], tokens(y)[0])
        } else {
            natural_order(s, t)
        },
{
    assert(p + x + s =~= p + (x + s));
    assert(p + y + t =~= p + (y + t));
    lemma_tokens_concat(p, x + s);
    lemma_tokens_concat(p, y + t);
    lemma_tokens_concat(x, s);
    lemma_tokens_concat(y, t);
    lemma_common_tokens(tokens(p), tokens(x + s), tokens(y + t));
    assert((tokens(x) + tokens(s)).drop_first() =~= tokens(s));
    assert((tokens(y) + tokens(t)).drop_first() =~= tokens(t));
}

/// Where texts first differ in a run of digits, the numbers that the whole runs
/// write decide; runs that write the same number count as the same.
pub proof fn numbers_rank_by_value(
    p: Seq<char>,
    x: Seq<char>,
    y: Seq<char>,
    s: Seq<char>,
    t: Seq<char>,
)
    requires
        p.len() > 0 ==> !('0' <= p.last() <= '9'),
        x.len() > 0 && forall|i: int| 0 <= i < x.len() ==> '0' <= #[trigger] x[i] <= '9',
        y.len() > 0 && forall|i: int| 0 <= i < y.len() ==> '0' <= #[trigger] y[i] <= '9',
        s.len() > 0 ==> !('0' <= s[0] <= '9'),
        t.len() > 0 ==> !('0' <= t[0] <= '9'),
    ensures
        digits_value(x) < digits_value(y) ==> natural_order(p + x + s, p + y + t) == Rank::Less,
        digits_value(x) > digits_value(y) ==> natural_order(p + x + s, p + y + t) == Rank::Greater,
        digits_value(x) == digits_value(y) ==> natural_order(p + x + s, p + y + t)
            == natural_order(s, t),
{
    lemma_number_tokens(x);
    lemma_number_tokens(y);
    lemma_ranks_at(p, x, y, s, t);
}

/// Where texts first differ in a character that is no digit, its code point
/// decides, letters in lower case; letters that differ in case only count as the
/// same.
pub proof fn symbols_rank_by_code_point(
    p: Seq<char>,
    a: char,
    b: char,
    s: Seq<char>,
    t: Seq<char>,
)
    requires
        !('0' <= a <= '9'),
        !('0' <= b <= '9'),
    ensures
        (lower_char(a) as int) < (lower_char(b) as int) ==> natural_order(
            p + seq![a] + s,
            p + seq![b] + t,
        ) == Rank::Less,
        lower_char(a) as int > lower_char(b) as int ==> natural_order(
            p + seq![a] + s,
            p + seq![b] + t,
        ) == Rank::Greater,
        lower_char(a) == lower_char(b) ==> natural_order(p + seq![a] + s, p + seq![b] + t)
            == natural_order(s, t),
{
    lemma_symbol_tokens(a);
    lemma_symbol_tokens(b);
    assert((seq![a] + s)[0] == a && (seq![b] + t)[0] == b);
    lemma_ranks_at(p, seq![a], seq![b], s, t);
}

/// Against another character a run of digits stands where digits do.
pub proof fn numbers_rank_among_symbols(
    p: Seq<char>,
    x: Seq<char>,
    b: char,
    s: Seq<char>,
    t: Seq<char>,
)
    requires
        p.len() > 0 ==> !('0' <= p.last() <= '9'),
        x.len() > 0 && forall|i: int| 0 <= i < x.len() ==> '0' <= #[trigger] x[i] <= '9',
        s.len() > 0 ==> !('0' <= s[0] <= '9'),
        !('0' <= b <= '9'),
    ensures
        lower_char(b) as int > 0x39 ==> natural_order(p + x + s, p + seq![b] + t) == Rank::Less,
        (lower_char(b) as int) < 0x30 ==> natural_order(p + x + s, p + seq![b] + t)
            == Rank::Greater,
{
    lemma_number_tokens(x);
    lemma_symbol_tokens(b);
    assert((seq![b] + t)[0] == b);
    lemma_ranks_at(p, x, seq![b], s, t);
}

/// A text comes before those that go on from it.
pub proof fn beginnings_come_first(p: Seq<char>, q: Seq<char>)
    requires
        q.len() > 0,
        are_apart(p, q),
    ensures
        natural_order(p, p + q) == Rank::Less,
        natural_order(p, p) == Rank::Equal,
{
    lemma_tokens_concat(p, q);
    lemma_run_len(q);
    assert(tokens(q).len() > 0);
    let none = Seq::<Token>::empty();
    lemma_common_tokens(tokens(p), none, tokens(q));
    lemma_common_tokens(tokens(p), none, none);
    assert(tokens(p) + none =~= tokens(p));
}

} // verus!
