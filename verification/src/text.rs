//! Text helpers shared by the rest of the library, specified over characters.

use vstd::prelude::*;

use crate::order::{lex_rank, int_rank, Rank};

verus! {

/// Whether `c` has the Unicode `White_Space` property.
pub open spec fn is_space(c: char) -> bool {
    ||| '\u{9}' <= c <= '\u{d}'
    ||| c == ' '
    ||| c == '\u{85}'
    ||| c == '\u{a0}'
    ||| c == '\u{1680}'
    ||| '\u{2000}' <= c <= '\u{200a}'
    ||| c == '\u{2028}'
    ||| c == '\u{2029}'
    ||| c == '\u{202f}'
    ||| c == '\u{205f}'
    ||| c == '\u{3000}'
}

/// `s` without its leading whitespace.
pub open spec fn trim_start(s: Seq<char>) -> Seq<char>
    decreases s.len(),
{
    if s.len() > 0 && is_space(s[0]) {
        trim_start(s.drop_first())
    } else {
        s
    }
}

/// `s` without its trailing whitespace.
pub open spec fn trim_end(s: Seq<char>) -> Seq<char>
    decreases s.len(),
{
    if s.len() > 0 && is_space(s.last()) {
        trim_end(s.drop_last())
    } else {
        s
    }
}

/// `s` without its leading and trailing whitespace.
pub open spec fn trimmed(s: Seq<char>) -> Seq<char> {
    trim_end(trim_start(s))
}

/// Whether `c` is an ASCII decimal digit.
pub open spec fn is_digit(c: char) -> bool {
    '0' <= c <= '9'
}

/// The ASCII lower-case form of `c`; other characters stand for themselves.
pub open spec fn lower_char(c: char) -> char {
    if 'A' <= c <= 'Z' {
        (c as u8 + 32) as char
    } else {
        c
    }
}

/// The ASCII upper-case form of `c`; other characters stand for themselves.
pub open spec fn upper_char(c: char) -> char {
    if 'a' <= c <= 'z' {
        (c as u8 - 32) as char
    } else {
        c
    }
}

/// `s` with every ASCII letter in lower case.
pub open spec fn lowered(s: Seq<char>) -> Seq<char> {
    s.map_values(|c: char| lower_char(c))
}

/// `s` with every ASCII letter in upper case.
pub open spec fn uppered(s: Seq<char>) -> Seq<char> {
    s.map_values(|c: char| upper_char(c))
}

/// The texts that a sequence of strings holds.
pub open spec fn texts(v: Seq<String>) -> Seq<Seq<char>> {
    v.map_values(|s: String| s@)
}

/// The pieces into which the occurrences of `sep` cut `s`: one more than there
/// are occurrences, some of them possibly empty.
pub open spec fn pieces(s: Seq<char>, sep: char) -> Seq<Seq<char>>
    decreases s.len(),
{
    if s.len() == 0 {
        seq![Seq::empty()]
    } else {
        let before = pieces(s.drop_last(), sep);
        if s.last() == sep {
            before.push(Seq::empty())
        } else {
            before.drop_last().push(before.last().push(s.last()))
        }
    }
}

/// `String::push` appends the given character to the end of the string.
pub assume_specification [String::push](s: &mut String, c: char)
    ensures
        final(s)@ == old(s)@.push(c),
;

/// The characters of `s`, in order.
pub fn chars_of(s: &str) -> (v: Vec<char>)
    ensures
        v@ == s@,
{
    let mut v: Vec<char> = Vec::new();
    for c in it: s.chars()
        invariant
            v@ == it.seq().take(it.index()),
            it.seq() == s@,
    {
        v.push(c);
    }
    v
}

/// The text that the characters of `v` from `from` up to `to` spell.
pub fn text_of(v: &Vec<char>, from: usize, to: usize) -> (s: String)
    requires
        from <= to <= v@.len(),
    ensures
        s@ == v@.subrange(from as int, to as int),
{
    let mut s = String::new();
    let mut i: usize = from;
    while i < to
        invariant
            from <= i <= to <= v@.len(),
            s@ == v@.subrange(from as int, i as int),
        decreases to - i,
    {
        s.push(v[i]);
        i = i + 1;
    }
    s
}

/// Whether `c` is whitespace.
pub fn white_space(c: char) -> (res: bool)
    ensures
        res == is_space(c),
{
    ('\u{9}' <= c && c <= '\u{d}') || c == ' ' || c == '\u{85}' || c == '\u{a0}' || c == '\u{1680}'
        || ('\u{2000}' <= c && c <= '\u{200a}') || c == '\u{2028}' || c == '\u{2029}'
        || c == '\u{202f}' || c == '\u{205f}' || c == '\u{3000}'
}

/// Whether `c` is an ASCII decimal digit.
pub fn digit(c: char) -> (res: bool)
    ensures
        res == is_digit(c),
{
    '0' <= c && c <= '9'
}

/// The ASCII lower-case form of `c`.
pub fn to_lower_char(c: char) -> (res: char)
    ensures
        res == lower_char(c),
{
    if 'A' <= c && c <= 'Z' {
        (c as u8 + 32) as char
    } else {
        c
    }
}

/// The ASCII upper-case form of `c`.
pub fn to_upper_char(c: char) -> (res: char)
    ensures
        res == upper_char(c),
{
    if 'a' <= c && c <= 'z' {
        (c as u8 - 32) as char
    } else {
        c
    }
}

proof fn lemma_trim_start_step(s: Seq<char>, i: int)
    requires
        0 <= i < s.len(),
        is_space(s[i]),
    ensures
        trim_start(s.skip(i)) == trim_start(s.skip(i + 1)),
{
    assert(s.skip(i).drop_first() =~= s.skip(i + 1));
}

proof fn lemma_trim_end(s: Seq<char>)
    ensures
        trim_end(s).len() <= s.len(),
        trim_end(s) == s.take(trim_end(s).len() as int),
        trim_end(s).len() > 0 ==> !is_space(trim_end(s).last()),
        trim_end(s).len() == 0 ==> forall|i: int| 0 <= i < s.len() ==> is_space(#[trigger] s[i]),
    decreases s.len(),
{
    if s.len() > 0 && is_space(s.last()) {
        let r = s.drop_last();
        lemma_trim_end(r);
        assert(s.take(trim_end(r).len() as int) =~= r.take(trim_end(r).len() as int));
        if trim_end(s).len() == 0 {
            assert forall|i: int| 0 <= i < s.len() implies is_space(#[trigger] s[i]) by {
                if i < r.len() {
                    assert(r[i] == s[i]);
                }
            }
        }
    } else {
        assert(s.take(s.len() as int) =~= s);
    }
}

proof fn lemma_trim_start(s: Seq<char>)
    ensures
        trim_start(s).len() > 0 ==> !is_space(trim_start(s)[0]),
    decreases s.len(),
{
    if s.len() > 0 && is_space(s[0]) {
        lemma_trim_start(s.drop_first());
    }
}

/// Trimming a trimmed text changes nothing.
pub proof fn trimming_is_idempotent(s: Seq<char>)
    ensures
        trimmed(trimmed(s)) == trimmed(s),
{
    let u = trim_start(s);
    let t = trim_end(u);
    lemma_trim_start(s);
    lemma_trim_end(u);
    if t.len() > 0 {
        assert(t[0] == u[0]);
    }
    assert(trim_start(t) == t);
    assert(trim_end(t) == t);
}

proof fn lemma_lower_keeps_space(c: char)
    ensures
        is_space(lower_char(c)) == is_space(c),
        lower_char(lower_char(c)) == lower_char(c),
{
}

/// Whether letters are lowered before or after trimming makes no difference.
pub proof fn lowering_commutes_with_trimming(s: Seq<char>)
    ensures
        trimmed(lowered(s)) == lowered(trimmed(s)),
        lowered(lowered(s)) == lowered(s),
{
    lemma_lower_trim_start(s);
    lemma_lower_trim_end(trim_start(s));
    assert forall|i: int| 0 <= i < s.len() implies lowered(lowered(s))[i] == lowered(s)[i] by {
        lemma_lower_keeps_space(s[i]);
    }
    assert(lowered(lowered(s)) =~= lowered(s));
}

proof fn lemma_lower_trim_start(s: Seq<char>)
    ensures
        trim_start(lowered(s)) == lowered(trim_start(s)),
    decreases s.len(),
{
    if s.len() > 0 {
        lemma_lower_keeps_space(s[0]);
        assert(lowered(s).drop_first() =~= lowered(s.drop_first()));
        lemma_lower_trim_start(s.drop_first());
    }
}

proof fn lemma_lower_trim_end(s: Seq<char>)
    ensures
        trim_end(lowered(s)) == lowered(trim_end(s)),
    decreases s.len(),
{
    if s.len() > 0 {
        lemma_lower_keeps_space(s.last());
        assert(lowered(s).drop_last() =~= lowered(s.drop_last()));
        assert(lowered(s).last() == lower_char(s.last()));
        lemma_lower_trim_end(s.drop_last());
    }
}

/// A text in lower case without surrounding whitespace stays as it is when it
/// is trimmed and lowered again.
pub proof fn words_are_stable(s: Seq<char>)
    ensures
        lowered(trimmed(lowered(trimmed(s)))) == lowered(trimmed(s)),
{
    trimming_is_idempotent(s);
    lowering_commutes_with_trimming(trimmed(s));
}

/// `s` without its leading and trailing whitespace.
pub fn trim(s: &str) -> (res: String)
    ensures
        res@ == trimmed(s@),
{
    let v = chars_of(s);
    let n: usize = v.len();
    let mut i: usize = 0;
    assert(v@.skip(0) =~= v@);
    while i < n && white_space(v[i])
        invariant
            i <= n == v@.len(),
            trim_start(v@) == trim_start(v@.skip(i as int)),
        decreases n - i,
    {
        proof {
            lemma_trim_start_step(v@, i as int);
        }
        i = i + 1;
    }
    let ghost rest = v@.skip(i as int);
    assert(trim_start(v@) == rest);
    let mut j: usize = n;
    assert(rest =~= v@.subrange(i as int, n as int));
    while i < j && white_space(v[j - 1])
        invariant
            i <= j <= n == v@.len(),
            trim_end(rest) == trim_end(v@.subrange(i as int, j as int)),
        decreases j - i,
    {
        let ghost cur = v@.subrange(i as int, j as int);
        assert(cur.drop_last() =~= v@.subrange(i as int, j - 1));
        assert(cur.last() == v@[j - 1]);
        j = j - 1;
    }
    text_of(&v, i, j)
}

/// `s` with every ASCII letter in lower case.
pub fn to_lower(s: &str) -> (res: String)
    ensures
        res@ == lowered(s@),
{
    let mut res = String::new();
    for c in it: s.chars()
        invariant
            res@ == lowered(it.seq().take(it.index())),
            it.seq() == s@,
    {
        assert(it.seq().take(it.index() + 1) =~= it.seq().take(it.index()).push(c));
        res.push(to_lower_char(c));
        assert(res@ =~= lowered(it.seq().take(it.index() + 1)));
    }
    assert(s@.take(s@.len() as int) =~= s@);
    res
}

/// `s` with every ASCII letter in upper case.
pub fn to_upper(s: &str) -> (res: String)
    ensures
        res@ == uppered(s@),
{
    let mut res = String::new();
    for c in it: s.chars()
        invariant
            res@ == uppered(it.seq().take(it.index())),
            it.seq() == s@,
    {
        assert(it.seq().take(it.index() + 1) =~= it.seq().take(it.index()).push(c));
        res.push(to_upper_char(c));
        assert(res@ =~= uppered(it.seq().take(it.index() + 1)));
    }
    assert(s@.take(s@.len() as int) =~= s@);
    res
}

/// Cuts `s` at the occurrences of `sep`.
pub fn split_text(s: &str, sep: char) -> (out: Vec<String>)
    ensures
        texts(out@) == pieces(s@, sep),
        out@.len() > 0,
{
    let mut out: Vec<String> = Vec::new();
    let mut piece = String::new();
    let ghost mut done: Seq<char> = Seq::empty();
    for c in it: s.chars()
        invariant
            it.seq() == s@,
            done == it.seq().take(it.index()),
            texts(out@).push(piece@) == pieces(done, sep),
    {
        let ghost before = texts(out@).push(piece@);
        proof {
            assert(it.seq().take(it.index() + 1) =~= done.push(c));
            assert(done.push(c).drop_last() =~= done);
            assert(before.drop_last() =~= texts(out@));
            done = done.push(c);
        }
        if c == sep {
            out.push(piece);
            piece = String::new();
            assert(texts(out@) =~= before);
        } else {
            piece.push(c);
        }
    }
    assert(done =~= s@);
    let ghost all = texts(out@).push(piece@);
    out.push(piece);
    assert(texts(out@) =~= all);
    out
}

/// Whether `a` and `b` are the same text.
pub fn same_text(a: &str, b: &str) -> (res: bool)
    ensures
        res == (a@ == b@),
{
    a.to_owned() == b.to_owned()
}

/// Whether `s` ends with `suffix`.
pub open spec fn finishes_with(s: Seq<char>, suffix: Seq<char>) -> bool {
    s.len() >= suffix.len() && s.skip(s.len() - suffix.len()) == suffix
}

/// Whether `s` ends with `suffix`.
pub fn ends_with(s: &Vec<char>, suffix: &str) -> (res: bool)
    ensures
        res == finishes_with(s@, suffix@),
{
    let t = chars_of(suffix);
    if s.len() < t.len() {
        return false;
    }
    let n: usize = s.len();
    let start: usize = n - t.len();
    let mut i: usize = 0;
    while i < t.len()
        invariant
            i <= t@.len(),
            start + t@.len() == n == s@.len(),
            t@ == suffix@,
            forall|k: int| 0 <= k < i ==> s@[start + k] == t@[k],
        decreases t@.len() - i,
    {
        if s[start + i] != t[i] {
            assert(s@.skip(s@.len() - suffix@.len())[i as int] != suffix@[i as int]);
            return false;
        }
        i = i + 1;
    }
    assert(s@.skip(start as int) =~= t@);
    true
}

/// The path that leads to `part` inside `dir`.
pub open spec fn joined(dir: Seq<char>, part: Seq<char>) -> Seq<char> {
    if part.len() > 0 && part[0] == '/' {
        part
    } else if dir.len() == 0 || dir.last() == '/' {
        dir + part
    } else {
        dir + seq!['/'] + part
    }
}

/// The path that leads to `part` inside `dir`; an absolute `part` stands for
/// itself.
pub fn join(dir: &str, part: &str) -> (res: String)
    ensures
        res@ == joined(dir@, part@),
{
    let d = chars_of(dir);
    let p = chars_of(part);
    if p.len() > 0 && p[0] == '/' {
        return part.to_owned();
    }
    let mut res = dir.to_owned();
    if d.len() > 0 && d[d.len() - 1] != '/' {
        res.push('/');
    }
    res.append(part);
    assert(res@ =~= joined(dir@, part@));
    res
}

/// `s` with every occurrence of `from` replaced by `to`.
pub open spec fn replaced(s: Seq<char>, from: char, to: char) -> Seq<char> {
    s.map_values(
        |c: char|
            if c == from {
                to
            } else {
                c
            },
    )
}

/// `s` with every occurrence of `from` replaced by `to`.
pub fn replace_char(s: &str, from: char, to: char) -> (res: String)
    ensures
        res@ == replaced(s@, from, to),
{
    let mut res = String::new();
    for c in it: s.chars()
        invariant
            res@ == replaced(it.seq().take(it.index()), from, to),
            it.seq() == s@,
    {
        assert(it.seq().take(it.index() + 1) =~= it.seq().take(it.index()).push(c));
        res.push(
            if c == from {
                to
            } else {
                c
            },
        );
        assert(res@ =~= replaced(it.seq().take(it.index() + 1), from, to));
    }
    assert(s@.take(s@.len() as int) =~= s@);
    res
}

/// Whether `s` begins with `c`.
pub fn starts_with_char(s: &str, c: char) -> (res: bool)
    ensures
        res == (s@.len() > 0 && s@[0] == c),
{
    s.unicode_len() > 0 && s.get_char(0) == c
}

/// The rank of two characters by code point.
pub open spec fn char_rank() -> spec_fn(char, char) -> Rank {
    |a: char, b: char| int_rank(a as int, b as int)
}

/// The rank of two texts by their characters, in dictionary order of code
/// points.
pub open spec fn text_rank(a: Seq<char>, b: Seq<char>) -> Rank {
    lex_rank(char_rank(), a, b)
}

/// The dictionary rank of two texts.
pub fn rank_text(a: &str, b: &str) -> (res: Rank)
    ensures
        res == text_rank(a@, b@),
{
    let x = chars_of(a);
    let y = chars_of(b);
    let mut i: usize = 0;
    assert(x@.skip(0) =~= x@ && y@.skip(0) =~= y@);
    while i < x.len() && i < y.len()
        invariant
            i <= x@.len(),
            i <= y@.len(),
            x@ == a@,
            y@ == b@,
            text_rank(a@, b@) == text_rank(x@.skip(i as int), y@.skip(i as int)),
        decreases x@.len() - i,
    {
        assert(x@.skip(i as int).drop_first() =~= x@.skip(i + 1));
        assert(y@.skip(i as int).drop_first() =~= y@.skip(i + 1));
        if x[i] < y[i] {
            return Rank::Less;
        }
        if y[i] < x[i] {
            return Rank::Greater;
        }
        i = i + 1;
    }
    if i < y.len() {
        Rank::Less
    } else if i < x.len() {
        Rank::Greater
    } else {
        Rank::Equal
    }
}

/// The number that a run of decimal digits writes.
pub open spec fn digits_value(s: Seq<char>) -> nat
    decreases s.len(),
{
    if s.len() == 0 {
        0
    } else {
        digits_value(s.drop_last()) * 10 + (s.last() as nat - '0' as nat) as nat
    }
}

/// Whether a text consists of decimal digits.
pub open spec fn all_digits(s: Seq<char>) -> bool {
    forall|i: int| 0 <= i < s.len() ==> is_digit(#[trigger] s[i])
}

/// `s` without a leading plus sign.
pub open spec fn without_plus(s: Seq<char>) -> Seq<char> {
    if s.len() > 0 && s[0] == '+' {
        s.drop_first()
    } else {
        s
    }
}

/// The number below 2^32 that a text writes in decimal, with or without a plus
/// sign.
pub open spec fn small_number(s: Seq<char>) -> Option<u32> {
    let digits = without_plus(s);
    if digits.len() > 0 && all_digits(digits) && digits_value(digits) <= u32::MAX {
        Some(digits_value(digits) as u32)
    } else {
        None
    }
}

proof fn lemma_digits_grow(s: Seq<char>, n: int)
    requires
        0 <= n <= s.len(),
    ensures
        digits_value(s.take(n)) <= digits_value(s),
    decreases s.len(),
{
    if n < s.len() {
        lemma_digits_grow(s.drop_last(), n);
        assert(s.drop_last().take(n) =~= s.take(n));
    } else {
        assert(s.take(n) =~= s);
    }
}

/// The number below 2^32 that a text writes in decimal, with or without a plus
/// sign.
pub fn parse_small_number(s: &str) -> (res: Option<u32>)
    ensures
        res == small_number(s@),
{
    let v = chars_of(s);
    let from: usize = if v.len() > 0 && v[0] == '+' {
        1
    } else {
        0
    };
    let ghost digits = v@.skip(from as int);
    assert(digits =~= without_plus(s@));
    if v.len() == from {
        return None;
    }
    let mut value: u64 = 0;
    let mut i: usize = from;
    assert(digits.take(0) =~= Seq::<char>::empty());
    while i < v.len()
        invariant
            from <= i <= v@.len(),
            from <= 1,
            digits == v@.skip(from as int),
            digits == without_plus(s@),
            forall|k: int| 0 <= k < i - from ==> is_digit(#[trigger] digits[k]),
            value == digits_value(digits.take(i - from)),
            value <= u32::MAX,
        decreases v@.len() - i,
    {
        let c = v[i];
        assert(digits[i - from] == c);
        if !digit(c) {
            assert(!is_digit(digits[i - from]));
            return None;
        }
        assert(digits.take(i - from + 1).drop_last() =~= digits.take(i - from));
        value = value * 10 + (c as u64 - 0x30);
        proof {
            lemma_digits_grow(digits, i - from + 1);
        }
        if value > u32::MAX as u64 {
            return None;
        }
        i = i + 1;
    }
    assert(digits.take(digits.len() as int) =~= digits);
    Some(value as u32)
}

/// The digit that writes `n`, which is below ten.
pub open spec fn digit_char(n: int) -> char {
    ('0' as u8 + n) as char
}

/// The decimal digits of `n`.
pub open spec fn decimal(n: nat) -> Seq<char>
    decreases n,
{
    if n < 10 {
        seq![digit_char(n as int)]
    } else {
        decimal(n / 10).push(digit_char((n % 10) as int))
    }
}

/// The decimal digits of `n`.
pub fn decimal_text(n: u64) -> (res: String)
    ensures
        res@ == decimal(n as nat),
    decreases n,
{
    let digit = (0x30u8 + (n % 10) as u8) as char;
    if n < 10 {
        let mut res = String::new();
        res.push(digit);
        assert(res@ =~= decimal(n as nat));
        res
    } else {
        let mut res = decimal_text(n / 10);
        res.push(digit);
        res
    }
}

/// Trimming cuts whitespace off both ends, and nothing else: what is cut off is
/// whitespace, and what is left neither begins nor ends with any.
pub proof fn trimming_cuts_whitespace_only(s: Seq<char>) -> (ends: (int, int))
    ensures
        0 <= ends.0 <= ends.1 <= s.len(),
        trimmed(s) == s.subrange(ends.0, ends.1),
        forall|i: int| 0 <= i < ends.0 ==> is_space(#[trigger] s[i]),
        forall|i: int| ends.1 <= i < s.len() ==> is_space(#[trigger] s[i]),
        trimmed(s).len() > 0 ==> !is_space(trimmed(s)[0]) && !is_space(trimmed(s).last()),
{
    let u = trim_start(s);
    let n = lemma_trim_start_cut(s);
    lemma_trim_start(s);
    lemma_trim_end(u);
    let m = trim_end(u).len() as int;
    assert(trimmed(s) =~= s.subrange(n, n + m));
    lemma_trim_end_cut(u);
    assert forall|i: int| n + m <= i < s.len() implies is_space(#[trigger] s[i]) by {
        assert(u[i - n] == s[i]);
    }
    if m > 0 {
        assert(trimmed(s)[0] == u[0]);
    }
    (n, n + m)
}

proof fn lemma_trim_start_cut(s: Seq<char>) -> (n: int)
    ensures
        0 <= n <= s.len(),
        trim_start(s) == s.skip(n),
        forall|i: int| 0 <= i < n ==> is_space(#[trigger] s[i]),
    decreases s.len(),
{
    if s.len() > 0 && is_space(s[0]) {
        let r = s.drop_first();
        let n = lemma_trim_start_cut(r);
        assert(r.skip(n) =~= s.skip(n + 1));
        assert forall|i: int| 0 <= i < n + 1 implies is_space(#[trigger] s[i]) by {
            if i > 0 {
                assert(r[i - 1] == s[i]);
            }
        }
        n + 1
    } else {
        assert(s.skip(0) =~= s);
        0
    }
}

proof fn lemma_trim_end_cut(s: Seq<char>)
    ensures
        forall|i: int| trim_end(s).len() <= i < s.len() ==> is_space(#[trigger] s[i]),
    decreases s.len(),
{
    if s.len() > 0 && is_space(s.last()) {
        let r = s.drop_last();
        lemma_trim_end_cut(r);
        assert forall|i: int| trim_end(s).len() <= i < s.len() implies is_space(#[trigger] s[i]) by {
            if i < r.len() {
                assert(r[i] == s[i]);
            }
        }
    }
}

/// A text with whitespace put around it trims to the same as before.
pub proof fn whitespace_around_does_not_count(s: Seq<char>, c: char)
    requires
        is_space(c),
    ensures
        trimmed(seq![c] + s) == trimmed(s),
        trimmed(s.push(c)) == trimmed(s),
    decreases s.len(),
{
    assert((seq![c] + s).drop_first() =~= s);
    if s.len() > 0 && is_space(s[0]) {
        whitespace_around_does_not_count(s.drop_first(), c);
        assert(s.push(c).drop_first() =~= s.drop_first().push(c));
    } else if s.len() == 0 {
        assert(s.push(c).drop_first() =~= s);
        assert(trim_start(s.push(c)) == trim_start(s));
    } else {
        assert(trim_start(s.push(c)) == s.push(c));
        assert(s.push(c).drop_last() =~= s);
    }
}

/// Whitespace is told by its code point.
pub proof fn whitespace_code_points(c: char)
    ensures
        is_space(c) <==> {
            ||| 0x9 <= c as int <= 0xd
            ||| c as int == 0x20
            ||| c as int == 0x85
            ||| c as int == 0xa0
            ||| c as int == 0x1680
            ||| 0x2000 <= c as int <= 0x200a
            ||| c as int == 0x2028
            ||| c as int == 0x2029
            ||| c as int == 0x202f
            ||| c as int == 0x205f
            ||| c as int == 0x3000
        },
        is_digit(c) <==> 0x30 <= c as int <= 0x39,
{
}

/// Changing letter case keeps the length and changes the 26 ASCII letters only,
/// each by the same distance.
pub proof fn letter_case_is_ascii(s: Seq<char>, i: int)
    requires
        0 <= i < s.len(),
    ensures
        lowered(s).len() == s.len(),
        uppered(s).len() == s.len(),
        lowered(s)[i] as int == s[i] as int + if 0x41 <= s[i] as int <= 0x5a {
            32int
        } else {
            0int
        },
        uppered(s)[i] as int == s[i] as int - if 0x61 <= s[i] as int <= 0x7a {
            32int
        } else {
            0int
        },
{
}

/// A text without the separator is one piece, and a separator between two texts
/// cuts them apart: nothing of either is lost or changed.
pub proof fn separators_cut(a: Seq<char>, b: Seq<char>, sep: char)
    ensures
        !a.contains(sep) ==> pieces(a, sep) == seq![a],
        pieces(a + seq![sep] + b, sep) == pieces(a, sep) + pieces(b, sep),
        pieces(a, sep).len() > 0,
    decreases a.len() + b.len(),
{
    lemma_pieces_nonempty(a, sep);
    if a.len() > 0 {
        let r = a.drop_last();
        separators_cut(r, Seq::empty(), sep);
        if !a.contains(sep) {
            assert forall|i: int| 0 <= i < r.len() implies r[i] != sep by {
                assert(a[i] == r[i]);
                assert(a.contains(a[i]));
            }
            assert(a.last() != sep) by {
                assert(a.contains(a[a.len() - 1]));
            }
            assert(pieces(a, sep) =~= seq![r.push(a.last())]);
            assert(r.push(a.last()) =~= a);
        }
    } else {
        assert(a =~= Seq::empty());
    }
    let whole = a + seq![sep] + b;
    if b.len() == 0 {
        assert(whole.drop_last() =~= a);
        assert(pieces(whole, sep) =~= pieces(a, sep) + pieces(b, sep));
    } else {
        separators_cut(a, b.drop_last(), sep);
        lemma_pieces_nonempty(b.drop_last(), sep);
        assert(whole.drop_last() =~= a + seq![sep] + b.drop_last());
        assert(pieces(whole, sep) =~= pieces(a, sep) + pieces(b, sep));
    }
}

proof fn lemma_pieces_nonempty(s: Seq<char>, sep: char)
    ensures
        pieces(s, sep).len() > 0,
    decreases s.len(),
{
    if s.len() > 0 {
        lemma_pieces_nonempty(s.drop_last(), sep);
    }
}

/// A relative path joined to a directory lies below it, one separator apart; an
/// absolute one stands for itself, and no directory adds nothing.
pub proof fn joined_paths_lie_below(dir: Seq<char>, part: Seq<char>)
    ensures
        part.len() > 0 && part[0] == '/' ==> joined(dir, part) == part,
        !(part.len() > 0 && part[0] == '/') && dir.len() == 0 ==> joined(dir, part) == part,
        !(part.len() > 0 && part[0] == '/') && dir.len() > 0 && dir.last() == '/' ==> joined(
            dir,
            part,
        ) == dir + part,
        !(part.len() > 0 && part[0] == '/') && dir.len() > 0 && dir.last() != '/' ==> joined(
            dir,
            part,
        ) == dir.push('/') + part,
{
    if dir.len() == 0 {
        assert(dir + part =~= part);
    }
    assert(dir + seq!['/'] + part =~= dir.push('/') + part);
}

/// Replacing a character touches its occurrences only.
pub proof fn replacing_touches_occurrences_only(s: Seq<char>, from: char, to: char, i: int)
    requires
        0 <= i < s.len(),
    ensures
        replaced(s, from, to).len() == s.len(),
        s[i] == from ==> replaced(s, from, to)[i] == to,
        s[i] != from ==> replaced(s, from, to)[i] == s[i],
{
}

/// Whether a text ends with another says how it comes about.
pub proof fn endings_are_what_comes_last(s: Seq<char>, start: Seq<char>, suffix: Seq<char>)
    ensures
        finishes_with(start + suffix, suffix),
        finishes_with(s, suffix) ==> s == s.take(s.len() - suffix.len()) + suffix,
{
    assert((start + suffix).skip((start + suffix).len() - suffix.len()) =~= suffix);
    if finishes_with(s, suffix) {
        assert(s =~= s.take(s.len() - suffix.len()) + s.skip(s.len() - suffix.len()));
    }
}

/// In dictionary order the first difference decides, by code point, and a text
/// comes before those that go on from it.
pub proof fn first_difference_decides(
    common: Seq<char>,
    a: char,
    b: char,
    x: Seq<char>,
    y: Seq<char>,
)
    ensures
        (a as int) < (b as int) ==> text_rank(common + seq![a] + x, common + seq![b] + y)
            == Rank::Less,
        text_rank(common, common + seq![a] + x) == Rank::Less,
        text_rank(common, common) == Rank::Equal,
    decreases common.len(),
{
    let l = common + seq![a] + x;
    let r = common + seq![b] + y;
    if common.len() > 0 {
        let c = common.drop_first();
        first_difference_decides(c, a, b, x, y);
        assert(l.drop_first() =~= c + seq![a] + x);
        assert(r.drop_first() =~= c + seq![b] + y);
        assert(l[0] == common[0] && r[0] == common[0]);
    } else {
        assert(l[0] == a && r[0] == b);
    }
}

/// Each digit behind a number counts its value in ones and ten times what stands
/// before it.
pub proof fn digits_count_by_place(s: Seq<char>, d: char)
    requires
        '0' <= d <= '9',
    ensures
        digits_value(Seq::empty()) == 0,
        digits_value(s.push(d)) == 10 * digits_value(s) + (d as int - 0x30),
{
    assert(s.push(d).drop_last() =~= s);
}

proof fn lemma_decimal_digits(n: nat)
    ensures
        decimal(n).len() > 0,
        all_digits(decimal(n)),
        digits_value(decimal(n)) == n,
        n > 0 ==> decimal(n)[0] != '0',
    decreases n,
{
    if n >= 10 {
        lemma_decimal_digits(n / 10);
        let before = decimal(n / 10);
        let d = digit_char((n % 10) as int);
        assert(d as int == 0x30 + n % 10);
        digits_count_by_place(before, d);
        assert(all_digits(decimal(n)));
    } else {
        let d = digit_char(n as int);
        assert(d as int == 0x30 + n);
        assert(decimal(n) =~= Seq::<char>::empty().push(d));
        digits_count_by_place(Seq::empty(), d);
    }
}

/// What is written in decimal reads back as the same number, with or without a
/// plus sign, where it fits; and what is written has no superfluous zero.
pub proof fn decimals_read_back(n: nat)
    ensures
        digits_value(decimal(n)) == n,
        n > 0 ==> decimal(n)[0] != '0',
        n <= u32::MAX ==> small_number(decimal(n)) == Some(n as u32),
        n <= u32::MAX ==> small_number(seq!['+'] + decimal(n)) == Some(n as u32),
        n > u32::MAX ==> small_number(decimal(n)) is None,
{
    lemma_decimal_digits(n);
    let s = decimal(n);
    assert(is_digit(s[0]));
    assert((seq!['+'] + s).drop_first() =~= s);
}

/// A text that holds anything but digits, behind a plus sign at most, is no
/// number; one of digits only is, where it fits.
pub proof fn only_digits_are_numbers(s: Seq<char>, i: int)
    requires
        0 <= i < s.len(),
    ensures
        !('0' <= s[i] <= '9') && (i > 0 || s[0] != '+') ==> small_number(s) is None,
        (forall|k: int| 0 <= k < s.len() ==> '0' <= #[trigger] s[k] <= '9') && digits_value(s)
            <= u32::MAX ==> small_number(s) == Some(digits_value(s) as u32),
        small_number(seq!['+']) is None,
        small_number(Seq::empty()) is None,
{
    let digits = without_plus(s);
    if !is_digit(s[i]) && (i > 0 || s[0] != '+') {
        let k = if s[0] == '+' {
            i - 1
        } else {
            i
        };
        assert(digits[k] == s[i]);
        assert(!is_digit(digits[k]));
    }
    if forall|k: int| 0 <= k < s.len() ==> '0' <= #[trigger] s[k] <= '9' {
        assert('0' <= s[0] <= '9');
        assert(all_digits(digits));
    }
    assert(seq!['+'].drop_first() =~= Seq::<char>::empty());
}

/// Texts of strings are taken one by one.
pub proof fn texts_are_taken_one_by_one(v: Seq<String>, i: int)
    requires
        0 <= i < v.len(),
    ensures
        texts(v).len() == v.len(),
        texts(v)[i] == v[i]@,
{
}

} // verus!
