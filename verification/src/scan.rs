//! Scanning text by characters, with the rules of Rust's `str` methods:
//! Unicode white space, `trim`, `split_whitespace`, line splitting and
//! comparison with literals.

use vstd::prelude::*;

use crate::text::{
    all_digits, decimal_spec, digit_value, digits_value, hex_char, parse_i64, parse_i64_spec,
    parse_unsigned, parse_unsigned_spec, signed_decimal_spec,
};

verus! {

/// Unicode `White_Space`, the property that `char::is_whitespace` tests.
pub open spec fn is_white(c: char) -> bool {
    let u = c as u32;
    (0x09 <= u <= 0x0D) || u == 0x20 || u == 0x85 || u == 0xA0 || u == 0x1680 || (0x2000 <= u
        <= 0x200A) || u == 0x2028 || u == 0x2029 || u == 0x202F || u == 0x205F || u == 0x3000
}

/// Whether `c` is white space.
pub fn white(c: char) -> (r: bool)
    ensures
        r == is_white(c),
{
    let u = c as u32;
    (0x09 <= u && u <= 0x0D) || u == 0x20 || u == 0x85 || u == 0xA0 || u == 0x1680 || (0x2000 <= u
        && u <= 0x200A) || u == 0x2028 || u == 0x2029 || u == 0x202F || u == 0x205F || u == 0x3000
}

/// The characters of `s`.
pub fn chars_of(s: &str) -> (v: Vec<char>)
    ensures
        v@ == s@,
{
    let mut v: Vec<char> = Vec::new();
    for c in it: s.chars()
        invariant
            v@ == it.seq().take(it.index() as int),
    {
        v.push(c);
    }
    v
}


/// `s` without leading white space.
pub open spec fn trim_start(s: Seq<char>) -> Seq<char>
    decreases s.len(),
{
    if s.len() > 0 && is_white(s[0]) {
        trim_start(s.drop_first())
    } else {
        s
    }
}

/// `s` without trailing white space.
pub open spec fn trim_end(s: Seq<char>) -> Seq<char>
    decreases s.len(),
{
    if s.len() > 0 && is_white(s.last()) {
        trim_end(s.drop_last())
    } else {
        s
    }
}

/// `s` without white space at either end, as `str::trim` gives it.
pub open spec fn trim(s: Seq<char>) -> Seq<char> {
    trim_end(trim_start(s))
}

/// The bounds of `trim(cs[from..to])` within `cs`.
pub fn trim_range(cs: &Vec<char>, from: usize, to: usize) -> (r: (usize, usize))
    requires
        from <= to <= cs@.len(),
    ensures
        from <= r.0 <= r.1 <= to,
        cs@.subrange(r.0 as int, r.1 as int) == trim(cs@.subrange(from as int, to as int)),
{
    let mut a = from;
    while a < to && white(cs[a])
        invariant
            from <= a <= to <= cs@.len(),
            trim_start(cs@.subrange(from as int, to as int)) == trim_start(
                cs@.subrange(a as int, to as int),
            ),
        decreases to - a,
    {
        assert(cs@.subrange(a as int, to as int).drop_first() =~= cs@.subrange(a + 1, to as int));
        a = a + 1;
    }
    assert(trim_start(cs@.subrange(a as int, to as int)) == cs@.subrange(a as int, to as int));
    let mut b = to;
    while b > a && white(cs[b - 1])
        invariant
            from <= a <= b <= to <= cs@.len(),
            trim_end(cs@.subrange(a as int, to as int)) == trim_end(cs@.subrange(a as int, b as int)),
        decreases b - a,
    {
        assert(cs@.subrange(a as int, b as int).drop_last() =~= cs@.subrange(a as int, b - 1));
        b = b - 1;
    }
    (a, b)
}

/// First index at or after `i` whose character is not white space, or the length.
pub open spec fn skip_white(s: Seq<char>, i: int) -> int
    decreases s.len() - i,
{
    if i < 0 || i >= s.len() {
        s.len() as int
    } else if is_white(s[i]) {
        skip_white(s, i + 1)
    } else {
        i
    }
}

/// First index at or after `i` whose character is white space, or the length.
pub open spec fn word_end(s: Seq<char>, i: int) -> int
    decreases s.len() - i,
{
    if i < 0 || i >= s.len() {
        s.len() as int
    } else if is_white(s[i]) {
        i
    } else {
        word_end(s, i + 1)
    }
}

/// `skip_white` stops at the first character that is not white space.
pub proof fn lemma_skip_white(s: Seq<char>, i: int)
    requires
        0 <= i <= s.len(),
    ensures
        i <= skip_white(s, i) <= s.len(),
        skip_white(s, i) < s.len() ==> !is_white(s[skip_white(s, i)]),
        forall|j: int| i <= j < skip_white(s, i) ==> is_white(#[trigger] s[j]),
    decreases s.len() - i,
{
    if i < s.len() && is_white(s[i]) {
        lemma_skip_white(s, i + 1);
    }
}

/// `word_end` stops at the first white space.
pub proof fn lemma_word_end(s: Seq<char>, i: int)
    requires
        0 <= i <= s.len(),
    ensures
        i <= word_end(s, i) <= s.len(),
        word_end(s, i) < s.len() ==> is_white(s[word_end(s, i)]),
        forall|j: int| i <= j < word_end(s, i) ==> !is_white(#[trigger] s[j]),
    decreases s.len() - i,
{
    if i < s.len() && !is_white(s[i]) {
        lemma_word_end(s, i + 1);
    }
}

/// The white-space separated words of `s[i..]`, as `str::split_whitespace`
/// yields them.
pub open spec fn words_from(s: Seq<char>, i: int) -> Seq<Seq<char>>
    decreases s.len() - i,
    when 0 <= i <= s.len()
{
    let a = skip_white(s, i);
    proof {
        lemma_skip_white(s, i);
    }
    if a >= s.len() {
        seq![]
    } else {
        let b = word_end(s, a);
        proof {
            lemma_word_end(s, a);
            assert(b > a) by {
                if b == a {
                    assert(is_white(s[a]));
                }
            }
        }
        seq![s.subrange(a, b)] + words_from(s, b)
    }
}

/// The white-space separated words of `s`.
pub open spec fn words(s: Seq<char>) -> Seq<Seq<char>> {
    words_from(s, 0)
}

/// The views of a sequence of strings.
pub open spec fn views(v: Seq<String>) -> Seq<Seq<char>> {
    v.map_values(|w: String| w@)
}

/// The words of `s`, as `s.split_whitespace()` yields them.
pub fn split_words(s: &str) -> (r: Vec<String>)
    ensures
        views(r@) == words(s@),
{
    let cs = chars_of(s);
    let mut out: Vec<String> = Vec::new();
    let mut i: usize = 0;
    loop
        invariant
            cs@ == s@,
            i <= cs@.len(),
            views(out@) + words_from(cs@, i as int) == words(cs@),
        decreases cs@.len() - i,
    {
        let mut a = i;
        while a < cs.len() && white(cs[a])
            invariant
                i <= a <= cs@.len(),
                skip_white(cs@, i as int) == skip_white(cs@, a as int),
            decreases cs@.len() - a,
        {
            a = a + 1;
        }
        if a >= cs.len() {
            assert(words_from(cs@, i as int) == Seq::<Seq<char>>::empty());
            assert(views(out@) =~= views(out@) + words_from(cs@, i as int));
            return out;
        }
        let mut b = a;
        while b < cs.len() && !white(cs[b])
            invariant
                a <= b <= cs@.len(),
                word_end(cs@, a as int) == word_end(cs@, b as int),
            decreases cs@.len() - b,
        {
            b = b + 1;
        }
        proof {
            lemma_skip_white(cs@, i as int);
            lemma_word_end(cs@, a as int);
        }
        let w = s.substring_char(a, b).to_owned();
        let ghost before = out@;
        out.push(w);
        assert(views(out@) =~= views(before).push(cs@.subrange(a as int, b as int)));
        assert(views(out@) + words_from(cs@, b as int) =~= views(before) + words_from(
            cs@,
            i as int,
        ));
        i = b;
    }
}

/// Whether `cs[from..to]` is `lit`.
pub fn eq_lit(cs: &Vec<char>, from: usize, to: usize, lit: &str) -> (r: bool)
    requires
        from <= to <= cs@.len(),
    ensures
        r == (cs@.subrange(from as int, to as int) == lit@),
{
    let l = chars_of(lit);
    if to - from != l.len() {
        return false;
    }
    let mut k: usize = 0;
    while k < l.len()
        invariant
            to - from == l@.len(),
            from <= to <= cs@.len(),
            l@ == lit@,
            k <= l@.len(),
            forall|j: int| 0 <= j < k ==> cs@[from + j] == l@[j],
        decreases l@.len() - k,
    {
        if cs[from + k] != l[k] {
            assert(cs@.subrange(from as int, to as int)[k as int] != lit@[k as int]);
            return false;
        }
        k = k + 1;
    }
    assert(cs@.subrange(from as int, to as int) =~= lit@);
    true
}

/// Whether `cs[from..to]` begins with `lit`.
pub fn starts_with_lit(cs: &Vec<char>, from: usize, to: usize, lit: &str) -> (r: bool)
    requires
        from <= to <= cs@.len(),
    ensures
        r == (to - from >= lit@.len() && cs@.subrange(from as int, from + lit@.len()) == lit@),
{
    let l = chars_of(lit);
    if to - from < l.len() {
        return false;
    }
    eq_lit(cs, from, from + l.len(), lit)
}

/// Whether `s` is `lit`.
pub fn str_is(s: &str, lit: &str) -> (r: bool)
    ensures
        r == (s@ == lit@),
{
    let cs = chars_of(s);
    let r = eq_lit(&cs, 0, cs.len(), lit);
    assert(cs@.subrange(0, cs@.len() as int) =~= cs@);
    r
}

/// The byte an ASCII character stands for in a number; any other character
/// gives `0xFF`, which no number holds.
pub open spec fn ascii_of(c: char) -> u8 {
    if (c as u32) < 0x80 {
        (c as u32) as u8
    } else {
        0xFF
    }
}

pub open spec fn ascii_bytes(s: Seq<char>) -> Seq<u8> {
    s.map_values(|c: char| ascii_of(c))
}

/// `ascii_bytes(cs[from..to])`.
pub fn ascii_range(cs: &Vec<char>, from: usize, to: usize) -> (r: Vec<u8>)
    requires
        from <= to <= cs@.len(),
    ensures
        r@ == ascii_bytes(cs@.subrange(from as int, to as int)),
{
    let mut r: Vec<u8> = Vec::new();
    let mut k = from;
    while k < to
        invariant
            from <= k <= to <= cs@.len(),
            r@ == ascii_bytes(cs@.subrange(from as int, k as int)),
        decreases to - k,
    {
        let u = cs[k] as u32;
        let b: u8 = if u < 0x80 {
            u as u8
        } else {
            0xFF
        };
        assert(b == ascii_of(cs@[k as int]));
        assert(ascii_bytes(cs@.subrange(from as int, k + 1)) =~= ascii_bytes(
            cs@.subrange(from as int, k as int),
        ).push(b));
        r.push(b);
        k = k + 1;
    }
    r
}


/// `cs[from..to]` read as a decimal number of at most `max`, as `str::parse`
/// reads an unsigned integer type whose largest value is `max`.
pub fn parse_uint(cs: &Vec<char>, from: usize, to: usize, max: u64) -> (r: Option<u64>)
    requires
        from <= to <= cs@.len(),
    ensures
        r is Some <==> parse_unsigned_spec(ascii_bytes(cs@.subrange(from as int, to as int)), 10, max as int) is Some,
        r is Some ==> r->0 == parse_unsigned_spec(ascii_bytes(cs@.subrange(from as int, to as int)), 10, max as int)->0,
{
    let b = ascii_range(cs, from, to);
    assert(b@.subrange(0, b@.len() as int) =~= b@);
    parse_unsigned(&b, 0, b.len(), 10, max)
}

/// `cs[from..to]` read as an `i64`, as `str::parse` reads it.
pub fn parse_int(cs: &Vec<char>, from: usize, to: usize) -> (r: Option<i64>)
    requires
        from <= to <= cs@.len(),
    ensures
        r is Some <==> parse_i64_spec(ascii_bytes(cs@.subrange(from as int, to as int))) is Some,
        r is Some ==> r->0 == parse_i64_spec(ascii_bytes(cs@.subrange(from as int, to as int)))->0,
{
    let b = ascii_range(cs, from, to);
    assert(b@.subrange(0, b@.len() as int) =~= b@);
    parse_i64(&b, 0, b.len())
}

/// First index at or after `i` that holds `c`, or the length.
pub open spec fn find_char(s: Seq<char>, c: char, i: int) -> int
    decreases s.len() - i,
{
    if i < 0 || i >= s.len() {
        s.len() as int
    } else if s[i] == c {
        i
    } else {
        find_char(s, c, i + 1)
    }
}

/// `find_char` stops at the first `c`.
pub proof fn lemma_find_char(s: Seq<char>, c: char, i: int)
    requires
        0 <= i <= s.len(),
    ensures
        i <= find_char(s, c, i) <= s.len(),
        find_char(s, c, i) < s.len() ==> s[find_char(s, c, i)] == c,
        forall|j: int| i <= j < find_char(s, c, i) ==> #[trigger] s[j] != c,
    decreases s.len() - i,
{
    if i < s.len() && s[i] != c {
        lemma_find_char(s, c, i + 1);
    }
}

/// First index in `cs[from..to]` that holds `c`, or `to`.
pub fn find_in(cs: &Vec<char>, from: usize, to: usize, c: char) -> (r: usize)
    requires
        from <= to <= cs@.len(),
    ensures
        from <= r <= to,
        r == from + find_char(cs@.subrange(from as int, to as int), c, 0),
{
    let ghost t = cs@.subrange(from as int, to as int);
    let mut k = from;
    while k < to && cs[k] != c
        invariant
            from <= k <= to <= cs@.len(),
            t == cs@.subrange(from as int, to as int),
            find_char(t, c, 0) == find_char(t, c, k - from),
        decreases to - k,
    {
        k = k + 1;
    }
    k
}


/// `a` comes before `b` in the order of `str`: lexicographic by code point.
pub open spec fn lex_lt(a: Seq<char>, b: Seq<char>) -> bool
    decreases a.len(),
{
    if a.len() == 0 {
        b.len() > 0
    } else if b.len() == 0 {
        false
    } else if a[0] != b[0] {
        (a[0] as u32) < (b[0] as u32)
    } else {
        lex_lt(a.drop_first(), b.drop_first())
    }
}

/// No string comes before itself.
pub proof fn lemma_lex_irreflexive(a: Seq<char>)
    ensures
        !lex_lt(a, a),
    decreases a.len(),
{
    if a.len() > 0 {
        lemma_lex_irreflexive(a.drop_first());
    }
}

/// The order of strings is transitive.
pub proof fn lemma_lex_transitive(a: Seq<char>, b: Seq<char>, c: Seq<char>)
    requires
        lex_lt(a, b),
        lex_lt(b, c),
    ensures
        lex_lt(a, c),
    decreases a.len(),
{
    if a.len() > 0 && b.len() > 0 && c.len() > 0 && a[0] == b[0] && b[0] == c[0] {
        lemma_lex_transitive(a.drop_first(), b.drop_first(), c.drop_first());
    }
}

/// Of two different strings, one comes before the other.
pub proof fn lemma_lex_total(a: Seq<char>, b: Seq<char>)
    requires
        a != b,
    ensures
        lex_lt(a, b) || lex_lt(b, a),
    decreases a.len(),
{
    if a.len() > 0 && b.len() > 0 {
        if a[0] == b[0] {
            if a.drop_first() == b.drop_first() {
                assert(a =~= b) by {
                    assert(a.drop_first().len() == b.drop_first().len());
                    assert forall|i: int| 0 <= i < a.len() implies a[i] == b[i] by {
                        if i > 0 {
                            assert(a[i] == a.drop_first()[i - 1]);
                            assert(b[i] == b.drop_first()[i - 1]);
                        }
                    }
                }
            }
            lemma_lex_total(a.drop_first(), b.drop_first());
        } else {
            vstd::utf8::char_u32_cast(a[0], a[0] as u32);
            vstd::utf8::char_u32_cast(b[0], b[0] as u32);
            assert((a[0] as u32) != (b[0] as u32));
        }
    } else if a.len() == 0 && b.len() == 0 {
        assert(a =~= b);
    }
}

/// Whether `a` comes before `b` in the order of `str`.
pub fn str_lt(a: &str, b: &str) -> (r: bool)
    ensures
        r == lex_lt(a@, b@),
{
    let ca = chars_of(a);
    let cb = chars_of(b);
    let mut i: usize = 0;
    assert(ca@.skip(0) =~= ca@);
    assert(cb@.skip(0) =~= cb@);
    while i < ca.len() && i < cb.len() && ca[i] == cb[i]
        invariant
            i <= ca@.len(),
            i <= cb@.len(),
            ca@ == a@,
            cb@ == b@,
            lex_lt(ca@, cb@) == lex_lt(ca@.skip(i as int), cb@.skip(i as int)),
        decreases ca@.len() - i,
    {
        assert(ca@.skip(i as int).drop_first() =~= ca@.skip(i + 1));
        assert(cb@.skip(i as int).drop_first() =~= cb@.skip(i + 1));
        i = i + 1;
    }
    if i == ca.len() {
        i < cb.len()
    } else if i == cb.len() {
        false
    } else {
        (ca[i] as u32) < (cb[i] as u32)
    }
}


/// A character of decimal notation.
pub open spec fn is_digit(c: char) -> bool {
    0x30 <= (c as u32) <= 0x39
}

proof fn lemma_hex_char_digit(d: int)
    requires
        0 <= d < 10,
    ensures
        is_digit(hex_char(d)),
        (hex_char(d) as u32) == 0x30 + d,
        ascii_of(hex_char(d)) == 0x30 + d,
{
    let c = hex_char(d);
    assert(c == ((0x30 + d) as char));
    assert((c as u32) == 0x30 + d);
}

/// Decimal notation consists of digits, and reads back as the number.
pub proof fn lemma_decimal_reads_back(n: nat)
    ensures
        decimal_spec(n).len() > 0,
        forall|j: int| 0 <= j < decimal_spec(n).len() ==> is_digit(#[trigger] decimal_spec(n)[j]),
        ascii_bytes(decimal_spec(n)).len() == decimal_spec(n).len(),
        all_digits(ascii_bytes(decimal_spec(n)), 10),
        digits_value(ascii_bytes(decimal_spec(n)), 10) == n,
        ascii_bytes(decimal_spec(n))[0] != 0x2B,
        ascii_bytes(decimal_spec(n))[0] != 0x2D,
    decreases n,
{
    let s = decimal_spec(n);
    let b = ascii_bytes(s);
    if n < 10 {
        lemma_hex_char_digit(n as int);
        assert(b.drop_last() =~= Seq::<u8>::empty());
        assert(digit_value(b.last(), 10) == Some(n as int));
        assert(digits_value(b.drop_last(), 10) == 0);
        assert(digits_value(b, 10) == digits_value(b.drop_last(), 10) * 10 + digit_value(
            b.last(),
            10,
        )->0);
    } else {
        lemma_decimal_reads_back(n / 10);
        lemma_hex_char_digit((n % 10) as int);
        let p = decimal_spec(n / 10);
        assert(s == p + seq![hex_char((n % 10) as int)]);
        assert(b.drop_last() =~= ascii_bytes(p));
        assert(b.last() == 0x30 + n % 10);
        assert(digit_value(b.last(), 10) == Some((n % 10) as int));
        assert(digits_value(b, 10) == digits_value(b.drop_last(), 10) * 10 + digit_value(
            b.last(),
            10,
        )->0);
        assert((n / 10) * 10 + n % 10 == n);
        assert forall|j: int| 0 <= j < s.len() implies is_digit(#[trigger] s[j]) by {
            if j < p.len() {
                assert(s[j] == p[j]);
            }
        }
        assert forall|j: int| 0 <= j < b.len() implies digit_value(#[trigger] b[j], 10) is Some by {
            if j < p.len() {
                assert(b[j] == ascii_bytes(p)[j]);
            }
        }
        assert(b[0] == ascii_bytes(p)[0]);
    }
}

/// An unsigned number's decimal notation reads back as the number.
pub proof fn lemma_unsigned_reads_back(n: nat, max: int)
    requires
        n <= max,
    ensures
        parse_unsigned_spec(ascii_bytes(decimal_spec(n)), 10, max) == Some(n as int),
{
    lemma_decimal_reads_back(n);
}

/// An `i64`'s decimal notation reads back as the number.
pub proof fn lemma_signed_reads_back(v: i64)
    ensures
        parse_i64_spec(ascii_bytes(signed_decimal_spec(v as int))) == Some(v as int),
        signed_decimal_spec(v as int).len() > 0,
        forall|j: int|
            0 <= j < signed_decimal_spec(v as int).len() ==> #[trigger] signed_decimal_spec(
                v as int,
            )[j] == '-' || is_digit(signed_decimal_spec(v as int)[j]),
        is_digit(signed_decimal_spec(v as int).last()),
{
    if v < 0 {
        let m = (-v) as nat;
        lemma_decimal_reads_back(m);
        let s = signed_decimal_spec(v as int);
        assert(s == seq!['-'] + decimal_spec(m));
        assert(ascii_bytes(s).drop_first() =~= ascii_bytes(decimal_spec(m)));
        assert(ascii_bytes(s)[0] == 0x2D);
        assert forall|j: int| 0 <= j < s.len() implies #[trigger] s[j] == '-' || is_digit(s[j]) by {
            if j > 0 {
                assert(s[j] == decimal_spec(m)[j - 1]);
            }
        }
        assert(s.last() == decimal_spec(m).last());
    } else {
        lemma_decimal_reads_back(v as nat);
    }
}

} // verus!
