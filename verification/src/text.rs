//! Decimal numbers in text.

use vstd::prelude::*;

verus! {

/// Unicode white space.
pub open spec fn is_space_spec(c: char) -> bool {
    let u = c as u32;
    ||| 0x9 <= u <= 0xD
    ||| u == 0x20
    ||| u == 0x85
    ||| u == 0xA0
    ||| u == 0x1680
    ||| 0x2000 <= u <= 0x200A
    ||| u == 0x2028
    ||| u == 0x2029
    ||| u == 0x202F
    ||| u == 0x205F
    ||| u == 0x3000
}

pub fn is_space(c: char) -> (r: bool)
    ensures
        r == is_space_spec(c),
{
    let u: u32 = c as u32;
    (u >= 0x9 && u <= 0xD) || u == 0x20 || u == 0x85 || u == 0xA0 || u == 0x1680 || (u >= 0x2000
        && u <= 0x200A) || u == 0x2028 || u == 0x2029 || u == 0x202F || u == 0x205F || u == 0x3000
}

/// `t` is `s` without the white space at both ends.
pub open spec fn trims_to(s: Seq<char>, t: Seq<char>) -> bool {
    exists|a: int, b: int|
        0 <= a <= b <= s.len() && t == #[trigger] s.subrange(a, b) && (forall|i: int|
            0 <= i < a ==> is_space_spec(#[trigger] s[i])) && (forall|i: int|
            b <= i < s.len() ==> is_space_spec(#[trigger] s[i])) && (a < b ==> !is_space_spec(s[a])
            && !is_space_spec(s[b - 1]))
}

pub open spec fn is_digit(c: char) -> bool {
    '0' <= c <= '9'
}

pub open spec fn all_digits(s: Seq<char>) -> bool {
    forall|i: int| 0 <= i < s.len() ==> is_digit(#[trigger] s[i])
}

/// The number that the digits of `s` write.
pub open spec fn value_of(s: Seq<char>) -> int
    decreases s.len(),
{
    if s.len() == 0 {
        0
    } else {
        10 * value_of(s.drop_last()) + (s.last() as int - '0' as int)
    }
}

/// `s` without a plus sign in front.
pub open spec fn unsigned_part(s: Seq<char>) -> Seq<char> {
    if s.len() > 0 && s[0] == '+' {
        s.skip(1)
    } else {
        s
    }
}

/// The number that `s` writes: decimal digits, with or without a plus sign in
/// front, and no more than 64 bits hold.
pub open spec fn number_in(s: Seq<char>) -> Option<u64> {
    let t = unsigned_part(s);
    if t.len() > 0 && all_digits(t) && value_of(t) <= u64::MAX {
        Some(value_of(t) as u64)
    } else {
        None
    }
}

proof fn lemma_value_grows(s: Seq<char>, n: int)
    requires
        0 <= n <= s.len(),
        all_digits(s),
    ensures
        0 <= value_of(s.take(n)) <= value_of(s),
    decreases s.len(),
{
    if n == s.len() {
        assert(s.take(n) =~= s);
        if n > 0 {
            let init = s.drop_last();
            assert(all_digits(init)) by {
                assert forall|i: int| 0 <= i < init.len() implies is_digit(#[trigger] init[i]) by {
                    assert(is_digit(s[i]));
                }
            }
            lemma_value_grows(init, init.len() as int);
            assert(init.take(init.len() as int) =~= init);
            assert(is_digit(s[s.len() - 1]));
        }
    } else {
        let init = s.drop_last();
        assert(all_digits(init)) by {
            assert forall|i: int| 0 <= i < init.len() implies is_digit(#[trigger] init[i]) by {
                assert(is_digit(s[i]));
            }
        }
        lemma_value_grows(init, n);
        assert(init.take(n) =~= s.take(n));
        assert(is_digit(s[s.len() - 1]));
    }
}

/// The number that characters `from .. to` of `s` write.
fn parse_number(s: &str, from: usize, to: usize) -> (r: Option<u64>)
    requires
        from <= to <= s@.len(),
    ensures
        r == number_in(s@.subrange(from as int, to as int)),
{
    let ghost whole = s@.subrange(from as int, to as int);
    let ghost t = unsigned_part(whole);
    let mut i: usize = from;
    if from < to {
        if s.get_char(from) == '+' {
            i = from + 1;
        }
    }
    let ghost start = i as int;
    proof {
        assert(t =~= s@.subrange(start, to as int));
    }
    if i >= to {
        return None;
    }
    let mut value: u64 = 0;
    proof {
        assert(t.take(0) =~= Seq::empty());
    }
    while i < to
        invariant
            from <= start <= i <= to <= s@.len(),
            whole == s@.subrange(from as int, to as int),
            t == unsigned_part(whole),
            t == s@.subrange(start, to as int),
            value == value_of(t.take(i - start)),
            forall|k: int| 0 <= k < i - start ==> is_digit(#[trigger] t[k]),
        decreases to - i,
    {
        let c: char = s.get_char(i);
        proof {
            assert(t[i - start] == c);
            assert(t.take(i + 1 - start).drop_last() =~= t.take(i - start));
            assert(t.take(i + 1 - start).last() == c);
        }
        if c < '0' || c > '9' {
            proof {
                assert(!is_digit(t[i - start]));
            }
            return None;
        }
        let digit: u64 = c as u64 - '0' as u64;
        if value > (u64::MAX - digit) / 10 {
            proof {
                assert(value_of(t.take(i + 1 - start)) > u64::MAX);
                if all_digits(t) {
                    lemma_value_grows(t, i + 1 - start);
                }
            }
            return None;
        }
        value = value * 10 + digit;
        i = i + 1;
    }
    proof {
        assert(t.take(i - start) =~= t);
    }
    Some(value)
}

/// The number that `s` writes, as it stands.
pub fn parse_plain(s: &str) -> (r: Option<u64>)
    ensures
        r == number_in(s@),
{
    let n: usize = s.unicode_len();
    proof {
        assert(s@.subrange(0, n as int) =~= s@);
    }
    parse_number(s, 0, n)
}

/// The number that `s` writes, white space at both ends aside.
pub fn parse_trimmed(s: &str) -> (r: Option<u64>)
    ensures
        exists|t: Seq<char>| #[trigger] trims_to(s@, t) && r == number_in(t),
{
    let n: usize = s.unicode_len();
    let mut a: usize = 0;
    let mut more: bool = a < n;
    if more {
        more = is_space(s.get_char(a));
    }
    while more
        invariant
            n == s@.len(),
            a <= n,
            more ==> a < n && is_space_spec(s@[a as int]),
            !more ==> a == n || !is_space_spec(s@[a as int]),
            forall|i: int| 0 <= i < a ==> is_space_spec(#[trigger] s@[i]),
        decreases n - a,
    {
        a = a + 1;
        more = a < n;
        if more {
            more = is_space(s.get_char(a));
        }
    }
    let mut b: usize = n;
    more = b > a;
    if more {
        more = is_space(s.get_char(b - 1));
    }
    while more
        invariant
            n == s@.len(),
            a <= b <= n,
            a < n ==> !is_space_spec(s@[a as int]),
            more ==> a < b && is_space_spec(s@[b - 1]),
            !more ==> a == b || !is_space_spec(s@[b - 1]),
            forall|i: int| 0 <= i < a ==> is_space_spec(#[trigger] s@[i]),
            forall|i: int| b <= i < n ==> is_space_spec(#[trigger] s@[i]),
        decreases b,
    {
        b = b - 1;
        more = b > a;
        if more {
            more = is_space(s.get_char(b - 1));
        }
    }
    let r = parse_number(s, a, b);
    proof {
        let t = s@.subrange(a as int, b as int);
        assert(trims_to(s@, t));
    }
    r
}

/// What is left of a text without the white space at both ends is one text.
pub proof fn law_trimming_is_unique(s: Seq<char>, t: Seq<char>, u: Seq<char>)
    requires
        trims_to(s, t),
        trims_to(s, u),
    ensures
        t == u,
{
    let (a, b) = choose|a: int, b: int|
        0 <= a <= b <= s.len() && t == #[trigger] s.subrange(a, b) && (forall|i: int|
            0 <= i < a ==> is_space_spec(#[trigger] s[i])) && (forall|i: int|
            b <= i < s.len() ==> is_space_spec(#[trigger] s[i])) && (a < b ==> !is_space_spec(s[a])
            && !is_space_spec(s[b - 1]));
    let (c, d) = choose|c: int, d: int|
        0 <= c <= d <= s.len() && u == #[trigger] s.subrange(c, d) && (forall|i: int|
            0 <= i < c ==> is_space_spec(#[trigger] s[i])) && (forall|i: int|
            d <= i < s.len() ==> is_space_spec(#[trigger] s[i])) && (c < d ==> !is_space_spec(s[c])
            && !is_space_spec(s[d - 1]));
    if a < b {
        assert(!is_space_spec(s[a]) && !is_space_spec(s[b - 1]));
        assert(c <= a && b <= d);
        assert(a == c) by {
            if c < a {
                assert(is_space_spec(s[c]));
            }
        }
        assert(b == d) by {
            if b < d {
                assert(is_space_spec(s[d - 1]));
            }
        }
    } else if c < d {
        assert(!is_space_spec(s[c]));
        if c < a {
            assert(is_space_spec(s[c]));
        } else {
            assert(is_space_spec(s[c]));
        }
    } else {
        assert(t =~= u);
    }
}

/// The digit of `d`, for `d` below ten.
pub open spec fn digit_char(d: int) -> char {
    ('0' as int + d) as char
}

/// `n` in decimal, without leading zeros.
pub open spec fn decimal_of(n: int) -> Seq<char>
    decreases n,
{
    if n < 10 {
        seq![digit_char(n)]
    } else {
        decimal_of(n / 10).push(digit_char(n % 10))
    }
}

/// The text of one digit.
fn digit_text(d: u64) -> (r: &'static str)
    requires
        d < 10,
    ensures
        r@ == seq![digit_char(d as int)],
{
    proof {
        reveal_strlit("0");
        reveal_strlit("1");
        reveal_strlit("2");
        reveal_strlit("3");
        reveal_strlit("4");
        reveal_strlit("5");
        reveal_strlit("6");
        reveal_strlit("7");
        reveal_strlit("8");
        reveal_strlit("9");
    }
    if d == 0 {
        "0"
    } else if d == 1 {
        "1"
    } else if d == 2 {
        "2"
    } else if d == 3 {
        "3"
    } else if d == 4 {
        "4"
    } else if d == 5 {
        "5"
    } else if d == 6 {
        "6"
    } else if d == 7 {
        "7"
    } else if d == 8 {
        "8"
    } else {
        "9"
    }
}

/// Appends `n` in decimal.
pub fn append_decimal(out: &mut String, n: u64)
    ensures
        final(out)@ == old(out)@ + decimal_of(n as int),
    decreases n,
{
    let ghost orig = out@;
    if n >= 10 {
        append_decimal(out, n / 10);
    }
    out.append(digit_text(n % 10));
    proof {
        assert(out@ =~= orig + decimal_of(n as int));
    }
}

/// Writing a number in decimal and reading it gives the number back.
pub proof fn law_decimal_roundtrip(n: int)
    requires
        0 <= n <= u64::MAX,
    ensures
        number_in(decimal_of(n)) == Some(n as u64),
{
    lemma_decimal(n);
    let d = decimal_of(n);
    assert(is_digit(d[0]));
    assert(unsigned_part(d) == d);
}

proof fn lemma_decimal(n: int)
    requires
        0 <= n,
    ensures
        all_digits(decimal_of(n)),
        decimal_of(n).len() > 0,
        value_of(decimal_of(n)) == n,
    decreases n,
{
    let d = decimal_of(n);
    if n < 10 {
        assert(d.drop_last() =~= Seq::<char>::empty());
        assert(value_of(d.drop_last()) == 0);
    } else {
        lemma_decimal(n / 10);
        let init = decimal_of(n / 10);
        assert(d.drop_last() =~= init);
        assert forall|i: int| 0 <= i < d.len() implies is_digit(#[trigger] d[i]) by {
            if i < init.len() {
                assert(is_digit(init[i]));
            }
        }
    }
}

} // verus!
