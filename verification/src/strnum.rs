//! Decimal rendering and parsing of the small numbers that appear in frame
//! file names, directory components and the metadata sidecar.

use vstd::prelude::*;

verus! {

/// The character for one decimal digit.
pub open spec fn digit_char(d: int) -> char {
    if d == 0 {
        '0'
    } else if d == 1 {
        '1'
    } else if d == 2 {
        '2'
    } else if d == 3 {
        '3'
    } else if d == 4 {
        '4'
    } else if d == 5 {
        '5'
    } else if d == 6 {
        '6'
    } else if d == 7 {
        '7'
    } else if d == 8 {
        '8'
    } else {
        '9'
    }
}

/// The numeric value of a digit character, or 10 for any other character.
pub open spec fn char_digit(c: char) -> int {
    if c == '0' {
        0
    } else if c == '1' {
        1
    } else if c == '2' {
        2
    } else if c == '3' {
        3
    } else if c == '4' {
        4
    } else if c == '5' {
        5
    } else if c == '6' {
        6
    } else if c == '7' {
        7
    } else if c == '8' {
        8
    } else if c == '9' {
        9
    } else {
        10
    }
}

pub open spec fn is_digit(c: char) -> bool {
    char_digit(c) < 10
}

/// The shortest decimal rendering of `n` (so `0` renders as "0").
pub open spec fn dec_digits(n: nat) -> Seq<char>
    decreases n,
{
    if n < 10 {
        seq![digit_char(n as int)]
    } else {
        dec_digits(n / 10).push(digit_char((n % 10) as int))
    }
}

/// A run of `k` zero characters.
pub open spec fn zeros(k: nat) -> Seq<char> {
    Seq::new(k, |i: int| '0')
}

/// `n` rendered in decimal, left-padded with zeros to at least `width` characters.
pub open spec fn padded_dec(n: nat, width: nat) -> Seq<char> {
    if dec_digits(n).len() < width {
        zeros((width - dec_digits(n).len()) as nat) + dec_digits(n)
    } else {
        dec_digits(n)
    }
}

/// The value of a digit string read most-significant first.
pub open spec fn digits_value(s: Seq<char>) -> int
    decreases s.len(),
{
    if s.len() == 0 {
        0
    } else {
        digits_value(s.drop_last()) * 10 + char_digit(s.last())
    }
}

pub open spec fn all_digits(s: Seq<char>) -> bool {
    forall|i: int| 0 <= i < s.len() ==> is_digit(#[trigger] s[i])
}

pub(crate) fn digit_str(d: u32) -> (r: &'static str)
    requires
        d < 10,
    ensures
        r@ =~= seq![digit_char(d as int)],
        r@.len() == 1,
{
    proof {
        reveal_strlit("0");
        reveal_strlit("1");
        reveal_strlit("2");
        reveal_strlit("3");
        reveal_strlit("4");
        reveal_strlit("5");
        reveal_strlit("6");
        reveal_strlit("7");
        reveal_strlit("8");
        reveal_strlit("9");
    }
    if d == 0 {
        "0"
    } else if d == 1 {
        "1"
    } else if d == 2 {
        "2"
    } else if d == 3 {
        "3"
    } else if d == 4 {
        "4"
    } else if d == 5 {
        "5"
    } else if d == 6 {
        "6"
    } else if d == 7 {
        "7"
    } else if d == 8 {
        "8"
    } else {
        "9"
    }
}

/// Renders `n` in decimal with no padding.
pub fn u32_to_string(n: u32) -> (r: String)
    ensures
        r@ == dec_digits(n as nat),
    decreases n,
{
    if n < 10 {
        String::from_str(digit_str(n))
    } else {
        let mut s = u32_to_string(n / 10);
        s.append(digit_str(n % 10));
        s
    }
}

/// Renders `n` in decimal with no padding.
pub fn u64_to_string(n: u64) -> (r: String)
    ensures
        r@ == dec_digits(n as nat),
    decreases n,
{
    if n < 10 {
        String::from_str(digit_str(n as u32))
    } else {
        let mut s = u64_to_string(n / 10);
        s.append(digit_str((n % 10) as u32));
        s
    }
}

/// Renders `n` in decimal, left-padded with zeros to at least `width` characters.
pub fn zero_padded(n: u32, width: usize) -> (r: String)
    ensures
        r@ == padded_dec(n as nat, width as nat),
{
    let digits = u32_to_string(n);
    let digit_count = digits.as_str().unicode_len();
    if digit_count >= width {
        return digits;
    }
    let mut s = String::new();
    let mut i: usize = 0;
    while i < width - digit_count
        invariant
            i <= width - digit_count,
            digit_count == dec_digits(n as nat).len(),
            digit_count < width,
            s@ =~= zeros(i as nat),
        decreases width - digit_count - i,
    {
        proof {
            reveal_strlit("0");
        }
        s.append("0");
        proof {
            assert(s@ =~= zeros((i + 1) as nat));
        }
        i += 1;
    }
    s.append(digits.as_str());
    proof {
        assert(s@ =~= padded_dec(n as nat, width as nat));
    }
    s
}

/// How many digits `dec_digits` uses for `n`.
pub proof fn lemma_dec_digits_len(n: nat)
    ensures
        dec_digits(n).len() >= 1,
        n < 10 ==> dec_digits(n).len() == 1,
        dec_digits(n).len() == dec_digits(n / 10).len() + 1 || n < 10,
    decreases n,
{
    if n >= 10 {
        lemma_dec_digits_len(n / 10);
    }
}

/// The decimal rendering is made of digits and parses back to `n`.
pub proof fn lemma_dec_digits_value(n: nat)
    ensures
        all_digits(dec_digits(n)),
        digits_value(dec_digits(n)) == n,
    decreases n,
{
    if n < 10 {
        let s = dec_digits(n);
        assert(s =~= seq![digit_char(n as int)]);
        assert(s.drop_last() =~= Seq::<char>::empty());
        assert(digits_value(s) == digits_value(s.drop_last()) * 10 + char_digit(s.last()));
        assert(char_digit(digit_char(n as int)) == n);
    } else {
        lemma_dec_digits_value(n / 10);
        let s = dec_digits(n);
        assert(s.drop_last() =~= dec_digits(n / 10));
        assert forall|i: int| 0 <= i < s.len() implies is_digit(#[trigger] s[i]) by {
            if i < s.len() - 1 {
                assert(s[i] == dec_digits(n / 10)[i]);
            }
        }
    }
}

/// Zero padding does not change the value a digit string parses to.
pub proof fn lemma_padded_dec_value(n: nat, width: nat)
    ensures
        all_digits(padded_dec(n, width)),
        digits_value(padded_dec(n, width)) == n,
        padded_dec(n, width).len() >= width,
{
    lemma_dec_digits_value(n);
    lemma_dec_digits_len(n);
    let d = dec_digits(n);
    if d.len() < width {
        let k = (width - d.len()) as nat;
        lemma_zeros_prefix_value(k, d);
    }
}

/// Prepending zeros to a digit string keeps its parsed value.
proof fn lemma_zeros_prefix_value(k: nat, d: Seq<char>)
    ensures
        digits_value(zeros(k) + d) == digits_value(d),
        all_digits(d) ==> all_digits(zeros(k) + d),
    decreases d.len(),
{
    if d.len() == 0 {
        lemma_zeros_value(k);
        assert(zeros(k) + d =~= zeros(k));
    } else {
        lemma_zeros_prefix_value(k, d.drop_last());
        assert((zeros(k) + d).drop_last() =~= zeros(k) + d.drop_last());
        assert((zeros(k) + d).last() == d.last());
    }
}

proof fn lemma_zeros_value(k: nat)
    ensures
        digits_value(zeros(k)) == 0,
        all_digits(zeros(k)),
    decreases k,
{
    if k > 0 {
        lemma_zeros_value((k - 1) as nat);
        assert(zeros(k).drop_last() =~= zeros((k - 1) as nat));
        assert(zeros(k).last() == '0');
    }
}

/// Parses a non-empty all-digit string as a `u32`; `None` when some character
/// is not a digit, the string is empty, or the value does not fit.
pub fn parse_u32(s: &str) -> (r: Option<u32>)
    ensures
        match r {
            Some(v) => all_digits(s@) && s@.len() > 0 && digits_value(s@) == v as int,
            None => s@.len() == 0 || !all_digits(s@) || digits_value(s@) > u32::MAX,
        },
{
    let n = s.unicode_len();
    if n == 0 {
        return None;
    }
    let mut value: u64 = 0;
    let mut i: usize = 0;
    while i < n
        invariant
            0 < n == s@.len(),
            i <= n,
            forall|j: int| 0 <= j < i ==> is_digit(#[trigger] s@[j]),
            value == digits_value(s@.subrange(0, i as int)),
            value <= 0xFFFF_FFFFu64,
        decreases n - i,
    {
        let c = s.get_char(i);
        let d: u32 = match c {
            '0' => 0,
            '1' => 1,
            '2' => 2,
            '3' => 3,
            '4' => 4,
            '5' => 5,
            '6' => 6,
            '7' => 7,
            '8' => 8,
            '9' => 9,
            _ => {
                proof {
                    assert(!is_digit(s@[i as int]));
                }
                return None;
            },
        };
        proof {
            assert(s@.subrange(0, i + 1).drop_last() =~= s@.subrange(0, i as int));
            assert(s@.subrange(0, i + 1).last() == s@[i as int]);
        }
        let next = value * 10 + (d as u64);
        if next > 0xFFFF_FFFFu64 {
            proof {
                if all_digits(s@) {
                    lemma_digits_value_monotone(s@, i + 1);
                }
            }
            return None;
        }
        value = next;
        i += 1;
    }
    proof {
        assert(s@.subrange(0, n as int) =~= s@);
    }
    Some(value as u32)
}

/// A digit string's value never drops as more digits are read: once a prefix
/// is over `u32::MAX`, the whole string is too.
proof fn lemma_digits_value_monotone(s: Seq<char>, i: int)
    requires
        0 <= i <= s.len(),
        all_digits(s),
    ensures
        digits_value(s) >= digits_value(s.subrange(0, i)) >= 0,
    decreases s.len() - i,
{
    lemma_digits_value_nonneg(s.subrange(0, i));
    if i < s.len() {
        lemma_digits_value_monotone(s, i + 1);
        assert(s.subrange(0, i + 1).drop_last() =~= s.subrange(0, i));
        assert(digits_value(s.subrange(0, i + 1)) == digits_value(s.subrange(0, i)) * 10
            + char_digit(s[i]));
    } else {
        assert(s.subrange(0, i) =~= s);
    }
}

proof fn lemma_digits_value_nonneg(s: Seq<char>)
    ensures
        digits_value(s) >= 0,
    decreases s.len(),
{
    if s.len() > 0 {
        lemma_digits_value_nonneg(s.drop_last());
    }
}

pub open spec fn pow10(k: nat) -> nat
    decreases k,
{
    if k == 0 {
        1
    } else {
        10 * pow10((k - 1) as nat)
    }
}

/// A number below `pow10(w)` renders in at most `w` digits (for `w >= 1`).
pub proof fn lemma_dec_digits_len_bound(n: nat, w: nat)
    requires
        w >= 1,
        n < pow10(w),
    ensures
        dec_digits(n).len() <= w,
    decreases n,
{
    if n >= 10 {
        lemma_pow10_positive((w - 1) as nat);
        lemma_dec_digits_len_bound(n / 10, (w - 1) as nat);
    }
}

/// The powers of ten behind the fixed field widths: four-digit years,
/// five-digit frame indices, ten-digit sidecar fields.
pub proof fn lemma_pow10_values()
    ensures
        pow10(0) == 1,
        pow10(1) == 10,
        pow10(2) == 100,
        pow10(3) == 1000,
        pow10(4) == 10000,
        pow10(5) == 100000,
        pow10(6) == 1000000,
        pow10(7) == 10000000,
        pow10(8) == 100000000,
        pow10(9) == 1000000000,
        pow10(10) == 10000000000,
{
    assert(pow10(0) == 1);
    assert(pow10(1) == 10);
    assert(pow10(2) == 100);
    assert(pow10(3) == 1000);
    assert(pow10(4) == 10000);
    assert(pow10(5) == 100000);
    assert(pow10(6) == 1000000);
    assert(pow10(7) == 10000000);
    assert(pow10(8) == 100000000);
    assert(pow10(9) == 1000000000);
    assert(pow10(10) == 10000000000);
}

pub proof fn lemma_pow10_positive(k: nat)
    ensures
        pow10(k) >= 1,
    decreases k,
{
    if k > 0 {
        lemma_pow10_positive((k - 1) as nat);
    }
}

/// A digit string of length `w` has a value below `pow10(w)`.
pub proof fn lemma_digits_value_bound(s: Seq<char>)
    requires
        all_digits(s),
    ensures
        0 <= digits_value(s) < pow10(s.len()),
    decreases s.len(),
{
    if s.len() == 0 {
    } else {
        let p = s.drop_last();
        assert(all_digits(p)) by {
            assert(forall|i: int| 0 <= i < p.len() ==> p[i] == s[i]);
        }
        lemma_digits_value_bound(p);
        assert(char_digit(s.last()) <= 9);
    }
}

/// Two digit strings of the same length with the same value are the same string.
pub proof fn lemma_digit_string_unique(s1: Seq<char>, s2: Seq<char>)
    requires
        all_digits(s1),
        all_digits(s2),
        s1.len() == s2.len(),
        digits_value(s1) == digits_value(s2),
    ensures
        s1 =~= s2,
    decreases s1.len(),
{
    if s1.len() > 0 {
        let p1 = s1.drop_last();
        let p2 = s2.drop_last();
        assert(all_digits(p1) && all_digits(p2)) by {
            assert(forall|i: int| 0 <= i < p1.len() ==> p1[i] == s1[i]);
            assert(forall|i: int| 0 <= i < p2.len() ==> p2[i] == s2[i]);
        }
        lemma_digits_value_nonneg(p1);
        lemma_digits_value_nonneg(p2);
        let d1 = char_digit(s1.last());
        let d2 = char_digit(s2.last());
        assert(digits_value(p1) * 10 + d1 == digits_value(p2) * 10 + d2);
        assert(digits_value(p1) == digits_value(p2) && d1 == d2) by (nonlinear_arith)
            requires
                digits_value(p1) * 10 + d1 == digits_value(p2) * 10 + d2,
                0 <= d1 < 10,
                0 <= d2 < 10,
                digits_value(p1) >= 0,
                digits_value(p2) >= 0,
        ;
        lemma_digit_string_unique(p1, p2);
        assert(s1.last() == s2.last()) by {
            lemma_char_digit_injective(s1.last(), s2.last());
        }
        assert(s1 =~= p1.push(s1.last()));
        assert(s2 =~= p2.push(s2.last()));
    }
}

/// Compares the characters of `a` in `[start, end)` with the whole of `b`.
pub fn str_range_eq(a: &str, start: usize, end: usize, b: &str) -> (r: bool)
    requires
        start <= end <= a@.len(),
        end - start == b@.len(),
    ensures
        r == (a@.subrange(start as int, end as int) == b@),
{
    let len = end - start;
    let mut i: usize = 0;
    while i < len
        invariant
            start <= end <= a@.len(),
            end - start == b@.len(),
            len == end - start,
            i <= len,
            forall|j: int| 0 <= j < i ==> a@[start + j] == b@[j],
        decreases len - i,
    {
        if a.get_char(start + i) != b.get_char(i) {
            proof {
                assert(a@.subrange(start as int, end as int)[i as int] != b@[i as int]);
            }
            return false;
        }
        i += 1;
    }
    proof {
        assert(a@.subrange(start as int, end as int) =~= b@);
    }
    true
}

/// `needle` occurs in `s` as a contiguous run of characters.
pub open spec fn contains_seq(s: Seq<char>, needle: Seq<char>) -> bool {
    exists|i: int|
        0 <= i && i + needle.len() <= s.len() && #[trigger] s.subrange(i, i + needle.len())
            == needle
}

/// Substring search by characters.
pub fn str_contains(s: &str, needle: &str) -> (r: bool)
    ensures
        r == contains_seq(s@, needle@),
{
    let n = s.unicode_len();
    let m = needle.unicode_len();
    if m > n {
        proof {
            if contains_seq(s@, needle@) {
                let i = choose|i: int|
                    0 <= i && i + needle@.len() <= s@.len() && #[trigger] s@.subrange(
                        i,
                        i + needle@.len(),
                    ) == needle@;
            }
        }
        return false;
    }
    if m == 0 {
        proof {
            let i: int = 0;
            assert(s@.subrange(i, i + needle@.len()) =~= needle@);
            assert(0 <= i && i + needle@.len() <= s@.len() && s@.subrange(i, i + needle@.len())
                == needle@);
        }
        return true;
    }
    let mut i: usize = 0;
    while i <= n - m
        invariant
            1 <= m == needle@.len(),
            n == s@.len(),
            m <= n,
            i <= n - m + 1,
            forall|i2: int|
                0 <= i2 < i ==> #[trigger] s@.subrange(i2, i2 + needle@.len()) != needle@,
        decreases n - m + 1 - i,
    {
        if str_range_eq(s, i, i + m, needle) {
            proof {
                assert(s@.subrange(i as int, i + needle@.len()) == needle@);
            }
            return true;
        }
        i += 1;
    }
    proof {
        assert forall|i2: int| !(0 <= i2 && i2 + needle@.len() <= s@.len() && #[trigger] s@.subrange(
            i2,
            i2 + needle@.len(),
        ) == needle@) by {
            if 0 <= i2 && i2 + needle@.len() <= s@.len() {
                assert(i2 < i);
            }
        }
    }
    false
}

/// Whole-string equality by characters.
pub fn str_eq(a: &str, b: &str) -> (r: bool)
    ensures
        r == (a@ == b@),
{
    let n = a.unicode_len();
    if n != b.unicode_len() {
        return false;
    }
    proof {
        assert(a@.subrange(0, n as int) =~= a@);
    }
    str_range_eq(a, 0, n, b)
}

proof fn lemma_char_digit_injective(c1: char, c2: char)
    requires
        is_digit(c1),
        is_digit(c2),
        char_digit(c1) == char_digit(c2),
    ensures
        c1 == c2,
{
}

} // verus!
