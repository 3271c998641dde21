//! Character and string helpers shared by the layout and PDF modules:
//! Unicode white space, blank strings, decimal parsing and formatting.
use vstd::prelude::*;

verus! {

/// The characters with the Unicode `White_Space` property, which is what
/// `char::is_whitespace` tests (and hence what `str::trim` removes).
pub open spec fn spec_is_white_space(c: char) -> bool {
    let u = c as u32;
    ||| (0x9 <= u && u <= 0xd)
    ||| u == 0x20
    ||| u == 0x85
    ||| u == 0xa0
    ||| u == 0x1680
    ||| (0x2000 <= u && u <= 0x200a)
    ||| u == 0x2028
    ||| u == 0x2029
    ||| u == 0x202f
    ||| u == 0x205f
    ||| u == 0x3000
}

/// Whether every character of `s` is Unicode white space (so `s.trim()` is
/// empty).
pub open spec fn spec_is_blank(s: Seq<char>) -> bool {
    forall|i: int| 0 <= i < s.len() ==> spec_is_white_space(#[trigger] s[i])
}

/// Unicode white space (the `White_Space` property).
pub fn is_white_space(c: char) -> (r: bool)
    ensures
        r == spec_is_white_space(c),
{
    let u = c as u32;
    (0x9 <= u && u <= 0xd) || u == 0x20 || u == 0x85 || u == 0xa0 || u == 0x1680 || (0x2000 <= u
        && u <= 0x200a) || u == 0x2028 || u == 0x2029 || u == 0x202f || u == 0x205f || u == 0x3000
}

/// Whether `s` is empty once trimmed of Unicode white space.
pub fn is_blank(s: &str) -> (r: bool)
    ensures
        r == spec_is_blank(s@),
{
    let mut blank = true;
    for ch in it: s.chars()
        invariant
            it.seq() == s@,
            blank == (forall|i: int| 0 <= i < it.index() ==> spec_is_white_space(#[trigger] s@[i])),
    {
        if !is_white_space(ch) {
            blank = false;
        }
    }
    blank
}

/// Whether the two strings hold the same characters.
pub fn str_equals(a: &str, b: &str) -> (r: bool)
    ensures
        r == (a@ == b@),
{
    let n = a.unicode_len();
    if n != b.unicode_len() {
        return false;
    }
    let mut i: usize = 0;
    while i < n
        invariant
            n == a@.len(),
            n == b@.len(),
            i <= n,
            forall|j: int| 0 <= j < i ==> a@[j] == b@[j],
        decreases n - i,
    {
        if a.get_char(i) != b.get_char(i) {
            return false;
        }
        i = i + 1;
    }
    assert(a@ =~= b@);
    true
}

/// The value of a decimal digit character.
pub open spec fn digit_value(c: char) -> int {
    (c as u32) - ('0' as u32)
}

pub open spec fn spec_is_digit(c: char) -> bool {
    '0' <= c && c <= '9'
}

/// The number written by the decimal digits `s` (most significant first).
pub open spec fn decimal_value(s: Seq<char>) -> int
    decreases s.len(),
{
    if s.len() == 0 {
        0
    } else {
        decimal_value(s.drop_last()) * 10 + digit_value(s.last())
    }
}

/// `s` without its optional leading `+`.
pub open spec fn unsigned_digits(s: Seq<char>) -> Seq<char> {
    if s.len() > 0 && s[0] == '+' {
        s.drop_first()
    } else {
        s
    }
}

/// What `usize::from_str` accepts: an optional `+`, then at least one
/// decimal digit and nothing else, with a value that fits in `usize`.
pub open spec fn spec_parse_usize(s: Seq<char>) -> Option<usize> {
    let digits = unsigned_digits(s);
    if digits.len() > 0 && (forall|i: int| 0 <= i < digits.len() ==> spec_is_digit(#[trigger] digits[i]))
        && decimal_value(digits) <= usize::MAX {
        Some(decimal_value(digits) as usize)
    } else {
        None
    }
}

pub proof fn lemma_decimal_value_nonneg(s: Seq<char>)
    requires
        forall|i: int| 0 <= i < s.len() ==> spec_is_digit(#[trigger] s[i]),
    ensures
        decimal_value(s) >= 0,
    decreases s.len(),
{
    if s.len() > 0 {
        lemma_decimal_value_nonneg(s.drop_last());
    }
}

/// Parses `s` as a `usize` the way `str::parse::<usize>` does.
pub fn parse_usize(s: &str) -> (r: Option<usize>)
    ensures
        r == spec_parse_usize(s@),
{
    let n = s.unicode_len();
    let mut start: usize = 0;
    if n > 0 && s.get_char(0) == '+' {
        start = 1;
    }
    let ghost digits = unsigned_digits(s@);
    assert(digits =~= s@.subrange(start as int, n as int));
    if start == n {
        return None;
    }
    let mut value: usize = 0;
    let mut i: usize = start;
    while i < n
        invariant
            n == s@.len(),
            start <= i <= n,
            digits =~= s@.subrange(start as int, n as int),
            digits == unsigned_digits(s@),
            forall|j: int| start <= j < i ==> spec_is_digit(#[trigger] s@[j]),
            value == decimal_value(s@.subrange(start as int, i as int)),
        decreases n - i,
    {
        let c = s.get_char(i);
        if !('0' <= c && c <= '9') {
            assert(digits[i - start] == s@[i as int]);
            assert(!spec_is_digit(digits[i - start]));
            assert(!(forall|j: int| 0 <= j < digits.len() ==> spec_is_digit(#[trigger] digits[j])));
            return None;
        }
        let d = (c as u32 - '0' as u32) as usize;
        let ghost prefix = s@.subrange(start as int, i as int);
        assert(s@.subrange(start as int, i + 1) =~= prefix.push(c));
        assert(prefix.push(c).drop_last() =~= prefix);
        proof {
            lemma_decimal_value_nonneg(prefix);
            assert(prefix.push(c).last() == c);
            assert(decimal_value(prefix.push(c)) == value * 10 + d);
        }
        match value.checked_mul(10) {
            Some(v10) => {
                match v10.checked_add(d) {
                    Some(v) => {
                        value = v;
                    },
                    None => {
                        proof {
                            overflow_rejects(s@, digits, start as int, i as int + 1, n as int);
                        }
                        return None;
                    },
                }
            },
            None => {
                proof {
                            overflow_rejects(s@, digits, start as int, i as int + 1, n as int);
                }
                return None;
            },
        }
        i = i + 1;
    }
    assert(s@.subrange(start as int, n as int) =~= digits);
    Some(value)
}

/// A digit prefix whose value already exceeds `usize::MAX` makes the whole
/// string unparsable.
proof fn overflow_rejects(s: Seq<char>, digits: Seq<char>, start: int, k: int, n: int)
    requires
        0 <= start <= k <= n == s.len(),
        digits == s.subrange(start, n),
        forall|j: int| start <= j < k ==> spec_is_digit(#[trigger] s[j]),
        decimal_value(s.subrange(start, k)) > usize::MAX,
    ensures
        !((forall|i: int| 0 <= i < digits.len() ==> spec_is_digit(#[trigger] digits[i]))
            && decimal_value(digits) <= usize::MAX),
{
    if forall|i: int| 0 <= i < digits.len() ==> spec_is_digit(#[trigger] digits[i]) {
        assert forall|j: int| start <= j < n implies spec_is_digit(#[trigger] s[j]) by {
            assert(digits[j - start] == s[j]);
        }
        lemma_value_grows(s, start, k, n);
    }
}

/// Appending digits never makes the value of a digit string smaller.
proof fn lemma_value_grows(s: Seq<char>, start: int, k: int, n: int)
    requires
        0 <= start <= k <= n <= s.len(),
        forall|j: int| start <= j < k ==> spec_is_digit(#[trigger] s[j]),
    ensures
        (forall|j: int| start <= j < n ==> spec_is_digit(#[trigger] s[j])) ==> decimal_value(
            s.subrange(start, k),
        ) <= decimal_value(s.subrange(start, n)),
    decreases n - k,
{
    if k < n && (forall|j: int| start <= j < n ==> spec_is_digit(#[trigger] s[j])) {
        lemma_value_grows(s, start, k + 1, n);
        let p = s.subrange(start, k + 1);
        assert(p.drop_last() =~= s.subrange(start, k));
        lemma_decimal_value_nonneg(s.subrange(start, k));
    }
}

} // verus!

verus! {

/// `String::push`: appends `c` to `s`.
#[verifier::external_body]
pub(crate) fn push_char(s: &mut String, c: char)
    ensures
        final(s)@ == old(s)@.push(c),
{
    s.push(c);
}

/// The decimal digits of `n`, most significant first, without leading
/// zeros (`"0"` for zero).
pub open spec fn decimal_digits(n: nat) -> Seq<char>
    decreases n,
{
    if n < 10 {
        seq![digit_char(n)]
    } else {
        decimal_digits(n / 10).push(digit_char(n % 10))
    }
}

/// The character of a decimal digit.
pub open spec fn digit_char(d: nat) -> char {
    (('0' as u32) + d) as char
}

/// `count` zero characters.
pub open spec fn zeros(count: int) -> Seq<char> {
    Seq::new(if count > 0 { count as nat } else { 0 }, |i: int| '0')
}

/// The digits of `n`, padded with leading zeros to at least `width`
/// characters (what `{:0width$}` prints for a non-negative number).
pub open spec fn padded_decimal(n: nat, width: int) -> Seq<char> {
    zeros(width - decimal_digits(n).len()) + decimal_digits(n)
}

/// What `{:0width$}` prints for an integer: the sign, then the zero-padded
/// digits, the sign counting towards the width.
pub open spec fn padded_signed(v: int, width: int) -> Seq<char> {
    if v < 0 {
        seq!['-'] + padded_decimal((-v) as nat, width - 1)
    } else {
        padded_decimal(v as nat, width)
    }
}

pub proof fn lemma_decimal_digits_len(n: nat)
    ensures
        decimal_digits(n).len() >= 1,
        n < 10 ==> decimal_digits(n).len() == 1,
        10 <= n < 100 ==> decimal_digits(n).len() == 2,
    decreases n,
{
    if n >= 10 {
        lemma_decimal_digits_len(n / 10);
    }
}

/// Appends the decimal digits of `value` to `out`.
pub fn push_decimal(out: &mut String, value: u64)
    ensures
        final(out)@ == old(out)@ + decimal_digits(value as nat),
    decreases value,
{
    if value >= 10 {
        push_decimal(out, value / 10);
    }
    let d = (value % 10) as u32;
    let c = char_of_digit(d);
    push_char(out, c);
    proof {
        if value >= 10 {
            assert(decimal_digits(value as nat) == decimal_digits((value / 10) as nat).push(digit_char((value % 10) as nat)));
        }
    }
    assert(final(out)@ =~= old(out)@ + decimal_digits(value as nat));
}

/// The character of the decimal digit `d`.
fn char_of_digit(d: u32) -> (c: char)
    requires
        d < 10,
    ensures
        c == digit_char(d as nat),
{
    if d == 0 {
        '0'
    } else if d == 1 {
        '1'
    } else if d == 2 {
        '2'
    } else if d == 3 {
        '3'
    } else if d == 4 {
        '4'
    } else if d == 5 {
        '5'
    } else if d == 6 {
        '6'
    } else if d == 7 {
        '7'
    } else if d == 8 {
        '8'
    } else {
        '9'
    }
}

/// The number of decimal digits of `value`.
pub fn decimal_len(value: u64) -> (n: usize)
    ensures
        n == decimal_digits(value as nat).len(),
    decreases value,
{
    if value < 10 {
        1
    } else {
        let m = decimal_len(value / 10);
        assert(m < 64) by {
            lemma_decimal_digits_bounded((value / 10) as nat);
        }
        m + 1
    }
}

pub open spec fn pow10(k: nat) -> nat
    decreases k,
{
    if k == 0 {
        1
    } else {
        10 * pow10((k - 1) as nat)
    }
}

/// A number below `10^k` has at most `k` digits.
proof fn lemma_digits_len_bound(n: nat, k: nat)
    requires
        k >= 1,
        n < pow10(k),
    ensures
        decimal_digits(n).len() <= k,
    decreases n,
{
    if n >= 10 {
        assert(k >= 2) by {
            if k == 1 {
                assert(pow10(1) == 10 * pow10(0));
            }
        }
        assert(pow10(k) == 10 * pow10((k - 1) as nat));
        assert(n / 10 < pow10((k - 1) as nat)) by (nonlinear_arith)
            requires
                n < 10 * pow10((k - 1) as nat),
        ;
        lemma_digits_len_bound(n / 10, (k - 1) as nat);
    }
}

proof fn lemma_decimal_digits_bounded(n: nat)
    requires
        n <= u64::MAX,
    ensures
        decimal_digits(n).len() <= 20,
{
    reveal_with_fuel(pow10, 21);
    assert(pow10(20) == 100_000_000_000_000_000_000);
    lemma_digits_len_bound(n, 20);
}

/// Appends `value` in decimal, padded with leading zeros to `width`.
pub fn push_padded_decimal(out: &mut String, value: u64, width: usize)
    ensures
        final(out)@ == old(out)@ + padded_decimal(value as nat, width as int),
{
    let len = decimal_len(value);
    let mut i = len;
    let ghost start = out@;
    while i < width
        invariant
            len <= i <= width || (i == len && width < len),
            out@ == start + zeros(i - len),
        decreases width - i,
    {
        push_char(out, '0');
        i = i + 1;
        assert(out@ =~= start + zeros(i - len));
    }
    assert(zeros(width - len) =~= zeros(i - len));
    push_decimal(out, value);
    assert(out@ =~= start + padded_decimal(value as nat, width as int));
}

} // verus!
