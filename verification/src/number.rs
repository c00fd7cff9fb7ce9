//! Decimal numbers in text.

use vstd::prelude::*;

verus! {

/// The character of a decimal digit.
pub open spec fn digit(d: nat) -> char {
    (48 + d) as char
}

/// Whether `c` is one of `0` to `9`.
pub open spec fn is_digit(c: char) -> bool {
    '0' <= c && c <= '9'
}

/// What the digit `c` counts for.
pub open spec fn digit_value(c: char) -> nat {
    (c as nat - 48) as nat
}

/// The decimal notation of `n`, without leading zeros.
pub open spec fn decimal(n: nat) -> Seq<char>
    decreases n,
{
    if n < 10 {
        seq![digit(n)]
    } else {
        decimal(n / 10).push(digit(n % 10))
    }
}

/// The number that a row of digits stands for.
pub open spec fn digits_value(s: Seq<char>) -> nat
    decreases s.len(),
{
    if s.len() == 0 {
        0
    } else {
        digits_value(s.drop_last()) * 10 + digit_value(s.last())
    }
}

/// Whether `s` holds digits only.
pub open spec fn all_digits(s: Seq<char>) -> bool {
    forall|i: int| 0 <= i < s.len() ==> is_digit(#[trigger] s[i])
}

/// The number that `s` denotes: digits, after a `+` if there is one, that fit
/// a `usize`.
pub open spec fn number_of(s: Seq<char>) -> Option<usize> {
    let d = if s.len() > 0 && s[0] == '+' { s.skip(1) } else { s };
    if d.len() > 0 && all_digits(d) && digits_value(d) <= usize::MAX {
        Some(digits_value(d) as usize)
    } else {
        None
    }
}

/// `s` filled up on the left with `fill` to at least `width` characters.
pub open spec fn padded_left(s: Seq<char>, width: nat, fill: char) -> Seq<char> {
    if s.len() >= width {
        s
    } else {
        Seq::new((width - s.len()) as nat, |i: int| fill) + s
    }
}

/// `s` filled up on the right with `fill` to at least `width` characters.
pub open spec fn padded_right(s: Seq<char>, width: nat, fill: char) -> Seq<char> {
    if s.len() >= width {
        s
    } else {
        s + Seq::new((width - s.len()) as nat, |i: int| fill)
    }
}

fn digit_char(d: u8) -> (c: char)
    requires
        d < 10,
    ensures
        c == digit(d as nat),
{
    (48 + d) as char
}

/// Appends the decimal notation of `n` to `s`.
pub fn push_decimal(s: &mut String, n: u128)
    ensures
        final(s)@ == old(s)@ + decimal(n as nat),
    decreases n,
{
    if n >= 10 {
        push_decimal(s, n / 10);
    }
    let ghost before = s@;
    s.push(digit_char((n % 10) as u8));
    proof {
        if n >= 10 {
            assert(decimal(n as nat) == decimal((n / 10) as nat).push(digit((n % 10) as nat)));
        }
        assert(s@ =~= old(s)@ + decimal(n as nat));
    }
}

/// The decimal notation of `n`.
pub fn decimal_string(n: usize) -> (s: String)
    ensures
        s@ == decimal(n as nat),
{
    let mut s = String::new();
    push_decimal(&mut s, n as u128);
    assert(s@ =~= decimal(n as nat));
    s
}

/// Appends `n` copies of `c` to `s`.
pub fn push_repeated(s: &mut String, c: char, n: usize)
    ensures
        final(s)@ == old(s)@ + Seq::new(n as nat, |i: int| c),
{
    let ghost before = s@;
    let mut i: usize = 0;
    assert(s@ =~= before + Seq::new(0, |j: int| c));
    while i < n
        invariant
            i <= n,
            s@ == before + Seq::new(i as nat, |j: int| c),
        decreases n - i,
    {
        s.push(c);
        i += 1;
        assert(s@ =~= before + Seq::new(i as nat, |j: int| c));
    }
}

/// A decimal notation has a digit, and nothing but digits.
pub proof fn lemma_decimal_digits(n: nat)
    ensures
        decimal(n).len() > 0,
        all_digits(decimal(n)),
    decreases n,
{
    if n >= 10 {
        lemma_decimal_digits(n / 10);
    }
}

/// A decimal notation denotes the number it was made from.
pub proof fn lemma_decimal_value(n: nat)
    ensures
        digits_value(decimal(n)) == n,
    decreases n,
{
    reveal_with_fuel(digits_value, 2);
    if n >= 10 {
        lemma_decimal_value(n / 10);
        assert(decimal(n).drop_last() =~= decimal(n / 10));
    } else {
        assert(decimal(n).drop_last() =~= seq![]);
    }
}

/// Reading back the decimal notation of a number gives the number.
pub proof fn decimal_roundtrip(n: usize)
    ensures
        number_of(decimal(n as nat)) == Some(n),
{
    lemma_decimal_digits(n as nat);
    lemma_decimal_value(n as nat);
    assert(is_digit(decimal(n as nat)[0]));
}

/// The number that a longer row of digits stands for is no smaller.
proof fn lemma_digits_value_grows(s: Seq<char>, k: int)
    requires
        0 <= k <= s.len(),
    ensures
        digits_value(s.take(k)) <= digits_value(s),
    decreases s.len(),
{
    if k < s.len() {
        assert(s.drop_last().take(k) =~= s.take(k));
        lemma_digits_value_grows(s.drop_last(), k);
    } else {
        assert(s.take(k) =~= s);
    }
}

/// Reads a row of digits as a number that fits a `usize`.
fn read_digits(d: &[char]) -> (r: Option<usize>)
    ensures
        r == (if d@.len() > 0 && all_digits(d@) && digits_value(d@) <= usize::MAX {
            Some(digits_value(d@) as usize)
        } else {
            None
        }),
{
    if d.len() == 0 {
        return None;
    }
    let mut n: usize = 0;
    let mut i: usize = 0;
    assert(d@.take(0) =~= seq![]);
    while i < d.len()
        invariant
            i <= d@.len(),
            d@.len() > 0,
            all_digits(d@.take(i as int)),
            n == digits_value(d@.take(i as int)),
        decreases d@.len() - i,
    {
        let c = d[i];
        if !('0' <= c && c <= '9') {
            assert(!is_digit(d@[i as int]));
            return None;
        }
        let v = c as u32 - 48;
        let next: u128 = n as u128 * 10 + v as u128;
        proof {
            assert(d@.take(i + 1).drop_last() =~= d@.take(i as int));
            assert(d@.take(i + 1).last() == c);
            assert(next == digits_value(d@.take(i + 1)));
            assert(all_digits(d@.take(i + 1))) by {
                assert forall|j: int| 0 <= j < i + 1 implies is_digit(#[trigger] d@.take(i + 1)[j]) by {
                    if j < i {
                        assert(d@.take(i + 1)[j] == d@.take(i as int)[j]);
                    }
                }
            }
        }
        if next > usize::MAX as u128 {
            proof {
                lemma_digits_value_grows(d@, i + 1);
            }
            return None;
        }
        n = next as usize;
        i += 1;
    }
    assert(d@.take(i as int) =~= d@);
    Some(n)
}

/// Reads `s` as a number: digits, after a `+` if there is one, that fit a `usize`.
pub fn parse_number(s: &[char]) -> (r: Option<usize>)
    ensures
        r == number_of(s@),
{
    if s.len() > 0 && s[0] == '+' {
        read_digits(vstd::slice::slice_subrange(s, 1, s.len()))
    } else {
        read_digits(s)
    }
}

/// Padding brings a text to the width and leaves it at the end, or at the start; a text
/// that is wide enough stays as it is.
pub proof fn padding_keeps_the_text(s: Seq<char>, width: nat, fill: char)
    ensures
        ({
            let (l, r) = (padded_left(s, width, fill), padded_right(s, width, fill));
            let n = if s.len() < width { width - s.len() } else { 0 };
            &&& l.len() == s.len() + n && r.len() == s.len() + n
            &&& l.skip(n) == s && r.take(s.len() as int) == s
            &&& forall|i: int| 0 <= i < n ==> #[trigger] l[i] == fill
            &&& forall|i: int| s.len() <= i < s.len() + n ==> #[trigger] r[i] == fill
        }),
{
    let n = if s.len() < width { width - s.len() } else { 0 };
    assert(padded_left(s, width, fill).skip(n) =~= s);
    assert(padded_right(s, width, fill).take(s.len() as int) =~= s);
}

/// A number is read by its decimal places, with or without a `+` before it; what is no
/// row of digits, or too large, is no number.
pub proof fn numbers_are_read(d: Seq<char>, c: char)
    ensures
        number_of(Seq::empty()) is None,
        d.len() > 0 && all_digits(d) ==> number_of(seq!['+'] + d) == number_of(d),
        d.len() > 0 && all_digits(d) && is_digit(c) ==> (number_of(d.push(c)) matches Some(n) ==> number_of(d)
            matches Some(k) && n == k * 10 + (c as int - '0' as int)),
        is_digit(c) ==> number_of(seq![c]) == Some((c as int - '0' as int) as usize),
        d.contains(c) && !is_digit(c) && c != '+' ==> number_of(d) is None,
{
    let p = seq!['+'] + d;
    assert(p.skip(1) =~= d);
    if d.len() > 0 && all_digits(d) {
        assert(is_digit(d[0]));
        if is_digit(c) {
            let e = d.push(c);
            assert(e.drop_last() =~= d);
            assert(e[0] == d[0]);
            assert(is_digit(e[0]));
        }
    }
    if is_digit(c) {
        reveal_with_fuel(digits_value, 2);
        let one = seq![c];
        assert(one.drop_last() =~= Seq::empty());
        assert(all_digits(one));
    }
    if d.contains(c) && !is_digit(c) && c != '+' {
        let i = choose|i: int| 0 <= i < d.len() && d[i] == c;
        if d[0] == '+' {
            assert(d.skip(1)[i - 1] == c);
        }
    }
}

/// A decimal notation has no zero in front, but for that of 0.
pub proof fn decimals_have_no_leading_zero(n: nat)
    ensures
        decimal(n)[0] == '0' <==> n == 0,
        n == 0 ==> decimal(n).len() == 1,
    decreases n,
{
    lemma_decimal_digits(n);
    if n >= 10 {
        decimals_have_no_leading_zero(n / 10);
        lemma_decimal_digits(n / 10);
        assert(decimal(n)[0] == decimal(n / 10)[0]);
    }
}

/// Larger numbers have no fewer digits.
pub proof fn larger_numbers_are_no_shorter(a: nat, b: nat)
    requires
        a <= b,
    ensures
        decimal(a).len() <= decimal(b).len(),
    decreases b,
{
    if b >= 10 {
        if a >= 10 {
            larger_numbers_are_no_shorter(a / 10, b / 10);
        } else {
            lemma_decimal_digits(b / 10);
        }
    }
}

}
