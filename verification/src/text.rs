//! Numbers in decimal.

use vstd::prelude::*;
use vstd::string::*;

verus! {

/// The character of a decimal digit.
pub open spec fn digit(d: int) -> char {
    (48 + d) as char
}

/// `n` in decimal.
pub open spec fn digits(n: nat) -> Seq<char>
    decreases n,
{
    if n < 10 {
        seq![digit(n as int)]
    } else {
        digits(n / 10).push(digit((n % 10) as int))
    }
}

/// `n` in decimal, with zeros in front up to a width of `w`.
pub open spec fn padded(n: nat, w: nat) -> Seq<char> {
    let ds = digits(n);
    if ds.len() >= w {
        ds
    } else {
        Seq::new((w - ds.len()) as nat, |i: int| '0') + ds
    }
}

/// `n` in decimal, with a sign in front if it is negative.
pub open spec fn signed_digits(n: int) -> Seq<char> {
    if n < 0 {
        seq!['-'] + digits((-n) as nat)
    } else {
        digits(n as nat)
    }
}

/// The number that a string of decimal digits stands for.
pub open spec fn digits_value(s: Seq<char>) -> nat
    decreases s.len(),
{
    if s.len() == 0 {
        0
    } else {
        (10 * digits_value(s.drop_last()) + (s.last() as int - 48)) as nat
    }
}

pub open spec fn is_digit(c: char) -> bool {
    48 <= c as int <= 57
}

fn digit_str(d: u64) -> (s: &'static str)
    requires
        d < 10,
    ensures
        s@ == seq![digit(d as int)],
{
    proof {
        reveal_strlit("0");
        reveal_strlit("1");
        reveal_strlit("2");
        reveal_strlit("3");
        reveal_strlit("4");
        reveal_strlit("5");
        reveal_strlit("6");
        reveal_strlit("7");
        reveal_strlit("8");
        reveal_strlit("9");
    }
    let s: &'static str = if d == 0 {
        "0"
    } else if d == 1 {
        "1"
    } else if d == 2 {
        "2"
    } else if d == 3 {
        "3"
    } else if d == 4 {
        "4"
    } else if d == 5 {
        "5"
    } else if d == 6 {
        "6"
    } else if d == 7 {
        "7"
    } else if d == 8 {
        "8"
    } else {
        "9"
    };
    assert(s@ =~= seq![digit(d as int)]);
    s
}

/// `n` in decimal.
pub fn decimal(n: u64) -> (s: String)
    ensures
        s@ == digits(n as nat),
    decreases n,
{
    let mut s = if n < 10 {
        String::new()
    } else {
        decimal(n / 10)
    };
    s.append(digit_str(n % 10));
    assert(s@ =~= digits(n as nat));
    s
}

/// `n` in decimal, with a sign in front if it is negative.
pub fn signed_decimal(n: i32) -> (s: String)
    ensures
        s@ == signed_digits(n as int),
{
    if n < 0 {
        proof {
            reveal_strlit("-");
        }
        let mut s = "-".to_string();
        let m: i64 = -(n as i64);
        s.append(decimal(m as u64).as_str());
        assert(s@ =~= signed_digits(n as int));
        s
    } else {
        decimal(n as u64)
    }
}

/// `n` in decimal, with zeros in front up to a width of eight.
pub fn decimal8(n: u64) -> (s: String)
    ensures
        s@ == padded(n as nat, 8),
{
    let ds = decimal(n);
    let len: usize = ds.as_str().unicode_len();
    let mut s = String::new();
    let mut i: usize = len;
    while i < 8
        invariant
            i >= len,
            len < 8 ==> i <= 8,
            len >= 8 ==> i == len,
            s@ == Seq::new((i - len) as nat, |j: int| '0'),
        decreases 8 - i,
    {
        s.append(digit_str(0));
        i += 1;
        assert(s@ =~= Seq::new((i - len) as nat, |j: int| '0'));
    }
    s.append(ds.as_str());
    assert(s@ =~= padded(n as nat, 8));
    s
}

/// `s` without a plus sign in front.
pub open spec fn unsigned(s: Seq<char>) -> Seq<char> {
    if s.len() > 0 && s[0] == '+' {
        s.skip(1)
    } else {
        s
    }
}

pub open spec fn all_digits(s: Seq<char>) -> bool {
    forall|i: int| 0 <= i < s.len() ==> is_digit(#[trigger] s[i])
}

/// The number that a string of decimal digits makes, if it fits in 64 bits.
pub open spec fn number_of(ds: Seq<char>) -> Option<u64> {
    if ds.len() > 0 && all_digits(ds) && digits_value(ds) <= u64::MAX {
        Some(digits_value(ds) as u64)
    } else {
        None
    }
}

/// The number that `s` stands for: decimal digits, with or without a plus
/// sign in front, that make a number of 64 bits.
pub open spec fn number_in(s: Seq<char>) -> Option<u64> {
    number_of(unsigned(s))
}

/// Reads a number in decimal.
pub fn parse_decimal(s: &str) -> (n: Option<u64>)
    ensures
        n == number_in(s@),
{
    let len: usize = s.unicode_len();
    let start: usize = if len > 0 && s.get_char(0) == '+' {
        1
    } else {
        0
    };
    let ghost ds = unsigned(s@);
    assert(s@.skip(0) =~= s@);
    assert(ds == s@.skip(start as int));
    if start == len {
        return None;
    }
    let mut n: u64 = 0;
    let mut i: usize = start;
    while i < len
        invariant
            start <= i <= len,
            len == s@.len(),
            ds == unsigned(s@),
            ds == s@.skip(start as int),
            start < len,
            forall|j: int| 0 <= j < i - start ==> is_digit(#[trigger] ds[j]),
            n == digits_value(ds.take(i - start)),
        decreases len - i,
    {
        let c: char = s.get_char(i);
        assert(ds[i - start] == c);
        if !('0' <= c && c <= '9') {
            assert(!is_digit(ds[i - start]));
            return None;
        }
        let d: u64 = c as u64 - 48;
        assert(ds.take(i + 1 - start).drop_last() =~= ds.take(i - start));
        if n > (u64::MAX - d) / 10 {
            proof {
                if all_digits(ds) {
                    lemma_value_of_front(ds, i + 1 - start);
                }
            }
            return None;
        }
        n = 10 * n + d;
        i += 1;
    }
    assert(ds.take(len - start) =~= ds);
    Some(n)
}

proof fn lemma_value_of_front(ds: Seq<char>, i: int)
    requires
        0 <= i <= ds.len(),
        forall|j: int| 0 <= j < ds.len() ==> is_digit(#[trigger] ds[j]),
    ensures
        digits_value(ds.take(i)) <= digits_value(ds),
    decreases ds.len(),
{
    if i < ds.len() {
        lemma_value_of_front(ds.drop_last(), i);
        assert(ds.drop_last().take(i) =~= ds.take(i));
    } else {
        assert(ds.take(i) =~= ds);
    }
}

/// Reading back the decimal digits of `n` gives `n`.
pub proof fn lemma_digits_value(n: nat)
    ensures
        digits_value(digits(n)) == n,
        digits(n).len() >= 1,
        forall|i: int| 0 <= i < digits(n).len() ==> is_digit(#[trigger] digits(n)[i]),
    decreases n,
{
    let ds = digits(n);
    if n < 10 {
        assert(ds.drop_last() =~= Seq::<char>::empty());
        reveal_with_fuel(digits_value, 2);
    } else {
        lemma_digits_value(n / 10);
        assert(ds.drop_last() =~= digits(n / 10));
    }
}

/// Zeros in front do not change the number.
pub proof fn lemma_padded_value(n: nat, w: nat)
    ensures
        digits_value(padded(n, w)) == n,
        padded(n, w).len() >= w,
        forall|i: int| 0 <= i < padded(n, w).len() ==> is_digit(#[trigger] padded(n, w)[i]),
{
    lemma_digits_value(n);
    let ds = digits(n);
    if ds.len() < w {
        lemma_zeros_in_front((w - ds.len()) as nat, ds);
    }
}

proof fn lemma_zeros_in_front(k: nat, ds: Seq<char>)
    ensures
        digits_value(Seq::new(k, |i: int| '0') + ds) == digits_value(ds),
    decreases ds.len(), k,
{
    let z = Seq::new(k, |i: int| '0');
    let s = z + ds;
    if ds.len() > 0 {
        assert(s.drop_last() =~= z + ds.drop_last());
        lemma_zeros_in_front(k, ds.drop_last());
    } else if k > 0 {
        let z1 = Seq::new((k - 1) as nat, |i: int| '0');
        assert(s.drop_last() =~= z1 + ds);
        lemma_zeros_in_front((k - 1) as nat, ds);
    }
}

/// Eight digits are enough exactly below a hundred million.
pub proof fn lemma_padded_width(n: nat)
    ensures
        padded(n, 8).len() == 8 <==> n < 100_000_000,
{
    reveal_with_fuel(pow10, 9);
    lemma_digits_len(n, 8);
}

/// Different numbers have different digits, with zeros in front of them or not.
pub proof fn lemma_digits_differ(n: nat, m: nat, w: nat)
    ensures
        digits(n) == digits(m) ==> n == m,
        padded(n, w) == padded(m, w) ==> n == m,
{
    lemma_digits_value(n);
    lemma_digits_value(m);
    lemma_padded_value(n, w);
    lemma_padded_value(m, w);
}

/// Different numbers are written differently, the negative ones, and only those,
/// with a minus sign in front of their digits.
pub proof fn lemma_signed_digits_differ(n: int, m: int)
    ensures
        signed_digits(n) == signed_digits(m) ==> n == m,
        signed_digits(n)[0] == '-' <==> n < 0,
        n < 0 ==> digits_value(signed_digits(n).skip(1)) == -n,
        n >= 0 ==> digits_value(signed_digits(n)) == n,
{
    let (a, b) = (if n < 0 { -n } else { n }, if m < 0 { -m } else { m });
    lemma_digits_value(a as nat);
    lemma_digits_value(b as nat);
    assert(is_digit(digits(a as nat)[0]));
    assert(is_digit(digits(b as nat)[0]));
    if n < 0 {
        assert(signed_digits(n).skip(1) =~= digits(a as nat));
    }
    if m < 0 {
        assert(signed_digits(m).skip(1) =~= digits(b as nat));
    }
}

/// A number that was written in decimal is read back, with a plus sign in
/// front or without one, and with any zeros in front of it.
pub proof fn lemma_number_reads_back(n: u64, w: nat)
    ensures
        number_in(digits(n as nat)) == Some(n),
        number_in(padded(n as nat, w)) == Some(n),
        number_in(seq!['+'] + digits(n as nat)) == Some(n),
{
    lemma_digits_value(n as nat);
    lemma_padded_value(n as nat, w);
    let ds = digits(n as nat);
    let ps = padded(n as nat, w);
    assert(is_digit(ds[0]));
    assert(ps.len() > 0);
    assert(is_digit(ps[0]));
    assert((seq!['+'] + ds).skip(1) =~= ds);
}

/// What is read as a number has a digit in every place but the first, which
/// may be a plus sign. Nothing else is a number, nor is a plus sign alone.
pub proof fn lemma_only_digits_are_numbers(s: Seq<char>)
    ensures
        number_in(s) is Some ==> s.len() > 0 && ('0' <= s[0] <= '9' || s[0] == '+' && s.len() > 1),
        number_in(s) is Some ==> forall|i: int| 1 <= i < s.len() ==> '0' <= #[trigger] s[i] <= '9',
{
    if number_in(s) is Some {
        let ds = unsigned(s);
        assert(is_digit(ds[0]));
        assert forall|i: int| 1 <= i < s.len() implies '0' <= #[trigger] s[i] <= '9' by {
            if s[0] == '+' {
                assert(is_digit(ds[i - 1]));
            } else {
                assert(is_digit(ds[i]));
            }
        }
    }
}

/// One more digit makes ten times the number and that digit. A number that
/// would not fit in 64 bits is none.
pub proof fn lemma_one_more_digit(s: Seq<char>, d: int)
    requires
        0 <= d < 10,
        number_in(s) is Some,
    ensures
        number_in(s.push((48 + d) as char)) == (if 10 * number_in(s)->0 + d <= u64::MAX {
            Some((10 * number_in(s)->0 + d) as u64)
        } else {
            None
        }),
{
    let c = (48 + d) as char;
    let ds = unsigned(s);
    let more = unsigned(s.push(c));
    assert(more =~= ds.push(c));
    assert(more.drop_last() =~= ds);
    assert(is_digit(c));
    assert forall|i: int| 0 <= i < more.len() implies is_digit(#[trigger] more[i]) by {
        if i < ds.len() {
            assert(more[i] == ds[i]);
        }
    }
}

spec fn pow10(k: nat) -> nat
    decreases k,
{
    if k == 0 {
        1
    } else {
        10 * pow10((k - 1) as nat)
    }
}

proof fn lemma_digits_len(n: nat, k: nat)
    requires
        k >= 1,
    ensures
        digits(n).len() <= k <==> n < pow10(k),
        pow10(k) >= 10,
    decreases k,
{
    if k == 1 {
        reveal_with_fuel(pow10, 2);
        if n >= 10 {
            lemma_digits_value(n / 10);
        }
    } else {
        lemma_digits_len(n / 10, (k - 1) as nat);
    }
}

} // verus!
