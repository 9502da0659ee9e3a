//! Decimal printing and parsing of unsigned numbers.

use vstd::prelude::*;

verus! {

/// The character of a decimal digit.
pub open spec fn digit_char(d: nat) -> char {
    if d == 0 {
        '0'
    } else if d == 1 {
        '1'
    } else if d == 2 {
        '2'
    } else if d == 3 {
        '3'
    } else if d == 4 {
        '4'
    } else if d == 5 {
        '5'
    } else if d == 6 {
        '6'
    } else if d == 7 {
        '7'
    } else if d == 8 {
        '8'
    } else {
        '9'
    }
}

/// The decimal numeral of `n`, without leading zeros.
pub open spec fn decimal_chars(n: nat) -> Seq<char>
    decreases n,
{
    if n < 10 {
        seq![digit_char(n)]
    } else {
        decimal_chars(n / 10).push(digit_char(n % 10))
    }
}

/// Whether `b` is an ASCII digit.
pub open spec fn is_digit(b: u8) -> bool {
    0x30 <= b <= 0x39
}

/// How many ASCII digits `s` starts with, counting from index `i`.
pub open spec fn digit_run(s: Seq<u8>, i: nat) -> nat
    decreases s.len() - i,
{
    if i < s.len() && is_digit(s[i as int]) {
        digit_run(s, i + 1)
    } else {
        i
    }
}

/// The value of a string of ASCII digits.
pub open spec fn digits_value(s: Seq<u8>) -> nat
    decreases s.len(),
{
    if s.len() == 0 {
        0
    } else {
        10 * digits_value(s.drop_last()) + (s.last() - 0x30) as nat
    }
}

/// What `consume_decimal_number` finds at the start of `s`: the value of its leading digits
/// and how many there are; `None` when there is no digit, or the value exceeds 64 bits.
pub open spec fn leading_number(s: Seq<u8>) -> Option<(u64, nat)> {
    let k = digit_run(s, 0);
    if k == 0 || digits_value(s.take(k as int)) > u64::MAX {
        None
    } else {
        Some((digits_value(s.take(k as int)) as u64, k))
    }
}

fn digit_str(d: u64) -> (r: &'static str)
    requires
        d < 10,
    ensures
        r@ == seq![digit_char(d as nat)],
{
    proof {
        reveal_strlit("0");
        reveal_strlit("1");
        reveal_strlit("2");
        reveal_strlit("3");
        reveal_strlit("4");
        reveal_strlit("5");
        reveal_strlit("6");
        reveal_strlit("7");
        reveal_strlit("8");
        reveal_strlit("9");
    }
    if d == 0 {
        "0"
    } else if d == 1 {
        "1"
    } else if d == 2 {
        "2"
    } else if d == 3 {
        "3"
    } else if d == 4 {
        "4"
    } else if d == 5 {
        "5"
    } else if d == 6 {
        "6"
    } else if d == 7 {
        "7"
    } else if d == 8 {
        "8"
    } else {
        "9"
    }
}

/// Appends the decimal numeral of `num`.
pub fn append_number_to(s: &mut String, num: u64)
    ensures
        final(s)@ == old(s)@ + decimal_chars(num as nat),
    decreases num,
{
    if num >= 10 {
        append_number_to(s, num / 10);
    }
    s.append(digit_str(num % 10));
    proof {
        if num < 10 {
            assert(num % 10 == num);
        }
        assert(final(s)@ =~= old(s)@ + decimal_chars(num as nat));
    }
}

/// The decimal numeral of `num`.
pub fn number_to_string(num: u64) -> (r: String)
    ensures
        r@ == decimal_chars(num as nat),
{
    let mut s = String::new();
    append_number_to(&mut s, num);
    assert(s@ =~= decimal_chars(num as nat));
    s
}

/// Parses the decimal number at the start of `input`: its value and how many digits it took.
/// No leading digit, or a value beyond 64 bits, gives `None`.
pub fn consume_decimal_number(input: &[u8]) -> (r: Option<(u64, usize)>)
    ensures
        match leading_number(input@) {
            Some((v, k)) => r == Some((v, k as usize)),
            None => r is None,
        },
{
    let mut value: u64 = 0;
    let mut i: usize = 0;
    while i < input.len() && input[i] >= 0x30 && input[i] <= 0x39
        invariant
            i <= input@.len(),
            digit_run(input@, 0) == digit_run(input@, i as nat),
            forall|j: int| 0 <= j < i ==> is_digit(#[trigger] input@[j]),
            value == digits_value(input@.take(i as int)),
        decreases input@.len() - i,
    {
        let d = (input[i] - 0x30) as u64;
        if value > u64::MAX / 10 || (value == u64::MAX / 10 && d > u64::MAX % 10) {
            proof {
                lemma_digit_run_bounds(input@, i as nat);
                lemma_digit_run_bounds(input@, (i + 1) as nat);
                assert(digit_run(input@, i as nat) == digit_run(input@, (i + 1) as nat));
                assert(input@.take(i + 1).drop_last() =~= input@.take(i as int));
                let k = digit_run(input@, 0);
                lemma_digits_value_mono(input@, (i + 1) as nat, k);
            }
            return None;
        }
        value = value * 10 + d;
        proof {
            assert(input@.take(i + 1).drop_last() =~= input@.take(i as int));
        }
        i = i + 1;
    }
    proof {
        lemma_digit_run_bounds(input@, i as nat);
    }
    if i == 0 {
        None
    } else {
        Some((value, i))
    }
}

proof fn lemma_digit_run_bounds(s: Seq<u8>, i: nat)
    requires
        i <= s.len(),
    ensures
        i <= digit_run(s, i) <= s.len(),
        forall|j: int| i <= j < digit_run(s, i) ==> is_digit(#[trigger] s[j]),
    decreases s.len() - i,
{
    if i < s.len() && is_digit(s[i as int]) {
        lemma_digit_run_bounds(s, i + 1);
    }
}

/// A longer run of digits is worth at least as much.
proof fn lemma_digits_value_mono(s: Seq<u8>, a: nat, b: nat)
    requires
        a <= b <= s.len(),
        forall|j: int| 0 <= j < b ==> is_digit(#[trigger] s[j]),
    ensures
        digits_value(s.take(a as int)) <= digits_value(s.take(b as int)),
    decreases b - a,
{
    if a < b {
        lemma_digits_value_mono(s, a, (b - 1) as nat);
        assert(s.take(b as int).drop_last() =~= s.take(b - 1));
        assert(is_digit(s[b - 1]));
    }
}

} // verus!
