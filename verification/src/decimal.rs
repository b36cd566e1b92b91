//! Natural numbers as decimal digits.
use vstd::prelude::*;
use crate::text::chars_of;

verus! {

/// The character of a decimal digit.
pub open spec fn digit_char(d: nat) -> char {
    (48 + d) as char
}

/// Whether a character is one of the ten decimal digits.
pub open spec fn is_digit(c: char) -> bool {
    '0' <= c <= '9'
}

/// The decimal digits of `n`, without leading zeros.
pub open spec fn digits(n: nat) -> Seq<char>
    decreases n,
{
    if n < 10 {
        seq![digit_char(n)]
    } else {
        digits(n / 10).push(digit_char(n % 10))
    }
}

/// The number that a sequence of decimal digits stands for.
pub open spec fn digits_value(s: Seq<char>) -> nat
    decreases s.len(),
{
    if s.len() == 0 {
        0
    } else {
        (digits_value(s.drop_last()) * 10 + (s.last() as int - 48)) as nat
    }
}

/// Whether every character is a decimal digit.
pub open spec fn all_digits(s: Seq<char>) -> bool {
    forall|i: int| 0 <= i < s.len() ==> is_digit(#[trigger] s[i])
}

/// The number that a text stands for: an optional plus sign, then one or more
/// digits, at most `max` in value.
pub open spec fn number(s: Seq<char>, max: nat) -> Option<nat> {
    let body = if s.len() > 0 && s[0] == '+' {
        s.drop_first()
    } else {
        s
    };
    if body.len() > 0 && all_digits(body) && digits_value(body) <= max {
        Some(digits_value(body))
    } else {
        None
    }
}

proof fn lemma_value_of_prefix(s: Seq<char>, i: int)
    requires
        all_digits(s),
        0 <= i <= s.len(),
    ensures
        digits_value(s.take(i)) <= digits_value(s),
    decreases s.len() - i,
{
    if i == s.len() {
        assert(s.take(i) =~= s);
    } else {
        lemma_value_of_prefix(s, i + 1);
        assert(s.take(i + 1).drop_last() =~= s.take(i));
        assert(is_digit(s[i]));
    }
}

/// Digits read back as the number they were made from.
pub proof fn lemma_digits_value(n: nat)
    ensures
        digits(n).len() > 0,
        all_digits(digits(n)),
        digits_value(digits(n)) == n,
    decreases n,
{
    if n < 10 {
        assert(digits(n).drop_last() =~= Seq::<char>::empty());
        assert(digits_value(Seq::<char>::empty()) == 0);
    } else {
        lemma_digits_value(n / 10);
        assert(digits(n).drop_last() =~= digits(n / 10));
    }
}

/// A number that is written down is read back.
pub proof fn lemma_number_of_digits(n: nat, max: nat)
    requires
        n <= max,
    ensures
        number(digits(n), max) == Some(n),
{
    lemma_digits_value(n);
    assert(is_digit(digits(n)[0]));
}

/// The decimal digits of a number.
pub fn format_number(n: u64) -> (r: String)
    ensures
        r@ == digits(n as nat),
    decreases n,
{
    if n < 10 {
        let mut out = String::new();
        out.push((48 + n as u8) as char);
        assert(out@ =~= digits(n as nat));
        out
    } else {
        let mut out = format_number(n / 10);
        out.push((48 + (n % 10) as u8) as char);
        assert(out@ =~= digits(n as nat));
        out
    }
}

/// Reads a number that is at most `max`.
pub fn parse_number(s: &str, max: u64) -> (r: Option<u64>)
    ensures
        match r {
            Some(n) => number(s@, max as nat) == Some(n as nat),
            None => number(s@, max as nat) is None,
        },
{
    let cs = chars_of(s);
    let start: usize = if cs.len() > 0 && cs[0] == '+' {
        1
    } else {
        0
    };
    let ghost body = cs@.skip(start as int);
    assert(start == 0 ==> body =~= cs@);
    assert(start == 1 ==> body =~= cs@.drop_first());
    if start == cs.len() {
        return None;
    }
    let mut value: u64 = 0;
    let mut i: usize = start;
    assert(body.take(0) =~= Seq::<char>::empty());
    while i < cs.len()
        invariant
            start <= i <= cs.len(),
            body == cs@.skip(start as int),
            number(s@, max as nat) == (if body.len() > 0 && all_digits(body) && digits_value(body)
                <= max {
                Some(digits_value(body))
            } else {
                None
            }),
            all_digits(body.take(i - start)),
            value == digits_value(body.take(i - start)),
            value <= max,
        decreases cs.len() - i,
    {
        let c = cs[i];
        assert(body[i - start] == c);
        if c < '0' || c > '9' {
            assert(!is_digit(body[i - start]));
            return None;
        }
        let d: u64 = (c as u64) - 48;
        let ghost longer = body.take(i - start + 1);
        proof {
            assert(longer.drop_last() =~= body.take(i - start));
            assert(digits_value(longer) == digits_value(body.take(i - start)) * 10 + d);
            if all_digits(body) {
                lemma_value_of_prefix(body, i - start + 1);
            }
        }
        if d > max || value > max / 10 || value * 10 > max - d {
            assert(digits_value(longer) > max);
            return None;
        }
        value = value * 10 + d;
        assert(all_digits(longer)) by {
            assert forall|k: int| 0 <= k < longer.len() implies is_digit(#[trigger] longer[k]) by {
                if k < i - start {
                    assert(body.take(i - start)[k] == longer[k]);
                }
            }
        }
        i = i + 1;
    }
    assert(body.take(i - start) =~= body);
    Some(value)
}

// ---------------------------------------------------------------------------
// Laws

/// Numbers below ten are written with one digit; any other with the digits of its
/// tens and one more for what is left.
pub proof fn digits_are_decimal(tens: nat, ones: nat)
    requires
        ones < 10,
    ensures
        digits(ones) == seq![('0' as int + ones) as char],
        tens > 0 ==> digits(10 * tens + ones) == digits(tens).push(('0' as int + ones) as char),
{
    if tens > 0 {
        assert((10 * tens + ones) / 10 == tens);
        assert((10 * tens + ones) % 10 == ones);
    }
}

/// A text is a number if and only if it holds digits, at least one and nothing
/// else behind an optional plus sign, and the number is not above the limit; one
/// more digit makes the number tenfold and adds itself.
pub proof fn numbers_are_read_as_decimal(s: Seq<char>, c: char, ones: nat, max: nat)
    requires
        forall|i: int| 0 <= i < s.len() ==> '0' <= #[trigger] s[i] <= '9',
        ones < 10,
        c as int == '0' as int + ones,
    ensures
        number(Seq::empty(), max) is None,
        number(seq!['+'], max) is None,
        number(seq![c], max) == (if ones <= max {
            Some(ones)
        } else {
            None
        }),
        number(seq!['+'] + s, max) == number(s, max),
        s.len() > 0 ==> number(s.push(c), max) == (match number(s, max) {
            Some(n) if 10 * n + ones <= max => Some(10 * n + ones),
            _ => None,
        }),
{
    let plus = seq!['+'] + s;
    assert(plus.drop_first() =~= s);
    assert(seq!['+'].drop_first() =~= Seq::<char>::empty());
    let one = seq![c];
    assert(one.drop_last() =~= Seq::<char>::empty());
    assert(digits_value(Seq::<char>::empty()) == 0);
    assert(digits_value(one) == ones);
    let more = s.push(c);
    assert(more.drop_last() =~= s);
    if s.len() > 0 {
        assert('0' <= s[0] <= '9');
        assert forall|i: int| 0 <= i < more.len() implies is_digit(#[trigger] more[i]) by {
            if i < s.len() {
                assert(more[i] == s[i]);
            }
        }
    }
}

/// A text with anything but digits, in any place behind an optional plus sign, is
/// no number.
pub proof fn other_texts_are_no_numbers(s: Seq<char>, i: int, max: nat)
    requires
        0 <= i < s.len(),
        !('0' <= s[i] <= '9'),
        !(i == 0 && s[0] == '+'),
    ensures
        number(s, max) is None,
{
    if s[0] == '+' {
        assert(!is_digit(s.drop_first()[i - 1]));
    } else {
        assert(!is_digit(s[i]));
    }
}

} // verus!
