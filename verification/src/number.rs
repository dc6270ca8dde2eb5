//! Unsigned numbers as text: parsing in base ten and sixteen, and rendering in
//! base ten.

use vstd::prelude::*;

verus! {

/// The value of one digit in the given base: `0`-`9`, then the letters in
/// either case.
pub open spec fn digit_value(b: u8, radix: nat) -> Option<nat> {
    let v: nat = if 0x30 <= b <= 0x39 {
        (b - 0x30) as nat
    } else if 0x61 <= b <= 0x7a {
        (b - 0x61 + 10) as nat
    } else if 0x41 <= b <= 0x5a {
        (b - 0x41 + 10) as nat
    } else {
        radix
    };
    if v < radix {
        Some(v)
    } else {
        None
    }
}

/// The value of a run of digits, most significant first; `None` where one of
/// them is no digit of the base. The empty run has the value zero.
pub open spec fn digits_value(s: Seq<u8>, radix: nat) -> Option<nat>
    decreases s.len(),
{
    if s.len() == 0 {
        Some(0)
    } else {
        match (digits_value(s.drop_last(), radix), digit_value(s.last(), radix)) {
            (Some(high), Some(low)) => Some(high * radix + low),
            _ => None,
        }
    }
}

/// The digits of a number's text: the text itself, without one leading `+`.
pub open spec fn unsigned_digits(s: Seq<u8>) -> Seq<u8> {
    if s.len() > 0 && s[0] == 0x2b {
        s.subrange(1, s.len() as int)
    } else {
        s
    }
}

/// The number that a text denotes: an optional `+`, then at least one digit, and
/// a value that fits `usize`. No prefix such as `0x`, no blank, no `-`.
pub open spec fn parse_unsigned(s: Seq<u8>, radix: nat) -> Option<usize> {
    let digits = unsigned_digits(s);
    if digits.len() == 0 {
        None
    } else {
        match digits_value(digits, radix) {
            Some(v) if v <= usize::MAX => Some(v as usize),
            _ => None,
        }
    }
}

/// The value of a run of digits bounds the value of each of its prefixes, and a
/// run with a prefix that has no value has none.
pub proof fn lemma_prefix_value(s: Seq<u8>, i: int, radix: nat)
    requires
        0 <= i <= s.len(),
        digits_value(s, radix) is Some,
    ensures
        digits_value(s.subrange(0, i), radix) is Some,
        digits_value(s.subrange(0, i), radix).unwrap() <= digits_value(s, radix).unwrap(),
    decreases s.len(),
{
    if i == s.len() {
        assert(s.subrange(0, i) == s);
    } else {
        let front = s.drop_last();
        lemma_prefix_value(front, i, radix);
        assert(front.subrange(0, i) == s.subrange(0, i));
        let high = digits_value(front, radix).unwrap();
        assert(high <= high * radix + digit_value(s.last(), radix).unwrap()) by (nonlinear_arith)
            requires
                radix >= 1,
                digit_value(s.last(), radix) is Some,
        ;
    }
}

fn digit_of(b: u8, radix: u8) -> (r: Option<u8>)
    ensures
        r is Some == digit_value(b, radix as nat) is Some,
        r matches Some(v) ==> digit_value(b, radix as nat) == Some(v as nat),
{
    let v: u8 = if 0x30 <= b && b <= 0x39 {
        b - 0x30
    } else if 0x61 <= b && b <= 0x7a {
        b - 0x61 + 10
    } else if 0x41 <= b && b <= 0x5a {
        b - 0x41 + 10
    } else {
        radix
    };
    if v < radix {
        Some(v)
    } else {
        None
    }
}

/// Parses an unsigned number in the given base.
pub fn parse_radix(text: &[u8], radix: u8) -> (r: Option<usize>)
    requires
        2 <= radix <= 36,
    ensures
        r == parse_unsigned(text@, radix as nat),
{
    let start: usize = if text.len() > 0 && text[0] == 0x2b {
        1
    } else {
        0
    };
    if start == text.len() {
        return None;
    }
    let ghost digits = unsigned_digits(text@);
    assert(digits == text@.subrange(start as int, text@.len() as int));
    let mut acc: usize = 0;
    let mut i: usize = start;
    while i < text.len()
        invariant
            start <= i <= text.len(),
            digits == text@.subrange(start as int, text@.len() as int),
            digits == unsigned_digits(text@),
            2 <= radix <= 36,
            digits_value(digits.subrange(0, i - start), radix as nat) == Some(acc as nat),
        decreases text.len() - i,
    {
        let ghost before = digits.subrange(0, i - start);
        let ghost after = digits.subrange(0, i - start + 1);
        assert(after.drop_last() == before);
        assert(after.last() == text@[i as int]);
        let next: Option<usize> = match digit_of(text[i], radix) {
            None => None,
            Some(d) => match acc.checked_mul(radix as usize) {
                None => None,
                Some(scaled) => scaled.checked_add(d as usize),
            },
        };
        match next {
            Some(value) => {
                acc = value;
            },
            None => {
                proof {
                    let step = digits_value(after, radix as nat);
                    assert(step == match (
                        digits_value(before, radix as nat),
                        digit_value(text@[i as int], radix as nat),
                    ) {
                        (Some(high), Some(low)) => Some(high * (radix as nat) + low),
                        _ => None,
                    });
                    assert(step matches Some(v) ==> v > usize::MAX);
                    if digits_value(digits, radix as nat) is Some {
                        lemma_prefix_value(digits, i - start + 1, radix as nat);
                    }
                }
                return None;
            },
        }
        i += 1;
    }
    assert(digits.subrange(0, i - start) == digits);
    Some(acc)
}

/// The decimal digits of a number, most significant first, without leading
/// zeros.
pub open spec fn decimal(n: nat) -> Seq<u8>
    decreases n,
{
    if n < 10 {
        seq![(0x30 + n) as u8]
    } else {
        decimal(n / 10).push((0x30 + n % 10) as u8)
    }
}

/// Renders a number in base ten.
pub fn render_decimal(n: usize) -> (r: Vec<u8>)
    ensures
        r@ == decimal(n as nat),
    decreases n,
{
    if n < 10 {
        let mut r: Vec<u8> = Vec::new();
        r.push(0x30 + n as u8);
        assert(r@ == seq![(0x30 + n) as u8]);
        r
    } else {
        let mut r = render_decimal(n / 10);
        r.push(0x30 + (n % 10) as u8);
        r
    }
}

/// Every byte of a rendered number is a decimal digit, and there is at least
/// one.
pub proof fn lemma_decimal_digits(n: nat)
    ensures
        decimal(n).len() >= 1,
        forall|i: int| 0 <= i < decimal(n).len() ==> 0x30 <= #[trigger] decimal(n)[i] <= 0x39,
    decreases n,
{
    if n >= 10 {
        lemma_decimal_digits(n / 10);
    }
}

/// Parsing in base ten undoes rendering.
pub proof fn lemma_decimal_round_trip(n: usize)
    ensures
        parse_unsigned(decimal(n as nat), 10) == Some(n),
{
    lemma_decimal_digits(n as nat);
    lemma_decimal_value(n as nat);
}

/// The digits of a rendered number have the number as their value.
pub proof fn lemma_decimal_value(n: nat)
    ensures
        digits_value(decimal(n), 10) == Some(n),
    decreases n,
{
    if n < 10 {
        let s = decimal(n);
        assert(s.drop_last() == Seq::<u8>::empty());
        assert(digits_value(s.drop_last(), 10) == Some(0nat));
    } else {
        lemma_decimal_value(n / 10);
        let s = decimal(n);
        assert(s.drop_last() == decimal(n / 10));
    }
}

} // verus!
