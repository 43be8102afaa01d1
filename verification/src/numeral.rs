//! Decimal numerals: how a segment value is written as a number in a
//! sentence, and how such a number is read back.

use vstd::prelude::*;
use vstd::std_specs::iter::IteratorSpec;
use vstd::string::*;

verus! {

/// The character of the decimal digit `d`.
pub open spec fn digit_char(d: nat) -> char {
    (d + 48) as char
}

/// `c` is one of `0` to `9`.
pub open spec fn is_digit(c: char) -> bool {
    48 <= c as int <= 57
}

/// The number that a digit stands for; 0 for any other character.
pub open spec fn digit_value(c: char) -> nat {
    if is_digit(c) {
        (c as int - 48) as nat
    } else {
        0
    }
}

/// The decimal numeral of `n`: no sign, and no leading zero but for 0
/// itself.
pub open spec fn decimal(n: nat) -> Seq<char>
    decreases n,
{
    if n < 10 {
        seq![digit_char(n)]
    } else {
        decimal(n / 10).push(digit_char(n % 10))
    }
}

/// Every character is a decimal digit.
pub open spec fn all_digits(s: Seq<char>) -> bool {
    forall|i: int| 0 <= i < s.len() ==> is_digit(#[trigger] s[i])
}

/// The number that a run of digits spells in base ten.
pub open spec fn digits_value(s: Seq<char>) -> nat
    decreases s.len(),
{
    if s.len() == 0 {
        0
    } else {
        10 * digits_value(s.drop_last()) + digit_value(s.last())
    }
}

/// What is left of a numeral once one leading `+` is taken off.
pub open spec fn unsigned_part(s: Seq<char>) -> Seq<char> {
    if s.len() > 0 && s[0] == '+' {
        s.drop_first()
    } else {
        s
    }
}

/// A numeral is an optional `+` followed by one or more decimal digits, and
/// nothing else.
pub open spec fn is_numeral(s: Seq<char>) -> bool {
    unsigned_part(s).len() > 0 && all_digits(unsigned_part(s))
}

/// The number that a numeral stands for.
pub open spec fn numeral_value(s: Seq<char>) -> nat {
    digits_value(unsigned_part(s))
}

/// A longer run of digits spells no smaller a number than its front part.
pub proof fn lemma_digits_value_grows(s: Seq<char>, n: int)
    requires
        0 <= n <= s.len(),
    ensures
        digits_value(s.take(n)) <= digits_value(s),
    decreases s.len() - n,
{
    if n < s.len() {
        lemma_digits_value_grows(s.drop_last(), n);
        assert(s.drop_last().take(n) =~= s.take(n));
    } else {
        assert(s.take(n) =~= s);
    }
}

/// The decimal numeral of a number is a numeral without a sign, free of
/// spaces, and reads back as the number.
pub proof fn lemma_decimal_reads_back(n: nat)
    ensures
        decimal(n).len() > 0,
        all_digits(decimal(n)),
        is_numeral(decimal(n)),
        numeral_value(decimal(n)) == n,
        !decimal(n).contains(' '),
    decreases n,
{
    let text = decimal(n);
    if n < 10 {
        assert(text.drop_last() =~= Seq::<char>::empty());
        assert(digits_value(text) == 10 * digits_value(text.drop_last()) + digit_value(
            text.last(),
        ));
    } else {
        lemma_decimal_reads_back(n / 10);
        assert(text.drop_last() =~= decimal(n / 10));
        assert(unsigned_part(decimal(n / 10)) == decimal(n / 10));
        assert(text[0] == decimal(n / 10)[0]);
    }
    assert(unsigned_part(text) == text);
}

/// The one-character text of a decimal digit.
fn digit_text(d: u8) -> (text: &'static str)
    requires
        d < 10,
    ensures
        text@ == seq![digit_char(d as nat)],
{
    proof {
        reveal_strlit("0");
        reveal_strlit("1");
        reveal_strlit("2");
        reveal_strlit("3");
        reveal_strlit("4");
        reveal_strlit("5");
        reveal_strlit("6");
        reveal_strlit("7");
        reveal_strlit("8");
        reveal_strlit("9");
    }
    let text = match d {
        0 => "0",
        1 => "1",
        2 => "2",
        3 => "3",
        4 => "4",
        5 => "5",
        6 => "6",
        7 => "7",
        8 => "8",
        _ => "9",
    };
    assert(text@ =~= seq![digit_char(d as nat)]);
    text
}

/// Writes a number in decimal, without a sign and without leading zeros.
pub fn render_number(value: u16) -> (text: String)
    ensures
        text@ == decimal(value as nat),
{
    let mut tail = String::new();
    let mut rest: u16 = value;
    while rest >= 10
        invariant
            decimal(value as nat) == decimal(rest as nat) + tail@,
        decreases rest,
    {
        let mut next = String::from_str(digit_text((rest % 10) as u8));
        next.append(tail.as_str());
        proof {
            assert(decimal(rest as nat) + tail@ =~= decimal((rest / 10) as nat) + next@);
        }
        tail = next;
        rest = rest / 10;
    }
    let mut text = String::from_str(digit_text(rest as u8));
    text.append(tail.as_str());
    text
}

/// Reads a numeral and returns its value if that is below `bound`.
///
/// The numeral is read as `u16::from_str` reads it: an optional `+`, then
/// decimal digits, leading zeros allowed. Anything else, and any value that is
/// not below `bound`, gives `None`.
pub fn parse_number(text: &str, bound: u32) -> (value: Option<u16>)
    requires
        bound <= 65536,
    ensures
        value is Some <==> is_numeral(text@) && numeral_value(text@) < bound,
        value is Some ==> value->Some_0 == numeral_value(text@),
{
    broadcast use {axiom_spec_iter, next_postcondition};

    let mut it = text.chars();
    let ghost start = it;
    let mut total: u32 = 0;
    let mut any: bool = false;
    let ghost mut seen: Seq<char> = Seq::empty();
    match it.next() {
        None => {
            return None;
        },
        Some(c) => {
            assert(text@ =~= seq![c] + it.remaining());
            if c == '+' {
                assert(unsigned_part(text@) =~= it.remaining());
            } else if '0' <= c && c <= '9' {
                total = c as u32 - 48;
                any = true;
                proof {
                    seen = seq![c];
                    assert(seen.drop_last() =~= Seq::<char>::empty());
                    assert(digits_value(seen) == 10 * digits_value(seen.drop_last())
                        + digit_value(seen.last()));
                }
                if total >= bound {
                    proof {
                        lemma_digits_value_grows(text@, 1);
                        assert(text@.take(1) =~= seen);
                    }
                    return None;
                }
            } else {
                assert(!is_digit(unsigned_part(text@)[0]));
                return None;
            }
        },
    }
    loop
        invariant
            bound <= 65536,
            seen + it.remaining() == unsigned_part(text@),
            all_digits(seen),
            total == digits_value(seen),
            total < bound || !any,
            any == (seen.len() > 0),
            it.obeys_prophetic_iter_laws(),
            it.decrease() is Some,
        decreases it.decrease()->0,
    {
        let ghost before = it;
        match it.next() {
            None => {
                proof {
                    assert(seen =~= unsigned_part(text@));
                }
                if any {
                    return Some(total as u16);
                } else {
                    return None;
                }
            },
            Some(c) => {
                let ghost at = seen.len() as int;
                assert(unsigned_part(text@)[at] == c);
                if '0' <= c && c <= '9' {
                    proof {
                        let longer = seen.push(c);
                        assert(longer.drop_last() =~= seen);
                        assert(longer + it.remaining() =~= seen + before.remaining());
                    }
                    total = total * 10 + (c as u32 - 48);
                    any = true;
                    proof {
                        seen = seen.push(c);
                    }
                    if total >= bound {
                        proof {
                            lemma_digits_value_grows(unsigned_part(text@), seen.len() as int);
                            assert(unsigned_part(text@).take(seen.len() as int) =~= seen);
                        }
                        return None;
                    }
                } else {
                    return None;
                }
            },
        }
    }
}

} // verus!
