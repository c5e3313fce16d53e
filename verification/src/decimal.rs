//! Whole numbers as decimal text.

use vstd::prelude::*;

use crate::text::chars_of;

verus! {

/// The decimal digit of value `n`.
pub open spec fn digit(n: int) -> char {
    (48 + n) as char
}

/// Whether `c` is one of the ten ASCII digits.
pub open spec fn is_digit(c: char) -> bool {
    '0' <= c && c <= '9'
}

/// The digits of a natural number, without leading zeros.
pub open spec fn digits(n: nat) -> Seq<char>
    decreases n,
{
    if n < 10 {
        seq![digit(n as int)]
    } else {
        digits(n / 10).push(digit((n % 10) as int))
    }
}

/// A whole number in decimal, with a minus sign if it is negative.
pub open spec fn decimal(n: int) -> Seq<char> {
    if n < 0 {
        seq!['-'] + digits((-n) as nat)
    } else {
        digits(n as nat)
    }
}

/// The number that digits spell.
pub open spec fn digits_value(s: Seq<char>) -> int
    decreases s.len(),
{
    if s.len() == 0 {
        0
    } else {
        10 * digits_value(s.drop_last()) + (s.last() as int - 48)
    }
}

/// `s` consists of at least one digit and of nothing else.
pub open spec fn all_digits(s: Seq<char>) -> bool {
    s.len() > 0 && forall|i: int| 0 <= i < s.len() ==> is_digit(#[trigger] s[i])
}

/// The number that a text of an optional sign and digits spells.
pub open spec fn signed_value(s: Seq<char>) -> Option<int> {
    if s.len() > 0 && s[0] == '-' {
        if all_digits(s.skip(1)) {
            Some(-digits_value(s.skip(1)))
        } else {
            None
        }
    } else if s.len() > 0 && s[0] == '+' {
        if all_digits(s.skip(1)) {
            Some(digits_value(s.skip(1)))
        } else {
            None
        }
    } else if all_digits(s) {
        Some(digits_value(s))
    } else {
        None
    }
}

/// The 64-bit number that a text spells: an optional sign, then digits, of a
/// number that fits.
pub open spec fn parsed_i64(s: Seq<char>) -> Option<i64> {
    match signed_value(s) {
        Some(n) => if i64::MIN <= n <= i64::MAX {
            Some(n as i64)
        } else {
            None
        },
        None => None,
    }
}

/// Appends the digits of `n`.
fn push_digits(out: &mut String, n: u64)
    ensures
        final(out)@ == old(out)@ + digits(n as nat),
    decreases n,
{
    if n >= 10 {
        push_digits(out, n / 10);
    }
    let c = (48u8 + (n % 10) as u8) as char;
    out.push(c);
    assert(c == digit((n % 10) as int));
    assert(out@ =~= old(out)@ + digits(n as nat));
}

/// Appends `n` in decimal.
pub fn push_decimal(out: &mut String, n: i64)
    ensures
        final(out)@ == old(out)@ + decimal(n as int),
{
    if n < 0 {
        out.push('-');
        let magnitude: u64 = (-(n as i128)) as u64;
        push_digits(out, magnitude);
        assert(out@ =~= old(out)@ + decimal(n as int));
    } else {
        push_digits(out, n as u64);
    }
}

/// Appends `n` in decimal.
pub fn push_count(out: &mut String, n: usize)
    ensures
        final(out)@ == old(out)@ + decimal(n as int),
{
    push_digits(out, n as u64);
}

proof fn lemma_value_monotone(s: Seq<char>, k: int)
    requires
        0 <= k <= s.len(),
        forall|i: int| 0 <= i < s.len() ==> is_digit(#[trigger] s[i]),
    ensures
        0 <= digits_value(s.take(k)) <= digits_value(s),
    decreases s.len(),
{
    if k == s.len() {
        assert(s.take(k) =~= s);
        if s.len() > 0 {
            assert(s.drop_last().take(s.len() - 1) =~= s.drop_last());
            assert(is_digit(s[s.len() - 1]));
            assert forall|i: int| 0 <= i < s.drop_last().len() implies is_digit(
                #[trigger] s.drop_last()[i],
            ) by {
                assert(is_digit(s[i]));
            }
            lemma_value_monotone(s.drop_last(), s.len() - 1);
        }
    } else {
        assert forall|i: int| 0 <= i < s.drop_last().len() implies is_digit(
            #[trigger] s.drop_last()[i],
        ) by {
            assert(is_digit(s[i]));
        }
        lemma_value_monotone(s.drop_last(), k);
        assert(s.drop_last().take(k) =~= s.take(k));
        assert(is_digit(s[s.len() - 1]));
    }
}

/// The number that the characters of `chars` from `from` on spell, if they are
/// digits and the number is not beyond all 64-bit ones.
fn read_digits(chars: &Vec<char>, from: usize) -> (r: Option<i128>)
    requires
        from <= chars@.len(),
    ensures
        match r {
            Some(n) => all_digits(chars@.skip(from as int)) && n == digits_value(
                chars@.skip(from as int),
            ) && 0 <= n,
            None => all_digits(chars@.skip(from as int)) ==> digits_value(chars@.skip(from as int))
                > 0x1_0000_0000_0000_0000,
        },
{
    let ghost s = chars@.skip(from as int);
    if from == chars.len() {
        return None;
    }
    let mut n: i128 = 0;
    let mut i: usize = from;
    while i < chars.len()
        invariant
            from <= i <= chars@.len(),
            s == chars@.skip(from as int),
            0 <= n <= 0x1_0000_0000_0000_0000,
            n == digits_value(s.take(i - from)),
            forall|j: int| 0 <= j < i - from ==> is_digit(#[trigger] s[j]),
        decreases chars.len() - i,
    {
        let c = chars[i];
        assert(s[i - from] == c);
        if !('0' <= c && c <= '9') {
            return None;
        }
        n = n * 10 + (c as u32 as i128 - 48);
        proof {
            let k = i - from;
            assert(s.take(k + 1).drop_last() =~= s.take(k));
            assert(s.take(k + 1).last() == c);
        }
        i += 1;
        if n > 0x1_0000_0000_0000_0000 {
            proof {
                if all_digits(s) {
                    lemma_value_monotone(s, i - from);
                }
            }
            return None;
        }
    }
    assert(s.take(s.len() as int) =~= s);
    Some(n)
}

/// Reads a 64-bit number: an optional sign, then digits.
pub fn parse_i64(text: &str) -> (r: Option<i64>)
    ensures
        r == parsed_i64(text@),
{
    let chars = chars_of(text);
    if chars.len() == 0 {
        return None;
    }
    let negative = chars[0] == '-';
    let from: usize = if negative || chars[0] == '+' {
        1
    } else {
        0
    };
    assert(text@.skip(0) =~= text@);
    match read_digits(&chars, from) {
        None => None,
        Some(n) => {
            let value: i128 = if negative {
                -n
            } else {
                n
            };
            if value < i64::MIN as i128 || value > i64::MAX as i128 {
                None
            } else {
                Some(value as i64)
            }
        },
    }
}

proof fn lemma_digits(n: nat)
    ensures
        all_digits(digits(n)),
        digits_value(digits(n)) == n,
    decreases n,
{
    if n >= 10 {
        lemma_digits(n / 10);
        let s = digits(n);
        assert(s.drop_last() =~= digits(n / 10));
        assert forall|i: int| 0 <= i < s.len() implies is_digit(#[trigger] s[i]) by {
            if i < s.len() - 1 {
                assert(is_digit(digits(n / 10)[i]));
            }
        }
    } else {
        let s = digits(n);
        assert(s.drop_last() =~= Seq::<char>::empty());
        assert(s.last() as int == 48 + n);
        assert(digits_value(s.drop_last()) == 0);
    }
}

/// Every 64-bit number is read back from its decimal text, which consists of
/// digits and at most a minus sign.
pub proof fn law_decimal_round_trips(n: i64)
    ensures
        parsed_i64(decimal(n as int)) == Some(n),
        forall|i: int|
            0 <= i < decimal(n as int).len() ==> is_digit(#[trigger] decimal(n as int)[i])
                || decimal(n as int)[i] == '-',
{
    let s = decimal(n as int);
    if n < 0 {
        lemma_digits((-n) as nat);
        assert(s.skip(1) =~= digits((-n) as nat));
        assert forall|i: int| 0 <= i < s.len() implies is_digit(#[trigger] s[i]) || s[i] == '-' by {
            if i > 0 {
                assert(s[i] == digits((-n) as nat)[i - 1]);
            }
        }
    } else {
        lemma_digits(n as nat);
        assert(is_digit(s[0]));
    }
}

/// Digits stand for a number place by place: each counts for ten times what it
/// would one place further right.
pub proof fn law_digits_value(s: Seq<char>, c: char)
    requires
        '0' <= c && c <= '9',
    ensures
        digits_value(Seq::empty()) == 0,
        digits_value(s.push(c)) == 10 * digits_value(s) + (c as int - '0' as int),
{
    assert(s.push(c).drop_last() =~= s);
}

/// A number is written in digits alone, behind a minus sign where it is negative,
/// without zeros in front of it; the digits stand for it.
pub proof fn law_decimal_form(n: int)
    ensures
        ({
            let body = if n < 0 {
                decimal(n).skip(1)
            } else {
                decimal(n)
            };
            &&& n < 0 ==> decimal(n).len() > 1 && decimal(n)[0] == '-'
            &&& body.len() > 0
            &&& forall|i: int| 0 <= i < body.len() ==> '0' <= #[trigger] body[i] && body[i] <= '9'
            &&& body[0] == '0' ==> n == 0 && body.len() == 1
            &&& digits_value(body) == if n < 0 {
                -n
            } else {
                n
            }
        }),
{
    let m: nat = if n < 0 {
        (-n) as nat
    } else {
        n as nat
    };
    lemma_digits(m);
    lemma_first_digit(m);
    if n < 0 {
        assert(decimal(n).skip(1) =~= digits(m));
    }
    let body = digits(m);
    assert forall|i: int| 0 <= i < body.len() implies '0' <= #[trigger] body[i] && body[i]
        <= '9' by {
        assert(is_digit(body[i]));
    }
}

proof fn lemma_first_digit(n: nat)
    ensures
        digits(n).len() > 0,
        digits(n)[0] == '0' ==> n == 0 && digits(n).len() == 1,
    decreases n,
{
    if n >= 10 {
        lemma_first_digit(n / 10);
        assert(digits(n)[0] == digits(n / 10)[0]);
    }
}

/// The characters from `0` to `9` alone, one at least.
pub open spec fn numeral(s: Seq<char>) -> bool {
    s.len() > 0 && forall|i: int| 0 <= i < s.len() ==> '0' <= #[trigger] s[i] && s[i] <= '9'
}

/// A text is read as a number exactly where it consists of digits, one at least,
/// with or without a sign in front of them, and stands for one in range.
pub proof fn law_parsed_form(s: Seq<char>)
    requires
        s.len() > 0,
    ensures
        s[0] == '-' ==> (parsed_i64(s) is Some <==> numeral(s.skip(1)) && digits_value(s.skip(1))
            <= 0x8000_0000_0000_0000),
        s[0] == '-' ==> (parsed_i64(s) matches Some(n) ==> n == -digits_value(s.skip(1))),
        s[0] == '+' ==> (parsed_i64(s) is Some <==> numeral(s.skip(1)) && digits_value(s.skip(1))
            <= 0x7fff_ffff_ffff_ffff),
        s[0] == '+' ==> (parsed_i64(s) matches Some(n) ==> n == digits_value(s.skip(1))),
        s[0] != '-' && s[0] != '+' ==> (parsed_i64(s) is Some <==> numeral(s) && digits_value(s)
            <= 0x7fff_ffff_ffff_ffff),
        s[0] != '-' && s[0] != '+' ==> (parsed_i64(s) matches Some(n) ==> n == digits_value(s)),
{
    lemma_numeral(s);
    lemma_numeral(s.skip(1));
}

proof fn lemma_numeral(s: Seq<char>)
    ensures
        numeral(s) == all_digits(s),
        numeral(s) ==> digits_value(s) >= 0,
{
    if all_digits(s) {
        assert forall|i: int| 0 <= i < s.len() implies '0' <= #[trigger] s[i] && s[i] <= '9' by {
            assert(is_digit(s[i]));
        }
        lemma_value_monotone(s, 0);
    }
    if numeral(s) {
        assert forall|i: int| 0 <= i < s.len() implies is_digit(#[trigger] s[i]) by {
        }
    }
}

/// No text at all is no number.
pub proof fn law_nothing_parsed()
    ensures
        parsed_i64(Seq::empty()) is None,
{
}

} // verus!
