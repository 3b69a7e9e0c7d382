//! Texts: comparing them, and numbers in them.

use vstd::prelude::*;
use vstd::string::{StrSliceExecFns, StringExecFns};

verus! {

/// Whether two texts are the same.
pub fn same_text(a: &str, b: &str) -> (same: bool)
    ensures
        same == (a@ == b@),
{
    let n: usize = a.unicode_len();
    if n != b.unicode_len() {
        return false;
    }
    let mut i: usize = 0;
    while i < n
        invariant
            n == a@.len(),
            n == b@.len(),
            i <= n,
            forall|j: int| 0 <= j < i ==> a@[j] == b@[j],
        decreases n - i,
    {
        if a.get_char(i) != b.get_char(i) {
            return false;
        }
        i = i + 1;
    }
    assert(a@ =~= b@);
    true
}

/// Whether a character is a decimal digit.
pub open spec fn is_digit(c: char) -> bool {
    '0' <= c && c <= '9'
}

/// The number that decimal digits write.
pub open spec fn digits_value(s: Seq<char>) -> nat
    decreases s.len(),
{
    if s.len() == 0 {
        0
    } else {
        10 * digits_value(s.drop_last()) + (s.last() as nat - '0' as nat) as nat
    }
}

/// The number that one or more decimal digits, and nothing else, write.
pub open spec fn digits(s: Seq<char>) -> Option<nat> {
    if s.len() > 0 && forall|i: int| 0 <= i < s.len() ==> is_digit(#[trigger] s[i]) {
        Some(digits_value(s))
    } else {
        None
    }
}

/// The number that a text writes: decimal digits, with or without a plus sign
/// before them.
pub open spec fn unsigned(s: Seq<char>) -> Option<nat> {
    if s.len() > 0 && s[0] == '+' {
        digits(s.skip(1))
    } else {
        digits(s)
    }
}

/// The number that a text writes: decimal digits, with or without a sign before
/// them.
pub open spec fn signed(s: Seq<char>) -> Option<int> {
    if s.len() > 0 && s[0] == '-' {
        match digits(s.skip(1)) {
            Some(v) => Some(-(v as int)),
            None => None,
        }
    } else {
        match unsigned(s) {
            Some(v) => Some(v as int),
            None => None,
        }
    }
}

proof fn lemma_digits_grow(s: Seq<char>, n: int)
    requires
        0 <= n <= s.len(),
        forall|i: int| 0 <= i < s.len() ==> is_digit(#[trigger] s[i]),
    ensures
        digits_value(s.take(n)) <= digits_value(s),
    decreases s.len() - n,
{
    if n < s.len() {
        lemma_digits_grow(s, n + 1);
        assert(s.take(n + 1).drop_last() =~= s.take(n));
    } else {
        assert(s.take(n) =~= s);
    }
}

/// The number that the digits from `start` on write, if there are any, nothing
/// else follows, and the number is at most `max`.
fn parse_digits(s: &str, start: usize, max: u64) -> (r: Option<u64>)
    requires
        start <= s@.len(),
        max <= 0xffff_ffff,
    ensures
        r == match digits(s@.skip(start as int)) {
            Some(v) => if v <= max {
                Some(v as u64)
            } else {
                None
            },
            None => None,
        },
{
    let n: usize = s.unicode_len();
    let ghost text = s@.skip(start as int);
    if start >= n {
        return None;
    }
    let mut i: usize = start;
    let mut v: u64 = 0;
    assert(text.take(0) =~= Seq::empty());
    while i < n
        invariant
            start <= i <= n,
            start < n,
            n == s@.len(),
            text == s@.skip(start as int),
            max <= 0xffff_ffff,
            v <= max,
            v == digits_value(text.take(i - start)),
            forall|j: int| 0 <= j < i - start ==> is_digit(#[trigger] text[j]),
        decreases n - i,
    {
        let c = s.get_char(i);
        assert(c == text[i - start]);
        if c < '0' || c > '9' {
            assert(!is_digit(text[i - start]));
            return None;
        }
        proof {
            let longer = text.take(i - start + 1);
            assert(longer.drop_last() =~= text.take(i - start));
            assert(longer.last() == c);
        }
        v = v * 10 + (c as u64 - '0' as u64);
        if v > max {
            proof {
                if digits(text) is Some {
                    lemma_digits_grow(text, i - start + 1);
                }
            }
            return None;
        }
        i = i + 1;
    }
    assert(text.take(i - start) =~= text);
    Some(v)
}

/// The number that a text writes, if it is one of 16 bits.
pub fn parse_u16(s: &str) -> (r: Option<u16>)
    ensures
        r == match unsigned(s@) {
            Some(v) => if v <= u16::MAX {
                Some(v as u16)
            } else {
                None
            },
            None => None,
        },
{
    let start: usize = if s.unicode_len() > 0 && s.get_char(0) == '+' {
        1
    } else {
        0
    };
    assert(s@.skip(0) =~= s@);
    match parse_digits(s, start, 0xffff) {
        Some(v) => Some(v as u16),
        None => None,
    }
}

/// The number that a text writes, if it is one of 32 bits with a sign.
pub fn parse_i32(s: &str) -> (r: Option<i32>)
    ensures
        r == match signed(s@) {
            Some(v) => if i32::MIN <= v <= i32::MAX {
                Some(v as i32)
            } else {
                None
            },
            None => None,
        },
{
    assert(s@.skip(0) =~= s@);
    if s.unicode_len() > 0 && s.get_char(0) == '-' {
        match parse_digits(s, 1, 0x8000_0000) {
            Some(v) => Some((-(v as i64)) as i32),
            None => None,
        }
    } else {
        let start: usize = if s.unicode_len() > 0 && s.get_char(0) == '+' {
            1
        } else {
            0
        };
        match parse_digits(s, start, 0x7fff_ffff) {
            Some(v) => Some(v as i32),
            None => None,
        }
    }
}

/// The decimal digit for a number below 10.
pub open spec fn digit_char(n: nat) -> char {
    ('0' as nat + n) as char
}

/// A number in decimal digits, without leading zeros.
pub open spec fn decimal(n: nat) -> Seq<char>
    decreases n,
{
    if n < 10 {
        seq![digit_char(n)]
    } else {
        decimal(n / 10).push(digit_char(n % 10))
    }
}

/// A number in decimal digits writes that number.
pub proof fn law_decimal_reads_back(n: nat)
    ensures
        unsigned(decimal(n)) == Some(n),
        digits(decimal(n)) == Some(n),
    decreases n,
{
    let s = decimal(n);
    if n < 10 {
        assert(s.drop_last() =~= Seq::empty());
        assert(digits_value(s.drop_last()) == 0);
    } else {
        law_decimal_reads_back(n / 10);
        assert(s.drop_last() =~= decimal(n / 10));
        assert(s[0] == decimal(n / 10)[0]);
        assert forall|i: int| 0 <= i < s.len() implies is_digit(#[trigger] s[i]) by {
            if i < s.len() - 1 {
                assert(s[i] == decimal(n / 10)[i]);
            }
        }
    }
    assert(is_digit(s[0]));
}

/// Digits count ten times as much with another digit behind them.
pub proof fn law_digits_count_by_ten(s: Seq<char>, n: nat)
    requires
        n < 10,
        digits(s) is Some,
    ensures
        digits(s.push(digit_char(n))) == Some((10 * digits(s)->0 + n) as nat),
        digits(seq![digit_char(n)]) == Some(n),
        digit_char(n) as int == '0' as int + n,
{
    let longer = s.push(digit_char(n));
    assert(longer.drop_last() =~= s);
    assert forall|i: int| 0 <= i < longer.len() implies is_digit(#[trigger] longer[i]) by {
        if i < s.len() {
            assert(longer[i] == s[i]);
        }
    }
    let one = seq![digit_char(n)];
    assert(one.drop_last() =~= Seq::empty());
    reveal_with_fuel(digits_value, 2);
}

/// A plus sign before digits changes nothing, a minus sign makes a number with a sign
/// negative, and a number without one has no minus sign.
pub proof fn law_signs(s: Seq<char>, n: nat)
    requires
        digits(s) == Some(n),
    ensures
        unsigned(s) == Some(n),
        unsigned(seq!['+'] + s) == Some(n),
        unsigned(seq!['-'] + s) is None,
        signed(s) == Some(n as int),
        signed(seq!['+'] + s) == Some(n as int),
        signed(seq!['-'] + s) == Some(-n),
{
    assert(is_digit(s[0]));
    assert((seq!['+'] + s).skip(1) =~= s);
    assert((seq!['-'] + s).skip(1) =~= s);
    assert(!is_digit((seq!['-'] + s)[0]));
}

/// A text with anything but digits and a sign in it writes no number, and neither
/// does one with a sign elsewhere than at its start, or with no digit.
pub proof fn law_what_is_no_number(s: Seq<char>, i: int)
    requires
        0 <= i < s.len(),
        !is_digit(s[i]),
    ensures
        i > 0 || s.len() == 1 || s[i] != '+' ==> unsigned(s) is None,
        i > 0 || s.len() == 1 || (s[i] != '+' && s[i] != '-') ==> signed(s) is None,
        unsigned(Seq::empty()) is None,
        signed(Seq::empty()) is None,
{
    if i > 0 {
        assert(s.skip(1)[i - 1] == s[i]);
    }
}

/// The text of a decimal digit.
fn digit_text(d: u64) -> (s: &'static str)
    requires
        d < 10,
    ensures
        s@ == seq![digit_char(d as nat)],
{
    proof {
        reveal_strlit("0");
        reveal_strlit("1");
        reveal_strlit("2");
        reveal_strlit("3");
        reveal_strlit("4");
        reveal_strlit("5");
        reveal_strlit("6");
        reveal_strlit("7");
        reveal_strlit("8");
        reveal_strlit("9");
    }
    let s = match d {
        0 => "0",
        1 => "1",
        2 => "2",
        3 => "3",
        4 => "4",
        5 => "5",
        6 => "6",
        7 => "7",
        8 => "8",
        _ => "9",
    };
    assert(s@ =~= seq![digit_char(d as nat)]);
    s
}

/// A number in decimal digits.
pub fn to_decimal(n: u64) -> (s: String)
    ensures
        s@ == decimal(n as nat),
    decreases n,
{
    if n < 10 {
        digit_text(n).to_owned()
    } else {
        let mut s = to_decimal(n / 10);
        s.append(digit_text(n % 10));
        assert(s@ =~= decimal(n as nat));
        s
    }
}

} // verus!
