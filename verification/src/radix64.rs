//! Base64 text, as RFC 4648 defines it with the standard alphabet.

use base64::engine::general_purpose::STANDARD;
use base64::Engine;
use vstd::prelude::*;
use vstd::string::*;

verus! {

/// The character of the standard alphabet for a six-bit digit.
pub open spec fn digit(n: int) -> char {
    if n < 26 {
        (n + 65) as char
    } else if n < 52 {
        (n + 71) as char
    } else if n < 62 {
        (n - 4) as char
    } else if n == 62 {
        '+'
    } else {
        '/'
    }
}

/// The base64 text of `s`, padded with `=` to a multiple of four characters.
pub open spec fn padded(s: Seq<u8>) -> Seq<char>
    decreases s.len(),
{
    if s.len() == 0 {
        Seq::empty()
    } else if s.len() == 1 {
        seq![digit(s[0] as int / 4), digit(s[0] as int % 4 * 16), '=', '=']
    } else if s.len() == 2 {
        seq![
            digit(s[0] as int / 4),
            digit(s[0] as int % 4 * 16 + s[1] as int / 16),
            digit(s[1] as int % 16 * 4),
            '=',
        ]
    } else {
        seq![
            digit(s[0] as int / 4),
            digit(s[0] as int % 4 * 16 + s[1] as int / 16),
            digit(s[1] as int % 16 * 4 + s[2] as int / 64),
            digit(s[2] as int % 64),
        ] + padded(s.skip(3))
    }
}

/// `s` without the characters `c` at its end.
pub open spec fn trimmed(s: Seq<char>, c: char) -> Seq<char>
    decreases s.len(),
{
    if s.len() > 0 && s.last() == c {
        trimmed(s.drop_last(), c)
    } else {
        s
    }
}

/// Calls `Engine::encode` of the `base64` crate on its `STANDARD` engine, which
/// is documented as the standard alphabet with padding. Trusted: the text is
/// [`padded`] of the data. The call panics where the length of the text does
/// not fit a `usize`; the `requires` keeps clear of that.
#[verifier::external_body]
fn base64_encode(data: &[u8]) -> (text: String)
    requires
        data@.len() / 3 * 4 + 4 <= usize::MAX,
    ensures
        text@ == padded(data@),
{
    STANDARD.encode(data)
}

/// The base64 text of `data` with its padding taken off.
pub fn encode_unpadded(data: &[u8]) -> (text: String)
    requires
        data@.len() / 3 * 4 + 4 <= usize::MAX,
    ensures
        text@ == trimmed(padded(data@), '='),
{
    let text = base64_encode(data);
    let s = text.as_str();
    let mut n: usize = s.unicode_len();
    assert(s@.take(n as int) =~= s@);
    while n > 0 && s.get_char(n - 1) == '='
        invariant
            n <= s@.len(),
            trimmed(s@.take(n as int), '=') == trimmed(s@, '='),
        decreases n,
    {
        assert(s@.take(n as int).drop_last() =~= s@.take(n - 1));
        n = n - 1;
    }
    s.substring_char(0, n).to_owned()
}

/// Different digits have different characters, and none of them is the padding.
proof fn lemma_digit(a: int, b: int)
    requires
        0 <= a < 64,
        0 <= b < 64,
    ensures
        digit(a) == digit(b) ==> a == b,
        digit(a) != '=',
{
}

/// The padded text of sixteen bytes, spelled out: 22 digits and two pads.
proof fn lemma_sixteen(s: Seq<u8>)
    requires
        s.len() == 16,
    ensures
        padded(s).len() == 24,
        trimmed(padded(s), '=') == padded(s).take(22),
        forall|i: int| 0 <= i < 5 ==> #[trigger] quad(padded(s), i) == triple_digits(s, i),
        padded(s)[20] == digit(s[15] as int / 4),
        padded(s)[21] == digit(s[15] as int % 4 * 16),
        forall|i: int| 0 <= i < 22 ==> #[trigger] padded(s)[i] != '=',
{
    let s1 = s.skip(3);
    let s2 = s1.skip(3);
    let s3 = s2.skip(3);
    let s4 = s3.skip(3);
    let s5 = s4.skip(3);
    let p = padded(s);
    let (p1, p2, p3, p4, p5) = (padded(s1), padded(s2), padded(s3), padded(s4), padded(s5));
    assert(p5.len() == 4 && p4.len() == 8 && p3.len() == 12 && p2.len() == 16 && p1.len() == 20);
    assert(quad(p, 0) =~= triple_digits(s, 0));
    assert(quad(p, 1) =~= quad(p1, 0) && triple_digits(s, 1) =~= triple_digits(s1, 0));
    assert(quad(p1, 0) =~= triple_digits(s1, 0));
    assert(quad(p, 2) =~= quad(p2, 0) && triple_digits(s, 2) =~= triple_digits(s2, 0));
    assert(quad(p2, 0) =~= triple_digits(s2, 0));
    assert(quad(p, 3) =~= quad(p3, 0) && triple_digits(s, 3) =~= triple_digits(s3, 0));
    assert(quad(p3, 0) =~= triple_digits(s3, 0));
    assert(quad(p, 4) =~= quad(p4, 0) && triple_digits(s, 4) =~= triple_digits(s4, 0));
    assert(quad(p4, 0) =~= triple_digits(s4, 0));
    assert(p[20] == p5[0] && p[21] == p5[1] && p[22] == p5[2] && p[23] == p5[3]);
    assert forall|i: int| 0 <= i < 22 implies #[trigger] p[i] != '=' by {
        if i < 20 {
            let k = i / 4;
            assert(quad(p, k)[i % 4] == p[i]);
            assert(triple_digits(s, k)[i % 4] != '=');
        }
    }
    reveal_with_fuel(trimmed, 4);
    assert(p.drop_last().drop_last() =~= p.take(22));
    assert(p.take(22).last() == p[21]);
}

/// The four characters of group `i`.
spec fn quad(p: Seq<char>, i: int) -> Seq<char> {
    p.subrange(4 * i, 4 * i + 4)
}

/// The four digits that write the three bytes of group `i`.
spec fn triple_digits(s: Seq<u8>, i: int) -> Seq<char> {
    let (a, b, c) = (s[3 * i] as int, s[3 * i + 1] as int, s[3 * i + 2] as int);
    seq![
        digit(a / 4),
        digit(a % 4 * 16 + b / 16),
        digit(b % 16 * 4 + c / 64),
        digit(c % 64),
    ]
}

/// Sixteen bytes are written as 22 characters, none of them a pad.
pub proof fn law_sixteen_bytes_print_as_22_characters(s: Seq<u8>)
    requires
        s.len() == 16,
    ensures
        trimmed(padded(s), '=').len() == 22,
        !trimmed(padded(s), '=').contains('='),
{
    lemma_sixteen(s);
}

/// Two different strings of sixteen bytes are written differently.
pub proof fn law_sixteen_bytes_print_injectively(s: Seq<u8>, t: Seq<u8>)
    requires
        s.len() == 16,
        t.len() == 16,
        trimmed(padded(s), '=') == trimmed(padded(t), '='),
    ensures
        s == t,
{
    lemma_sixteen(s);
    lemma_sixteen(t);
    let (p, q) = (padded(s), padded(t));
    assert forall|i: int| 0 <= i < 22 implies #[trigger] p[i] == q[i] by {
        assert(p.take(22)[i] == q.take(22)[i]);
    }
    assert forall|i: int| 0 <= i < 16 implies #[trigger] s[i] == t[i] by {
        if i < 15 {
            let k = i / 3;
            assert(quad(p, k) =~= quad(q, k));
            lemma_triple(s, t, k);
        } else {
            lemma_digit(s[15] as int / 4, t[15] as int / 4);
            lemma_digit(s[15] as int % 4 * 16, t[15] as int % 4 * 16);
        }
    }
    assert(s =~= t);
}

/// Equal digits come from equal bytes.
proof fn lemma_triple(s: Seq<u8>, t: Seq<u8>, k: int)
    requires
        triple_digits(s, k) == triple_digits(t, k),
    ensures
        s[3 * k] == t[3 * k],
        s[3 * k + 1] == t[3 * k + 1],
        s[3 * k + 2] == t[3 * k + 2],
{
    let (x, y) = (triple_digits(s, k), triple_digits(t, k));
    assert(x[0] == y[0] && x[1] == y[1] && x[2] == y[2] && x[3] == y[3]);
    let (a, b, c) = (s[3 * k] as int, s[3 * k + 1] as int, s[3 * k + 2] as int);
    let (d, e, f) = (t[3 * k] as int, t[3 * k + 1] as int, t[3 * k + 2] as int);
    lemma_digit(a / 4, d / 4);
    lemma_digit(a % 4 * 16 + b / 16, d % 4 * 16 + e / 16);
    lemma_digit(b % 16 * 4 + c / 64, e % 16 * 4 + f / 64);
    lemma_digit(c % 64, f % 64);
}

} // verus!
