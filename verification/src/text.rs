//! Characters of a text and their UTF-8 byte positions.

use vstd::prelude::*;
use vstd::string::*;
use vstd::utf8::*;

verus! {

/// Number of bytes in the UTF-8 encoding of `c`.
pub open spec fn char_width(c: char) -> nat {
    if (c as u32) <= 0x7f {
        1
    } else if (c as u32) <= 0x7ff {
        2
    } else if (c as u32) <= 0xffff {
        3
    } else {
        4
    }
}

/// Byte position, in the UTF-8 encoding of `cs`, of the character at index `i`.
pub open spec fn byte_pos(cs: Seq<char>, i: int) -> nat {
    encode_utf8(cs.take(i)).len()
}

/// Number of bytes in the UTF-8 encoding of `cs`.
pub open spec fn byte_len(cs: Seq<char>) -> nat {
    encode_utf8(cs).len()
}

/// The encoding of a character is as long as its width says.
pub proof fn lemma_scalar_width(c: char)
    ensures
        encode_scalar(c as u32).len() == char_width(c),
{
    char_is_scalar(c);
}

/// Encoding distributes over concatenation.
pub proof fn lemma_encode_concat(a: Seq<char>, b: Seq<char>)
    ensures
        encode_utf8(a + b) == encode_utf8(a) + encode_utf8(b),
    decreases a.len(),
{
    if a.len() == 0 {
        assert(a + b =~= b);
        assert(encode_utf8(a) + encode_utf8(b) =~= encode_utf8(b));
    } else {
        assert((a + b).drop_first() =~= a.drop_first() + b);
        lemma_encode_concat(a.drop_first(), b);
        assert((a + b)[0] == a[0]);
        assert(encode_utf8(a + b) =~= encode_scalar(a[0] as u32) + (encode_utf8(a.drop_first())
            + encode_utf8(b)));
    }
}

/// The encoding of a single character.
pub proof fn lemma_encode_single(c: char)
    ensures
        encode_utf8(seq![c]) == encode_scalar(c as u32),
{
    assert(seq![c].drop_first() =~= Seq::<char>::empty());
    assert(encode_utf8(Seq::<char>::empty()) =~= Seq::<u8>::empty());
    assert(encode_scalar(c as u32) + Seq::<u8>::empty() =~= encode_scalar(c as u32));
}

/// Stepping over one character advances the byte position by its width.
pub proof fn lemma_byte_pos_step(cs: Seq<char>, i: int)
    requires
        0 <= i < cs.len(),
    ensures
        byte_pos(cs, i + 1) == byte_pos(cs, i) + char_width(cs[i]),
{
    assert(cs.take(i + 1) =~= cs.take(i) + seq![cs[i]]);
    lemma_encode_concat(cs.take(i), seq![cs[i]]);
    lemma_encode_single(cs[i]);
    lemma_scalar_width(cs[i]);
}

/// Byte positions never decrease.
pub proof fn lemma_byte_pos_monotone(cs: Seq<char>, i: int, j: int)
    requires
        0 <= i <= j <= cs.len(),
    ensures
        byte_pos(cs, i) <= byte_pos(cs, j),
        i < j ==> byte_pos(cs, i) < byte_pos(cs, j),
    decreases j - i,
{
    if i < j {
        lemma_byte_pos_monotone(cs, i, j - 1);
        lemma_byte_pos_step(cs, j - 1);
    }
}

/// The position after the last character is the byte length.
pub proof fn lemma_byte_pos_end(cs: Seq<char>)
    ensures
        byte_pos(cs, cs.len() as int) == byte_len(cs),
{
    assert(cs.take(cs.len() as int) =~= cs);
}

/// The bytes between two character positions encode the characters between them.
pub proof fn lemma_encode_subrange(cs: Seq<char>, i: int, j: int)
    requires
        0 <= i <= j <= cs.len(),
    ensures
        byte_pos(cs, i) <= byte_pos(cs, j) <= byte_len(cs),
        encode_utf8(cs).subrange(byte_pos(cs, i) as int, byte_pos(cs, j) as int) == encode_utf8(
            cs.subrange(i, j),
        ),
{
    let a = cs.take(i);
    let m = cs.subrange(i, j);
    let z = cs.skip(j);
    assert(cs =~= a + m + z);
    assert(cs.take(j) =~= a + m);
    lemma_encode_concat(a, m);
    lemma_encode_concat(a + m, z);
    lemma_byte_pos_monotone(cs, i, j);
    lemma_byte_pos_monotone(cs, j, cs.len() as int);
    lemma_byte_pos_end(cs);
    let ea = encode_utf8(a);
    let em = encode_utf8(m);
    let ez = encode_utf8(z);
    assert(encode_utf8(cs) =~= ea + em + ez);
    assert((ea + em + ez).subrange(ea.len() as int, (ea.len() + em.len()) as int) =~= em);
}

/// Every character position falls on a character boundary of the encoding.
pub proof fn lemma_char_boundary(cs: Seq<char>, i: int)
    requires
        0 <= i <= cs.len(),
    ensures
        is_char_boundary(encode_utf8(cs), byte_pos(cs, i) as int),
    decreases i,
{
    let bytes = encode_utf8(cs);
    encode_utf8_valid_utf8(cs);
    if i == 0 {
        assert(cs.take(0) =~= Seq::<char>::empty());
        assert(encode_utf8(Seq::<char>::empty()) =~= Seq::<u8>::empty());
    } else {
        encode_utf8_first_scalar(cs);
        lemma_scalar_width(cs[0]);
        assert(pop_first_scalar(bytes) =~= encode_utf8(cs.drop_first()));
        lemma_char_boundary(cs.drop_first(), i - 1);
        assert(cs.take(i) =~= seq![cs[0]] + cs.drop_first().take(i - 1));
        lemma_encode_concat(seq![cs[0]], cs.drop_first().take(i - 1));
        lemma_encode_single(cs[0]);
        lemma_byte_pos_monotone(cs, i, cs.len() as int);
        lemma_byte_pos_end(cs);
    }
}

/// Number of bytes in the UTF-8 encoding of `c`.
pub fn width_of(c: char) -> (w: u32)
    ensures
        w == char_width(c),
        1 <= w <= 4,
{
    let u = c as u32;
    if u <= 0x7f {
        1
    } else if u <= 0x7ff {
        2
    } else if u <= 0xffff {
        3
    } else {
        4
    }
}

/// The characters of `s`, in order.
pub fn chars_of(s: &str) -> (r: Vec<char>)
    ensures
        r@ == s@,
{
    let mut r: Vec<char> = Vec::new();
    for c in it: s.chars()
        invariant
            r@ == it.seq().take(it.index() as int),
            it.seq() == s@,
    {
        r.push(c);
    }
    r
}

/// The decimal digit for `d`, which is below ten.
pub open spec fn digit_char(d: nat) -> char {
    if d == 0 {
        '0'
    } else if d == 1 {
        '1'
    } else if d == 2 {
        '2'
    } else if d == 3 {
        '3'
    } else if d == 4 {
        '4'
    } else if d == 5 {
        '5'
    } else if d == 6 {
        '6'
    } else if d == 7 {
        '7'
    } else if d == 8 {
        '8'
    } else {
        '9'
    }
}

/// `n` written in decimal, without leading zeros.
pub open spec fn decimal(n: nat) -> Seq<char>
    decreases n,
{
    if n < 10 {
        seq![digit_char(n)]
    } else {
        decimal(n / 10) + seq![digit_char(n % 10)]
    }
}

/// Whether `c` is one of the digits `0` to `9`.
pub open spec fn is_digit(c: char) -> bool {
    '0' <= c <= '9'
}

/// The value of a digit.
pub open spec fn digit_value(c: char) -> nat {
    (c as u32 - '0' as u32) as nat
}

/// The number that a string of digits denotes in base ten.
pub open spec fn decimal_value(s: Seq<char>) -> nat
    decreases s.len(),
{
    if s.len() == 0 {
        0
    } else {
        decimal_value(s.drop_last()) * 10 + digit_value(s.last())
    }
}

/// `decimal(n)` is the base-ten numeral of `n`: it is made of digits, read
/// back it gives `n`, it starts with a zero only when it is `0`, and it is
/// one digit longer for every further factor of ten.
pub proof fn lemma_decimal_numeral(n: nat)
    ensures
        decimal(n).len() >= 1,
        forall|k: int| 0 <= k < decimal(n).len() ==> is_digit(#[trigger] decimal(n)[k]),
        decimal_value(decimal(n)) == n,
        decimal(n)[0] == '0' ==> n == 0,
        n < 10 ==> decimal(n).len() == 1,
        n >= 10 ==> decimal(n).len() == decimal(n / 10).len() + 1,
    decreases n,
{
    if n < 10 {
        let s = decimal(n);
        assert(s.drop_last() =~= Seq::<char>::empty());
        assert(decimal_value(Seq::<char>::empty()) == 0);
    } else {
        lemma_decimal_numeral(n / 10);
        let s = decimal(n);
        let p = decimal(n / 10);
        assert(s.drop_last() =~= p);
        assert(s[0] == p[0]);
        assert forall|k: int| 0 <= k < s.len() implies is_digit(#[trigger] s[k]) by {
            if k < p.len() {
                assert(s[k] == p[k]);
            }
        }
        assert(n / 10 * 10 + n % 10 == n);
    }
}

/// The decimal digit for `d`.
fn digit_text(d: u32) -> (r: &'static str)
    requires
        d < 10,
    ensures
        r@ == seq![digit_char(d as nat)],
{
    proof {
        reveal_strlit("0");
        reveal_strlit("1");
        reveal_strlit("2");
        reveal_strlit("3");
        reveal_strlit("4");
        reveal_strlit("5");
        reveal_strlit("6");
        reveal_strlit("7");
        reveal_strlit("8");
        reveal_strlit("9");
    }
    if d == 0 {
        "0"
    } else if d == 1 {
        "1"
    } else if d == 2 {
        "2"
    } else if d == 3 {
        "3"
    } else if d == 4 {
        "4"
    } else if d == 5 {
        "5"
    } else if d == 6 {
        "6"
    } else if d == 7 {
        "7"
    } else if d == 8 {
        "8"
    } else {
        "9"
    }
}

/// `n` written in decimal.
pub fn decimal_string(n: u32) -> (r: String)
    ensures
        r@ == decimal(n as nat),
    decreases n,
{
    if n < 10 {
        String::from_str(digit_text(n))
    } else {
        let mut r = decimal_string(n / 10);
        r.append(digit_text(n % 10));
        r
    }
}

} // verus!
