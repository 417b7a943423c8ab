//! Building console text: characters from codes, strings, decimal numbers.

use vstd::prelude::*;
use vstd::string::*;

verus! {

/// `v` is a Unicode scalar value: at most `0x10FFFF` and not a surrogate.
pub open spec fn is_char_code(v: u32) -> bool {
    v <= 0x10_FFFF && !(0xD800 <= v <= 0xDFFF)
}

/// `core::char::from_u32`: the character whose code is `v`, `None` when `v`
/// is not a Unicode scalar value.
#[verifier::external_body]
pub fn char_from_u32(v: u32) -> (r: Option<char>)
    ensures
        r is Some <==> is_char_code(v),
        r matches Some(c) ==> c as u32 == v && c == v as char,
{
    core::char::from_u32(v)
}

/// `String::push`: appends `c`.
#[verifier::external_body]
pub fn push_char(s: &mut String, c: char)
    ensures
        final(s)@ == old(s)@.push(c),
{
    s.push(c);
}

/// `String::clear`: removes every character, keeping the buffer.
#[verifier::external_body]
pub fn clear_string(s: &mut String)
    ensures
        final(s)@ == Seq::<char>::empty(),
{
    s.clear();
}

/// Appends the characters of `data`.
pub fn push_str(s: &mut String, data: &str)
    ensures
        final(s)@ == old(s)@ + data@,
{
    let n = data.unicode_len();
    let mut i: usize = 0;
    while i < n
        invariant
            n == data@.len(),
            i <= n,
            s@ == old(s)@ + data@.subrange(0, i as int),
        decreases n - i,
    {
        let c = data.get_char(i);
        push_char(s, c);
        i = i + 1;
        assert(s@ =~= old(s)@ + data@.subrange(0, i as int));
    }
    assert(data@.subrange(0, n as int) =~= data@);
}

/// The character of decimal digit `d`.
pub open spec fn digit_char(d: int) -> char {
    (48 + d) as char
}

/// `n` written in decimal, without leading zeros.
pub open spec fn decimal(n: nat) -> Seq<char>
    decreases n,
{
    if n < 10 {
        seq![digit_char(n as int)]
    } else {
        decimal(n / 10).push(digit_char((n % 10) as int))
    }
}

/// Appends `n` written in decimal.
pub fn push_decimal(s: &mut String, n: usize)
    ensures
        final(s)@ == old(s)@ + decimal(n as nat),
    decreases n,
{
    if n >= 10 {
        push_decimal(s, n / 10);
    }
    let d = (n % 10) as u32;
    let c = char_from_u32(48 + d).unwrap();
    assert(c == digit_char(d as int));
    push_char(s, c);
    assert(s@ =~= old(s)@ + decimal(n as nat));
}

} // verus!
