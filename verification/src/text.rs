use vstd::prelude::*;

verus! {

/// `String::push` appends one character to the end of the string.
pub assume_specification[ std::string::String::push ](s: &mut std::string::String, ch: char)
    ensures
        final(s)@ == old(s)@.push(ch),
;

/// The characters of `s`, in order.
pub fn chars_of(s: &str) -> (r: Vec<char>)
    ensures
        r@ == s@,
{
    let mut r: Vec<char> = Vec::new();
    for c in it: s.chars()
        invariant
            r@ == it.seq().take(it.index() as int),
            it.seq() == s@,
    {
        r.push(c);
    }
    r
}

/// Whether `name` is the text `word`.
pub fn is_text(name: &String, word: &str) -> (b: bool)
    ensures
        b == (name@ == word@),
{
    let w = String::from_str(word);
    *name == w
}

/// Whether `c` is one of the decimal digits `0` to `9`.
pub open spec fn is_digit(c: char) -> bool {
    '0' <= c && c <= '9'
}

/// Whether `c` is an ASCII letter.
pub open spec fn is_alpha(c: char) -> bool {
    ('a' <= c && c <= 'z') || ('A' <= c && c <= 'Z')
}

/// Whether `c` may continue an identifier: an ASCII letter, a digit or `_`.
pub open spec fn is_word_char(c: char) -> bool {
    is_alpha(c) || is_digit(c) || c == '_'
}

/// Whether `c` is white space: the characters with the Unicode property
/// `White_Space`.
pub open spec fn is_space(c: char) -> bool {
    let u = c as u32;
    (0x09 <= u && u <= 0x0d) || u == 0x20 || u == 0x85 || u == 0xa0 || u == 0x1680 || (0x2000 <= u
        && u <= 0x200a) || u == 0x2028 || u == 0x2029 || u == 0x202f || u == 0x205f || u == 0x3000
}

/// Whether `c` is a decimal digit.
pub fn digit(c: char) -> (b: bool)
    ensures
        b == is_digit(c),
{
    c >= '0' && c <= '9'
}

/// Whether `c` is an ASCII letter.
pub fn alpha(c: char) -> (b: bool)
    ensures
        b == is_alpha(c),
{
    (c >= 'a' && c <= 'z') || (c >= 'A' && c <= 'Z')
}

/// Whether `c` may continue an identifier.
pub fn word_char(c: char) -> (b: bool)
    ensures
        b == is_word_char(c),
{
    alpha(c) || digit(c) || c == '_'
}

/// Whether `c` is white space.
pub fn space(c: char) -> (b: bool)
    ensures
        b == is_space(c),
{
    let u: u32 = c as u32;
    (0x09 <= u && u <= 0x0d) || u == 0x20 || u == 0x85 || u == 0xa0 || u == 0x1680 || (0x2000 <= u
        && u <= 0x200a) || u == 0x2028 || u == 0x2029 || u == 0x202f || u == 0x205f || u == 0x3000
}

/// The value of the decimal digit `c`.
pub open spec fn digit_value(c: char) -> int {
    c as u32 - 0x30
}

/// The character that stands for `d` in base 16 and below, in upper case.
pub open spec fn digit_char(d: int) -> char {
    if d < 10 {
        ((0x30 + d) as u8) as char
    } else {
        ((0x37 + d) as u8) as char
    }
}

/// The decimal digits of `n`, most significant first, without leading
/// zeros; `0` is the single digit `0`.
pub open spec fn decimal_digits(n: nat) -> Seq<char>
    decreases n,
{
    if n < 10 {
        seq![digit_char(n as int)]
    } else {
        decimal_digits(n / 10).push(digit_char((n % 10) as int))
    }
}

/// The hexadecimal digits of `n` in upper case, most significant first,
/// without leading zeros; `0` is the single digit `0`.
pub open spec fn hex_digits(n: nat) -> Seq<char>
    decreases n,
{
    if n < 16 {
        seq![digit_char(n as int)]
    } else {
        hex_digits(n / 16).push(digit_char((n % 16) as int))
    }
}

/// The decimal text of `n`: a minus sign for a negative number, then the
/// digits of its magnitude.
pub open spec fn decimal_text(n: int) -> Seq<char> {
    if n < 0 {
        seq!['-'] + decimal_digits((-n) as nat)
    } else {
        decimal_digits(n as nat)
    }
}

/// The text of an address: `#`, then `p` in upper-case hexadecimal.
pub open spec fn pointer_text(p: u32) -> Seq<char> {
    seq!['#'] + hex_digits(p as nat)
}

/// The character that stands for the digit `d`.
fn digit_of(d: u32) -> (c: char)
    requires
        d < 16,
    ensures
        c == digit_char(d as int),
{
    if d < 10 {
        ((0x30 + d) as u8) as char
    } else {
        ((0x37 + d) as u8) as char
    }
}

/// Appends the decimal digits of `n` to `s`.
fn push_decimal(s: &mut String, n: u64)
    ensures
        final(s)@ == old(s)@ + decimal_digits(n as nat),
    decreases n,
{
    if n < 10 {
        s.push(digit_of(n as u32));
        assert(final(s)@ =~= old(s)@ + decimal_digits(n as nat));
    } else {
        push_decimal(s, n / 10);
        s.push(digit_of((n % 10) as u32));
        assert(final(s)@ =~= old(s)@ + decimal_digits(n as nat));
    }
}

/// Appends the hexadecimal digits of `n` to `s`.
fn push_hex(s: &mut String, n: u32)
    ensures
        final(s)@ == old(s)@ + hex_digits(n as nat),
    decreases n,
{
    if n < 16 {
        s.push(digit_of(n));
        assert(final(s)@ =~= old(s)@ + hex_digits(n as nat));
    } else {
        push_hex(s, n / 16);
        s.push(digit_of(n % 16));
        assert(final(s)@ =~= old(s)@ + hex_digits(n as nat));
    }
}

/// Writes `n` in decimal.
pub fn decimal(n: i32) -> (s: String)
    ensures
        s@ == decimal_text(n as int),
{
    let mut s = String::new();
    if n < 0 {
        s.push('-');
        let magnitude: u64 = (-(n as i64)) as u64;
        push_decimal(&mut s, magnitude);
        assert(s@ =~= decimal_text(n as int));
    } else {
        push_decimal(&mut s, n as u64);
        assert(s@ =~= decimal_text(n as int));
    }
    s
}

/// Writes the count `n` in decimal.
pub fn count(n: usize) -> (s: String)
    ensures
        s@ == decimal_digits(n as nat),
{
    let mut s = String::new();
    push_decimal(&mut s, n as u64);
    assert(s@ =~= decimal_digits(n as nat));
    s
}

/// Writes the address `p`: `#` and its upper-case hexadecimal digits.
pub fn pointer(p: u32) -> (s: String)
    ensures
        s@ == pointer_text(p),
{
    let mut s = String::new();
    s.push('#');
    push_hex(&mut s, p);
    assert(s@ =~= pointer_text(p));
    s
}

/// The character whose code is `n` modulo 256.
pub open spec fn latin_char(n: i32) -> char {
    (((n as int) % 256) as u8) as char
}

/// The character whose code is `n` modulo 256.
pub fn latin(n: i32) -> (c: char)
    ensures
        c == latin_char(n),
{
    let shifted: u64 = (n as i64 + 0x8000_0000) as u64;
    let code: u8 = (shifted % 256) as u8;
    code as char
}

} // verus!
