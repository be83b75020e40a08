//! Text: numbers spelled out, and strings as UTF-16.

use vstd::prelude::*;
use vstd::utf8::encode_utf8_decode_utf8;

use crate::proto::wire::same;

use crate::proto::wire::{le16, le16_at, Writer};

verus! {

/// A number under sixteen as a digit.
pub open spec fn digit(n: nat) -> char {
    if n == 0 { '0' } else if n == 1 { '1' } else if n == 2 { '2' } else if n == 3 { '3' }
    else if n == 4 { '4' } else if n == 5 { '5' } else if n == 6 { '6' } else if n == 7 { '7' }
    else if n == 8 { '8' } else if n == 9 { '9' } else if n == 10 { 'a' } else if n == 11 { 'b' }
    else if n == 12 { 'c' } else if n == 13 { 'd' } else if n == 14 { 'e' } else { 'f' }
}

/// A number in base ten.
pub open spec fn decimal(n: nat) -> Seq<char>
    decreases n,
{
    if n < 10 { seq![digit(n)] } else { decimal(n / 10).push(digit(n % 10)) }
}

/// A number in base sixteen, in lower case.
pub open spec fn hex(n: nat) -> Seq<char>
    decreases n,
{
    if n < 16 { seq![digit(n)] } else { hex(n / 16).push(digit(n % 16)) }
}

/// A number's last `digits` hexadecimal digits, zeros in front where it is shorter.
pub open spec fn padded_hex(n: nat, digits: nat) -> Seq<char>
    decreases digits,
{
    if digits == 0 {
        seq![]
    } else {
        padded_hex(n / 16, (digits - 1) as nat).push(digit(n % 16))
    }
}

fn digit_str(n: u64) -> (s: &'static str)
    requires
        n < 16,
    ensures
        s@ == seq![digit(n as nat)],
{
    proof {
        reveal_strlit("0"); reveal_strlit("1"); reveal_strlit("2"); reveal_strlit("3");
        reveal_strlit("4"); reveal_strlit("5"); reveal_strlit("6"); reveal_strlit("7");
        reveal_strlit("8"); reveal_strlit("9"); reveal_strlit("a"); reveal_strlit("b");
        reveal_strlit("c"); reveal_strlit("d"); reveal_strlit("e"); reveal_strlit("f");
    }
    let s = match n {
        0 => "0", 1 => "1", 2 => "2", 3 => "3", 4 => "4", 5 => "5", 6 => "6", 7 => "7",
        8 => "8", 9 => "9", 10 => "a", 11 => "b", 12 => "c", 13 => "d", 14 => "e", _ => "f",
    };
    assert(s@ =~= seq![digit(n as nat)]);
    s
}

/// Appends a number in base ten.
pub fn push_decimal(s: &mut String, n: u64)
    ensures
        final(s)@ == old(s)@ + decimal(n as nat),
    decreases n,
{
    if n >= 10 {
        push_decimal(s, n / 10);
    }
    s.append(digit_str(n % 10));
    assert(s@ =~= old(s)@ + decimal(n as nat));
}

/// Appends a number in base sixteen.
pub fn push_hex(s: &mut String, n: u64)
    ensures
        final(s)@ == old(s)@ + hex(n as nat),
    decreases n,
{
    if n >= 16 {
        push_hex(s, n / 16);
    }
    s.append(digit_str(n % 16));
    assert(s@ =~= old(s)@ + hex(n as nat));
}

/// Appends a number's last `digits` hexadecimal digits.
pub fn push_padded_hex(s: &mut String, n: u64, digits: u8)
    ensures
        final(s)@ == old(s)@ + padded_hex(n as nat, digits as nat),
    decreases digits,
{
    if digits > 0 {
        push_padded_hex(s, n / 16, digits - 1);
        s.append(digit_str(n % 16));
    }
    assert(s@ =~= old(s)@ + padded_hex(n as nat, digits as nat));
}

/// One character as UTF-16, least significant byte first.
pub open spec fn utf16_char(c: char) -> Seq<u8> {
    let v = c as u32;
    if v < 0x1_0000 {
        le16(v as u16)
    } else {
        le16((0xD800 + (v - 0x1_0000) / 0x400) as u16) + le16((0xDC00 + (v - 0x1_0000) % 0x400) as u16)
    }
}

/// A string as UTF-16, least significant byte first, without a terminator.
pub open spec fn utf16(s: Seq<char>) -> Seq<u8>
    decreases s.len(),
{
    if s.len() == 0 { seq![] } else { utf16(s.drop_last()) + utf16_char(s.last()) }
}

/// A string as UTF-16, least significant byte first, without a terminator.
pub fn utf16_bytes(text: &str) -> (bytes: Vec<u8>)
    ensures
        bytes@ == utf16(text@),
{
    let mut w = Writer::new();
    for c in it: text.chars()
        invariant
            w@ == utf16(text@.take(it.index())),
            it.seq() == text@,
    {
        let v: u32 = c as u32;
        proof {
            vstd::utf8::char_is_scalar(c);
            let now = text@.take(it.index() + 1);
            assert(now.drop_last() =~= text@.take(it.index()));
            assert(now.last() == c);
        }
        if v < 0x1_0000 {
            w.u16_le(v as u16);
        } else {
            w.u16_le((0xD800 + (v - 0x1_0000) / 0x400) as u16);
            w.u16_le((0xDC00 + (v - 0x1_0000) % 0x400) as u16);
        }
        assert(w@ =~= utf16(text@.take(it.index() + 1)));
    }
    assert(text@.take(text@.len() as int) =~= text@);
    w.finish()
}

/// Whether two texts are the same.
pub fn same_text(a: &str, b: &str) -> (same: bool)
    ensures
        same == (a@ == b@),
{
    proof {
        encode_utf8_decode_utf8(a@);
        encode_utf8_decode_utf8(b@);
    }
    same(a.as_bytes(), b.as_bytes())
}

/// What a digit is worth: the figures in order, and then the letters.
pub open spec fn worth(c: char) -> int {
    if '0' as int <= c as int <= '9' as int {
        c as int - '0' as int
    } else {
        10 + c as int - 'a' as int
    }
}

/// The number that figures spell in a base, the most significant first.
pub open spec fn spelled(s: Seq<char>, base: int) -> int
    decreases s.len(),
{
    if s.len() == 0 {
        0
    } else {
        base * spelled(s.drop_last(), base) + worth(s.last())
    }
}

proof fn a_digit_is_worth_its_number(n: nat)
    requires
        n < 16,
    ensures
        worth(digit(n)) == n,
{
}

proof fn one_more_figure(s: Seq<char>, c: char, base: int)
    ensures
        spelled(s.push(c), base) == base * spelled(s, base) + worth(c),
{
    assert(s.push(c).drop_last() =~= s);
}

/// A number spelled out in base ten or in base sixteen reads back, and starts with no zero
/// unless it is one.
pub proof fn a_number_reads_back(n: nat)
    ensures
        spelled(decimal(n), 10) == n,
        decimal(n).len() > 0,
        n > 0 ==> worth(decimal(n)[0]) > 0,
        spelled(hex(n), 16) == n,
        hex(n).len() > 0,
        n > 0 ==> worth(hex(n)[0]) > 0,
    decreases n,
{
    if n < 16 {
        a_digit_is_worth_its_number(n);
        one_more_figure(seq![], digit(n), 16);
        assert(seq![].push(digit(n)) =~= seq![digit(n)]);
    } else {
        a_number_reads_back(n / 16);
        a_digit_is_worth_its_number(n % 16);
        one_more_figure(hex(n / 16), digit(n % 16), 16);
    }
    if n < 10 {
        one_more_figure(seq![], digit(n), 10);
        assert(seq![].push(digit(n)) =~= seq![digit(n)]);
    } else {
        a_number_reads_back(n / 10);
        a_digit_is_worth_its_number(n % 10);
        one_more_figure(decimal(n / 10), digit(n % 10), 10);
    }
}

/// Sixteen times itself, so many times over.
pub open spec fn sixteens(digits: nat) -> nat
    decreases digits,
{
    if digits == 0 { 1 } else { 16 * sixteens((digits - 1) as nat) }
}

/// A number spelled in a number of hexadecimal digits has that many, and reads back where it
/// fits them.
pub proof fn a_padded_number_reads_back(n: nat, digits: nat)
    requires
        n < sixteens(digits),
    ensures
        padded_hex(n, digits).len() == digits,
        spelled(padded_hex(n, digits), 16) == n,
    decreases digits,
{
    if digits > 0 {
        let fewer = (digits - 1) as nat;
        a_padded_number_reads_back(n / 16, fewer);
        a_digit_is_worth_its_number(n % 16);
        one_more_figure(padded_hex(n / 16, fewer), digit(n % 16), 16);
    }
}

/// A character is one UTF-16 unit of its own number, or past 16 bits a high and a low
/// surrogate that hold ten bits each of what is left of it.
pub proof fn a_character_reads_back(c: char)
    ensures
        ({
            let units = utf16_char(c);
            let (first, second) = (le16_at(units, 0), le16_at(units, 2));
            if (c as u32) < 0x1_0000 {
                units.len() == 2 && first == c as u32
            } else {
                &&& units.len() == 4
                &&& 0xD800 <= first < 0xDC00 && 0xDC00 <= second < 0xE000
                &&& c as u32 == 0x1_0000 + (first - 0xD800) * 0x400 + (second - 0xDC00)
            }
        }),
{
    vstd::utf8::char_is_scalar(c);
    let v = c as u32;
    if v < 0x1_0000 {
        let b = le16(v as u16);
        assert(b[0] + 0x100 * b[1] == v);
    } else {
        let (h, l) = ((0xD800 + (v - 0x1_0000) / 0x400) as u16, (0xDC00 + (v - 0x1_0000) % 0x400) as u16);
        let units = utf16_char(c);
        assert(units[0] == le16(h)[0] && units[1] == le16(h)[1] && units[2] == le16(l)[0] && units[3] == le16(l)[1]);
        assert(le16(h)[0] + 0x100 * le16(h)[1] == h && le16(l)[0] + 0x100 * le16(l)[1] == l);
    }
}

/// Text is its characters in order: two texts after one another are their UTF-16 after one
/// another.
pub proof fn texts_follow_one_another(a: Seq<char>, b: Seq<char>)
    ensures
        utf16(a + b) == utf16(a) + utf16(b),
        b.len() == 1 ==> utf16(b) == utf16_char(b[0]),
    decreases b.len(),
{
    if b.len() == 0 {
        assert(a + b =~= a);
        assert(utf16(a) + utf16(b) =~= utf16(a));
    } else {
        assert((a + b).drop_last() =~= a + b.drop_last());
        texts_follow_one_another(a, b.drop_last());
        assert(utf16(a + b) =~= utf16(a) + utf16(b));
        if b.len() == 1 {
            assert(b.drop_last().len() == 0);
            assert(utf16(b.drop_last()) =~= seq![]);
            assert(utf16(b) =~= utf16_char(b[0]));
        }
    }
}

} // verus!
