//! Bytes in hexadecimal.

use vstd::prelude::*;

verus! {

/// The hexadecimal digit of a number below 16.
pub open spec fn hex_digit(n: u8) -> char {
    if n < 10 {
        (48 + n) as char
    } else {
        (87 + n) as char
    }
}

/// Bytes in hexadecimal, two digits each.
pub open spec fn hex(bytes: Seq<u8>) -> Seq<char>
    decreases bytes.len(),
{
    if bytes.len() == 0 {
        Seq::empty()
    } else {
        hex(bytes.drop_last()).push(hex_digit(bytes.last() / 16)).push(
            hex_digit(bytes.last() % 16),
        )
    }
}

/// Bytes in hexadecimal have two digits each.
pub proof fn hex_has_two_digits_each(bytes: Seq<u8>)
    ensures
        hex(bytes).len() == 2 * bytes.len(),
    decreases bytes.len(),
{
    if bytes.len() > 0 {
        hex_has_two_digits_each(bytes.drop_last());
    }
}

/// The number below 16 that a hexadecimal digit stands for, if a character is one.
pub open spec fn hex_value(c: char) -> Option<int> {
    if '0' <= c <= '9' {
        Some(c as int - '0' as int)
    } else if 'a' <= c <= 'f' {
        Some(c as int - 'a' as int + 10)
    } else {
        None
    }
}

/// Whether two characters are the hexadecimal digits of a byte.
pub open spec fn tell_byte(high: char, low: char, b: u8) -> bool {
    match (hex_value(high), hex_value(low)) {
        (Some(high), Some(low)) => b == 16 * high + low,
        _ => false,
    }
}

/// Bytes are read from their hexadecimal digits: those of each byte stand for its two halves.
pub proof fn hex_tells_the_bytes(bytes: Seq<u8>)
    ensures
        hex(bytes).len() == 2 * bytes.len(),
        forall|i: int|
            0 <= i < bytes.len() ==> tell_byte(
                hex(bytes)[2 * i],
                hex(bytes)[2 * i + 1],
                #[trigger] bytes[i],
            ),
    decreases bytes.len(),
{
    if bytes.len() > 0 {
        let start = bytes.drop_last();
        hex_tells_the_bytes(start);
        let text = hex(bytes);
        assert forall|i: int| 0 <= i < bytes.len() implies tell_byte(
            text[2 * i],
            text[2 * i + 1],
            #[trigger] bytes[i],
        ) by {
            if i < start.len() {
                assert(start[i] == bytes[i]);
                assert(text[2 * i] == hex(start)[2 * i]);
                assert(text[2 * i + 1] == hex(start)[2 * i + 1]);
            } else {
                let b = bytes.last();
                assert(text[2 * i] == hex_digit(b / 16));
                assert(text[2 * i + 1] == hex_digit(b % 16));
            }
        }
    }
}

/// The hexadecimal digit of a number below 16.
fn to_hex_digit(n: u8) -> (digit: char)
    requires
        n < 16,
    ensures
        digit == hex_digit(n),
{
    if n < 10 {
        (48 + n) as char
    } else {
        (87 + n) as char
    }
}

/// Bytes in hexadecimal, two digits each.
pub fn encode(bytes: &[u8]) -> (text: String)
    ensures
        text@ == hex(bytes@),
{
    let mut text: String = String::new();
    let mut i: usize = 0;
    while i < bytes.len()
        invariant
            i <= bytes@.len(),
            text@ == hex(bytes@.take(i as int)),
        decreases bytes@.len() - i,
    {
        assert(bytes@.take(i + 1).drop_last() =~= bytes@.take(i as int));
        text.push(to_hex_digit(bytes[i] / 16));
        text.push(to_hex_digit(bytes[i] % 16));
        i = i + 1;
    }
    assert(bytes@.take(i as int) =~= bytes@);
    text
}

/// Bytes in hexadecimal, two digits each.
pub fn hex_encode(bytes: &[u8]) -> (text: String)
    ensures
        text@ == hex(bytes@),
{
    encode(bytes)
}

} // verus!
