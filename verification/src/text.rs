//! Text: decimal numbers, and strings that are cut at a character.

use vstd::prelude::*;
use vstd::string::*;
use vstd::utf8::{
    decode_utf8, encode_utf8, encode_utf8_decode_utf8, encode_utf8_valid_utf8, valid_utf8,
};

verus! {

// ---- outside functions ----

/// `std::string::String::push` appends a character.
pub assume_specification[ String::push ](s: &mut String, c: char)
    ensures
        final(s)@ == old(s)@.push(c),
;

/// The text that bytes stand for, with what is not UTF-8 replaced.
pub uninterp spec fn utf8_lossy(bytes: Seq<u8>) -> Seq<char>;

/// `std::string::String::from_utf8_lossy`. The text depends on the bytes alone; bytes that are
/// UTF-8 are decoded as they are.
#[verifier::external_body]
fn from_utf8_lossy(bytes: &[u8]) -> (s: String)
    ensures
        s@ == utf8_lossy(bytes@),
        valid_utf8(bytes@) ==> s@ == decode_utf8(bytes@),
{
    String::from_utf8_lossy(bytes).into_owned()
}

/// The text that bytes stand for: what is UTF-8 is decoded, in anything else what is not is
/// replaced.
pub open spec fn text_of(bytes: Seq<u8>) -> Seq<char> {
    if valid_utf8(bytes) {
        decode_utf8(bytes)
    } else {
        utf8_lossy(bytes)
    }
}

/// Text stands for itself once it was encoded.
pub proof fn lemma_text_of_utf8(text: Seq<char>)
    ensures
        text_of(encode_utf8(text)) == text,
{
    encode_utf8_valid_utf8(text);
    encode_utf8_decode_utf8(text);
}

/// The text that bytes stand for.
pub fn bytes_to_text(bytes: &[u8]) -> (s: String)
    ensures
        s@ == text_of(bytes@),
{
    from_utf8_lossy(bytes)
}

// ---- numbers ----

/// A number in decimal digits, without leading zeros.
pub open spec fn decimal(n: nat) -> Seq<u8>
    decreases n,
{
    if n < 10 {
        seq![(48 + n) as u8]
    } else {
        decimal(n / 10).push((48 + n % 10) as u8)
    }
}

/// A number in decimal digits, with a minus sign where it is negative.
pub open spec fn signed_decimal(n: int) -> Seq<u8> {
    if n < 0 {
        seq![45u8] + decimal((-n) as nat)
    } else {
        decimal(n as nat)
    }
}

/// Whether a byte is a decimal digit.
pub open spec fn is_digit(b: u8) -> bool {
    48 <= b <= 57
}

/// The number that decimal digits stand for.
pub open spec fn digits_value(digits: Seq<u8>) -> nat
    decreases digits.len(),
{
    if digits.len() == 0 {
        0
    } else {
        digits_value(digits.drop_last()) * 10 + (digits.last() - 48) as nat
    }
}

/// The number that decimal digits stand for, with a minus sign before them or without.
pub open spec fn signed_value(text: Seq<u8>) -> int {
    if text.len() > 0 && text[0] == 45 {
        -(digits_value(text.skip(1)) as int)
    } else {
        digits_value(text) as int
    }
}

/// Decimal digits stand for the number that they were made of.
pub proof fn lemma_decimal_value(n: nat)
    ensures
        digits_value(decimal(n)) == n,
        decimal(n).len() > 0,
        forall|i: int| 0 <= i < decimal(n).len() ==> is_digit(#[trigger] decimal(n)[i]),
        n > 0 ==> decimal(n)[0] != 48,
        decimal(n).len() > 1 ==> decimal(n)[0] != 48,
    decreases n,
{
    if n < 10 {
        assert(decimal(n).drop_last() =~= Seq::<u8>::empty());
        assert(digits_value(decimal(n).drop_last()) == 0);
    } else {
        lemma_decimal_value(n / 10);
        assert(decimal(n).drop_last() =~= decimal(n / 10));
    }
}

/// A signed decimal number stands for the number that it was made of.
pub proof fn lemma_signed_value(n: int)
    ensures
        signed_value(signed_decimal(n)) == n,
{
    if n < 0 {
        lemma_decimal_value((-n) as nat);
        assert(signed_decimal(n).skip(1) =~= decimal((-n) as nat));
    } else {
        lemma_decimal_value(n as nat);
    }
}

/// Two numbers with the same digits are the same.
pub proof fn lemma_decimal_injective(m: nat, n: nat)
    ensures
        decimal(m) == decimal(n) ==> m == n,
{
    lemma_decimal_value(m);
    lemma_decimal_value(n);
}

/// A number in decimal digits.
pub fn decimal_digits(n: u64) -> (digits: Vec<u8>)
    ensures
        digits@ == decimal(n as nat),
    decreases n,
{
    let last: u8 = 48 + (n % 10) as u8;
    let mut digits: Vec<u8> = if n < 10 {
        Vec::new()
    } else {
        decimal_digits(n / 10)
    };
    digits.push(last);
    assert(digits@ =~= decimal(n as nat));
    digits
}

/// A number in decimal digits, with a minus sign where it is negative.
pub fn signed_decimal_digits(n: i64) -> (digits: Vec<u8>)
    ensures
        digits@ == signed_decimal(n as int),
{
    if n >= 0 {
        return decimal_digits(n as u64);
    }
    let magnitude: u64 = if n == i64::MIN {
        0x8000_0000_0000_0000
    } else {
        (-n) as u64
    };
    let mut digits: Vec<u8> = Vec::new();
    digits.push(45);
    let mut rest: Vec<u8> = decimal_digits(magnitude);
    digits.append(&mut rest);
    assert(digits@ =~= signed_decimal(n as int));
    digits
}

/// Whether text is a number as it is bencoded: digits without leading zeros, with a minus sign
/// where it is negative.
pub open spec fn is_number(text: Seq<u8>) -> bool {
    exists|n: int| text == #[trigger] signed_decimal(n)
}

/// The first byte of a number in digits makes up at most the number.
proof fn lemma_digits_bound(digits: Seq<u8>, k: int)
    requires
        0 <= k <= digits.len(),
        forall|i: int| 0 <= i < digits.len() ==> is_digit(#[trigger] digits[i]),
    ensures
        digits_value(digits.take(k)) <= digits_value(digits),
    decreases digits.len() - k,
{
    if k < digits.len() {
        lemma_digits_bound(digits, k + 1);
        assert(digits.take(k + 1).drop_last() =~= digits.take(k));
        assert(is_digit(digits[k]));
        assert(digits.take(k + 1).last() == digits[k]);
    } else {
        assert(digits.take(k) =~= digits);
    }
}

/// Reads a number. It is there if and only if it is within the range of `i64`.
pub fn parse_number(text: &[u8]) -> (r: Option<i64>)
    requires
        is_number(text@),
    ensures
        r is Some <==> i64::MIN <= signed_value(text@) <= i64::MAX,
        r matches Some(n) ==> n == signed_value(text@),
{
    let ghost n = choose|n: int| text@ == signed_decimal(n);
    proof {
        lemma_signed_value(n);
        lemma_decimal_value(
            if n < 0 {
                (-n) as nat
            } else {
                n as nat
            },
        );
    }
    let negative: bool = text[0] == 45;
    let start: usize = if negative {
        1
    } else {
        0
    };
    let digits: &[u8] = vstd::slice::slice_subrange(text, start, text.len());
    proof {
        if negative {
            assert(n < 0);
            assert(digits@ =~= decimal((-n) as nat));
            assert(text@.skip(1) =~= digits@);
        } else {
            assert(is_digit(text@[0]) ==> n >= 0);
            assert(digits@ =~= text@);
        }
    }
    // The value is kept as its negative, whose range reaches further.
    let mut value: i64 = 0;
    let mut i: usize = 0;
    while i < digits.len()
        invariant
            i <= digits@.len(),
            forall|k: int| 0 <= k < digits@.len() ==> is_digit(#[trigger] digits@[k]),
            value == -(digits_value(digits@.take(i as int)) as int),
            signed_value(text@) == (if negative {
                -(digits_value(digits@) as int)
            } else {
                digits_value(digits@) as int
            }),
        decreases digits@.len() - i,
    {
        let digit: i64 = (digits[i] - 48) as i64;
        proof {
            assert(digits@.take(i + 1).drop_last() =~= digits@.take(i as int));
            assert(digits@.take(i + 1).last() == digits@[i as int]);
            lemma_digits_bound(digits@, i + 1);
        }
        match value.checked_mul(10) {
            Some(shifted) => match shifted.checked_sub(digit) {
                Some(next) => {
                    value = next;
                },
                None => {
                    return None;
                },
            },
            None => {
                return None;
            },
        }
        i = i + 1;
    }
    assert(digits@.take(i as int) =~= digits@);
    if negative {
        Some(value)
    } else if value == i64::MIN {
        None
    } else {
        Some(-value)
    }
}

/// Bytes of ASCII as text.
pub open spec fn ascii_text(bytes: Seq<u8>) -> Seq<char> {
    Seq::new(bytes.len(), |i: int| bytes[i] as char)
}

/// A number in decimal digits, as text.
pub open spec fn decimal_text(n: nat) -> Seq<char> {
    ascii_text(decimal(n))
}

/// The number that a text of decimal digits stands for.
pub open spec fn text_value(text: Seq<char>) -> nat
    decreases text.len(),
{
    if text.len() == 0 {
        0
    } else {
        10 * text_value(text.drop_last()) + (text.last() as int - '0' as int) as nat
    }
}

/// Whether a text is made of decimal digits, with no zero before others.
pub open spec fn is_plain_number(text: Seq<char>) -> bool {
    &&& text.len() > 0
    &&& forall|i: int| 0 <= i < text.len() ==> '0' <= #[trigger] text[i] <= '9'
    &&& text.len() > 1 ==> text[0] != '0'
}

/// Whether a text is that of a number: decimal digits that stand for it, with no zero before
/// others, and a minus sign before them where it is negative.
pub open spec fn tells_number(text: Seq<char>, n: int) -> bool {
    if n < 0 {
        text.len() > 0 && text[0] == '-' && is_plain_number(text.skip(1)) && text_value(
            text.skip(1),
        ) == -n
    } else {
        is_plain_number(text) && text_value(text) == n
    }
}

/// The text of a number tells the number, whatever it is.
pub proof fn decimal_text_tells_the_number(n: nat)
    ensures
        tells_number(decimal_text(n), n as int),
    decreases n,
{
    let text = decimal_text(n);
    if n < 10 {
        assert(text.drop_last() =~= Seq::<char>::empty());
        assert(text_value(text.drop_last()) == 0);
    } else {
        decimal_text_tells_the_number(n / 10);
        let start = decimal_text(n / 10);
        assert(text.drop_last() =~= start);
        assert(text =~= start.push((48 + n % 10) as u8 as char));
        assert(text[0] == start[0]);
        if start.len() == 1 && start[0] == '0' {
            assert(start.drop_last() =~= Seq::<char>::empty());
            assert(text_value(start.drop_last()) == 0);
            assert(text_value(start) == 0);
        }
    }
}

/// The text of a number with a sign tells the number, whatever it is.
pub proof fn signed_text_tells_the_number(n: int)
    ensures
        tells_number(ascii_text(signed_decimal(n)), n),
{
    let text = ascii_text(signed_decimal(n));
    if n < 0 {
        decimal_text_tells_the_number((-n) as nat);
        assert(text.skip(1) =~= decimal_text((-n) as nat));
    } else {
        decimal_text_tells_the_number(n as nat);
    }
}

/// There is one text of decimal digits for each number.
pub proof fn plain_number_is_the_only_one(text: Seq<char>)
    requires
        is_plain_number(text),
    ensures
        text == decimal_text(text_value(text)),
    decreases text.len(),
{
    let start = text.drop_last();
    let last = text.last();
    assert('0' <= text[text.len() - 1] <= '9');
    if text.len() == 1 {
        assert(start =~= Seq::<char>::empty());
        assert(text_value(start) == 0);
        assert(text =~= decimal_text(text_value(text)));
    } else {
        assert(start[0] == text[0]);
        assert forall|i: int| 0 <= i < start.len() implies '0' <= #[trigger] start[i] <= '9' by {
            assert(start[i] == text[i]);
        }
        plain_number_is_the_only_one(start);
        let v = text_value(start);
        if v == 0 {
            assert(decimal_text(0)[0] == '0');
        }
        assert(text_value(text) / 10 == v);
        assert(decimal_text(text_value(text)) =~= decimal_text(v).push(last));
        assert(text =~= start.push(last));
    }
}

/// A text tells one number at most.
pub proof fn text_tells_one_number(text: Seq<char>, m: int, n: int)
    requires
        tells_number(text, m),
        tells_number(text, n),
    ensures
        m == n,
{
}

/// Appends bytes of ASCII to text.
pub fn push_ascii(text: &mut String, bytes: &[u8])
    ensures
        final(text)@ == old(text)@ + ascii_text(bytes@),
{
    let mut i: usize = 0;
    assert(text@ + ascii_text(bytes@.take(0)) =~= text@);
    while i < bytes.len()
        invariant
            i <= bytes@.len(),
            text@ == old(text)@ + ascii_text(bytes@.take(i as int)),
        decreases bytes@.len() - i,
    {
        let ghost before = text@;
        text.push(bytes[i] as char);
        assert(text@ =~= old(text)@ + ascii_text(bytes@.take(i + 1)));
        i = i + 1;
    }
    assert(bytes@.take(i as int) =~= bytes@);
}

/// Appends a number in decimal digits to text.
pub fn push_decimal(text: &mut String, n: u64)
    ensures
        final(text)@ == old(text)@ + decimal_text(n as nat),
{
    push_ascii(text, decimal_digits(n).as_slice());
}

/// Text with spaces before it, so that it has at least this width.
pub open spec fn padded_left(text: Seq<char>, width: nat) -> Seq<char> {
    Seq::new(
        if text.len() < width {
            (width - text.len()) as nat
        } else {
            0
        },
        |i: int| ' ',
    ) + text
}

/// Text that is padded ends with the text, has only spaces before it, and is no longer than it
/// has to be.
pub proof fn padding_keeps_the_text(text: Seq<char>, width: nat)
    ensures
        ({
            let wide = padded_left(text, width);
            let before = wide.len() - text.len();
            &&& wide.len() == if text.len() < width {
                width
            } else {
                text.len()
            }
            &&& wide.skip(before) == text
            &&& forall|i: int| 0 <= i < before ==> #[trigger] wide[i] == ' '
        }),
{
    let wide = padded_left(text, width);
    assert(wide.skip(wide.len() - text.len()) =~= text);
}

/// Text with spaces before it, so that it has at least this width.
pub fn pad_left(text: &str, width: usize) -> (r: String)
    ensures
        r@ == padded_left(text@, width as nat),
{
    let count: usize = text.unicode_len();
    let mut r: String = String::new();
    let mut i: usize = count;
    while i < width
        invariant
            count == text@.len(),
            count <= i,
            i <= width || i == count,
            r@ == Seq::new((i - count) as nat, |k: int| ' '),
        decreases width - i,
    {
        r.push(' ');
        assert(r@ =~= Seq::new((i + 1 - count) as nat, |k: int| ' '));
        i = i + 1;
    }
    r.append(text);
    assert(r@ =~= padded_left(text@, width as nat));
    r
}

// ---- parts of text ----

/// Texts with a separator between them.
pub open spec fn joined(parts: Seq<Seq<char>>, separator: char) -> Seq<char>
    decreases parts.len(),
{
    if parts.len() == 0 {
        Seq::empty()
    } else if parts.len() == 1 {
        parts[0]
    } else {
        joined(parts.drop_last(), separator) + seq![separator] + parts.last()
    }
}

/// The parts of a text between its separators.
pub open spec fn split(text: Seq<char>, separator: char) -> Seq<Seq<char>>
    decreases text.len(),
{
    if text.len() == 0 {
        seq![Seq::empty()]
    } else {
        let before = split(text.drop_last(), separator);
        if text.last() == separator {
            before.push(Seq::empty())
        } else {
            before.drop_last().push(before.last().push(text.last()))
        }
    }
}

/// A text has at least one part.
pub proof fn lemma_split_nonempty(text: Seq<char>, separator: char)
    ensures
        split(text, separator).len() > 0,
    decreases text.len(),
{
    if text.len() > 0 {
        lemma_split_nonempty(text.drop_last(), separator);
    }
}

/// Joining the parts of a text gives the text back.
pub proof fn lemma_join_inverts_split(text: Seq<char>, separator: char)
    ensures
        joined(split(text, separator), separator) == text,
    decreases text.len(),
{
    if text.len() == 0 {
        assert(joined(split(text, separator), separator) =~= text);
    } else {
        let start = text.drop_last();
        let before = split(start, separator);
        lemma_split_nonempty(start, separator);
        lemma_join_inverts_split(start, separator);
        let parts = split(text, separator);
        assert(text =~= start.push(text.last()));
        if text.last() == separator {
            assert(parts.drop_last() =~= before);
            assert(joined(parts, separator) =~= text);
        } else {
            assert(parts.drop_last() =~= before.drop_last());
            assert(parts.last() == before.last().push(text.last()));
            if before.len() > 1 {
                assert(joined(parts, separator) =~= joined(before, separator).push(text.last()));
            } else {
                assert(joined(parts, separator) =~= text);
            }
        }
    }
}

/// No part of a text holds a separator. With the separators between them the parts are the text,
/// so that there is no other way to cut it.
pub proof fn parts_hold_no_separator(text: Seq<char>, separator: char)
    ensures
        joined(split(text, separator), separator) == text,
        forall|i: int|
            0 <= i < split(text, separator).len() ==> !(#[trigger] split(
                text,
                separator,
            )[i]).contains(separator),
    decreases text.len(),
{
    lemma_join_inverts_split(text, separator);
    let parts = split(text, separator);
    if text.len() > 0 {
        let before = split(text.drop_last(), separator);
        parts_hold_no_separator(text.drop_last(), separator);
        lemma_split_nonempty(text.drop_last(), separator);
        assert forall|i: int| 0 <= i < parts.len() implies !(#[trigger] parts[i]).contains(
            separator,
        ) by {
            if i < before.len() - 1 || (i < before.len() && text.last() == separator) {
                assert(parts[i] == before[i]);
            } else if text.last() != separator {
                assert(!before[i].contains(separator));
                if parts[i].contains(separator) {
                    let k = parts[i].index_of(separator);
                    assert(before[i][k] == separator);
                }
            }
        }
    }
}

/// What stands before the first separator of a text, and what stands behind it.
pub open spec fn split_once(text: Seq<char>, separator: char) -> (Seq<char>, Option<Seq<char>>)
    decreases text.len(),
{
    if text.len() == 0 {
        (Seq::empty(), None)
    } else {
        match split_once(text.drop_last(), separator) {
            (before, Some(behind)) => (before, Some(behind.push(text.last()))),
            (before, None) => if text.last() == separator {
                (before, Some(Seq::empty()))
            } else {
                (before.push(text.last()), None)
            },
        }
    }
}

/// A text is what stands before its first separator, the separator and what stands behind it.
pub proof fn lemma_split_once(before: Seq<char>, behind: Seq<char>, separator: char)
    requires
        !before.contains(separator),
    ensures
        split_once(before, separator) == (before, None::<Seq<char>>),
        split_once(before + seq![separator] + behind, separator) == (before, Some(behind)),
    decreases before.len(), behind.len(),
{
    let text = before + seq![separator] + behind;
    if behind.len() > 0 {
        lemma_split_once(before, behind.drop_last(), separator);
        assert(text.drop_last() =~= before + seq![separator] + behind.drop_last());
        assert(text.last() == behind.last());
        assert(behind.drop_last().push(behind.last()) =~= behind);
    } else {
        if before.len() > 0 {
            let start = before.drop_last();
            assert(!start.contains(separator)) by {
                if start.contains(separator) {
                    let i = start.index_of(separator);
                    assert(before[i] == separator);
                }
            }
            lemma_split_once(start, behind, separator);
            assert(before.last() != separator) by {
                assert(before[before.len() - 1] == before.last());
            }
            assert(start.push(before.last()) =~= before);
        } else {
            assert(before =~= Seq::<char>::empty());
        }
        assert(text.drop_last() =~= before);
        assert(text.last() == separator);
        assert(behind =~= Seq::<char>::empty());
    }
}

/// The last part of a text is what stands behind its last separator.
pub proof fn lemma_last_part(start: Seq<char>, last: Seq<char>, separator: char)
    requires
        start.len() > 0,
        start.last() == separator,
        !last.contains(separator),
    ensures
        split(start + last, separator).last() == last,
    decreases last.len(),
{
    if last.len() == 0 {
        assert(start + last =~= start);
        assert(last =~= Seq::<char>::empty());
    } else {
        let shorter = last.drop_last();
        assert(!shorter.contains(separator)) by {
            if shorter.contains(separator) {
                let i = shorter.index_of(separator);
                assert(last[i] == separator);
            }
        }
        lemma_last_part(start, shorter, separator);
        assert((start + last).drop_last() =~= start + shorter);
        assert(last[last.len() - 1] == last.last());
        assert(shorter.push(last.last()) =~= last);
    }
}

/// A text without separators is its only part.
pub proof fn lemma_split_whole(text: Seq<char>, separator: char)
    requires
        !text.contains(separator),
    ensures
        split(text, separator) == seq![text],
    decreases text.len(),
{
    if text.len() > 0 {
        let start = text.drop_last();
        assert(!start.contains(separator)) by {
            if start.contains(separator) {
                let i = start.index_of(separator);
                assert(text[i] == separator);
            }
        }
        lemma_split_whole(start, separator);
        assert(text[text.len() - 1] == text.last());
        assert(start.push(text.last()) =~= text);
        assert(split(text, separator) =~= seq![text]);
    } else {
        assert(text =~= Seq::<char>::empty());
    }
}

/// Text without separators makes the last part longer, and leaves the others.
pub proof fn lemma_split_append(start: Seq<char>, more: Seq<char>, separator: char)
    requires
        !more.contains(separator),
    ensures
        ({
            let parts = split(start, separator);
            &&& parts.len() > 0
            &&& split(start + more, separator) == parts.drop_last().push(parts.last() + more)
        }),
    decreases more.len(),
{
    let parts = split(start, separator);
    lemma_split_nonempty(start, separator);
    if more.len() == 0 {
        assert(start + more =~= start);
        assert(parts.last() + more =~= parts.last());
        assert(parts.drop_last().push(parts.last()) =~= parts);
    } else {
        let shorter = more.drop_last();
        assert(!shorter.contains(separator)) by {
            if shorter.contains(separator) {
                let i = shorter.index_of(separator);
                assert(more[i] == separator);
            }
        }
        lemma_split_append(start, shorter, separator);
        assert((start + more).drop_last() =~= start + shorter);
        assert(more[more.len() - 1] == more.last());
        let before = split(start + shorter, separator);
        assert(before.drop_last() =~= parts.drop_last());
        assert(before.last().push(more.last()) =~= parts.last() + more);
    }
}

/// The meanings of strings.
pub open spec fn texts(strings: Seq<String>) -> Seq<Seq<char>> {
    Seq::new(strings.len(), |i: int| strings[i]@)
}

/// The parts of a text between its separators.
pub fn split_text(text: &str, separator: char) -> (parts: Vec<String>)
    ensures
        texts(parts@) == split(text@, separator),
{
    let mut parts: Vec<String> = Vec::new();
    let mut part: String = String::new();
    proof {
        assert(texts(parts@).push(part@) =~= split(text@.take(0), separator));
    }
    for c in it: text.chars()
        invariant
            texts(parts@).push(part@) == split(text@.take(it.index() as int), separator),
            it.seq() == text@,
    {
        let ghost start = text@.take(it.index() as int);
        let ghost longer = text@.take(it.index() + 1);
        let ghost before = texts(parts@).push(part@);
        proof {
            assert(longer.drop_last() =~= start);
            assert(longer.last() == c);
            assert(before.drop_last() =~= texts(parts@));
        }
        if c == separator {
            parts.push(part);
            part = String::new();
            proof {
                assert(texts(parts@) =~= before);
                assert(texts(parts@).push(part@) =~= split(longer, separator));
            }
        } else {
            part.push(c);
            proof {
                assert(texts(parts@).push(part@) =~= split(longer, separator));
            }
        }
    }
    let ghost before = texts(parts@).push(part@);
    parts.push(part);
    proof {
        assert(texts(parts@) =~= before);
        assert(text@.take(text@.len() as int) =~= text@);
    }
    parts
}

/// What stands before the first separator of a text, and what stands behind it.
pub fn cut_once(text: &str, separator: char) -> (r: (String, Option<String>))
    ensures
        r.0@ == split_once(text@, separator).0,
        match r.1 {
            Some(behind) => split_once(text@, separator).1 == Some(behind@),
            None => split_once(text@, separator).1 is None,
        },
{
    let mut before: String = String::new();
    let mut behind: String = String::new();
    let mut found: bool = false;
    for c in it: text.chars()
        invariant
            it.seq() == text@,
            split_once(text@.take(it.index() as int), separator) == (
                before@,
                if found {
                    Some(behind@)
                } else {
                    None
                },
            ),
            !found ==> behind@ == Seq::<char>::empty(),
    {
        let ghost longer = text@.take(it.index() + 1);
        proof {
            assert(longer.drop_last() =~= text@.take(it.index() as int));
            assert(longer.last() == c);
        }
        if found {
            behind.push(c);
        } else if c == separator {
            found = true;
        } else {
            before.push(c);
        }
    }
    assert(text@.take(text@.len() as int) =~= text@);
    if found {
        (before, Some(behind))
    } else {
        (before, None)
    }
}

} // verus!
