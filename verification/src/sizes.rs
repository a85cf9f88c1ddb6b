//! Sizes: how long the pieces of a torrent are, and how sizes are shown.

use vstd::arithmetic::power2::{
    lemma2_to64, lemma2_to64_rest, lemma_pow2_adds, lemma_pow2_pos, pow2,
};
use vstd::prelude::*;
use vstd::string::*;

use crate::text::{decimal_text, decimal_text_tells_the_number, push_decimal, tells_number};

verus! {

/// All piece lengths are multiples of this (16 KiB).
pub const PIECE_UNIT: usize = 16384;

/// Pieces are this long at least, or as long as the torrent.
pub const PIECE_MINIMUM: usize = 5_000_000;

/// `p`, doubled as often as its square times 2^21 is at most the square of `n`.
///
/// From 1 on, this is 2 to the power of log2(`n` / 1024), rounded to the nearest whole number.
pub open spec fn doubled_up_to(n: nat, p: nat) -> nat
    decreases n - p,
{
    if p > 0 && p * p * 0x20_0000 <= n * n {
        proof {
            lemma_doubling_stops(n, p);
        }
        doubled_up_to(n, 2 * p)
    } else {
        p
    }
}

/// A number that may be doubled is less than half of `n`.
pub proof fn lemma_doubling_stops(n: nat, p: nat)
    requires
        p * p * 0x20_0000 <= n * n,
        p > 0,
    ensures
        2 * p <= n,
{
    if 2 * p > n {
        assert(p * p * 0x20_0000 > n * n) by (nonlinear_arith)
            requires
                2 * p > n,
                p > 0,
        ;
    }
}

/// The length of a piece as the length of the torrent suggests it: 2 to the power of
/// log2(`n` / 1024), rounded to the nearest whole number, and at least 16 KiB.
pub open spec fn suggested_piece_length(n: nat) -> nat {
    let power = doubled_up_to(n, 1);
    if n < 1024 || power < PIECE_UNIT {
        PIECE_UNIT as nat
    } else {
        power
    }
}

/// The least length of a piece: 5 MB, or the length of the torrent, rounded up to 16 KiB.
pub open spec fn least_piece_length(n: nat) -> nat {
    let least = if n < PIECE_MINIMUM {
        n
    } else {
        PIECE_MINIMUM as nat
    };
    (least + (PIECE_UNIT - 1) as nat) / PIECE_UNIT as nat * PIECE_UNIT as nat
}

/// The length of a piece of a torrent of this length.
pub open spec fn piece_length_for(n: nat) -> nat {
    if suggested_piece_length(n) < least_piece_length(n) {
        least_piece_length(n)
    } else {
        suggested_piece_length(n)
    }
}

/// The square of a number.
fn square(n: u64) -> (r: u128)
    ensures
        r == n * n,
{
    assert(n * n <= 0xffff_ffff_ffff_ffff * 0xffff_ffff_ffff_ffff) by (nonlinear_arith)
        requires
            n <= 0xffff_ffff_ffff_ffff,
    ;
    (n as u128) * (n as u128)
}

/// A power of two up to 2^13, or a multiple of 2^14.
spec fn doubling(p: nat) -> bool {
    ||| p == 1 || p == 2 || p == 4 || p == 8 || p == 16 || p == 32 || p == 64 || p == 128
    ||| p == 256 || p == 512 || p == 1024 || p == 2048 || p == 4096 || p == 8192
    ||| p % PIECE_UNIT as nat == 0
}

/// Doubling reaches only powers of two.
proof fn lemma_doubled(n: nat, p: nat)
    requires
        doubling(p),
    ensures
        doubling(doubled_up_to(n, p)),
    decreases n - p,
{
    if p > 0 && p * p * 0x20_0000 <= n * n {
        lemma_doubling_stops(n, p);
        lemma_doubled(n, 2 * p);
    }
}

/// The length of a piece is a multiple of 16 KiB, and at least as long as the torrent or 5 MB,
/// whichever is less.
pub proof fn lemma_piece_length(n: nat)
    ensures
        piece_length_for(n) >= PIECE_UNIT,
        piece_length_for(n) % PIECE_UNIT as nat == 0,
        piece_length_for(n) >= n || piece_length_for(n) >= PIECE_MINIMUM,
{
    lemma_doubled(n, 1);
}

/// From 1 on, doubling leads to the power of two whose exponent is log2(`n` / 1024), rounded to
/// the nearest whole number: the square of `n` / 1024 lies between the squares of the numbers
/// half a power below and half a power above it.
pub proof fn doubling_rounds_the_logarithm(n: nat)
    requires
        n >= 1024,
    ensures
        exists|e: nat|
            doubled_up_to(n, 1) == #[trigger] pow2(e) && pow2(2 * e + 19) <= n * n < pow2(
                2 * e + 21,
            ),
{
    lemma2_to64();
    lemma2_to64_rest();
    assert(n * n >= 1024 * 1024) by (nonlinear_arith)
        requires
            n >= 1024,
    ;
    lemma_rounds_from(n, 0);
}

/// Doubling from 2 to the power of `e` on leads to a power of two that fits.
proof fn lemma_rounds_from(n: nat, e: nat)
    requires
        pow2(2 * e + 19) <= n * n,
    ensures
        exists|f: nat|
            doubled_up_to(n, pow2(e)) == #[trigger] pow2(f) && pow2(2 * f + 19) <= n * n < pow2(
                2 * f + 21,
            ),
    decreases n - pow2(e),
{
    let p = pow2(e);
    lemma_pow2_pos(e);
    lemma_pow2_adds(e, e);
    lemma_pow2_adds(2 * e, 21);
    lemma2_to64();
    assert(p * p * 0x20_0000 == pow2(2 * e + 21));
    if p * p * 0x20_0000 <= n * n {
        lemma_doubling_stops(n, p);
        lemma_pow2_adds(e, 1);
        assert(pow2(e + 1) == 2 * p);
        lemma_rounds_from(n, e + 1);
    } else {
        assert(doubled_up_to(n, pow2(e)) == pow2(e));
    }
}

/// Whether a length is the least multiple of 16 KiB that reaches another length.
pub open spec fn is_rounded_up(length: nat, least: nat) -> bool {
    length % 16384 == 0 && least <= length < least + 16384
}

/// Whether a power of two is the nearest to a size in KiB, as the logarithms go: the square of the
/// size lies between those half a power below and half a power above.
pub open spec fn is_nearest_power(e: nat, n: nat) -> bool {
    pow2(2 * e + 19) <= n * n < pow2(2 * e + 21)
}

/// Whether the length of a piece is the largest of three: 16 KiB; from 1 KiB on, the power of two
/// that is nearest to the length of the torrent in KiB; and 5 MB, or the length of the torrent if
/// that is less, rounded up to 16 KiB.
pub open spec fn is_largest(piece_length: nat, n: nat, least: nat, e: nat) -> bool {
    &&& n < 5_000_000 ==> is_rounded_up(least, n)
    &&& n >= 5_000_000 ==> is_rounded_up(least, 5_000_000)
    &&& n >= 1024 ==> is_nearest_power(e, n) && piece_length >= pow2(e)
    &&& piece_length >= 16384
    &&& piece_length >= least
    &&& piece_length == 16384 || piece_length == least || (n >= 1024 && piece_length == pow2(e))
}

/// The length of a piece is the largest of the three lengths that the torrent suggests.
pub proof fn piece_length_is_the_largest(n: nat)
    ensures
        exists|least: nat, e: nat| #[trigger] is_largest(piece_length_for(n), n, least, e),
{
    let least = least_piece_length(n);
    if n >= 1024 {
        doubling_rounds_the_logarithm(n);
        let e = choose|e: nat|
            doubled_up_to(n, 1) == #[trigger] pow2(e) && pow2(2 * e + 19) <= n * n < pow2(
                2 * e + 21,
            );
        assert(is_largest(piece_length_for(n), n, least, e));
    } else {
        assert(is_largest(piece_length_for(n), n, least, 0));
    }
}

/// There is one such length.
pub proof fn piece_length_is_the_only_one(
    a: nat,
    b: nat,
    n: nat,
    least: nat,
    other_least: nat,
    e: nat,
    f: nat,
)
    requires
        is_largest(a, n, least, e),
        is_largest(b, n, other_least, f),
    ensures
        a == b,
{
    if n >= 1024 {
        nearest_power_is_the_only_one(n, e, f);
    }
}

/// There is one power of two that is nearest.
pub proof fn nearest_power_is_the_only_one(n: nat, e: nat, f: nat)
    requires
        is_nearest_power(e, n),
        is_nearest_power(f, n),
    ensures
        e == f,
{
    if e < f {
        lemma_pow2_grows(2 * e + 21, 2 * f + 19);
    } else if f < e {
        lemma_pow2_grows(2 * f + 21, 2 * e + 19);
    }
}

/// A larger exponent gives no smaller power of two.
proof fn lemma_pow2_grows(a: nat, b: nat)
    requires
        a <= b,
    ensures
        pow2(a) <= pow2(b),
{
    lemma_pow2_adds(a, (b - a) as nat);
    lemma_pow2_pos((b - a) as nat);
    lemma_pow2_pos(a);
    let (x, y) = (pow2(a), pow2((b - a) as nat));
    assert(x <= x * y) by (nonlinear_arith)
        requires
            x > 0,
            y > 0,
    ;
}

/// Calculates the length of a piece from the length of the torrent.
pub fn calculate_piece_length(encrypted_torrent_length: usize) -> (piece_length: usize)
    ensures
        piece_length == piece_length_for(encrypted_torrent_length as nat),
        exists|least: nat, e: nat| #[trigger]
            is_largest(piece_length as nat, encrypted_torrent_length as nat, least, e),
        piece_length >= PIECE_UNIT,
        piece_length % PIECE_UNIT == 0,
{
    let n: usize = encrypted_torrent_length;
    proof {
        lemma_piece_length(n as nat);
        piece_length_is_the_largest(n as nat);
    }
    let mut base: usize = PIECE_UNIT;
    if n >= 1024 {
        let limit: u128 = square(n as u64) / 0x20_0000;
        let mut power: u64 = 1;
        while square(power) <= limit
            invariant
                0 < power <= n,
                limit == (n * n) / 0x20_0000,
                doubled_up_to(n as nat, power as nat) == doubled_up_to(n as nat, 1),
            decreases n - power,
        {
            proof {
                lemma_doubling_stops(n as nat, power as nat);
            }
            power = power * 2;
        }
        if power as usize > base {
            base = power as usize;
        }
    }
    let mut least: usize = if n < PIECE_MINIMUM {
        n
    } else {
        PIECE_MINIMUM
    };
    least = (least + (PIECE_UNIT - 1)) / PIECE_UNIT * PIECE_UNIT;
    if base < least {
        least
    } else {
        base
    }
}

// ---- megabytes ----

/// How many times `scale` megabytes a size is, rounded to the nearest whole number.
pub open spec fn megabytes(size: nat, scale: nat) -> nat {
    (size + 500_000 * scale) / (1_000_000 * scale)
}

/// The first of the scales `scale`, 10 `scale`, 100 `scale`, ... that gives a number of at most
/// 100.
pub open spec fn megabyte_scale(size: nat, scale: nat) -> nat
    decreases size - scale,
{
    if scale > 0 && megabytes(size, scale) > 100 {
        proof {
            lemma_scale_bound(size, scale);
        }
        megabyte_scale(size, 10 * scale)
    } else {
        scale
    }
}

/// A size in megabytes, with at most two digits that are not zeros at its end.
pub open spec fn rounded_megabytes(size: nat) -> nat {
    let scale = megabyte_scale(size, 1);
    megabytes(size, scale) * scale
}

/// A scale that gives too large a number is small.
pub proof fn lemma_scale_bound(size: nat, scale: nat)
    requires
        scale > 0,
        megabytes(size, scale) > 100,
    ensures
        100_000_000 * scale <= size,
{
    let divisor = 1_000_000 * scale;
    let dividend = size + 500_000 * scale;
    assert(dividend >= 101 * divisor) by (nonlinear_arith)
        requires
            dividend / divisor > 100,
            divisor > 0,
    ;
}

/// Whether a number is a power of ten.
pub open spec fn is_power_of_ten(n: nat) -> bool
    decreases n,
{
    n == 1 || n > 1 && n % 10 == 0 && is_power_of_ten(n / 10)
}

/// The scale is a power of ten and gives a number of at most 100.
proof fn lemma_megabyte_scale(size: nat, scale: nat)
    requires
        is_power_of_ten(scale),
    ensures
        is_power_of_ten(megabyte_scale(size, scale)),
        megabytes(size, megabyte_scale(size, scale)) <= 100,
    decreases size - scale,
{
    if megabytes(size, scale) > 100 {
        lemma_scale_bound(size, scale);
        assert(10 * scale / 10 == scale);
        lemma_megabyte_scale(size, 10 * scale);
    }
}

/// Unless it is the first, the scale is the least: a tenth of it gives a number above 100.
proof fn lemma_scale_is_least(size: nat, scale: nat)
    requires
        scale > 0,
    ensures
        ({
            let found = megabyte_scale(size, scale);
            &&& found >= scale
            &&& found == scale || (found % 10 == 0 && megabytes(size, found / 10) > 100)
        }),
    decreases size - scale,
{
    if megabytes(size, scale) > 100 {
        lemma_scale_bound(size, scale);
        lemma_scale_is_least(size, 10 * scale);
        let found = megabyte_scale(size, 10 * scale);
        if found == 10 * scale {
            assert(found / 10 == scale);
        }
    }
}

/// Whether a number of megabytes is the nearest multiple of a scale to a size; of two that are as
/// near, the larger.
pub open spec fn is_nearest_multiple(megabytes: nat, scale: nat, size: nat) -> bool {
    &&& megabytes % scale == 0
    &&& size < 1_000_000 * megabytes + 500_000 * scale
    &&& 1_000_000 * megabytes <= size + 500_000 * scale
}

/// A size in megabytes is a number of at most 100 times a power of ten, the nearest to the size.
/// The power of ten is the least that does: a tenth of it would leave a number above 100, for the
/// size is at least 100.5 times that many megabytes.
pub proof fn megabytes_are_the_nearest(size: nat)
    ensures
        exists|scale: nat|
            {
                &&& #[trigger] is_power_of_ten(scale)
                &&& rounded_megabytes(size) <= 100 * scale
                &&& is_nearest_multiple(rounded_megabytes(size), scale, size)
                &&& scale == 1 || 10_050_000 * scale <= size
            },
{
    let scale = megabyte_scale(size, 1);
    let quantity = megabytes(size, scale);
    lemma_megabyte_scale(size, 1);
    lemma_scale_is_least(size, 1);
    let divisor = 1_000_000 * scale;
    let dividend = size + 500_000 * scale;
    assert(quantity * divisor <= dividend < quantity * divisor + divisor) by (nonlinear_arith)
        requires
            quantity == dividend / divisor,
            divisor > 0,
    ;
    assert(quantity * (1_000_000 * scale) == 1_000_000 * (quantity * scale)) by (nonlinear_arith);
    assert(rounded_megabytes(size) == quantity * scale);
    assert((quantity * scale) % scale == 0 && quantity * scale <= 100 * scale)
        by (nonlinear_arith)
        requires
            quantity <= 100,
            scale > 0,
    ;
    if scale != 1 {
        let tenth = scale / 10;
        let d = 1_000_000 * tenth;
        assert(size + 500_000 * tenth >= 101 * d) by (nonlinear_arith)
            requires
                (size + 500_000 * tenth) / d > 100,
                d > 0,
                d == 1_000_000 * tenth,
        ;
    }
    assert(is_power_of_ten(scale));
}

/// A size in megabytes is a number of at most 100 times a power of ten, and is off by at most half
/// of that power of ten.
pub proof fn megabytes_keep_two_digits(size: nat)
    ensures
        exists|quantity: nat, scale: nat|
            {
                &&& quantity <= 100
                &&& is_power_of_ten(scale)
                &&& rounded_megabytes(size) == #[trigger] (quantity * scale)
                &&& size < 1_000_000 * rounded_megabytes(size) + 500_000 * scale
                &&& 1_000_000 * rounded_megabytes(size) <= size + 500_000 * scale
            },
{
    let scale = megabyte_scale(size, 1);
    let quantity = megabytes(size, scale);
    lemma_megabyte_scale(size, 1);
    let divisor = 1_000_000 * scale;
    let dividend = size + 500_000 * scale;
    assert(quantity * divisor <= dividend < quantity * divisor + divisor) by (nonlinear_arith)
        requires
            quantity == dividend / divisor,
            divisor > 0,
    ;
    assert(quantity * (1_000_000 * scale) == 1_000_000 * (quantity * scale)) by (nonlinear_arith);
    assert(rounded_megabytes(size) == quantity * scale);
}

/// A size in megabytes, with at most two digits that are not zeros at its end.
pub fn round_size_as_mb(size: usize) -> (r: usize)
    ensures
        r == rounded_megabytes(size as nat),
{
    let n: u128 = size as u128;
    let mut scale: u128 = 1;
    let mut quantity: u128 = (n + 500_000) / 1_000_000;
    while quantity > 100
        invariant
            n == size,
            scale > 0,
            scale == 1 || 10_000_000 * scale <= size,
            quantity == megabytes(size as nat, scale as nat),
            megabyte_scale(size as nat, scale as nat) == megabyte_scale(size as nat, 1),
        decreases size - scale,
    {
        proof {
            lemma_scale_bound(size as nat, scale as nat);
        }
        scale = scale * 10;
        quantity = (n + 500_000 * scale) / (1_000_000 * scale);
    }
    proof {
        let divisor = 1_000_000 * scale;
        let dividend = size + 500_000 * scale;
        assert(quantity * scale <= size) by (nonlinear_arith)
            requires
                quantity == dividend / divisor,
                divisor == 1_000_000 * scale,
                dividend == size + 500_000 * scale,
                scale == 1 || 10_000_000 * scale <= size,
                scale > 0,
        ;
    }
    (quantity * scale) as usize
}

// ---- sizes as text ----

/// A size in hundredths of a unit, rounded to the nearest whole number, to the even one of two.
pub open spec fn hundredths(bytes: nat, unit: nat) -> nat {
    let (quotient, rest) = (100 * bytes / unit, 100 * bytes % unit);
    if 2 * rest > unit || (2 * rest == unit && quotient % 2 == 1) {
        quotient + 1
    } else {
        quotient
    }
}

/// A number of hundredths as text, with two digits behind the point.
pub open spec fn hundredths_text(n: nat) -> Seq<char> {
    decimal_text(n / 100) + seq![
        '.',
        (48 + n / 10 % 10) as u8 as char,
        (48 + n % 10) as u8 as char,
    ]
}

/// A size in a unit as text.
pub open spec fn size_in_unit(bytes: nat, unit: nat, name: Seq<char>) -> Seq<char> {
    hundredths_text(hundredths(bytes, unit)) + seq![' '] + name
}

/// A size as text: in bytes below 1 KB, else in the largest of the units KB, MB, GB and TB that
/// it reaches.
pub open spec fn size_text(bytes: nat) -> Seq<char> {
    if bytes < 0x400 {
        decimal_text(bytes) + " B"@
    } else if bytes < 0x10_0000 {
        size_in_unit(bytes, 0x400, "KB"@)
    } else if bytes < 0x4000_0000 {
        size_in_unit(bytes, 0x10_0000, "MB"@)
    } else if bytes < 0x100_0000_0000 {
        size_in_unit(bytes, 0x4000_0000, "GB"@)
    } else {
        size_in_unit(bytes, 0x100_0000_0000, "TB"@)
    }
}

/// Whether a number of hundredths of a unit is the nearest to a size; of two that are as near, the
/// even one.
pub open spec fn is_nearest(h: nat, bytes: nat, unit: nat) -> bool {
    &&& 2 * h * unit <= 200 * bytes + unit
    &&& 200 * bytes <= 2 * h * unit + unit
    &&& 2 * h * unit == 200 * bytes + unit ==> h % 2 == 0
    &&& 200 * bytes == 2 * h * unit + unit ==> h % 2 == 0
}

/// A size in hundredths of a unit is the nearest number.
pub proof fn hundredths_are_nearest(bytes: nat, unit: nat)
    requires
        unit > 0,
    ensures
        is_nearest(hundredths(bytes, unit), bytes, unit),
{
    let (q, r) = (100 * bytes / unit, 100 * bytes % unit);
    let h = hundredths(bytes, unit);
    assert(100 * bytes == q * unit + r && r < unit) by (nonlinear_arith)
        requires
            q == 100 * bytes / unit,
            r == 100 * bytes % unit,
            unit > 0,
    ;
    assert((q + 1) * unit == q * unit + unit) by (nonlinear_arith);
    assert(2 * h * unit == 2 * (h * unit)) by (nonlinear_arith);
}

/// Whether a text tells a number of hundredths: the whole, a point and two digits.
pub open spec fn tells_hundredths(text: Seq<char>, n: nat) -> bool {
    let k = text.len() - 3;
    &&& k > 0
    &&& tells_number(text.take(k), n as int / 100)
    &&& text[k] == '.'
    &&& '0' <= text[k + 1] <= '9'
    &&& '0' <= text[k + 2] <= '9'
    &&& 10 * (text[k + 1] as int - '0' as int) + (text[k + 2] as int - '0' as int) == n as int % 100
}

/// The text of a number of hundredths tells it.
pub proof fn hundredths_text_tells_the_number(n: nat)
    ensures
        tells_hundredths(hundredths_text(n), n),
{
    let text = hundredths_text(n);
    decimal_text_tells_the_number(n / 100);
    assert(text.take(text.len() - 3) =~= decimal_text(n / 100));
}

/// Whether a text tells a size in a unit, whose name has three characters with the space before
/// it.
pub open spec fn tells_size_in(
    text: Seq<char>,
    bytes: nat,
    unit: nat,
    name: Seq<char>,
) -> bool {
    let k = text.len() - 3;
    &&& k > 0
    &&& text.skip(k) == name
    &&& exists|h: nat| #[trigger]
        is_nearest(h, bytes, unit) && tells_hundredths(text.take(k), h)
}

/// Whether a text tells a size: in bytes if it is below 1024, else with two digits behind the point
/// in the largest of the units that it reaches, each 1024 times the one before.
pub open spec fn tells_size(text: Seq<char>, bytes: nat) -> bool {
    &&& bytes < 1024 ==> {
        &&& text.len() > 2
        &&& tells_number(text.take(text.len() - 2), bytes as int)
        &&& text.skip(text.len() - 2) == seq![' ', 'B']
    }
    &&& 1024 <= bytes < 1024 * 1024 ==> tells_size_in(text, bytes, 1024, seq![' ', 'K', 'B'])
    &&& 1024 * 1024 <= bytes < 1024 * 1024 * 1024 ==> tells_size_in(
        text,
        bytes,
        1024 * 1024,
        seq![' ', 'M', 'B'],
    )
    &&& 1024 * 1024 * 1024 <= bytes < 1024 * 1024 * 1024 * 1024 ==> tells_size_in(
        text,
        bytes,
        1024 * 1024 * 1024,
        seq![' ', 'G', 'B'],
    )
    &&& 1024 * 1024 * 1024 * 1024 <= bytes ==> tells_size_in(
        text,
        bytes,
        1024 * 1024 * 1024 * 1024,
        seq![' ', 'T', 'B'],
    )
}

/// The text of a size in a unit tells it.
proof fn lemma_size_in_unit(bytes: nat, unit: nat, name: Seq<char>)
    requires
        unit > 0,
        name.len() == 2,
    ensures
        tells_size_in(size_in_unit(bytes, unit, name), bytes, unit, seq![' '] + name),
{
    let h = hundredths(bytes, unit);
    let text = size_in_unit(bytes, unit, name);
    hundredths_are_nearest(bytes, unit);
    hundredths_text_tells_the_number(h);
    assert(text.take(text.len() - 3) =~= hundredths_text(h));
    assert(text.skip(text.len() - 3) =~= seq![' '] + name);
}

/// The text of a size tells the size.
pub proof fn size_text_tells_the_size(bytes: nat)
    ensures
        tells_size(size_text(bytes), bytes),
{
    reveal_strlit(" B");
    reveal_strlit("KB");
    reveal_strlit("MB");
    reveal_strlit("GB");
    reveal_strlit("TB");
    let text = size_text(bytes);
    if bytes < 0x400 {
        decimal_text_tells_the_number(bytes);
        assert(text.take(text.len() - 2) =~= decimal_text(bytes));
        assert(text.skip(text.len() - 2) =~= seq![' ', 'B']);
    } else if bytes < 0x10_0000 {
        lemma_size_in_unit(bytes, 0x400, "KB"@);
        assert(seq![' '] + "KB"@ =~= seq![' ', 'K', 'B']);
    } else if bytes < 0x4000_0000 {
        lemma_size_in_unit(bytes, 0x10_0000, "MB"@);
        assert(seq![' '] + "MB"@ =~= seq![' ', 'M', 'B']);
    } else if bytes < 0x100_0000_0000 {
        lemma_size_in_unit(bytes, 0x4000_0000, "GB"@);
        assert(seq![' '] + "GB"@ =~= seq![' ', 'G', 'B']);
    } else {
        lemma_size_in_unit(bytes, 0x100_0000_0000, "TB"@);
        assert(seq![' '] + "TB"@ =~= seq![' ', 'T', 'B']);
    }
}

/// Appends a size in a unit to text, with two digits behind the point.
pub fn push_hundredths(text: &mut String, bytes: u64, unit: u64)
    requires
        0x400 <= unit,
    ensures
        final(text)@ == old(text)@ + hundredths_text(hundredths(bytes as nat, unit as nat)),
{
    let scaled: u128 = 100 * (bytes as u128);
    let quotient: u128 = scaled / (unit as u128);
    let rest: u128 = scaled % (unit as u128);
    proof {
        assert(scaled / unit as u128 <= scaled / 0x400) by (nonlinear_arith)
            requires
                unit >= 0x400,
        ;
        assert(rest < unit) by (nonlinear_arith)
            requires
                rest == scaled % (unit as u128),
                unit > 0,
        ;
    }
    let rounded: u64 = if 2 * rest > unit as u128 || (2 * rest == unit as u128 && quotient % 2
        == 1) {
        (quotient + 1) as u64
    } else {
        quotient as u64
    };
    push_decimal(text, rounded / 100);
    text.push('.');
    text.push((48 + (rounded / 10 % 10) as u8) as char);
    text.push((48 + (rounded % 10) as u8) as char);
    assert(text@ =~= old(text)@ + hundredths_text(hundredths(bytes as nat, unit as nat)));
}

/// Formats a size in a unit.
fn format_in_unit(bytes: u64, unit: u64, name: &str) -> (text: String)
    requires
        0x400 <= unit,
    ensures
        text@ == size_in_unit(bytes as nat, unit as nat, name@),
{
    let mut text: String = String::new();
    push_hundredths(&mut text, bytes, unit);
    text.push(' ');
    text.append(name);
    assert(text@ =~= size_in_unit(bytes as nat, unit as nat, name@));
    text
}

/// Formats a size for people to read.
pub fn format_size(bytes: u64) -> (text: String)
    ensures
        text@ == size_text(bytes as nat),
        tells_size(text@, bytes as nat),
{
    proof {
        size_text_tells_the_size(bytes as nat);
    }
    if bytes < 0x400 {
        let mut text: String = String::new();
        push_decimal(&mut text, bytes);
        text.append(" B");
        assert(text@ =~= size_text(bytes as nat));
        text
    } else if bytes < 0x10_0000 {
        format_in_unit(bytes, 0x400, "KB")
    } else if bytes < 0x4000_0000 {
        format_in_unit(bytes, 0x10_0000, "MB")
    } else if bytes < 0x100_0000_0000 {
        format_in_unit(bytes, 0x4000_0000, "GB")
    } else {
        format_in_unit(bytes, 0x100_0000_0000, "TB")
    }
}

} // verus!
