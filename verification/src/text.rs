//! Numbers read from text and written as text.

use crate::types::{Numeric, NUMERIC_SCALE};
use vstd::prelude::*;
use vstd::string::StrSliceExecFns;

verus! {

/// The largest count that is read digit by digit: ten to the thirtieth.
pub const READ_LIMIT: u128 = 1_000_000_000_000_000_000_000_000_000_000;

/// Whether `c` is one of the ten decimal digits.
pub open spec fn is_digit(c: char) -> bool {
    '0' <= c && c <= '9'
}

/// The number that the decimal digits `digits` write.
pub open spec fn digits_value(digits: Seq<char>) -> nat
    decreases digits.len(),
{
    if digits.len() == 0 {
        0
    } else {
        digits_value(digits.drop_last()) * 10 + ((digits.last() as u32 - '0' as u32) as nat)
    }
}

/// `text` without a plus sign in front.
pub open spec fn unsigned_part(text: Seq<char>) -> Seq<char> {
    if text.len() > 0 && text[0] == '+' {
        text.drop_first()
    } else {
        text
    }
}

/// Whether `digits` is a run of one or more decimal digits.
pub open spec fn is_digits(digits: Seq<char>) -> bool {
    digits.len() > 0 && forall|i: int| 0 <= i < digits.len() ==> is_digit(#[trigger] digits[i])
}

/// The count that `text` writes: decimal digits, a plus sign in front of
/// them or none, and a value that a `usize` holds.
pub open spec fn decimal_usize(text: Seq<char>) -> Option<usize> {
    if is_digits(unsigned_part(text)) && digits_value(unsigned_part(text)) <= usize::MAX {
        Some(digits_value(unsigned_part(text)) as usize)
    } else {
        None
    }
}

/// Calls `str::parse` for `usize`, which takes an optional plus sign
/// followed by decimal digits only and fails on an empty text, on any other
/// character and on a value too large for the type.
#[verifier::external_body]
pub(crate) fn parse_usize(text: &str) -> (count: Option<usize>)
    ensures
        count == decimal_usize(text@),
{
    text.parse::<usize>().ok()
}

/// The character that writes the digit `d`.
pub open spec fn digit_char(d: int) -> char {
    if d == 0 {
        '0'
    } else if d == 1 {
        '1'
    } else if d == 2 {
        '2'
    } else if d == 3 {
        '3'
    } else if d == 4 {
        '4'
    } else if d == 5 {
        '5'
    } else if d == 6 {
        '6'
    } else if d == 7 {
        '7'
    } else if d == 8 {
        '8'
    } else {
        '9'
    }
}

/// The decimal digits of `n`, without zeros in front.
pub open spec fn decimal_digits(n: nat) -> Seq<char>
    decreases n,
{
    if n < 10 {
        seq![digit_char(n as int)]
    } else {
        decimal_digits(n / 10).push(digit_char((n % 10) as int))
    }
}

/// The last `width` decimal digits of `n`, with zeros in front where `n` is short.
pub open spec fn padded_digits(n: nat, width: nat) -> Seq<char>
    decreases width,
{
    if width == 0 {
        Seq::empty()
    } else {
        padded_digits(n / 10, (width - 1) as nat).push(digit_char((n % 10) as int))
    }
}

/// The digits behind the point of a fraction of `width` digits: the digits
/// of `fraction` with zeros in front, and without the zeros at the end.
pub open spec fn fraction_digits(fraction: nat, width: nat) -> Seq<char>
    decreases width,
{
    if width == 0 {
        Seq::empty()
    } else if fraction % 10 == 0 {
        fraction_digits(fraction / 10, (width - 1) as nat)
    } else {
        padded_digits(fraction, width)
    }
}

/// The size of `value`, whatever its sign.
pub open spec fn magnitude(value: Numeric) -> nat {
    if value < 0 {
        (-value) as nat
    } else {
        value as nat
    }
}

/// How a number is written: a minus sign where it is negative, its whole
/// part in decimal digits and, where it has a fraction, a point and the
/// digits of the fraction.
pub open spec fn numeric_text(value: Numeric) -> Seq<char> {
    let sign = if value < 0 {
        seq!['-']
    } else {
        Seq::empty()
    };
    let whole = decimal_digits(magnitude(value) / (NUMERIC_SCALE as nat));
    let fraction = magnitude(value) % (NUMERIC_SCALE as nat);
    if fraction == 0 {
        sign + whole
    } else {
        sign + whole + seq!['.'] + fraction_digits(fraction, 8)
    }
}

/// The character that writes the digit `d`.
pub fn digit_of(d: u64) -> (c: char)
    requires
        d < 10,
    ensures
        c == digit_char(d as int),
{
    if d == 0 {
        '0'
    } else if d == 1 {
        '1'
    } else if d == 2 {
        '2'
    } else if d == 3 {
        '3'
    } else if d == 4 {
        '4'
    } else if d == 5 {
        '5'
    } else if d == 6 {
        '6'
    } else if d == 7 {
        '7'
    } else if d == 8 {
        '8'
    } else {
        '9'
    }
}

/// Writes the decimal digits of `n` behind `out`.
pub fn push_decimal(out: &mut Vec<char>, n: u64)
    ensures
        final(out)@ == old(out)@ + decimal_digits(n as nat),
    decreases n,
{
    if n >= 10 {
        push_decimal(out, n / 10);
    }
    out.push(digit_of(n % 10));
    assert(out@ =~= old(out)@ + decimal_digits(n as nat));
}

/// Writes the last `width` decimal digits of `n` behind `out`.
pub fn push_padded(out: &mut Vec<char>, n: u64, width: u64)
    ensures
        final(out)@ == old(out)@ + padded_digits(n as nat, width as nat),
    decreases width,
{
    if width > 0 {
        push_padded(out, n / 10, width - 1);
        out.push(digit_of(n % 10));
    }
    assert(out@ =~= old(out)@ + padded_digits(n as nat, width as nat));
}

/// Calls `Iterator::collect` on the characters of `chars`, which makes a
/// `String` of them in their order.
#[verifier::external_body]
pub(crate) fn string_of(chars: &Vec<char>) -> (text: String)
    ensures
        text@ == chars@,
{
    chars.iter().collect()
}

/// Writes a count in decimal digits.
pub fn count_to_string(count: usize) -> (text: String)
    ensures
        text@ == decimal_digits(count as nat),
{
    let mut out: Vec<char> = Vec::new();
    push_decimal(&mut out, count as u64);
    string_of(&out)
}

/// Writes a number as `numeric_text` says.
pub fn numeric_to_string(value: Numeric) -> (text: String)
    ensures
        text@ == numeric_text(value),
{
    let mut out: Vec<char> = Vec::new();
    let size: u64 = if value < 0 {
        out.push('-');
        (-(value as i128)) as u64
    } else {
        value as u64
    };
    let ghost sign = out@;
    push_decimal(&mut out, size / (NUMERIC_SCALE as u64));
    let mut fraction: u64 = size % (NUMERIC_SCALE as u64);
    if fraction != 0 {
        out.push('.');
        let ghost front = out@;
        let ghost whole_fraction = fraction;
        let mut width: u64 = 8;
        while width > 0 && fraction % 10 == 0
            invariant
                width <= 8,
                fraction_digits(whole_fraction as nat, 8) == fraction_digits(fraction as nat, width as nat),
            decreases width,
        {
            fraction = fraction / 10;
            width = width - 1;
        }
        push_padded(&mut out, fraction, width);
        assert(out@ =~= front + fraction_digits(whole_fraction as nat, 8));
    }
    assert(out@ =~= numeric_text(value));
    string_of(&out)
}

/// Ten to the power of `exponent`.
pub open spec fn power_of_ten(exponent: nat) -> nat
    decreases exponent,
{
    if exponent == 0 {
        1
    } else {
        10 * power_of_ten((exponent - 1) as nat)
    }
}

/// How many characters of `text` are its sign: one where it starts with a
/// plus or a minus sign, else none.
pub open spec fn sign_width(text: Seq<char>) -> int {
    if text.len() > 0 && (text[0] == '-' || text[0] == '+') {
        1
    } else {
        0
    }
}

/// The place of the first point in `text` at or behind `from`, or the
/// length of `text` where there is none.
pub open spec fn point_place(text: Seq<char>, from: int) -> int
    decreases text.len() - from,
{
    if from >= text.len() {
        text.len() as int
    } else if text[from] == '.' {
        from
    } else {
        point_place(text, from + 1)
    }
}

/// How many units the digits behind a point stand for: the first eight
/// count, and digits behind them are dropped.
pub open spec fn fraction_units(fraction: Seq<char>) -> nat {
    if fraction.len() >= 8 {
        digits_value(fraction.take(8))
    } else {
        digits_value(fraction) * power_of_ten((8 - fraction.len()) as nat)
    }
}

/// Whether `digits` holds nothing but decimal digits.
pub open spec fn are_digits(digits: Seq<char>) -> bool {
    forall|i: int| 0 <= i < digits.len() ==> is_digit(#[trigger] digits[i])
}

/// The place of the first `e` or `E` in `text` at or behind `from`, or the
/// length of `text` where there is none.
pub open spec fn exponent_place(text: Seq<char>, from: int) -> int
    decreases text.len() - from,
{
    if from >= text.len() {
        text.len() as int
    } else if text[from] == 'e' || text[from] == 'E' {
        from
    } else {
        exponent_place(text, from + 1)
    }
}

/// A run of `count` noughts.
pub open spec fn zeros(count: int) -> Seq<char> {
    Seq::new(
        if count < 0 {
            0
        } else {
            count as nat
        },
        |i: int| '0',
    )
}

/// The exponent that `tail` writes: a sign or none, and decimal digits.
pub open spec fn exponent_value(tail: Seq<char>) -> Option<int> {
    let digits = tail.skip(sign_width(tail));
    if is_digits(digits) {
        Some(
            if tail[0] == '-' {
                -(digits_value(digits) as int)
            } else {
                digits_value(digits) as int
            },
        )
    } else {
        None
    }
}

/// The digits that stand before the point when it is set at `place` among
/// `digits`, with noughts where the place lies behind them.
pub open spec fn shifted_whole(digits: Seq<char>, place: int) -> Seq<char> {
    if place <= 0 {
        Seq::empty()
    } else if place >= digits.len() {
        digits + zeros(place - digits.len())
    } else {
        digits.take(place)
    }
}

/// The digits that stand behind the point when it is set at `place` among
/// `digits`, with noughts where the place lies before them.
pub open spec fn shifted_fraction(digits: Seq<char>, place: int) -> Seq<char> {
    if place <= 0 {
        zeros(-place) + digits
    } else if place >= digits.len() {
        Seq::empty()
    } else {
        digits.skip(place)
    }
}

/// The number that `text` writes: a sign or none, decimal digits and, where
/// a point follows them, more digits behind the point; the digits before
/// the point or those behind it may be left out, not both. An `e` or `E`
/// with an exponent behind it moves the point by as many places. A text of
/// another form writes no number, and neither does one whose number is too
/// large.
pub open spec fn numeric_value(text: Seq<char>) -> Option<Numeric> {
    let mark = exponent_place(text, 0);
    let mantissa = text.take(mark);
    let exponent = if mark < text.len() {
        exponent_value(text.skip(mark + 1))
    } else {
        Some(0int)
    };
    let start = sign_width(mantissa);
    let point = point_place(mantissa, start);
    let whole = mantissa.subrange(start, point);
    let fraction = if point < mantissa.len() {
        mantissa.subrange(point + 1, mantissa.len() as int)
    } else {
        Seq::empty()
    };
    if !are_digits(whole) || !are_digits(fraction) || whole.len() + fraction.len() == 0 || exponent is None {
        None
    } else {
        let digits = whole + fraction;
        let place = whole.len() + exponent.unwrap();
        let size = digits_value(shifted_whole(digits, place)) * NUMERIC_SCALE + fraction_units(
            shifted_fraction(digits, place),
        );
        let signed = if text[0] == '-' {
            -size
        } else {
            size as int
        };
        if i64::MIN <= signed <= i64::MAX {
            Some(signed as Numeric)
        } else {
            None
        }
    }
}

/// The characters of `text`.
pub fn chars_of(text: &str) -> (chars: Vec<char>)
    ensures
        chars@ == text@,
{
    let len = text.unicode_len();
    let mut chars: Vec<char> = Vec::new();
    let mut at: usize = 0;
    while at < len
        invariant
            at <= len,
            len == text@.len(),
            chars@ == text@.take(at as int),
        decreases len - at,
    {
        chars.push(text.get_char(at));
        at = at + 1;
        assert(chars@ =~= text@.take(at as int));
    }
    assert(text@.take(at as int) == text@);
    chars
}

/// Whether the characters from `from` up to `to` are decimal digits, all of them.
pub fn all_digits(chars: &Vec<char>, from: usize, to: usize) -> (digits: bool)
    requires
        from <= to <= chars@.len(),
    ensures
        digits == (forall|i: int| from <= i < to ==> is_digit(#[trigger] chars@[i])),
{
    let mut at: usize = from;
    while at < to
        invariant
            from <= at <= to <= chars@.len(),
            forall|i: int| from <= i < at ==> is_digit(#[trigger] chars@[i]),
        decreases to - at,
    {
        let c = chars[at];
        if !('0' <= c && c <= '9') {
            return false;
        }
        at = at + 1;
    }
    true
}

/// Digits write a number below the power of ten of their count, and a run
/// of digits writes no less than any of its beginnings.
pub proof fn lemma_digits_value(digits: Seq<char>, upto: int)
    requires
        forall|i: int| 0 <= i < digits.len() ==> is_digit(#[trigger] digits[i]),
        0 <= upto <= digits.len(),
    ensures
        digits_value(digits) < power_of_ten(digits.len()),
        digits_value(digits.take(upto)) <= digits_value(digits),
    decreases digits.len(),
{
    if digits.len() > 0 {
        let front = digits.drop_last();
        assert(is_digit(digits[digits.len() - 1]));
        if upto < digits.len() {
            lemma_digits_value(front, upto);
            assert(front.take(upto) == digits.take(upto));
        } else {
            lemma_digits_value(front, upto - 1);
            assert(digits.take(upto) == digits);
        }
    } else {
        assert(digits.take(upto) == digits);
    }
}

/// The number that the digits from `from` up to `to` write, where it is
/// not above `limit`.
pub fn read_digits(chars: &Vec<char>, from: usize, to: usize, limit: u128) -> (number: Option<u128>)
    requires
        from <= to <= chars@.len(),
        forall|i: int| from <= i < to ==> is_digit(#[trigger] chars@[i]),
        limit <= READ_LIMIT,
    ensures
        number is Some <==> digits_value(chars@.subrange(from as int, to as int)) <= limit,
        number is Some ==> number.unwrap() == digits_value(chars@.subrange(from as int, to as int)),
{
    let ghost digits = chars@.subrange(from as int, to as int);
    let mut number: u128 = 0;
    let mut at: usize = from;
    while at < to
        invariant
            from <= at <= to <= chars@.len(),
            digits == chars@.subrange(from as int, to as int),
            forall|i: int| 0 <= i < digits.len() ==> is_digit(#[trigger] digits[i]),
            number == digits_value(digits.take(at - from)),
            number <= limit <= READ_LIMIT,
        decreases to - at,
    {
        let c = chars[at];
        proof {
            assert(digits[at - from] == c);
            assert(is_digit(digits[at - from]));
            assert(digits.take(at - from + 1).drop_last() == digits.take(at - from));
        }
        let digit: u128 = (c as u32 - '0' as u32) as u128;
        let next: u128 = number * 10 + digit;
        if next > limit {
            proof {
                lemma_digits_value(digits, at - from + 1);
            }
            return None;
        }
        number = next;
        at = at + 1;
    }
    proof {
        assert(digits.take(to - from) == digits);
    }
    Some(number)
}

/// How many units the digits from `from` up to `to` stand for behind a point.
pub fn read_fraction(chars: &Vec<char>, from: usize, to: usize) -> (units: u64)
    requires
        from <= to <= chars@.len(),
        forall|i: int| from <= i < to ==> is_digit(#[trigger] chars@[i]),
    ensures
        units == fraction_units(chars@.subrange(from as int, to as int)),
        units < NUMERIC_SCALE,
{
    let ghost fraction = chars@.subrange(from as int, to as int);
    proof {
        assert forall|i: int| 0 <= i < fraction.len() implies is_digit(#[trigger] fraction[i]) by {
            assert(fraction[i] == chars@[i + from]);
        }
    }
    let given = to - from;
    let kept: usize = if given >= 8 {
        8
    } else {
        given
    };
    proof {
        assert(chars@.subrange(from as int, from + kept) == fraction.take(kept as int));
        lemma_digits_value(fraction.take(kept as int), kept as int);
        lemma_power_of_ten_grows(kept as nat, 8);
        lemma_power_of_ten_value();
        if given < 8 {
            assert(fraction.take(kept as int) == fraction);
        }
        assert(digits_value(fraction.take(kept as int)) * 1 == digits_value(fraction.take(kept as int)));
    }
    let mut units: u64 = match read_digits(chars, from, from + kept, 100_000_000) {
        Some(number) => number as u64,
        None => 0,
    };
    let mut width: usize = kept;
    while width < 8
        invariant
            kept <= width <= 8,
            units == digits_value(fraction.take(kept as int)) * power_of_ten((width - kept) as nat),
            units < power_of_ten(width as nat),
            power_of_ten(width as nat) <= power_of_ten(8),
        decreases 8 - width,
    {
        proof {
            lemma_power_of_ten_grows((width + 1) as nat, 8);
            let base = digits_value(fraction.take(kept as int));
            let power = power_of_ten((width - kept) as nat);
            assert(base * power * 10 == base * (10 * power)) by (nonlinear_arith);
            lemma_power_of_ten_value();
        }
        units = units * 10;
        width = width + 1;
    }
    proof {
        lemma_power_of_ten_value();
        if given >= 8 {
            assert(digits_value(fraction.take(8)) * 1 == digits_value(fraction.take(8)));
        }
    }
    units
}

/// Noughts write nothing.
pub proof fn lemma_zeros_value(count: int)
    ensures
        digits_value(zeros(count)) == 0,
        are_digits(zeros(count)),
    decreases count,
{
    if count > 0 {
        lemma_zeros_value(count - 1);
        assert(zeros(count) =~= zeros(count - 1).push('0'));
        lemma_digits_value_push(zeros(count - 1), '0');
    } else {
        assert(zeros(count) =~= Seq::<char>::empty());
    }
}

/// Digits with noughts behind them write as many times ten as much.
pub proof fn lemma_append_zeros(digits: Seq<char>, count: int)
    requires
        count >= 0,
    ensures
        digits_value(digits + zeros(count)) == digits_value(digits) * power_of_ten(count as nat),
    decreases count,
{
    if count > 0 {
        lemma_append_zeros(digits, count - 1);
        assert(digits + zeros(count) =~= (digits + zeros(count - 1)).push('0'));
        lemma_digits_value_push(digits + zeros(count - 1), '0');
        let value = digits_value(digits);
        let power = power_of_ten((count - 1) as nat);
        assert(value * power * 10 == value * (10 * power)) by (nonlinear_arith);
    } else {
        assert(digits + zeros(count) =~= digits);
        assert(digits_value(digits) * 1 == digits_value(digits));
    }
}

/// Reads a number from `text` as `numeric_value` says.
#[verifier::rlimit(80)]
pub fn parse_numeric(text: &str) -> (number: Option<Numeric>)
    ensures
        number == numeric_value(text@),
{
    let chars = chars_of(text);
    let len = chars.len();
    let mut mark: usize = 0;
    while mark < len && chars[mark] != 'e' && chars[mark] != 'E'
        invariant
            mark <= len,
            len == chars@.len(),
            exponent_place(chars@, 0) == exponent_place(chars@, mark as int),
        decreases len - mark,
    {
        mark = mark + 1;
    }
    let ghost mantissa = chars@.take(mark as int);
    let start: usize = if mark > 0 && (chars[0] == '-' || chars[0] == '+') {
        1
    } else {
        0
    };
    let mut point: usize = start;
    while point < mark && chars[point] != '.'
        invariant
            start <= point <= mark <= len,
            len == chars@.len(),
            mantissa == chars@.take(mark as int),
            point_place(mantissa, start as int) == point_place(mantissa, point as int),
        decreases mark - point,
    {
        point = point + 1;
    }
    let ghost whole = mantissa.subrange(start as int, point as int);
    let ghost fraction = if point < mark {
        mantissa.subrange(point + 1, mark as int)
    } else {
        Seq::empty()
    };
    let behind: usize = if point < mark {
        point + 1
    } else {
        mark
    };
    proof {
        assert(whole =~= chars@.subrange(start as int, point as int));
        assert(fraction =~= chars@.subrange(behind as int, mark as int));
    }
    if !all_digits(&chars, start, point) {
        proof {
            let bad = choose|i: int| start <= i < point && !is_digit(#[trigger] chars@[i]);
            assert(whole[bad - start] == chars@[bad]);
        }
        return None;
    }
    if !all_digits(&chars, behind, mark) {
        proof {
            let bad = choose|i: int| behind <= i < mark && !is_digit(#[trigger] chars@[i]);
            assert(fraction[bad - behind] == chars@[bad]);
        }
        return None;
    }
    if point == start && behind == mark {
        return None;
    }
    proof {
        assert forall|i: int| 0 <= i < whole.len() implies is_digit(#[trigger] whole[i]) by {
            assert(whole[i] == chars@[i + start]);
        }
        assert forall|i: int| 0 <= i < fraction.len() implies is_digit(#[trigger] fraction[i]) by {
            assert(fraction[i] == chars@[i + behind]);
        }
    }
    let ghost tail = chars@.skip(mark + 1);
    let (falling, magnitude) = if mark < len {
        match read_exponent(&chars, mark) {
            Some(read) => read,
            None => {
                return None;
            },
        }
    } else {
        (false, Some(0u128))
    };
    let ghost exponent: int = if mark < len {
        exponent_value(tail).unwrap()
    } else {
        0
    };
    let mut digits: Vec<char> = Vec::new();
    let mut at: usize = start;
    while at < point
        invariant
            start <= at <= point <= chars@.len(),
            digits@ == chars@.subrange(start as int, at as int),
        decreases point - at,
    {
        digits.push(chars[at]);
        at = at + 1;
        assert(digits@ =~= chars@.subrange(start as int, at as int));
    }
    let mut at: usize = behind;
    while at < mark
        invariant
            behind <= at <= mark <= chars@.len(),
            digits@ == whole + chars@.subrange(behind as int, at as int),
        decreases mark - at,
    {
        digits.push(chars[at]);
        at = at + 1;
        assert(digits@ =~= whole + chars@.subrange(behind as int, at as int));
    }
    proof {
        assert(digits@ == whole + fraction);
        assert forall|i: int| 0 <= i < digits@.len() implies is_digit(#[trigger] digits@[i]) by {
            if i < whole.len() {
                assert(digits@[i] == whole[i]);
            } else {
                assert(digits@[i] == fraction[i - whole.len()]);
            }
        }
    }
    let size = match moved_size(&digits, point - start, falling, magnitude, Ghost(exponent)) {
        Some(size) => size,
        None => {
            return None;
        },
    };
    if chars[0] == '-' {
        Some((-(size as i128)) as Numeric)
    } else {
        if size > i64::MAX as u128 {
            None
        } else {
            Some(size as Numeric)
        }
    }
}

/// The size of the number that `digits` write with the point set `before`
/// digits from their start and moved by `exponent`, as
/// far as a number holds it.
fn moved_size(digits: &Vec<char>, before: usize, falling: bool, magnitude: Option<u128>, exponent: Ghost<int>) -> (size:
    Option<u128>)
    requires
        before <= digits@.len(),
        forall|i: int| 0 <= i < digits@.len() ==> is_digit(#[trigger] digits@[i]),
        is_moved_by(falling, magnitude, exponent@),
        magnitude matches Some(moved) ==> moved <= READ_LIMIT,
    ensures
        size == held_size(
            digits_value(shifted_whole(digits@, before + exponent@)) * NUMERIC_SCALE + fraction_units(
                shifted_fraction(digits@, before + exponent@),
            ),
        ),
{
    let count = digits.len();
    let ghost place: int = before + exponent@;
    let ghost moved_whole = shifted_whole(digits@, place);
    let ghost moved_fraction = shifted_fraction(digits@, place);
    proof {
        lemma_power_of_ten_value();
    }
    let target: i128 = match magnitude {
        None => if falling {
            -8
        } else {
            count as i128 + 12
        },
        Some(moved) => if falling {
            before as i128 - moved as i128
        } else {
            before as i128 + moved as i128
        },
    };
    proof {
        match magnitude {
            None => {
                if falling {
                    assert(place <= -8);
                } else {
                    assert(place >= count + 12);
                }
            },
            Some(moved) => {
                assert(target == place);
            },
        }
    }
    if target <= -8 {
        proof {
            assert(place <= -8);
            assert(moved_whole =~= Seq::<char>::empty());
            assert(digits_value(moved_whole) == 0);
            assert(moved_fraction.take(8) =~= zeros(8));
            lemma_zeros_value(8);
            assert(0 * NUMERIC_SCALE + 0 == 0);
        }
        return Some(0);
    }
    if target >= count as i128 + 12 {
        proof {
            assert(place >= count + 12);
            lemma_append_zeros(digits@, place - count);
            lemma_power_of_ten_grows(12, (place - count) as nat);
            assert(moved_fraction =~= Seq::<char>::empty());
            assert(digits_value(Seq::<char>::empty()) == 0);
            assert(fraction_units(moved_fraction) == 0) by {
                assert(0 * power_of_ten(8) == 0);
            }
        }
        let written = read_digits(digits, 0, count, 1);
        proof {
            assert(digits@.subrange(0, count as int) == digits@);
            let value = digits_value(digits@);
            let power = power_of_ten((place - count) as nat);
            assert(power_of_ten(12) == 1_000_000_000_000) by {
                reveal_with_fuel(power_of_ten, 14);
            }
            if value >= 1 {
                assert(value * power * NUMERIC_SCALE > 0x8000_0000_0000_0000) by (nonlinear_arith)
                    requires
                        value >= 1,
                        power >= 1_000_000_000_000,
                        NUMERIC_SCALE == 100_000_000,
                ;
            } else {
                assert(value * power == 0) by (nonlinear_arith)
                    requires
                        value == 0,
                ;
            }
        }
        return match written {
            Some(value) => if value == 0 {
                Some(0)
            } else {
                None
            },
            None => None,
        };
    }
    assert(target == place);
    let (shifted, split) = set_point(digits, target);
    proof {
        assert(shifted@.subrange(0, split as int) =~= moved_whole);
        assert(shifted@.subrange(split as int, shifted@.len() as int) =~= moved_fraction);
    }
    let units = read_fraction(&shifted, split, shifted.len());
    let whole_number = match read_digits(&shifted, 0, split, 100_000_000_000) {
        Some(number) => number,
        None => {
            proof {
                let value = digits_value(moved_whole);
                assert(value * NUMERIC_SCALE > 0x8000_0000_0000_0000) by (nonlinear_arith)
                    requires
                        value > 100_000_000_000,
                        NUMERIC_SCALE == 100_000_000,
                ;
            }
            return None;
        },
    };
    proof {
        assert(whole_number * NUMERIC_SCALE <= 100_000_000_000 * NUMERIC_SCALE) by (nonlinear_arith)
            requires
                0 <= whole_number <= 100_000_000_000,
        ;
    }
    let size: u128 = whole_number * (NUMERIC_SCALE as u128) + (units as u128);
    if size > 0x8000_0000_0000_0000 {
        None
    } else {
        Some(size)
    }
}

/// The digits with the point set at `place`: what stands before the
/// point, with noughts where the place lies behind the digits, followed from
/// `split` on by what stands behind it, with noughts where the place lies
/// before the digits.
fn set_point(digits: &Vec<char>, place: i128) -> (moved: (Vec<char>, usize))
    requires
        -8 < place < digits@.len() + 12,
        forall|i: int| 0 <= i < digits@.len() ==> is_digit(#[trigger] digits@[i]),
    ensures
        moved.1 <= moved.0@.len(),
        moved.0@ == shifted_whole(digits@, place as int) + shifted_fraction(digits@, place as int),
        moved.1 == shifted_whole(digits@, place as int).len(),
        forall|i: int| 0 <= i < moved.0@.len() ==> is_digit(#[trigger] moved.0@[i]),
{
    let count = digits.len();
    let mut shifted: Vec<char> = Vec::new();
    let mut padded: usize = 0;
    while (padded as i128) < -place
        invariant
            -8 < place,
            padded <= 8,
            place <= 0 ==> padded <= -place,
            place > 0 ==> padded == 0,
            shifted@ == zeros(padded as int),
        decreases 8 - padded,
    {
        shifted.push('0');
        padded = padded + 1;
        assert(shifted@ =~= zeros(padded as int));
    }
    let mut at: usize = 0;
    while at < count
        invariant
            at <= count,
            count == digits@.len(),
            shifted@ == zeros(padded as int) + digits@.take(at as int),
        decreases count - at,
    {
        shifted.push(digits[at]);
        at = at + 1;
        assert(shifted@ =~= zeros(padded as int) + digits@.take(at as int));
    }
    assert(digits@.take(count as int) == digits@);
    let mut more: usize = 0;
    while (count as i128 + more as i128) < place
        invariant
            place < count + 12,
            more <= 12,
            place >= count ==> count + more <= place,
            place < count ==> more == 0,
            shifted@ == zeros(padded as int) + digits@ + zeros(more as int),
        decreases 12 - more,
    {
        shifted.push('0');
        more = more + 1;
        assert(shifted@ =~= zeros(padded as int) + digits@ + zeros(more as int));
    }
    let split: usize = if place <= 0 {
        0
    } else if place >= count as i128 {
        shifted.len()
    } else {
        place as usize
    };
    proof {
        lemma_zeros_value(12);
        assert(shifted@ =~= shifted_whole(digits@, place as int) + shifted_fraction(digits@, place as int));
        assert forall|i: int| 0 <= i < shifted@.len() implies is_digit(#[trigger] shifted@[i]) by {
            if padded <= i < padded + count {
                assert(shifted@[i] == digits@[i - padded]);
            }
        }
    }
    (shifted, split)
}

/// Whether an exponent falls or rises as `falling` says and has the size
/// `magnitude`, or a size beyond all that is read.
pub open spec fn is_moved_by(falling: bool, magnitude: Option<u128>, exponent: int) -> bool {
    match magnitude {
        Some(moved) => exponent == if falling {
            -(moved as int)
        } else {
            moved as int
        },
        None => if falling {
            exponent < -READ_LIMIT
        } else {
            exponent > READ_LIMIT
        },
    }
}

/// A size as far as a number holds it: nothing for a size beyond the
/// largest that a number of either sign can have.
pub open spec fn held_size(size: int) -> Option<u128> {
    if size > 0x8000_0000_0000_0000 {
        None
    } else {
        Some(size as u128)
    }
}

/// Reads the exponent behind the mark at `mark`: whether it falls, and its
/// size where that is not beyond all that is read.
fn read_exponent(chars: &Vec<char>, mark: usize) -> (read: Option<(bool, Option<u128>)>)
    requires
        mark < chars@.len(),
    ensures
        read is Some <==> exponent_value(chars@.skip(mark + 1)) is Some,
        read is Some ==> is_moved_by(read.unwrap().0, read.unwrap().1, exponent_value(chars@.skip(mark + 1)).unwrap()),
        read matches Some(found) ==> (found.1 matches Some(moved) ==> moved
            <= READ_LIMIT),
{
    let len = chars.len();
    let ghost tail = chars@.skip(mark + 1);
    let first: usize = if mark + 1 < len && (chars[mark + 1] == '-' || chars[mark + 1] == '+') {
        mark + 2
    } else {
        mark + 1
    };
    proof {
        assert(tail.len() == len - mark - 1);
        if tail.len() > 0 {
            assert(tail[0] == chars@[mark + 1]);
        }
        assert(tail.skip(sign_width(tail)) =~= chars@.subrange(first as int, len as int));
    }
    if first == len || !all_digits(chars, first, len) {
        proof {
            let digits = chars@.subrange(first as int, len as int);
            if first < len {
                let bad = choose|i: int| first <= i < len && !is_digit(#[trigger] chars@[i]);
                assert(digits[bad - first] == chars@[bad]);
            }
        }
        return None;
    }
    proof {
        let digits = chars@.subrange(first as int, len as int);
        assert forall|i: int| 0 <= i < digits.len() implies is_digit(#[trigger] digits[i]) by {
            assert(digits[i] == chars@[i + first]);
        }
    }
    let falling = chars[mark + 1] == '-';
    let magnitude = read_digits(chars, first, len, READ_LIMIT);
    Some((falling, magnitude))
}

/// The character of a digit is a decimal digit that writes the digit, and
/// it is neither a sign nor a point.
pub proof fn lemma_digit_char(d: int)
    requires
        0 <= d <= 9,
    ensures
        is_digit(digit_char(d)),
        digit_char(d) as u32 - '0' as u32 == d,
        digit_char(d) != '.',
        digit_char(d) != '+',
        digit_char(d) != '-',
{
}

/// Digits with one more behind them write ten times as much and the digit.
pub proof fn lemma_digits_value_push(digits: Seq<char>, last: char)
    ensures
        digits_value(digits.push(last)) == digits_value(digits) * 10 + ((last as u32 - '0' as u32) as nat),
{
    assert(digits.push(last).drop_last() == digits);
}

/// The decimal digits of a number are digits, and they write the number.
pub proof fn lemma_decimal_digits(n: nat)
    ensures
        is_digits(decimal_digits(n)),
        digits_value(decimal_digits(n)) == n,
    decreases n,
{
    if n < 10 {
        lemma_digit_char(n as int);
        lemma_digits_value_push(Seq::empty(), digit_char(n as int));
        assert(Seq::<char>::empty().push(digit_char(n as int)) == seq![digit_char(n as int)]);
        assert(digits_value(Seq::<char>::empty()) == 0);
    } else {
        lemma_decimal_digits(n / 10);
        lemma_digit_char((n % 10) as int);
        lemma_digits_value_push(decimal_digits(n / 10), digit_char((n % 10) as int));
        let digits = decimal_digits(n);
        assert forall|i: int| 0 <= i < digits.len() implies is_digit(#[trigger] digits[i]) by {
            if i < digits.len() - 1 {
                assert(digits[i] == decimal_digits(n / 10)[i]);
            }
        }
    }
}

/// The last digits of a number, as many as asked for, are digits, and they
/// write what is left of the number when it is divided by the power of ten
/// of their count.
pub proof fn lemma_padded_digits(n: nat, width: nat)
    ensures
        padded_digits(n, width).len() == width,
        forall|i: int| 0 <= i < width ==> is_digit(#[trigger] padded_digits(n, width)[i]),
        digits_value(padded_digits(n, width)) == n % power_of_ten(width),
    decreases width,
{
    if width == 0 {
        assert(digits_value(padded_digits(n, width)) == 0);
    } else {
        let front = padded_digits(n / 10, (width - 1) as nat);
        lemma_padded_digits(n / 10, (width - 1) as nat);
        lemma_digit_char((n % 10) as int);
        lemma_digits_value_push(front, digit_char((n % 10) as int));
        let digits = padded_digits(n, width);
        assert forall|i: int| 0 <= i < width implies is_digit(#[trigger] digits[i]) by {
            if i < width - 1 {
                assert(digits[i] == front[i]);
            }
        }
        let power = power_of_ten((width - 1) as nat);
        lemma_power_of_ten_grows(0, (width - 1) as nat);
        vstd::arithmetic::div_mod::lemma_mod_breakdown(n as int, 10, power as int);
        assert(((n / 10) % power) * 10 == 10 * ((n / 10) % power)) by (nonlinear_arith);
    }
}

/// The digits behind the point of a fraction are digits, at least one and
/// no more than the width, and they stand for the fraction.
pub proof fn lemma_fraction_digits(fraction: nat, width: nat)
    requires
        0 < fraction < power_of_ten(width),
    ensures
        1 <= fraction_digits(fraction, width).len() <= width,
        forall|i: int|
            0 <= i < fraction_digits(fraction, width).len() ==> is_digit(
                #[trigger] fraction_digits(fraction, width)[i],
            ),
        digits_value(fraction_digits(fraction, width)) * power_of_ten(
            (width - fraction_digits(fraction, width).len()) as nat,
        ) == fraction,
    decreases width,
{
    if width == 0 {
    } else if fraction % 10 == 0 {
        let power = power_of_ten((width - 1) as nat);
        assert(0 < fraction / 10 < power) by (nonlinear_arith)
            requires
                0 < fraction < 10 * power,
                fraction % 10 == 0,
        ;
        lemma_fraction_digits(fraction / 10, (width - 1) as nat);
        let digits = fraction_digits(fraction, width);
        let value = digits_value(digits);
        let rest = power_of_ten((width - 1 - digits.len()) as nat);
        assert(value * (10 * rest) == (value * rest) * 10) by (nonlinear_arith);
    } else {
        lemma_padded_digits(fraction, width);
        assert(fraction % power_of_ten(width) == fraction) by (nonlinear_arith)
            requires
                0 < fraction < power_of_ten(width),
        ;
        assert(fraction * 1 == fraction);
    }
}

/// Where no point stands from `from` up to `to`, and a point or the end of
/// the text stands at `to`, the first point from `from` on is at `to`.
pub proof fn lemma_point_place(text: Seq<char>, from: int, to: int)
    requires
        0 <= from <= to <= text.len(),
        forall|i: int| from <= i < to ==> #[trigger] text[i] != '.',
        to == text.len() || text[to] == '.',
    ensures
        point_place(text, from) == to,
    decreases to - from,
{
    if from < to {
        lemma_point_place(text, from + 1, to);
    }
}

/// What is written of a count is read back as the count.
pub proof fn lemma_count_reads_back(count: usize)
    ensures
        decimal_usize(decimal_digits(count as nat)) == Some(count),
{
    lemma_decimal_digits(count as nat);
    let digits = decimal_digits(count as nat);
    lemma_digit_char(0);
    assert(is_digit(digits[0]));
    assert(unsigned_part(digits) == digits);
}

/// What is written of a whole number that is not negative is read as a
/// count: the number of its units of one.
pub proof fn lemma_whole_number_reads_as_count(count: usize)
    requires
        count * NUMERIC_SCALE <= i64::MAX,
    ensures
        decimal_usize(numeric_text((count * NUMERIC_SCALE) as Numeric)) == Some(count),
{
    let value = (count * NUMERIC_SCALE) as Numeric;
    assert(magnitude(value) / (NUMERIC_SCALE as nat) == count && magnitude(value) % (NUMERIC_SCALE as nat) == 0)
        by (nonlinear_arith)
        requires
            magnitude(value) == count * 100_000_000,
            NUMERIC_SCALE == 100_000_000,
    ;
    assert(numeric_text(value) == decimal_digits(count as nat));
    lemma_count_reads_back(count);
}

/// Where no `e` or `E` stands from `from` on, the first one from `from`
/// on is at the end of the text.
pub proof fn lemma_exponent_place(text: Seq<char>, from: int)
    requires
        0 <= from <= text.len(),
        forall|i: int| from <= i < text.len() ==> #[trigger] text[i] != 'e' && text[i] != 'E',
    ensures
        exponent_place(text, from) == text.len(),
    decreases text.len() - from,
{
    if from < text.len() {
        lemma_exponent_place(text, from + 1);
    }
}

/// What is written of a number is read back as the number.
pub proof fn lemma_numeric_reads_back(value: Numeric)
    ensures
        numeric_value(numeric_text(value)) == Some(value),
{
    let text = numeric_text(value);
    let size = magnitude(value);
    let whole_number = size / (NUMERIC_SCALE as nat);
    let fraction_number = size % (NUMERIC_SCALE as nat);
    let whole_digits = decimal_digits(whole_number);
    let sign: Seq<char> = if value < 0 {
        seq!['-']
    } else {
        Seq::empty()
    };
    lemma_decimal_digits(whole_number);
    lemma_power_of_ten_value();
    let start = sign.len() as int;
    let point = start + whole_digits.len();
    assert(is_digit(whole_digits[0]));
    assert(text[0] == if value < 0 {
        '-'
    } else {
        whole_digits[0]
    });
    assert(sign_width(text) == start);
    assert forall|i: int| start <= i < point implies #[trigger] text[i] != '.' by {
        assert(text[i] == whole_digits[i - start]);
        assert(is_digit(whole_digits[i - start]));
    }
    let fraction_digits: Seq<char> = if fraction_number == 0 {
        Seq::empty()
    } else {
        fraction_digits(fraction_number, 8)
    };
    if fraction_number == 0 {
        assert(text.len() == point);
        assert(digits_value(Seq::<char>::empty()) == 0);
        assert(fraction_units(Seq::<char>::empty()) == 0) by {
            assert(0 * power_of_ten(8) == 0);
        }
        assert(whole_number * NUMERIC_SCALE + 0 == size) by (nonlinear_arith)
            requires
                whole_number == size / (NUMERIC_SCALE as nat),
                size % (NUMERIC_SCALE as nat) == 0,
        ;
    } else {
        lemma_fraction_digits(fraction_number, 8);
        assert(text[point] == '.');
        if fraction_digits.len() >= 8 {
            assert(fraction_digits.take(8) == fraction_digits);
            assert(digits_value(fraction_digits) * 1 == digits_value(fraction_digits));
        }
        assert(fraction_units(fraction_digits) == fraction_number);
        assert(whole_number * NUMERIC_SCALE + fraction_number == size) by (nonlinear_arith)
            requires
                whole_number == size / (NUMERIC_SCALE as nat),
                fraction_number == size % (NUMERIC_SCALE as nat),
        ;
    }
    assert forall|i: int| 0 <= i < text.len() implies #[trigger] text[i] != 'e' && text[i] != 'E' by {
        if i < start {
        } else if i < point {
            assert(text[i] == whole_digits[i - start]);
            assert(is_digit(whole_digits[i - start]));
        } else if i == point {
        } else {
            assert(text[i] == fraction_digits[i - point - 1]);
            assert(is_digit(fraction_digits[i - point - 1]));
        }
    }
    lemma_exponent_place(text, 0);
    assert(text.take(text.len() as int) == text);
    lemma_point_place(text, start, point);
    assert(text.subrange(start, point) == whole_digits);
    if fraction_number != 0 {
        assert(text.subrange(point + 1, text.len() as int) == fraction_digits);
    }
    let digits = whole_digits + fraction_digits;
    let place = whole_digits.len() as int;
    if fraction_number == 0 {
        assert(digits =~= whole_digits);
        assert(shifted_whole(digits, place) =~= whole_digits);
        assert(shifted_fraction(digits, place) =~= Seq::<char>::empty());
    } else {
        assert(shifted_whole(digits, place) =~= whole_digits);
        assert(shifted_fraction(digits, place) =~= fraction_digits);
    }
}

/// A smaller exponent gives a power of ten that is not larger.
pub proof fn lemma_power_of_ten_grows(small: nat, large: nat)
    requires
        small <= large,
    ensures
        1 <= power_of_ten(small) <= power_of_ten(large),
    decreases large,
{
    if small < large {
        lemma_power_of_ten_grows(small, (large - 1) as nat);
    } else if small > 0 {
        lemma_power_of_ten_grows((small - 1) as nat, (large - 1) as nat);
    }
}

/// Ten to the power of eight is the number of units in one.
pub proof fn lemma_power_of_ten_value()
    ensures
        power_of_ten(8) == NUMERIC_SCALE,
        power_of_ten(0) == 1,
{
    reveal_with_fuel(power_of_ten, 10);
}

} // verus!
