//! The number scanner and the parser of extended colour codes.

use vstd::prelude::*;
use vstd::slice::*;
use crate::color::{named_color, palette_color, Color};
use crate::cursor::{
    count_until, digits_len, is_digit, lemma_digits_len, lemma_digits_len_is, lemma_until_len,
    lemma_until_len_is, until_len, Cursor,
};
use crate::error::AnsiError;

verus! {

/// What an attempt to read something off the front of the input came to: its
/// result, and how many characters it used up either way.
pub struct Outcome<T> {
    pub result: Result<T, AnsiError>,
    pub consumed: nat,
}

/// The value of a digit, and 0 for any other character.
pub open spec fn digit_value(c: char) -> nat {
    if is_digit(c) {
        (c as int - 48) as nat
    } else {
        0
    }
}

/// The number that `s` spells in decimal.
pub open spec fn decimal(s: Seq<char>) -> nat
    decreases s.len(),
{
    if s.len() == 0 {
        0
    } else {
        decimal(s.drop_last()) * 10 + digit_value(s.last())
    }
}

/// The byte that a field spells. The field is read from the left: digits that
/// run above 255 are a `NumberParse`, a character that is no digit an
/// `InvalidFormat`, whichever comes first. The empty field is 0.
pub open spec fn number_of(field: Seq<char>) -> Result<u8, AnsiError> {
    let d = digits_len(field) as int;
    if decimal(field.take(d)) > 255 {
        Err(AnsiError::NumberParse)
    } else if d < field.len() {
        Err(AnsiError::InvalidFormat)
    } else {
        Ok(decimal(field) as u8)
    }
}

/// A longer prefix spells no smaller number.
pub proof fn lemma_decimal_grows(s: Seq<char>, a: int, b: int)
    requires
        0 <= a <= b <= s.len(),
    ensures
        decimal(s.take(a)) <= decimal(s.take(b)),
    decreases b - a,
{
    if a < b {
        lemma_decimal_grows(s, a, b - 1);
        assert(s.take(b).drop_last() =~= s.take(b - 1));
    }
}

/// Reads a field as a byte and reports the field's length beside it.
pub fn parse_number(field: &[char]) -> (r: (Result<u8, AnsiError>, usize))
    ensures
        r.0 == number_of(field@),
        r.1 == field@.len(),
{
    let len = field.len();
    let mut total: u8 = 0;
    let mut i: usize = 0;
    assert(field@.take(0) =~= Seq::<char>::empty());
    while i < len
        invariant
            len == field@.len(),
            i <= len,
            forall|j: int| 0 <= j < i ==> is_digit(#[trigger] field@[j]),
            total == decimal(field@.take(i as int)),
        decreases len - i,
    {
        let c = field[i];
        if !('0' <= c && c <= '9') {
            proof {
                lemma_digits_len_is(field@, i as int);
            }
            return (Err(AnsiError::InvalidFormat), len);
        }
        let digit: u8 = (c as u32 - 48) as u8;
        proof {
            assert(field@.take(i + 1).drop_last() =~= field@.take(i as int));
            assert(field@.take(i + 1).last() == c);
            assert(decimal(field@.take(i + 1)) == total * 10 + digit);
        }
        if total < 25 || (total == 25 && digit <= 5) {
            total = total * 10 + digit;
        } else {
            proof {
                lemma_digits_len(field@);
                let d = digits_len(field@) as int;
                if d <= i {
                    assert(is_digit(field@[d]));
                }
                lemma_decimal_grows(field@.take(d), i + 1, d);
                assert(field@.take(d).take(i + 1) =~= field@.take(i + 1));
                assert(field@.take(d).take(d) =~= field@.take(d));
            }
            return (Err(AnsiError::NumberParse), len);
        }
        i += 1;
    }
    proof {
        lemma_digits_len_is(field@, len as int);
        assert(field@.take(len as int) =~= field@);
    }
    (Ok(total), len)
}

/// The most characters that a numeric field may have.
pub const FIELD_MAX: usize = 3;

/// The most characters that the three fields of a colour and their two
/// separators may have.
pub const TRIPLE_MAX: usize = 11;

/// One of the three fields of a colour: too long beyond three characters,
/// whatever they are, and else the byte it spells.
pub open spec fn component(segment: Seq<char>) -> Result<u8, AnsiError> {
    if segment.len() > FIELD_MAX {
        Err(AnsiError::TooLong)
    } else {
        number_of(segment)
    }
}

/// Where the first `;` of `s` stands, or the length of `s` if it has none.
pub open spec fn separator_at(s: Seq<char>) -> int {
    until_len(s, ';', s.len()) as int
}

/// Red, green and blue out of `r;g;b`. Anything but three fields is an
/// `InvalidFormat`; then the first field that fails decides.
pub open spec fn triple_of(field: Seq<char>) -> Result<(u8, u8, u8), AnsiError> {
    let a = separator_at(field);
    let second = field.skip(a + 1);
    let b = separator_at(second);
    let third = second.skip(b + 1);
    if a >= field.len() || b >= second.len() || separator_at(third) < third.len() {
        Err(AnsiError::InvalidFormat)
    } else {
        match component(field.take(a)) {
            Err(e) => Err(e),
            Ok(red) => match component(second.take(b)) {
                Err(e) => Err(e),
                Ok(green) => match component(third) {
                    Err(e) => Err(e),
                    Ok(blue) => Ok((red, green, blue)),
                },
            },
        }
    }
}

/// The palette form, read after `5;`. The field ends at `m` or at the end of
/// the input. A fourth character that is not `m` makes it too long, and the
/// scan stops in front of that character.
pub open spec fn palette_code(rest: Seq<char>) -> Outcome<Color> {
    let n = until_len(rest, 'm', FIELD_MAX as nat);
    if n < rest.len() && rest[n as int] != 'm' {
        Outcome { result: Err(AnsiError::TooLong), consumed: n }
    } else {
        Outcome {
            result: match number_of(rest.take(n as int)) {
                Ok(index) => Ok(palette_color(index)),
                Err(e) => Err(e),
            },
            consumed: if n < rest.len() {
                n + 1
            } else {
                n
            },
        }
    }
}

/// The truecolor form, read after `2;`. The three fields are looked for in
/// the characters before `m`, eleven at most. What is wrong with them is
/// reported first; if they are sound and full, and the next character is
/// not `m`, the colour is too long.
pub open spec fn truecolor_code(rest: Seq<char>) -> Outcome<Color> {
    let n = until_len(rest, 'm', TRIPLE_MAX as nat);
    let closed = n < rest.len() && rest[n as int] == 'm';
    let overrun = n < rest.len() && rest[n as int] != 'm';
    Outcome {
        result: match triple_of(rest.take(n as int)) {
            Err(e) => Err(e),
            Ok(rgb) => if overrun {
                Err(AnsiError::TooLong)
            } else {
                Ok(Color::Full(rgb.0, rgb.1, rgb.2))
            },
        },
        consumed: if closed {
            n + 1
        } else {
            n
        },
    }
}

/// An extended colour, read right after the code that announces it and that
/// code's separator: a selector, `;`, and the form that the selector names.
pub open spec fn color_code(rest: Seq<char>) -> Outcome<Color> {
    if rest.len() < 2 {
        Outcome { result: Err(AnsiError::InvalidFormat), consumed: rest.len() }
    } else if rest[1] != ';' {
        Outcome { result: Err(AnsiError::InvalidFormat), consumed: 2 }
    } else if rest[0] == '5' {
        let form = palette_code(rest.skip(2));
        Outcome { result: form.result, consumed: 2 + form.consumed }
    } else if rest[0] == '2' {
        let form = truecolor_code(rest.skip(2));
        Outcome { result: form.result, consumed: 2 + form.consumed }
    } else {
        Outcome { result: Err(AnsiError::InvalidFormat), consumed: 2 }
    }
}

/// No attempt uses more than there is.
pub proof fn lemma_color_code_bounded(rest: Seq<char>)
    ensures
        color_code(rest).consumed <= rest.len(),
        palette_code(rest).consumed <= rest.len(),
        truecolor_code(rest).consumed <= rest.len(),
{
    lemma_until_len(rest, 'm', FIELD_MAX as nat);
    lemma_until_len(rest, 'm', TRIPLE_MAX as nat);
    if rest.len() >= 2 {
        let tail = rest.skip(2);
        lemma_until_len(tail, 'm', FIELD_MAX as nat);
        lemma_until_len(tail, 'm', TRIPLE_MAX as nat);
    }
}

fn parse_component(segment: &[char]) -> (r: Result<u8, AnsiError>)
    ensures
        r == component(segment@),
{
    let (value, length) = parse_number(segment);
    if length > FIELD_MAX {
        Err(AnsiError::TooLong)
    } else {
        value
    }
}

fn parse_triple(field: &[char]) -> (r: Result<(u8, u8, u8), AnsiError>)
    ensures
        r == triple_of(field@),
{
    let a = count_until(field, ';', field.len());
    proof {
        lemma_until_len(field@, ';', field@.len());
    }
    if a >= field.len() {
        return Err(AnsiError::InvalidFormat);
    }
    let second = slice_subrange(field, a + 1, field.len());
    assert(second@ =~= field@.skip(a + 1));
    let b = count_until(second, ';', second.len());
    proof {
        lemma_until_len(second@, ';', second@.len());
    }
    if b >= second.len() {
        return Err(AnsiError::InvalidFormat);
    }
    let third = slice_subrange(second, b + 1, second.len());
    assert(third@ =~= second@.skip(b + 1));
    let c = count_until(third, ';', third.len());
    if c < third.len() {
        return Err(AnsiError::InvalidFormat);
    }
    let first = slice_subrange(field, 0, a);
    let middle = slice_subrange(second, 0, b);
    assert(first@ =~= field@.take(a as int));
    assert(middle@ =~= second@.take(b as int));
    let red = match parse_component(first) {
        Ok(v) => v,
        Err(e) => { return Err(e); },
    };
    let green = match parse_component(middle) {
        Ok(v) => v,
        Err(e) => { return Err(e); },
    };
    let blue = match parse_component(third) {
        Ok(v) => v,
        Err(e) => { return Err(e); },
    };
    Ok((red, green, blue))
}

fn parse_palette(part: &mut Cursor) -> (r: Result<Color, AnsiError>)
    ensures
        r == palette_code(old(part)@).result,
        final(part)@ == old(part)@.skip(palette_code(old(part)@).consumed as int),
{
    proof {
        lemma_until_len(part@, 'm', FIELD_MAX as nat);
    }
    let field = part.take_until('m', FIELD_MAX);
    match part.peek() {
        Some(c) => {
            if c != 'm' {
                return Err(AnsiError::TooLong);
            }
            let _ = part.next();
            assert(part@ =~= old(part)@.skip(palette_code(old(part)@).consumed as int));
        },
        None => {},
    }
    match parse_number(field).0 {
        Ok(index) => Ok(Color::from_palette(index)),
        Err(e) => Err(e),
    }
}

fn parse_truecolor(part: &mut Cursor) -> (r: Result<Color, AnsiError>)
    ensures
        r == truecolor_code(old(part)@).result,
        final(part)@ == old(part)@.skip(truecolor_code(old(part)@).consumed as int),
{
    proof {
        lemma_until_len(part@, 'm', TRIPLE_MAX as nat);
    }
    let field = part.take_until('m', TRIPLE_MAX);
    let mut overrun = false;
    match part.peek() {
        Some(c) => {
            if c == 'm' {
                let _ = part.next();
                assert(part@ =~= old(part)@.skip(truecolor_code(old(part)@).consumed as int));
            } else {
                overrun = true;
            }
        },
        None => {},
    }
    match parse_triple(field) {
        Err(e) => Err(e),
        Ok(rgb) => {
            if overrun {
                Err(AnsiError::TooLong)
            } else {
                Ok(Color::Full(rgb.0, rgb.1, rgb.2))
            }
        },
    }
}

/// Reads an extended colour: `5;<n>` for a palette entry, `2;<r>;<g>;<b>`
/// for red, green and blue, each ended by `m` or by the end of the input.
pub fn parse_color_code(part: &mut Cursor) -> (r: Result<Color, AnsiError>)
    ensures
        r == color_code(old(part)@).result,
        final(part)@ == old(part)@.skip(color_code(old(part)@).consumed as int),
{
    let selector = part.next();
    let separator = part.next();
    assert(old(part)@.len() >= 2 ==> part@ =~= old(part)@.skip(2));
    assert(old(part)@.len() < 2 ==> part@ =~= old(part)@.skip(old(part)@.len() as int));
    match separator {
        Some(c) => {
            if c != ';' {
                return Err(AnsiError::InvalidFormat);
            }
        },
        None => {
            return Err(AnsiError::InvalidFormat);
        },
    }
    let ghost tail = part@;
    proof {
        lemma_color_code_bounded(tail);
    }
    match selector {
        Some('5') => {
            let r = parse_palette(part);
            assert(part@ =~= old(part)@.skip(2 + palette_code(tail).consumed as int));
            r
        },
        Some('2') => {
            let r = parse_truecolor(part);
            assert(part@ =~= old(part)@.skip(2 + truecolor_code(tail).consumed as int));
            r
        },
        _ => Err(AnsiError::InvalidFormat),
    }
}

/// The character of a digit.
pub open spec fn digit_char(d: nat) -> char
    recommends
        d < 10,
{
    (d + 48) as char
}

/// A number written in decimal, without leading zeros.
pub open spec fn decimal_text(n: nat) -> Seq<char>
    decreases n,
{
    if n < 10 {
        seq![digit_char(n)]
    } else {
        decimal_text(n / 10).push(digit_char(n % 10))
    }
}

/// Whether `s` holds neither `;` nor `m`.
pub open spec fn is_bare(s: Seq<char>) -> bool {
    forall|i: int| 0 <= i < s.len() ==> #[trigger] s[i] != ';' && s[i] != 'm'
}

/// A number in decimal is digits only, has one digit at least and three at
/// most exactly when it is below 1000, and spells the number.
pub proof fn lemma_decimal_text(n: nat)
    ensures
        decimal_text(n).len() >= 1,
        n < 10 <==> decimal_text(n).len() == 1,
        n < 100 <==> decimal_text(n).len() <= 2,
        n < 1000 <==> decimal_text(n).len() <= 3,
        forall|i: int| 0 <= i < decimal_text(n).len() ==> is_digit(#[trigger] decimal_text(n)[i]),
        is_bare(decimal_text(n)),
        digits_len(decimal_text(n)) == decimal_text(n).len(),
        decimal(decimal_text(n)) == n,
    decreases n,
{
    let text = decimal_text(n);
    if n < 10 {
        assert(is_digit(digit_char(n)));
        assert(text.drop_last() =~= Seq::<char>::empty());
        assert(digit_value(text.last()) == n);
        assert(decimal(text.drop_last()) == 0);
        assert(decimal(text) == n);
    } else {
        let front = decimal_text(n / 10);
        lemma_decimal_text(n / 10);
        assert(is_digit(digit_char(n % 10)));
        assert(text.drop_last() =~= front);
        assert(digit_value(text.last()) == n % 10);
        assert(decimal(text) == decimal(front) * 10 + n % 10);
        assert forall|i: int| 0 <= i < text.len() implies is_digit(#[trigger] text[i]) by {
            if i < front.len() {
                assert(text[i] == front[i]);
            }
        }
    }
    lemma_digits_len_is(text, text.len() as int);
    assert forall|i: int| 0 <= i < text.len() implies #[trigger] text[i] != ';' && text[i]
        != 'm' by {
        assert(is_digit(text[i]));
    }
}

/// A number in decimal reads back as itself up to 255, and is a
/// `NumberParse` above.
pub proof fn lemma_number_of_decimal_text(n: nat)
    ensures
        n <= 255 ==> number_of(decimal_text(n)) == Ok::<u8, AnsiError>(n as u8),
        n > 255 ==> number_of(decimal_text(n)) == Err::<u8, AnsiError>(AnsiError::NumberParse),
{
    lemma_decimal_text(n);
    let text = decimal_text(n);
    assert(text.take(text.len() as int) =~= text);
}

/// A field of more than three characters is too long, whatever it spells.
pub proof fn lemma_long_component(segment: Seq<char>)
    requires
        segment.len() > FIELD_MAX,
    ensures
        component(segment) == Err::<u8, AnsiError>(AnsiError::TooLong),
{
}

/// In the palette form, four characters without an `m` among them are too
/// long, whatever they spell and whatever follows.
pub proof fn lemma_long_palette_field(rest: Seq<char>)
    requires
        rest.len() >= 4,
        forall|i: int| 0 <= i < 4 ==> #[trigger] rest[i] != 'm',
    ensures
        palette_code(rest).result == Err::<Color, AnsiError>(AnsiError::TooLong),
        color_code(seq!['5', ';'] + rest).result == Err::<Color, AnsiError>(AnsiError::TooLong),
{
    lemma_until_len_is(rest, 'm', FIELD_MAX as nat, 3);
    let whole = seq!['5', ';'] + rest;
    assert(whole.skip(2) =~= rest);
}

/// A text that holds no `stop` and is followed by `stop`, or by nothing, is
/// the run that `until_len` finds, if the limit lets it.
pub proof fn lemma_until_len_joined(field: Seq<char>, stop: char, after: Seq<char>, limit: nat)
    requires
        forall|i: int| 0 <= i < field.len() ==> #[trigger] field[i] != stop,
        field.len() <= limit,
        after.len() > 0 ==> after[0] == stop,
    ensures
        until_len(field + after, stop, limit) == field.len(),
        (field + after).take(field.len() as int) == field,
        (field + after).skip(field.len() as int) == after,
{
    let whole = field + after;
    assert forall|i: int| 0 <= i < field.len() implies #[trigger] whole[i] != stop by {
        assert(whole[i] == field[i]);
    }
    lemma_until_len_is(whole, stop, limit, field.len() as int);
    assert(whole.take(field.len() as int) =~= field);
    assert(whole.skip(field.len() as int) =~= after);
}

/// What three fields joined by `;` come to: the first field that fails
/// decides, and a field of more than three characters fails as too long.
pub open spec fn joined_triple(red: Seq<char>, green: Seq<char>, blue: Seq<char>) -> Result<
    (u8, u8, u8),
    AnsiError,
> {
    match component(red) {
        Err(e) => Err(e),
        Ok(r) => match component(green) {
            Err(e) => Err(e),
            Ok(g) => match component(blue) {
                Err(e) => Err(e),
                Ok(b) => Ok((r, g, b)),
            },
        },
    }
}

/// Three fields joined by `;` are read as those three fields.
pub proof fn lemma_triple_of_joined(red: Seq<char>, green: Seq<char>, blue: Seq<char>)
    requires
        is_bare(red),
        is_bare(green),
        is_bare(blue),
    ensures
        triple_of(red + seq![';'] + green + seq![';'] + blue) == joined_triple(red, green, blue),
{
    let sep = seq![';'];
    let second = green + sep + blue;
    let third = blue;
    let field = red + sep + green + sep + blue;
    assert(field =~= red + (sep + second));
    lemma_until_len_joined(red, ';', sep + second, field.len());
    assert(field.skip(red.len() as int + 1) =~= second);
    assert(second =~= green + (sep + third));
    lemma_until_len_joined(green, ';', sep + third, second.len());
    assert(second.skip(green.len() as int + 1) =~= third);
    assert(third =~= third + Seq::<char>::empty());
    lemma_until_len_joined(third, ';', Seq::<char>::empty(), third.len());
    assert(field.take(red.len() as int) =~= red);
    assert(second.take(green.len() as int) =~= green);
}

/// The truecolor form on three fields that fit the eleven characters and
/// are closed by `m`: the colour they spell, with the `m` used up.
pub proof fn lemma_truecolor_joined(
    red: Seq<char>,
    green: Seq<char>,
    blue: Seq<char>,
    after: Seq<char>,
)
    requires
        is_bare(red),
        is_bare(green),
        is_bare(blue),
        red.len() + green.len() + blue.len() + 2 <= TRIPLE_MAX,
    ensures
        ({
            let field = red + seq![';'] + green + seq![';'] + blue;
            let form = truecolor_code(field + seq!['m'] + after);
            &&& form.consumed == field.len() + 1
            &&& form.result == match joined_triple(red, green, blue) {
                Ok(rgb) => Ok::<Color, AnsiError>(Color::Full(rgb.0, rgb.1, rgb.2)),
                Err(e) => Err(e),
            }
        }),
{
    let field = red + seq![';'] + green + seq![';'] + blue;
    let closing = seq!['m'] + after;
    let rest = field + seq!['m'] + after;
    assert(rest =~= field + closing);
    assert forall|i: int| 0 <= i < field.len() implies #[trigger] field[i] != 'm' by {
        if i < red.len() {
            assert(field[i] == red[i]);
        } else if i == red.len() {
        } else if i < red.len() + 1 + green.len() {
            assert(field[i] == green[i - red.len() - 1]);
        } else if i == red.len() + 1 + green.len() {
        } else {
            assert(field[i] == blue[i - red.len() - green.len() - 2]);
        }
    }
    lemma_until_len_joined(field, 'm', closing, TRIPLE_MAX as nat);
    lemma_triple_of_joined(red, green, blue);
}

/// Three bytes written in decimal and joined by `;` are read as the colour
/// of those bytes.
pub proof fn lemma_truecolor_of_bytes(r: u8, g: u8, b: u8, after: Seq<char>)
    ensures
        ({
            let field = decimal_text(r as nat) + seq![';'] + decimal_text(g as nat) + seq![';']
                + decimal_text(b as nat);
            let form = color_code(seq!['2', ';'] + field + seq!['m'] + after);
            &&& form.consumed == field.len() + 3
            &&& form.result == Ok::<Color, AnsiError>(Color::Full(r, g, b))
        }),
{
    let red = decimal_text(r as nat);
    let green = decimal_text(g as nat);
    let blue = decimal_text(b as nat);
    let field = red + seq![';'] + green + seq![';'] + blue;
    let whole = seq!['2', ';'] + field + seq!['m'] + after;
    lemma_decimal_text(r as nat);
    lemma_decimal_text(g as nat);
    lemma_decimal_text(b as nat);
    lemma_number_of_decimal_text(r as nat);
    lemma_number_of_decimal_text(g as nat);
    lemma_number_of_decimal_text(b as nat);
    lemma_truecolor_joined(red, green, blue, after);
    assert(whole.skip(2) =~= field + seq!['m'] + after);
    assert(whole[0] == '2' && whole[1] == ';');
}

/// A palette index written in decimal selects a named colour up to 7 and
/// the palette entry up to 255; above that the number is refused, and from
/// 1000 on the field is too long.
pub proof fn lemma_palette_of_index(n: nat, after: Seq<char>)
    ensures
        ({
            let form = color_code(seq!['5', ';'] + decimal_text(n) + seq!['m'] + after);
            form.result == (if n <= 7 {
                Ok::<Color, AnsiError>(named_color(n as u8))
            } else if n <= 255 {
                Ok(Color::Byte(n as u8))
            } else if n < 1000 {
                Err(AnsiError::NumberParse)
            } else {
                Err(AnsiError::TooLong)
            })
        }),
{
    let text = decimal_text(n);
    let closing = seq!['m'] + after;
    let rest = text + closing;
    let whole = seq!['5', ';'] + text + seq!['m'] + after;
    lemma_decimal_text(n);
    lemma_number_of_decimal_text(n);
    assert(whole.skip(2) =~= rest);
    assert(whole[0] == '5' && whole[1] == ';');
    if n < 1000 {
        assert forall|i: int| 0 <= i < text.len() implies #[trigger] text[i] != 'm' by {
            assert(is_digit(text[i]));
        }
        lemma_until_len_joined(text, 'm', closing, FIELD_MAX as nat);
    } else {
        assert forall|i: int| 0 <= i < 4 implies #[trigger] rest[i] != 'm' by {
            assert(rest[i] == text[i]);
            assert(is_digit(text[i]));
        }
        lemma_long_palette_field(rest);
    }
}

} // verus!
