//! The style in force, the codes that change it, and its declaration text.

use vstd::prelude::*;
use vstd::string::*;
use crate::color::{hex_triplet, named_color, Color};
use crate::cursor::{digits_len, is_digit, lemma_digits_len, lemma_digits_len_is, Cursor};
use crate::error::AnsiError;
use crate::sub_parsers::{
    color_code, decimal_text, lemma_color_code_bounded, lemma_decimal_text,
    lemma_number_of_decimal_text, lemma_truecolor_of_bytes, number_of, parse_color_code,
    parse_number, Outcome,
};

verus! {

#[derive(Debug, PartialEq, Eq, Clone, Copy, Structural)]
pub enum Intensity {
    Normal,
    Bold,
    Faint,
}

#[derive(Debug, PartialEq, Eq, Clone, Copy, Structural)]
pub enum Blink {
    Off,
    Fast,
    Slow,
}

#[derive(Debug, PartialEq, Eq, Clone, Copy, Structural)]
pub enum Underline {
    Off,
    Single,
    Double,
}

#[derive(Debug, PartialEq, Eq, Clone, Copy, Structural)]
pub enum Spacing {
    Proportional,
    Monospace,
}

#[derive(Debug, PartialEq, Eq, Clone, Copy, Structural)]
pub enum InvertColors {
    Yes,
    No,
}

#[derive(Debug, PartialEq, Eq, Clone, Copy, Structural)]
pub enum StrikeThrough {
    Yes,
    No,
}

#[derive(Debug, PartialEq, Eq, Clone, Copy, Structural)]
pub enum Italics {
    Yes,
    No,
}

impl Intensity {
    /// The font weight of an intensity; nothing for the normal one.
    pub open spec fn text(self) -> Seq<char> {
        match self {
            Intensity::Normal => Seq::empty(),
            Intensity::Bold => "bold"@,
            Intensity::Faint => "light"@,
        }
    }

    pub fn to_string(&self) -> (s: String)
        ensures
            s@ == self.text(),
    {
        match self {
            Intensity::Normal => String::new(),
            Intensity::Bold => String::from_str("bold"),
            Intensity::Faint => String::from_str("light"),
        }
    }
}

/// Every attribute of the style, each set and cleared on its own.
#[derive(Debug, PartialEq, Eq, Clone, Copy, Structural)]
pub struct AnsiState {
    pub background_color: Color,
    pub text_color: Color,
    pub underline_color: Color,
    pub intensity: Intensity,
    pub italic: Italics,
    pub underline: Underline,
    pub blink: Blink,
    pub invert_colors: InvertColors,
    pub strikethrough: StrikeThrough,
    pub spacing: Spacing,
}

/// The style of plain text: no colour, no decoration, monospace.
pub open spec fn default_state() -> AnsiState {
    AnsiState {
        background_color: Color::Unset,
        text_color: Color::Unset,
        underline_color: Color::Unset,
        intensity: Intensity::Normal,
        italic: Italics::No,
        underline: Underline::Off,
        blink: Blink::Off,
        invert_colors: InvertColors::No,
        strikethrough: StrikeThrough::No,
        spacing: Spacing::Monospace,
    }
}

impl Default for AnsiState {
    fn default() -> (state: Self)
        ensures
            state == default_state(),
    {
        AnsiState {
            background_color: Color::Unset,
            text_color: Color::Unset,
            underline_color: Color::Unset,
            intensity: Intensity::Normal,
            italic: Italics::No,
            underline: Underline::Off,
            blink: Blink::Off,
            invert_colors: InvertColors::No,
            strikethrough: StrikeThrough::No,
            spacing: Spacing::Monospace,
        }
    }
}

/// One declaration of a colour, or nothing where no colour is set.
pub open spec fn color_part(property: Seq<char>, color: Color) -> Seq<char> {
    if color == Color::Unset {
        Seq::empty()
    } else {
        property + color.text() + ";"@
    }
}

impl AnsiState {
    /// Whether a line is drawn under or through the text.
    pub open spec fn has_line(self) -> bool {
        self.underline != Underline::Off || self.strikethrough == StrikeThrough::Yes
    }

    /// The lines drawn, in one shorthand declaration, with their colour in
    /// front if one is set.
    pub open spec fn line_part(self) -> Seq<char> {
        if !self.has_line() {
            Seq::empty()
        } else {
            color_part("text-decoration-color:"@, self.underline_color) + (if self.underline
                == Underline::Off {
                "text-decoration:line-through;"@
            } else if self.strikethrough == StrikeThrough::Yes {
                "text-decoration:underline line-through;"@
            } else {
                "text-decoration:underline;"@
            })
        }
    }

    pub open spec fn double_part(self) -> Seq<char> {
        if self.underline == Underline::Double {
            "text-decoration-style: double;"@
        } else {
            Seq::empty()
        }
    }

    pub open spec fn weight_part(self) -> Seq<char> {
        if self.intensity == Intensity::Normal {
            Seq::empty()
        } else {
            "font-weight:"@ + self.intensity.text() + ";"@
        }
    }

    /// The blink animation, one cycle a second when slow and two when fast.
    pub open spec fn blink_part(self) -> Seq<char> {
        match self.blink {
            Blink::Off => Seq::empty(),
            Blink::Fast => "animation: blink 0.5 step-start infinite;"@,
            Blink::Slow => "animation: blink 1 step-start infinite;"@,
        }
    }

    pub open spec fn spacing_part(self) -> Seq<char> {
        if self.spacing == Spacing::Monospace {
            Seq::empty()
        } else {
            "font-family: system-ui;"@
        }
    }

    /// The style as a list of declarations, each closed by `;`: background,
    /// text colour, lines, double lines, weight, blink, font. An attribute at
    /// its default adds nothing, so the default style is the empty text.
    pub open spec fn style_text(self) -> Seq<char> {
        color_part("background-color:"@, self.background_color) + color_part(
            "color:"@,
            self.text_color,
        ) + self.line_part() + self.double_part() + self.weight_part() + self.blink_part()
            + self.spacing_part()
    }
}

/// The default style has no declaration.
pub proof fn lemma_default_style_is_empty()
    ensures
        default_state().style_text() == Seq::<char>::empty(),
{
    assert(default_state().style_text() =~= Seq::<char>::empty());
}

fn push_color_part(s: &mut String, property: &str, color: &Color)
    ensures
        final(s)@ == old(s)@ + color_part(property@, *color),
{
    if *color != Color::Unset {
        s.append(property);
        let text = color.to_string();
        s.append(text.as_str());
        s.append(";");
        assert(s@ =~= old(s)@ + color_part(property@, *color));
    } else {
        assert(s@ =~= old(s)@ + color_part(property@, *color));
    }
}

/// Whether a code announces an extended colour.
pub open spec fn takes_color(code: u8) -> bool {
    code == 38 || code == 48 || code == 58
}

/// The style after an extended colour code: 38 sets the text colour, 48 the
/// background, 58 the colour of the underline.
pub open spec fn with_color(state: AnsiState, code: u8, color: Color) -> AnsiState
    recommends
        takes_color(code),
{
    if code == 38 {
        AnsiState { text_color: color, ..state }
    } else if code == 48 {
        AnsiState { background_color: color, ..state }
    } else {
        AnsiState { underline_color: color, ..state }
    }
}

/// The style after a code that stands alone, and `None` for a code that
/// means nothing here. Code 0 gives the default style back; every other
/// code changes one attribute.
pub open spec fn plain_code(state: AnsiState, code: u8) -> Option<AnsiState> {
    if code == 0 {
        Some(default_state())
    } else if code == 1 {
        Some(AnsiState { intensity: Intensity::Bold, ..state })
    } else if code == 2 {
        Some(AnsiState { intensity: Intensity::Faint, ..state })
    } else if code == 22 {
        Some(AnsiState { intensity: Intensity::Normal, ..state })
    } else if code == 3 {
        Some(AnsiState { italic: Italics::Yes, ..state })
    } else if code == 23 {
        Some(AnsiState { italic: Italics::No, ..state })
    } else if code == 4 {
        Some(AnsiState { underline: Underline::Single, ..state })
    } else if code == 21 {
        Some(AnsiState { underline: Underline::Double, ..state })
    } else if code == 24 {
        Some(AnsiState { underline: Underline::Off, ..state })
    } else if code == 5 {
        Some(AnsiState { blink: Blink::Slow, ..state })
    } else if code == 6 {
        Some(AnsiState { blink: Blink::Fast, ..state })
    } else if code == 25 {
        Some(AnsiState { blink: Blink::Off, ..state })
    } else if code == 7 {
        Some(AnsiState { invert_colors: InvertColors::Yes, ..state })
    } else if code == 27 {
        Some(AnsiState { invert_colors: InvertColors::No, ..state })
    } else if code == 9 {
        Some(AnsiState { strikethrough: StrikeThrough::Yes, ..state })
    } else if code == 29 {
        Some(AnsiState { strikethrough: StrikeThrough::No, ..state })
    } else if code == 26 {
        Some(AnsiState { spacing: Spacing::Proportional, ..state })
    } else if code == 50 {
        Some(AnsiState { spacing: Spacing::Monospace, ..state })
    } else if 30 <= code <= 37 {
        Some(AnsiState { text_color: named_color((code - 30) as u8), ..state })
    } else if code == 39 {
        Some(AnsiState { text_color: Color::Unset, ..state })
    } else if 40 <= code <= 47 {
        Some(AnsiState { background_color: named_color((code - 40) as u8), ..state })
    } else if code == 49 {
        Some(AnsiState { background_color: Color::Unset, ..state })
    } else if code == 59 {
        Some(AnsiState { underline_color: Color::Unset, ..state })
    } else {
        None
    }
}

/// How far the head of a sequence reaches: `[`, the digits of the code, and
/// the `m` or `;` behind them if there is one.
pub open spec fn head_len(rest: Seq<char>) -> nat
    recommends
        rest.len() > 0,
{
    let body = rest.skip(1);
    let d = digits_len(body);
    if d < body.len() && (body[d as int] == 'm' || body[d as int] == ';') {
        d + 2
    } else {
        d + 1
    }
}

/// One escape sequence, read right after the escape marker, under the
/// style `state`.
///
/// The code is the run of digits behind `[`; any other character ends it, and
/// only `m` or `;` is taken with it. No digits at all is code 0. On failure
/// nothing of the style has changed.
pub open spec fn escape_code(state: AnsiState, rest: Seq<char>) -> Outcome<AnsiState> {
    if rest.len() == 0 {
        Outcome { result: Err(AnsiError::InvalidStartBrace), consumed: 0 }
    } else if rest[0] != '[' {
        Outcome { result: Err(AnsiError::InvalidStartBrace), consumed: 1 }
    } else {
        let head = head_len(rest);
        match number_of(rest.skip(1).take(digits_len(rest.skip(1)) as int)) {
            Err(e) => Outcome { result: Err(e), consumed: head },
            Ok(code) => if takes_color(code) {
                let extended = color_code(rest.skip(head as int));
                Outcome {
                    result: match extended.result {
                        Ok(color) => Ok(with_color(state, code, color)),
                        Err(e) => Err(e),
                    },
                    consumed: head + extended.consumed,
                }
            } else {
                Outcome {
                    result: match plain_code(state, code) {
                        Some(next) => Ok(next),
                        None => Err(AnsiError::IllegalCommand),
                    },
                    consumed: head,
                }
            },
        }
    }
}

/// A sequence never reaches past the end of the input.
pub proof fn lemma_escape_code_bounded(state: AnsiState, rest: Seq<char>)
    ensures
        escape_code(state, rest).consumed <= rest.len(),
        escape_code(state, rest).result is Ok ==> escape_code(state, rest).consumed >= 1,
{
    if rest.len() > 0 && rest[0] == '[' {
        lemma_digits_len(rest.skip(1));
        lemma_color_code_bounded(rest.skip(head_len(rest) as int));
    }
}

impl AnsiState {
    #[allow(clippy::too_many_arguments)]
    pub fn new(
        background_color: Color,
        text_color: Color,
        underline_color: Color,
        invert: InvertColors,
        italic: Italics,
        underline: Underline,
        strikethrough: StrikeThrough,
        intensity: Intensity,
        blink: Blink,
        spacing: Spacing,
    ) -> (state: AnsiState)
        ensures
            state == (AnsiState {
                background_color,
                text_color,
                underline_color,
                intensity,
                italic,
                underline,
                blink,
                invert_colors: invert,
                strikethrough,
                spacing,
            }),
    {
        AnsiState {
            background_color,
            text_color,
            underline_color,
            invert_colors: invert,
            italic,
            underline,
            strikethrough,
            intensity,
            blink,
            spacing,
        }
    }

    fn push_line_part(&self, s: &mut String)
        ensures
            final(s)@ == old(s)@ + self.line_part(),
    {
        if self.underline != Underline::Off || self.strikethrough != StrikeThrough::No {
            push_color_part(s, "text-decoration-color:", &self.underline_color);
            if self.underline == Underline::Off {
                s.append("text-decoration:line-through;");
            } else if self.strikethrough != StrikeThrough::No {
                s.append("text-decoration:underline line-through;");
            } else {
                s.append("text-decoration:underline;");
            }
            assert(s@ =~= old(s)@ + self.line_part());
        } else {
            assert(s@ =~= old(s)@ + self.line_part());
        }
    }

    fn push_double_part(&self, s: &mut String)
        ensures
            final(s)@ == old(s)@ + self.double_part(),
    {
        if self.underline == Underline::Double {
            s.append("text-decoration-style: double;");
        } else {
            assert(s@ =~= old(s)@ + self.double_part());
        }
    }

    fn push_weight_part(&self, s: &mut String)
        ensures
            final(s)@ == old(s)@ + self.weight_part(),
    {
        if self.intensity != Intensity::Normal {
            s.append("font-weight:");
            let weight = self.intensity.to_string();
            s.append(weight.as_str());
            s.append(";");
        }
        assert(s@ =~= old(s)@ + self.weight_part());
    }

    fn push_blink_part(&self, s: &mut String)
        ensures
            final(s)@ == old(s)@ + self.blink_part(),
    {
        match self.blink {
            Blink::Off => {
                assert(s@ =~= old(s)@ + self.blink_part());
            },
            Blink::Fast => s.append("animation: blink 0.5 step-start infinite;"),
            Blink::Slow => s.append("animation: blink 1 step-start infinite;"),
        }
    }

    fn push_spacing_part(&self, s: &mut String)
        ensures
            final(s)@ == old(s)@ + self.spacing_part(),
    {
        if self.spacing != Spacing::Monospace {
            s.append("font-family: system-ui;");
        } else {
            assert(s@ =~= old(s)@ + self.spacing_part());
        }
    }

    /// The style as the text of an inline style attribute.
    pub fn to_style(&self) -> (s: String)
        ensures
            s@ == self.style_text(),
    {
        let mut s = String::new();
        push_color_part(&mut s, "background-color:", &self.background_color);
        push_color_part(&mut s, "color:", &self.text_color);
        self.push_line_part(&mut s);
        self.push_double_part(&mut s);
        self.push_weight_part(&mut s);
        self.push_blink_part(&mut s);
        self.push_spacing_part(&mut s);
        assert(s@ =~= self.style_text());
        s
    }

    /// Applies a code that stands alone. Returns whether the code means
    /// anything; if it does not, the style stays as it is.
    pub fn apply_code(&mut self, code: u8) -> (known: bool)
        ensures
            known == plain_code(*old(self), code).is_some(),
            *final(self) == (match plain_code(*old(self), code) {
                Some(next) => next,
                None => *old(self),
            }),
    {
        match code {
            0 => {
                *self = AnsiState::default();
            },
            1 => self.intensity = Intensity::Bold,
            2 => self.intensity = Intensity::Faint,
            3 => self.italic = Italics::Yes,
            4 => self.underline = Underline::Single,
            5 => self.blink = Blink::Slow,
            6 => self.blink = Blink::Fast,
            7 => self.invert_colors = InvertColors::Yes,
            9 => self.strikethrough = StrikeThrough::Yes,
            21 => self.underline = Underline::Double,
            22 => self.intensity = Intensity::Normal,
            23 => self.italic = Italics::No,
            24 => self.underline = Underline::Off,
            25 => self.blink = Blink::Off,
            26 => self.spacing = Spacing::Proportional,
            27 => self.invert_colors = InvertColors::No,
            29 => self.strikethrough = StrikeThrough::No,
            30 | 31 | 32 | 33 | 34 | 35 | 36 | 37 => self.text_color = Color::named(code - 30),
            39 => self.text_color = Color::Unset,
            40 | 41 | 42 | 43 | 44 | 45 | 46 | 47 => self.background_color = Color::named(
                code - 40,
            ),
            49 => self.background_color = Color::Unset,
            50 => self.spacing = Spacing::Monospace,
            59 => self.underline_color = Color::Unset,
            _ => {
                return false;
            },
        }
        true
    }

    /// Reads one escape sequence, from behind the escape marker, and changes
    /// the style as its code says.
    pub fn parse_ansi_code(&mut self, characters: &mut Cursor) -> (r: Result<(), AnsiError>)
        ensures
            r == (match escape_code(*old(self), old(characters)@).result {
                Ok(_) => Ok::<(), AnsiError>(()),
                Err(e) => Err(e),
            }),
            *final(self) == (match escape_code(*old(self), old(characters)@).result {
                Ok(next) => next,
                Err(_) => *old(self),
            }),
            final(characters)@ == old(characters)@.skip(
                escape_code(*old(self), old(characters)@).consumed as int,
            ),
    {
        let ghost rest = characters@;
        match characters.next() {
            Some(c) => {
                if c != '[' {
                    return Err(AnsiError::InvalidStartBrace);
                }
            },
            None => {
                assert(rest.skip(0) =~= rest);
                return Err(AnsiError::InvalidStartBrace);
            },
        }
        let ghost body = characters@;
        proof {
            lemma_digits_len(body);
        }
        let digits = characters.take_digits();
        match characters.peek() {
            Some(c) => {
                if c == 'm' || c == ';' {
                    let _ = characters.next();
                }
            },
            None => {},
        }
        assert(characters@ =~= rest.skip(head_len(rest) as int));
        let code = match parse_number(digits).0 {
            Ok(code) => code,
            Err(e) => {
                return Err(e);
            },
        };
        if code == 38 || code == 48 || code == 58 {
            let ghost tail = characters@;
            proof {
                lemma_color_code_bounded(tail);
            }
            let parsed = parse_color_code(characters);
            assert(characters@ =~= rest.skip((head_len(rest) + color_code(tail).consumed) as int));
            let color = match parsed {
                Ok(color) => color,
                Err(e) => {
                    return Err(e);
                },
            };
            if code == 38 {
                self.text_color = color;
            } else if code == 48 {
                self.background_color = color;
            } else {
                self.underline_color = color;
            }
            Ok(())
        } else if self.apply_code(code) {
            Ok(())
        } else {
            Err(AnsiError::IllegalCommand)
        }
    }
}

/// How much of the input a sequence takes, and whether and why it fails,
/// does not depend on the style it is read under.
pub proof fn lemma_escape_code_ignores_style(first: AnsiState, second: AnsiState, rest: Seq<char>)
    ensures
        escape_code(first, rest).consumed == escape_code(second, rest).consumed,
        escape_code(first, rest).result is Ok <==> escape_code(second, rest).result is Ok,
        escape_code(first, rest).result is Err ==> escape_code(first, rest).result->Err_0
            == escape_code(second, rest).result->Err_0,
{
}

/// Code 0 gives the default style back, whatever the style was.
pub proof fn lemma_reset(state: AnsiState)
    ensures
        plain_code(state, 0) == Some(default_state()),
{
}

/// The head of a sequence whose code is written as `digits`: the code is
/// read from exactly these digits, and the `m` or `;` behind them goes with
/// them.
pub proof fn lemma_head_of(digits: Seq<char>, after: Seq<char>)
    requires
        forall|i: int| 0 <= i < digits.len() ==> is_digit(#[trigger] digits[i]),
        after.len() > 0 ==> !is_digit(after[0]),
    ensures
        ({
            let rest = seq!['['] + digits + after;
            &&& rest.skip(1).take(digits_len(rest.skip(1)) as int) == digits
            &&& head_len(rest) == (if after.len() > 0 && (after[0] == 'm' || after[0] == ';') {
                digits.len() + 2
            } else {
                digits.len() + 1
            })
        }),
{
    let rest = seq!['['] + digits + after;
    let body = rest.skip(1);
    assert(body =~= digits + after);
    assert forall|i: int| 0 <= i < digits.len() implies is_digit(#[trigger] body[i]) by {
        assert(body[i] == digits[i]);
    }
    lemma_digits_len_is(body, digits.len() as int);
    assert(body.take(digits.len() as int) =~= digits);
}

/// A plain code written in decimal and closed by `m` does what the code
/// says, and takes the sequence up to and with the `m`.
pub proof fn lemma_plain_sequence(state: AnsiState, code: u8, after: Seq<char>)
    requires
        !takes_color(code),
    ensures
        ({
            let sequence = seq!['['] + decimal_text(code as nat) + seq!['m'];
            let outcome = escape_code(state, sequence + after);
            &&& outcome.consumed == sequence.len()
            &&& outcome.result == match plain_code(state, code) {
                Some(next) => Ok::<AnsiState, AnsiError>(next),
                None => Err(AnsiError::IllegalCommand),
            }
        }),
{
    let digits = decimal_text(code as nat);
    let sequence = seq!['['] + digits + seq!['m'];
    let closing = seq!['m'] + after;
    lemma_decimal_text(code as nat);
    lemma_number_of_decimal_text(code as nat);
    assert(sequence + after =~= seq!['['] + digits + closing);
    lemma_head_of(digits, closing);
}

/// The sequence `[0m` gives the default style back, whatever the style was.
pub proof fn lemma_reset_sequence(state: AnsiState, after: Seq<char>)
    ensures
        escape_code(state, seq!['[', '0', 'm'] + after).result == Ok::<AnsiState, AnsiError>(
            default_state(),
        ),
        escape_code(state, seq!['[', '0', 'm'] + after).consumed == 3,
{
    lemma_plain_sequence(state, 0, after);
    assert(decimal_text(0) =~= seq!['0']);
    assert(seq!['['] + decimal_text(0) + seq!['m'] =~= seq!['[', '0', 'm']);
}

/// The sequence `[38;2;r;g;bm`, with the three bytes in decimal, sets the
/// text colour to exactly these bytes and changes nothing else; and a style
/// that has this text colour alone is declared as `color:#RRGGBB;` in
/// upper-case hexadecimal.
pub proof fn lemma_truecolor_round_trip(state: AnsiState, r: u8, g: u8, b: u8, after: Seq<char>)
    ensures
        ({
            let sequence = seq!['[', '3', '8', ';', '2', ';'] + decimal_text(r as nat) + seq![';']
                + decimal_text(g as nat) + seq![';'] + decimal_text(b as nat) + seq!['m'];
            let outcome = escape_code(state, sequence + after);
            &&& outcome.consumed == sequence.len()
            &&& outcome.result == Ok::<AnsiState, AnsiError>(
                AnsiState { text_color: Color::Full(r, g, b), ..state },
            )
        }),
        Color::Full(r, g, b).text() == hex_triplet(r, g, b),
        (AnsiState { text_color: Color::Full(r, g, b), ..default_state() }).style_text()
            == "color:"@ + hex_triplet(r, g, b) + ";"@,
{
    let field = decimal_text(r as nat) + seq![';'] + decimal_text(g as nat) + seq![';']
        + decimal_text(b as nat);
    let sequence = seq!['[', '3', '8', ';', '2', ';'] + field + seq!['m'];
    let rest = sequence + after;
    let digits = seq!['3', '8'];
    let extended = seq!['2', ';'] + field + seq!['m'] + after;
    let closing = seq![';'] + extended;
    assert(rest =~= seq!['['] + digits + closing);
    lemma_head_of(digits, closing);
    assert(digits =~= decimal_text(38)) by {
        assert(decimal_text(3) =~= seq!['3']);
        assert(decimal_text(38) =~= decimal_text(3).push('8'));
    }
    lemma_number_of_decimal_text(38);
    let stated = seq!['[', '3', '8', ';', '2', ';'] + decimal_text(r as nat) + seq![';']
        + decimal_text(g as nat) + seq![';'] + decimal_text(b as nat) + seq!['m'];
    assert(stated =~= sequence);
    assert(rest.skip(4) =~= extended);
    lemma_truecolor_of_bytes(r, g, b, after);
    let plain = AnsiState { text_color: Color::Full(r, g, b), ..default_state() };
    assert(plain.style_text() =~= "color:"@ + hex_triplet(r, g, b) + ";"@);
}

} // verus!
