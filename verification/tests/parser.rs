use anstml::color::Color;
use anstml::cursor::Cursor;
use anstml::error::AnsiError;
use anstml::run::Run;
use anstml::state::{
    AnsiState, Blink, Intensity, InvertColors, Italics, Spacing, StrikeThrough, Underline,
};
use anstml::{convert, Parser};

fn chars(text: &str) -> Vec<char> {
    text.chars().collect()
}

fn plain() -> AnsiState {
    AnsiState::default()
}

fn run(style: AnsiState, text: &str) -> Run {
    Run { style, text: text.to_string() }
}

#[test]
fn parse_text_with_ansi() {
    let text = "This is a \
        \x1b[32piece of text with escape codes like and \
        \x1b[33\x1b[5 , it should parse without errors etc.\
        \x1b[0this should \
        \x1b[0be resetted again\
        \x1b[38;2;22;99;199m and this is some blue'ish";
    let mut parser = Parser::default();
    let input = chars(text);
    assert_eq!(parser.parse_ansi_text(&mut Cursor::new(&input)), Ok(()));
    let correct = vec![
        (AnsiState::default(), "This is a ".to_string()),
        (
            AnsiState {
                background_color: Color::Unset,
                text_color: Color::Green,
                underline_color: Color::Unset,
                intensity: Intensity::Normal,
                italic: Italics::No,
                underline: Underline::Off,
                blink: Blink::Off,
                invert_colors: InvertColors::No,
                strikethrough: StrikeThrough::No,
                spacing: Spacing::Monospace,
            },
            "piece of text with escape codes like and ".to_string(),
        ),
        (
            AnsiState {
                background_color: Color::Unset,
                text_color: Color::Yellow,
                underline_color: Color::Unset,
                intensity: Intensity::Normal,
                italic: Italics::No,
                underline: Underline::Off,
                blink: Blink::Slow,
                invert_colors: InvertColors::No,
                strikethrough: StrikeThrough::No,
                spacing: Spacing::Monospace,
            },
            " , it should parse without errors etc.".to_string(),
        ),
        (AnsiState::default(), "this should be resetted again".to_string()),
        (
            AnsiState {
                background_color: Color::Unset,
                text_color: Color::Full(22, 99, 199),
                underline_color: Color::Unset,
                intensity: Intensity::Normal,
                italic: Italics::No,
                underline: Underline::Off,
                blink: Blink::Off,
                invert_colors: InvertColors::No,
                strikethrough: StrikeThrough::No,
                spacing: Spacing::Monospace,
            },
            " and this is some blue'ish".to_string(),
        ),
    ];
    assert_eq!(parser.runs().len(), correct.len());
    for (actual, correct) in parser.into_runs().into_iter().zip(correct) {
        assert_eq!((actual.style, actual.text), correct)
    }
}

#[test]
fn lib_parse_ansi_codes() {
    let mut state = AnsiState::default();
    assert_eq!(state.parse_ansi_code(&mut Cursor::new(&chars("[1"))), Ok(()));
    assert_eq!(
        state,
        AnsiState {
            background_color: Color::Unset,
            text_color: Color::Unset,
            underline_color: Color::Unset,
            intensity: Intensity::Bold,
            italic: Italics::No,
            underline: Underline::Off,
            blink: Blink::Off,
            invert_colors: InvertColors::No,
            strikethrough: StrikeThrough::No,
            spacing: Spacing::Monospace
        },
        "We are testing the bold code"
    );
    assert_eq!(state.parse_ansi_code(&mut Cursor::new(&chars("[2"))), Ok(()));
    assert_eq!(
        state,
        AnsiState {
            background_color: Color::Unset,
            text_color: Color::Unset,
            underline_color: Color::Unset,
            intensity: Intensity::Faint,
            italic: Italics::No,
            underline: Underline::Off,
            blink: Blink::Off,
            invert_colors: InvertColors::No,
            strikethrough: StrikeThrough::No,
            spacing: Spacing::Monospace
        },
        "We are testing the faint code"
    );
    assert_eq!(state.parse_ansi_code(&mut Cursor::new(&chars("[3"))), Ok(()));
    assert_eq!(
        state,
        AnsiState {
            background_color: Color::Unset,
            text_color: Color::Unset,
            underline_color: Color::Unset,
            intensity: Intensity::Faint,
            italic: Italics::Yes,
            underline: Underline::Off,
            blink: Blink::Off,
            invert_colors: InvertColors::No,
            strikethrough: StrikeThrough::No,
            spacing: Spacing::Monospace
        },
        "We are testing the italic code"
    );
    assert_eq!(state.parse_ansi_code(&mut Cursor::new(&chars("[4"))), Ok(()));
    assert_eq!(
        state,
        AnsiState {
            background_color: Color::Unset,
            text_color: Color::Unset,
            underline_color: Color::Unset,
            intensity: Intensity::Faint,
            italic: Italics::Yes,
            underline: Underline::Single,
            blink: Blink::Off,
            invert_colors: InvertColors::No,
            strikethrough: StrikeThrough::No,
            spacing: Spacing::Monospace
        },
        "We are testing the underline code"
    );
    assert_eq!(state.parse_ansi_code(&mut Cursor::new(&chars("[5"))), Ok(()));
    assert_eq!(
        state,
        AnsiState {
            background_color: Color::Unset,
            text_color: Color::Unset,
            underline_color: Color::Unset,
            intensity: Intensity::Faint,
            italic: Italics::Yes,
            underline: Underline::Single,
            blink: Blink::Slow,
            invert_colors: InvertColors::No,
            strikethrough: StrikeThrough::No,
            spacing: Spacing::Monospace
        },
        "We are testing the slow blink code"
    );
    assert_eq!(state.parse_ansi_code(&mut Cursor::new(&chars("[6"))), Ok(()));
    assert_eq!(
        state,
        AnsiState {
            background_color: Color::Unset,
            text_color: Color::Unset,
            underline_color: Color::Unset,
            intensity: Intensity::Faint,
            italic: Italics::Yes,
            underline: Underline::Single,
            blink: Blink::Fast,
            invert_colors: InvertColors::No,
            strikethrough: StrikeThrough::No,
            spacing: Spacing::Monospace
        },
        "We are testing the fast blink code"
    );
    assert_eq!(state.parse_ansi_code(&mut Cursor::new(&chars("[7"))), Ok(()));
    assert_eq!(
        state,
        AnsiState {
            background_color: Color::Unset,
            text_color: Color::Unset,
            underline_color: Color::Unset,
            intensity: Intensity::Faint,
            italic: Italics::Yes,
            underline: Underline::Single,
            blink: Blink::Fast,
            invert_colors: InvertColors::Yes,
            strikethrough: StrikeThrough::No,
            spacing: Spacing::Monospace
        },
        "We are testing the invert code"
    );
    assert_eq!(state.parse_ansi_code(&mut Cursor::new(&chars("[9"))), Ok(()));
    assert_eq!(
        state,
        AnsiState {
            background_color: Color::Unset,
            text_color: Color::Unset,
            underline_color: Color::Unset,
            intensity: Intensity::Faint,
            italic: Italics::Yes,
            underline: Underline::Single,
            blink: Blink::Fast,
            invert_colors: InvertColors::Yes,
            strikethrough: StrikeThrough::Yes,
            spacing: Spacing::Monospace
        },
        "We are testing the strikethrough code"
    );
    assert_eq!(state.parse_ansi_code(&mut Cursor::new(&chars("[21"))), Ok(()));
    assert_eq!(
        state,
        AnsiState {
            background_color: Color::Unset,
            text_color: Color::Unset,
            underline_color: Color::Unset,
            intensity: Intensity::Faint,
            italic: Italics::Yes,
            underline: Underline::Double,
            blink: Blink::Fast,
            invert_colors: InvertColors::Yes,
            strikethrough: StrikeThrough::Yes,
            spacing: Spacing::Monospace
        },
        "We are testing the double underline code"
    );
    assert_eq!(state.parse_ansi_code(&mut Cursor::new(&chars("[22"))), Ok(()));
    assert_eq!(
        state,
        AnsiState {
            background_color: Color::Unset,
            text_color: Color::Unset,
            underline_color: Color::Unset,
            intensity: Intensity::Normal,
            italic: Italics::Yes,
            underline: Underline::Double,
            blink: Blink::Fast,
            invert_colors: InvertColors::Yes,
            strikethrough: StrikeThrough::Yes,
            spacing: Spacing::Monospace
        },
        "We are testing the reset intensity code"
    );
    assert_eq!(state.parse_ansi_code(&mut Cursor::new(&chars("[23"))), Ok(()));
    assert_eq!(
        state,
        AnsiState {
            background_color: Color::Unset,
            text_color: Color::Unset,
            underline_color: Color::Unset,
            intensity: Intensity::Normal,
            italic: Italics::No,
            underline: Underline::Double,
            blink: Blink::Fast,
            invert_colors: InvertColors::Yes,
            strikethrough: StrikeThrough::Yes,
            spacing: Spacing::Monospace
        },
        "We are testing the reset italic code"
    );
    assert_eq!(state.parse_ansi_code(&mut Cursor::new(&chars("[24"))), Ok(()));
    assert_eq!(
        state,
        AnsiState {
            background_color: Color::Unset,
            text_color: Color::Unset,
            underline_color: Color::Unset,
            intensity: Intensity::Normal,
            italic: Italics::No,
            underline: Underline::Off,
            blink: Blink::Fast,
            invert_colors: InvertColors::Yes,
            strikethrough: StrikeThrough::Yes,
            spacing: Spacing::Monospace
        },
        "We are testing the reset underline code"
    );
    println!("testing code 0");
    assert_eq!(state.parse_ansi_code(&mut Cursor::new(&chars("[0"))), Ok(()));
    assert_eq!(state, AnsiState::default(), "We are testing the reset all code");
}

#[test]
fn text_without_escape_is_one_plain_run() {
    let input = chars("just some text, [0m included");
    assert_eq!(convert(&input), Ok(vec![run(plain(), "just some text, [0m included")]));
}

#[test]
fn empty_input_has_no_run() {
    assert_eq!(convert(&[]), Ok(vec![]));
}

#[test]
fn green_then_reset() {
    let green = AnsiState { text_color: Color::Green, ..plain() };
    assert_eq!(
        convert(&chars("A\x1b[32mB\x1b[0mC")),
        Ok(vec![run(plain(), "A"), run(green, "B"), run(plain(), "C")])
    );
}

#[test]
fn repeated_code_gives_one_run() {
    let bold = AnsiState { intensity: Intensity::Bold, ..plain() };
    assert_eq!(convert(&chars("\x1b[1m\x1b[1mX")), Ok(vec![run(bold, "X")]));
}

#[test]
fn neighbours_of_one_style_are_merged() {
    let bold = AnsiState { intensity: Intensity::Bold, ..plain() };
    assert_eq!(
        convert(&chars("a\x1b[0mb\x1b[1mc\x1b[1md\x1b[22me\x1b[0mf")),
        Ok(vec![run(plain(), "ab"), run(bold, "cd"), run(plain(), "ef")])
    );
}

#[test]
fn merged_runs_keep_every_literal_character() {
    let input = chars("one\x1b[31mtwo\x1b[31mthree\x1b[0m\x1b[4mfour\x1b[");
    let runs = convert(&input).unwrap();
    let text: String = runs.iter().map(|r| r.text.as_str()).collect();
    assert_eq!(text, "onetwothreefour");
    for pair in runs.windows(2) {
        assert_ne!(pair[0].style, pair[1].style);
    }
    for r in &runs {
        assert!(!r.text.is_empty());
    }
}

#[test]
fn truncated_sequence_at_the_end_is_dropped() {
    assert_eq!(convert(&chars("text\x1b[3")), Ok(vec![run(plain(), "text")]));
    assert_eq!(convert(&chars("text\x1b[")), Ok(vec![run(plain(), "text")]));
    assert_eq!(convert(&chars("text\x1b")), Ok(vec![run(plain(), "text")]));
    assert_eq!(convert(&chars("text\x1b[38;2;1;2")), Ok(vec![run(plain(), "text")]));
    assert_eq!(convert(&chars("text\x1b[38;5")), Ok(vec![run(plain(), "text")]));
    assert_eq!(convert(&chars("text\x1b[38")), Ok(vec![run(plain(), "text")]));
}

#[test]
fn failure_with_input_left_aborts() {
    assert_eq!(convert(&chars("a\x1bbc")), Err(AnsiError::InvalidStartBrace));
    assert_eq!(convert(&chars("a\x1b[256mb")), Err(AnsiError::NumberParse));
    assert_eq!(convert(&chars("a\x1b[38;3;1mb")), Err(AnsiError::InvalidFormat));
    assert_eq!(convert(&chars("a\x1b[38;5;0112mb")), Err(AnsiError::TooLong));
    assert_eq!(convert(&chars("a\x1b[8mb")), Err(AnsiError::IllegalCommand));
}

#[test]
fn separator_after_a_plain_code_ends_the_sequence() {
    let bold = AnsiState { intensity: Intensity::Bold, ..plain() };
    assert_eq!(convert(&chars("\x1b[1;32mX")), Ok(vec![run(bold, "32mX")]));
}

#[test]
fn parser_keeps_the_style_between_passes() {
    let mut parser = Parser::default();
    let first = chars("\x1b[1mbold");
    assert_eq!(parser.parse_ansi_text(&mut Cursor::new(&first)), Ok(()));
    let bold = AnsiState { intensity: Intensity::Bold, ..plain() };
    assert_eq!(parser.current(), bold);
    assert_eq!(parser.runs(), &vec![run(bold, "bold")]);
    let second = chars("still\x1b[3m italic");
    assert_eq!(parser.parse_ansi_text(&mut Cursor::new(&second)), Ok(()));
    let both = AnsiState { italic: Italics::Yes, ..bold };
    assert_eq!(parser.runs(), &vec![run(bold, "still"), run(both, " italic")]);
}

#[test]
fn failed_pass_keeps_the_runs_held() {
    let mut parser = Parser::default();
    let first = chars("kept");
    assert_eq!(parser.parse_ansi_text(&mut Cursor::new(&first)), Ok(()));
    let second = chars("lost\x1b[4m\x1b[99mrest");
    let mut cursor = Cursor::new(&second);
    assert_eq!(parser.parse_ansi_text(&mut cursor), Err(AnsiError::IllegalCommand));
    assert_eq!(parser.runs(), &vec![run(plain(), "kept")]);
    assert_eq!(parser.current(), AnsiState { underline: Underline::Single, ..plain() });
    assert_eq!(cursor.peek(), Some('r'));
}
