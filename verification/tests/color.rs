use anstml::color::Color;

#[test]
fn color_parsing_returns_correct() {
    let cases = [
        (Color::Black, "black"),
        (Color::Red, "red"),
        (Color::Green, "green"),
        (Color::Yellow, "yellow"),
        (Color::Blue, "blue"),
        (Color::Magenta, "magenta"),
        (Color::Cyan, "cyan"),
        (Color::White, "white"),
        (Color::Byte(28), "#008700"),
        (Color::Byte(147), "#AFAFFF"),
        (Color::Byte(249), "#B2B2B2"),
        (Color::Byte(172), "#D78700"),
        (Color::Full(0x42, 0x69, 0xAD), "#4269AD"),
    ];
    for (color, correct) in cases {
        assert_eq!(color.to_string(), correct);
    }
}

#[test]
fn unset_color_has_no_text() {
    assert_eq!(Color::Unset.to_string(), "");
}

#[test]
fn hex_digits_are_upper_case_and_padded() {
    assert_eq!(Color::Full(0, 0, 0).to_string(), "#000000");
    assert_eq!(Color::Full(255, 255, 255).to_string(), "#FFFFFF");
    assert_eq!(Color::Full(1, 10, 16).to_string(), "#010A10");
    assert_eq!(Color::Full(0x9a, 0xbc, 0xdf).to_string(), "#9ABCDF");
    for value in 0..=255u8 {
        assert_eq!(
            Color::Full(value, 0, 255 - value).to_string(),
            format!("#{:02X}00{:02X}", value, 255 - value)
        );
    }
}

#[test]
fn palette_entries_are_looked_up() {
    assert_eq!(Color::Byte(16).to_string(), "#000000");
    assert_eq!(Color::Byte(67).to_string(), "#5F87AF");
    assert_eq!(Color::Byte(231).to_string(), "#FFFFFF");
    assert_eq!(Color::Byte(255).to_string(), "#EEEEEE");
    assert_eq!(Color::Byte(128).to_string(), "#AF00D7");
}

#[test]
fn palette_index_selects_named_colors_first() {
    let named = [
        Color::Black,
        Color::Red,
        Color::Green,
        Color::Yellow,
        Color::Blue,
        Color::Magenta,
        Color::Cyan,
        Color::White,
    ];
    for index in 0..=255u8 {
        let expected = if index < 8 { named[index as usize] } else { Color::Byte(index) };
        assert_eq!(Color::from_palette(index), expected);
    }
}

#[test]
fn colors_are_equal_by_how_they_are_written() {
    assert_eq!(Color::Byte(28), Color::Byte(28));
    assert_ne!(Color::Byte(16), Color::Full(0, 0, 0));
    assert_ne!(Color::Byte(0), Color::Black);
}
