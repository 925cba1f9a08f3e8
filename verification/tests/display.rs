use set_game::card::{Card, Color, Number, Shading, Shape};
use set_game::display::{
    board_layout, card_content, color_from_name, glyph, parse_color_name, parse_palette,
    slot_label, split_commas, term_color, Palette, TermColor,
};

#[test]
fn parses_color_names_and_hex_codes() {
    assert_eq!(parse_color_name("red"), Some(TermColor::Red));
    assert_eq!(parse_color_name("  Bright_Blue "), Some(TermColor::BrightBlue));
    assert_eq!(parse_color_name("purple"), Some(TermColor::Magenta));
    assert_eq!(parse_color_name("GREY"), Some(TermColor::BrightBlack));
    assert_eq!(
        parse_color_name("#ff8800"),
        Some(TermColor::TrueColor { r: 255, g: 136, b: 0 })
    );
    assert_eq!(
        parse_color_name("0a0B0c"),
        Some(TermColor::TrueColor { r: 10, g: 11, b: 12 })
    );
    assert_eq!(parse_color_name("#ff88"), None);
    assert_eq!(parse_color_name("##ff8800"), None);
    assert_eq!(parse_color_name("orange"), None);
    assert_eq!(parse_color_name(""), None);
}

#[test]
fn color_names_are_exact_lowercase_words() {
    assert_eq!(color_from_name("white"), Some(TermColor::White));
    assert_eq!(color_from_name("gray"), Some(TermColor::BrightBlack));
    assert_eq!(color_from_name("White"), None);
}

#[test]
fn palette_needs_three_known_colors() {
    assert_eq!(
        parse_palette("blue,yellow,#00ffff"),
        Ok(Palette {
            red: TermColor::Blue,
            green: TermColor::Yellow,
            purple: TermColor::TrueColor { r: 0, g: 255, b: 255 },
        })
    );
    assert_eq!(
        parse_palette("red,green").unwrap_err(),
        "--colors needs 3 comma-separated colors (red,green,purple), got \"red,green\""
    );
    assert_eq!(
        parse_palette("red,mauve,blue").unwrap_err(),
        "unknown color \"mauve\" (use a name like \"red\" or a hex code like \"#ff8800\")"
    );
    assert_eq!(
        parse_palette("red,,blue").unwrap_err(),
        "unknown color \"\" (use a name like \"red\" or a hex code like \"#ff8800\")"
    );
}

#[test]
fn splits_at_every_comma() {
    assert_eq!(split_commas("a,b,,c"), vec!["a", "b", "", "c"]);
    assert_eq!(split_commas(""), vec![""]);
    assert_eq!(split_commas(","), vec!["", ""]);
}

#[test]
fn default_palette() {
    let p = Palette::default();
    assert_eq!(p.red, TermColor::Red);
    assert_eq!(p.green, TermColor::Green);
    assert_eq!(p.purple, TermColor::Magenta);
    assert_eq!(term_color(Color::Purple, &p), TermColor::Magenta);
}

#[test]
fn glyphs_and_content() {
    assert_eq!(glyph(Shape::Diamond, Shading::Solid), '◆');
    assert_eq!(glyph(Shape::Oval, Shading::Striped), '◐');
    assert_eq!(glyph(Shape::Squiggle, Shading::Empty), '□');
    let c = |n| Card { number: n, color: Color::Red, shape: Shape::Oval, shading: Shading::Empty };
    assert_eq!(card_content(&c(Number::One)), "   ○   ");
    assert_eq!(card_content(&c(Number::Two)), "  ○ ○  ");
    assert_eq!(card_content(&c(Number::Three)), " ○ ○ ○ ");
}

#[test]
fn labels_are_centered() {
    assert_eq!(slot_label(1), "   [1]   ");
    assert_eq!(slot_label(12), "  [12]   ");
    assert_eq!(slot_label(123), "  [123]  ");
}

#[test]
fn layout_has_rows_of_four() {
    let card = Card { number: Number::Two, color: Color::Green, shape: Shape::Diamond, shading: Shading::Solid };
    let mut board = vec![Some(card); 6];
    board[1] = None;
    let rows = board_layout(&board, &Palette::default(), &[0, 5], true);
    assert_eq!(rows.len(), 2);
    assert_eq!(rows[0].len(), 4);
    assert_eq!(rows[1].len(), 2);
    assert_eq!(rows[0][0].content, "  ◆ ◆  ");
    assert_eq!(rows[0][0].color, Some(TermColor::Green));
    assert!(rows[0][0].highlighted);
    assert_eq!(rows[0][1].content, "       ");
    assert_eq!(rows[0][1].color, None);
    assert!(!rows[0][1].highlighted);
    assert_eq!(rows[1][1].label, "   [6]   ");
    assert!(rows[1][1].highlighted);
    let plain = board_layout(&board, &Palette::default(), &[0, 5], false);
    assert!(!plain[0][0].highlighted);
}
