use set_game::text::{char_is_whitespace, folded_less, trim};

#[test]
fn whitespace_is_the_unicode_white_space_property() {
    for c in ['\t', '\n', '\u{0b}', '\u{0c}', '\r', ' ', '\u{85}', '\u{a0}', '\u{1680}', '\u{2000}', '\u{200a}', '\u{2028}', '\u{2029}', '\u{202f}', '\u{205f}', '\u{3000}'] {
        assert!(char_is_whitespace(c), "{:?}", c);
        assert_eq!(char_is_whitespace(c), c.is_whitespace());
    }
    for c in ['a', '0', '\u{200b}', '\u{180e}', '\u{feff}', '\u{1f}', '\u{2060}'] {
        assert!(!char_is_whitespace(c), "{:?}", c);
        assert_eq!(char_is_whitespace(c), c.is_whitespace());
    }
    assert_eq!(trim("\u{3000} Zoë\u{2029}"), "Zoë");
}

#[test]
fn alphabetical_order_ignores_ascii_letter_case() {
    assert!(folded_less("alice", "Bob"));
    assert!(!folded_less("Bob", "alice"));
    assert!(folded_less("Al", "alice"));
    assert!(!folded_less("ALICE", "alice"));
    assert!(!folded_less("alice", "ALICE"));
    assert!(folded_less("", "a"));
    assert!(!folded_less("a", ""));
    assert!(folded_less("_x", "Zed"));
}
