use cite::text::{chars_of, is_space, trim};

#[test]
fn space_agrees_with_std() {
    for c in (0u32..=0x10ffff).filter_map(char::from_u32) {
        assert_eq!(is_space(c), c.is_whitespace(), "{:?}", c);
    }
}

#[test]
fn trim_agrees_with_std() {
    for s in ["", "   ", " a ", "\t\na b\r\n", "\u{a0}x\u{2003}", "xy", "é ", " \u{85}"] {
        assert_eq!(trim(s), s.trim());
    }
}

#[test]
fn chars_in_order() {
    assert_eq!(chars_of("aé b"), vec!['a', 'é', ' ', 'b']);
}
