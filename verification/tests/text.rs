use diffview::text::{is_white_space, trim};

#[test]
fn white_space_agrees_with_std() {
    for u in 0..=0x10ffffu32 {
        if let Some(c) = char::from_u32(u) {
            assert_eq!(is_white_space(c), c.is_whitespace());
        }
    }
    assert_eq!(trim("  a b\u{3000}\n"), "a b");
}
