use varant::text::char_is_whitespace;

#[test]
fn whitespace_table_agrees_with_std() {
    for x in 0u32..0x11_0000 {
        if let Some(c) = char::from_u32(x) {
            assert_eq!(char_is_whitespace(c), c.is_whitespace(), "U+{:04X}", x);
        }
    }
}
