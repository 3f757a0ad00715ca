use isml_lsp::position::char_offset;

#[test]
fn maps_utf16_columns_to_char_indices() {
    assert_eq!(char_offset("abc", 2), 2);
    // An emoji is two UTF-16 units but one char.
    assert_eq!(char_offset("💾ab", 3), 2);
}

#[test]
fn a_column_past_the_line_is_its_length() {
    assert_eq!(char_offset("abc", 7), 3);
    assert_eq!(char_offset("", 0), 0);
}

#[test]
fn a_column_inside_a_surrogate_pair_moves_past_it() {
    assert_eq!(char_offset("💾ab", 1), 1);
    assert_eq!(char_offset("a💾b", 2), 2);
    assert_eq!(char_offset("é€", 2), 2);
}
