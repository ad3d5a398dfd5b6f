use telegram_obsidian::unicode::{utf16_boundary_to_byte, utf16_to_char_index};

#[test]
fn telegram_utf16_offsets_are_converted() {
    let text = "a😀b";
    assert_eq!(utf16_boundary_to_byte(text, 0), Some(0));
    assert_eq!(utf16_boundary_to_byte(text, 1), Some(1));
    assert_eq!(utf16_boundary_to_byte(text, 3), Some(5));
    assert_eq!(utf16_boundary_to_byte(text, 4), Some(6));
}

#[test]
fn offsets_inside_a_character_or_past_the_end_are_refused() {
    let text = "a😀b";
    assert_eq!(utf16_boundary_to_byte(text, 2), None);
    assert_eq!(utf16_boundary_to_byte(text, 5), None);
    assert_eq!(utf16_boundary_to_byte("", 0), Some(0));
    assert_eq!(utf16_boundary_to_byte("", 1), None);
}

#[test]
fn cyrillic_offsets_count_two_bytes() {
    let text = "привет";
    assert_eq!(utf16_boundary_to_byte(text, 3), Some(6));
    assert_eq!(utf16_boundary_to_byte(text, 6), Some(12));
}

#[test]
fn character_indices_of_boundaries() {
    let chars: Vec<char> = "a😀b".chars().collect();
    assert_eq!(utf16_to_char_index(&chars, 0), Some(0));
    assert_eq!(utf16_to_char_index(&chars, 3), Some(2));
    assert_eq!(utf16_to_char_index(&chars, 2), None);
    assert_eq!(utf16_to_char_index(&chars, 4), Some(3));
}
