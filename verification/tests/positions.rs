use iris_language_tools::positions::{position, LineIndex, Position};

#[test]
fn offsets_turn_back_into_themselves_through_positions() {
    let text = "a\r\nb\u{1f600}c\rd\n\u{e9}";
    let index = LineIndex::new(text);
    for offset in 0..=text.len() {
        let splits_break = offset > 0 && text.as_bytes().get(offset - 1) == Some(&b'\r')
            && text.as_bytes().get(offset) == Some(&b'\n');
        if let Some(place) = index.position(offset) {
            if !splits_break {
                assert_eq!(index.byte_offset(place), Some(offset), "offset {offset}");
            }
        }
    }
}

#[test]
fn an_offset_inside_a_line_break_returns_to_the_break() {
    let index = LineIndex::new("a\r\nb");
    assert_eq!(index.position(2), Some(Position::new(0, 1)));
    assert_eq!(index.byte_offset(Position::new(0, 1)), Some(1));
}

#[test]
fn the_index_and_the_walk_agree_on_positions() {
    let text = "\u{feff}a\r\n\u{1f600}\rz\n";
    let index = LineIndex::new(text);
    for offset in 0..=text.len() + 1 {
        assert_eq!(index.position(offset), position(text, offset), "offset {offset}");
    }
}
