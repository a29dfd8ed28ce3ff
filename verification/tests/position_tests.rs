use nix_nav::position::{lookup_pos, offset_to_pos, range, Position, Range};

fn pos(line: usize, character: usize) -> Position {
    Position { line, character }
}

#[test]
fn lookup_simple_ascii() {
    let code = "let a = 1;\nin a";
    assert_eq!(lookup_pos(code, pos(0, 0)), Some(0));
    assert_eq!(lookup_pos(code, pos(0, 4)), Some(4));
    assert_eq!(lookup_pos(code, pos(1, 0)), Some(11));
    assert_eq!(lookup_pos(code, pos(1, 4)), Some(15));
}

#[test]
fn lookup_line_out_of_bounds() {
    assert_eq!(lookup_pos("one line", pos(1, 0)), None);
    assert_eq!(lookup_pos("a\nb", pos(5, 0)), None);
}

#[test]
fn lookup_column_out_of_bounds() {
    assert_eq!(lookup_pos("ab\ncd", pos(0, 3)), None);
    assert_eq!(lookup_pos("ab", pos(0, 5)), None);
}

#[test]
fn utf16_supplementary_plane() {
    // a four-byte character at line start: two UTF-16 units, four bytes
    let code = "\u{1F600}x";
    assert_eq!(lookup_pos(code, pos(0, 0)), Some(0));
    assert_eq!(lookup_pos(code, pos(0, 2)), Some(4));
    assert_eq!(lookup_pos(code, pos(0, 3)), Some(5));
    // a column in the middle of the character denotes no offset
    assert_eq!(lookup_pos(code, pos(0, 1)), None);
    assert_eq!(offset_to_pos(code, 4), pos(0, 2));
}

#[test]
fn two_byte_characters_count_one_unit() {
    let code = "\u{00E9}\u{00E9}a";
    assert_eq!(lookup_pos(code, pos(0, 2)), Some(4));
    assert_eq!(offset_to_pos(code, 4), pos(0, 2));
    assert_eq!(offset_to_pos(code, 5), pos(0, 3));
}

#[test]
fn round_trip_positions() {
    let code = "let a = \u{1F600}1;\nin \u{00E9} a";
    for line in 0..2usize {
        for character in 0..14usize {
            if let Some(off) = lookup_pos(code, pos(line, character)) {
                assert_eq!(offset_to_pos(code, off), pos(line, character));
            }
        }
    }
}

#[test]
fn offset_to_pos_multiline() {
    let code = "ab\ncde\nf";
    assert_eq!(offset_to_pos(code, 0), pos(0, 0));
    assert_eq!(offset_to_pos(code, 2), pos(0, 2));
    assert_eq!(offset_to_pos(code, 3), pos(1, 0));
    assert_eq!(offset_to_pos(code, 6), pos(1, 3));
    assert_eq!(offset_to_pos(code, 7), pos(2, 0));
    assert_eq!(offset_to_pos(code, 8), pos(2, 1));
}

#[test]
fn range_of_byte_span() {
    let code = "ab\ncde";
    let r = range(code, 1, 5);
    assert_eq!(r, Range { start: pos(0, 1), end: pos(1, 2) });
}
