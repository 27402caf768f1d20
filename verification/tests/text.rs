use link_checker::text::{chars_of, string_of};

#[test]
fn chars_of_a_text() {
    assert_eq!(chars_of(""), Vec::<char>::new());
    assert_eq!(chars_of("a\u{e9}\u{4e2d}\n"), vec!['a', '\u{e9}', '\u{4e2d}', '\n']);
}

#[test]
fn string_of_a_part_of_the_characters() {
    let chars = vec!['a', '\u{e9}', '\u{4e2d}', 'b'];
    assert_eq!(string_of(&chars, 0, 4), "a\u{e9}\u{4e2d}b");
    assert_eq!(string_of(&chars, 1, 3), "\u{e9}\u{4e2d}");
    assert_eq!(string_of(&chars, 2, 2), "");
    assert_eq!(string_of(&chars, 4, 4), "");
}
