use peter::text::{same_chars, starts_with_at, string_of, to_chars};

#[test]
fn chars_of_a_string() {
    assert_eq!(to_chars(""), Vec::<char>::new());
    assert_eq!(to_chars("a\u{e9}\u{1f308}"), vec!['a', '\u{e9}', '\u{1f308}']);
}

#[test]
fn string_of_a_stretch() {
    let chars = to_chars("gr\u{fc}n \u{1f308}!");
    assert_eq!(string_of(&chars, 0, chars.len()), "gr\u{fc}n \u{1f308}!");
    assert_eq!(string_of(&chars, 2, 4), "\u{fc}n");
    assert_eq!(string_of(&chars, 5, 6), "\u{1f308}");
    assert_eq!(string_of(&chars, 3, 3), "");
    assert_eq!(string_of(&chars, 7, 7), "");
}

#[test]
fn same_chars_compares_element_by_element() {
    assert!(same_chars(&[], &[]));
    assert!(same_chars(&['a', 'b'], &['a', 'b']));
    assert!(!same_chars(&['a', 'b'], &['a', 'c']));
    assert!(!same_chars(&['a', 'b'], &['a']));
    assert!(!same_chars(&[], &['a']));
}

#[test]
fn starts_with_at_an_index() {
    let text = to_chars("abcabd");
    assert!(starts_with_at(&text, 0, &['a', 'b', 'c']));
    assert!(starts_with_at(&text, 3, &['a', 'b', 'd']));
    assert!(!starts_with_at(&text, 3, &['a', 'b', 'c']));
    assert!(!starts_with_at(&text, 4, &['b', 'd', 'x']));
    assert!(starts_with_at(&text, 6, &[]));
    assert!(starts_with_at(&text, 2, &[]));
    assert!(!starts_with_at(&text, 6, &['a']));
}
