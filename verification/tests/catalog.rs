use peter::emoji::{decode_file_name, CatalogBuilder, EmojiCatalog, Error};
use regex::Regex;
use std::io;

const RAINBOW_FLAG: &str = "\u{1f3f3}\u{fe0f}\u{200d}\u{1f308}";

fn names(list: &[&str]) -> Vec<String> {
    list.iter().map(|s| s.to_string()).collect()
}

#[test]
fn decodes_a_file_name() {
    assert_eq!(decode_file_name("1f3f3-fe0f-200d-1f308.svg"), Some(RAINBOW_FLAG.to_string()));
    assert_eq!(decode_file_name("1f600.svg"), Some("\u{1f600}".to_string()));
    assert_eq!(decode_file_name("a9.svg"), Some("\u{a9}".to_string()));
    assert_eq!(decode_file_name("0.svg"), Some("\u{0}".to_string()));
    assert_eq!(decode_file_name("00061.svg"), Some("a".to_string()));
    assert_eq!(decode_file_name("39-20e3.svg"), Some("9\u{20e3}".to_string()));
    assert_eq!(decode_file_name("10ffff.svg"), Some("\u{10ffff}".to_string()));
    assert_eq!(decode_file_name("d7ff-e000.svg"), Some("\u{d7ff}\u{e000}".to_string()));
}

#[test]
fn other_file_names_are_none() {
    for name in [
        "",
        ".svg",
        "svg",
        "1f600",
        "1f600.png",
        "1f600.svg.bak",
        "1f600.svgx",
        "1f600.SVG",
        "1F600.svg",
        "1f600-.svg",
        "-1f600.svg",
        "1f600--1f601.svg",
        "1f600_1f601.svg",
        "1234567.svg",
        "1f600-1234567.svg",
        "g.svg",
        "readme.md",
        " 1f600.svg",
        "1f600 .svg",
        "x1f600.svg",
        "\u{e9}.svg",
    ] {
        assert_eq!(decode_file_name(name), None, "{:?}", name);
    }
}

#[test]
fn group_that_is_no_scalar_value_is_left_out() {
    assert_eq!(decode_file_name("1f600-d800.svg"), Some("\u{1f600}".to_string()));
    assert_eq!(decode_file_name("d800-1f600.svg"), Some("\u{1f600}".to_string()));
    assert_eq!(decode_file_name("d800-1f308.svg"), Some("\u{1f308}".to_string()));
    assert_eq!(decode_file_name("1f3f3-110000-fe0f-dfff-200d-ffffff-1f308.svg"), Some(RAINBOW_FLAG.to_string()));
}

#[test]
fn name_of_which_no_group_is_left_is_none() {
    assert_eq!(decode_file_name("d800.svg"), None);
    assert_eq!(decode_file_name("dfff.svg"), None);
    assert_eq!(decode_file_name("110000.svg"), None);
    assert_eq!(decode_file_name("ffffff.svg"), None);
    assert_eq!(decode_file_name("d800-dfff-110000.svg"), None);
}

#[test]
fn file_names_agree_with_the_pattern() {
    let pattern = Regex::new("^([0-9a-f]{1,6}(?:-[0-9a-f]{1,6})*)\\.svg$").unwrap();
    let pieces = ["1", "f", "a9", "-", ".", "svg", ".svg", "G", "1f3f3", "0000000", "d800"];
    let mut texts: Vec<String> = vec![String::new()];
    let mut last: Vec<String> = vec![String::new()];
    for _ in 0..4 {
        let mut next = Vec::new();
        for text in last.iter() {
            for piece in pieces.iter() {
                next.push(format!("{}{}", text, piece));
            }
        }
        texts.extend(next.iter().cloned());
        last = next;
    }
    for stem in last.iter() {
        texts.push(format!("{}.svg", stem));
        texts.push(format!("1f600-{}", stem));
    }
    let mut matched = 0;
    for text in texts.iter() {
        let expected = pattern
            .captures(text)
            .map(|c| {
                c.get(1)
                    .unwrap()
                    .as_str()
                    .split('-')
                    .filter_map(|hex| u32::from_str_radix(hex, 16).ok().and_then(char::from_u32))
                    .collect::<String>()
            })
            .filter(|emoji| !emoji.is_empty());
        if expected.is_some() {
            matched += 1;
        }
        assert_eq!(decode_file_name(text), expected, "{:?}", text);
    }
    assert!(matched > 100);
}

#[test]
fn catalog_holds_what_was_inserted() {
    let empty = EmojiCatalog::new();
    assert_eq!(empty.len(), 0);
    assert!(!empty.contains("a"));
    let mut builder = CatalogBuilder::new();
    assert!(builder.insert("a"));
    assert!(builder.insert(RAINBOW_FLAG));
    assert!(builder.insert("bc"));
    assert!(!builder.insert("a"));
    assert!(!builder.insert(RAINBOW_FLAG));
    assert!(builder.insert_chars(vec!['x', 'y']));
    assert!(!builder.insert_chars(vec!['b', 'c']));
    let catalog = builder.finish();
    assert_eq!(catalog.len(), 4);
    assert!(catalog.contains("a"));
    assert!(catalog.contains("bc"));
    assert!(catalog.contains("xy"));
    assert!(catalog.contains(RAINBOW_FLAG));
    assert!(!catalog.contains("b"));
    assert!(!catalog.contains("\u{1f3f3}"));
}

#[test]
fn empty_string_is_never_an_entry() {
    let mut builder = CatalogBuilder::new();
    assert!(!builder.insert(""));
    assert!(!builder.insert_chars(Vec::new()));
    let catalog = builder.finish();
    assert_eq!(catalog.len(), 0);
    assert!(!catalog.contains(""));
}

#[test]
fn longest_match_of_the_catalog() {
    let mut builder = CatalogBuilder::new();
    for entry in ["a", "abc", "abcde", "zz"] {
        builder.insert(entry);
    }
    let catalog = builder.finish();
    let text: Vec<char> = "xabcdzz".chars().collect();
    assert_eq!(catalog.longest_match(&text, 0), 0);
    assert_eq!(catalog.longest_match(&text, 1), 3);
    assert_eq!(catalog.longest_match(&text, 2), 0);
    assert_eq!(catalog.longest_match(&text, 5), 2);
    assert_eq!(catalog.longest_match(&text, 6), 0);
    assert_eq!(catalog.longest_match(&text, 7), 0);
}

#[test]
fn add_file_name_adds_the_emoji() {
    let mut builder = CatalogBuilder::new();
    assert!(builder.add_file_name("1f3f3-fe0f-200d-1f308.svg"));
    assert!(!builder.add_file_name("1f3f3-fe0f-200d-1f308.svg"));
    assert!(!builder.add_file_name("01f3f3-fe0f-200d-01f308.svg"));
    assert!(!builder.add_file_name("0001f3f3-fe0f-200d-1f308.svg"));
    assert!(!builder.add_file_name("LICENSE"));
    assert!(!builder.add_file_name("d800.svg"));
    let catalog = builder.finish();
    assert_eq!(catalog.len(), 1);
    assert!(catalog.contains(RAINBOW_FLAG));
}

#[test]
fn catalog_from_file_names() {
    let catalog = EmojiCatalog::from_file_names(&names(&[
        "1f3f3.svg",
        "README.md",
        "1f3f3-fe0f-200d-1f308.svg",
        "01f3f3.svg",
        "1f600.png",
        "d800.svg",
        "d800-1f308.svg",
    ]));
    assert_eq!(catalog.len(), 3);
    assert!(catalog.contains("\u{1f3f3}"));
    assert!(catalog.contains(RAINBOW_FLAG));
    assert!(catalog.contains("\u{1f308}"));
    assert!(!catalog.contains(""));
    assert_eq!(EmojiCatalog::from_file_names(&Vec::new()).len(), 0);
}

#[test]
fn catalog_does_not_depend_on_the_order() {
    let listed = ["1f3f3.svg", "a9.svg", "1f3f3-fe0f-200d-1f308.svg", "notes.txt", "1f600.svg"];
    let mut reversed = listed;
    reversed.reverse();
    let mut rotated = listed;
    rotated.rotate_left(2);
    let first = EmojiCatalog::from_file_names(&names(&listed));
    let again = EmojiCatalog::from_file_names(&names(&listed));
    let second = EmojiCatalog::from_file_names(&names(&reversed));
    let third = EmojiCatalog::from_file_names(&names(&rotated));
    assert_eq!(first.len(), 4);
    for other in [&again, &second, &third] {
        assert_eq!(other.len(), first.len());
        for emoji in ["\u{1f3f3}", "\u{a9}", RAINBOW_FLAG, "\u{1f600}", "notes", ""] {
            assert_eq!(other.contains(emoji), first.contains(emoji));
        }
    }
}

#[test]
fn build_without_errors() {
    let listing = vec![
        Ok("1f3f3.svg".to_string()),
        Ok("README.md".to_string()),
        Ok("1f3f3-fe0f-200d-1f308.svg".to_string()),
        Ok("d800-1f308.svg".to_string()),
        Ok("d800.svg".to_string()),
    ];
    let catalog = EmojiCatalog::build(listing).ok().unwrap();
    assert_eq!(catalog.len(), 3);
    assert!(catalog.contains(RAINBOW_FLAG));
    assert!(catalog.contains("\u{1f308}"));
    assert_eq!(EmojiCatalog::build(Vec::new()).ok().unwrap().len(), 0);
}

fn io_error(kind: io::ErrorKind, text: &str) -> Error {
    Error::Io(io::Error::new(kind, text.to_string()))
}

fn is_io_error(result: Result<EmojiCatalog, Error>, kind: io::ErrorKind, text: &str) -> bool {
    match result {
        Err(Error::Io(e)) => e.kind() == kind && e.to_string() == text,
        _ => false,
    }
}

#[test]
fn build_fails_with_an_io_error() {
    let listing = vec![
        Ok("1f3f3.svg".to_string()),
        Err(io_error(io::ErrorKind::PermissionDenied, "permission denied")),
    ];
    assert!(is_io_error(
        EmojiCatalog::build(listing),
        io::ErrorKind::PermissionDenied,
        "permission denied"
    ));
    let only = vec![Err(io_error(io::ErrorKind::NotFound, "no such directory"))];
    assert!(is_io_error(EmojiCatalog::build(only), io::ErrorKind::NotFound, "no such directory"));
}

#[test]
fn build_fails_with_an_undecodable_file_name() {
    let raw = vec![0x31, 0x66, 0xff, 0x2e, 0x73, 0x76, 0x67];
    let listing = vec![
        Ok("1f3f3.svg".to_string()),
        Err(Error::FilenameDecode(raw.clone())),
        Ok("1f600.svg".to_string()),
    ];
    assert!(matches!(EmojiCatalog::build(listing), Err(Error::FilenameDecode(name)) if name == raw));
}

#[test]
fn build_fails_with_the_first_error() {
    let listing = vec![
        Ok("1f3f3.svg".to_string()),
        Err(Error::FilenameDecode(vec![0xff])),
        Err(io_error(io::ErrorKind::Other, "later")),
    ];
    assert!(
        matches!(EmojiCatalog::build(listing), Err(Error::FilenameDecode(name)) if name == vec![0xff])
    );
    let listing = vec![
        Err(io_error(io::ErrorKind::Interrupted, "sooner")),
        Ok("1f3f3.svg".to_string()),
        Err(Error::FilenameDecode(vec![0xff])),
    ];
    assert!(is_io_error(EmojiCatalog::build(listing), io::ErrorKind::Interrupted, "sooner"));
}
