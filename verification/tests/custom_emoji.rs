use peter::emoji::{parse_custom_emoji, try_parse_custom_emoji, EmojiToken, Error};
use regex::Regex;

fn custom(id: u64, name: &str) -> Option<EmojiToken> {
    Some(EmojiToken::Custom { id, name: name.to_string() })
}

#[test]
fn parses_a_reference() {
    assert_eq!(
        parse_custom_emoji("<:lrrJUDGE:289173939802996736>"),
        custom(289173939802996736, "lrrJUDGE")
    );
    assert_eq!(parse_custom_emoji("<:a_:0>"), custom(0, "a_"));
    assert_eq!(parse_custom_emoji("<:__:5>"), custom(5, "__"));
    assert_eq!(parse_custom_emoji("<:09:10>"), custom(10, "09"));
    assert_eq!(parse_custom_emoji("<:AZaz09_:1234567890>"), custom(1234567890, "AZaz09_"));
}

#[test]
fn leading_zeros_count_for_nothing() {
    assert_eq!(parse_custom_emoji("<:ab:007>"), custom(7, "ab"));
    assert_eq!(
        parse_custom_emoji("<:ab:00000000000000000000000000000000000042>"),
        custom(42, "ab")
    );
}

#[test]
fn id_at_the_limit_of_64_bits() {
    assert_eq!(parse_custom_emoji("<:ab:18446744073709551615>"), custom(u64::MAX, "ab"));
    assert_eq!(parse_custom_emoji("<:ab:18446744073709551616>"), None);
    assert_eq!(parse_custom_emoji("<:ab:18446744073709551620>"), None);
    assert_eq!(parse_custom_emoji("<:ab:99999999999999999999>"), None);
    assert_eq!(parse_custom_emoji("<:bad:99999999999999999999999999>"), None);
}

#[test]
fn reference_inside_a_longer_text_is_none() {
    assert_eq!(parse_custom_emoji("gg <:lrrJUDGE:289173939802996736>"), None);
    assert_eq!(parse_custom_emoji("<:lrrJUDGE:289173939802996736> gg"), None);
    assert_eq!(parse_custom_emoji("<:ab:12>\n"), None);
    assert_eq!(parse_custom_emoji("<:ab:12><:ab:12>"), None);
}

#[test]
fn other_forms_are_none() {
    for text in [
        "",
        "<",
        "<:",
        "<:ab",
        "<:ab:",
        "<:ab:12",
        "<:a:12>",
        "<::12>",
        "<:ab:>",
        "<:ab:1a>",
        "<:a-b:12>",
        "<:ab:12:>",
        "<ab:12>",
        ":ab:12>",
        "<:ab12>",
        "<:a b:12>",
        "<:\u{e9}\u{e9}:12>",
        "<:ab:\u{661}\u{662}>",
        "<:ab:+12>",
        "<:ab:-12>",
        "<a:ab:12>",
        "lrrJUDGE",
    ] {
        assert_eq!(parse_custom_emoji(text), None, "{:?}", text);
    }
}

#[test]
fn agrees_with_the_pattern() {
    let pattern = Regex::new("^<:([0-9A-Z_a-z]{2,}):([0-9]+)>$").unwrap();
    let pieces = ["<", ":", ">", "a", "Z", "_", "0", "9", "-", " ", "\u{e9}", "12", "ab"];
    let mut texts: Vec<String> = vec![String::new()];
    let mut last: Vec<String> = vec![String::new()];
    for _ in 0..4 {
        let mut next = Vec::new();
        for text in last.iter() {
            for piece in pieces.iter() {
                next.push(format!("{}{}", text, piece));
            }
        }
        texts.extend(next.iter().cloned());
        last = next;
    }
    for middle in last.iter() {
        texts.push(format!("<:{}>", middle));
        texts.push(format!("<:ab{}>", middle));
        texts.push(format!("<:{}:34>", middle));
    }
    let mut matched = 0;
    for text in texts.iter() {
        let expected = pattern.captures(text).map(|c| EmojiToken::Custom {
            id: c.get(2).unwrap().as_str().parse().unwrap(),
            name: c.get(1).unwrap().as_str().to_string(),
        });
        if expected.is_some() {
            matched += 1;
        }
        assert_eq!(parse_custom_emoji(text), expected, "{:?}", text);
    }
    assert!(matched > 100);
}

fn oversized(text: &str, expected: &str) -> bool {
    matches!(try_parse_custom_emoji(text), Err(Error::CustomIdParse(digits)) if digits == expected)
}

#[test]
fn checked_parse_tells_an_oversized_id_from_another_form() {
    assert!(matches!(
        try_parse_custom_emoji("<:lrrJUDGE:289173939802996736>"),
        Ok(Some(EmojiToken::Custom { id: 289173939802996736, name })) if name == "lrrJUDGE"
    ));
    assert!(oversized("<:bad:99999999999999999999999999>", "99999999999999999999999999"));
    assert!(oversized("<:ab:018446744073709551616>", "018446744073709551616"));
    assert!(matches!(
        try_parse_custom_emoji("<:ab:018446744073709551615>"),
        Ok(Some(EmojiToken::Custom { id: u64::MAX, name })) if name == "ab"
    ));
    assert!(matches!(try_parse_custom_emoji("<:bad:99999999999999999999999999> "), Ok(None)));
    assert!(matches!(try_parse_custom_emoji("gg"), Ok(None)));
    assert!(matches!(try_parse_custom_emoji(""), Ok(None)));
}
