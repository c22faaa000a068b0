use valkey_faces::slug::{slug, slug_of_lowercase};

#[test]
fn slug_of_a_full_name() {
    assert_eq!(slug("Barack Obama"), "barack-obama");
    assert_eq!(slug("Khawaja"), "khawaja");
}

#[test]
fn slug_trims_dashes_at_both_ends_only() {
    assert_eq!(slug("  Rose  Leslie!! "), "rose--leslie");
    assert_eq!(slug("--a-b--"), "a-b");
}

#[test]
fn slug_of_nothing_but_punctuation_is_empty() {
    assert_eq!(slug(""), "");
    assert_eq!(slug("!?: *"), "");
}

#[test]
fn slug_keeps_letters_beyond_ascii() {
    assert_eq!(slug("Zoë Ünal"), "zoë-ünal");
    assert_eq!(slug("ΣΑΣ"), "σας");
    assert_eq!(slug("١٢٣"), "١٢٣");
    assert_eq!(slug("a\u{2014}b"), "a-b");
}

#[test]
fn slug_agrees_with_unicode_on_every_character() {
    for code in 0..0x11_0000u32 {
        if code % 7 != 0 && code >= 0x3000 {
            continue;
        }
        if let Some(c) = char::from_u32(code) {
            let name: String = ['x', c, 'x'].iter().collect();
            let expected: String = name
                .to_lowercase()
                .chars()
                .map(|c| if c.is_alphanumeric() { c } else { '-' })
                .collect();
            assert_eq!(slug(&name), expected, "U+{:04X}", code);
        }
    }
}

#[test]
fn slug_of_a_name_in_lowercase() {
    assert_eq!(slug_of_lowercase("barack obama"), "barack-obama");
    assert_eq!(slug_of_lowercase(" (zoë) "), "zoë");
    assert_eq!(slug_of_lowercase("McX"), "McX");
    assert_eq!(slug_of_lowercase("?!"), "");
}

#[test]
fn a_slug_has_no_ascii_capital() {
    for code in 0..0x11_0000u32 {
        if let Some(c) = char::from_u32(code) {
            let lower = c.to_lowercase().collect::<String>();
            assert!(!lower.chars().any(|c| c.is_ascii_uppercase()), "U+{:04X}", code);
        }
    }
    assert_eq!(slug("ABCXYZ \u{212A}\u{0130}"), "abcxyz-ki");
}

#[test]
fn ascii_capitals_become_small_letters() {
    let all: String = (0..128u8).map(|b| b as char).collect();
    let expected = format!("0123456789-------{0}------{0}", "abcdefghijklmnopqrstuvwxyz");
    assert_eq!(slug(&all), expected);
}

#[test]
fn the_slug_of_a_slug_is_the_slug() {
    for name in ["Barack Obama", "  Rose  Leslie!! ", "", "ZOË--ÜNAL", "ΣΑΣ ΟΔΟΣ", "İstanbul", "ǅ"] {
        let s = slug(name);
        assert_eq!(slug(&s), s);
        assert_eq!(slug(&name.to_lowercase()), s);
        assert_eq!(s, slug_of_lowercase(&name.to_lowercase()));
    }
}
