use mcp_deep_research::text::{chars_of, find_chars, trim};

#[test]
fn trim_agrees_with_str_trim() {
    let spaces: Vec<char> = (0u32..0x3100).filter_map(char::from_u32).filter(|c| c.is_whitespace()).collect();
    for &c in &spaces {
        let s = format!("{c}{c}a {c} b{c}");
        assert_eq!(trim(&s), s.trim(), "{:?}", c as u32);
    }
    for s in ["", "   ", "\u{200b}x\u{200b}", "x", " \u{3000}y\u{85}"] {
        assert_eq!(trim(s), s.trim());
    }
}

#[test]
fn find_gives_the_first_occurrence() {
    let hay = chars_of("abcabc");
    assert_eq!(find_chars(&hay, &chars_of("ca")), Some(2));
    assert_eq!(find_chars(&hay, &chars_of("bc")), Some(1));
    assert_eq!(find_chars(&hay, &chars_of("x")), None);
    assert_eq!(find_chars(&hay, &chars_of("")), Some(0));
    assert_eq!(find_chars(&chars_of("ab"), &chars_of("abc")), None);
}
