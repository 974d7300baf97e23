use drf_parser::named_map::NamedMap;
use drf_parser::num::{parse_radix, parse_u8, parse_usize, push_decimal};
use drf_parser::text::{
    chars_of, find_in, is_whitespace, range_is, replace_chars, str_is, string_of_range,
    trim_range,
};

fn cs(s: &str) -> Vec<char> {
    s.chars().collect()
}

#[test]
fn chars_and_ranges() {
    assert_eq!(chars_of("aé b"), vec!['a', 'é', ' ', 'b']);
    let v = cs("hello world");
    assert_eq!(string_of_range(&v, 6, 11), "world");
    assert_eq!(string_of_range(&v, 3, 3), "");
    assert!(range_is(&v, 0, 5, "hello"));
    assert!(!range_is(&v, 0, 4, "hello"));
    assert!(str_is(&String::from("t"), "t"));
    assert!(!str_is(&String::from("t "), "t"));
}

#[test]
fn find_within_range() {
    let v = cs("a - b - c");
    assert_eq!(find_in(&v, 0, 9, &cs(" - ")), Some(1));
    assert_eq!(find_in(&v, 2, 9, &cs(" - ")), Some(3));
    assert_eq!(find_in(&v, 0, 3, &cs(" - ")), None);
    assert_eq!(find_in(&v, 4, 4, &cs("")), Some(0));
}

#[test]
fn trims_unicode_whitespace() {
    let v = cs("\u{3000} ab c\t\n");
    assert_eq!(trim_range(&v, 0, v.len()), (2, 6));
    let v = cs("   ");
    let (a, b) = trim_range(&v, 0, 3);
    assert_eq!(a, b);
    assert!(is_whitespace('\u{85}'));
    assert!(is_whitespace('\u{2029}'));
    assert!(!is_whitespace('x'));
    assert!(!is_whitespace('\u{200b}'));
}

#[test]
fn replaces_left_to_right() {
    assert_eq!(replace_chars(&cs("&amp;lt;"), "&amp;", "&"), cs("&lt;"));
    assert_eq!(replace_chars(&cs("aaa"), "aa", "b"), cs("ba"));
    assert_eq!(replace_chars(&cs("abc"), "x", "y"), cs("abc"));
}

#[test]
fn parses_numbers_like_from_str() {
    assert_eq!(parse_u8(&String::from("255")), Some(255));
    assert_eq!(parse_u8(&String::from("256")), None);
    assert_eq!(parse_u8(&String::from("+7")), Some(7));
    assert_eq!(parse_u8(&String::from("+")), None);
    assert_eq!(parse_u8(&String::from("")), None);
    assert_eq!(parse_u8(&String::from("-0")), None);
    assert_eq!(parse_u8(&String::from("007")), Some(7));
    assert_eq!(parse_usize(&String::from("18446744073709551615")), Some(usize::MAX));
    assert_eq!(parse_usize(&String::from("1 ")), None);
    let v = cs("#fF0a");
    assert_eq!(parse_radix(&v, 1, 3, 16, 255), Some(255));
    assert_eq!(parse_radix(&v, 3, 5, 16, 255), Some(10));
    assert_eq!(parse_radix(&v, 0, 2, 16, 255), None);
    assert_eq!(parse_radix(&cs("z"), 0, 1, 36, 100), Some(35));
    assert_eq!(parse_radix(&cs("100"), 0, 3, 10, 99), None);
}

#[test]
fn decimal_round_trip() {
    for n in [0usize, 9, 10, 4096, usize::MAX] {
        let mut out: Vec<char> = vec!['x'];
        push_decimal(n, &mut out);
        let text: String = out[1..].iter().collect();
        assert_eq!(text, n.to_string());
        assert_eq!(parse_usize(&text), Some(n));
    }
}

#[test]
fn named_map_keeps_first_position() {
    let mut m: NamedMap<usize> = NamedMap::new();
    m.insert(String::from("b"), 1);
    m.insert(String::from("a"), 2);
    m.insert(String::from("b"), 3);
    assert_eq!(m.len(), 2);
    assert_eq!(m.key_at(0), "b");
    assert_eq!(*m.value_at(0), 3);
    assert_eq!(m.index_of("a"), Some(1));
    assert_eq!(m.get("a"), Some(&2));
    assert_eq!(m.get("c"), None);
    assert!(m.contains_key("b"));
    let mut v = 10;
    m.swap_value(1, &mut v);
    assert_eq!(v, 2);
    assert_eq!(m.get("a"), Some(&10));
}

#[test]
fn trimming_twice_changes_nothing() {
    let v = cs(" \t a b \u{a0}");
    let (a, b) = trim_range(&v, 0, v.len());
    let once: Vec<char> = v[a..b].to_vec();
    assert_eq!(once, cs("a b"));
    let (c, d) = trim_range(&once, 0, once.len());
    assert_eq!((c, d), (0, once.len()));
}
