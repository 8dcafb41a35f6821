use multi_key_db::component::{Component, Textual};
use multi_key_db::decimal::{decimal_text, parse_decimal};
use multi_key_db::text::{append_text, chars_of, split_text};

#[test]
fn characters_of_a_text() {
    assert_eq!(vec!['a', 'é', '→', 'z'], chars_of("aé→z"));
    assert!(chars_of("").is_empty());
}

#[test]
fn append_text_appends() {
    let mut out = String::from("ab");
    append_text(&mut out, "cd→");
    assert_eq!("abcd→", out);
    append_text(&mut out, "");
    assert_eq!("abcd→", out);
}

#[test]
fn split_text_gives_the_pieces() {
    assert_eq!(vec!["a", "b", "c"], split_text("a.b.c", '.'));
    assert_eq!(vec![""], split_text("", '.'));
    assert_eq!(vec!["", ""], split_text(".", '.'));
    assert_eq!(vec!["", "a", "", "b", ""], split_text(".a..b.", '.'));
    assert_eq!(vec!["a.b.c"], split_text("a.b.c", '/'));
    assert_eq!(vec!["a", "b"], split_text("a→b", '→'));
}

#[test]
fn decimal_text_of_numbers() {
    assert_eq!("0", decimal_text(0));
    assert_eq!("7", decimal_text(7));
    assert_eq!("10", decimal_text(10));
    assert_eq!("1234567890", decimal_text(1234567890));
    assert_eq!(usize::MAX.to_string(), decimal_text(usize::MAX));
}

#[test]
fn parse_decimal_of_texts() {
    assert_eq!(Some(0), parse_decimal("0"));
    assert_eq!(Some(0), parse_decimal("000"));
    assert_eq!(Some(42), parse_decimal("42"));
    assert_eq!(Some(42), parse_decimal("+42"));
    assert_eq!(Some(42), parse_decimal("0042"));
    assert_eq!(Some(usize::MAX), parse_decimal(&usize::MAX.to_string()));
    for text in ["", "+", "-1", "+-1", "++1", "4 2", "42 ", " 42", "4_2", "4.2", "forty", "４２"] {
        assert_eq!(None, parse_decimal(text), "{:?}", text);
        assert_eq!(text.parse::<usize>().ok(), parse_decimal(text), "{:?}", text);
    }
    let too_large = format!("{}0", usize::MAX);
    assert_eq!(None, parse_decimal(&too_large));
    let just_too_large = format!("{}", usize::MAX as u128 + 1);
    assert_eq!(None, parse_decimal(&just_too_large));
}

#[test]
fn decimal_agrees_with_the_standard_library() {
    for n in [0usize, 1, 9, 10, 11, 99, 100, 101, 65535, 4294967295, usize::MAX / 10, usize::MAX - 1] {
        assert_eq!(n.to_string(), decimal_text(n));
        assert_eq!(Some(n), parse_decimal(&n.to_string()));
        assert_eq!(Some(n), parse_decimal(&format!("+{}", n)));
        assert_eq!(Some(n), parse_decimal(&format!("00{}", n)));
    }
}

#[test]
fn text_of_strings_and_numbers() {
    assert_eq!("abc", "abc".to_string().to_text());
    assert_eq!(Some("abc".to_string()), String::from_text("abc"));
    assert_eq!(Some("".to_string()), String::from_text(""));
    assert_eq!("17", 17usize.to_text());
    assert_eq!(Some(17), usize::from_text("17"));
    assert_eq!(None, usize::from_text("seventeen"));
}

#[test]
fn order_of_strings_is_by_code_point() {
    let s = |t: &str| t.to_string();
    assert!(s("a").precedes(&s("b")));
    assert!(!s("b").precedes(&s("a")));
    assert!(!s("a").precedes(&s("a")));
    assert!(s("").precedes(&s("a")));
    assert!(!s("a").precedes(&s("")));
    assert!(s("a").precedes(&s("aa")));
    assert!(s("Z").precedes(&s("a")));
    assert!(s("10").precedes(&s("9")));
    assert!(s("z").precedes(&s("é")));
    assert!(s("é").precedes(&s("→")));
    assert!(s("\u{ffff}").precedes(&s("\u{10000}")));
    for (a, b) in [("a", "b"), ("ab", "a"), ("", ""), ("é", "z"), ("\u{ffff}", "\u{10000}")] {
        assert_eq!(s(a) < s(b), s(a).precedes(&s(b)));
        assert_eq!(s(b) < s(a), s(b).precedes(&s(a)));
        assert_eq!(a == b, s(a).same(&s(b)));
    }
}

#[test]
fn order_of_numbers() {
    assert!(9usize.precedes(&10));
    assert!(!10usize.precedes(&9));
    assert!(!10usize.precedes(&10));
    assert!(10usize.same(&10));
    assert!(!10usize.same(&9));
}

#[test]
fn duplicate_is_a_copy() {
    assert_eq!("abc", "abc".to_string().duplicate());
    assert_eq!(5, 5usize.duplicate());
}

#[test]
fn split_text_agrees_with_the_standard_library() {
    for text in ["", ".", "..", "a", "a.", ".a", "a.b", "a..b", "a.b.c.", "→.é", "...a...b..."] {
        let expected: Vec<String> = text.split('.').map(|piece| piece.to_string()).collect();
        assert_eq!(expected, split_text(text, '.'), "{:?}", text);
    }
}
