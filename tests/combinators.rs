use jsonparser::parser::{fmap, left, many1, map2, or, right, string_p, unit_p, while_p};
use jsonparser::{ParseResult, Parser};

#[test]
fn test_string_p_success() {
    let p1 = string_p("hel".to_owned());
    assert_eq!(
        p1.parse("hello".to_owned()),
        Some(ParseResult {
            value: "hel".to_owned(),
            s: "lo".to_owned(),
        })
    );
}

#[test]
fn test_string_p_fail() {
    let p = string_p("fre".to_owned());
    assert!(p.parse("friend".to_owned()).is_none());
}

#[test]
fn test_constant_p_int() {
    let p = unit_p(1);
    assert_eq!(
        p.parse("hello".to_owned()),
        Some(ParseResult {
            value: 1,
            s: "hello".to_owned(),
        })
    );
}

#[test]
fn test_constant_p_string() {
    let p = unit_p("world".to_owned());
    assert_eq!(
        p.parse("hello".to_owned()),
        Some(ParseResult {
            value: "world".to_owned(),
            s: "hello".to_owned(),
        })
    );
}

#[test]
fn test_map2() {
    let pa = string_p("hello".to_owned());
    let pb = string_p("world".to_owned());
    let f = |a: String, b: String| a.clone() + &b;
    let pc = map2(pa, pb, f);
    assert_eq!(
        pc.parse("helloworldfriend".to_owned()),
        Some(ParseResult {
            value: "helloworld".to_owned(),
            s: "friend".to_owned(),
        })
    );
}

#[test]
fn test_or() {
    let pa = string_p("hello".to_owned());
    let pb = string_p("world".to_owned());
    let pc = or(pa, pb);
    assert_eq!(
        pc.parse("hello".to_owned()),
        Some(ParseResult {
            value: "hello".to_owned(),
            s: "".to_owned(),
        })
    );
    assert_eq!(
        pc.parse("world".to_owned()),
        Some(ParseResult {
            value: "world".to_owned(),
            s: "".to_owned(),
        })
    );
}

#[test]
fn test_fmap() {
    let pa = string_p("hello".to_owned());
    let pb = fmap(pa, |s| s.len());
    assert_eq!(
        pb.parse("hello".to_owned()),
        Some(ParseResult {
            value: 5,
            s: "".to_owned(),
        })
    );
}

#[test]
fn test_while_p() {
    let pa = while_p(|&c| c == 'h');
    assert_eq!(
        pa.parse("hhhello".to_owned()),
        Some(ParseResult {
            value: "hhh".to_owned(),
            s: "ello".to_owned(),
        })
    );
}

#[test]
fn test_many1() {
    let pa = string_p("a".to_owned());
    let pb = many1(pa);
    if let Some(ParseResult { value, s }) = pb.parse("aaaaabbbb".to_owned()) {
        assert_eq!(value.join(""), "aaaaa");
        assert_eq!(s, "bbbb".to_owned());
    } else {
        panic!("parse failed!");
    }
}

#[test]
fn literal_followed_by_text_leaves_that_text() {
    let p = string_p("ab".to_owned());
    assert_eq!(
        p.parse("abcd".to_owned()),
        Some(ParseResult {
            value: "ab".to_owned(),
            s: "cd".to_owned(),
        })
    );
    assert_eq!(p.parse("a".to_owned()), None);
    assert_eq!(p.parse("".to_owned()), None);
    assert_eq!(p.parse("Ab".to_owned()), None);
}

#[test]
fn empty_literal_always_matches() {
    let p = string_p("".to_owned());
    assert_eq!(
        p.parse("xyz".to_owned()),
        Some(ParseResult {
            value: "".to_owned(),
            s: "xyz".to_owned(),
        })
    );
}

#[test]
fn literal_with_multibyte_characters() {
    let p = string_p("é".to_owned());
    assert_eq!(
        p.parse("éa".to_owned()),
        Some(ParseResult {
            value: "é".to_owned(),
            s: "a".to_owned(),
        })
    );
}

#[test]
fn span_is_maximal_and_reconstructs_input() {
    let p = while_p(|c: &char| c.is_ascii_digit());
    let r = p.parse("12ab3".to_owned()).unwrap();
    assert_eq!(r.value, "12");
    assert_eq!(r.s, "ab3");
    assert_eq!(format!("{}{}", r.value, r.s), "12ab3");
}

#[test]
fn span_matching_nothing_still_succeeds() {
    let p = while_p(|&c| c == 'z');
    assert_eq!(
        p.parse("abc".to_owned()),
        Some(ParseResult {
            value: "".to_owned(),
            s: "abc".to_owned(),
        })
    );
    assert_eq!(
        p.parse("".to_owned()),
        Some(ParseResult {
            value: "".to_owned(),
            s: "".to_owned(),
        })
    );
}

#[test]
fn span_over_whole_input_with_multibyte_characters() {
    let p = while_p(|&c| c != '!');
    assert_eq!(
        p.parse("ñü!x".to_owned()),
        Some(ParseResult {
            value: "ñü".to_owned(),
            s: "!x".to_owned(),
        })
    );
}

#[test]
fn or_prefers_left_when_both_match() {
    let pc = or(string_p("ab".to_owned()), string_p("abc".to_owned()));
    assert_eq!(
        pc.parse("abcd".to_owned()),
        Some(ParseResult {
            value: "ab".to_owned(),
            s: "cd".to_owned(),
        })
    );
    let pd = or(string_p("x".to_owned()), string_p("y".to_owned()));
    assert_eq!(pd.parse("z".to_owned()), None);
}

#[test]
fn many_collects_each_value() {
    let pb = many1(string_p("a".to_owned()));
    assert_eq!(
        pb.parse("aaaaabbbb".to_owned()),
        Some(ParseResult {
            value: vec!["a".to_owned(); 5],
            s: "bbbb".to_owned(),
        })
    );
}

#[test]
fn many_with_no_match_is_empty() {
    let pb = many1(string_p("a".to_owned()));
    assert_eq!(
        pb.parse("bbbb".to_owned()),
        Some(ParseResult {
            value: Vec::<String>::new(),
            s: "bbbb".to_owned(),
        })
    );
}

#[test]
fn many_stops_on_a_step_that_consumes_nothing() {
    let pb = many1(unit_p(7u8));
    assert_eq!(
        pb.parse("abc".to_owned()),
        Some(ParseResult {
            value: Vec::<u8>::new(),
            s: "abc".to_owned(),
        })
    );
}

#[test]
fn left_and_right_keep_one_side() {
    let l = left(string_p("a".to_owned()), string_p("b".to_owned()));
    assert_eq!(
        l.parse("abc".to_owned()),
        Some(ParseResult {
            value: "a".to_owned(),
            s: "c".to_owned(),
        })
    );
    assert_eq!(l.parse("ac".to_owned()), None);
    let r = right(string_p("a".to_owned()), string_p("b".to_owned()));
    assert_eq!(
        r.parse("abc".to_owned()),
        Some(ParseResult {
            value: "b".to_owned(),
            s: "c".to_owned(),
        })
    );
    assert_eq!(r.parse("bc".to_owned()), None);
}

#[test]
fn map2_fails_when_second_fails() {
    let pc = map2(
        string_p("hello".to_owned()),
        string_p("world".to_owned()),
        |a: String, b: String| a + &b,
    );
    assert_eq!(pc.parse("hellofriend".to_owned()), None);
}
