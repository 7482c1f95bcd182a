use parsec::parsec::{char, none_of, one_of, satisfy, string, whitespace, Parser, Satisfy};
use parsec::{Any, Eof};

#[test]
fn parsec_any_parse_non_empty() {
    let input = "abc";
    let parser = Any;
    assert_eq!(parser.parse(input), Some(('a', "bc")));
}

#[test]
fn parsec_any_parse_empty() {
    let input = "";
    let parser = Any;
    assert_eq!(parser.parse(input), None);
}

#[test]
fn parsec_eof_parse_empty() {
    let input = "";
    let parser = Eof;
    assert_eq!(parser.parse(input), Some(((), "")));
}

#[test]
fn parsec_eof_parse_non_empty() {
    let input = "a";
    let parser = Eof;
    assert_eq!(parser.parse(input), None);
}

#[test]
fn parsec_satisfy_parse_fail() {
    let input = "abc";
    let parser = Satisfy(|c: &char| c.is_ascii_uppercase());
    assert_eq!(parser.parse(input), None);
}

#[test]
fn parsec_satisfy_parse_succeed() {
    let input = "Abc";
    let parser = satisfy(|c| c.is_ascii_uppercase());
    assert_eq!(parser.parse(input), Some(('A', "bc")));
}

#[test]
fn parsec_satisfy_parse_digit() {
    let input = "1bc";
    let parser = Satisfy(|c: &char| c.is_digit(10));
    assert_eq!(parser.parse(input), Some(('1', "bc")));
}

#[test]
fn parsec_satisfy_parse_non_digit() {
    let input = "abc";
    let parser = Satisfy(|c: &char| c.is_digit(10));
    assert_eq!(parser.parse(input), None);
}

#[test]
fn parsec_char_parse_char() {
    let input = "abc";
    let parser = char('a');
    let _ = 1 as char;
    assert_eq!(parser.parse(input), Some(('a', "bc")));
}

#[test]
fn parsec_char_parse_fail() {
    let input = "abc";
    let parser = char('b');
    assert_eq!(parser.parse(input), None);
}

#[test]
fn parsec_one_of_parse_succeed() {
    let input = "c";
    let parser = one_of(&['a', 'b', 'c']);
    assert_eq!(parser.parse(input), Some(('c', "")));
}

#[test]
fn parsec_one_of_parse_fail() {
    let input = "c";
    let parser = one_of(&['x', 'y', 'z']);
    assert_eq!(parser.parse(input), None);
}

#[test]
fn parsec_none_of_parse_succeed() {
    let input = "c";
    let parser = none_of(&['x', 'y', 'z']);
    assert_eq!(parser.parse(input), Some(('c', "")));
}

#[test]
fn parsec_none_of_parse_fail() {
    let input = "c";
    let parser = none_of(&['a', 'b', 'c']);
    assert_eq!(parser.parse(input), None);
}

#[test]
fn parsec_string_parse_succeed() {
    let input = "prefixaaaa";
    let parser = string("prefix");
    assert_eq!(parser.parse(input), Some(("prefix", "aaaa")));
}

#[test]
fn parsec_many_parse_number() {
    let input = "1234";
    let digit = satisfy(|c| c.is_digit(10));
    let parser = digit.many();
    assert_eq!(parser.parse(input), Some(("1234".to_owned(), "")));
}

#[test]
fn parsec_many_parse_number_prefix() {
    let input = "1234abc";
    let digit = satisfy(|c| c.is_digit(10));
    let parser = digit.many();
    assert_eq!(parser.parse(input), Some(("1234".to_owned(), "abc")));
    assert_eq!(
        Parser::<Vec<char>>::parse(&parser, input),
        Some(("1234".chars().collect(), "abc"))
    );
}

#[test]
fn parsec_many_parse_number_fail() {
    let input = "abc";
    let digit = satisfy(|c| c.is_digit(10));
    let parser = digit.many();
    assert_eq!(parser.parse(input), Some(("".to_owned(), "abc")));
}

#[test]
fn parsec_many1_parse_number() {
    let input = "1abc";
    let digit = satisfy(|c| c.is_digit(10));
    let parser = digit.many1();
    assert_eq!(parser.parse(input), Some(("1".to_owned(), "abc")));
}

#[test]
fn parsec_many1_parse_number_fail() {
    let input = "abc";
    let digit = satisfy(|c| c.is_digit(10));
    let parser = digit.many1();
    assert_eq!(Parser::<String>::parse(&parser, input), None);
    assert_eq!(parser.map(|v: String| v).parse(input), None);
}

#[test]
fn parsec_choice_parse_alpha_numeric() {
    let input = "a1b2我c3";
    let alpha = satisfy(|c| c.is_ascii_alphabetic());
    let digit = satisfy(|c| c.is_ascii_digit());
    let parser = alpha.choice(digit).many();
    assert_eq!(parser.parse(input), Some(("a1b2".to_owned(), "我c3")));
}

#[test]
fn parsec_choice_parse_common_prefix() {
    let input = "cat";
    let parser = string("camel").choice(string("cat")).choice(string("dog"));
    assert_eq!(parser.parse(input), Some(("cat", "")));
}

#[test]
fn parsec_whitespace_succeed() {
    let input = "   abc";
    let parser = whitespace();
    assert_eq!(parser.parse(input), Some(((), "abc")));
}

#[test]
fn parsec_and_then() {
    let input = "0a1b0a1b0b";
    let parser = satisfy(|c| c.is_digit(10))
        .map(|c| match c {
            '0' => 0,
            _ => 1,
        })
        .and_then(|v| if v == 0 { char('a') } else { char('b') })
        .many();
    assert_eq!(parser.parse(input), Some(("abab".to_owned(), "0b")));
}

#[test]
fn parsec_count_succeed() {
    let input = "12345";
    let parser = satisfy(|c| c.is_digit(10)).count(5);
    assert_eq!(parser.parse(input), Some(("12345".to_owned(), "")));
}

#[test]
fn parsec_count_fail() {
    let input = "1234";
    let parser = satisfy(|c| c.is_digit(10)).count(5);
    assert_eq!(Parser::<String>::parse(&parser, input), None);
    assert_eq!(parser.map(|v: String| v).parse(input), None);
}
