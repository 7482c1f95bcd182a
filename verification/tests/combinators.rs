use parsec::{char, digit, eof, satisfy, string, whitespaces, Parser};

#[test]
fn lib_many_parse_number() {
    let input = "1234";
    let parser = digit.many();
    assert_eq!(parser.parse(input), Some(("1234".to_owned(), "")));
}

#[test]
fn lib_many_parse_number_prefix() {
    let input = "1234abc";
    let parser = digit.many();
    assert_eq!(parser.parse(input), Some(("1234".to_owned(), "abc")));
    assert_eq!(
        Parser::<Vec<char>>::parse(&parser, input),
        Some(("1234".chars().collect(), "abc"))
    );
}

#[test]
fn lib_many_parse_number_fail() {
    let input = "abc";
    let parser = digit.many();
    assert_eq!(parser.parse(input), Some(("".to_owned(), "abc")));
}

#[test]
fn lib_many1_parse_number() {
    let input = "1abc";
    let parser = digit.many1();
    assert_eq!(parser.parse(input), Some(("1".to_owned(), "abc")));
}

#[test]
fn lib_many1_parse_number_fail() {
    let input = "abc";
    let parser = digit.many1();
    assert_eq!(Parser::<String>::parse(&parser, input), None);
    assert_eq!(parser.map(|v: String| v).parse(input), None);
}

#[test]
fn lib_choice_parse_alpha_numeric() {
    let input = "a1b2我c3";
    let alpha = satisfy(|c| c.is_ascii_alphabetic());
    let parser = alpha.choice(digit).many();
    assert_eq!(parser.parse(input), Some(("a1b2".to_owned(), "我c3")));
}

#[test]
fn lib_choice_parse_common_prefix() {
    let input = "cat";
    let parser = string("camel").choice(string("cat")).choice(string("dog"));
    assert_eq!(parser.parse(input), Some(("cat", "")));
}

#[test]
fn lib_whitespace_succeed() {
    let input = "   abc";
    let parser = whitespaces;
    assert_eq!(parser.parse(input), Some(((), "abc")));
}

#[test]
fn lib_and_then() {
    let input = "0a1b0a1b0b";
    let parser = satisfy(|c| c.is_digit(10))
        .map(|c| match c {
            '0' => 0,
            _ => 1,
        })
        .and_then(|v| {
            if v == 0 {
                satisfy({ |c| c == 'a' } as fn(char) -> bool)
            } else {
                satisfy({ |c| c == 'b' } as fn(char) -> bool)
            }
        })
        .many()
        .map(|v: String| v);
    assert_eq!(parser.parse(input), Some(("abab".to_owned(), "0b")));
}

#[test]
fn lib_count_succeed() {
    let input = "12345";
    let parser = satisfy(|c| c.is_digit(10)).count(5);
    assert_eq!(parser.parse(input), Some(("12345".to_owned(), "")));
}

#[test]
fn lib_count_fail() {
    let input = "1234";
    let parser = satisfy(|c| c.is_digit(10)).count(5);
    assert_eq!(Parser::<String>::parse(&parser, input), None);
    assert_eq!(parser.map(|v: String| v).parse(input), None);
}

#[test]
fn parentheses_surrounding_digits() {
    let input = "(1234)";
    let parser = char('(')
        .right(satisfy(|c| c.is_digit(10)).many())
        .left(char(')'));
    assert_eq!(parser.parse(input), Some(("1234".to_owned(), "")));
}

#[test]
fn digits_between_letters() {
    let input = "abba12234xyzz";
    let letters = satisfy(|c| c.is_ascii_alphabetic())
        .many()
        .map(|v: String| v);
    let digits = satisfy(|c| c.is_digit(10)).many().map(|v: String| v);
    let parser = digits.between(letters.clone(), letters);
    assert_eq!(parser.parse(input), Some(("12234".to_owned(), "")));
}

#[test]
fn look_ahead_succeed() {
    let input = "1234";
    let parser = char('1').look_ahead();
    assert_eq!(parser.parse(input), Some(('1', "1234")));
}

#[test]
fn look_ahead_fail() {
    let input = "1234";
    let parser = char('4').look_ahead();
    assert_eq!(parser.parse(input), None);
}

#[test]
fn valid_parentheses() {
    fn s(input: &str) -> Option<((), &str)> {
        eof.choice(
            string("()")
                .map(|_| ())
                .choice(s.between(char('('), char(')')))
                .many()
                .map(|_| ()),
        )
        .parse(input)
    }

    let parser = s.right(eof);
    assert_eq!(parser.parse(""), Some(((), "")));
    assert_eq!(parser.parse("((()))"), Some(((), "")));
    assert_eq!(parser.parse("((()))()"), Some(((), "")));
    assert_eq!(parser.parse("((()))(()(()))"), Some(((), "")));
    assert_eq!(parser.parse("((()))(()(())()()())"), Some(((), "")));
    assert_eq!(
        parser.parse("((()))(()(()))".repeat(1000).as_str()),
        Some(((), ""))
    );
    assert_eq!(parser.parse(")(("), None);
    assert_eq!(parser.parse("((())"), None);
    assert_eq!(parser.parse("(()"), None);
}
