use parsec::{any, char, eof, epsilon, none_of, one_of, satisfy, string, Any, Eof, Parser};

#[test]
fn lib_any_parse_non_empty() {
    let input = "abc";
    let parser = Any;
    assert_eq!(parser.parse(input), Some(('a', "bc")));
}

#[test]
fn lib_any_parse_empty() {
    let input = "";
    let parser = Any;
    assert_eq!(parser.parse(input), None);
}

#[test]
fn lib_eof_parse_empty() {
    let input = "";
    let parser = Eof;
    assert_eq!(parser.parse(input), Some(((), "")));
}

#[test]
fn lib_eof_parse_non_empty() {
    let input = "a";
    let parser = Eof;
    assert_eq!(parser.parse(input), None);
}

#[test]
fn lib_satisfy_parse_fail() {
    let input = "abc";
    let parser = satisfy(|c| c.is_ascii_uppercase());
    assert_eq!(parser.parse(input), None);
}

#[test]
fn lib_satisfy_parse_succeed() {
    let input = "Abc";
    let parser = satisfy(|c| c.is_ascii_uppercase());
    assert_eq!(parser.parse(input), Some(('A', "bc")));
}

#[test]
fn lib_satisfy_parse_digit() {
    let input = "1bc";
    let parser = satisfy(|c| c.is_digit(10));
    assert_eq!(parser.parse(input), Some(('1', "bc")));
}

#[test]
fn lib_satisfy_parse_non_digit() {
    let input = "abc";
    let parser = satisfy(|c| c.is_digit(10));
    assert_eq!(parser.parse(input), None);
}

#[test]
fn lib_char_parse_char() {
    let input = "abc";
    let parser = char('a');
    let _ = 1 as char;
    assert_eq!(parser.parse(input), Some(('a', "bc")));
}

#[test]
fn lib_char_parse_fail() {
    let input = "abc";
    let parser = char('b');
    assert_eq!(parser.parse(input), None);
}

#[test]
fn lib_one_of_parse_succeed() {
    let input = "c";
    let parser = one_of(&['a', 'b', 'c']);
    assert_eq!(parser.parse(input), Some(('c', "")));
}

#[test]
fn lib_one_of_parse_fail() {
    let input = "c";
    let parser = one_of(&['x', 'y', 'z']);
    assert_eq!(parser.parse(input), None);
}

#[test]
fn lib_none_of_parse_succeed() {
    let input = "c";
    let parser = none_of(&['x', 'y', 'z']);
    assert_eq!(parser.parse(input), Some(('c', "")));
}

#[test]
fn lib_none_of_parse_fail() {
    let input = "c";
    let parser = none_of(&['a', 'b', 'c']);
    assert_eq!(parser.parse(input), None);
}

#[test]
fn lib_string_parse_succeed() {
    let input = "prefixaaaa";
    let parser = string("prefix");
    assert_eq!(parser.parse(input), Some(("prefix", "aaaa")));
}

#[test]
fn epsilon_empty_string() {
    let input = "";
    let parser = epsilon;
    assert_eq!(parser.parse(input), Some(((), "")));
}

#[test]
fn epsilon_non_empty_string() {
    let input = "123";
    let parser = epsilon;
    assert_eq!(parser.parse(input), Some(((), "123")));
}

#[test]
fn closure_parser() {
    let parser: fn(&str) -> Option<(char, &str)> = |input: &str| -> Option<(char, &str)> {
        if let Some(c) = input.chars().next() {
            Some((c, input))
        } else {
            None
        }
    };
    assert_eq!(parser.parse("abc"), Some(('a', "abc")));
}

#[test]
fn any_and_eof_as_functions() {
    assert_eq!(any("xy"), Some(('x', "y")));
    assert_eq!(any(""), None);
    assert_eq!(eof(""), Some(((), "")));
    assert_eq!(eof("x"), None);
}
