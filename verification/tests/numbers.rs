use parsec::{char, decimal, integer, string, Parser};

#[test]
fn parse_decimal() {
    let parser = decimal;
    assert_eq!(parser.parse("1234"), Some((1234, "")));
    assert_eq!(parser.parse("0"), Some((0, "")));
    assert_eq!(parser.parse("1234abc"), Some((1234, "abc")));
    assert_eq!(parser.parse("1 23"), Some((1, " 23")));
}

#[test]
fn parse_integer() {
    let parser = integer.lexeme();
    assert_eq!(parser.parse("+1234"), Some((1234, "")));
    assert_eq!(parser.parse("+  1234"), Some((1234, "")));
    assert_eq!(parser.parse("1234  "), Some((1234, "")));
    assert_eq!(parser.parse("-1234"), Some((-1234, "")));
    assert_eq!(parser.parse("-  1234"), Some((-1234, "")));
    assert_eq!(parser.parse("12 34"), Some((12, "34")));
    assert_eq!(parser.parse("+ 12 34"), Some((12, "34")));
    assert_eq!(parser.parse("- 12 34"), Some((-12, "34")));
    assert_eq!(parser.parse("a12 34"), None);
}

#[test]
fn comma_separated_integers() {
    let parser = integer.lexeme().separated_by(char(',').lexeme());
    assert_eq!(parser.parse("1,2,3"), Some((vec![1, 2, 3], "")));
    assert_eq!(parser.parse("1,2,3,"), Some((vec![1, 2, 3], ",")));
    assert_eq!(parser.parse("+1, -2, 3"), Some((vec![1, -2, 3], "")));
    assert_eq!(parser.parse("+ 1 , - 2 , 3 "), Some((vec![1, -2, 3], "")));
}

#[test]
fn rust_vector_macro() {
    let list = integer.lexeme().separated_end_by(char(',').lexeme());
    let parser = list.between(string("vec![").lexeme(), string("]"));
    assert_eq!(parser.parse("vec![1,2,3]"), Some((vec![1, 2, 3], "")));
    assert_eq!(parser.parse("vec![ +1, -2, 3,]"), Some((vec![1, -2, 3], "")));
    assert_eq!(parser.parse("vec![ 1 , 2 , 3 ]"), Some((vec![1, 2, 3], "")));
    assert_eq!(parser.parse("vec![ 1 , 2 , 3 , ]"), Some((vec![1, 2, 3], "")));
}

#[test]
fn evaluate() {
    let number = integer.lexeme().map(|v: i64| v);

    fn add(v: i64, w: i64) -> i64 {
        v + w
    }

    fn subtract(v: i64, w: i64) -> i64 {
        v - w
    }

    let operator = char('+')
        .lexeme()
        .map(|_| add as fn(i64, i64) -> i64)
        .choice(char('-').lexeme().map(|_| subtract as fn(i64, i64) -> i64));
    let parser = number.clone().chain_left1(operator.clone());
    assert_eq!(parser.parse("+1"), Some((1, "")));
    assert_eq!(parser.parse("+1+2-3"), Some((0, "")));
    assert_eq!(parser.parse("+ 1 + 2 - 3"), Some((0, "")));
    assert_eq!(parser.parse("- 1 + - 2 - + 3"), Some((-6, "")));
    assert_eq!(parser.parse("+ 1 +-+3"), Some((1, "+-+3")));

    let parser = number.clone().chain_right1(operator.clone());
    assert_eq!(parser.parse("-1-2-3"), Some((0, "")));
}
