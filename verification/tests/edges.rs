use parsec::list::list;
use parsec::repeat::{repeat, repeat_times};
use parsec::{
    alphanumeric, any, char, converted, decimal, digit, digits, eof, epsilon, function, gap,
    hex_digit, integer, lower, newline, none_of, one_of, satisfy, sign, signed_digits, string,
    symbol, tab, upper, whitespace, whitespaces, Char, Choice, Epsilon, Parser, Str, Whitespaces,
};

fn subtract(v: i64, w: i64) -> i64 {
    v - w
}

#[test]
fn any_steps_over_a_character_of_several_bytes() {
    assert_eq!(any("我c3"), Some(('我', "c3")));
    assert_eq!(any("é"), Some(('é', "")));
}

#[test]
fn epsilon_as_a_value() {
    assert_eq!(Epsilon.parse("abc"), Some(((), "abc")));
    assert_eq!(epsilon(""), Some(((), "")));
}

#[test]
fn satisfy_on_empty_input() {
    let parser = satisfy(|_| true);
    assert_eq!(parser.parse(""), None);
}

#[test]
fn char_on_empty_input() {
    assert_eq!(Char('a').parse(""), None);
    assert_eq!(char('我').parse("我们"), Some(('我', "们")));
}

#[test]
fn string_mismatch_and_short_input() {
    assert_eq!(string("prefix").parse("pre"), None);
    assert_eq!(string("prefix").parse("prefiXaaaa"), None);
    assert_eq!(string("prefix").parse(""), None);
    assert_eq!(string("").parse("abc"), Some(("", "abc")));
    assert_eq!(string("").parse(""), Some(("", "")));
    assert_eq!(Str("ab").parse("ab"), Some(("ab", "")));
}

#[test]
fn string_compares_character_by_character() {
    assert_eq!(string("我们").parse("我们好"), Some(("我们", "好")));
    assert_eq!(string("我们").parse("我好"), None);
    assert_eq!(string("é").parse("e"), None);
}

#[test]
fn whitespace_classes() {
    assert_eq!(whitespace(" a"), Some((' ', "a")));
    assert_eq!(whitespace("\u{3000}a"), Some(('\u{3000}', "a")));
    assert_eq!(whitespace("a "), None);
    assert_eq!(whitespace(""), None);
    assert_eq!(whitespaces(" \t\n x "), Some(((), "x ")));
    assert_eq!(whitespaces("x"), Some(((), "x")));
    assert_eq!(whitespaces(""), Some(((), "")));
    assert_eq!(Whitespaces.parse("   "), Some(((), "")));
    assert_eq!(gap("  x"), Some(((), "x")));
    assert_eq!(gap("x"), None);
    assert_eq!(gap(""), None);
}

#[test]
fn line_feed_and_tab() {
    assert_eq!(newline("\nx"), Some(('\n', "x")));
    assert_eq!(newline("\tx"), None);
    assert_eq!(tab("\tx"), Some(('\t', "x")));
    assert_eq!(tab(" x"), None);
}

#[test]
fn letter_classes() {
    assert_eq!(upper("Ab"), Some(('A', "b")));
    assert_eq!(upper("ab"), None);
    assert_eq!(upper("Éb"), Some(('É', "b")));
    assert_eq!(lower("ab"), Some(('a', "b")));
    assert_eq!(lower("Ab"), None);
    assert_eq!(alphanumeric("a1"), Some(('a', "1")));
    assert_eq!(alphanumeric("1a"), Some(('1', "a")));
    assert_eq!(alphanumeric("我"), Some(('我', "")));
    assert_eq!(alphanumeric("_a"), None);
}

#[test]
fn digit_classes() {
    assert_eq!(digit("0x"), Some(('0', "x")));
    assert_eq!(digit("9"), Some(('9', "")));
    assert_eq!(digit("/"), None);
    assert_eq!(digit(":"), None);
    assert_eq!(digit("a"), None);
    assert_eq!(digit("٣"), None);
    assert_eq!(hex_digit("a"), Some(('a', "")));
    assert_eq!(hex_digit("F1"), Some(('F', "1")));
    assert_eq!(hex_digit("7"), Some(('7', "")));
    assert_eq!(hex_digit("g"), None);
    assert_eq!(hex_digit("G"), None);
    assert_eq!(hex_digit("@"), None);
    assert_eq!(hex_digit("`"), None);
}

#[test]
fn one_of_and_none_of_on_empty_input_and_empty_set() {
    assert_eq!(one_of(&['a']).parse(""), None);
    assert_eq!(none_of(&['a']).parse(""), None);
    assert_eq!(one_of(&[]).parse("a"), None);
    assert_eq!(none_of(&[]).parse("a"), Some(('a', "")));
}

#[test]
fn left_and_right_fail_as_one() {
    let parser = char('a').left(char('b'));
    assert_eq!(parser.parse("abc"), Some(('a', "c")));
    assert_eq!(parser.parse("acb"), None);
    assert_eq!(parser.parse("bbc"), None);
    let parser = char('a').right(char('b'));
    assert_eq!(parser.parse("abc"), Some(('b', "c")));
    assert_eq!(parser.parse("acb"), None);
    assert_eq!(parser.parse(""), None);
}

#[test]
fn between_keeps_the_middle() {
    let parser = digit.between(char('['), char(']'));
    assert_eq!(parser.parse("[5]x"), Some(('5', "x")));
    assert_eq!(parser.parse("[5x"), None);
    assert_eq!(parser.parse("5]"), None);
    assert_eq!(parser.parse("[]"), None);
}

#[test]
fn lexeme_consumes_the_whitespace_behind() {
    let parser = char('a').lexeme();
    assert_eq!(parser.parse("a   b"), Some(('a', "b")));
    assert_eq!(parser.parse("ab"), Some(('a', "b")));
    assert_eq!(parser.parse(" a"), None);
}

#[test]
fn symbol_is_a_string_with_the_whitespace_behind() {
    let parser = symbol("let");
    assert_eq!(parser.parse("let  x"), Some(("let", "x")));
    assert_eq!(parser.parse("letx"), Some(("let", "x")));
    assert_eq!(parser.parse("le t"), None);
    assert_eq!(parser.clone().parse("let"), Some(("let", "")));
}

#[test]
fn look_ahead_consumes_nothing() {
    let parser = string("ab").look_ahead();
    assert_eq!(parser.parse("abc"), Some(("ab", "abc")));
    assert_eq!(parser.parse("acb"), None);
}

#[test]
fn optional_always_succeeds() {
    let parser = char('a').optional();
    assert_eq!(parser.parse("ab"), Some(((), "b")));
    assert_eq!(parser.parse("ba"), Some(((), "ba")));
    assert_eq!(parser.parse(""), Some(((), "")));
}

#[test]
fn map_leaves_a_failure_alone() {
    let parser = digit.map(|c: char| c == '7');
    assert_eq!(parser.parse("7x"), Some((true, "x")));
    assert_eq!(parser.parse("8x"), Some((false, "x")));
    assert_eq!(parser.parse("x7"), None);
}

#[test]
fn and_then_chooses_by_the_value() {
    let parser = digit.and_then(|c: char| if c == '0' { Char('a') } else { Char('b') });
    assert_eq!(parser.parse("0ax"), Some(('a', "x")));
    assert_eq!(parser.parse("1bx"), Some(('b', "x")));
    assert_eq!(parser.parse("0bx"), None);
    assert_eq!(parser.parse("ax"), None);
}

#[test]
fn function_wraps_a_rule() {
    fn rule(input: &str) -> Option<(char, &str)> {
        Choice(Char('x'), Char('y')).parse(input)
    }
    let parser = function(rule);
    assert_eq!(parser.parse("yz"), Some(('y', "z")));
    assert_eq!(parser.parse("zy"), None);
    let parser = function(rule).many();
    assert_eq!(parser.parse("xyxz"), Some(("xyx".to_owned(), "z")));
}

#[test]
fn separated_by_gives_back_a_separator_without_an_element() {
    let parser = digit.separated_by(char(','));
    assert_eq!(parser.parse("1,2,x"), Some((vec!['1', '2'], ",x")));
    assert_eq!(parser.parse("1"), Some((vec!['1'], "")));
    assert_eq!(parser.parse("1,"), Some((vec!['1'], ",")));
    assert_eq!(parser.parse(""), Some((vec![], "")));
    assert_eq!(parser.parse(",1"), Some((vec![], ",1")));
}

#[test]
fn separated_by_gives_back_a_separator_of_several_characters() {
    let parser = digit.separated_by(string("--"));
    assert_eq!(parser.parse("1--2--x"), Some((vec!['1', '2'], "--x")));
    assert_eq!(parser.parse("1--2-3"), Some((vec!['1', '2'], "-3")));
}

#[test]
fn separated_end_by_takes_the_separator_at_the_end() {
    let parser = digit.separated_end_by(char(','));
    assert_eq!(parser.parse("1,2,x"), Some((vec!['1', '2'], "x")));
    assert_eq!(parser.parse("1,2"), Some((vec!['1', '2'], "")));
    assert_eq!(parser.parse("1,2,"), Some((vec!['1', '2'], "")));
    assert_eq!(parser.parse("1,,2"), Some((vec!['1'], ",2")));
    assert_eq!(parser.parse(""), Some((vec![], "")));
    assert_eq!(parser.parse(",1"), Some((vec![], ",1")));
}

#[test]
fn end_by_wants_a_separator_behind_each_element() {
    let parser = digit.end_by(char(';'));
    let out: Option<(Vec<char>, &str)> = parser.parse("1;2;3");
    assert_eq!(out, Some((vec!['1', '2'], "3")));
    let out: Option<(String, &str)> = parser.parse("1;2;");
    assert_eq!(out, Some(("12".to_owned(), "")));
    let out: Option<(String, &str)> = parser.parse("x");
    assert_eq!(out, Some((String::new(), "x")));

    let parser = digit.end_by1(char(';'));
    let out: Option<(String, &str)> = parser.parse("1;2;3");
    assert_eq!(out, Some(("12".to_owned(), "3")));
    let out: Option<(String, &str)> = parser.parse("1");
    assert_eq!(out, None);
}

#[test]
fn chain_left_gives_back_an_operator_without_a_term() {
    let number = digits.map(|v: String| v.parse::<i64>().unwrap());
    let minus = char('-').map(|_| subtract as fn(i64, i64) -> i64);
    let parser = number.chain_left1(minus);
    assert_eq!(parser.parse("7"), Some((7, "")));
    assert_eq!(parser.parse("7-2-"), Some((5, "-")));
    assert_eq!(parser.parse("7-2-x"), Some((5, "-x")));
    assert_eq!(parser.parse("-7"), None);
    assert_eq!(parser.parse(""), None);
}

#[test]
fn chain_right_gives_back_an_operator_without_a_term() {
    let number = digits.map(|v: String| v.parse::<i64>().unwrap());
    let minus = char('-').map(|_| subtract as fn(i64, i64) -> i64);
    let parser = number.chain_right1(minus);
    assert_eq!(parser.parse("7"), Some((7, "")));
    assert_eq!(parser.parse("7-2-"), Some((5, "-")));
    assert_eq!(parser.parse("7-2-1-x"), Some((6, "-x")));
    assert_eq!(parser.parse("7-x"), Some((7, "-x")));
    assert_eq!(parser.parse("x"), None);
}

#[test]
fn chain_right_gives_back_a_long_operator_whole() {
    let number = digits.map(|v: String| v.parse::<i64>().unwrap());
    let minus = string("minus").map(|_| subtract as fn(i64, i64) -> i64);
    let parser = number.chain_right1(minus);
    assert_eq!(parser.parse("9minus4minus"), Some((5, "minus")));
    assert_eq!(parser.parse("9minus4minu"), Some((5, "minu")));
}

#[test]
fn sign_is_plus_or_minus() {
    assert_eq!(sign("+1"), Some(('+', "1")));
    assert_eq!(sign("-1"), Some(('-', "1")));
    assert_eq!(sign("1"), None);
    assert_eq!(sign(""), None);
}

#[test]
fn digits_are_the_leading_run() {
    assert_eq!(digits("1234abc"), Some(("1234".to_owned(), "abc")));
    assert_eq!(digits("0"), Some(("0".to_owned(), "")));
    assert_eq!(digits("a1"), None);
    assert_eq!(digits(""), None);
    assert_eq!(digits("+1"), None);
}

#[test]
fn signed_digits_start_with_a_sign() {
    assert_eq!(signed_digits("12 34"), Some(("+12".to_owned(), " 34")));
    assert_eq!(signed_digits("+12"), Some(("+12".to_owned(), "")));
    assert_eq!(signed_digits("-  12x"), Some(("-12".to_owned(), "x")));
    assert_eq!(signed_digits("- x"), None);
    assert_eq!(signed_digits("+"), None);
    assert_eq!(signed_digits(" 12"), None);
    assert_eq!(signed_digits(""), None);
    assert_eq!(signed_digits("+-1"), None);
}

#[test]
fn converted_pairs_a_value_with_the_rest() {
    assert_eq!(converted(Some(5), "rest"), Some((5, "rest")));
    assert_eq!(converted(None::<i32>, "rest"), None);
}

#[test]
fn decimal_fails_where_the_number_does_not_fit() {
    let out: Option<(u8, &str)> = decimal("255x");
    assert_eq!(out, Some((255, "x")));
    let out: Option<(u8, &str)> = decimal("256x");
    assert_eq!(out, None);
    let out: Option<(u64, &str)> = decimal("x");
    assert_eq!(out, None);
    let out: Option<(u64, &str)> = decimal("");
    assert_eq!(out, None);
    let out: Option<(u64, &str)> = decimal("007");
    assert_eq!(out, Some((7, "")));
}

#[test]
fn integer_fails_where_the_number_does_not_fit() {
    let out: Option<(i8, &str)> = integer("-128");
    assert_eq!(out, Some((-128, "")));
    let out: Option<(i8, &str)> = integer("128");
    assert_eq!(out, None);
    let out: Option<(u8, &str)> = integer("-1");
    assert_eq!(out, None);
    let out: Option<(u8, &str)> = integer("+ 7 ");
    assert_eq!(out, Some((7, " ")));
    let out: Option<(i64, &str)> = integer("-");
    assert_eq!(out, None);
}

#[test]
fn eof_rejects_what_is_left_over() {
    let parser = digit.many1().map(|v: String| v).left(eof);
    assert_eq!(parser.parse("123"), Some(("123".to_owned(), "")));
    assert_eq!(parser.parse("123 "), None);
}

#[test]
fn repeat_collects_in_a_vector_or_in_a_string() {
    let (text, rest): (String, &str) = repeat(&digit, "12a3");
    assert_eq!((text.as_str(), rest), ("12", "a3"));
    let (items, rest): (Vec<char>, &str) = repeat(&digit, "12a3");
    assert_eq!((items, rest), (vec!['1', '2'], "a3"));
    let (items, rest): (Vec<char>, &str) = repeat(&digit, "a3");
    assert_eq!((items, rest), (vec![], "a3"));
}

#[test]
fn repeat_times_stops_at_the_number_asked_for() {
    let out: Option<(String, &str)> = repeat_times(&digit, 2, "123");
    assert_eq!(out, Some(("12".to_owned(), "3")));
    let out: Option<(Vec<char>, &str)> = repeat_times(&digit, 4, "123");
    assert_eq!(out, None);
    let out: Option<(Vec<char>, &str)> = repeat_times(&digit, 0, "abc");
    assert_eq!(out, Some((vec![], "abc")));
}

#[test]
fn list_tells_a_separator_without_an_element() {
    let comma = char(',');
    assert_eq!(list(&digit, &comma, "1,2,x"), (vec!['1', '2'], ",x", Some("x")));
    assert_eq!(list(&digit, &comma, "1,2x"), (vec!['1', '2'], "x", None));
    assert_eq!(list(&digit, &comma, "x"), (vec![], "x", None));
    assert_eq!(list(&digit, &comma, "1,"), (vec!['1'], ",", Some("")));
}
