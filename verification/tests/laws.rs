use parsec::{char, digit, integer, string, whitespace, Parser};

fn subtract(v: i64, w: i64) -> i64 {
    v - w
}

fn join(items: &[i64], separator: &str) -> String {
    let mut text = String::new();
    for (i, item) in items.iter().enumerate() {
        if i > 0 {
            text.push_str(separator);
        }
        text.push_str(&item.to_string());
    }
    text
}

#[test]
fn many_succeeds_on_every_input() {
    let parser = digit.many();
    for input in ["", "a", "1", "12a", "a12", "  ", "我1"] {
        let out: Option<(String, &str)> = parser.parse(input);
        assert!(out.is_some());
    }
    let out: Option<(Vec<char>, &str)> = parser.parse("");
    assert_eq!(out, Some((vec![], "")));
}

#[test]
fn many_continues_from_where_a_part_of_it_stopped() {
    let whole: Option<(String, &str)> = digit.many().parse("12345abc");
    assert_eq!(whole, Some(("12345".to_owned(), "abc")));

    let part: Option<(String, &str)> = digit.count(2).parse("12345abc");
    let (first, mid) = part.unwrap();
    assert_eq!((first.as_str(), mid), ("12", "345abc"));

    let more: Option<(String, &str)> = digit.many().parse(mid);
    let (more, rest) = more.unwrap();
    assert_eq!(format!("{}{}", first, more), "12345");
    assert_eq!(rest, "abc");
}

#[test]
fn many_on_its_own_leftover_reads_nothing() {
    let out: Option<(String, &str)> = digit.many().parse("12ab");
    let (_, rest) = out.unwrap();
    let again: Option<(String, &str)> = digit.many().parse(rest);
    assert_eq!(again, Some((String::new(), rest)));
}

#[test]
fn many1_fails_exactly_where_the_parser_fails() {
    for input in ["", "abc", " 1", "1", "12a", "9"] {
        let single = digit(input);
        let repeated: Option<(String, &str)> = digit.many1().parse(input);
        assert_eq!(single.is_none(), repeated.is_none());
        if repeated.is_some() {
            let plain: Option<(String, &str)> = digit.many().parse(input);
            assert_eq!(repeated, plain);
            assert!(!repeated.unwrap().0.is_empty());
        }
    }
}

#[test]
fn choice_takes_the_first_branch_that_matches() {
    let parser = string("ab").choice(string("abc"));
    assert_eq!(parser.parse("abcd"), Some(("ab", "cd")));
    let parser = string("abc").choice(string("ab"));
    assert_eq!(parser.parse("abcd"), Some(("abc", "d")));
}

#[test]
fn choice_after_a_failed_branch_is_the_second_branch_alone() {
    let second = string("abd");
    let parser = string("abc").choice(string("abd"));
    assert_eq!(parser.parse("abdx"), second.parse("abdx"));
    assert_eq!(parser.parse("abdx"), Some(("abd", "x")));
    assert_eq!(parser.parse("abx"), None);
}

#[test]
fn count_yields_all_items_or_none() {
    let parser = digit.count(3);
    let out: Option<(String, &str)> = parser.parse("1234");
    assert_eq!(out, Some(("123".to_owned(), "4")));
    let out: Option<(Vec<char>, &str)> = parser.parse("1234");
    assert_eq!(out, Some((vec!['1', '2', '3'], "4")));
    let out: Option<(String, &str)> = parser.parse("12a4");
    assert_eq!(out, None);
    let out: Option<(String, &str)> = parser.parse("");
    assert_eq!(out, None);
}

#[test]
fn count_of_zero_consumes_nothing() {
    let out: Option<(String, &str)> = digit.count(0).parse("123");
    assert_eq!(out, Some((String::new(), "123")));
    let out: Option<(Vec<char>, &str)> = whitespace.count(0).parse("");
    assert_eq!(out, Some((vec![], "")));
}

#[test]
fn separated_list_survives_writing_and_reading() {
    let parser = integer.separated_by(char(','));
    for text in ["1,2,3", "-7", "10,-20,30,40", "0,0"] {
        let (items, rest): (Vec<i64>, &str) = parser.parse(text).unwrap();
        assert_eq!(rest, "");
        let written = join(&items, ",");
        let (again, rest): (Vec<i64>, &str) = parser.parse(written.as_str()).unwrap();
        assert_eq!(rest, "");
        assert_eq!(again, items);
    }
    let items: Vec<i64> = vec![5, -6, 7];
    let written = join(&items, ",");
    assert_eq!(written, "5,-6,7");
    assert_eq!(parser.parse(written.as_str()), Some((items, "")));
}

#[test]
fn separated_list_of_nothing_survives_writing_and_reading() {
    let parser = integer.separated_by(char(','));
    let items: Vec<i64> = vec![];
    let written = join(&items, ",");
    assert_eq!(parser.parse(written.as_str()), Some((items, "")));
}

#[test]
fn chain_left_folds_from_the_left() {
    let number = integer.map(|v: i64| v);
    let minus = char('-').map(|_| subtract as fn(i64, i64) -> i64);
    let parser = number.chain_left1(minus);
    assert_eq!(parser.parse("1-2-3"), Some((-4, "")));
}

#[test]
fn chain_right_folds_from_the_right() {
    let number = integer.map(|v: i64| v);
    let minus = char('-').map(|_| subtract as fn(i64, i64) -> i64);
    let parser = number.chain_right1(minus);
    assert_eq!(parser.parse("1-2-3"), Some((2, "")));
}

#[test]
fn a_parser_run_twice_ends_in_the_same_way() {
    let list = integer.lexeme().separated_end_by(char(',').lexeme());
    let number = integer.map(|v: i64| v);
    let minus = char('-').map(|_| subtract as fn(i64, i64) -> i64);
    let chain = number.chain_right1(minus);
    for input in ["", "1, 2, 3,", "1-2-3-", "x", "7,,8", "12 - 3"] {
        let first: Option<(Vec<i64>, &str)> = list.parse(input);
        let second: Option<(Vec<i64>, &str)> = list.parse(input);
        assert_eq!(first, second);
        assert_eq!(chain.parse(input), chain.parse(input));
        let first: Option<(String, &str)> = digit.many1().parse(input);
        let second: Option<(String, &str)> = digit.many1().parse(input);
        assert_eq!(first, second);
    }
}
