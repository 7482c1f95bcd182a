use parsec::parsec::{any, eof, newline, space, tab, whitespace, Parser};

#[test]
fn parsec_any_and_eof_as_values() {
    assert_eq!(any().parse("ab"), Some(('a', "b")));
    assert_eq!(any().parse(""), None);
    assert_eq!(eof().parse(""), Some(((), "")));
    assert_eq!(eof().parse("a"), None);
}

#[test]
fn parsec_space_line_feed_and_tab() {
    assert_eq!(space().parse(" a"), Some((' ', "a")));
    assert_eq!(space().parse("\ta"), None);
    assert_eq!(newline().parse("\na"), Some(('\n', "a")));
    assert_eq!(newline().parse(" a"), None);
    assert_eq!(tab().parse("\ta"), Some(('\t', "a")));
    assert_eq!(tab().parse("\na"), None);
}

#[test]
fn parsec_whitespace_never_fails() {
    assert_eq!(whitespace().parse(""), Some(((), "")));
    assert_eq!(whitespace().parse("abc"), Some(((), "abc")));
    assert_eq!(whitespace().parse(" \n\tabc "), Some(((), "abc ")));
}
