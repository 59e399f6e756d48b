use forward_proxy::text::{chars_of, find, is_space, split, split_once, string_of, tokens};

#[test]
fn split_gives_the_pieces_between_delimiters() {
    assert_eq!(split("a\r\nb\r\n\r\nc", "\r\n"), vec!["a", "b", "", "c"]);
}

#[test]
fn split_of_a_text_that_ends_in_the_delimiter_has_an_empty_last_piece() {
    assert_eq!(split("GET / HTTP/1.1\r\n", "\r\n"), vec!["GET / HTTP/1.1", ""]);
}

#[test]
fn split_of_a_text_without_the_delimiter_is_the_text() {
    assert_eq!(split("no line break", "\r\n"), vec!["no line break"]);
    assert_eq!(split("", " "), vec![""]);
}

#[test]
fn split_takes_the_leftmost_delimiter_first() {
    assert_eq!(split("a\r\r\nb", "\r\n"), vec!["a\r", "b"]);
    assert_eq!(split("a  b", " "), vec!["a", "", "b"]);
}

#[test]
fn split_agrees_with_std_on_samples() {
    let samples = ["", " ", "a b c", " a ", "a\r\nb", "\r\n\r\n", "é è", "x: y: z"];
    let delimiters = [" ", "\r\n", ": "];
    for text in samples {
        for delim in delimiters {
            let expected: Vec<String> = text.split(delim).map(String::from).collect();
            assert_eq!(split(text, delim), expected);
        }
    }
}

#[test]
fn split_with_an_empty_delimiter_splits_nothing() {
    assert_eq!(split("abc", ""), vec!["abc"]);
}

#[test]
fn split_once_cuts_at_the_first_separator() {
    assert_eq!(
        split_once("Host: a: b", ": "),
        Some(("Host".to_string(), "a: b".to_string()))
    );
    assert_eq!(split_once("no separator", ": "), None);
    assert_eq!(split_once("a:: b", ": "), Some(("a:".to_string(), "b".to_string())));
}

#[test]
fn find_gives_the_leftmost_index_at_or_after_the_start() {
    let text = chars_of("abcabc");
    let pattern = chars_of("bc");
    assert_eq!(find(&text, &pattern, 0), Some(1));
    assert_eq!(find(&text, &pattern, 2), Some(4));
    assert_eq!(find(&text, &pattern, 5), None);
    assert_eq!(find(&text, &pattern, 100), None);
    assert_eq!(find(&pattern, &text, 0), None);
}

#[test]
fn chars_and_strings_convert_both_ways() {
    let chars = chars_of("héllo");
    assert_eq!(chars, vec!['h', 'é', 'l', 'l', 'o']);
    assert_eq!(string_of(&chars, 1, 4), "éll");
    assert_eq!(string_of(&chars, 2, 2), "");
}

#[test]
fn tokens_are_the_runs_without_whitespace() {
    assert_eq!(tokens("GET http://h/p HTTP/1.1"), vec!["GET", "http://h/p", "HTTP/1.1"]);
    assert_eq!(tokens("  a \t\tb\n"), vec!["a", "b"]);
    assert_eq!(tokens("one"), vec!["one"]);
    assert_eq!(tokens(""), Vec::<String>::new());
    assert_eq!(tokens(" \t\r\n"), Vec::<String>::new());
}

#[test]
fn tokens_agree_with_std_on_samples() {
    let samples = ["", " ", "a b c", " a ", "a\r\nb", "\t\tx\u{a0}y\u{2003}z ", "é\u{3000}è", "a\u{200b}b"];
    for text in samples {
        let expected: Vec<String> = text.split_whitespace().map(String::from).collect();
        assert_eq!(tokens(text), expected);
    }
}

#[test]
fn is_space_agrees_with_std_on_every_character() {
    for code in 0..=0x10ffffu32 {
        if let Some(c) = char::from_u32(code) {
            assert_eq!(is_space(c), c.is_whitespace());
        }
    }
}
