use jqr::text::{chars_of, split, string_of};

fn std_split(s: &str, d: &str) -> Vec<String> {
    s.split(d).map(|e| e.to_string()).collect()
}

#[test]
fn split_gives_the_pieces_between_the_delimiters() {
    assert_eq!(split("aaxbbxcc", "x"), vec!["aa", "bb", "cc"]);
    assert_eq!(split("abc", "x"), vec!["abc"]);
    assert_eq!(split("", "x"), vec![""]);
    assert_eq!(split("x", "x"), vec!["", ""]);
    assert_eq!(split("xax", "x"), vec!["", "a", ""]);
    assert_eq!(split("axxb", "x"), vec!["a", "", "b"]);
    assert_eq!(split("aaaa", "aa"), vec!["", "", ""]);
    assert_eq!(split("aaa", "aa"), vec!["", "a"]);
    assert_eq!(split("a--b-c", "--"), vec!["a", "b-c"]);
    assert_eq!(split("ab", "abc"), vec!["ab"]);
}

#[test]
fn split_with_an_empty_delimiter_cuts_at_every_character() {
    assert_eq!(split("rust", ""), vec!["", "r", "u", "s", "t", ""]);
    assert_eq!(split("", ""), vec!["", ""]);
    assert_eq!(split("\u{e9}a", ""), vec!["", "\u{e9}", "a", ""]);
}

#[test]
fn split_agrees_with_the_standard_library() {
    let texts = [
        "", "a", "ab", "aba", "abab", "aaaa", "xaxbxcx", "a,b,,c", "\u{e9}t\u{e9}", "hello world",
        "--a--b--", "mississippi",
    ];
    let delimiters = [
        "", "a", "b", "ab", "ba", "aa", "x", ",", "--", "ss", "issi", "\u{e9}", " ",
    ];
    for s in texts {
        for d in delimiters {
            assert_eq!(split(s, d), std_split(s, d), "{:?} by {:?}", s, d);
        }
    }
}

#[test]
fn characters_and_strings_convert_both_ways() {
    let chars = chars_of("h\u{e9}llo");
    assert_eq!(chars, vec!['h', '\u{e9}', 'l', 'l', 'o']);
    assert_eq!(string_of(&chars, 1, 4), "\u{e9}ll");
    assert_eq!(string_of(&chars, 2, 2), "");
    assert_eq!(string_of(&chars, 0, 5), "h\u{e9}llo");
}
