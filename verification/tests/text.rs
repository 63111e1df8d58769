use autocshell::text::{
    append_decimal, append_padded, chars_of, contains_text, digit_char, escaped, find_from,
    is_space, is_word, join_strings, same_text, slice_of, split_at_each, string_of,
    string_of_range, stripped_of_leading, trimmed, unescaped,
};

fn chars(text: &str) -> Vec<char> {
    text.chars().collect()
}

#[test]
fn text_becomes_characters_and_characters_text() {
    assert_eq!(chars_of("a\u{e9}\u{1f600}b"), vec!['a', '\u{e9}', '\u{1f600}', 'b']);
    assert_eq!(chars_of(""), Vec::<char>::new());
    assert_eq!(string_of(&chars("a\u{e9}\u{1f600}b")), "a\u{e9}\u{1f600}b");
    assert_eq!(string_of(&Vec::new()), "");
    assert_eq!(string_of_range(&chars("abcdef"), 2, 5), "cde");
    assert_eq!(string_of_range(&chars("abcdef"), 3, 3), "");
    assert_eq!(slice_of(&chars("abcdef"), 0, 2), vec!['a', 'b']);
}

#[test]
fn words_are_compared_character_for_character() {
    assert!(is_word(&chars("shell"), "shell"));
    assert!(!is_word(&chars("shell"), "shelf"));
    assert!(!is_word(&chars("shell"), "shel"));
    assert!(!is_word(&chars("shel"), "shell"));
    assert!(is_word(&chars(""), ""));
    assert!(same_text("zsh", "zsh"));
    assert!(!same_text("zsh", "Zsh"));
}

#[test]
fn first_occurrence_is_found_from_a_start() {
    let text = chars("a:b:c");
    assert_eq!(find_from(&text, 0, ':'), 1);
    assert_eq!(find_from(&text, 1, ':'), 1);
    assert_eq!(find_from(&text, 2, ':'), 3);
    assert_eq!(find_from(&text, 4, ':'), 5);
    assert_eq!(find_from(&text, 5, ':'), 5);
}

#[test]
fn text_is_cut_at_every_separator() {
    let cut = |text: &str| -> Vec<String> {
        split_at_each(&chars(text), ',').iter().map(string_of).collect()
    };
    assert_eq!(cut("a,b,c"), vec!["a", "b", "c"]);
    assert_eq!(cut("abc"), vec!["abc"]);
    assert_eq!(cut(""), vec![""]);
    assert_eq!(cut(","), vec!["", ""]);
    assert_eq!(cut("a,,b,"), vec!["a", "", "b", ""]);
    assert_eq!(cut(",a"), vec!["", "a"]);
}

#[test]
fn white_space_is_what_unicode_says_it_is() {
    for c in '\u{0}'..=char::MAX {
        assert_eq!(is_space(c), c.is_whitespace(), "{:?}", c);
    }
    assert!(!is_space('\u{180e}'));
    assert!(!is_space('\u{200b}'));
    assert!(!is_space('\u{feff}'));
}

#[test]
fn trimming_drops_white_space_at_both_ends_only() {
    let trim = |text: &str| string_of(&trimmed(&chars(text), 0, text.chars().count()));
    assert_eq!(trim("  a b \t\n"), "a b");
    assert_eq!(trim("a"), "a");
    assert_eq!(trim(""), "");
    assert_eq!(trim(" \u{a0}\u{3000} "), "");
    assert_eq!(trim("\u{2003}x\u{2003}y\u{2003}"), "x\u{2003}y");
    assert_eq!(string_of(&trimmed(&chars("ab  cd  ef"), 2, 8)), "cd");
    for text in ["  a b \t\n", "", "   ", "x", "\u{85}y z\u{1680}"] {
        assert_eq!(trim(text), text.trim());
    }
}

#[test]
fn quotes_get_a_backslash() {
    let escape = |text: &str| string_of(&escaped(&chars(text)));
    assert_eq!(escape("don't"), "don\\'t");
    assert_eq!(escape("''"), "\\'\\'");
    assert_eq!(escape("plain \"text\" \\ here"), "plain \"text\" \\ here");
    assert_eq!(escape(""), "");
    assert_eq!(escape("\\'"), "\\\\'");
    for text in ["don't", "'", "a'b'c", "none"] {
        assert_eq!(escape(text), text.replace("'", "\\'"));
    }
}

#[test]
fn parts_are_joined_with_the_separator_between_them() {
    let join = |parts: &[&str], sep: &str| {
        let parts: Vec<String> = parts.iter().map(|part| part.to_string()).collect();
        join_strings(&parts, sep)
    };
    assert_eq!(join(&["a", "b", "c"], ", "), "a, b, c");
    assert_eq!(join(&["a"], ", "), "a");
    assert_eq!(join(&[], ", "), "");
    assert_eq!(join(&["", ""], "-"), "-");
    assert_eq!(join(&["a", "", "b"], ""), "ab");
}

#[test]
fn padding_fills_up_to_the_width_and_never_cuts() {
    let pad = |text: &str, width: usize| {
        let mut out = String::from(">");
        append_padded(&mut out, text, width);
        out
    };
    assert_eq!(pad("ab", 5), ">ab   ");
    assert_eq!(pad("ab", 2), ">ab");
    assert_eq!(pad("abc", 2), ">abc");
    assert_eq!(pad("", 3), ">   ");
    assert_eq!(pad("\u{e9}\u{e9}", 3), ">\u{e9}\u{e9} ");
    for (text, width) in [("ab", 5), ("abcdef", 3), ("", 0)] {
        assert_eq!(pad(text, width), format!(">{:width$}", text, width = width));
    }
}

#[test]
fn numbers_are_written_in_decimal() {
    let decimal = |n: usize| {
        let mut out = String::from("#");
        append_decimal(&mut out, n);
        out
    };
    assert_eq!(decimal(0), "#0");
    assert_eq!(decimal(7), "#7");
    assert_eq!(decimal(10), "#10");
    assert_eq!(decimal(1234567890), "#1234567890");
    assert_eq!(decimal(usize::MAX), format!("#{}", usize::MAX));
    for n in 0..1200 {
        assert_eq!(decimal(n), format!("#{}", n));
    }
    for d in 0..10 {
        assert_eq!(digit_char(d).to_digit(10), Some(d as u32));
    }
}

#[test]
fn leading_run_of_a_character_is_stripped() {
    assert_eq!(stripped_of_leading("--output", '-'), "output");
    assert_eq!(stripped_of_leading("-o", '-'), "o");
    assert_eq!(stripped_of_leading("---", '-'), "");
    assert_eq!(stripped_of_leading("a-b-", '-'), "a-b-");
    assert_eq!(stripped_of_leading("", '-'), "");
}

#[test]
fn occurrence_of_one_text_in_another() {
    assert!(contains_text("complete.bash", "bash"));
    assert!(contains_text("bash", "bash"));
    assert!(contains_text("abash", "bash"));
    assert!(!contains_text("bas", "bash"));
    assert!(!contains_text("ba-sh", "bash"));
    assert!(contains_text("anything", ""));
    assert!(contains_text("", ""));
    assert!(!contains_text("", "x"));
    assert!(contains_text("aab", "ab"));
    for (hay, needle) in [("aaab", "aab"), ("abcabd", "abd"), ("abcabd", "abe"), ("xyz", "z")] {
        assert_eq!(contains_text(hay, needle), hay.contains(needle));
    }
}

#[test]
fn backslashes_before_quotes_are_taken_away() {
    let unescape = |text: &str| string_of(&unescaped(&chars(text)));
    assert_eq!(unescape("don\\'t"), "don't");
    assert_eq!(unescape("\\'\\'"), "''");
    assert_eq!(unescape("\\\\'"), "\\'");
    assert_eq!(unescape("a\\b'c"), "a\\b'c");
    assert_eq!(unescape("'"), "'");
    assert_eq!(unescape("\\"), "\\");
    assert_eq!(unescape(""), "");
    for text in ["don't", "'", "a'b'c", "none", "\\'", "\\\\''\\"] {
        let escaped_text = string_of(&escaped(&chars(text)));
        assert_eq!(unescape(&escaped_text), text);
    }
}
