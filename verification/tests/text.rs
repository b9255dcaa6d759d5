use gitlab_collector::text::{
    chars_eq, chars_of, contains, is_whitespace_char, matches_at, slice_of, split, starts_with,
    string_of, trim, trim_end_matches, trim_start_matches,
};

fn chars(s: &str) -> Vec<char> {
    s.chars().collect()
}

fn text(v: &Vec<char>) -> String {
    v.iter().collect()
}

const SAMPLES: [&str; 16] = [
    "",
    " ",
    "a",
    "  a b  ",
    "\t\n x \r\n",
    "\u{a0}\u{1680}x\u{2003}\u{3000}",
    "a;b;c",
    ";a;;b;",
    ";;",
    "a,b",
    ",",
    "https://gitlab.com/",
    "///",
    "x.git.git",
    ".git",
    "gr\u{fc}n;\u{1f47e},z",
];

#[test]
fn chars_and_strings_convert_both_ways() {
    for sample in SAMPLES {
        assert_eq!(chars_of(sample), chars(sample));
        assert_eq!(string_of(&chars(sample)), sample);
    }
}

#[test]
fn whitespace_is_what_std_calls_whitespace() {
    for code in 0..=0x10FFFFu32 {
        if let Some(c) = char::from_u32(code) {
            assert_eq!(is_whitespace_char(c), c.is_whitespace(), "U+{:04X}", code);
        }
    }
}

#[test]
fn trim_agrees_with_std() {
    for sample in SAMPLES {
        assert_eq!(text(&trim(&chars(sample))), sample.trim());
    }
    assert_eq!(text(&trim(&chars("  a b  "))), "a b");
}

#[test]
fn split_agrees_with_std() {
    for sample in SAMPLES {
        for sep in [';', ',', '/', 'a'] {
            let pieces: Vec<String> = split(&chars(sample), sep).iter().map(text).collect();
            let expected: Vec<String> = sample.split(sep).map(|p| p.to_string()).collect();
            assert_eq!(pieces, expected);
        }
    }
    let pieces: Vec<String> = split(&chars(";a;;b;"), ';').iter().map(text).collect();
    assert_eq!(pieces, vec!["", "a", "", "b", ""]);
    assert_eq!(split(&chars(""), ';'), vec![Vec::<char>::new()]);
}

#[test]
fn suffix_and_prefix_are_stripped_repeatedly() {
    for sample in SAMPLES {
        for pattern in ["/", ".git", "a", "https://", "x.git"] {
            assert_eq!(
                text(&trim_end_matches(&chars(sample), &chars(pattern))),
                sample.trim_end_matches(pattern)
            );
            assert_eq!(
                text(&trim_start_matches(&chars(sample), &chars(pattern))),
                sample.trim_start_matches(pattern)
            );
        }
    }
    assert_eq!(text(&trim_end_matches(&chars("x.git.git"), &chars(".git"))), "x");
    assert_eq!(text(&trim_start_matches(&chars("ababc"), &chars("ab"))), "c");
    assert_eq!(text(&trim_end_matches(&chars("abc"), &chars(""))), "abc");
    assert_eq!(text(&trim_start_matches(&chars("abc"), &chars(""))), "abc");
}

#[test]
fn search_agrees_with_std() {
    for sample in SAMPLES {
        for pattern in ["", "a", ";", "git", "github.com", "//", "\u{1f47e}"] {
            assert_eq!(contains(&chars(sample), &chars(pattern)), sample.contains(pattern));
            assert_eq!(starts_with(&chars(sample), &chars(pattern)), sample.starts_with(pattern));
        }
    }
    assert!(contains(&chars("see github.com/x"), &chars("github.com")));
    assert!(!contains(&chars("see github.co"), &chars("github.com")));
}

#[test]
fn matches_at_a_position() {
    let v = chars("abcabc");
    assert!(matches_at(&v, &chars("bc"), 1));
    assert!(matches_at(&v, &chars("bc"), 4));
    assert!(!matches_at(&v, &chars("bc"), 0));
    assert!(!matches_at(&v, &chars("bc"), 5));
    assert!(matches_at(&v, &chars(""), 6));
    assert!(!matches_at(&v, &chars(""), 7));
    assert!(!matches_at(&v, &chars("abcabcd"), 0));
}

#[test]
fn slices_and_equality() {
    let v = chars("hello");
    assert_eq!(text(&slice_of(&v, 1, 4)), "ell");
    assert_eq!(text(&slice_of(&v, 2, 2)), "");
    assert_eq!(text(&slice_of(&v, 0, 5)), "hello");
    assert!(chars_eq(&v, &chars("hello")));
    assert!(!chars_eq(&v, &chars("hellO")));
    assert!(!chars_eq(&v, &chars("hell")));
    assert!(chars_eq(&chars(""), &chars("")));
}
