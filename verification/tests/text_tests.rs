use confgen::text::{
    append_chars, contains, from_chars, matches_at, replace_all, same_text, to_chars,
};

fn chars(s: &str) -> Vec<char> {
    s.chars().collect()
}

fn replaced(hay: &str, pattern: &str, replacement: &str) -> String {
    replace_all(&chars(hay), &chars(pattern), &chars(replacement)).into_iter().collect()
}

#[test]
fn to_chars_and_back() {
    for text in ["", "a", "héllo wörld", "${{x}}", "日本語\n\ttext"] {
        assert_eq!(to_chars(text), chars(text));
        assert_eq!(from_chars(&to_chars(text)), text);
    }
}

#[test]
fn from_chars_keeps_the_order() {
    assert_eq!(from_chars(&['a', 'b', 'c']), "abc");
    assert_eq!(from_chars(&[]), "");
}

#[test]
fn append_chars_extends_at_the_end() {
    let mut out = chars("ab");
    append_chars(&mut out, &chars("cd"));
    assert_eq!(out, chars("abcd"));
    append_chars(&mut out, &[]);
    assert_eq!(out, chars("abcd"));
}

#[test]
fn same_text_compares_characters() {
    assert!(same_text("", ""));
    assert!(same_text("Number", "Number"));
    assert!(!same_text("Number", "number"));
    assert!(!same_text("Number", "Numbers"));
    assert!(!same_text("Numbers", "Number"));
}

#[test]
fn matches_at_checks_one_position() {
    let hay = chars("abcabc");
    assert!(matches_at(&hay, &chars("abc"), 0));
    assert!(matches_at(&hay, &chars("abc"), 3));
    assert!(!matches_at(&hay, &chars("abc"), 1));
    assert!(!matches_at(&hay, &chars("abc"), 4));
    assert!(!matches_at(&hay, &chars("abc"), 7));
    assert!(!matches_at(&hay, &chars("abc"), usize::MAX));
    assert!(matches_at(&hay, &[], 6));
    assert!(!matches_at(&hay, &[], 7));
}

#[test]
fn contains_agrees_with_the_standard_search() {
    let texts = ["", "a", "ab", "aab", "abab", "mississippi", "${{a}} ${{b}}", "ééé"];
    let needles = ["", "a", "b", "ab", "ba", "ss", "issi", "ppi", "ippi!", "}}", "é", "éé"];
    for hay in texts {
        for needle in needles {
            assert_eq!(
                contains(&chars(hay), &chars(needle)),
                hay.contains(needle),
                "{:?} in {:?}",
                needle,
                hay
            );
        }
    }
}

#[test]
fn replace_all_agrees_with_the_standard_replace() {
    let texts = ["", "a", "aaa", "aaaa", "abab", "ababa", "xaxbxc", "${{a}}${{a}}", "$${{a}}{{a}}"];
    let patterns = ["a", "aa", "ab", "aba", "x", "${{a}}", "zzz", "ababab"];
    let replacements = ["", "a", "b", "aa", "ab", "${{a}}", "长"];
    for hay in texts {
        for pattern in patterns {
            for replacement in replacements {
                assert_eq!(
                    replaced(hay, pattern, replacement),
                    hay.replace(pattern, replacement),
                    "{:?} {:?} {:?}",
                    hay,
                    pattern,
                    replacement
                );
            }
        }
    }
}

#[test]
fn replace_all_takes_matches_from_the_left_without_overlap() {
    assert_eq!(replaced("aaa", "aa", "b"), "ba");
    assert_eq!(replaced("ababa", "aba", "x"), "xba");
}

#[test]
fn replace_all_does_not_search_what_it_put_in() {
    assert_eq!(replaced("ab", "ab", "abab"), "abab");
    assert_eq!(replaced("aab", "ab", "b"), "ab");
}

#[test]
fn replace_all_leaves_the_text_with_an_empty_pattern() {
    assert_eq!(replaced("abc", "", "x"), "abc");
    assert_eq!(replaced("", "", "x"), "");
}

#[test]
fn replace_all_leaves_a_text_without_the_pattern() {
    assert_eq!(replaced("abcabc", "ca ", "x"), "abcabc");
    assert_eq!(replaced("ab", "abc", "x"), "ab");
    assert_eq!(replaced("", "a", "x"), "");
}
