use rust_ingest::text::{chars_of, str_eq, str_lt, trim, trim_bounds};

#[test]
fn chars_of_gives_the_characters_in_order() {
    assert_eq!(chars_of("aé日"), vec!['a', 'é', '日']);
    assert_eq!(chars_of(""), Vec::<char>::new());
}

#[test]
fn a_proper_prefix_comes_first() {
    assert!(str_lt("", "a"));
    assert!(str_lt("ab", "abc"));
    assert!(!str_lt("abc", "ab"));
    assert!(!str_lt("a", ""));
}

#[test]
fn nothing_comes_before_itself() {
    assert!(!str_lt("", ""));
    assert!(!str_lt("same", "same"));
}

#[test]
fn the_first_difference_decides() {
    assert!(str_lt("abc", "abd"));
    assert!(!str_lt("abd", "abc"));
    assert!(str_lt("Zebra", "apple"));
    assert!(str_lt("a-b", "a/b"));
    assert!(str_lt("z", "é"));
}

#[test]
fn str_lt_agrees_with_the_standard_order() {
    let words = ["", "a", "A", "ab", "b", "é", "e", "日本", "a/b", "a-b", "a b", "~"];
    for a in words {
        for b in words {
            assert_eq!(str_lt(a, b), a < b, "{:?} < {:?}", a, b);
        }
    }
}

#[test]
fn str_eq_compares_texts() {
    assert!(str_eq("", ""));
    assert!(str_eq("abc", "abc"));
    assert!(!str_eq("abc", "abd"));
    assert!(!str_eq("abc", "ab"));
    assert!(!str_eq("ab", "abc"));
    assert!(str_eq("日本", "日本"));
}

#[test]
fn trim_removes_white_space_at_both_ends() {
    assert_eq!(trim("  hello world \n\t"), "hello world");
    assert_eq!(trim("\n\nfn main() {}\n"), "fn main() {}");
    assert_eq!(trim("inner  space"), "inner  space");
}

#[test]
fn trim_of_blank_text_is_empty() {
    assert_eq!(trim(""), "");
    assert_eq!(trim(" \t\r\n"), "");
}

#[test]
fn trim_knows_white_space_outside_ascii() {
    assert_eq!(trim("\u{a0}\u{2003}word\u{3000}"), "word");
    assert_eq!(trim("é x é"), "é x é");
}

#[test]
fn trim_agrees_with_the_standard_trim() {
    let samples = ["", " ", "a", " a", "a ", "\ta\tb\t", "\u{85}x\u{2028}", "\u{feff}x"];
    for s in samples {
        assert_eq!(trim(s), s.trim());
    }
}

#[test]
fn trim_bounds_stand_behind_leading_and_before_trailing_flags() {
    assert_eq!(trim_bounds(&vec![true, true, false, true, false, true]), (2, 5));
    assert_eq!(trim_bounds(&vec![false, false]), (0, 2));
    assert_eq!(trim_bounds(&vec![false, true, true]), (0, 1));
    assert_eq!(trim_bounds(&vec![true, false]), (1, 2));
}

#[test]
fn trim_bounds_of_nothing_but_set_flags_are_empty() {
    assert_eq!(trim_bounds(&vec![]), (0, 0));
    assert_eq!(trim_bounds(&vec![true]), (1, 1));
    assert_eq!(trim_bounds(&vec![true, true, true]), (3, 3));
}
