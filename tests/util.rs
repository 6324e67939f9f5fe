use file_elf::config::DatabaseConfig;
use file_elf::util::{
    is_blacklisted, is_excluded, pattern_match, prefix_window_match, regex_match, Blacklist, PathPattern,
};

#[test]
fn test_is_blacklisted() {
    let blacklist = Blacklist::new(&DatabaseConfig::default().blacklist);

    let mut path = "/home/toni/proj/file_elf/target/debug/file_elf".to_string();
    let res = is_blacklisted(&path, &blacklist);
    assert!(res);

    path = "/home/toni/proj/file_elf/Cargo.toml".to_string();
    let res = is_blacklisted(&path, &blacklist);
    assert!(!res);

    let res = is_excluded(&path, true, &blacklist);
    assert!(!res);

    path = "/home/toni/proj/file_elf/virtual.toml".to_string();
    let res = is_blacklisted(&path, &blacklist);
    assert!(!res);

    let res = is_excluded(&path, false, &blacklist);
    assert!(res);
}

#[test]
fn invalid_blacklist_patterns_match_nothing() {
    let patterns = vec!["(".to_string(), "secret".to_string()];
    let blacklist = Blacklist::new(&patterns);
    assert!(is_blacklisted("/a/secret/b", &blacklist));
    assert!(!is_blacklisted("/a/(/b", &blacklist));
}

#[test]
fn exact_match_uses_the_prefix_window() {
    assert!(pattern_match("file1.txt", "file", false));
    assert!(pattern_match("fi", "file1.txt", false));
    assert!(!pattern_match("file1.txt", "fx", false));
    assert!(pattern_match("anything", "", false));
}

#[test]
fn exact_match_is_symmetric() {
    for (x, y) in [("abc", "abd"), ("Readme", "read"), ("x", "xyz"), ("", "q"), ("Ünï", "ün")] {
        assert_eq!(pattern_match(x, y, false), pattern_match(y, x, false));
    }
}

#[test]
fn short_strings_are_never_fuzzy() {
    assert!(!pattern_match("abc", "abd", true));
    assert!(!pattern_match("abc", "abx", false));
    assert!(!pattern_match("abcdef", "abd", true));
    assert!(pattern_match("abcd", "abxd", true));
}

#[test]
fn fuzzy_allows_one_edit_in_the_window() {
    assert!(pattern_match("kitten", "sitten", true));
    assert!(!pattern_match("kitten", "sittin", true));
    assert!(prefix_window_match("kitten", "mitten", true));
    assert!(!prefix_window_match("kitten", "mitten", false));
}

#[test]
fn lowercasing_reaches_the_comparison() {
    assert!(pattern_match("README.md", "readme", false));
    assert!(pattern_match("straße", "STRASSE", false) == pattern_match("straße", "strasse", false));
    assert!(!prefix_window_match("README", "readme", false));
}

#[test]
fn regex_matches_anywhere_in_the_path() {
    assert!(regex_match("/p/a.txt", "\\.txt$"));
    assert!(!regex_match("/p/a.md", "\\.txt$"));
    assert!(!regex_match("/p/a.txt", "("));
    assert!(PathPattern::new("(").is_none());
    assert!(PathPattern::new("a+").is_some());
    assert!(regex_match("baaa", "a+"));
}
