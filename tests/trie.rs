use file_elf::error::CustomError;
use file_elf::meta::{EntryMeta, EntryType};
use file_elf::path::split_path;
use file_elf::trie::TrieCache;

#[test]
fn simple_test() {
    let mut cache = TrieCache::new();

    let res = cache.insert_path("/tmp/tmp/documents/file.txt", None, false);
    assert!(res.is_ok());

    let found_path = cache.search_full_path("/tmp", false);
    assert_eq!(found_path.unwrap().path, "/tmp");

    let found_path = cache.search_full_path("/tmp/tmp/documents", false);
    assert_eq!(found_path.unwrap().path, "/tmp/tmp/documents");

    let found_path = cache.search_full_path("/tmp/tmp/documents/file.txt", false);
    assert_eq!(found_path.unwrap().path, "/tmp/tmp/documents/file.txt");

    let res = cache.insert_path("/tmp/tmp2/documents/file.txt", None, false);
    assert!(res.is_ok());

    let found_path = cache.search_full_path("/tmp", false);
    assert_eq!(found_path.unwrap().path, "/tmp");

    let found_path = cache.search_full_path("/tmp/tmp2/documents", false);
    assert_eq!(found_path.unwrap().path, "/tmp/tmp2/documents");

    let found_path = cache.search_full_path("/tmp/tmp2/documents/file.txt", false);
    assert_eq!(found_path.unwrap().path, "/tmp/tmp2/documents/file.txt");
}

#[test]
fn test_search_entry() {
    let mut cache = TrieCache::new();

    let path1 = "/tmp/tmp/documents/file1.txt".to_string();
    let path2 = "/tmp/tmp/documents/file2.txt".to_string();
    let path3 = "/tmp/tmp/downloads/file1.txt".to_string();
    let path4 = "/tmp/tmp/downloads/file2.txt".to_string();

    let _ = cache.insert_path(&path1, None, false);
    let _ = cache.insert_path(&path2, None, false);
    let _ = cache.insert_path(&path3, None, false);
    let _ = cache.insert_path(&path4, None, false);

    let mut results = cache.search_entry("file1.txt", false);
    results.sort();
    assert_eq!(results, vec![path1, path3]);

    let mut results = cache.search_entry("documents", false);
    results.sort();
    assert_eq!(results, vec!["/tmp/tmp/documents".to_string()]);

    let mut results = cache.search_entry("nonexistent", false);
    results.sort();
    assert_eq!(results, Vec::<String>::new());
}

#[test]
fn components_of_absolute_and_relative_paths() {
    assert_eq!(split_path("/tmp//a/b/").unwrap(), vec!["/", "tmp", "a", "b"]);
    assert_eq!(split_path("a/b").unwrap(), vec!["a", "b"]);
    assert_eq!(split_path("/").unwrap(), vec!["/"]);
    assert_eq!(split_path(""), Err(CustomError::PathError));
    assert_eq!(split_path("/a\0b"), Err(CustomError::PathError));
}

#[test]
fn invalid_paths_are_refused() {
    let mut cache = TrieCache::new();
    assert_eq!(cache.insert_path("", None, true), Err(CustomError::PathError));
    assert_eq!(cache.insert_path("/a/\0", None, true), Err(CustomError::PathError));
    assert!(!cache.contains_full_path("/a", false));
}

#[test]
fn insert_then_search_gives_same_path() {
    let mut cache = TrieCache::new();
    let given = EntryMeta::new("/elsewhere", 42, 7, EntryType::File);
    let got = cache.insert_path("/x/y.txt", Some(given), false).unwrap().unwrap();
    assert_eq!(got.path, "/x/y.txt");
    assert_eq!(got.size, 42);
    let found = cache.search_full_path("/x/y.txt", false).unwrap();
    assert_eq!(found.path, "/x/y.txt");
    assert_eq!(found.entry_type, EntryType::File);
    assert_eq!(found.access_count, 0);
    let parent = cache.search_full_path("/x", false).unwrap();
    assert_eq!(parent.entry_type, EntryType::Unknown);
}

#[test]
fn insert_then_delete_then_absent() {
    let mut cache = TrieCache::new();
    cache.insert_path("/p/q/r", None, true).unwrap();
    assert_eq!(cache.delete("/p/q"), Ok(()));
    assert!(!cache.contains_full_path("/p/q", false));
    assert!(!cache.contains_full_path("/p/q/r", false));
    assert!(cache.contains_full_path("/p", false));
}

#[test]
fn repeated_plain_insert_changes_nothing() {
    let mut cache = TrieCache::new();
    let m = EntryMeta::new("/d/f", 3, 4, EntryType::File);
    cache.insert_path("/d/f", Some(m.clone()), false).unwrap();
    let first = cache.search_full_path("/d/f", false).unwrap();
    let again = cache.insert_path("/d/f", Some(m), false).unwrap().unwrap();
    assert_eq!(again.access_count, first.access_count);
    assert_eq!(again.size, first.size);
    assert_eq!(cache.search_full_path("/d", false).unwrap().access_count, 0);
}

#[test]
fn counted_inserts_raise_every_node_on_the_way() {
    let mut cache = TrieCache::new();
    for _ in 0..5 {
        cache.insert_path("/a/b", None, true).unwrap();
    }
    assert_eq!(cache.search_full_path("/a/b", false).unwrap().access_count, 5);
    assert_eq!(cache.search_full_path("/a", false).unwrap().access_count, 5);
    assert_eq!(cache.search_full_path("/", false).unwrap().access_count, 5);
}

#[test]
fn counted_lookup_raises_only_the_target() {
    let mut cache = TrieCache::new();
    cache.insert_path("/a/b", None, false).unwrap();
    assert_eq!(cache.search_full_path("/a/b", true).unwrap().access_count, 1);
    assert!(cache.contains_full_path("/a/b", true));
    assert_eq!(cache.search_full_path("/a/b", false).unwrap().access_count, 2);
    assert_eq!(cache.search_full_path("/a", false).unwrap().access_count, 0);
}

#[test]
fn empty_entry_finds_nothing() {
    let mut cache = TrieCache::new();
    cache.insert_path("/a/b", None, false).unwrap();
    assert!(cache.search_entry("", false).is_empty());
    assert!(cache.search_entry("", true).is_empty());
}

#[test]
fn deleting_an_absent_path_is_not_found() {
    let mut cache = TrieCache::new();
    cache.insert_path("/a/b", None, false).unwrap();
    assert_eq!(cache.delete("/a/c"), Err(CustomError::PathNotFound));
    assert_eq!(cache.delete("/z"), Err(CustomError::PathNotFound));
    assert!(cache.contains_full_path("/a/b", false));
}

#[test]
fn search_entry_scenario_with_two_matches() {
    let mut cache = TrieCache::new();
    for p in ["/x/documents/f1.txt", "/x/documents/f2.txt", "/x/downloads/f1.txt"] {
        cache.insert_path(p, None, false).unwrap();
    }
    let mut results = cache.search_entry("f1.txt", false);
    results.sort();
    assert_eq!(results, vec!["/x/documents/f1.txt".to_string(), "/x/downloads/f1.txt".to_string()]);
}

#[test]
fn search_entry_is_case_blind_and_fuzzy_when_long() {
    let mut cache = TrieCache::new();
    cache.insert_path("/x/Report.pdf", None, false).unwrap();
    assert_eq!(cache.search_entry("REPORT", false), vec!["/x/Report.pdf".to_string()]);
    assert_eq!(cache.search_entry("repxrt", true), vec!["/x/Report.pdf".to_string()]);
    assert!(cache.search_entry("repxrt", false).is_empty());
}

#[test]
fn regex_search_scenario() {
    let mut cache = TrieCache::new();
    for p in ["/p/a.txt", "/p/a.md", "/p/sub/b.txt"] {
        cache.insert_path(p, None, false).unwrap();
    }
    let mut results = cache.search_path_regex(".*\\.txt$");
    results.sort();
    assert_eq!(results, vec!["/p/a.txt".to_string(), "/p/sub/b.txt".to_string()]);
}

#[test]
fn invalid_regex_finds_nothing() {
    let mut cache = TrieCache::new();
    cache.insert_path("/p/a.txt", None, false).unwrap();
    assert!(cache.search_path_regex("(").is_empty());
}

#[test]
fn inserted_path_survives_other_operations() {
    let mut cache = TrieCache::new();
    cache.insert_path("/a/b", Some(EntryMeta::new("/a/b", 5, 6, EntryType::File)), false).unwrap();
    cache.insert_path("/a/c/d", None, true).unwrap();
    cache.delete("/a/c").unwrap();
    cache.search_full_path("/a/b", true);
    assert!(cache.contains_full_path("/a/b", false));
    let found = cache.search_full_path("/a/b", false).unwrap();
    assert_eq!(found.path, "/a/b");
    assert_eq!(found.size, 5);
    assert_eq!(found.access_count, 1);
}

#[test]
fn records_are_filed_under_their_joined_components() {
    let mut cache = TrieCache::new();
    let got = cache.insert_path("/tmp//x/", Some(EntryMeta::new("/other", 1, 1, EntryType::Dir)), false).unwrap().unwrap();
    assert_eq!(got.path, "/tmp/x");
    assert_eq!(cache.search_full_path("/", false).unwrap().path, "/");
    assert_eq!(cache.search_full_path("/tmp", false).unwrap().path, "/tmp");
    assert_eq!(cache.search_full_path("/tmp/x", false).unwrap().entry_type, EntryType::Dir);
    let rel = cache.insert_path("rel/y", None, false).unwrap().unwrap();
    assert_eq!(rel.path, "rel/y");
    assert_eq!(cache.search_full_path("rel", false).unwrap().path, "rel");
}

#[test]
fn refresh_takes_observed_fields_but_keeps_path_and_count() {
    let mut cache = TrieCache::new();
    cache.insert_path("/a/b", None, true).unwrap();
    let fresh = EntryMeta::new("/elsewhere", 7, 8, EntryType::Dir);
    let got = cache.refresh_path("/a/b", Some(fresh), false).unwrap();
    assert_eq!(got.path, "/a/b");
    assert_eq!(got.size, 7);
    assert_eq!(got.modified, 8);
    assert_eq!(got.entry_type, EntryType::Dir);
    assert_eq!(got.access_count, 1);
    assert!(cache.refresh_path("/a/zz", None, true).is_none());
}

#[test]
fn absolute_path_only_goes_below_the_root() {
    let mut cache = TrieCache::new();
    cache.insert_path("/a", None, false).unwrap();
    let slash = &mut cache.root.children[0];
    assert_eq!(slash.full_path, "/");
    assert_eq!(slash.insert("/x", None, false), Err(CustomError::PathError));
    assert_eq!(slash.insert("x", None, false).unwrap().unwrap().path, "/x");
    let mut results = cache.search_path_regex(".*");
    results.sort();
    assert_eq!(results, vec!["/".to_string(), "/a".to_string(), "/x".to_string()]);
}
