use file_elf::cache::{init_trie, Cacher, StoredRow};
use file_elf::hot_dir::{
    get_hot_dir, pop_hot_dir, push_hot_dir, search_files_from_hot_dirs, search_target_from_dir,
    DirChild, HotDirs,
};
use file_elf::meta::{EntryMeta, EntryType};
use file_elf::util::Blacklist;

fn dir(path: &str, count: u32) -> EntryMeta {
    EntryMeta { path: path.to_string(), size: 0, modified: 0, access_count: count, entry_type: EntryType::Dir }
}

fn child(dir: &str, name: &str) -> DirChild {
    DirChild { path: format!("{}/{}", dir, name), name: name.to_string() }
}

fn counts(hot: &HotDirs) -> Vec<u32> {
    let mut c: Vec<u32> = get_hot_dir(hot).iter().map(|m| m.access_count).collect();
    c.sort();
    c
}

#[test]
fn test_get_hot_dir() {
    let mut cacher = Cacher::new();
    let mut hot = HotDirs::new(100);
    let rows = vec![StoredRow { entry: "d".to_string(), meta: dir("/d", 3), on_disk: true }];
    init_trie(&mut cacher, &mut hot, &rows, &Blacklist::new(&vec![]));
    let hot_dirs = get_hot_dir(&hot);
    println!("{:?}", hot_dirs);
    assert_eq!(hot_dirs.len(), 1);
}

#[test]
fn test_search_files() {
    let listing = vec![vec![child("/pics", "example.psd"), child("/pics", "other.png")]];
    let res = search_files_from_hot_dirs(&listing, "example.psd", true, false, &Blacklist::new(&vec![]));
    println!("{:?}", res);
    assert!(res.len() > 0);
}

#[test]
fn boot_keeps_the_two_busiest_directories() {
    let mut cacher = Cacher::new();
    let mut hot = HotDirs::new(2);
    let rows = vec![
        StoredRow { entry: "a".to_string(), meta: dir("/a", 5), on_disk: true },
        StoredRow { entry: "b".to_string(), meta: dir("/b", 10), on_disk: true },
        StoredRow { entry: "c".to_string(), meta: dir("/c", 3), on_disk: true },
    ];
    let pruned = init_trie(&mut cacher, &mut hot, &rows, &Blacklist::new(&vec![]));
    assert!(pruned.is_empty());
    assert_eq!(counts(&hot), vec![5, 10]);
}

#[test]
fn hot_set_takes_only_directories_within_capacity() {
    let mut hot = HotDirs::new(2);
    let mut file = dir("/f", 99);
    file.entry_type = EntryType::File;
    push_hot_dir(&mut hot, file);
    assert!(get_hot_dir(&hot).is_empty());
    push_hot_dir(&mut hot, dir("/a", 1));
    push_hot_dir(&mut hot, dir("/b", 2));
    push_hot_dir(&mut hot, dir("/c", 3));
    assert_eq!(counts(&hot), vec![2, 3]);
    push_hot_dir(&mut hot, dir("/d", 2));
    assert_eq!(counts(&hot), vec![2, 3]);
}

#[test]
fn pop_returns_the_least_counted_member() {
    let mut hot = HotDirs::new(2);
    push_hot_dir(&mut hot, dir("/a", 4));
    push_hot_dir(&mut hot, dir("/b", 9));
    assert_eq!(pop_hot_dir(&mut hot, dir("/c", 1)).unwrap().path, "/c");
    assert_eq!(counts(&hot), vec![4, 9]);
    assert_eq!(pop_hot_dir(&mut hot, dir("/d", 6)).unwrap().path, "/a");
    assert_eq!(counts(&hot), vec![6, 9]);
    let mut file = dir("/f", 0);
    file.entry_type = EntryType::File;
    assert_eq!(pop_hot_dir(&mut hot, file).unwrap().path, "/f");
    assert_eq!(counts(&hot), vec![6, 9]);
    let mut one = HotDirs::new(1);
    assert_eq!(pop_hot_dir(&mut one, dir("/z", 1)).unwrap().path, "/z");
    assert!(get_hot_dir(&one).is_empty());
}

#[test]
fn scan_matches_names_and_skips_blacklisted_children() {
    let blacklist = Blacklist::new(&vec![".*cache.*".to_string()]);
    let children = vec![child("/w", "notes.txt"), child("/w/cache", "notes.md"), child("/w", "Notebook")];
    let res = search_target_from_dir(&children, "note", false, false, &blacklist);
    assert_eq!(res, vec!["/w/notes.txt".to_string(), "/w/Notebook".to_string()]);
    let res = search_target_from_dir(&children, "\\.txt$", false, true, &blacklist);
    assert_eq!(res, vec!["/w/notes.txt".to_string()]);
    let res = search_target_from_dir(&children, "(", false, true, &blacklist);
    assert!(res.is_empty());
}
