use file_elf::meta::{EntryMeta, EntryType};

fn record(path: &str, size: u64, modified: u64, access_count: u32, entry_type: EntryType) -> EntryMeta {
    EntryMeta { path: path.to_string(), size, modified, access_count, entry_type }
}

#[test]
fn test_entry_meta_ordering() {
    let entry_file1 = record("/file1", 100, 1_700_000_000, 10, EntryType::File);
    let entry_file2 = record("/file2", 100, 1_700_000_000, 20, EntryType::File);
    let entry_dir = record("/dir1", 100, 1_700_000_000, 5, EntryType::Dir);

    assert!(entry_file1 < entry_dir);
    assert!(entry_file2 < entry_dir);
    assert!(entry_file2 < entry_file1);
}

#[test]
fn test_entry_meta_equality() {
    let modified_time = 1_700_000_000 - 3600;
    let entry_file1 = record("/file1", 100, modified_time, 10, EntryType::File);
    let entry_file2 = record("/file1", 100, modified_time, 10, EntryType::File);

    assert_eq!(entry_file1, entry_file2);

    let mut entry_file2_different = entry_file2.clone();
    entry_file2_different.access_count = 15;
    assert_ne!(entry_file1, entry_file2_different);
}

#[test]
fn test_increment_access_count() {
    let mut entry = record("/file1", 100, 1_700_000_000, 10, EntryType::File);
    entry.increment_access_count();
    assert_eq!(entry.access_count, 11);
}

#[test]
fn test_new_entry_meta_empty() {
    let empty_entry = EntryMeta::new_empty().unwrap();

    assert!(empty_entry.path.is_empty());
    assert_eq!(empty_entry.size, 0);
    assert_eq!(empty_entry.entry_type, EntryType::Unknown);
}

#[test]
fn test_heap() {
    let entry_file1 = record("/file1", 100, 1_700_000_000, 10, EntryType::File);
    let entry_file2 = record("/file2", 200, 1_700_000_000 - 3600, 20, EntryType::File);
    let entry_dir1 = record("/dir1", 500, 1_700_000_000, 5, EntryType::Dir);
    let entry_dir2 = record("/dir2", 400, 1_700_000_000, 15, EntryType::Dir);

    let mut ranked = vec![entry_file1, entry_file2, entry_dir1, entry_dir2];
    ranked.sort_by(|a, b| a.partial_cmp(b).unwrap());
    for entry in &ranked {
        println!("{:?} - Access Count: {}, Type: {:?}", entry.path, entry.access_count, entry.entry_type);
    }
    let order: Vec<&str> = ranked.iter().map(|m| m.path.as_str()).collect();
    assert_eq!(order, vec!["/file2", "/file1", "/dir2", "/dir1"]);
}

#[test]
fn counter_saturates_at_maximum() {
    let mut entry = record("/f", 0, 0, u32::MAX, EntryType::File);
    entry.increment_access_count();
    assert_eq!(entry.access_count, u32::MAX);
}

#[test]
fn entry_type_tags_round_trip() {
    for t in [EntryType::Dir, EntryType::File, EntryType::Unknown] {
        assert_eq!(EntryType::from_tag(&t.to_string()), t);
    }
    assert_eq!(EntryType::Dir.to_string(), "Dir");
    assert_eq!(EntryType::from_tag("dir"), EntryType::Unknown);
}

#[test]
fn equal_counts_of_different_kinds_differ() {
    let a = record("/a", 1, 1, 7, EntryType::Dir);
    let b = record("/b", 2, 2, 7, EntryType::Dir);
    let c = record("/a", 1, 1, 7, EntryType::Unknown);
    assert_eq!(a, b);
    assert_ne!(a, c);
}

#[test]
fn directory_ranks_before_unknown_at_equal_count() {
    let d = record("/d", 0, 0, 5, EntryType::Dir);
    let u = record("/u", 0, 0, 5, EntryType::Unknown);
    assert_ne!(d, u);
    assert!(d < u);
    assert!(u > d);
    assert_eq!(d.partial_cmp(&record("/e", 1, 1, 5, EntryType::Dir)), Some(std::cmp::Ordering::Equal));
}
