use file_elf::api::{
    api_hot_search, api_regex_search, api_search, api_star_path, api_unstar_path, finish_star_path,
    results_from_store, store_fallback_wanted,
};
use file_elf::backend::{
    del_event_handler, finish_new_event, get_path_type, new_event_handler, plan_event, EventStep,
    EventTask, FsEvent,
};
use file_elf::cache::{init_trie, Cacher, StoredRow};
use file_elf::hot_dir::{DirChild, HotDirs};
use file_elf::meta::{EntryMeta, EntryType};
use file_elf::util::Blacklist;
use file_elf::writer::{db_writer_step, DbAction, StoreOp};

const STORE_FILE: &str = "/var/lib/index/sqlite3.db";

/// A store that only counts rows, driven by the writer's decisions.
fn apply(rows: &mut Vec<String>, op: StoreOp) {
    match op {
        StoreOp::Insert(p, _) => rows.push(p),
        StoreOp::Upsert(p, _) => {
            if !rows.contains(&p) {
                rows.push(p)
            }
        }
        StoreOp::DeletePrefix(p) => rows.retain(|r| !r.starts_with(&p)),
        StoreOp::DeleteOne(p) => rows.retain(|r| *r != p),
        StoreOp::Nothing => {}
    }
}

fn created(cacher: &mut Cacher, path: &str, rows: &[String]) -> Option<DbAction> {
    observed_as(cacher, path, rows, 12)
}

fn observed_as(cacher: &mut Cacher, path: &str, rows: &[String], size: u64) -> Option<DbAction> {
    let observed = Some(EntryMeta::new(path, size, 34, EntryType::File));
    match new_event_handler(cacher, path, STORE_FILE, observed.clone()) {
        EventStep::Ignore => None,
        EventStep::Send(a) => Some(a),
        EventStep::LookupStore => {
            let stored = if rows.iter().any(|r| r == path) {
                Some(EntryMeta::new(path, 0, 0, EntryType::File))
            } else {
                None
            };
            finish_new_event(cacher, path, stored, observed)
        }
    }
}

#[test]
fn test_init() {
    let mut cacher = Cacher::new();
    let mut hot = HotDirs::new(100);
    let rows = vec![
        StoredRow { entry: "a".to_string(), meta: EntryMeta::new("/k/a", 1, 1, EntryType::File), on_disk: true },
        StoredRow { entry: "gone".to_string(), meta: EntryMeta::new("/k/gone", 1, 1, EntryType::File), on_disk: false },
        StoredRow { entry: "x".to_string(), meta: EntryMeta::new("/k/target/x", 1, 1, EntryType::File), on_disk: true },
    ];
    let blacklist = Blacklist::new(&vec![".*target.*".to_string()]);
    let pruned = init_trie(&mut cacher, &mut hot, &rows, &blacklist);
    assert_eq!(pruned, vec!["/k/gone".to_string(), "/k/target/x".to_string()]);
    assert!(cacher.contains_path("/k/a", false));
    assert!(!cacher.contains_path("/k/gone", false));
    assert_eq!(cacher.search_path("/k/a", false).unwrap().access_count, 0);
}

#[test]
fn test_search() {
    let mut cacher = Cacher::new();
    cacher.add_path("/home/toni/小论文", None, false).unwrap();
    let res = api_search(&cacher, "小论文".to_string(), false);
    println!("{:?}", res);
    assert_eq!(res, vec![("/home/toni/小论文".to_string(), true)]);
}

#[test]
fn search_falls_back_on_the_store_only_when_empty() {
    let cacher = Cacher::new();
    let hits = api_search(&cacher, "b.txt".to_string(), false);
    assert!(store_fallback_wanted("b.txt", &hits));
    assert!(!store_fallback_wanted("", &hits));
    let rows = vec![EntryMeta::new("/s/b.txt", 0, 0, EntryType::File)];
    assert_eq!(results_from_store(&rows), vec![("/s/b.txt".to_string(), true)]);
    assert!(api_search(&cacher, String::new(), true).is_empty());
}

#[test]
fn created_file_is_found_and_stored_once() {
    let mut cacher = Cacher::new();
    let mut rows: Vec<String> = Vec::new();
    let blacklist = Blacklist::new(&vec![]);
    for task in plan_event(FsEvent::Create("/tmp/root/a/b.txt".to_string()), &blacklist) {
        if let EventTask::Created(p) = task {
            if let Some(action) = created(&mut cacher, &p, &rows) {
                apply(&mut rows, db_writer_step(action, EntryType::File));
            }
        }
    }
    assert_eq!(api_search(&cacher, "b.txt".to_string(), false), vec![("/tmp/root/a/b.txt".to_string(), true)]);
    assert_eq!(rows, vec!["/tmp/root/a/b.txt".to_string()]);
    let meta = cacher.search_path("/tmp/root/a/b.txt", false).unwrap();
    assert_eq!(meta.access_count, 1);
    assert_eq!(meta.size, 12);
}

#[test]
fn second_write_becomes_an_update() {
    let mut cacher = Cacher::new();
    let rows: Vec<String> = Vec::new();
    let first = created(&mut cacher, "/r/f", &rows).unwrap();
    assert!(matches!(first, DbAction::CREATE(ref p, _) if p == "/r/f"));
    let second = created(&mut cacher, "/r/f", &rows).unwrap();
    match second {
        DbAction::UPDATE(p, m) => {
            assert_eq!(p, "/r/f");
            assert_eq!(m.access_count, 2);
        }
        _ => panic!("expected an update"),
    }
}

#[test]
fn row_already_stored_sends_nothing() {
    let mut cacher = Cacher::new();
    let rows = vec!["/r/g".to_string()];
    assert!(created(&mut cacher, "/r/g", &rows).is_none());
    assert!(cacher.contains_path("/r/g", false));
}

#[test]
fn store_file_events_are_ignored() {
    let mut cacher = Cacher::new();
    assert!(matches!(new_event_handler(&mut cacher, STORE_FILE, STORE_FILE, None), EventStep::Ignore));
    assert!(del_event_handler(&mut cacher, STORE_FILE, STORE_FILE).is_none());
    assert!(matches!(api_star_path(&mut cacher, STORE_FILE.to_string(), STORE_FILE), EventStep::Ignore));
}

#[test]
fn rename_deletes_then_creates() {
    let mut cacher = Cacher::new();
    let mut rows: Vec<String> = Vec::new();
    let blacklist = Blacklist::new(&vec![]);
    let first = created(&mut cacher, "/tmp/root/a.txt", &rows).unwrap();
    apply(&mut rows, db_writer_step(first, EntryType::File));

    let mut sent: Vec<&'static str> = Vec::new();
    let event = FsEvent::Rename("/tmp/root/a.txt".to_string(), "/tmp/root/b.txt".to_string());
    for task in plan_event(event, &blacklist) {
        match task {
            EventTask::Removed(p) => {
                let action = del_event_handler(&mut cacher, &p, STORE_FILE).unwrap();
                sent.push("delete");
                apply(&mut rows, db_writer_step(action, EntryType::File));
            }
            EventTask::Created(p) => {
                let action = created(&mut cacher, &p, &rows).unwrap();
                assert!(matches!(action, DbAction::CREATE(_, _)));
                sent.push("create");
                apply(&mut rows, db_writer_step(action, EntryType::File));
            }
        }
    }
    assert_eq!(sent, vec!["delete", "create"]);
    assert!(cacher.contains_path("/tmp/root/b.txt", false));
    assert!(!cacher.contains_path("/tmp/root/a.txt", false));
    assert_eq!(rows, vec!["/tmp/root/b.txt".to_string()]);
}

#[test]
fn blacklisted_and_notice_events_plan_nothing() {
    let blacklist = Blacklist::new(&vec![".*node_modules.*".to_string()]);
    assert!(plan_event(FsEvent::Write("/p/node_modules/x".to_string()), &blacklist).is_empty());
    assert!(plan_event(FsEvent::Chmod("/p/x".to_string()), &blacklist).is_empty());
    assert!(plan_event(FsEvent::Rescan, &blacklist).is_empty());
    assert!(plan_event(FsEvent::Error("boom".to_string(), None), &blacklist).is_empty());
    let tasks = plan_event(FsEvent::Rename("/p/node_modules/x".to_string(), "/p/x".to_string()), &blacklist);
    assert_eq!(tasks.len(), 1);
    assert!(matches!(&tasks[0], EventTask::Created(p) if p == "/p/x"));
}

#[test]
fn writer_deletes_by_what_is_on_disk() {
    assert!(matches!(db_writer_step(DbAction::DELETE("/d".to_string()), EntryType::Dir), StoreOp::DeletePrefix(p) if p == "/d"));
    assert!(matches!(db_writer_step(DbAction::DELETE("/f".to_string()), EntryType::File), StoreOp::DeleteOne(p) if p == "/f"));
    assert!(matches!(db_writer_step(DbAction::DELETE("/g".to_string()), EntryType::Unknown), StoreOp::Nothing));
    assert!(matches!(db_writer_step(DbAction::FIND, EntryType::File), StoreOp::Nothing));
    let m = EntryMeta::new("/u", 1, 2, EntryType::File);
    assert!(matches!(db_writer_step(DbAction::UPDATE("/u".to_string(), m), EntryType::File), StoreOp::Upsert(p, _) if p == "/u"));
    assert_eq!(get_path_type(Some(true)), EntryType::Dir);
    assert_eq!(get_path_type(Some(false)), EntryType::File);
    assert_eq!(get_path_type(None), EntryType::Unknown);
}

#[test]
fn deleting_a_path_never_seen_keeps_the_trie() {
    let mut cacher = Cacher::new();
    cacher.add_path("/k/a", None, false).unwrap();
    let action = del_event_handler(&mut cacher, "/k/zzz", STORE_FILE).unwrap();
    assert!(matches!(action, DbAction::DELETE(ref p) if p == "/k/zzz"));
    assert!(cacher.contains_path("/k/a", false));
    let mut rows = vec!["/k/a".to_string()];
    apply(&mut rows, db_writer_step(action, EntryType::Unknown));
    assert_eq!(rows, vec!["/k/a".to_string()]);
}

#[test]
fn regex_search_through_the_facade() {
    let mut cacher = Cacher::new();
    for p in ["/p/a.txt", "/p/a.md", "/p/sub/b.txt"] {
        cacher.add_path(p, None, false).unwrap();
    }
    let mut res = api_regex_search(&cacher, ".*\\.txt$".to_string());
    res.sort();
    assert_eq!(res, vec![("/p/a.txt".to_string(), true), ("/p/sub/b.txt".to_string(), true)]);
    assert!(api_regex_search(&cacher, "[".to_string()).is_empty());
    assert!(api_regex_search(&cacher, String::new()).is_empty());
}

#[test]
fn hot_search_marks_what_the_index_tracks() {
    let mut cacher = Cacher::new();
    cacher.add_path("/h/report.txt", None, false).unwrap();
    let listings = vec![vec![
        DirChild { path: "/h/report.txt".to_string(), name: "report.txt".to_string() },
        DirChild { path: "/h/Report.md".to_string(), name: "Report.md".to_string() },
    ]];
    let blacklist = Blacklist::new(&vec![]);
    let res = api_hot_search(&mut cacher, &listings, "report".to_string(), false, false, &blacklist);
    assert_eq!(res, vec![("/h/report.txt".to_string(), true), ("/h/Report.md".to_string(), false)]);
    assert_eq!(cacher.search_path("/h/report.txt", false).unwrap().access_count, 0);
    assert!(api_hot_search(&mut cacher, &listings, String::new(), false, false, &blacklist).is_empty());
}

#[test]
fn star_then_unstar_nonexistent_path() {
    let mut cacher = Cacher::new();
    let blacklist = Blacklist::new(&vec![]);
    let step = api_star_path(&mut cacher, "/nonexistent".to_string(), STORE_FILE);
    assert!(matches!(step, EventStep::LookupStore));
    let action = finish_star_path(&mut cacher, "/nonexistent", None, None).unwrap();
    assert!(matches!(action, DbAction::CREATE(ref p, _) if p == "/nonexistent"));
    assert!(cacher.contains_path("/nonexistent", false));
    assert_eq!(cacher.search_path("/nonexistent", false).unwrap().access_count, 0);
    // The path is not on disk, so unstarring it is a no-op that reports success.
    assert!(api_unstar_path(&mut cacher, "/nonexistent".to_string(), false, &blacklist).is_none());
}

#[test]
fn unstar_removes_the_subtree_of_a_present_path() {
    let mut cacher = Cacher::new();
    let blacklist = Blacklist::new(&vec![]);
    cacher.add_path("/s/d/f", None, false).unwrap();
    let action = api_unstar_path(&mut cacher, "/s/d".to_string(), true, &blacklist).unwrap();
    assert!(matches!(action, DbAction::DELETE(ref p) if p == "/s/d"));
    assert!(!cacher.contains_path("/s/d/f", false));
    assert!(cacher.contains_path("/s", false));
}

#[test]
fn star_of_a_tracked_path_sends_an_update() {
    let mut cacher = Cacher::new();
    cacher.add_path("/t/x", None, false).unwrap();
    match api_star_path(&mut cacher, "/t/x".to_string(), STORE_FILE) {
        EventStep::Send(DbAction::UPDATE(p, m)) => {
            assert_eq!(p, "/t/x");
            assert_eq!(m.access_count, 0);
        }
        _ => panic!("expected an update"),
    }
}

#[test]
fn write_event_refreshes_the_tracked_record() {
    let mut cacher = Cacher::new();
    let rows: Vec<String> = Vec::new();
    observed_as(&mut cacher, "/r/w", &rows, 10).unwrap();
    match observed_as(&mut cacher, "/r/w", &rows, 99).unwrap() {
        DbAction::UPDATE(p, m) => {
            assert_eq!(p, "/r/w");
            assert_eq!(m.size, 99);
            assert_eq!(m.access_count, 2);
        }
        _ => panic!("expected an update"),
    }
    let kept = cacher.search_path("/r/w", false).unwrap();
    assert_eq!(kept.size, 99);
    assert_eq!(kept.path, "/r/w");
}
