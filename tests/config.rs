use file_elf::config::{log_level_of, Config, LogLevel};

#[test]
fn test_show_config() {
    let config_default = Config::default();
    let db = &config_default.database;
    println!(
        "dbtype: {}, path: {}, targets: {:?}, blacklist: {:?}, hotdirnum: {}, log_level: {}",
        db.dbtype, db.path, db.targets, db.blacklist, db.hotdirnum, db.log_level
    );
    assert_eq!(db.hotdirnum, 100);
}

#[test]
fn unknown_log_levels_mean_info() {
    assert_eq!(log_level_of("trace"), LogLevel::Trace);
    assert_eq!(log_level_of("error"), LogLevel::Error);
    assert_eq!(log_level_of("loud"), LogLevel::Info);
    assert_eq!(log_level_of("WARN"), LogLevel::Info);
}
