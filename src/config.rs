use vstd::prelude::*;

verus! {

/// The `database` section of the configuration file.
pub struct DatabaseConfig {
    /// The store backend; `sqlite` is the one provided.
    pub dbtype: String,
    /// Where the store file lives.
    pub path: String,
    /// The roots to watch, one watcher each.
    pub targets: Vec<String>,
    /// Regular expressions for paths to leave out of the index.
    pub blacklist: Vec<String>,
    /// How many directories the hot set holds.
    pub hotdirnum: usize,
    /// One of trace, debug, info, warn, error.
    pub log_level: String,
}

/// The whole configuration file.
pub struct Config {
    pub database: DatabaseConfig,
}

/// How much the daemon logs.
#[derive(Debug, Clone, Copy, PartialEq, Eq, Structural)]
pub enum LogLevel {
    Trace,
    Debug,
    Info,
    Warn,
    Error,
}

/// The level a configured name stands for; any other name means `Info`.
pub open spec fn level_named(s: Seq<char>) -> LogLevel {
    if s == "trace"@ {
        LogLevel::Trace
    } else if s == "debug"@ {
        LogLevel::Debug
    } else if s == "warn"@ {
        LogLevel::Warn
    } else if s == "error"@ {
        LogLevel::Error
    } else {
        LogLevel::Info
    }
}

/// Reads the configured log level; any other name means `Info`.
pub fn log_level_of(name: &str) -> (r: LogLevel)
    ensures
        r == level_named(name@),
{
    let s = name.to_owned();
    if s == String::from_str("trace") {
        LogLevel::Trace
    } else if s == String::from_str("debug") {
        LogLevel::Debug
    } else if s == String::from_str("warn") {
        LogLevel::Warn
    } else if s == String::from_str("error") {
        LogLevel::Error
    } else {
        LogLevel::Info
    }
}

/// The capacity of the hot set when nothing else is configured.
pub const DEFAULT_HOTDIRNUM: usize = 100;

impl Default for DatabaseConfig {
    /// The store `sqlite3.db` in the working directory, the filesystem root
    /// as the one target, build outputs and caches blacklisted, a hot set of
    /// 100 directories, and the `info` log level.
    fn default() -> (r: DatabaseConfig)
        ensures
            r.dbtype@ == "sqlite"@,
            r.path@ == "sqlite3.db"@,
            r.targets@.len() == 1 && r.targets@[0]@ == "/"@,
            r.blacklist@.len() == 4,
            r.blacklist@[0]@ == ".*build.*"@,
            r.blacklist@[1]@ == ".*target.*"@,
            r.blacklist@[2]@ == ".*[Cc]ache.*."@,
            r.blacklist@[3]@ == ".*node_modules.*"@,
            r.hotdirnum == DEFAULT_HOTDIRNUM,
            r.log_level@ == "info"@,
    {
        let mut targets: Vec<String> = Vec::new();
        targets.push(String::from_str("/"));
        let mut blacklist: Vec<String> = Vec::new();
        blacklist.push(String::from_str(".*build.*"));
        blacklist.push(String::from_str(".*target.*"));
        blacklist.push(String::from_str(".*[Cc]ache.*."));
        blacklist.push(String::from_str(".*node_modules.*"));
        DatabaseConfig {
            dbtype: String::from_str("sqlite"),
            path: String::from_str("sqlite3.db"),
            targets,
            blacklist,
            hotdirnum: DEFAULT_HOTDIRNUM,
            log_level: String::from_str("info"),
        }
    }
}

impl Default for Config {
    /// The default `database` section.
    fn default() -> (r: Config)
        ensures
            r.database.dbtype@ == "sqlite"@,
            r.database.path@ == "sqlite3.db"@,
            r.database.targets@.len() == 1 && r.database.targets@[0]@ == "/"@,
            r.database.blacklist@.len() == 4,
            r.database.blacklist@[0]@ == ".*build.*"@,
            r.database.blacklist@[1]@ == ".*target.*"@,
            r.database.blacklist@[2]@ == ".*[Cc]ache.*."@,
            r.database.blacklist@[3]@ == ".*node_modules.*"@,
            r.database.hotdirnum == DEFAULT_HOTDIRNUM,
            r.database.log_level@ == "info"@,
    {
        Config { database: DatabaseConfig::default() }
    }
}

} // verus!
