use vstd::prelude::*;

use crate::cache::Cacher;
use crate::meta::{EntryMeta, EntryType, MetaModel};
use crate::path::{path_components, valid_path};
use crate::trie::{map_delete, map_insert, map_refresh, opt_view, tracks, TrieView};
use crate::util::Blacklist;
use crate::writer::{rows_after, store_op_spec, ActionModel, DbAction};

verus! {

/// The kind of entry that a metadata probe reports: `None` when the path
/// could not be read, otherwise whether it is a directory.
pub fn get_path_type(probe: Option<bool>) -> (r: EntryType)
    ensures
        r == match probe {
            None => EntryType::Unknown,
            Some(true) => EntryType::Dir,
            Some(false) => EntryType::File,
        },
{
    match probe {
        None => EntryType::Unknown,
        Some(is_dir) => if is_dir {
            EntryType::Dir
        } else {
            EntryType::File
        },
    }
}

/// A debounced filesystem event.
pub enum FsEvent {
    Create(String),
    Write(String),
    Remove(String),
    Rename(String, String),
    NoticeWrite(String),
    NoticeRemove(String),
    Chmod(String),
    Rescan,
    Error(String, Option<String>),
}

/// What an event asks of the index.
pub enum EventTask {
    /// Run the new-event procedure on the path.
    Created(String),
    /// Run the removal procedure on the path.
    Removed(String),
}

/// The mathematical content of an [`EventTask`].
pub ghost enum TaskModel {
    Created(Seq<char>),
    Removed(Seq<char>),
}

impl View for EventTask {
    type V = TaskModel;

    open spec fn view(&self) -> TaskModel {
        match self {
            EventTask::Created(p) => TaskModel::Created(p@),
            EventTask::Removed(p) => TaskModel::Removed(p@),
        }
    }
}

/// The views of a sequence of tasks.
pub open spec fn task_views(v: Seq<EventTask>) -> Seq<TaskModel> {
    v.map_values(|t: EventTask| t@)
}

/// The tasks for one event: creation and writes run the new-event
/// procedure, removals the removal procedure, a rename both (the old path
/// first); blacklisted paths and the remaining kinds ask for nothing.
pub open spec fn event_tasks(e: FsEvent, blacklist: Blacklist) -> Seq<TaskModel> {
    match e {
        FsEvent::Create(p) | FsEvent::Write(p) => if blacklist.excludes(p@) {
            seq![]
        } else {
            seq![TaskModel::Created(p@)]
        },
        FsEvent::Remove(p) => if blacklist.excludes(p@) {
            seq![]
        } else {
            seq![TaskModel::Removed(p@)]
        },
        FsEvent::Rename(old, new) => (if blacklist.excludes(old@) {
            seq![]
        } else {
            seq![TaskModel::Removed(old@)]
        }) + (if blacklist.excludes(new@) {
            seq![]
        } else {
            seq![TaskModel::Created(new@)]
        }),
        _ => seq![],
    }
}

/// Decides what the index does for one filesystem event.
pub fn plan_event(event: FsEvent, blacklist: &Blacklist) -> (r: Vec<EventTask>)
    requires
        blacklist.wf(),
    ensures
        task_views(r@) == event_tasks(event, *blacklist),
{
    let ghost e = event;
    let mut out: Vec<EventTask> = Vec::new();
    match event {
        FsEvent::Create(p) | FsEvent::Write(p) => {
            if !blacklist.is_blacklisted(p.as_str()) {
                out.push(EventTask::Created(p));
            }
        },
        FsEvent::Remove(p) => {
            if !blacklist.is_blacklisted(p.as_str()) {
                out.push(EventTask::Removed(p));
            }
        },
        FsEvent::Rename(old, new) => {
            if !blacklist.is_blacklisted(old.as_str()) {
                out.push(EventTask::Removed(old));
            }
            if !blacklist.is_blacklisted(new.as_str()) {
                out.push(EventTask::Created(new));
            }
        },
        _ => {},
    }
    assert(task_views(out@) =~= event_tasks(e, *blacklist));
    out
}

/// The next step of the new-event procedure after the cache has been consulted.
pub enum EventStep {
    /// Nothing more to do.
    Ignore,
    /// Send this command to the writer.
    Send(DbAction),
    /// Release the cache, look the path up in the store, and finish with
    /// [`finish_new_event`].
    LookupStore,
}

/// First half of the new-event procedure, under the cache lock: the store
/// file itself is ignored; a path already in the trie has its record
/// refreshed from what was `observed` on disk (when anything was), its
/// counter raised, and the record sent as an update; any other path must
/// be looked up in the store first.
pub fn new_event_handler(
    cacher: &mut Cacher,
    path: &str,
    store_file: &str,
    observed: Option<EntryMeta>,
) -> (r: EventStep)
    requires
        old(cacher).wf(),
    ensures
        final(cacher).wf(),
        path@ == store_file@ ==> r is Ignore && final(cacher)@ == old(cacher)@,
        path@ != store_file@ && tracks(old(cacher)@, path@) ==> {
            &&& final(cacher)@ == map_refresh(old(cacher)@, path_components(path@), opt_view(observed), true)
            &&& (r matches EventStep::Send(a) && a@ == ActionModel::Update(
                path@,
                final(cacher)@[path_components(path@)],
            ))
        },
        path@ != store_file@ && !tracks(old(cacher)@, path@) ==> r is LookupStore && final(cacher)@
            == old(cacher)@,
{
    if path.to_owned() == store_file.to_owned() {
        return EventStep::Ignore;
    }
    match cacher.refresh_path(path, observed, true) {
        Some(meta) => EventStep::Send(DbAction::UPDATE(path.to_owned(), meta)),
        None => EventStep::LookupStore,
    }
}

/// Second half of the new-event procedure, under the cache lock again:
/// inserts the path with counting, its record taken from the store when
/// the store had the row and otherwise from what was observed on disk; a
/// creation command follows only when the store did not have the row.
pub fn finish_new_event(
    cacher: &mut Cacher,
    path: &str,
    stored: Option<EntryMeta>,
    observed: Option<EntryMeta>,
) -> (r: Option<DbAction>)
    requires
        old(cacher).wf(),
    ensures
        final(cacher).wf(),
        !valid_path(path@) ==> r is None && final(cacher)@ == old(cacher)@,
        valid_path(path@) ==> final(cacher)@ == map_insert(
            old(cacher)@,
            path_components(path@),
            if stored is Some {
                opt_view(stored)
            } else {
                opt_view(observed)
            },
            true,
        ),
        valid_path(path@) && stored is Some ==> r is None,
        valid_path(path@) && stored is None ==> (r matches Some(a) && a@ == ActionModel::Create(
            path@,
            final(cacher)@[path_components(path@)],
        )),
{
    finish_with_record(cacher, path, stored, observed, true)
}

/// Inserts `path` with the store's record when there was a row and the
/// observed one otherwise; a creation command follows when there was no row.
pub(crate) fn finish_with_record(
    cacher: &mut Cacher,
    path: &str,
    stored: Option<EntryMeta>,
    observed: Option<EntryMeta>,
    bump: bool,
) -> (r: Option<DbAction>)
    requires
        old(cacher).wf(),
    ensures
        final(cacher).wf(),
        !valid_path(path@) ==> r is None && final(cacher)@ == old(cacher)@,
        valid_path(path@) ==> final(cacher)@ == map_insert(
            old(cacher)@,
            path_components(path@),
            if stored is Some {
                opt_view(stored)
            } else {
                opt_view(observed)
            },
            bump,
        ),
        valid_path(path@) && stored is Some ==> r is None,
        valid_path(path@) && stored is None ==> (r matches Some(a) && a@ == ActionModel::Create(
            path@,
            final(cacher)@[path_components(path@)],
        )),
{
    let had_row = stored.is_some();
    let record = match stored {
        Some(m) => Some(m),
        None => observed,
    };
    match cacher.add_path(path, record, bump) {
        Ok(Some(meta)) => if had_row {
            None
        } else {
            Some(DbAction::CREATE(path.to_owned(), meta))
        },
        _ => None,
    }
}

/// Once the new-event procedure for a path has finished and the writer has
/// carried out the command it sent (if any), the path is in the trie and
/// has a row in the store.
pub proof fn new_event_reaches_trie_and_store(
    m: TrieView,
    rows: Set<Seq<char>>,
    p: Seq<char>,
    stored: Option<MetaModel>,
    observed: Option<MetaModel>,
    bump: bool,
    on_disk: EntryType,
)
    requires
        valid_path(p),
        stored is Some ==> rows.contains(p),
    ensures
        ({
            let after = map_insert(m, path_components(p), if stored is Some { stored } else { observed }, bump);
            let rows_now = if stored is Some {
                rows
            } else {
                rows_after(rows, store_op_spec(ActionModel::Create(p, after[path_components(p)]), on_disk))
            };
            tracks(after, p) && rows_now.contains(p)
        }),
{
    let c = path_components(p);
    assert(c.subrange(0, c.len() as int) =~= c);
}

/// The removal procedure, under the cache lock: the store file itself is
/// ignored; otherwise the path and everything below it leave the trie (a
/// path that is not there is no error) and a deletion command follows.
pub fn del_event_handler(cacher: &mut Cacher, path: &str, store_file: &str) -> (r: Option<DbAction>)
    requires
        old(cacher).wf(),
    ensures
        final(cacher).wf(),
        path@ == store_file@ ==> r is None && final(cacher)@ == old(cacher)@,
        path@ != store_file@ ==> (r matches Some(a) && a@ == ActionModel::Delete(path@)),
        path@ != store_file@ && tracks(old(cacher)@, path@) ==> final(cacher)@ == map_delete(
            old(cacher)@,
            path_components(path@),
        ),
        path@ != store_file@ && !tracks(old(cacher)@, path@) ==> final(cacher)@ == old(cacher)@,
{
    if path.to_owned() == store_file.to_owned() {
        return None;
    }
    cacher.remove_path(path);
    Some(DbAction::DELETE(path.to_owned()))
}

} // verus!
