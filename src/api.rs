use vstd::prelude::*;

use crate::backend::{finish_with_record, EventStep};
use crate::cache::Cacher;
use crate::hot_dir::{search_files_from_hot_dirs, selected_in_listings, string_views, DirChild};
use crate::meta::EntryMeta;
use crate::path::{path_components, str_views, valid_path};
use crate::trie::{entry_hit, map_delete, map_insert, opt_view, regex_hit, tracks};
use crate::util::{is_excluded, regex_valid, Blacklist};
use crate::writer::{ActionModel, DbAction};

verus! {

/// The paths of a list of answers.
pub open spec fn answer_paths(v: Seq<(String, bool)>) -> Seq<Seq<char>> {
    v.map_values(|a: (String, bool)| a.0@)
}

/// Every answer is marked as tracked by the index.
pub open spec fn all_known(v: Seq<(String, bool)>) -> bool {
    forall|i: int| 0 <= i < v.len() ==> (#[trigger] v[i]).1
}

/// Marks each path as tracked.
fn as_known(paths: &Vec<String>) -> (r: Vec<(String, bool)>)
    ensures
        answer_paths(r@) == str_views(paths@),
        all_known(r@),
{
    let mut out: Vec<(String, bool)> = Vec::new();
    let mut i: usize = 0;
    while i < paths.len()
        invariant
            i <= paths@.len(),
            answer_paths(out@) == str_views(paths@).take(i as int),
            all_known(out@),
        decreases paths@.len() - i,
    {
        let ghost before = out@;
        out.push((paths[i].clone(), true));
        assert(answer_paths(out@) =~= answer_paths(before).push(paths@[i as int]@));
        assert(str_views(paths@).take(i + 1) =~= str_views(paths@).take(i as int).push(paths@[i as int]@));
        i = i + 1;
    }
    assert(str_views(paths@).take(i as int) =~= str_views(paths@));
    out
}

/// The entry search over the index: the paths whose final component
/// matches `entry`, each marked as tracked; nothing for an empty `entry`.
pub fn api_search(cacher: &Cacher, entry: String, is_fuzzy: bool) -> (r: Vec<(String, bool)>)
    requires
        cacher.wf(),
    ensures
        all_known(r@),
        entry@.len() == 0 ==> r@.len() == 0,
        forall|p: Seq<char>|
            #![trigger answer_paths(r@).contains(p)]
            answer_paths(r@).contains(p) <==> (entry@.len() > 0 && entry_hit(cacher@, entry@, is_fuzzy, p)),
        answer_paths(r@).no_duplicates(),
{
    let found = cacher.search_entry(entry.as_str(), is_fuzzy);
    let r = as_known(&found);
    proof {
        if entry@.len() == 0 && str_views(found@).len() > 0 {
            assert(str_views(found@).contains(str_views(found@)[0]));
        }
    }
    r
}

/// Whether an entry search must fall back on the store: the entry is not
/// empty and the index found nothing.
pub fn store_fallback_wanted(entry: &str, hits: &Vec<(String, bool)>) -> (r: bool)
    ensures
        r == (entry@.len() > 0 && hits@.len() == 0),
{
    entry.unicode_len() > 0 && hits.len() == 0
}

/// The answers made of the rows that the store found by entry name, each
/// marked as tracked.
pub fn results_from_store(rows: &Vec<EntryMeta>) -> (r: Vec<(String, bool)>)
    ensures
        answer_paths(r@) == rows@.map_values(|m: EntryMeta| m.path@),
        all_known(r@),
{
    let mut out: Vec<(String, bool)> = Vec::new();
    let mut i: usize = 0;
    while i < rows.len()
        invariant
            i <= rows@.len(),
            answer_paths(out@) == rows@.map_values(|m: EntryMeta| m.path@).take(i as int),
            all_known(out@),
        decreases rows@.len() - i,
    {
        let ghost before = out@;
        out.push((rows[i].path.clone(), true));
        assert(answer_paths(out@) =~= answer_paths(before).push(rows@[i as int].path@));
        assert(rows@.map_values(|m: EntryMeta| m.path@).take(i + 1) =~= rows@.map_values(
            |m: EntryMeta| m.path@,
        ).take(i as int).push(rows@[i as int].path@));
        i = i + 1;
    }
    assert(rows@.map_values(|m: EntryMeta| m.path@).take(i as int) =~= rows@.map_values(
        |m: EntryMeta| m.path@,
    ));
    out
}

/// The search among the children of the hot directories: the answers in
/// listing order, each marked with whether the index tracks it (looked up
/// without counting); nothing for an empty `entry`.
pub fn api_hot_search(
    cacher: &mut Cacher,
    listings: &Vec<Vec<DirChild>>,
    entry: String,
    is_fuzzy: bool,
    is_regex: bool,
    blacklist: &Blacklist,
) -> (r: Vec<(String, bool)>)
    requires
        old(cacher).wf(),
        blacklist.wf(),
    ensures
        final(cacher).wf(),
        final(cacher)@ == old(cacher)@,
        entry@.len() == 0 ==> r@.len() == 0,
        entry@.len() > 0 ==> answer_paths(r@) == selected_in_listings(
            listings@,
            entry@,
            is_fuzzy,
            is_regex,
            *blacklist,
        ),
        forall|i: int| 0 <= i < r@.len() ==> (#[trigger] r@[i]).1 == tracks(old(cacher)@, r@[i].0@),
{
    let mut out: Vec<(String, bool)> = Vec::new();
    if entry.unicode_len() == 0 {
        return out;
    }
    let found = search_files_from_hot_dirs(listings, entry.as_str(), is_fuzzy, is_regex, blacklist);
    let ghost m0 = cacher@;
    let mut i: usize = 0;
    while i < found.len()
        invariant
            cacher.wf(),
            cacher@ == m0,
            i <= found@.len(),
            answer_paths(out@) == string_views(found@).take(i as int),
            forall|k: int| 0 <= k < out@.len() ==> (#[trigger] out@[k]).1 == tracks(m0, out@[k].0@),
        decreases found@.len() - i,
    {
        let known = cacher.contains_path(found[i].as_str(), false);
        let ghost before = out@;
        out.push((found[i].clone(), known));
        assert(answer_paths(out@) =~= answer_paths(before).push(found@[i as int]@));
        assert(string_views(found@).take(i + 1) =~= string_views(found@).take(i as int).push(found@[i as int]@));
        assert(out@[i as int].1 == tracks(m0, out@[i as int].0@));
        assert forall|k: int| 0 <= k < out@.len() implies (#[trigger] out@[k]).1 == tracks(m0, out@[k].0@) by {
            if k < i {
                assert(out@[k] == before[k]);
            }
        }
        i = i + 1;
    }
    assert(string_views(found@).take(i as int) =~= string_views(found@));
    out
}

/// The regular-expression search over the index: the paths in which
/// `path` finds a match, each marked as tracked; nothing for an empty or
/// invalid expression.
pub fn api_regex_search(cacher: &Cacher, path: String) -> (r: Vec<(String, bool)>)
    requires
        cacher.wf(),
    ensures
        all_known(r@),
        (path@.len() == 0 || !regex_valid(path@)) ==> r@.len() == 0,
        forall|p: Seq<char>|
            #![trigger answer_paths(r@).contains(p)]
            answer_paths(r@).contains(p) <==> (path@.len() > 0 && regex_valid(path@) && regex_hit(
                cacher@,
                path@,
                p,
            )),
        answer_paths(r@).no_duplicates(),
{
    if path.unicode_len() == 0 {
        let out: Vec<(String, bool)> = Vec::new();
        assert(answer_paths(out@) =~= Seq::<Seq<char>>::empty());
        return out;
    }
    let found = cacher.search_path_regex(path.as_str());
    proof {
        if str_views(found@).len() > 0 {
            assert(str_views(found@).contains(str_views(found@)[0]));
        }
    }
    as_known(&found)
}

/// Starring, first half, under the cache lock: the store file itself is
/// ignored; a path the index already tracks is sent as an update with its
/// record (no counting); any other path must be looked up in the store and
/// finished with [`finish_star_path`].
pub fn api_star_path(cacher: &mut Cacher, path_data: String, store_file: &str) -> (r: EventStep)
    requires
        old(cacher).wf(),
    ensures
        final(cacher).wf(),
        final(cacher)@ == old(cacher)@,
        path_data@ == store_file@ ==> r is Ignore,
        path_data@ != store_file@ && tracks(old(cacher)@, path_data@) ==> (r matches EventStep::Send(a) && a@ == ActionModel::Update(
            path_data@,
            old(cacher)@[path_components(path_data@)],
        )),
        path_data@ != store_file@ && !tracks(old(cacher)@, path_data@) ==> r is LookupStore,
{
    if path_data.as_str().to_owned() == store_file.to_owned() {
        return EventStep::Ignore;
    }
    match cacher.search_path(path_data.as_str(), false) {
        Some(meta) => EventStep::Send(DbAction::UPDATE(path_data, meta)),
        None => EventStep::LookupStore,
    }
}

/// Starring, second half, under the cache lock again: inserts the path
/// without counting, its record taken from the store's row when there is
/// one and otherwise from what was observed on disk; a creation command
/// follows when the store had no row.
pub fn finish_star_path(
    cacher: &mut Cacher,
    path_data: &str,
    stored: Option<EntryMeta>,
    observed: Option<EntryMeta>,
) -> (r: Option<DbAction>)
    requires
        old(cacher).wf(),
    ensures
        final(cacher).wf(),
        !valid_path(path_data@) ==> r is None && final(cacher)@ == old(cacher)@,
        valid_path(path_data@) ==> final(cacher)@ == map_insert(
            old(cacher)@,
            path_components(path_data@),
            if stored is Some {
                opt_view(stored)
            } else {
                opt_view(observed)
            },
            false,
        ),
        valid_path(path_data@) && stored is Some ==> r is None,
        valid_path(path_data@) && stored is None ==> (r matches Some(a) && a@ == ActionModel::Create(
            path_data@,
            final(cacher)@[path_components(path_data@)],
        )),
{
    finish_with_record(cacher, path_data, stored, observed, false)
}

/// Unstarring, under the cache lock: a path that is gone from disk or
/// blacklisted is left alone; otherwise the path and everything below it
/// leave the index and a deletion command follows.
pub fn api_unstar_path(
    cacher: &mut Cacher,
    path_data: String,
    exists_on_disk: bool,
    blacklist: &Blacklist,
) -> (r: Option<DbAction>)
    requires
        old(cacher).wf(),
        blacklist.wf(),
    ensures
        final(cacher).wf(),
        (!exists_on_disk || blacklist.excludes(path_data@)) ==> r is None && final(cacher)@ == old(
            cacher,
        )@,
        !(!exists_on_disk || blacklist.excludes(path_data@)) ==> {
            &&& (r matches Some(a) && a@ == ActionModel::Delete(path_data@))
            &&& tracks(old(cacher)@, path_data@) ==> final(cacher)@ == map_delete(
                old(cacher)@,
                path_components(path_data@),
            )
            &&& !tracks(old(cacher)@, path_data@) ==> final(cacher)@ == old(cacher)@
        },
{
    if is_excluded(path_data.as_str(), exists_on_disk, blacklist) {
        return None;
    }
    cacher.remove_path(path_data.as_str());
    Some(DbAction::DELETE(path_data))
}

} // verus!
