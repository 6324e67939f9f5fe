use vstd::prelude::*;

use crate::error::CustomError;
use crate::hot_dir::{hot_offer, HotDirs};
use crate::meta::{EntryMeta, EntryType, MetaModel};
use crate::path::{path_components, str_views, valid_path};
use crate::trie::{
    entry_hit, map_delete, map_insert, map_refresh, map_touch, opt_view, regex_hit, tracks, TrieCache, TrieView,
};
use crate::util::{is_excluded, regex_valid, Blacklist};

verus! {

/// The in-memory index: the path trie behind the cache lock.
pub struct Cacher {
    pub tree: TrieCache,
}

impl View for Cacher {
    type V = TrieView;

    open spec fn view(&self) -> TrieView {
        self.tree@
    }
}

impl Cacher {
    pub open spec fn wf(&self) -> bool {
        self.tree.wf()
    }

    /// An empty index.
    pub fn new() -> (r: Cacher)
        ensures
            r.wf(),
            r@ == Map::<Seq<Seq<char>>, MetaModel>::empty(),
    {
        Cacher { tree: TrieCache::new() }
    }

    /// Inserts `path` as [`TrieCache::insert_path`] does.
    pub fn add_path(&mut self, path: &str, meta: Option<EntryMeta>, update_count: bool) -> (r: Result<
        Option<EntryMeta>,
        CustomError,
    >)
        requires
            old(self).wf(),
        ensures
            final(self).wf(),
            r is Ok <==> valid_path(path@),
            r is Err ==> r == Err::<Option<EntryMeta>, CustomError>(CustomError::PathError)
                && final(self)@ == old(self)@,
            r is Ok ==> final(self)@ == map_insert(
                old(self)@,
                path_components(path@),
                opt_view(meta),
                update_count,
            ),
            r is Ok ==> r->Ok_0 is Some && r->Ok_0->Some_0@ == final(self)@[path_components(path@)],
    {
        self.tree.insert_path(path, meta, update_count)
    }

    /// Removes `path` and everything below it; a path that is not there is
    /// no error.
    pub fn remove_path(&mut self, path: &str)
        requires
            old(self).wf(),
        ensures
            final(self).wf(),
            tracks(old(self)@, path@) ==> final(self)@ == map_delete(old(self)@, path_components(path@)),
            !tracks(old(self)@, path@) ==> final(self)@ == old(self)@,
    {
        let _ = self.tree.delete(path);
    }

    /// Whether the index holds `path`, as [`TrieCache::contains_full_path`].
    pub fn contains_path(&mut self, path: &str, update_count: bool) -> (r: bool)
        requires
            old(self).wf(),
        ensures
            final(self).wf(),
            r == tracks(old(self)@, path@),
            valid_path(path@) ==> final(self)@ == map_touch(
                old(self)@,
                path_components(path@),
                update_count,
            ),
            !valid_path(path@) ==> final(self)@ == old(self)@,
    {
        self.tree.contains_full_path(path, update_count)
    }

    /// The record of `path`, as [`TrieCache::search_full_path`].
    pub fn search_path(&mut self, path: &str, update_count: bool) -> (r: Option<EntryMeta>)
        requires
            old(self).wf(),
        ensures
            final(self).wf(),
            r is Some <==> tracks(old(self)@, path@),
            valid_path(path@) ==> final(self)@ == map_touch(
                old(self)@,
                path_components(path@),
                update_count,
            ),
            !valid_path(path@) ==> final(self)@ == old(self)@,
            r is Some ==> r->Some_0@ == final(self)@[path_components(path@)],
    {
        self.tree.search_full_path(path, update_count)
    }

    /// Refreshes the record of `path`, as [`TrieCache::refresh_path`].
    pub fn refresh_path(&mut self, path: &str, observed: Option<EntryMeta>, update_count: bool) -> (r: Option<
        EntryMeta,
    >)
        requires
            old(self).wf(),
        ensures
            final(self).wf(),
            r is Some <==> tracks(old(self)@, path@),
            valid_path(path@) ==> final(self)@ == map_refresh(
                old(self)@,
                path_components(path@),
                opt_view(observed),
                update_count,
            ),
            !valid_path(path@) ==> final(self)@ == old(self)@,
            r is Some ==> r->Some_0@ == final(self)@[path_components(path@)],
    {
        self.tree.refresh_path(path, observed, update_count)
    }

    /// The paths matching the regular expression `pattern`.
    pub fn search_path_regex(&self, pattern: &str) -> (r: Vec<String>)
        requires
            self.wf(),
        ensures
            forall|p: Seq<char>|
                #![trigger str_views(r@).contains(p)]
                str_views(r@).contains(p) <==> (regex_valid(pattern@) && regex_hit(self@, pattern@, p)),
            str_views(r@).no_duplicates(),
    {
        self.tree.search_path_regex(pattern)
    }

    /// The paths whose final component matches `entry`.
    pub fn search_entry(&self, entry: &str, is_fuzzy: bool) -> (r: Vec<String>)
        requires
            self.wf(),
        ensures
            forall|p: Seq<char>|
                #![trigger str_views(r@).contains(p)]
                str_views(r@).contains(p) <==> (entry@.len() > 0 && entry_hit(self@, entry@, is_fuzzy, p)),
            str_views(r@).no_duplicates(),
    {
        self.tree.search_entry(entry, is_fuzzy)
    }
}

/// One row of the persistent store as read at startup, with whether its
/// path still exists on disk.
pub struct StoredRow {
    pub entry: String,
    pub meta: EntryMeta,
    pub on_disk: bool,
}

/// Whether a stored row is to be pruned: its path is gone or blacklisted.
pub open spec fn row_excluded(r: StoredRow, blacklist: Blacklist) -> bool {
    !r.on_disk || blacklist.excludes(r.meta.path@)
}

/// The trie after loading `rows` without counting; pruned rows and rows
/// whose path cannot key the trie leave it as it was.
pub open spec fn boot_trie(m: TrieView, rows: Seq<StoredRow>, blacklist: Blacklist) -> TrieView
    decreases rows.len(),
{
    if rows.len() == 0 {
        m
    } else {
        let before = boot_trie(m, rows.drop_last(), blacklist);
        let r = rows.last();
        if row_excluded(r, blacklist) || !valid_path(r.meta.path@) {
            before
        } else {
            map_insert(before, path_components(r.meta.path@), Some(r.meta@), false)
        }
    }
}

/// The hot set after offering the directory records of the rows kept.
pub open spec fn boot_hot(h: Seq<MetaModel>, cap: nat, rows: Seq<StoredRow>, blacklist: Blacklist) -> Seq<
    MetaModel,
>
    decreases rows.len(),
{
    if rows.len() == 0 {
        h
    } else {
        let before = boot_hot(h, cap, rows.drop_last(), blacklist);
        let r = rows.last();
        if row_excluded(r, blacklist) || r.meta.entry_type != EntryType::Dir {
            before
        } else {
            hot_offer(before, cap, r.meta@)
        }
    }
}

/// The paths of the pruned rows, in order.
pub open spec fn boot_pruned(rows: Seq<StoredRow>, blacklist: Blacklist) -> Seq<Seq<char>>
    decreases rows.len(),
{
    if rows.len() == 0 {
        Seq::empty()
    } else {
        let before = boot_pruned(rows.drop_last(), blacklist);
        if row_excluded(rows.last(), blacklist) {
            before.push(rows.last().meta.path@)
        } else {
            before
        }
    }
}

/// Loads the stored rows into the trie (without counting) and offers the
/// directory records to the hot set; returns the paths of the rows to
/// delete from the store because they are gone from disk or blacklisted.
pub fn init_trie(cacher: &mut Cacher, hot: &mut HotDirs, rows: &Vec<StoredRow>, blacklist: &Blacklist) -> (r: Vec<
    String,
>)
    requires
        old(cacher).wf(),
        old(hot).wf(),
        blacklist.wf(),
    ensures
        final(cacher).wf(),
        final(hot).wf(),
        final(hot).capacity == old(hot).capacity,
        final(cacher)@ == boot_trie(old(cacher)@, rows@, *blacklist),
        final(hot)@ == boot_hot(old(hot)@, old(hot).capacity as nat, rows@, *blacklist),
        str_views(r@) == boot_pruned(rows@, *blacklist),
{
    let ghost m0 = cacher@;
    let ghost h0 = hot@;
    let ghost cap = hot.capacity as nat;
    let mut pruned: Vec<String> = Vec::new();
    let mut i: usize = 0;
    while i < rows.len()
        invariant
            blacklist.wf(),
            cacher.wf(),
            hot.wf(),
            hot.capacity == cap,
            i <= rows@.len(),
            cacher@ == boot_trie(m0, rows@.take(i as int), *blacklist),
            hot@ == boot_hot(h0, cap, rows@.take(i as int), *blacklist),
            str_views(pruned@) == boot_pruned(rows@.take(i as int), *blacklist),
        decreases rows@.len() - i,
    {
        let row = &rows[i];
        let ghost pre = rows@.take(i as int);
        assert(rows@.take(i + 1).drop_last() =~= pre);
        assert(rows@.take(i + 1).last() == *row);
        let path = row.meta.path.as_str();
        if is_excluded(path, row.on_disk, blacklist) {
            let ghost before = pruned@;
            pruned.push(row.meta.path.clone());
            assert(str_views(pruned@) =~= str_views(before).push(row.meta.path@));
        } else {
            if row.meta.entry_type == EntryType::Dir {
                let _ = hot.offer(row.meta.duplicate());
            }
            let _ = cacher.add_path(path, Some(row.meta.duplicate()), false);
        }
        i = i + 1;
    }
    assert(rows@.take(i as int) =~= rows@);
    pruned
}

/// Loading stored rows never counts: records already in the trie keep
/// exactly what they had, and every record the load creates carries either
/// the count of a stored row or zero.
pub proof fn boot_counts_come_from_rows(m: TrieView, rows: Seq<StoredRow>, blacklist: Blacklist)
    ensures
        forall|q: Seq<Seq<char>>| #[trigger] m.contains_key(q) ==> boot_trie(m, rows, blacklist).contains_key(q)
            && boot_trie(m, rows, blacklist)[q] == m[q],
        forall|q: Seq<Seq<char>>|
            #[trigger] boot_trie(m, rows, blacklist).contains_key(q) && !m.contains_key(q) ==> (boot_trie(
                m,
                rows,
                blacklist,
            )[q].access_count == 0 || exists|i: int|
                0 <= i < rows.len() && boot_trie(m, rows, blacklist)[q].access_count == (#[trigger] rows[i]).meta.access_count),
    decreases rows.len(),
{
    if rows.len() > 0 {
        let front = rows.drop_last();
        boot_counts_come_from_rows(m, front, blacklist);
        let before = boot_trie(m, front, blacklist);
        let after = boot_trie(m, rows, blacklist);
        let r = rows.last();
        assert(r == rows[rows.len() - 1]);
        assert forall|q: Seq<Seq<char>>| #[trigger] after.contains_key(q) && !m.contains_key(q) implies (after[q].access_count == 0
            || exists|i: int| 0 <= i < rows.len() && after[q].access_count == (#[trigger] rows[i]).meta.access_count) by {
            if before.contains_key(q) {
                assert(after[q] == before[q]);
                if before[q].access_count != 0 {
                    let i = choose|i: int| 0 <= i < front.len() && before[q].access_count == (#[trigger] front[i]).meta.access_count;
                    assert(front[i] == rows[i]);
                }
            }
        }
    }
}

} // verus!
