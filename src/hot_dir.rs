use vstd::prelude::*;

use crate::meta::{EntryMeta, EntryType, MetaModel};
use crate::util::{pattern_match, pattern_matches, regex_accepts, Blacklist, PathPattern};

verus! {

/// The index of the first record with the least access count.
pub open spec fn min_index(s: Seq<MetaModel>) -> int
    decreases s.len(),
{
    if s.len() <= 1 {
        0
    } else {
        let j = min_index(s.drop_last());
        if s.last().access_count < s[j].access_count {
            s.len() - 1
        } else {
            j
        }
    }
}

proof fn lemma_min_index(s: Seq<MetaModel>)
    requires
        s.len() > 0,
    ensures
        0 <= min_index(s) < s.len(),
        forall|k: int| 0 <= k < s.len() ==> s[min_index(s)].access_count <= (#[trigger] s[k]).access_count,
    decreases s.len(),
{
    if s.len() > 1 {
        lemma_min_index(s.drop_last());
        let j = min_index(s.drop_last());
        assert(s.drop_last()[j] == s[j]);
        assert forall|k: int| 0 <= k < s.len() implies s[min_index(s)].access_count <= (
        #[trigger] s[k]).access_count by {
            if k < s.len() - 1 {
                assert(s.drop_last()[k] == s[k]);
            }
        }
    }
}

/// The record that offering `m` into the set `s` of capacity `cap` leaves
/// out: `m` itself when it is not a directory or does not beat the weakest
/// member of a full set, the weakest member when `m` beats it, and nothing
/// when the set had room.
pub open spec fn hot_evicted(s: Seq<MetaModel>, cap: nat, m: MetaModel) -> Option<MetaModel> {
    if m.entry_type != EntryType::Dir {
        Some(m)
    } else if s.len() < cap {
        None
    } else if s.len() == 0 || m.access_count <= s[min_index(s)].access_count {
        Some(m)
    } else {
        Some(s[min_index(s)])
    }
}

/// The set after offering `m`: a directory is added while there is room;
/// in a full set it takes the place of the first member with the least
/// access count when its own count is higher.
pub open spec fn hot_offer(s: Seq<MetaModel>, cap: nat, m: MetaModel) -> Seq<MetaModel> {
    if m.entry_type != EntryType::Dir {
        s
    } else if s.len() < cap {
        s.push(m)
    } else if s.len() == 0 || m.access_count <= s[min_index(s)].access_count {
        s
    } else {
        s.update(min_index(s), m)
    }
}

/// The directories with the highest access counts, at most `capacity` of them.
pub struct HotDirs {
    pub capacity: usize,
    pub entries: Vec<EntryMeta>,
}

/// The views of a sequence of records.
pub open spec fn meta_views(v: Seq<EntryMeta>) -> Seq<MetaModel> {
    v.map_values(|m: EntryMeta| m@)
}

impl View for HotDirs {
    type V = Seq<MetaModel>;

    open spec fn view(&self) -> Seq<MetaModel> {
        meta_views(self.entries@)
    }
}

/// The position of the first record with the least access count.
fn min_position(v: &Vec<EntryMeta>) -> (r: usize)
    requires
        v@.len() > 0,
    ensures
        r as int == min_index(meta_views(v@)),
{
    let ghost s = meta_views(v@);
    let mut j: usize = 0;
    let mut i: usize = 1;
    while i < v.len()
        invariant
            1 <= i <= v@.len(),
            s == meta_views(v@),
            j as int == min_index(s.take(i as int)),
        decreases v@.len() - i,
    {
        assert(s.take(i + 1).drop_last() =~= s.take(i as int));
        proof {
            lemma_min_index(s.take(i as int));
        }
        assert(s.take(i + 1)[j as int] == s[j as int]);
        assert(s[i as int] == v@[i as int]@);
        assert(s[j as int] == v@[j as int]@);
        if v[i].access_count < v[j].access_count {
            j = i;
        }
        i = i + 1;
    }
    assert(s.take(i as int) =~= s);
    j
}

impl HotDirs {
    /// At most `capacity` members, all of them directories.
    pub open spec fn wf(&self) -> bool {
        &&& self@.len() <= self.capacity
        &&& forall|i: int| 0 <= i < self@.len() ==> (#[trigger] self@[i]).entry_type == EntryType::Dir
    }

    /// An empty set that holds at most `capacity` directories.
    pub fn new(capacity: usize) -> (r: HotDirs)
        ensures
            r.wf(),
            r.capacity == capacity,
            r@ == Seq::<MetaModel>::empty(),
    {
        let r = HotDirs { capacity, entries: Vec::new() };
        assert(r@ =~= Seq::<MetaModel>::empty());
        r
    }

    /// Offers `meta` under the bounded rule and returns the record left out.
    pub fn offer(&mut self, meta: EntryMeta) -> (r: Option<EntryMeta>)
        requires
            old(self).wf(),
        ensures
            final(self).wf(),
            final(self).capacity == old(self).capacity,
            final(self)@ == hot_offer(old(self)@, old(self).capacity as nat, meta@),
            match (r, hot_evicted(old(self)@, old(self).capacity as nat, meta@)) {
                (Some(x), Some(y)) => x@ == y,
                (None, None) => true,
                _ => false,
            },
    {
        let ghost s = self@;
        if meta.entry_type != EntryType::Dir {
            return Some(meta);
        }
        if self.entries.len() < self.capacity {
            self.entries.push(meta);
            assert(self@ =~= s.push(meta@));
            return None;
        }
        if self.entries.len() == 0 {
            return Some(meta);
        }
        let j = min_position(&self.entries);
        proof {
            lemma_min_index(s);
        }
        if meta.access_count <= self.entries[j].access_count {
            return Some(meta);
        }
        let out = self.entries.remove(j);
        self.entries.insert(j, meta);
        assert(self@ =~= s.update(j as int, meta@));
        Some(out)
    }

    /// A copy of the members, for diagnostics.
    pub fn snapshot(&self) -> (r: Vec<EntryMeta>)
        ensures
            meta_views(r@) == self@,
    {
        let mut out: Vec<EntryMeta> = Vec::new();
        let mut i: usize = 0;
        while i < self.entries.len()
            invariant
                i <= self.entries@.len(),
                meta_views(out@) == self@.take(i as int),
            decreases self.entries@.len() - i,
        {
            let ghost before = out@;
            out.push(self.entries[i].duplicate());
            assert(meta_views(out@) =~= meta_views(before).push(self.entries@[i as int]@));
            assert(self@.take(i + 1) =~= self@.take(i as int).push(self.entries@[i as int]@));
            i = i + 1;
        }
        assert(self@.take(i as int) =~= self@);
        out
    }
}

/// Offering a record keeps the set within its capacity and made of directories only.
pub proof fn offer_keeps_bound(s: Seq<MetaModel>, cap: nat, m: MetaModel)
    requires
        s.len() <= cap,
        forall|i: int| 0 <= i < s.len() ==> (#[trigger] s[i]).entry_type == EntryType::Dir,
    ensures
        hot_offer(s, cap, m).len() <= cap,
        forall|i: int|
            0 <= i < hot_offer(s, cap, m).len() ==> (#[trigger] hot_offer(s, cap, m)[i]).entry_type
                == EntryType::Dir,
{
    if m.entry_type == EntryType::Dir && s.len() >= cap && s.len() > 0 {
        lemma_min_index(s);
    }
}

/// Offers `meta` into the hot set under the bounded rule: a directory
/// grows the set while there is room, and the set never exceeds its
/// capacity.
pub fn push_hot_dir(hot: &mut HotDirs, meta: EntryMeta)
    requires
        old(hot).wf(),
    ensures
        final(hot).wf(),
        final(hot).capacity == old(hot).capacity,
        final(hot)@ == hot_offer(old(hot)@, old(hot).capacity as nat, meta@),
        final(hot)@.len() <= final(hot).capacity,
        meta.entry_type == EntryType::Dir ==> final(hot)@.len() == (if old(hot)@.len() < old(hot).capacity {
            old(hot)@.len() as int + 1
        } else {
            old(hot)@.len() as int
        }),
        meta.entry_type != EntryType::Dir ==> final(hot)@ == old(hot)@,
{
    proof {
        if old(hot)@.len() > 0 {
            lemma_min_index(old(hot)@);
        }
    }
    let _ = hot.offer(meta);
}

/// Adds `meta` and then takes out and returns the member with the least
/// access count (the first such member), so the set keeps its size. A
/// record that is not a directory never enters the set and is handed back.
pub fn pop_hot_dir(hot: &mut HotDirs, meta: EntryMeta) -> (r: Option<EntryMeta>)
    requires
        old(hot).wf(),
    ensures
        final(hot).wf(),
        final(hot).capacity == old(hot).capacity,
        final(hot)@.len() == old(hot)@.len(),
        r is Some,
        meta.entry_type != EntryType::Dir ==> final(hot)@ == old(hot)@ && r->Some_0@ == meta@,
        meta.entry_type == EntryType::Dir ==> {
            let all = old(hot)@.push(meta@);
            let k = min_index(all);
            &&& 0 <= k < all.len()
            &&& r->Some_0@ == all[k]
            &&& final(hot)@ == all.remove(k)
            &&& forall|j: int| 0 <= j < all.len() ==> all[k].access_count <= (#[trigger] all[j]).access_count
        },
{
    if meta.entry_type != EntryType::Dir {
        return Some(meta);
    }
    let ghost s = hot@;
    hot.entries.push(meta);
    let ghost all = hot@;
    assert(all =~= s.push(meta@));
    let k = min_position(&hot.entries);
    proof {
        lemma_min_index(all);
    }
    let out = hot.entries.remove(k);
    assert(hot@ =~= all.remove(k as int));
    assert forall|i: int| 0 <= i < hot@.len() implies (#[trigger] hot@[i]).entry_type == EntryType::Dir by {
        if i < k {
            assert(hot@[i] == all[i]);
        } else {
            assert(hot@[i] == all[i + 1]);
        }
    }
    Some(out)
}

/// A copy of the hot set's members.
pub fn get_hot_dir(hot: &HotDirs) -> (r: Vec<EntryMeta>)
    ensures
        meta_views(r@) == hot@,
{
    hot.snapshot()
}

/// One entry found directly inside a hot directory: its full path and its
/// file name.
pub struct DirChild {
    pub path: String,
    pub name: String,
}

/// Whether a child of a hot directory answers the query: it is not
/// blacklisted, and its file name matches `pattern` as a regular
/// expression or under the entry-name rule.
pub open spec fn child_selected(
    c: DirChild,
    pattern: Seq<char>,
    is_fuzzy: bool,
    is_regex: bool,
    blacklist: Blacklist,
) -> bool {
    &&& !blacklist.excludes(c.path@)
    &&& if is_regex {
        regex_accepts(c.name@, pattern)
    } else {
        pattern_matches(c.name@, pattern, is_fuzzy)
    }
}

/// The paths of the children that answer the query, in listing order.
pub open spec fn selected_children(
    cs: Seq<DirChild>,
    pattern: Seq<char>,
    is_fuzzy: bool,
    is_regex: bool,
    blacklist: Blacklist,
) -> Seq<Seq<char>>
    decreases cs.len(),
{
    if cs.len() == 0 {
        Seq::empty()
    } else {
        let rest = selected_children(cs.drop_last(), pattern, is_fuzzy, is_regex, blacklist);
        if child_selected(cs.last(), pattern, is_fuzzy, is_regex, blacklist) {
            rest.push(cs.last().path@)
        } else {
            rest
        }
    }
}

/// The answers found in each listing, one listing after another.
pub open spec fn selected_in_listings(
    ls: Seq<Vec<DirChild>>,
    pattern: Seq<char>,
    is_fuzzy: bool,
    is_regex: bool,
    blacklist: Blacklist,
) -> Seq<Seq<char>>
    decreases ls.len(),
{
    if ls.len() == 0 {
        Seq::empty()
    } else {
        selected_in_listings(ls.drop_last(), pattern, is_fuzzy, is_regex, blacklist) + selected_children(
            ls.last()@,
            pattern,
            is_fuzzy,
            is_regex,
            blacklist,
        )
    }
}

/// The views of a sequence of strings.
pub open spec fn string_views(v: Seq<String>) -> Seq<Seq<char>> {
    v.map_values(|x: String| x@)
}

/// Among the entries listed directly inside one hot directory, the paths of
/// those that answer the query; a regular expression that does not compile
/// matches nothing.
pub fn search_target_from_dir(
    children: &Vec<DirChild>,
    pattern: &str,
    is_fuzzy: bool,
    is_regex: bool,
    blacklist: &Blacklist,
) -> (r: Vec<String>)
    requires
        blacklist.wf(),
    ensures
        string_views(r@) == selected_children(children@, pattern@, is_fuzzy, is_regex, *blacklist),
{
    let compiled = if is_regex {
        PathPattern::new(pattern)
    } else {
        None
    };
    let mut out: Vec<String> = Vec::new();
    let mut i: usize = 0;
    while i < children.len()
        invariant
            blacklist.wf(),
            i <= children@.len(),
            is_regex ==> (compiled is Some <==> crate::util::regex_valid(pattern@)),
            is_regex && compiled is Some ==> compiled->Some_0@ == pattern@,
            string_views(out@) == selected_children(
                children@.take(i as int),
                pattern@,
                is_fuzzy,
                is_regex,
                *blacklist,
            ),
        decreases children@.len() - i,
    {
        let c = &children[i];
        assert(children@.take(i + 1).drop_last() =~= children@.take(i as int));
        assert(children@.take(i + 1).last() == *c);
        let keep = if blacklist.is_blacklisted(c.path.as_str()) {
            false
        } else if is_regex {
            match &compiled {
                Some(re) => re.is_match(c.name.as_str()),
                None => false,
            }
        } else {
            pattern_match(c.name.as_str(), pattern, is_fuzzy)
        };
        assert(keep == child_selected(*c, pattern@, is_fuzzy, is_regex, *blacklist));
        if keep {
            let ghost before = out@;
            out.push(c.path.clone());
            assert(string_views(out@) =~= string_views(before).push(c.path@));
        }
        i = i + 1;
    }
    assert(children@.take(i as int) =~= children@);
    out
}

/// The paths that answer the query among the listings of all hot
/// directories, in order.
pub fn search_files_from_hot_dirs(
    listings: &Vec<Vec<DirChild>>,
    entry: &str,
    is_fuzzy: bool,
    is_regex: bool,
    blacklist: &Blacklist,
) -> (r: Vec<String>)
    requires
        blacklist.wf(),
    ensures
        string_views(r@) == selected_in_listings(listings@, entry@, is_fuzzy, is_regex, *blacklist),
{
    let mut out: Vec<String> = Vec::new();
    let mut i: usize = 0;
    while i < listings.len()
        invariant
            blacklist.wf(),
            i <= listings@.len(),
            string_views(out@) == selected_in_listings(
                listings@.take(i as int),
                entry@,
                is_fuzzy,
                is_regex,
                *blacklist,
            ),
        decreases listings@.len() - i,
    {
        assert(listings@.take(i + 1).drop_last() =~= listings@.take(i as int));
        assert(listings@.take(i + 1).last() == listings@[i as int]);
        let mut found = search_target_from_dir(&listings[i], entry, is_fuzzy, is_regex, blacklist);
        let ghost before = out@;
        let ghost add = found@;
        out.append(&mut found);
        assert(string_views(out@) =~= string_views(before) + string_views(add));
        i = i + 1;
    }
    assert(listings@.take(i as int) =~= listings@);
    out
}

} // verus!
