use vstd::prelude::*;

use crate::error::CustomError;
use crate::util::{pattern_match, pattern_matches, regex_finds, regex_valid, PathPattern};
use crate::meta::{placeholder, EntryMeta, MetaModel};
use crate::path::{
    lemma_components_plain, plain_name, root_token,
    full_path_of,
    canonical_path, join_child, lemma_path_under_first, path_components, path_join, path_under, split_path,
    str_views, valid_path,
};

verus! {

/// One node of the path trie: a path component, the path it completes, the
/// record kept for that path, and the nodes one component further down.
pub struct TrieNode {
    pub entry_name: String,
    pub full_path: String,
    pub meta: EntryMeta,
    pub children: Vec<TrieNode>,
}

/// Whether `n` has a child named `name`.
pub open spec fn has_child(n: TrieNode, name: Seq<char>) -> bool {
    exists|i: int| 0 <= i < n.children@.len() && (#[trigger] n.children@[i]).entry_name@ == name
}

/// The child of `n` named `name`.
pub open spec fn child_named(n: TrieNode, name: Seq<char>) -> TrieNode
    recommends
        has_child(n, name),
{
    let i = choose|i: int| 0 <= i < n.children@.len() && (#[trigger] n.children@[i]).entry_name@ == name;
    n.children@[i]
}

/// The record found by walking the components `q` down from `n`; the empty
/// walk finds the record of `n` itself.
pub open spec fn lookup(n: TrieNode, q: Seq<Seq<char>>) -> Option<MetaModel>
    decreases q.len(),
{
    if q.len() == 0 {
        Some(n.meta@)
    } else if has_child(n, q[0]) {
        lookup(child_named(n, q[0]), q.drop_first())
    } else {
        None
    }
}

/// No two nodes of `children` share a name.
pub open spec fn names_unique(children: Seq<TrieNode>) -> bool {
    forall|i: int, j: int|
        0 <= i < children.len() && 0 <= j < children.len() && i != j
            ==> (#[trigger] children[i]).entry_name@ != (#[trigger] children[j]).entry_name@
}

/// A child name can follow the path `base`: it is not empty and holds no
/// slash, except for the root token directly under the root.
pub open spec fn valid_name(base: Seq<char>, name: Seq<char>) -> bool {
    plain_name(name) || (base.len() == 0 && name == root_token())
}

/// A child under the path `base` carries a valid name and the path that
/// extends `base` by it.
pub open spec fn child_fits(base: Seq<char>, c: TrieNode) -> bool {
    &&& c.full_path@ == path_join(base, c.entry_name@)
    &&& valid_name(base, c.entry_name@)
}

/// The shape every node keeps: its record is filed under its own path, each
/// child's path extends this node's path by the child's valid name, and
/// names are unique among siblings.
pub open spec fn wf_node(n: TrieNode) -> bool
    decreases n,
{
    &&& n.meta.path@ == n.full_path@
    &&& names_unique(n.children@)
    &&& forall|i: int|
        0 <= i < n.children@.len() ==> {
            &&& child_fits(n.full_path@, #[trigger] n.children@[i])
            &&& wf_node(n.children@[i])
        }
}

/// Whether `q` is a leading part of `c`.
pub open spec fn is_prefix(q: Seq<Seq<char>>, c: Seq<Seq<char>>) -> bool {
    q.len() <= c.len() && c.subrange(0, q.len() as int) == q
}

/// The record that an insertion of `c` leaves at its prefix `q`, given the
/// record `prev` that was there (if any) and the record path `at` of `q`.
pub open spec fn inserted_meta(
    prev: Option<MetaModel>,
    terminal: bool,
    given: Option<MetaModel>,
    bump: bool,
    at: Seq<char>,
) -> MetaModel {
    let base = match prev {
        Some(m) => m,
        None => if terminal && given is Some {
            given->Some_0.with_path(at)
        } else {
            placeholder(at)
        },
    };
    if bump {
        base.bumped()
    } else {
        base
    }
}

/// What a walk of `q` finds under `n` after `c` has been inserted below it.
pub open spec fn lookup_after_insert(
    n: TrieNode,
    c: Seq<Seq<char>>,
    given: Option<MetaModel>,
    bump: bool,
    q: Seq<Seq<char>>,
) -> Option<MetaModel> {
    if q.len() > 0 && is_prefix(q, c) {
        Some(
            inserted_meta(lookup(n, q), q.len() == c.len(), given, bump, path_under(n.full_path@, q)),
        )
    } else {
        lookup(n, q)
    }
}

/// What a walk of `q` finds under `n` after the subtree at `c` has been removed.
pub open spec fn lookup_after_delete(n: TrieNode, c: Seq<Seq<char>>, q: Seq<Seq<char>>) -> Option<
    MetaModel,
> {
    if is_prefix(c, q) {
        None
    } else {
        lookup(n, q)
    }
}

/// With unique names, the child named like the `i`-th child is the `i`-th child.
pub proof fn lemma_child_named(n: TrieNode, i: int)
    requires
        names_unique(n.children@),
        0 <= i < n.children@.len(),
    ensures
        has_child(n, n.children@[i].entry_name@),
        child_named(n, n.children@[i].entry_name@) == n.children@[i],
{
    let name = n.children@[i].entry_name@;
    assert(n.children@[i].entry_name@ == name);
    let j = choose|j: int| 0 <= j < n.children@.len() && (#[trigger] n.children@[j]).entry_name@ == name;
    assert(n.children@[j].entry_name@ == name);
}

/// Two nodes with the same children agree on every non-empty walk.
pub proof fn lemma_lookup_same_children(a: TrieNode, b: TrieNode, q: Seq<Seq<char>>)
    requires
        q.len() > 0,
        a.children@ == b.children@,
    ensures
        lookup(a, q) == lookup(b, q),
{
    assert(has_child(a, q[0]) == has_child(b, q[0]));
    if has_child(a, q[0]) {
        assert(child_named(a, q[0]) == child_named(b, q[0]));
    }
}

/// The view of an optional record.
pub open spec fn opt_view(o: Option<EntryMeta>) -> Option<MetaModel> {
    match o {
        Some(m) => Some(m@),
        None => None,
    }
}

/// Replacing one child by a node of the same name, or appending a child,
/// leaves every walk that starts with another name as it was.
pub proof fn lemma_lookup_sibling_update(
    old_n: TrieNode,
    new_n: TrieNode,
    pos: int,
    q: Seq<Seq<char>>,
)
    requires
        names_unique(old_n.children@),
        names_unique(new_n.children@),
        q.len() > 0,
        0 <= pos <= old_n.children@.len(),
        pos < old_n.children@.len() ==> new_n.children@ == old_n.children@.update(
            pos,
            new_n.children@[pos],
        ) && new_n.children@[pos].entry_name@ == old_n.children@[pos].entry_name@,
        pos == old_n.children@.len() ==> new_n.children@ == old_n.children@.push(
            new_n.children@[pos],
        ),
        q[0] != new_n.children@[pos].entry_name@,
    ensures
        lookup(new_n, q) == lookup(old_n, q),
{
    let x = q[0];
    if has_child(old_n, x) {
        let k = choose|k: int| 0 <= k < old_n.children@.len() && (#[trigger] old_n.children@[k]).entry_name@ == x;
        lemma_child_named(old_n, k);
        assert(k != pos);
        assert(new_n.children@[k] == old_n.children@[k]);
        lemma_child_named(new_n, k);
    } else {
        if has_child(new_n, x) {
            let k = choose|k: int| 0 <= k < new_n.children@.len() && (#[trigger] new_n.children@[k]).entry_name@ == x;
            assert(k != pos);
            assert(new_n.children@[k] == old_n.children@[k]);
            assert(false);
        }
    }
}

/// A record after a lookup that takes the size, modification time and kind
/// of `fresh` (when given) and raises the counter when `bump` holds; its
/// path and its count otherwise stay.
pub open spec fn refreshed(m: MetaModel, fresh: Option<MetaModel>, bump: bool) -> MetaModel {
    let base = match fresh {
        Some(f) => MetaModel { size: f.size, modified: f.modified, entry_type: f.entry_type, ..m },
        None => m,
    };
    if bump {
        base.bumped()
    } else {
        base
    }
}

/// What a walk of `q` finds under `n` after a lookup of `c` that refreshes
/// the record it finds.
pub open spec fn lookup_after_touch(
    n: TrieNode,
    c: Seq<Seq<char>>,
    fresh: Option<MetaModel>,
    bump: bool,
    q: Seq<Seq<char>>,
) -> Option<MetaModel> {
    if q == c && lookup(n, q) is Some {
        Some(refreshed(lookup(n, q)->Some_0, fresh, bump))
    } else {
        lookup(n, q)
    }
}

/// The record that a lookup of `c` hands back.
pub open spec fn touched(n: TrieNode, c: Seq<Seq<char>>, fresh: Option<MetaModel>, bump: bool) -> Option<
    MetaModel,
> {
    match lookup(n, c) {
        Some(m) => Some(refreshed(m, fresh, bump)),
        None => None,
    }
}

/// Removing one child leaves the walks through its siblings as they were.
pub proof fn lemma_lookup_sibling_remove(old_n: TrieNode, new_n: TrieNode, pos: int, q: Seq<Seq<char>>)
    requires
        names_unique(old_n.children@),
        q.len() > 0,
        0 <= pos < old_n.children@.len(),
        new_n.children@ == old_n.children@.remove(pos),
    ensures
        q[0] == old_n.children@[pos].entry_name@ ==> lookup(new_n, q) is None,
        q[0] != old_n.children@[pos].entry_name@ ==> lookup(new_n, q) == lookup(old_n, q),
{
    let x = q[0];
    let name = old_n.children@[pos].entry_name@;
    assert forall|i: int, j: int|
        0 <= i < new_n.children@.len() && 0 <= j < new_n.children@.len() && i != j
            implies (#[trigger] new_n.children@[i]).entry_name@ != (#[trigger] new_n.children@[j]).entry_name@ by {
        let oi = if i < pos { i } else { i + 1 };
        let oj = if j < pos { j } else { j + 1 };
        assert(new_n.children@[i] == old_n.children@[oi]);
        assert(new_n.children@[j] == old_n.children@[oj]);
    }
    if has_child(new_n, x) {
        let k = choose|k: int| 0 <= k < new_n.children@.len() && (#[trigger] new_n.children@[k]).entry_name@ == x;
        let ok = if k < pos { k } else { k + 1 };
        assert(new_n.children@[k] == old_n.children@[ok]);
        assert(ok != pos);
        lemma_child_named(new_n, k);
        lemma_child_named(old_n, ok);
    } else if has_child(old_n, x) {
        let k = choose|k: int| 0 <= k < old_n.children@.len() && (#[trigger] old_n.children@[k]).entry_name@ == x;
        if k != pos {
            let nk = if k < pos { k } else { k - 1 };
            assert(new_n.children@[nk] == old_n.children@[k]);
        }
    }
}

/// What a subtree walk looks for.
pub enum Probe {
    /// Final components that match `name` under the entry-name rule.
    Entry { name: String, fuzzy: bool },
    /// Paths in which the expression finds a match.
    Regex(PathPattern),
}

/// Whether the probe accepts a node with final component `name` and path `path`.
pub open spec fn probe_accepts(probe: Probe, name: Seq<char>, path: Seq<char>) -> bool {
    match probe {
        Probe::Entry { name: wanted, fuzzy } => pattern_matches(wanted@, name, fuzzy),
        Probe::Regex(re) => regex_finds(re@, path),
    }
}

/// Whether `p` is the path of a node strictly below `n` that the probe accepts.
pub open spec fn subtree_hit(n: TrieNode, probe: Probe, p: Seq<char>) -> bool {
    exists|q: Seq<Seq<char>>|
        #![trigger lookup(n, q)]
        q.len() > 0 && lookup(n, q) is Some && probe_accepts(probe, q.last(), lookup(n, q)->Some_0.path)
            && p == lookup(n, q)->Some_0.path
}

/// Whether `p` is the path of `c` or of a node below it that the probe accepts.
pub open spec fn node_hit(c: TrieNode, probe: Probe, p: Seq<char>) -> bool {
    (probe_accepts(probe, c.entry_name@, c.meta.path@) && p == c.meta.path@) || subtree_hit(c, probe, p)
}

/// Whether `p` is the path of a node strictly below `n` whose final
/// component matches `name` under the entry-name rule.
pub open spec fn entry_below(n: TrieNode, name: Seq<char>, fuzzy: bool, p: Seq<char>) -> bool {
    exists|q: Seq<Seq<char>>|
        #![trigger lookup(n, q)]
        q.len() > 0 && lookup(n, q) is Some && pattern_matches(name, q.last(), fuzzy) && p == lookup(
            n,
            q,
        )->Some_0.path
}

/// Whether `p` is the path of a node strictly below `n` in which the
/// expression `pattern` finds a match.
pub open spec fn regex_below(n: TrieNode, pattern: Seq<char>, p: Seq<char>) -> bool {
    exists|q: Seq<Seq<char>>|
        #![trigger lookup(n, q)]
        q.len() > 0 && lookup(n, q) is Some && regex_finds(pattern, lookup(n, q)->Some_0.path) && p
            == lookup(n, q)->Some_0.path
}

/// Whether the path `p` is `g` or lies below it: it starts with `g`, and
/// after `g` comes the end, a slash, or `g` itself ends in a slash.
pub open spec fn extends(g: Seq<char>, p: Seq<char>) -> bool {
    g.len() == 0 || (g.len() <= p.len() && p.take(g.len() as int) == g && (p.len() == g.len() || p[g.len() as int] == '/' || g.last() == '/'))
}

/// Whether the entries of `s` from position `lo` on are pairwise different.
pub open spec fn distinct_from(s: Seq<Seq<char>>, lo: int) -> bool {
    forall|a: int, b: int| lo <= a < b < s.len() ==> s[a] != s[b]
}

/// Entries that are pairwise different from the start on have no duplicates.
pub proof fn lemma_distinct_no_duplicates(s: Seq<Seq<char>>)
    requires
        distinct_from(s, 0),
    ensures
        s.no_duplicates(),
{
    assert forall|i: int, j: int| 0 <= i < s.len() && 0 <= j < s.len() && i != j implies s[i] != s[j] by {
        if i > j {
            assert(s[j] != s[i]);
        }
    }
}

/// What `path_join` puts in front of a child name.
pub open spec fn join_base(f: Seq<char>) -> Seq<char> {
    if f.len() == 0 || f.last() == '/' {
        f
    } else {
        f.push('/')
    }
}

proof fn lemma_join_is_base_plus(f: Seq<char>, x: Seq<char>)
    ensures
        path_join(f, x) == join_base(f) + x,
{
    if f.len() == 0 {
        assert(f + x =~= x);
    }
}

/// A child's path lies strictly below a non-empty parent path.
proof fn lemma_join_extends(g: Seq<char>, z: Seq<char>)
    requires
        g.len() > 0,
        z.len() > 0,
    ensures
        extends(g, path_join(g, z)),
        path_join(g, z).len() > g.len(),
{
    lemma_join_is_base_plus(g, z);
    let h = path_join(g, z);
    assert(h.take(g.len() as int) =~= g);
    if g.last() != '/' {
        assert(h[g.len() as int] == '/');
    }
}

/// Lying below is transitive.
proof fn lemma_extends_trans(g: Seq<char>, h: Seq<char>, p: Seq<char>)
    requires
        extends(g, h),
        h.len() > g.len(),
        extends(h, p),
    ensures
        extends(g, p),
        p.len() > g.len(),
{
    if g.len() > 0 {
        assert(p.take(g.len() as int) =~= g) by {
            assert forall|i: int| 0 <= i < g.len() implies p[i] == g[i] by {
                assert(p[i] == p.take(h.len() as int)[i]);
                assert(h[i] == h.take(g.len() as int)[i]);
            }
        }
        assert(p[g.len() as int] == h[g.len() as int]) by {
            assert(p[g.len() as int] == p.take(h.len() as int)[g.len() as int]);
        }
    }
}

proof fn lemma_siblings_apart_ordered(f: Seq<char>, x: Seq<char>, y: Seq<char>, p: Seq<char>)
    requires
        valid_name(f, x),
        valid_name(f, y),
        x != y,
        x.len() <= y.len(),
    ensures
        !(extends(path_join(f, x), p) && extends(path_join(f, y), p)),
{
    if extends(path_join(f, x), p) && extends(path_join(f, y), p) {
        lemma_join_is_base_plus(f, x);
        lemma_join_is_base_plus(f, y);
        let b = join_base(f);
        let gx = b + x;
        let gy = b + y;
        assert forall|k: int| 0 <= k < x.len() implies x[k] == y[k] by {
            assert(p.take(gx.len() as int)[b.len() + k] == gx[b.len() + k]);
            assert(p.take(gy.len() as int)[b.len() + k] == gy[b.len() + k]);
        }
        if x.len() == y.len() {
            assert(x =~= y);
        } else {
            assert(p.take(gy.len() as int)[gx.len() as int] == gy[gx.len() as int]);
            assert(gy[gx.len() as int] == y[x.len() as int]);
            if y[x.len() as int] == '/' {
                assert(!plain_name(y));
                assert(y.len() == 1);
            } else {
                assert(gx.last() == x.last());
                assert(!plain_name(x));
                assert(x == root_token());
                assert(b.len() == 0);
                assert(p.take(gx.len() as int)[0] == gx[0]);
                assert(p.take(gy.len() as int)[0] == gy[0]);
                assert(y != root_token());
                assert(y[0] != '/');
            }
        }
    }
}

/// Two siblings with different valid names have no path below both of them.
proof fn lemma_siblings_apart(f: Seq<char>, x: Seq<char>, y: Seq<char>, p: Seq<char>)
    requires
        valid_name(f, x),
        valid_name(f, y),
        x != y,
    ensures
        !(extends(path_join(f, x), p) && extends(path_join(f, y), p)),
{
    if x.len() <= y.len() {
        lemma_siblings_apart_ordered(f, x, y, p);
    } else {
        lemma_siblings_apart_ordered(f, y, x, p);
    }
}

/// A hit below `n` is a hit at or below one of its children.
pub proof fn lemma_subtree_hit_split(n: TrieNode, probe: Probe, p: Seq<char>)
    requires
        wf_node(n),
    ensures
        subtree_hit(n, probe, p) <==> exists|j: int| 0 <= j < n.children@.len() && node_hit(#[trigger] n.children@[j], probe, p),
{
    if subtree_hit(n, probe, p) {
        let q = choose|q: Seq<Seq<char>>|
            #![trigger lookup(n, q)]
            q.len() > 0 && lookup(n, q) is Some && probe_accepts(probe, q.last(), lookup(n, q)->Some_0.path)
                && p == lookup(n, q)->Some_0.path;
        let j = choose|j: int| 0 <= j < n.children@.len() && (#[trigger] n.children@[j]).entry_name@ == q[0];
        lemma_child_named(n, j);
        let c = n.children@[j];
        let q1 = q.drop_first();
        assert(lookup(n, q) == lookup(c, q1));
        if q.len() == 1 {
            assert(q1 =~= Seq::<Seq<char>>::empty());
            assert(q.last() == c.entry_name@);
            assert(node_hit(c, probe, p));
        } else {
            assert(q1.last() == q.last());
            assert(node_hit(c, probe, p));
        }
    }
    if exists|j: int| 0 <= j < n.children@.len() && node_hit(#[trigger] n.children@[j], probe, p) {
        let j = choose|j: int| 0 <= j < n.children@.len() && node_hit(#[trigger] n.children@[j], probe, p);
        let c = n.children@[j];
        lemma_child_named(n, j);
        if probe_accepts(probe, c.entry_name@, c.meta.path@) && p == c.meta.path@ {
            let q = seq![c.entry_name@];
            assert(q.drop_first() =~= Seq::<Seq<char>>::empty());
            assert(lookup(n, q) == lookup(c, q.drop_first()));
        } else {
            let q1 = choose|q: Seq<Seq<char>>|
                #![trigger lookup(c, q)]
                q.len() > 0 && lookup(c, q) is Some && probe_accepts(probe, q.last(), lookup(c, q)->Some_0.path)
                    && p == lookup(c, q)->Some_0.path;
            let q = seq![c.entry_name@] + q1;
            assert(q.drop_first() =~= q1);
            assert(lookup(n, q) == lookup(c, q1));
            assert(q.last() == q1.last());
        }
    }
}

impl TrieNode {
    /// A node with no children.
    fn leaf(name: String, meta: EntryMeta) -> (r: TrieNode)
        ensures
            r.entry_name@ == name@,
            r.full_path@ == meta.path@,
            r.meta@ == meta@,
            r.children@.len() == 0,
            wf_node(r),
    {
        let full_path = meta.path.clone();
        TrieNode { entry_name: name, full_path, meta, children: Vec::new() }
    }

    /// The root node: no name, an empty path, and no children.
    fn new() -> (r: TrieNode)
        ensures
            r.entry_name@ == Seq::<char>::empty(),
            r.full_path@ == Seq::<char>::empty(),
            r.children@.len() == 0,
            wf_node(r),
    {
        let meta = EntryMeta::placeholder_for("");
        proof {
            reveal_strlit("");
        }
        TrieNode::leaf(String::new(), meta)
    }

    /// Walks `c[idx..]` down from this node, creating the nodes that are
    /// missing and raising the counter of every node it passes when `bump`
    /// holds; returns the record at the end of the walk.
    fn insert_at(&mut self, c: &Vec<String>, idx: usize, given: &Option<EntryMeta>, bump: bool) -> (r: EntryMeta)
        requires
            wf_node(*old(self)),
            idx < c@.len(),
            valid_name(old(self).full_path@, c@[idx as int]@),
            forall|k: int| idx < k < c@.len() ==> plain_name(#[trigger] c@[k]@),
        ensures
            wf_node(*final(self)),
            final(self).full_path@ == old(self).full_path@,
            final(self).entry_name@ == old(self).entry_name@,
            final(self).meta@ == old(self).meta@,
            forall|q: Seq<Seq<char>>|
                #![trigger lookup(*final(self), q)]
                lookup(*final(self), q) == lookup_after_insert(
                    *old(self),
                    str_views(c@).subrange(idx as int, c@.len() as int),
                    opt_view(*given),
                    bump,
                    q,
                ),
            lookup(*final(self), str_views(c@).subrange(idx as int, c@.len() as int)) == Some(r@),
        decreases c@.len() - idx,
    {
        let ghost old_n = *self;
        let ghost cs = str_views(c@).subrange(idx as int, c@.len() as int);
        let ghost g = opt_view(*given);
        let name = &c[idx];
        assert(cs[0] == name@);
        let last = idx == c.len() - 1;
        let found = self.find_child(name);
        let pos: usize;
        let mut child: TrieNode;
        match found {
            Some(i) => {
                pos = i;
                child = self.children.remove(i);
            },
            None => {
                pos = self.children.len();
                let fp = join_child(&self.full_path, name);
                let meta = match given {
                    Some(m) => if last {
                        m.moved_to(&fp)
                    } else {
                        EntryMeta::placeholder_for(&fp)
                    },
                    None => EntryMeta::placeholder_for(&fp),
                };
                child = TrieNode::leaf(name.clone(), meta);
            },
        }
        let ghost start_child = child;
        assert(wf_node(start_child));
        assert(start_child.full_path@ == path_join(old_n.full_path@, name@));
        if bump {
            child.meta.increment_access_count();
        }
        let ghost bumped_child = child;
        assert(wf_node(bumped_child));
        assert(child.full_path@.len() > 0);
        assert(!last ==> plain_name(c@[idx + 1]@));
        let r = if last {
            child.meta.duplicate()
        } else {
            child.insert_at(c, idx + 1, given, bump)
        };
        if found.is_some() {
            self.children.insert(pos, child);
            assert(self.children@ =~= old_n.children@.update(pos as int, child));
        } else {
            self.children.push(child);
        }
        let ghost new_n = *self;
        proof {
            lemma_child_named(new_n, pos as int);
            assert(names_unique(new_n.children@)) by {
                assert forall|i: int, j: int|
                    0 <= i < new_n.children@.len() && 0 <= j < new_n.children@.len() && i != j
                        implies (#[trigger] new_n.children@[i]).entry_name@ != (
                    #[trigger] new_n.children@[j]).entry_name@ by {
                    if i != pos && j != pos {
                        assert(new_n.children@[i] == old_n.children@[i]);
                        assert(new_n.children@[j] == old_n.children@[j]);
                    } else if i == pos {
                        assert(new_n.children@[j] == old_n.children@[j]);
                        if found.is_none() {
                            assert(!has_child(old_n, name@));
                        }
                    } else {
                        assert(new_n.children@[i] == old_n.children@[i]);
                        if found.is_none() {
                            assert(!has_child(old_n, name@));
                        }
                    }
                }
            }
            assert(wf_node(new_n)) by {
                assert forall|i: int| 0 <= i < new_n.children@.len() implies {
                    &&& child_fits(new_n.full_path@, #[trigger] new_n.children@[i])
                    &&& wf_node(new_n.children@[i])
                } by {
                    if i != pos {
                        assert(new_n.children@[i] == old_n.children@[i]);
                    }
                }
            }
            if found.is_some() {
                lemma_child_named(old_n, pos as int);
            }
            assert forall|q: Seq<Seq<char>>| #![trigger lookup(new_n, q)]
                lookup(new_n, q) == lookup_after_insert(old_n, cs, g, bump, q) by {
                if q.len() == 0 {
                } else if q[0] != name@ {
                    lemma_lookup_sibling_update(old_n, new_n, pos as int, q);
                    assert(!is_prefix(q, cs));
                } else {
                    let q1 = q.drop_first();
                    assert(lookup(new_n, q) == lookup(child, q1));
                    if q.len() == 1 {
                        assert(is_prefix(q, cs)) by {
                            assert(cs.subrange(0, 1) =~= q);
                        }
                        assert(path_under(old_n.full_path@, q) == path_join(old_n.full_path@, name@)) by {
                            assert(q.drop_last() =~= Seq::<Seq<char>>::empty());
                            assert(path_under(old_n.full_path@, q.drop_last()) == old_n.full_path@);
                            assert(q.last() == q[0]);
                        }
                        assert(q1 =~= Seq::<Seq<char>>::empty());
                        assert(lookup(child, q1) == Some(child.meta@));
                        assert(child.meta@ == bumped_child.meta@);
                        if found.is_some() {
                            assert(lookup(old_n, q) == lookup(start_child, q1));
                            assert(lookup(old_n, q) == Some(start_child.meta@));
                        } else {
                            assert(lookup(old_n, q) == None::<MetaModel>);
                        }
                        assert((q.len() == cs.len()) == last);
                    } else {
                        lemma_path_under_first(old_n.full_path@, name@, q1);
                        assert(seq![name@] + q1 =~= q);
                        if found.is_some() {
                            lemma_lookup_same_children(start_child, bumped_child, q1);
                        } else {
                            assert(!has_child(bumped_child, q1[0]));
                        }
                        assert(lookup(old_n, q) == lookup(bumped_child, q1));
                        if last {
                            assert(!is_prefix(q, cs));
                            lemma_lookup_same_children(bumped_child, child, q1);
                        } else {
                            let cs1 = str_views(c@).subrange(idx + 1, c@.len() as int);
                            assert(cs1 =~= cs.drop_first());
                            assert(is_prefix(q1, cs1) == is_prefix(q, cs)) by {
                                if is_prefix(q1, cs1) {
                                    assert(cs.subrange(0, q.len() as int) =~= q);
                                }
                                if is_prefix(q, cs) {
                                    assert(cs1.subrange(0, q1.len() as int) =~= cs.subrange(0, q.len() as int).drop_first());
                                }
                            }
                        }
                    }
                }
            }
            assert(new_n.children@[pos as int] == child);
            assert(child_named(new_n, cs[0]) == child);
            assert(lookup(new_n, cs) == lookup(child, cs.drop_first()));
            if last {
                assert(cs.drop_first() =~= Seq::<Seq<char>>::empty());
            } else {
                let cs1 = str_views(c@).subrange(idx + 1, c@.len() as int);
                assert(cs1 =~= cs.drop_first());
            }
        }
        r
    }

    /// Removes the node at the end of the walk `c[idx..]` together with
    /// everything below it; fails with `PathNotFound` when the walk breaks off.
    fn delete_at(&mut self, c: &Vec<String>, idx: usize) -> (r: Result<(), CustomError>)
        requires
            wf_node(*old(self)),
            idx < c@.len(),
        ensures
            wf_node(*final(self)),
            final(self).full_path@ == old(self).full_path@,
            final(self).entry_name@ == old(self).entry_name@,
            final(self).meta@ == old(self).meta@,
            r is Ok <==> lookup(*old(self), str_views(c@).subrange(idx as int, c@.len() as int)) is Some,
            r is Err ==> r == Err::<(), CustomError>(CustomError::PathNotFound),
            forall|q: Seq<Seq<char>>|
                #![trigger lookup(*final(self), q)]
                lookup(*final(self), q) == if r is Ok {
                    lookup_after_delete(
                        *old(self),
                        str_views(c@).subrange(idx as int, c@.len() as int),
                        q,
                    )
                } else {
                    lookup(*old(self), q)
                },
        decreases c@.len() - idx,
    {
        let ghost old_n = *self;
        let ghost cs = str_views(c@).subrange(idx as int, c@.len() as int);
        let name = &c[idx];
        assert(cs[0] == name@);
        let found = self.find_child(name);
        match found {
            None => {
                assert(lookup(old_n, cs) is None);
                Err(CustomError::PathNotFound)
            },
            Some(i) => {
                if idx == c.len() - 1 {
                    let ghost gone = self.children@[i as int];
                    self.children.remove(i);
                    let ghost new_n = *self;
                    proof {
                        assert(cs =~= seq![name@]);
                        assert(cs.drop_first() =~= Seq::<Seq<char>>::empty());
                        assert(lookup(old_n, cs) == lookup(gone, cs.drop_first()));
                        assert forall|q: Seq<Seq<char>>| #![trigger lookup(new_n, q)]
                            lookup(new_n, q) == lookup_after_delete(old_n, cs, q) by {
                            if q.len() > 0 {
                                lemma_lookup_sibling_remove(old_n, new_n, i as int, q);
                                if q[0] == name@ {
                                    assert(q.subrange(0, 1) =~= cs);
                                }
                            }
                        }
                        assert(names_unique(new_n.children@)) by {
                            assert forall|a: int, b: int|
                                0 <= a < new_n.children@.len() && 0 <= b < new_n.children@.len() && a != b
                                    implies (#[trigger] new_n.children@[a]).entry_name@ != (
                                #[trigger] new_n.children@[b]).entry_name@ by {
                                let oa = if a < i { a } else { a + 1 };
                                let ob = if b < i { b } else { b + 1 };
                                assert(new_n.children@[a] == old_n.children@[oa]);
                                assert(new_n.children@[b] == old_n.children@[ob]);
                            }
                        }
                        assert forall|a: int| 0 <= a < new_n.children@.len() implies {
                            &&& child_fits(new_n.full_path@, #[trigger] new_n.children@[a])
                            &&& wf_node(new_n.children@[a])
                        } by {
                            let oa = if a < i { a } else { a + 1 };
                            assert(new_n.children@[a] == old_n.children@[oa]);
                        }
                    }
                    Ok(())
                } else {
                    let mut child = self.children.remove(i);
                    let ghost start_child = child;
                    let r = child.delete_at(c, idx + 1);
                    self.children.insert(i, child);
                    assert(self.children@ =~= old_n.children@.update(i as int, child));
                    let ghost new_n = *self;
                    proof {
                        let cs1 = str_views(c@).subrange(idx + 1, c@.len() as int);
                        assert(cs1 =~= cs.drop_first());
                        lemma_child_named(old_n, i as int);
                        lemma_child_named(new_n, i as int);
                        assert(names_unique(new_n.children@)) by {
                            assert forall|a: int, b: int|
                                0 <= a < new_n.children@.len() && 0 <= b < new_n.children@.len() && a != b
                                    implies (#[trigger] new_n.children@[a]).entry_name@ != (
                                #[trigger] new_n.children@[b]).entry_name@ by {
                                if a != i {
                                    assert(new_n.children@[a] == old_n.children@[a]);
                                }
                                if b != i {
                                    assert(new_n.children@[b] == old_n.children@[b]);
                                }
                            }
                        }
                        assert forall|a: int| 0 <= a < new_n.children@.len() implies {
                            &&& child_fits(new_n.full_path@, #[trigger] new_n.children@[a])
                            &&& wf_node(new_n.children@[a])
                        } by {
                            if a != i {
                                assert(new_n.children@[a] == old_n.children@[a]);
                            }
                        }
                        assert forall|q: Seq<Seq<char>>| #![trigger lookup(new_n, q)]
                            lookup(new_n, q) == (if r is Ok {
                                lookup_after_delete(old_n, cs, q)
                            } else {
                                lookup(old_n, q)
                            }) by {
                            if q.len() == 0 {
                            } else if q[0] != name@ {
                                lemma_lookup_sibling_update(old_n, new_n, i as int, q);
                                assert(!is_prefix(cs, q));
                            } else {
                                let q1 = q.drop_first();
                                assert(lookup(new_n, q) == lookup(child, q1));
                                assert(lookup(old_n, q) == lookup(start_child, q1));
                                if q.len() == 1 {
                                    assert(q1 =~= Seq::<Seq<char>>::empty());
                                    assert(!is_prefix(cs, q));
                                } else {
                                    assert(is_prefix(cs1, q1) == is_prefix(cs, q)) by {
                                        if is_prefix(cs1, q1) {
                                            assert forall|k: int| 0 <= k < cs.len() implies q.subrange(0, cs.len() as int)[k] == cs[k] by {
                                                if k > 0 {
                                                    assert(q1.subrange(0, cs1.len() as int)[k - 1] == cs1[k - 1]);
                                                }
                                            }
                                            assert(q.subrange(0, cs.len() as int) =~= cs);
                                        }
                                        if is_prefix(cs, q) {
                                            assert(q1.subrange(0, cs1.len() as int) =~= q.subrange(0, cs.len() as int).drop_first());
                                        }
                                    }
                                }
                            }
                        }
                        assert(lookup(old_n, cs) == lookup(start_child, cs1));
                    }
                    r
                }
            },
        }
    }

    /// Looks up the node at the end of the walk `c[idx..]` and, when `bump`
    /// holds, raises its counter (and no other); returns its record.
    fn search_at(&mut self, c: &Vec<String>, idx: usize, fresh: &Option<EntryMeta>, bump: bool) -> (r: Option<EntryMeta>)
        requires
            wf_node(*old(self)),
            idx < c@.len(),
        ensures
            wf_node(*final(self)),
            final(self).full_path@ == old(self).full_path@,
            final(self).entry_name@ == old(self).entry_name@,
            final(self).meta@ == old(self).meta@,
            opt_view(r) == touched(
                *old(self),
                str_views(c@).subrange(idx as int, c@.len() as int),
                opt_view(*fresh),
                bump,
            ),
            forall|q: Seq<Seq<char>>|
                #![trigger lookup(*final(self), q)]
                lookup(*final(self), q) == lookup_after_touch(
                    *old(self),
                    str_views(c@).subrange(idx as int, c@.len() as int),
                    opt_view(*fresh),
                    bump,
                    q,
                ),
        decreases c@.len() - idx,
    {
        let ghost old_n = *self;
        let ghost cs = str_views(c@).subrange(idx as int, c@.len() as int);
        let name = &c[idx];
        assert(cs[0] == name@);
        let found = self.find_child(name);
        match found {
            None => {
                assert(lookup(old_n, cs) is None);
                None
            },
            Some(i) => {
                let last = idx == c.len() - 1;
                let mut child = self.children.remove(i);
                let ghost start_child = child;
                assert(wf_node(start_child));
                let r = if last {
                    if let Some(f) = fresh {
                        child.meta.size = f.size;
                        child.meta.modified = f.modified;
                        child.meta.entry_type = f.entry_type;
                    }
                    if bump {
                        child.meta.increment_access_count();
                    }
                    assert(wf_node(child));
                    Some(child.meta.duplicate())
                } else {
                    child.search_at(c, idx + 1, fresh, bump)
                };
                self.children.insert(i, child);
                assert(self.children@ =~= old_n.children@.update(i as int, child));
                let ghost new_n = *self;
                proof {
                    let cs1 = str_views(c@).subrange(idx + 1, c@.len() as int);
                    assert(cs1 =~= cs.drop_first());
                    lemma_child_named(old_n, i as int);
                    lemma_child_named(new_n, i as int);
                    assert(lookup(old_n, cs) == lookup(start_child, cs1));
                    if last {
                        assert(cs1 =~= Seq::<Seq<char>>::empty());
                        assert(cs =~= seq![name@]);
                    }
                    assert(names_unique(new_n.children@)) by {
                        assert forall|a: int, b: int|
                            0 <= a < new_n.children@.len() && 0 <= b < new_n.children@.len() && a != b
                                implies (#[trigger] new_n.children@[a]).entry_name@ != (
                            #[trigger] new_n.children@[b]).entry_name@ by {
                            if a != i {
                                assert(new_n.children@[a] == old_n.children@[a]);
                            }
                            if b != i {
                                assert(new_n.children@[b] == old_n.children@[b]);
                            }
                        }
                    }
                    assert forall|a: int| 0 <= a < new_n.children@.len() implies {
                        &&& child_fits(new_n.full_path@, #[trigger] new_n.children@[a])
                        &&& wf_node(new_n.children@[a])
                    } by {
                        if a != i {
                            assert(new_n.children@[a] == old_n.children@[a]);
                        }
                    }
                    assert forall|q: Seq<Seq<char>>| #![trigger lookup(new_n, q)]
                        lookup(new_n, q) == lookup_after_touch(old_n, cs, opt_view(*fresh), bump, q) by {
                        if q.len() == 0 {
                            assert(q != cs);
                        } else if q[0] != name@ {
                            lemma_lookup_sibling_update(old_n, new_n, i as int, q);
                            assert(q != cs);
                        } else {
                            let q1 = q.drop_first();
                            assert(lookup(new_n, q) == lookup(child, q1));
                            assert(lookup(old_n, q) == lookup(start_child, q1));
                            if last {
                                if q.len() == 1 {
                                    assert(q1 =~= Seq::<Seq<char>>::empty());
                                    assert(cs.len() == 1);
                                    assert(q[0] == cs[0]);
                                    assert(q =~= cs);
                                } else {
                                    lemma_lookup_same_children(start_child, child, q1);
                                    assert(q != cs);
                                }
                            } else {
                                assert((q1 == cs1) == (q == cs)) by {
                                    if q1 == cs1 {
                                        assert forall|k: int| 0 <= k < q.len() implies q[k] == cs[k] by {
                                            if k > 0 {
                                                assert(q[k] == q1[k - 1]);
                                                assert(cs[k] == cs1[k - 1]);
                                            }
                                        }
                                        assert(q =~= cs);
                                    }
                                }
                            }
                        }
                    }
                }
                r
            },
        }
    }

    /// Appends to `out` the paths of the nodes below this one that `probe` accepts.
    fn collect(&self, probe: &Probe, out: &mut Vec<String>)
        requires
            wf_node(*self),
        ensures
            forall|p: Seq<char>|
                #![trigger str_views(final(out)@).contains(p)]
                str_views(final(out)@).contains(p) <==> (str_views(old(out)@).contains(p)
                    || subtree_hit(*self, *probe, p)),
            old(out)@.len() <= final(out)@.len(),
            forall|k: int| 0 <= k < old(out)@.len() ==> #[trigger] final(out)@[k] == old(out)@[k],
            distinct_from(str_views(final(out)@), old(out)@.len() as int),
            forall|k: int|
                old(out)@.len() <= k < final(out)@.len() ==> extends(self.full_path@, #[trigger] str_views(final(out)@)[k])
                    && str_views(final(out)@)[k].len() > self.full_path@.len(),
        decreases *self,
    {
        let ghost start = out@;
        let ghost sl = start.len() as int;
        let mut i: usize = 0;
        while i < self.children.len()
            invariant
                wf_node(*self),
                i <= self.children@.len(),
                forall|p: Seq<char>|
                    #![trigger str_views(out@).contains(p)]
                    str_views(out@).contains(p) <==> (str_views(start).contains(p) || exists|j: int|
                        0 <= j < i && node_hit(#[trigger] self.children@[j], *probe, p)),
                sl == start.len(),
                sl <= out@.len(),
                forall|k: int| 0 <= k < sl ==> #[trigger] out@[k] == start[k],
                distinct_from(str_views(out@), sl),
                forall|k: int|
                    #![trigger str_views(out@)[k]]
                    sl <= k < out@.len() ==> exists|j: int|
                        0 <= j < i && extends(#[trigger] self.children@[j].full_path@, str_views(out@)[k]),
            decreases self.children@.len() - i,
        {
            let child = &self.children[i];
            assert(wf_node(*child));
            assert(child.meta.path@ == child.full_path@);
            let accepted = match probe {
                Probe::Entry { name, fuzzy } => pattern_match(name.as_str(), child.entry_name.as_str(), *fuzzy),
                Probe::Regex(re) => re.is_match(child.full_path.as_str()),
            };
            let ghost before = out@;
            if accepted {
                out.push(child.full_path.clone());
                proof {
                    assert(str_views(out@) =~= str_views(before).push(child.full_path@));
                    assert forall|p: Seq<char>| str_views(out@).contains(p) <==> (str_views(before).contains(p) || p == child.full_path@) by {
                        if str_views(out@).contains(p) {
                            let k = choose|k: int| 0 <= k < str_views(out@).len() && str_views(out@)[k] == p;
                            if k < before.len() {
                                assert(str_views(before)[k] == p);
                            }
                        }
                        if str_views(before).contains(p) {
                            let k = choose|k: int| 0 <= k < str_views(before).len() && str_views(before)[k] == p;
                            assert(str_views(out@)[k] == p);
                        }
                        if p == child.full_path@ {
                            assert(str_views(out@)[before.len() as int] == p);
                        }
                    }
                }
            }
            let ghost mid = out@;
            assert(accepted == probe_accepts(*probe, child.entry_name@, child.meta.path@));
            assert forall|p: Seq<char>| str_views(mid).contains(p) <==> (str_views(before).contains(p) || (accepted && p == child.full_path@)) by {
                if !accepted {
                    assert(mid == before);
                }
            }
            child.collect(probe, out);
            proof {
                let v0 = str_views(before);
                let v1 = str_views(mid);
                let v2 = str_views(out@);
                let g = child.full_path@;
                assert(g.len() > 0);
                assert(mid.len() == before.len() || (accepted && mid.len() == before.len() + 1 && v1[before.len() as int] == g));
                assert forall|k: int| 0 <= k < before.len() implies #[trigger] out@[k] == before[k] by {
                    assert(out@[k] == mid[k]);
                    if accepted {
                        assert(mid[k] == before[k]);
                    }
                }
                assert forall|k: int| before.len() <= k < out@.len() implies extends(g, #[trigger] v2[k]) by {
                    if k < mid.len() {
                        assert(out@[k] == mid[k]);
                        assert(v2[k] == g);
                        assert(g.take(g.len() as int) =~= g);
                    }
                }
                assert forall|k: int| 0 <= k < before.len() implies #[trigger] v2[k] == v0[k] by {
                    assert(out@[k] == before[k]);
                }
                assert forall|a: int, b: int| sl <= a < b < v2.len() implies v2[a] != v2[b] by {
                    if b < before.len() {
                        assert(v2[a] == v0[a]);
                        assert(v2[b] == v0[b]);
                    } else if a < before.len() {
                        assert(v2[a] == v0[a]);
                        let j = choose|j: int| 0 <= j < i && extends(#[trigger] self.children@[j].full_path@, v0[a]);
                        let cj = self.children@[j];
                        assert(child_fits(self.full_path@, cj));
                        assert(child_fits(self.full_path@, *child));
                        assert(cj.entry_name@ != child.entry_name@);
                        lemma_siblings_apart(self.full_path@, cj.entry_name@, child.entry_name@, v2[a]);
                    } else if a < mid.len() {
                        assert(out@[a] == mid[a]);
                        assert(v2[a] == g);
                    } else {
                    }
                }
                assert forall|k: int| #![trigger str_views(out@)[k]] sl <= k < out@.len() implies exists|j: int|
                    0 <= j < i + 1 && extends(#[trigger] self.children@[j].full_path@, str_views(out@)[k]) by {
                    if k < before.len() {
                        assert(v2[k] == v0[k]);
                        let j = choose|j: int| 0 <= j < i && extends(#[trigger] self.children@[j].full_path@, v0[k]);
                        assert(0 <= j < i + 1);
                    } else {
                        assert(extends(self.children@[i as int].full_path@, v2[k]));
                    }
                }
                assert forall|p: Seq<char>|
                    #![trigger str_views(out@).contains(p)]
                    str_views(out@).contains(p) <==> (str_views(start).contains(p) || exists|j: int|
                        0 <= j < i + 1 && node_hit(#[trigger] self.children@[j], *probe, p)) by {
                    assert(str_views(out@).contains(p) <==> (str_views(mid).contains(p) || subtree_hit(*child, *probe, p)));
                    assert(str_views(mid).contains(p) <==> (str_views(before).contains(p) || (accepted && p == child.full_path@)));
                    assert(str_views(before).contains(p) <==> (str_views(start).contains(p) || exists|j: int|
                        0 <= j < i && node_hit(#[trigger] self.children@[j], *probe, p)));
                    if node_hit(self.children@[i as int], *probe, p) {
                        assert(0 <= i < i + 1);
                    }
                    if exists|j: int| 0 <= j < i + 1 && node_hit(#[trigger] self.children@[j], *probe, p) {
                        let j = choose|j: int| 0 <= j < i + 1 && node_hit(#[trigger] self.children@[j], *probe, p);
                        if j < i {
                            assert(exists|j: int| 0 <= j < i && node_hit(#[trigger] self.children@[j], *probe, p));
                        }
                    }
                    if exists|j: int| 0 <= j < i && node_hit(#[trigger] self.children@[j], *probe, p) {
                        let j = choose|j: int| 0 <= j < i && node_hit(#[trigger] self.children@[j], *probe, p);
                        assert(0 <= j < i + 1);
                    }
                }
            }
            i = i + 1;
        }
        proof {
            assert forall|p: Seq<char>| #![trigger str_views(out@).contains(p)]
                str_views(out@).contains(p) <==> (str_views(start).contains(p) || subtree_hit(*self, *probe, p)) by {
                lemma_subtree_hit_split(*self, *probe, p);
            }
            let v = str_views(out@);
            assert forall|k: int| sl <= k < out@.len() implies extends(self.full_path@, #[trigger] v[k]) && v[k].len()
                > self.full_path@.len() by {
                let j = choose|j: int| 0 <= j < i && extends(#[trigger] self.children@[j].full_path@, v[k]);
                let cj = self.children@[j];
                assert(child_fits(self.full_path@, cj));
                lemma_join_is_base_plus(self.full_path@, cj.entry_name@);
                if self.full_path@.len() > 0 {
                    lemma_join_extends(self.full_path@, cj.entry_name@);
                    lemma_extends_trans(self.full_path@, cj.full_path@, v[k]);
                }
            }
        }
    }

    /// The paths of the nodes below this one whose final component matches
    /// `entry_name` under the entry-name rule, each once, in no particular order.
    pub fn search_entry(&self, entry_name: &str, is_fuzzy: bool) -> (r: Vec<String>)
        requires
            wf_node(*self),
        ensures
            forall|p: Seq<char>|
                #![trigger str_views(r@).contains(p)]
                str_views(r@).contains(p) <==> entry_below(*self, entry_name@, is_fuzzy, p),
            str_views(r@).no_duplicates(),
    {
        let mut out: Vec<String> = Vec::new();
        assert(str_views(out@) =~= Seq::<Seq<char>>::empty());
        let probe = Probe::Entry { name: entry_name.to_owned(), fuzzy: is_fuzzy };
        self.collect(&probe, &mut out);
        proof {
            lemma_distinct_no_duplicates(str_views(out@));
            assert forall|p: Seq<char>| subtree_hit(*self, probe, p) == entry_below(*self, entry_name@, is_fuzzy, p) by {
                if subtree_hit(*self, probe, p) {
                    let q = choose|q: Seq<Seq<char>>|
                        #![trigger lookup(*self, q)]
                        q.len() > 0 && lookup(*self, q) is Some && probe_accepts(probe, q.last(), lookup(*self, q)->Some_0.path)
                            && p == lookup(*self, q)->Some_0.path;
                    assert(lookup(*self, q) is Some);
                }
                if entry_below(*self, entry_name@, is_fuzzy, p) {
                    let q = choose|q: Seq<Seq<char>>|
                        #![trigger lookup(*self, q)]
                        q.len() > 0 && lookup(*self, q) is Some && pattern_matches(entry_name@, q.last(), is_fuzzy)
                            && p == lookup(*self, q)->Some_0.path;
                    assert(probe_accepts(probe, q.last(), lookup(*self, q)->Some_0.path));
                }
            }
        }
        out
    }

    /// The paths of the nodes below this one in which the regular expression
    /// `pattern` finds a match; nothing when `pattern` is not valid.
    pub fn search_path_regex(&self, pattern: &str) -> (r: Vec<String>)
        requires
            wf_node(*self),
        ensures
            forall|p: Seq<char>|
                #![trigger str_views(r@).contains(p)]
                str_views(r@).contains(p) <==> (regex_valid(pattern@) && regex_below(*self, pattern@, p)),
            str_views(r@).no_duplicates(),
    {
        let mut out: Vec<String> = Vec::new();
        assert(str_views(out@) =~= Seq::<Seq<char>>::empty());
        match PathPattern::new(pattern) {
            None => out,
            Some(re) => {
                let probe = Probe::Regex(re);
                self.collect(&probe, &mut out);
                proof {
                    lemma_distinct_no_duplicates(str_views(out@));
                    assert forall|p: Seq<char>| subtree_hit(*self, probe, p) == regex_below(*self, pattern@, p) by {
                        if subtree_hit(*self, probe, p) {
                            let q = choose|q: Seq<Seq<char>>|
                                #![trigger lookup(*self, q)]
                                q.len() > 0 && lookup(*self, q) is Some && probe_accepts(probe, q.last(), lookup(*self, q)->Some_0.path)
                                    && p == lookup(*self, q)->Some_0.path;
                            assert(lookup(*self, q) is Some);
                        }
                        if regex_below(*self, pattern@, p) {
                            let q = choose|q: Seq<Seq<char>>|
                                #![trigger lookup(*self, q)]
                                q.len() > 0 && lookup(*self, q) is Some && regex_finds(pattern@, lookup(*self, q)->Some_0.path)
                                    && p == lookup(*self, q)->Some_0.path;
                            assert(probe_accepts(probe, q.last(), lookup(*self, q)->Some_0.path));
                        }
                    }
                }
                out
            },
        }
    }

    /// Inserts the walk of `path` below this node, as
    /// [`TrieCache::insert_path`] does from the root.
    pub fn insert(&mut self, path: &str, meta: Option<EntryMeta>, update_count: bool) -> (r: Result<
        Option<EntryMeta>,
        CustomError,
    >)
        requires
            wf_node(*old(self)),
        ensures
            wf_node(*final(self)),
            r is Ok <==> valid_path(path@) && !(old(self).full_path@.len() > 0 && path@.len() > 0
                && path@[0] == '/'),
            r is Err ==> r == Err::<Option<EntryMeta>, CustomError>(CustomError::PathError)
                && *final(self) == *old(self),
            r is Ok ==> forall|q: Seq<Seq<char>>|
                #![trigger lookup(*final(self), q)]
                lookup(*final(self), q) == lookup_after_insert(
                    *old(self),
                    path_components(path@),
                    opt_view(meta),
                    update_count,
                    q,
                ),
            r is Ok ==> (r->Ok_0 matches Some(m) && lookup(*final(self), path_components(path@))
                == Some(m@)),
    {
        match split_path(path) {
            Err(e) => Err(e),
            Ok(comps) => {
                let ghost cs = path_components(path@);
                assert(str_views(comps@).subrange(0, comps@.len() as int) =~= cs);
                proof {
                    lemma_components_plain(path@);
                    assert(comps@[0]@ == cs[0]);
                    assert forall|k: int| 0 < k < comps@.len() implies plain_name(#[trigger] comps@[k]@) by {
                        assert(comps@[k]@ == cs[k]);
                    }
                }
                if self.full_path.as_str().unicode_len() > 0 && path.unicode_len() > 0 && path.get_char(0) == '/' {
                    return Err(CustomError::PathError);
                }
                let m = self.insert_at(&comps, 0, &meta, update_count);
                Ok(Some(m))
            },
        }
    }

    /// Whether the walk of `path` from this node finds a node; with
    /// `update_count` that node's counter is raised.
    pub fn contains_full_path(&mut self, path: &str, update_count: bool) -> (r: bool)
        requires
            wf_node(*old(self)),
        ensures
            wf_node(*final(self)),
            r == (valid_path(path@) && lookup(*old(self), path_components(path@)) is Some),
            valid_path(path@) ==> forall|q: Seq<Seq<char>>|
                #![trigger lookup(*final(self), q)]
                lookup(*final(self), q) == lookup_after_touch(
                    *old(self),
                    path_components(path@),
                    None,
                    update_count,
                    q,
                ),
    {
        match split_path(path) {
            Err(_) => false,
            Ok(comps) => {
                assert(str_views(comps@).subrange(0, comps@.len() as int) =~= path_components(path@));
                self.search_at(&comps, 0, &None, update_count).is_some()
            },
        }
    }

    /// Removes the node at the end of the walk of `path` from this node,
    /// with everything below it; `PathNotFound` when the walk breaks off.
    pub fn delete(&mut self, path: &str) -> (r: Result<(), CustomError>)
        requires
            wf_node(*old(self)),
        ensures
            wf_node(*final(self)),
            r is Ok <==> (valid_path(path@) && lookup(*old(self), path_components(path@)) is Some),
            r is Err ==> r == Err::<(), CustomError>(CustomError::PathNotFound),
            forall|q: Seq<Seq<char>>|
                #![trigger lookup(*final(self), q)]
                lookup(*final(self), q) == if r is Ok {
                    lookup_after_delete(*old(self), path_components(path@), q)
                } else {
                    lookup(*old(self), q)
                },
    {
        match split_path(path) {
            Err(_) => Err(CustomError::PathNotFound),
            Ok(comps) => {
                assert(str_views(comps@).subrange(0, comps@.len() as int) =~= path_components(path@));
                self.delete_at(&comps, 0)
            },
        }
    }

    /// The index of the child named `name`, if there is one.
    fn find_child(&self, name: &String) -> (r: Option<usize>)
        requires
            names_unique(self.children@),
        ensures
            r is None ==> !has_child(*self, name@),
            r is Some ==> r->Some_0 < self.children@.len() && self.children@[r->Some_0 as int].entry_name@
                == name@ && has_child(*self, name@) && child_named(*self, name@)
                == self.children@[r->Some_0 as int],
    {
        let mut i: usize = 0;
        while i < self.children.len()
            invariant
                i <= self.children@.len(),
                names_unique(self.children@),
                forall|j: int| 0 <= j < i ==> (#[trigger] self.children@[j]).entry_name@ != name@,
            decreases self.children@.len() - i,
        {
            if self.children[i].entry_name == *name {
                proof {
                    lemma_child_named(*self, i as int);
                }
                return Some(i);
            }
            i = i + 1;
        }
        None
    }
}


/// The record stored for each path of the trie: the map from a path's
/// components to its record.
pub type TrieView = Map<Seq<Seq<char>>, MetaModel>;

/// The trie after `c` has been inserted: every non-empty prefix of `c` is
/// present; prefixes that were absent get the given record (at the end of
/// `c`) or a placeholder, filed under their own path; with `bump` each of
/// them has its counter raised by one.
pub open spec fn map_insert(m: TrieView, c: Seq<Seq<char>>, given: Option<MetaModel>, bump: bool) -> TrieView {
    Map::new(
        |q: Seq<Seq<char>>| m.contains_key(q) || (q.len() > 0 && is_prefix(q, c)),
        |q: Seq<Seq<char>>|
            if q.len() > 0 && is_prefix(q, c) {
                inserted_meta(
                    if m.contains_key(q) {
                        Some(m[q])
                    } else {
                        None
                    },
                    q.len() == c.len(),
                    given,
                    bump,
                    full_path_of(q),
                )
            } else {
                m[q]
            },
    )
}

/// The trie after the path `c` and everything below it has been removed.
pub open spec fn map_delete(m: TrieView, c: Seq<Seq<char>>) -> TrieView {
    Map::new(|q: Seq<Seq<char>>| m.contains_key(q) && !is_prefix(c, q), |q: Seq<Seq<char>>| m[q])
}

/// The trie after a lookup of `c` that raises the counter it finds when `bump` holds.
pub open spec fn map_touch(m: TrieView, c: Seq<Seq<char>>, bump: bool) -> TrieView {
    if bump && m.contains_key(c) {
        m.insert(c, m[c].bumped())
    } else {
        m
    }
}

/// The trie after a lookup of `c` that refreshes the record it finds.
pub open spec fn map_refresh(m: TrieView, c: Seq<Seq<char>>, fresh: Option<MetaModel>, bump: bool) -> TrieView {
    if m.contains_key(c) {
        m.insert(c, refreshed(m[c], fresh, bump))
    } else {
        m
    }
}

/// Whether the path `p` names a node of the trie `m`.
pub open spec fn tracks(m: TrieView, p: Seq<char>) -> bool {
    valid_path(p) && m.contains_key(path_components(p))
}

/// Whether `p` is the path of a node of `m` whose final component matches
/// `name` under the entry-name rule.
pub open spec fn entry_hit(m: TrieView, name: Seq<char>, fuzzy: bool, p: Seq<char>) -> bool {
    exists|q: Seq<Seq<char>>|
        #![trigger m[q]]
        m.contains_key(q) && pattern_matches(name, q.last(), fuzzy) && p == m[q].path
}

/// Whether `p` is the path of a node of `m` in which the expression
/// `pattern` finds a match.
pub open spec fn regex_hit(m: TrieView, pattern: Seq<char>, p: Seq<char>) -> bool {
    exists|q: Seq<Seq<char>>| #![trigger m[q]] m.contains_key(q) && regex_finds(pattern, m[q].path) && p == m[q].path
}

/// The path trie: the root stands for no path; every other node stands for
/// the path spelled by the components on the way down to it.
pub struct TrieCache {
    pub root: TrieNode,
}

impl View for TrieCache {
    type V = TrieView;

    open spec fn view(&self) -> TrieView {
        Map::new(
            |q: Seq<Seq<char>>| q.len() > 0 && lookup(self.root, q) is Some,
            |q: Seq<Seq<char>>| lookup(self.root, q)->Some_0,
        )
    }
}

impl TrieCache {
    /// The root has no name and an empty path, and every node keeps the shape.
    pub open spec fn wf(&self) -> bool {
        &&& wf_node(self.root)
        &&& self.root.full_path@ == Seq::<char>::empty()
        &&& self.root.entry_name@ == Seq::<char>::empty()
    }

    /// An empty trie.
    pub fn new() -> (r: TrieCache)
        ensures
            r.wf(),
            r@ == Map::<Seq<Seq<char>>, MetaModel>::empty(),
    {
        let r = TrieCache { root: TrieNode::new() };
        assert(r@ =~= Map::<Seq<Seq<char>>, MetaModel>::empty()) by {
            assert forall|q: Seq<Seq<char>>| q.len() > 0 implies lookup(r.root, q) is None by {
                assert(!has_child(r.root, q[0]));
            }
        }
        r
    }

    /// Inserts `path`, creating the nodes of its prefixes that are missing.
    /// A node created at the end of the path takes `meta` (filed under the
    /// node's path) when it is given; an existing node keeps its record.
    /// With `update_count` every node on the way, the last one included, has
    /// its counter raised. Returns the record at the end of the path, or
    /// `PathError` when the path cannot key the trie.
    pub fn insert_path(&mut self, path: &str, meta: Option<EntryMeta>, update_count: bool) -> (r: Result<
        Option<EntryMeta>,
        CustomError,
    >)
        requires
            old(self).wf(),
        ensures
            final(self).wf(),
            r is Ok <==> valid_path(path@),
            r is Err ==> r == Err::<Option<EntryMeta>, CustomError>(CustomError::PathError)
                && final(self)@ == old(self)@,
            r is Ok ==> final(self)@ == map_insert(
                old(self)@,
                path_components(path@),
                opt_view(meta),
                update_count,
            ),
            r is Ok ==> r->Ok_0 is Some && r->Ok_0->Some_0@ == final(self)@[path_components(path@)],
    {
        match split_path(path) {
            Err(e) => Err(e),
            Ok(comps) => {
                let ghost old_root = self.root;
                let ghost cs = path_components(path@);
                let ghost g = opt_view(meta);
                assert(str_views(comps@).subrange(0, comps@.len() as int) =~= cs);
                proof {
                    lemma_components_plain(path@);
                    assert(comps@[0]@ == cs[0]);
                    assert forall|k: int| 0 < k < comps@.len() implies plain_name(#[trigger] comps@[k]@) by {
                        assert(comps@[k]@ == cs[k]);
                    }
                }
                let m = self.root.insert_at(&comps, 0, &meta, update_count);
                proof {
                    assert(self@ =~= map_insert(old(self)@, cs, g, update_count)) by {
                        assert forall|q: Seq<Seq<char>>|
                            #![trigger lookup(self.root, q)]
                            q.len() > 0 implies lookup(self.root, q) == lookup_after_insert(
                                old_root,
                                cs,
                                g,
                                update_count,
                                q,
                            ) by {}
                    }
                }
                Ok(Some(m))
            },
        }
    }

    /// Removes the node of `path` and everything below it; its ancestors
    /// stay. Fails with `PathNotFound` when the path names no node.
    pub fn delete(&mut self, path: &str) -> (r: Result<(), CustomError>)
        requires
            old(self).wf(),
        ensures
            final(self).wf(),
            r is Ok <==> tracks(old(self)@, path@),
            r is Ok ==> final(self)@ == map_delete(old(self)@, path_components(path@)),
            r is Err ==> r == Err::<(), CustomError>(CustomError::PathNotFound) && final(self)@
                == old(self)@,
    {
        match split_path(path) {
            Err(_) => Err(CustomError::PathNotFound),
            Ok(comps) => {
                let ghost old_root = self.root;
                let ghost cs = path_components(path@);
                assert(str_views(comps@).subrange(0, comps@.len() as int) =~= cs);
                let r = self.root.delete_at(&comps, 0);
                proof {
                    if r is Ok {
                        assert(self@ =~= map_delete(old(self)@, cs)) by {
                            assert forall|q: Seq<Seq<char>>|
                                #![trigger lookup(self.root, q)]
                                q.len() > 0 implies lookup(self.root, q) == lookup_after_delete(
                                    old_root,
                                    cs,
                                    q,
                                ) by {}
                        }
                    } else {
                        assert(self@ =~= old(self)@) by {
                            assert forall|q: Seq<Seq<char>>|
                                #![trigger lookup(self.root, q)]
                                q.len() > 0 implies lookup(self.root, q) == lookup(old_root, q) by {}
                        }
                    }
                }
                r
            },
        }
    }

    /// The record of `path`, if the trie holds it. With `update_count` the
    /// counter of that node (and of no other) is raised first.
    pub fn search_full_path(&mut self, path: &str, update_count: bool) -> (r: Option<EntryMeta>)
        requires
            old(self).wf(),
        ensures
            final(self).wf(),
            r is Some <==> tracks(old(self)@, path@),
            valid_path(path@) ==> final(self)@ == map_touch(
                old(self)@,
                path_components(path@),
                update_count,
            ),
            !valid_path(path@) ==> final(self)@ == old(self)@,
            r is Some ==> r->Some_0@ == final(self)@[path_components(path@)],
    {
        let r = self.refresh_path(path, None, update_count);
        proof {
            if valid_path(path@) {
                let c = path_components(path@);
                if old(self)@.contains_key(c) && !update_count {
                    assert(old(self)@.insert(c, old(self)@[c]) =~= old(self)@);
                }
            }
        }
        r
    }

    /// Looks up `path` and, when the trie holds it, refreshes its record
    /// with the size, modification time and kind of `observed` (when given)
    /// and raises its counter when `update_count` holds; returns the record.
    pub fn refresh_path(&mut self, path: &str, observed: Option<EntryMeta>, update_count: bool) -> (r: Option<
        EntryMeta,
    >)
        requires
            old(self).wf(),
        ensures
            final(self).wf(),
            r is Some <==> tracks(old(self)@, path@),
            valid_path(path@) ==> final(self)@ == map_refresh(
                old(self)@,
                path_components(path@),
                opt_view(observed),
                update_count,
            ),
            !valid_path(path@) ==> final(self)@ == old(self)@,
            r is Some ==> r->Some_0@ == final(self)@[path_components(path@)],
    {
        match split_path(path) {
            Err(_) => None,
            Ok(comps) => {
                let ghost old_root = self.root;
                let ghost cs = path_components(path@);
                let ghost g = opt_view(observed);
                assert(str_views(comps@).subrange(0, comps@.len() as int) =~= cs);
                let r = self.root.search_at(&comps, 0, &observed, update_count);
                proof {
                    assert(self@ =~= map_refresh(old(self)@, cs, g, update_count)) by {
                        assert forall|q: Seq<Seq<char>>|
                            #![trigger lookup(self.root, q)]
                            q.len() > 0 implies lookup(self.root, q) == lookup_after_touch(
                                old_root,
                                cs,
                                g,
                                update_count,
                                q,
                            ) by {}
                    }
                }
                r
            },
        }
    }

    /// The paths whose final component matches `entry` under the entry-name
    /// rule, each once and in no particular order; nothing for an empty `entry`.
    pub fn search_entry(&self, entry: &str, is_fuzzy: bool) -> (r: Vec<String>)
        requires
            self.wf(),
        ensures
            forall|p: Seq<char>|
                #![trigger str_views(r@).contains(p)]
                str_views(r@).contains(p) <==> (entry@.len() > 0 && entry_hit(self@, entry@, is_fuzzy, p)),
            str_views(r@).no_duplicates(),
    {
        if entry.unicode_len() == 0 {
            let out: Vec<String> = Vec::new();
            assert(str_views(out@) =~= Seq::<Seq<char>>::empty());
            return out;
        }
        let out = self.root.search_entry(entry, is_fuzzy);
        proof {
            assert forall|p: Seq<char>| entry_below(self.root, entry@, is_fuzzy, p) == entry_hit(self@, entry@, is_fuzzy, p) by {
                if entry_below(self.root, entry@, is_fuzzy, p) {
                    let q = choose|q: Seq<Seq<char>>|
                        #![trigger lookup(self.root, q)]
                        q.len() > 0 && lookup(self.root, q) is Some && pattern_matches(entry@, q.last(), is_fuzzy)
                            && p == lookup(self.root, q)->Some_0.path;
                    assert(self@.contains_key(q));
                    assert(self@[q] == lookup(self.root, q)->Some_0);
                }
                if entry_hit(self@, entry@, is_fuzzy, p) {
                    let q = choose|q: Seq<Seq<char>>|
                        #![trigger self@[q]]
                        self@.contains_key(q) && pattern_matches(entry@, q.last(), is_fuzzy) && p == self@[q].path;
                    assert(lookup(self.root, q) is Some);
                    assert(self@[q] == lookup(self.root, q)->Some_0);
                }
            }
        }
        out
    }

    /// The paths in which the regular expression `pattern` finds a match, each once, in
    /// no particular order; nothing when `pattern` is not a valid expression.
    pub fn search_path_regex(&self, pattern: &str) -> (r: Vec<String>)
        requires
            self.wf(),
        ensures
            forall|p: Seq<char>|
                #![trigger str_views(r@).contains(p)]
                str_views(r@).contains(p) <==> (regex_valid(pattern@) && regex_hit(self@, pattern@, p)),
            str_views(r@).no_duplicates(),
    {
        let out = self.root.search_path_regex(pattern);
        proof {
            assert forall|p: Seq<char>| regex_below(self.root, pattern@, p) == regex_hit(self@, pattern@, p) by {
                if regex_below(self.root, pattern@, p) {
                    let q = choose|q: Seq<Seq<char>>|
                        #![trigger lookup(self.root, q)]
                        q.len() > 0 && lookup(self.root, q) is Some && regex_finds(pattern@, lookup(self.root, q)->Some_0.path)
                            && p == lookup(self.root, q)->Some_0.path;
                    assert(self@.contains_key(q));
                    assert(self@[q] == lookup(self.root, q)->Some_0);
                }
                if regex_hit(self@, pattern@, p) {
                    let q = choose|q: Seq<Seq<char>>|
                        #![trigger self@[q]]
                        self@.contains_key(q) && regex_finds(pattern@, self@[q].path) && p == self@[q].path;
                    assert(lookup(self.root, q) is Some);
                    assert(self@[q] == lookup(self.root, q)->Some_0);
                }
            }
        }
        out
    }

    /// Whether the trie holds `path`; counts as a lookup of it, as
    /// [`TrieCache::search_full_path`] does.
    pub fn contains_full_path(&mut self, path: &str, update_count: bool) -> (r: bool)
        requires
            old(self).wf(),
        ensures
            final(self).wf(),
            r == tracks(old(self)@, path@),
            valid_path(path@) ==> final(self)@ == map_touch(
                old(self)@,
                path_components(path@),
                update_count,
            ),
            !valid_path(path@) ==> final(self)@ == old(self)@,
    {
        self.search_full_path(path, update_count).is_some()
    }
}


/// The record found at the end of a walk is filed under the path of that walk.
pub proof fn lemma_lookup_path(n: TrieNode, q: Seq<Seq<char>>)
    requires
        wf_node(n),
        lookup(n, q) is Some,
    ensures
        lookup(n, q)->Some_0.path == path_under(n.full_path@, q),
    decreases q.len(),
{
    if q.len() > 0 {
        let j = choose|j: int| 0 <= j < n.children@.len() && (#[trigger] n.children@[j]).entry_name@ == q[0];
        lemma_child_named(n, j);
        let c = n.children@[j];
        let q1 = q.drop_first();
        lemma_lookup_path(c, q1);
        lemma_path_under_first(n.full_path@, q[0], q1);
        assert(seq![q[0]] + q1 =~= q);
    }
}

/// Every leading part of a walk that finds a record finds one too.
pub proof fn lemma_lookup_prefix(n: TrieNode, q: Seq<Seq<char>>, k: int)
    requires
        lookup(n, q) is Some,
        0 <= k <= q.len(),
    ensures
        lookup(n, q.take(k)) is Some,
    decreases q.len(),
{
    if k > 0 {
        let c = child_named(n, q[0]);
        lemma_lookup_prefix(c, q.drop_first(), k - 1);
        assert(q.take(k).drop_first() =~= q.drop_first().take(k - 1));
        assert(q.take(k)[0] == q[0]);
    }
}

/// The shape of every trie: each record is filed under the path spelled by
/// the components leading to it, and each prefix of a stored path is stored.
pub proof fn trie_shape(t: TrieCache)
    requires
        t.wf(),
    ensures
        forall|q: Seq<Seq<char>>| #[trigger] t@.contains_key(q) ==> t@[q].path == full_path_of(q),
        forall|q: Seq<Seq<char>>, k: int|
            #[trigger] t@.contains_key(q) && 1 <= k <= q.len() ==> t@.contains_key(#[trigger] q.take(k)),
{
    assert forall|q: Seq<Seq<char>>| #[trigger] t@.contains_key(q) implies t@[q].path == full_path_of(q) by {
        lemma_lookup_path(t.root, q);
    }
    assert forall|q: Seq<Seq<char>>, k: int|
        #[trigger] t@.contains_key(q) && 1 <= k <= q.len() implies t@.contains_key(#[trigger] q.take(k)) by {
        lemma_lookup_prefix(t.root, q, k);
    }
}

/// Counters move only when asked to: an insertion or a lookup without
/// `bump` leaves every record already present exactly as it was.
pub proof fn plain_operations_keep_records(m: TrieView, c: Seq<Seq<char>>, given: Option<MetaModel>)
    ensures
        forall|q: Seq<Seq<char>>| #[trigger] m.contains_key(q) ==> map_insert(m, c, given, false)[q] == m[q],
        map_touch(m, c, false) == m,
{
}

/// A path that has been inserted stays in the trie through later
/// insertions and lookups, and through deletions of paths that are not
/// one of its prefixes.
pub proof fn inserted_path_persists(m: TrieView, c: Seq<Seq<char>>, given: Option<MetaModel>, bump: bool)
    requires
        c.len() > 0,
    ensures
        map_insert(m, c, given, bump).contains_key(c),
        forall|d: Seq<Seq<char>>, g: Option<MetaModel>, b: bool|
            m.contains_key(c) ==> #[trigger] map_insert(m, d, g, b).contains_key(c),
        forall|d: Seq<Seq<char>>, b: bool| #[trigger] map_touch(m, d, b).contains_key(c) == m.contains_key(c),
        forall|d: Seq<Seq<char>>|
            m.contains_key(c) && !is_prefix(d, c) ==> #[trigger] map_delete(m, d).contains_key(c),
{
    assert(c.subrange(0, c.len() as int) =~= c);
}

/// Inserting a canonical path without counting and then looking it up
/// without counting gives a record filed under that very path.
pub proof fn insert_then_search_gives_path(t: TrieCache, p: Seq<char>, given: Option<MetaModel>)
    requires
        t.wf(),
        canonical_path(p),
    ensures
        ({
            let c = path_components(p);
            let after = map_touch(map_insert(t@, c, given, false), c, false);
            after.contains_key(c) && after[c].path == p
        }),
{
    let c = path_components(p);
    assert(c.subrange(0, c.len() as int) =~= c);
    trie_shape(t);
}

/// Inserting a path and then deleting it leaves the path out of the trie.
pub proof fn insert_then_delete_forgets(m: TrieView, c: Seq<Seq<char>>, given: Option<MetaModel>, bump: bool)
    ensures
        !map_delete(map_insert(m, c, given, bump), c).contains_key(c),
{
    assert(c.subrange(0, c.len() as int) =~= c);
}

/// Inserting the same path with the same record twice without counting
/// changes nothing the second time.
pub proof fn repeated_plain_insert_is_idempotent(m: TrieView, c: Seq<Seq<char>>, given: Option<MetaModel>)
    ensures
        map_insert(map_insert(m, c, given, false), c, given, false) == map_insert(m, c, given, false),
{
    let once = map_insert(m, c, given, false);
    assert(map_insert(once, c, given, false) =~= once);
}

/// The trie after inserting `c` with counting once for each record of
/// `gs`, in order, each time with that record.
pub open spec fn insert_times(m: TrieView, c: Seq<Seq<char>>, gs: Seq<Option<MetaModel>>) -> TrieView
    decreases gs.len(),
{
    if gs.len() == 0 {
        m
    } else {
        map_insert(insert_times(m, c, gs.drop_last()), c, gs.last(), true)
    }
}

/// After `n` counted insertions of the same path in a row, whatever
/// records they carry, its counter is at least `n`.
pub proof fn counted_inserts_raise_counter(m: TrieView, c: Seq<Seq<char>>, gs: Seq<Option<MetaModel>>)
    requires
        c.len() > 0,
        1 <= gs.len() <= u32::MAX,
    ensures
        insert_times(m, c, gs).contains_key(c),
        insert_times(m, c, gs)[c].access_count >= gs.len(),
    decreases gs.len(),
{
    assert(c.subrange(0, c.len() as int) =~= c);
    if gs.len() > 1 {
        counted_inserts_raise_counter(m, c, gs.drop_last());
    }
}

/// Deleting a path that the trie does not hold leaves the trie unchanged.
pub proof fn deleting_absent_path_is_noop(t: TrieCache, c: Seq<Seq<char>>)
    requires
        t.wf(),
        c.len() > 0,
        !t@.contains_key(c),
    ensures
        map_delete(t@, c) == t@,
{
    trie_shape(t);
    assert forall|q: Seq<Seq<char>>| #[trigger] t@.contains_key(q) implies !is_prefix(c, q) by {
        if is_prefix(c, q) {
            assert(q.take(c.len() as int) =~= c);
        }
    }
    assert(map_delete(t@, c) =~= t@);
}

/// One operation on the trie, as its view sees it: an insertion, a
/// deletion (which leaves the trie alone when the path is absent), or a
/// lookup that may refresh and count the record it finds.
pub ghost enum TrieOp {
    Insert(Seq<Seq<char>>, Option<MetaModel>, bool),
    Delete(Seq<Seq<char>>),
    Touch(Seq<Seq<char>>, Option<MetaModel>, bool),
}

/// The trie after one operation.
pub open spec fn apply_op(m: TrieView, op: TrieOp) -> TrieView {
    match op {
        TrieOp::Insert(c, g, b) => map_insert(m, c, g, b),
        TrieOp::Delete(c) => if m.contains_key(c) {
            map_delete(m, c)
        } else {
            m
        },
        TrieOp::Touch(c, f, b) => map_refresh(m, c, f, b),
    }
}

/// The trie after a sequence of operations, in order.
pub open spec fn apply_ops(m: TrieView, ops: Seq<TrieOp>) -> TrieView
    decreases ops.len(),
{
    if ops.len() == 0 {
        m
    } else {
        apply_op(apply_ops(m, ops.drop_last()), ops.last())
    }
}

/// A path that has been inserted stays in the trie through any later
/// operations, as long as none of them deletes the path or one of its
/// prefixes; so a later lookup of it finds its record.
pub proof fn inserted_path_stays_until_deleted(
    m: TrieView,
    c: Seq<Seq<char>>,
    given: Option<MetaModel>,
    bump: bool,
    later: Seq<TrieOp>,
)
    requires
        c.len() > 0,
        forall|i: int|
            0 <= i < later.len() ==> !(#[trigger] later[i] matches TrieOp::Delete(d) && is_prefix(d, c)),
    ensures
        apply_ops(map_insert(m, c, given, bump), later).contains_key(c),
    decreases later.len(),
{
    if later.len() == 0 {
        assert(c.subrange(0, c.len() as int) =~= c);
    } else {
        let front = later.drop_last();
        assert forall|i: int| 0 <= i < front.len() implies !(#[trigger] front[i] matches TrieOp::Delete(d) && is_prefix(d, c)) by {
            assert(front[i] == later[i]);
        }
        inserted_path_stays_until_deleted(m, c, given, bump, front);
        assert(later.last() == later[later.len() - 1]);
    }
}

} // verus!
