use vstd::prelude::*;

use crate::error::CustomError;

verus! {

/// The pieces of `s` between slashes, empty pieces included; a string
/// without a slash is one piece.
pub open spec fn split_slash(s: Seq<char>) -> Seq<Seq<char>>
    decreases s.len(),
{
    if s.len() == 0 {
        seq![Seq::empty()]
    } else {
        let r = split_slash(s.drop_last());
        if s.last() == '/' {
            r.push(Seq::empty())
        } else {
            r.update(r.len() - 1, r.last().push(s.last()))
        }
    }
}

/// The non-empty strings of `ss`, in order.
pub open spec fn keep_nonempty(ss: Seq<Seq<char>>) -> Seq<Seq<char>>
    decreases ss.len(),
{
    if ss.len() == 0 {
        Seq::empty()
    } else if ss.last().len() > 0 {
        keep_nonempty(ss.drop_last()).push(ss.last())
    } else {
        keep_nonempty(ss.drop_last())
    }
}

/// The component that stands for the filesystem root.
pub open spec fn root_token() -> Seq<char> {
    seq!['/']
}

/// The components of a path: the root token when the path is absolute,
/// then the non-empty pieces between slashes.
pub open spec fn path_components(s: Seq<char>) -> Seq<Seq<char>> {
    let rest = keep_nonempty(split_slash(s));
    if s.len() > 0 && s[0] == '/' {
        seq![root_token()] + rest
    } else {
        rest
    }
}

/// A name that can stand anywhere in a path: not empty, and without a slash.
pub open spec fn plain_name(name: Seq<char>) -> bool {
    name.len() > 0 && forall|k: int| 0 <= k < name.len() ==> name[k] != '/'
}

proof fn lemma_split_pieces_slashless(s: Seq<char>)
    ensures
        forall|k: int, i: int|
            0 <= k < split_slash(s).len() && 0 <= i < split_slash(s)[k].len() ==> split_slash(s)[k][i] != '/',
    decreases s.len(),
{
    if s.len() > 0 {
        lemma_split_pieces_slashless(s.drop_last());
        lemma_split_slash_nonempty(s.drop_last());
        let r = split_slash(s.drop_last());
        if s.last() != '/' {
            assert forall|k: int, i: int|
                0 <= k < split_slash(s).len() && 0 <= i < split_slash(s)[k].len() implies split_slash(s)[k][i] != '/' by {
                if k == r.len() - 1 && i == r.last().len() {
                } else if k == r.len() - 1 {
                    assert(split_slash(s)[k][i] == r[k][i]);
                } else {
                    assert(split_slash(s)[k] == r[k]);
                }
            }
        } else {
            assert forall|k: int, i: int|
                0 <= k < split_slash(s).len() && 0 <= i < split_slash(s)[k].len() implies split_slash(s)[k][i] != '/' by {
                if k < r.len() {
                    assert(split_slash(s)[k] == r[k]);
                }
            }
        }
    }
}

proof fn lemma_keep_nonempty_plain(ss: Seq<Seq<char>>)
    requires
        forall|k: int, i: int| 0 <= k < ss.len() && 0 <= i < ss[k].len() ==> ss[k][i] != '/',
    ensures
        forall|k: int| 0 <= k < keep_nonempty(ss).len() ==> plain_name(#[trigger] keep_nonempty(ss)[k]),
    decreases ss.len(),
{
    if ss.len() > 0 {
        assert forall|k: int, i: int| 0 <= k < ss.drop_last().len() && 0 <= i < ss.drop_last()[k].len() implies ss.drop_last()[k][i] != '/' by {
            assert(ss.drop_last()[k] == ss[k]);
        }
        lemma_keep_nonempty_plain(ss.drop_last());
        assert forall|i: int| 0 <= i < ss.last().len() implies ss.last()[i] != '/' by {
            assert(ss.last() == ss[ss.len() - 1]);
        }
        let kp = keep_nonempty(ss.drop_last());
        assert forall|k: int| 0 <= k < keep_nonempty(ss).len() implies plain_name(#[trigger] keep_nonempty(ss)[k]) by {
            if k < kp.len() {
                assert(keep_nonempty(ss)[k] == kp[k]);
            } else {
                assert(keep_nonempty(ss)[k] == ss.last());
            }
        }
    }
}

/// Every component is a plain name, except that an absolute path starts
/// with the root token.
pub proof fn lemma_components_plain(s: Seq<char>)
    ensures
        forall|k: int| 0 < k < path_components(s).len() ==> plain_name(#[trigger] path_components(s)[k]),
        path_components(s).len() > 0 ==> ((path_components(s)[0] == root_token()) == (s.len() > 0
            && s[0] == '/')),
        path_components(s).len() > 0 && !(s.len() > 0 && s[0] == '/') ==> plain_name(path_components(s)[0]),
{
    lemma_split_pieces_slashless(s);
    lemma_keep_nonempty_plain(split_slash(s));
    let rest = keep_nonempty(split_slash(s));
    if s.len() > 0 && s[0] == '/' {
        assert forall|k: int| 0 < k < path_components(s).len() implies plain_name(#[trigger] path_components(s)[k]) by {
            assert(path_components(s)[k] == rest[k - 1]);
        }
    } else if rest.len() > 0 {
        assert(plain_name(rest[0]));
        assert(rest[0] != root_token()) by {
            assert(root_token()[0] == '/');
        }
    }
}

/// A path can key the trie when it has at least one component and no NUL.
pub open spec fn valid_path(s: Seq<char>) -> bool {
    &&& path_components(s).len() > 0
    &&& forall|i: int| 0 <= i < s.len() ==> s[i] != '\0'
}

/// The path of a child named `name` under the path `base`.
pub open spec fn path_join(base: Seq<char>, name: Seq<char>) -> Seq<char> {
    if base.len() == 0 {
        name
    } else if base.last() == '/' {
        base + name
    } else {
        base.push('/') + name
    }
}

/// The path reached from `base` through the components `comps`.
pub open spec fn path_under(base: Seq<char>, comps: Seq<Seq<char>>) -> Seq<char>
    decreases comps.len(),
{
    if comps.len() == 0 {
        base
    } else {
        path_join(path_under(base, comps.drop_last()), comps.last())
    }
}

/// The path reached from the root through the components `comps`.
pub open spec fn full_path_of(comps: Seq<Seq<char>>) -> Seq<char> {
    path_under(Seq::empty(), comps)
}

/// Going through `name` and then `rest` is going through `[name] + rest`.
pub proof fn lemma_path_under_first(base: Seq<char>, name: Seq<char>, rest: Seq<Seq<char>>)
    ensures
        path_under(path_join(base, name), rest) == path_under(base, seq![name] + rest),
    decreases rest.len(),
{
    let all = seq![name] + rest;
    if rest.len() == 0 {
        assert(all.drop_last() =~= Seq::<Seq<char>>::empty());
        assert(all.last() == name);
        assert(rest =~= Seq::<Seq<char>>::empty());
        assert(path_under(base, all.drop_last()) == base);
        assert(path_under(base, all) == path_join(base, name));
    } else {
        lemma_path_under_first(base, name, rest.drop_last());
        assert(all.drop_last() =~= seq![name] + rest.drop_last());
        assert(all.last() == rest.last());
    }
}

/// The string `base` followed by `name`, with one slash between them
/// unless `base` is empty or already ends in one.
pub fn join_child(base: &str, name: &str) -> (r: String)
    ensures
        r@ == path_join(base@, name@),
{
    let n = base.unicode_len();
    if n == 0 {
        name.to_owned()
    } else if base.get_char(n - 1) == '/' {
        assert(base@.last() == '/');
        base.to_owned().concat(name)
    } else {
        proof {
            reveal_strlit("/");
        }
        let r = base.to_owned().concat("/").concat(name);
        assert(r@ =~= base@.push('/') + name@);
        r
    }
}

/// A path is canonical when joining its components gives it back.
pub open spec fn canonical_path(s: Seq<char>) -> bool {
    valid_path(s) && full_path_of(path_components(s)) == s
}

/// The views of a sequence of strings.
pub open spec fn str_views(v: Seq<String>) -> Seq<Seq<char>> {
    v.map_values(|x: String| x@)
}

proof fn lemma_split_slash_nonempty(s: Seq<char>)
    ensures
        split_slash(s).len() >= 1,
    decreases s.len(),
{
    if s.len() > 0 {
        lemma_split_slash_nonempty(s.drop_last());
    }
}

/// Splits a path into its components, or fails with `PathError` when the
/// path has no component or holds a NUL character.
pub fn split_path(path: &str) -> (r: Result<Vec<String>, CustomError>)
    ensures
        r is Ok <==> valid_path(path@),
        r is Err ==> r == Err::<Vec<String>, CustomError>(CustomError::PathError),
        r is Ok ==> str_views(r->Ok_0@) == path_components(path@),
{
    let s = Ghost(path@);
    let n = path.unicode_len();
    let mut comps: Vec<String> = Vec::new();
    let mut start: usize = 0;
    let mut has_nul = false;
    let mut i: usize = 0;
    let absolute = n > 0 && path.get_char(0) == '/';
    if absolute {
        proof {
            reveal_strlit("/");
        }
        let root = String::from_str("/");
        assert(root@ =~= root_token());
        comps.push(root);
        assert(str_views(comps@)[0] == root_token());
    }
    let ghost base: Seq<Seq<char>> = if absolute { seq![root_token()] } else { Seq::empty() };
    assert(str_views(comps@) =~= base);
    assert(s@.take(0) =~= Seq::<char>::empty());
    while i < n
        invariant
            n == s@.len(),
            path@ == s@,
            i <= n,
            start <= i,
            absolute == (s@.len() > 0 && s@[0] == '/'),
            base == (if absolute { seq![root_token()] } else { Seq::<Seq<char>>::empty() }),
            split_slash(s@.take(i as int)).len() >= 1,
            str_views(comps@) == base + keep_nonempty(split_slash(s@.take(i as int)).drop_last()),
            split_slash(s@.take(i as int)).last() == s@.subrange(start as int, i as int),
            has_nul == (exists|j: int| 0 <= j < i && s@[j] == '\0'),
        decreases n - i,
    {
        let c = path.get_char(i);
        let ghost prev = s@.take(i as int);
        let ghost next = s@.take(i + 1);
        assert(next.drop_last() =~= prev);
        assert(next.last() == c);
        proof {
            lemma_split_slash_nonempty(next);
        }
        if c == '/' {
            if start < i {
                let piece = path.substring_char(start, i);
                let ghost before = comps@;
                comps.push(piece.to_owned());
                assert(str_views(comps@) =~= str_views(before).push(piece@));
            }
            let ghost r = split_slash(prev);
            assert(split_slash(next) == r.push(Seq::empty()));
            assert(split_slash(next).drop_last() =~= r);
            assert(keep_nonempty(r) == if r.last().len() > 0 {
                keep_nonempty(r.drop_last()).push(r.last())
            } else {
                keep_nonempty(r.drop_last())
            });
            start = i + 1;
            assert(s@.subrange(start as int, i + 1) =~= Seq::<char>::empty());
        } else {
            let ghost r = split_slash(prev);
            assert(split_slash(next).drop_last() =~= r.drop_last());
            assert(split_slash(next).last() =~= s@.subrange(start as int, i + 1));
        }
        if c == '\0' {
            has_nul = true;
        }
        i = i + 1;
    }
    assert(s@.take(n as int) =~= s@);
    let ghost fin = split_slash(s@);
    if start < n {
        let piece = path.substring_char(start, n);
        let ghost before = comps@;
        comps.push(piece.to_owned());
        assert(str_views(comps@) =~= str_views(before).push(piece@));
    }
    assert(keep_nonempty(fin) == if fin.last().len() > 0 {
        keep_nonempty(fin.drop_last()).push(fin.last())
    } else {
        keep_nonempty(fin.drop_last())
    });
    assert(str_views(comps@) =~= path_components(s@));
    if has_nul || comps.len() == 0 {
        Err(CustomError::PathError)
    } else {
        Ok(comps)
    }
}

} // verus!
