use vstd::prelude::*;

verus! {

/// The lowercase form of a string, as `str::to_lowercase` computes it.
pub uninterp spec fn lower_of(s: Seq<char>) -> Seq<char>;

/// Whether `regex::Regex::new` accepts `pattern`.
pub uninterp spec fn regex_valid(pattern: Seq<char>) -> bool;

/// Whether the regular expression `pattern` matches somewhere in `haystack`.
pub uninterp spec fn regex_finds(pattern: Seq<char>, haystack: Seq<char>) -> bool;

/// The least number of single-character insertions, deletions and
/// substitutions that turn `a` into `b`.
pub open spec fn edit_distance(a: Seq<char>, b: Seq<char>) -> nat
    decreases a.len() + b.len(),
{
    if a.len() == 0 {
        b.len()
    } else if b.len() == 0 {
        a.len()
    } else {
        let sub = edit_distance(a.drop_last(), b.drop_last()) + if a.last() == b.last() {
            0nat
        } else {
            1nat
        };
        let del = edit_distance(a.drop_last(), b) + 1;
        let ins = edit_distance(a, b.drop_last()) + 1;
        if sub <= del && sub <= ins {
            sub
        } else if del <= ins {
            del
        } else {
            ins
        }
    }
}

/// Relies on `str::to_lowercase`: the result depends on the characters alone.
#[verifier::external_body]
fn lowercase(s: &str) -> (r: String)
    ensures
        r@ == lower_of(s@),
{
    s.to_lowercase()
}

/// Relies on `strsim::levenshtein`, which counts the least number of
/// character insertions, deletions and substitutions between two strings.
#[verifier::external_body]
fn levenshtein(a: &str, b: &str) -> (r: usize)
    ensures
        r as nat == edit_distance(a@, b@),
{
    strsim::levenshtein(a, b)
}

/// The leading `min(|a|, |b|)` characters of `a` and of `b` agree: exactly,
/// or within one edit when `fuzzy` holds.
pub open spec fn window_match(a: Seq<char>, b: Seq<char>, fuzzy: bool) -> bool {
    let k = if a.len() <= b.len() {
        a.len()
    } else {
        b.len()
    };
    if fuzzy {
        edit_distance(a.take(k as int), b.take(k as int)) <= 1
    } else {
        a.take(k as int) == b.take(k as int)
    }
}

/// The matching rule for entry names: both sides are lowercased and their
/// prefix windows compared; fuzzy comparison applies only when both
/// strings have more than three characters.
pub open spec fn pattern_matches(entry: Seq<char>, pattern: Seq<char>, is_fuzzy: bool) -> bool {
    window_match(
        lower_of(entry),
        lower_of(pattern),
        is_fuzzy && entry.len() > 3 && pattern.len() > 3,
    )
}

/// Compares the prefix windows of two strings that are already lowercased.
pub fn prefix_window_match(a: &str, b: &str, fuzzy: bool) -> (r: bool)
    ensures
        r == window_match(a@, b@, fuzzy),
{
    let la = a.unicode_len();
    let lb = b.unicode_len();
    let k = if la <= lb {
        la
    } else {
        lb
    };
    let wa = a.substring_char(0, k);
    let wb = b.substring_char(0, k);
    assert(wa@ =~= a@.take(k as int));
    assert(wb@ =~= b@.take(k as int));
    if fuzzy {
        levenshtein(wa, wb) <= 1
    } else {
        wa.to_owned() == wb.to_owned()
    }
}

/// Whether `entry` matches `pattern` under the entry-name rule.
pub fn pattern_match(entry: &str, pattern: &str, is_fuzzy: bool) -> (r: bool)
    ensures
        r == pattern_matches(entry@, pattern@, is_fuzzy),
{
    let entry_l = lowercase(entry);
    let pattern_l = lowercase(pattern);
    let fuzzy = is_fuzzy && entry.unicode_len() > 3 && pattern.unicode_len() > 3;
    prefix_window_match(entry_l.as_str(), pattern_l.as_str(), fuzzy)
}

/// Exact comparison of prefix windows does not depend on which string comes first.
pub proof fn exact_match_is_symmetric(x: Seq<char>, y: Seq<char>)
    ensures
        pattern_matches(x, y, false) == pattern_matches(y, x, false),
{
}

/// When either string has at most three characters (in particular when both
/// do), fuzzy matching answers as exact matching does.
pub proof fn short_fuzzy_is_exact(x: Seq<char>, y: Seq<char>)
    requires
        x.len() <= 3 || y.len() <= 3,
    ensures
        pattern_matches(x, y, true) == pattern_matches(x, y, false),
{
}

#[verifier::external_type_specification]
#[verifier::external_body]
pub struct ExRegex(regex::Regex);

/// Relies on `regex::Regex::new`, which compiles `pattern` or reports why it cannot.
#[verifier::external_body]
fn compile_regex(pattern: &str) -> (r: Option<regex::Regex>)
    ensures
        r is Some <==> regex_valid(pattern@),
{
    regex::Regex::new(pattern).ok()
}

/// A compiled regular expression together with the text it was compiled from.
pub struct PathPattern {
    source: String,
    compiled: regex::Regex,
}

impl View for PathPattern {
    type V = Seq<char>;

    closed spec fn view(&self) -> Seq<char> {
        self.source@
    }
}

impl PathPattern {
    /// Compiles `pattern`; `None` when it is not a valid regular expression.
    pub fn new(pattern: &str) -> (r: Option<PathPattern>)
        ensures
            r is Some <==> regex_valid(pattern@),
            r is Some ==> r->Some_0@ == pattern@,
    {
        match compile_regex(pattern) {
            Some(compiled) => Some(PathPattern { source: pattern.to_owned(), compiled }),
            None => None,
        }
    }

    /// Relies on `regex::Regex::is_match`: whether the expression matches
    /// somewhere in `haystack`. `compiled` is always built from `source`.
    #[verifier::external_body]
    pub(crate) fn is_match(&self, haystack: &str) -> (r: bool)
        ensures
            r == regex_finds(self@, haystack@),
    {
        self.compiled.is_match(haystack)
    }
}

/// Whether `pattern` is a valid regular expression that matches somewhere in
/// `path`; an invalid pattern matches nothing.
pub open spec fn regex_accepts(path: Seq<char>, pattern: Seq<char>) -> bool {
    regex_valid(pattern) && regex_finds(pattern, path)
}

/// Matches `path` against the regular expression `pattern`; an invalid
/// pattern matches nothing.
pub fn regex_match(path: &str, pattern: &str) -> (r: bool)
    ensures
        r == regex_accepts(path@, pattern@),
{
    match PathPattern::new(pattern) {
        Some(re) => re.is_match(path),
        None => false,
    }
}

/// Whether one of `patterns` is a valid regular expression matching `path`.
pub open spec fn listed(patterns: Seq<Seq<char>>, path: Seq<char>) -> bool {
    exists|i: int| 0 <= i < patterns.len() && regex_accepts(path, #[trigger] patterns[i])
}

/// The sources of a sequence of compiled patterns.
pub open spec fn pattern_sources(s: Seq<PathPattern>) -> Seq<Seq<char>> {
    s.map_values(|p: PathPattern| p@)
}

/// The compiled blacklist: the valid patterns among those configured.
pub struct Blacklist {
    patterns: Vec<PathPattern>,
}

impl Blacklist {
    /// The sources of the patterns kept.
    pub closed spec fn sources(&self) -> Seq<Seq<char>> {
        pattern_sources(self.patterns@)
    }

    /// Every pattern kept is a valid regular expression.
    pub closed spec fn wf(&self) -> bool {
        forall|i: int| 0 <= i < self.sources().len() ==> regex_valid(#[trigger] self.sources()[i])
    }

    /// Whether the blacklist excludes `path`.
    pub open spec fn excludes(&self, path: Seq<char>) -> bool {
        listed(self.sources(), path)
    }

    /// Compiles the configured patterns; invalid ones are left out, so they
    /// match nothing.
    pub fn new(patterns: &Vec<String>) -> (r: Blacklist)
        ensures
            r.wf(),
            forall|p: Seq<char>| r.excludes(p) == listed(str_seq(patterns@), p),
    {
        let mut kept: Vec<PathPattern> = Vec::new();
        let mut i: usize = 0;
        while i < patterns.len()
            invariant
                i <= patterns@.len(),
                forall|j: int| 0 <= j < kept@.len() ==> regex_valid(#[trigger] kept@[j]@),
                forall|p: Seq<char>|
                    listed(pattern_sources(kept@), p) == listed(
                        str_seq(patterns@).take(i as int),
                        p,
                    ),
            decreases patterns@.len() - i,
        {
            let ghost before = kept@;
            let ghost pre = str_seq(patterns@).take(i as int);
            let ghost post = str_seq(patterns@).take(i + 1);
            assert(post =~= pre.push(patterns@[i as int]@));
            match PathPattern::new(patterns[i].as_str()) {
                Some(re) => {
                    kept.push(re);
                    assert(pattern_sources(kept@) =~= pattern_sources(before).push(patterns@[i as int]@));
                    assert forall|p: Seq<char>|
                        listed(pattern_sources(kept@), p) == listed(post, p) by {
                        let ks = pattern_sources(kept@);
                        let bs = pattern_sources(before);
                        assert(listed(bs, p) == listed(pre, p));
                        if listed(ks, p) {
                            let j = choose|j: int| 0 <= j < ks.len() && regex_accepts(p, #[trigger] ks[j]);
                            if j < bs.len() {
                                assert(ks[j] == bs[j]);
                                assert(listed(bs, p));
                                let k = choose|k: int| 0 <= k < pre.len() && regex_accepts(p, #[trigger] pre[k]);
                                assert(post[k] == pre[k]);
                            } else {
                                assert(post[i as int] == ks[j]);
                            }
                        }
                        if listed(post, p) {
                            let j = choose|j: int| 0 <= j < post.len() && regex_accepts(p, #[trigger] post[j]);
                            if j < i {
                                assert(pre[j] == post[j]);
                                assert(listed(pre, p));
                                assert(listed(bs, p));
                                let k = choose|k: int| 0 <= k < bs.len() && regex_accepts(p, #[trigger] bs[k]);
                                assert(ks[k] == bs[k]);
                            } else {
                                assert(ks[bs.len() as int] == post[j]);
                            }
                        }
                    }
                },
                None => {
                    assert forall|p: Seq<char>|
                        listed(pattern_sources(kept@), p) == listed(post, p) by {
                        if listed(post, p) {
                            let j = choose|j: int| 0 <= j < post.len() && regex_accepts(p, #[trigger] post[j]);
                            if j < i {
                                assert(pre[j] == post[j]);
                            }
                        }
                        if listed(pre, p) {
                            let k = choose|k: int| 0 <= k < pre.len() && regex_accepts(p, #[trigger] pre[k]);
                            assert(post[k] == pre[k]);
                        }
                    }
                },
            }
            i = i + 1;
        }
        assert(str_seq(patterns@).take(patterns@.len() as int) =~= str_seq(patterns@));
        Blacklist { patterns: kept }
    }

    /// Whether one of the patterns matches `path`.
    pub fn is_blacklisted(&self, path: &str) -> (r: bool)
        requires
            self.wf(),
        ensures
            r == self.excludes(path@),
    {
        let mut i: usize = 0;
        while i < self.patterns.len()
            invariant
                self.wf(),
                i <= self.patterns@.len(),
                forall|j: int| 0 <= j < i ==> !regex_finds(#[trigger] self.sources()[j], path@),
            decreases self.patterns@.len() - i,
        {
            assert(self.sources()[i as int] == self.patterns@[i as int]@);
            if self.patterns[i].is_match(path) {
                assert(regex_accepts(path@, self.sources()[i as int]));
                return true;
            }
            i = i + 1;
        }
        assert forall|j: int| 0 <= j < self.sources().len() implies !regex_accepts(path@, #[trigger] self.sources()[j]) by {}
        false
    }
}

/// The views of a sequence of strings.
pub open spec fn str_seq(v: Seq<String>) -> Seq<Seq<char>> {
    v.map_values(|x: String| x@)
}

/// Whether `path` is blacklisted by one of `blacklist`'s patterns.
pub fn is_blacklisted(path: &str, blacklist: &Blacklist) -> (r: bool)
    requires
        blacklist.wf(),
    ensures
        r == blacklist.excludes(path@),
{
    blacklist.is_blacklisted(path)
}

/// A path is left out of the index when it is gone from disk or blacklisted.
pub fn is_excluded(path: &str, exists_on_disk: bool, blacklist: &Blacklist) -> (r: bool)
    requires
        blacklist.wf(),
    ensures
        r == (!exists_on_disk || blacklist.excludes(path@)),
{
    if !exists_on_disk {
        return true;
    }
    blacklist.is_blacklisted(path)
}

} // verus!
