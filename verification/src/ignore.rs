//! The ignore matcher: a pure suffix-match predicate over a configured set
//! of byte patterns, plus the parser for the optional ignore-configuration
//! text (one pattern per non-empty, non-comment line).

use vstd::prelude::*;

verus! {

/// The set of path suffix patterns excluded from tree construction.
///
/// Always contains the store's own control directory and the
/// version-control metadata directory; further patterns come from the
/// ignore-configuration text.
pub struct IgnoreList {
    pub patterns: Vec<Vec<u8>>,
}

impl IgnoreList {
    /// The two patterns present in every configuration: the version-control
    /// metadata directory and the store's own control directory.
    pub open spec fn default_patterns() -> Seq<Seq<u8>> {
        seq![spec_git_dir_pattern(), spec_store_dir_pattern()]
    }

    pub open spec fn view_patterns(&self) -> Seq<Seq<u8>> {
        self.patterns@.map_values(|p: Vec<u8>| p@)
    }

    /// The default configuration, used when no configuration text exists.
    pub fn new() -> (r: IgnoreList)
        ensures
            r.view_patterns() == Self::default_patterns(),
    {
        // ".git/" and ".idiot/" as bytes
        let git_dir: Vec<u8> = vec![46, 103, 105, 116, 47];
        let store_dir: Vec<u8> = vec![46, 105, 100, 105, 111, 116, 47];
        proof {
            assert(git_dir@ =~= spec_git_dir_pattern());
            assert(store_dir@ =~= spec_store_dir_pattern());
        }
        let patterns = vec![git_dir, store_dir];
        let r = IgnoreList { patterns };
        proof {
            assert(r.view_patterns() =~= Self::default_patterns());
        }
        r
    }

    /// The configuration read from the ignore file's text: the default
    /// patterns, then one pattern per non-empty, non-comment line of the
    /// text, trimmed, in order.  A missing file is simply `new`.
    #[verifier::loop_isolation(false)]
    pub fn from_config(text: &[u8]) -> (r: IgnoreList)
        ensures
            r.view_patterns() == Self::default_patterns() + spec_config_patterns(text@),
    {
        let mut list = IgnoreList::new();
        let n = text.len();
        let mut pos: usize = 0;
        let ghost mut acc: Seq<Seq<u8>> = Seq::empty();
        proof {
            assert(text@.skip(0) =~= text@);
            assert(acc + spec_config_patterns(text@) =~= spec_config_patterns(text@));
        }
        while pos < n
            invariant
                0 <= pos <= n,
                list.view_patterns() == Self::default_patterns() + acc,
                spec_config_patterns(text@) == acc + spec_config_patterns(text@.skip(pos as int)),
            decreases n - pos,
        {
            let rest = vstd::slice::slice_subrange(text, pos, n);
            proof {
                assert(rest@ =~= text@.skip(pos as int));
            }
            let nl = crate::parse::find_byte(rest, 10);
            let (line_end, next_pos) = match nl {
                Some(i) => {
                    proof {
                        crate::parse::lemma_spec_find(rest@, 10u8);
                    }
                    (pos + i, pos + i + 1)
                },
                None => (n, n),
            };
            let line = vstd::slice::slice_subrange(text, pos, line_end);
            proof {
                match nl {
                    Some(i) => {
                        assert(line@ =~= rest@.take(i as int));
                    },
                    None => {
                        assert(line@ =~= rest@);
                    },
                }
            }
            let (a, b) = trim_bounds(line);
            let keep = b > a && line[a] != 35;
            proof {
                if b > a {
                    assert(spec_trim(line@)[0] == line@[a as int]);
                }
                assert(keep == spec_keep_line(line@));
            }
            let ghost old_acc = acc;
            if keep {
                let pat = vstd::slice::slice_to_vec(vstd::slice::slice_subrange(line, a, b));
                let ghost old_pats = list.view_patterns();
                list.patterns.push(pat);
                proof {
                    assert(list.view_patterns() =~= old_pats.push(spec_trim(line@)));
                    acc = old_acc + seq![spec_trim(line@)];
                    assert(list.view_patterns() =~= Self::default_patterns() + acc);
                }
            }
            pos = next_pos;
            proof {
                match nl {
                    Some(i) => {
                        assert(text@.skip(pos as int) =~= rest@.skip(i + 1));
                        let tail = spec_config_patterns(rest@.skip(i + 1));
                        if keep {
                            assert(spec_config_patterns(rest@) == seq![spec_trim(line@)] + tail);
                            assert(old_acc + (seq![spec_trim(line@)] + tail) =~= acc + tail);
                        } else {
                            assert(spec_config_patterns(rest@) == tail);
                        }
                    },
                    None => {
                        assert(text@.skip(pos as int) =~= Seq::<u8>::empty());
                        if keep {
                            assert(spec_config_patterns(rest@) =~= seq![spec_trim(line@)]);
                            assert(old_acc + seq![spec_trim(line@)] =~= acc + Seq::<
                                Seq<u8>,
                            >::empty());
                        } else {
                            assert(spec_config_patterns(rest@) =~= Seq::<Seq<u8>>::empty());
                            assert(old_acc + Seq::<Seq<u8>>::empty() =~= acc + Seq::<
                                Seq<u8>,
                            >::empty());
                        }
                    },
                }
            }
        }
        proof {
            assert(text@.skip(n as int) =~= Seq::<u8>::empty());
            assert(acc + spec_config_patterns(Seq::<u8>::empty()) =~= acc);
        }
        list
    }
}

/// ASCII whitespace, as the configuration parser trims it.
pub open spec fn spec_is_ws(b: u8) -> bool {
    b == 32 || b == 9 || b == 10 || b == 11 || b == 12 || b == 13
}

/// A line with its leading whitespace dropped.
pub open spec fn spec_trim_front(l: Seq<u8>) -> Seq<u8>
    decreases l.len(),
{
    if l.len() > 0 && spec_is_ws(l[0]) {
        spec_trim_front(l.drop_first())
    } else {
        l
    }
}

/// A line with its trailing whitespace dropped.
pub open spec fn spec_trim_back(l: Seq<u8>) -> Seq<u8>
    decreases l.len(),
{
    if l.len() > 0 && spec_is_ws(l.last()) {
        spec_trim_back(l.drop_last())
    } else {
        l
    }
}

/// A line with whitespace dropped on both ends.
pub open spec fn spec_trim(l: Seq<u8>) -> Seq<u8> {
    spec_trim_back(spec_trim_front(l))
}

/// Whether a configuration line contributes a pattern: non-empty after
/// trimming and not a comment.
pub open spec fn spec_keep_line(l: Seq<u8>) -> bool {
    spec_trim(l).len() > 0 && spec_trim(l)[0] != 35
}

/// The patterns the configuration text contributes: one per non-empty,
/// non-comment line, trimmed, in order.
pub open spec fn spec_config_patterns(t: Seq<u8>) -> Seq<Seq<u8>>
    decreases t.len(),
    via spec_config_patterns_decreases
{
    if t.len() == 0 {
        Seq::empty()
    } else {
        match crate::parse::spec_find(t, 10u8) {
            None => {
                if spec_keep_line(t) {
                    seq![spec_trim(t)]
                } else {
                    Seq::empty()
                }
            },
            Some(i) => {
                let head = t.take(i);
                let rest = spec_config_patterns(t.skip(i + 1));
                if spec_keep_line(head) {
                    seq![spec_trim(head)] + rest
                } else {
                    rest
                }
            },
        }
    }
}

#[via_fn]
proof fn spec_config_patterns_decreases(t: Seq<u8>) {
    crate::parse::lemma_spec_find(t, 10u8);
}

/// Trimming from the front skips exactly the leading whitespace run.
proof fn lemma_trim_front_skip(l: Seq<u8>, i: int)
    requires
        0 <= i <= l.len(),
        forall|j: int| 0 <= j < i ==> spec_is_ws(#[trigger] l[j]),
        i == l.len() || !spec_is_ws(l[i]),
    ensures
        spec_trim_front(l) == l.skip(i),
    decreases i,
{
    if i == 0 {
        assert(l.skip(0) =~= l);
    } else {
        assert(spec_is_ws(l[0]));
        let d = l.drop_first();
        assert(forall|j: int| 0 <= j < i - 1 ==> d[j] == l[j + 1]);
        lemma_trim_front_skip(d, i - 1);
        assert(d.skip(i - 1) =~= l.skip(i));
    }
}

/// Trimming from the back keeps exactly the bytes before the trailing
/// whitespace run.
proof fn lemma_trim_back_take(l: Seq<u8>, i: int)
    requires
        0 <= i <= l.len(),
        forall|j: int| i <= j < l.len() ==> spec_is_ws(#[trigger] l[j]),
        i == 0 || !spec_is_ws(l[i - 1]),
    ensures
        spec_trim_back(l) == l.take(i),
    decreases l.len(),
{
    if i == l.len() {
        if l.len() > 0 && spec_is_ws(l.last()) {
            assert(!spec_is_ws(l[i - 1]));
            assert(false);
        }
        assert(l.take(i) =~= l);
    } else {
        assert(spec_is_ws(l.last()));
        let d = l.drop_last();
        lemma_trim_back_take(d, i);
        assert(d.take(i) =~= l.take(i));
    }
}

/// The trimmed form of a line, as slice bounds into it.
fn trim_bounds(l: &[u8]) -> (r: (usize, usize))
    ensures
        r.0 <= r.1 <= l@.len(),
        l@.subrange(r.0 as int, r.1 as int) == spec_trim(l@),
{
    let n = l.len();
    let mut a: usize = 0;
    while a < n && (l[a] == 32 || l[a] == 9 || l[a] == 10 || l[a] == 11 || l[a] == 12 || l[a]
        == 13)
        invariant
            0 <= a <= n,
            n == l@.len(),
            forall|j: int| 0 <= j < a ==> spec_is_ws(#[trigger] l@[j]),
        decreases n - a,
    {
        a += 1;
    }
    proof {
        lemma_trim_front_skip(l@, a as int);
    }
    if a == n {
        proof {
            assert(spec_trim_front(l@) =~= Seq::<u8>::empty());
            assert(spec_trim(l@) =~= Seq::<u8>::empty());
            assert(l@.subrange(a as int, a as int) =~= Seq::<u8>::empty());
        }
        return (a, a);
    }
    let mut b: usize = n;
    while b > a && (l[b - 1] == 32 || l[b - 1] == 9 || l[b - 1] == 10 || l[b - 1] == 11 || l[b
        - 1] == 12 || l[b - 1] == 13)
        invariant
            a <= b <= n,
            n == l@.len(),
            forall|j: int| b <= j < n ==> spec_is_ws(#[trigger] l@[j]),
        decreases b,
    {
        b -= 1;
    }
    proof {
        let f = spec_trim_front(l@);
        assert(f == l@.skip(a as int));
        assert(b > a);
        assert(!spec_is_ws(l@[b - 1]));
        assert(forall|j: int| 0 <= j < f.len() ==> f[j] == l@[j + a]);
        lemma_trim_back_take(f, b - a);
        assert(f.take(b - a) =~= l@.subrange(a as int, b as int));
    }
    (a, b)
}

/// `".git/"` as bytes.
pub open spec fn spec_git_dir_pattern() -> Seq<u8> {
    seq![46u8, 103u8, 105u8, 116u8, 47u8]
}

/// `".idiot/"` as bytes.
pub open spec fn spec_store_dir_pattern() -> Seq<u8> {
    seq![46u8, 105u8, 100u8, 105u8, 111u8, 116u8, 47u8]
}

/// A path is ignored exactly when it ends with one of the configured
/// patterns (plain suffix match on the path's textual bytes, not glob
/// semantics).
pub open spec fn spec_ignored(path: Seq<u8>, patterns: Seq<Seq<u8>>) -> bool {
    exists|i: int| 0 <= i < patterns.len() && (#[trigger] patterns[i]).is_suffix_of(path)
}

/// Whether `suffix` is a suffix of `path`, decided byte by byte.
fn ends_with(path: &[u8], suffix: &[u8]) -> (r: bool)
    ensures
        r == suffix@.is_suffix_of(path@),
{
    if suffix.len() > path.len() {
        return false;
    }
    let n = path.len();
    let m = suffix.len();
    let offset = n - m;
    let mut i: usize = 0;
    while i < m
        invariant
            0 <= i <= m,
            m == suffix@.len(),
            n == path@.len(),
            m <= n,
            offset == n - m,
            forall|j: int| 0 <= j < i ==> path@[offset + j] == suffix@[j],
        decreases m - i,
    {
        if path[offset + i] != suffix[i] {
            return false;
        }
        i += 1;
    }
    proof {
        assert(path@.subrange(offset as int, path@.len() as int) =~= suffix@);
    }
    true
}

/// Decides whether a path is excluded from tree construction: true exactly
/// when the path ends with one of the configured patterns.
pub fn path_in_ignore(path: &Vec<u8>, ignore: &IgnoreList) -> (r: bool)
    ensures
        r == spec_ignored(path@, ignore.view_patterns()),
{
    let mut i: usize = 0;
    while i < ignore.patterns.len()
        invariant
            0 <= i <= ignore.patterns@.len(),
            forall|j: int| 0 <= j < i
                ==> !(#[trigger] ignore.view_patterns()[j]).is_suffix_of(path@),
        decreases ignore.patterns@.len() - i,
    {
        if ends_with(path.as_slice(), ignore.patterns[i].as_slice()) {
            assert(ignore.view_patterns()[i as int].is_suffix_of(path@));
            return true;
        }
        i += 1;
    }
    false
}

} // verus!
