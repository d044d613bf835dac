//! The file locator. The caller walks each top-level source path on the
//! filesystem and reports what it saw as plain values; `find_files` turns
//! those reports into the sorted, deduplicated list of eligible fortune
//! files, or fails on the first source path whose existence check failed.
use crate::errors::FortuneError;
use crate::text::base_name_spec;
use crate::text::base_start;
use crate::text::lemma_lex_trans;
use crate::text::lemma_lex_trichotomy;
use crate::text::lex_lt;
use crate::text::str_compare;
use crate::text::str_views;
use crate::text::StrCmp;
use vstd::prelude::*;
use vstd::seq_lib::*;
use vstd::string::StrSliceExecFns;

verus! {

/// One filesystem entry seen while recursively walking a source path.
/// Entries that could not be inspected mid-walk are simply absent.
pub struct WalkEntry {
    pub path: String,
    pub is_file: bool,
}

/// What the caller found when it probed one top-level source path:
/// `error` holds the I/O reason when the existence check failed, in which
/// case `entries` is meaningless; otherwise `entries` lists everything the
/// recursive walk reached.
pub struct SourceWalk {
    pub source: String,
    pub error: Option<String>,
    pub entries: Vec<WalkEntry>,
}

/// Whether a base name ends in the extension `dat`: a dot followed by
/// exactly `dat`, with a non-empty stem before the dot. A file named
/// `.dat` has no extension and is not excluded.
pub open spec fn is_dat_name(name: Seq<char>) -> bool {
    &&& name.len() >= 5
    &&& name[name.len() - 4] == '.'
    &&& name[name.len() - 3] == 'd'
    &&& name[name.len() - 2] == 'a'
    &&& name[name.len() - 1] == 't'
}

/// Whether the final component of a path carries the extension `dat`.
pub open spec fn is_dat_path(p: Seq<char>) -> bool {
    is_dat_name(base_name_spec(p))
}

/// Decides `is_dat_path` on a path string.
pub fn has_dat_extension(path: &str) -> (r: bool)
    ensures
        r == is_dat_path(path@),
{
    let n = path.unicode_len();
    let k = base_start(path);
    if n - k < 5 {
        return false;
    }
    proof {
        let base = base_name_spec(path@);
        assert(base.len() == n - k);
        assert(base[base.len() - 4] == path@[n - 4]);
        assert(base[base.len() - 3] == path@[n - 3]);
        assert(base[base.len() - 2] == path@[n - 2]);
        assert(base[base.len() - 1] == path@[n - 1]);
    }
    let c1 = path.get_char(n - 4);
    let c2 = path.get_char(n - 3);
    let c3 = path.get_char(n - 2);
    let c4 = path.get_char(n - 1);
    c1 == '.' && c2 == 'd' && c3 == 'a' && c4 == 't'
}

/// The list is strictly ascending in the code-point order: sorted, and
/// therefore free of duplicates.
pub open spec fn strictly_sorted(s: Seq<String>) -> bool {
    forall|i: int, j: int| 0 <= i < j < s.len() ==> lex_lt(s[i]@, s[j]@)
}

/// Whether some element of `s` reads as `x`.
pub open spec fn contains_str(s: Seq<String>, x: Seq<char>) -> bool {
    exists|k: int| 0 <= k < s.len() && #[trigger] s[k]@ == x
}

/// A strictly sorted list holds no duplicate paths.
pub proof fn lemma_sorted_no_duplicates(s: Seq<String>)
    requires
        strictly_sorted(s),
    ensures
        forall|i: int, j: int| 0 <= i < j < s.len() ==> s[i]@ != s[j]@,
{
    assert forall|i: int, j: int| 0 <= i < j < s.len() implies s[i]@ != s[j]@ by {
        lemma_lex_trichotomy(s[i]@, s[j]@);
    }
}

/// Two strictly sorted lists with the same members are the same list of
/// paths. With `find_files`'s contract this says the locator's result is
/// canonical: it does not depend on the order, or on any duplication, in
/// which the eligible paths were encountered.
pub proof fn lemma_sorted_dedup_canonical(a: Seq<String>, b: Seq<String>)
    requires
        strictly_sorted(a),
        strictly_sorted(b),
        forall|p: Seq<char>| contains_str(a, p) <==> contains_str(b, p),
    ensures
        str_views(a) == str_views(b),
    decreases a.len(),
{
    if a.len() == 0 {
        if b.len() > 0 {
            assert(contains_str(b, b[0]@));
            assert(false);
        }
        assert(str_views(a) =~= str_views(b));
    } else {
        assert(contains_str(a, a[0]@));
        assert(contains_str(b, a[0]@));
        let k = choose|k: int| 0 <= k < b.len() && #[trigger] b[k]@ == a[0]@;
        if k > 0 {
            // b[0] sits below a[0], yet a[0] is the least member of a.
            assert(lex_lt(b[0]@, b[k]@));
            assert(contains_str(b, b[0]@));
            assert(contains_str(a, b[0]@));
            let m = choose|m: int| 0 <= m < a.len() && #[trigger] a[m]@ == b[0]@;
            if m == 0 {
                lemma_lex_trichotomy(a[0]@, b[0]@);
            } else {
                assert(lex_lt(a[0]@, a[m]@));
                lemma_lex_trans(a[0]@, b[0]@, a[0]@);
                lemma_lex_trichotomy(a[0]@, a[0]@);
            }
            assert(false);
        }
        assert(b[0]@ == a[0]@);
        let a1 = a.drop_first();
        let b1 = b.drop_first();
        assert forall|p: Seq<char>| contains_str(a1, p) implies contains_str(b1, p) by {
            lemma_tail_membership(a, b, p);
        }
        assert forall|p: Seq<char>| contains_str(b1, p) implies contains_str(a1, p) by {
            lemma_tail_membership(b, a, p);
        }
        lemma_sorted_dedup_canonical(a1, b1);
        assert(str_views(a1).len() == a1.len());
        assert(str_views(b1).len() == b1.len());
        assert(a.len() == b.len());
        assert(str_views(a) =~= str_views(b)) by {
            assert forall|i: int| 0 <= i < a.len() implies str_views(a)[i] == str_views(b)[i] by {
                assert(str_views(a)[i] == a[i]@);
                assert(str_views(b)[i] == b[i]@);
                if i > 0 {
                    assert(a[i]@ == a1[i - 1]@);
                    assert(b[i]@ == b1[i - 1]@);
                    assert(str_views(a1)[i - 1] == str_views(b1)[i - 1]);
                    assert(str_views(a1)[i - 1] == a1[i - 1]@);
                    assert(str_views(b1)[i - 1] == b1[i - 1]@);
                }
            }
        }
    }
}

/// A member of the tail of one sorted list is a member of the tail of the
/// other, provided the two lists share their members and their head view.
proof fn lemma_tail_membership(a: Seq<String>, b: Seq<String>, p: Seq<char>)
    requires
        strictly_sorted(a),
        strictly_sorted(b),
        forall|q: Seq<char>| contains_str(a, q) <==> contains_str(b, q),
        a.len() > 0,
        b.len() > 0,
        a[0]@ == b[0]@,
        contains_str(a.drop_first(), p),
    ensures
        contains_str(b.drop_first(), p),
{
    let a1 = a.drop_first();
    let k = choose|k: int| 0 <= k < a1.len() && #[trigger] a1[k]@ == p;
    assert(a1[k] == a[k + 1]);
    assert(lex_lt(a[0]@, p));
    assert(contains_str(a, p));
    assert(contains_str(b, p));
    let m = choose|m: int| 0 <= m < b.len() && #[trigger] b[m]@ == p;
    if m == 0 {
        lemma_lex_trichotomy(a[0]@, p);
        assert(false);
    }
    assert(b.drop_first()[m - 1]@ == p);
}

/// Inserting between the members below and the members above keeps the
/// list sorted and adds exactly the new path to its members.
proof fn lemma_insert_at(pre: Seq<String>, i: int, s: String)
    requires
        strictly_sorted(pre),
        0 <= i <= pre.len(),
        forall|j: int| 0 <= j < i ==> lex_lt((#[trigger] pre[j])@, s@),
        i < pre.len() ==> lex_lt(s@, pre[i]@),
    ensures
        strictly_sorted(pre.insert(i, s)),
        forall|x: Seq<char>| #[trigger]
            contains_str(pre.insert(i, s), x) <==> (contains_str(pre, x) || x == s@),
{
    pre.insert_ensures(i, s);
    let now = pre.insert(i, s);
    assert forall|m: int| i < m < now.len() implies #[trigger] now[m] == pre[m - 1] by {
        assert(now[(m - 1) + 1] == pre[m - 1]);
    }
    assert forall|x: int, y: int| 0 <= x < y < now.len() implies lex_lt(now[x]@, now[y]@) by {
        if y < i {
        } else if y == i {
            assert(now[x] == pre[x]);
        } else if x == i {
            assert(now[y] == pre[y - 1]);
            if y - 1 > i {
                lemma_lex_trans(s@, pre[i]@, pre[y - 1]@);
            }
        } else if x < i {
            assert(now[x] == pre[x]);
            assert(now[y] == pre[y - 1]);
            assert(x < y - 1);
        } else {
            assert(now[x] == pre[x - 1]);
            assert(now[y] == pre[y - 1]);
        }
    }
    assert forall|x: Seq<char>| #[trigger]
        contains_str(now, x) <==> (contains_str(pre, x) || x == s@) by {
        if contains_str(now, x) {
            let m = choose|m: int| 0 <= m < now.len() && #[trigger] now[m]@ == x;
            if m < i {
                assert(pre[m]@ == x);
                assert(contains_str(pre, x));
            } else if m == i {
                assert(x == s@);
            } else {
                assert(pre[m - 1]@ == x);
                assert(contains_str(pre, x));
            }
        }
        if contains_str(pre, x) {
            let m = choose|m: int| 0 <= m < pre.len() && #[trigger] pre[m]@ == x;
            if m < i {
                assert(now[m]@ == x);
            } else {
                assert(now[m + 1]@ == x);
            }
            assert(contains_str(now, x));
        }
        if x == s@ {
            assert(now[i]@ == x);
            assert(contains_str(now, x));
        }
    }
}

/// Inserts a path into a strictly sorted list, keeping it sorted and
/// adding nothing when the path is already present.
pub fn insert_sorted(v: &mut Vec<String>, s: String)
    requires
        strictly_sorted(old(v)@),
    ensures
        strictly_sorted(final(v)@),
        forall|x: Seq<char>| #[trigger]
            contains_str(final(v)@, x) <==> (contains_str(old(v)@, x) || x == s@),
{
    let ghost sv = s@;
    let mut i: usize = 0;
    while i < v.len()
        invariant
            sv == s@,
            v@ == old(v)@,
            i <= v@.len(),
            strictly_sorted(v@),
            forall|j: int| 0 <= j < i ==> lex_lt((#[trigger] v@[j])@, sv),
        ensures
            sv == s@,
            v@ == old(v)@,
            i <= v@.len(),
            forall|j: int| 0 <= j < i ==> lex_lt((#[trigger] v@[j])@, sv),
            i < v@.len() ==> lex_lt(sv, v@[i as int]@) || v@[i as int]@ == sv,
        decreases v@.len() - i,
    {
        let vi: &String = &v[i];
        proof {
            assert(*vi == v@[i as int]);
        }
        match str_compare(vi.as_str(), s.as_str()) {
            StrCmp::Less => {
                i = i + 1;
            },
            StrCmp::Equal => {
                break ;
            },
            StrCmp::Greater => {
                break ;
            },
        }
    }
    if i < v.len() {
        let vi: &String = &v[i];
        proof {
            assert(*vi == v@[i as int]);
        }
        match str_compare(vi.as_str(), s.as_str()) {
            StrCmp::Equal => {
                proof {
                    assert(v@[i as int]@ == sv);
                    assert(contains_str(v@, sv));
                }
                return ;
            },
            _ => {},
        }
    }
    proof {
        lemma_insert_at(v@, i as int, s);
    }
    v.insert(i, s);
}

/// Whether entry `j` of walk `w` is an eligible fortune file whose path
/// reads as `p`: a regular file without the excluded `dat` extension.
pub open spec fn eligible_entry(w: SourceWalk, j: int, p: Seq<char>) -> bool {
    &&& 0 <= j < w.entries@.len()
    &&& w.entries@[j].path@ == p
    &&& w.entries@[j].is_file
    &&& !is_dat_path(p)
}

/// Whether some walk saw an eligible file at path `p`.
pub open spec fn eligible(walks: Seq<SourceWalk>, p: Seq<char>) -> bool {
    exists|a: int, b: int|
        0 <= a < walks.len() && #[trigger] eligible_entry(walks[a], b, p)
}

/// `eligible`, restricted to the walks before `i` and to the first `j`
/// entries of walk `i`.
pub open spec fn eligible_upto(walks: Seq<SourceWalk>, i: int, j: int, p: Seq<char>) -> bool {
    exists|a: int, b: int|
        0 <= a <= i && a < walks.len() && (a < i || b < j) && #[trigger] eligible_entry(
            walks[a],
            b,
            p,
        )
}

/// The locator. Fails on the first source path whose existence check
/// failed; otherwise returns every regular file seen by the walks, minus
/// those with the `dat` extension, sorted ascending with duplicates
/// removed.
pub fn find_files(walks: &Vec<SourceWalk>) -> (r: Result<Vec<String>, FortuneError>)
    ensures
        r is Err <==> exists|i: int|
            0 <= i < walks@.len() && (#[trigger] walks@[i].error) is Some,
        r matches Err(e) ==> exists|i: int|
            {
                &&& 0 <= i < walks@.len()
                &&& (#[trigger] walks@[i].error) matches Some(c)
                &&& forall|j: int| 0 <= j < i ==> (#[trigger] walks@[j].error) is None
                &&& e matches FortuneError::PathNotFound { path, cause }
                &&& path@ == walks@[i].source@
                &&& cause@ == c@
            },
        r matches Ok(files) ==> {
            &&& strictly_sorted(files@)
            &&& forall|p: Seq<char>|
                #![trigger contains_str(files@, p)]
                #![trigger eligible(walks@, p)]
                contains_str(files@, p) <==> eligible(walks@, p)
        },
{
    let mut files: Vec<String> = Vec::new();
    let mut i: usize = 0;
    while i < walks.len()
        invariant
            i <= walks@.len(),
            strictly_sorted(files@),
            forall|j: int| 0 <= j < i ==> (#[trigger] walks@[j].error) is None,
            forall|p: Seq<char>|
                #![trigger contains_str(files@, p)]
                contains_str(files@, p) <==> eligible_upto(walks@, i as int, 0, p),
        decreases walks@.len() - i,
    {
        let w = &walks[i];
        match &w.error {
            Some(cause) => {
                return Err(
                    FortuneError::PathNotFound { path: w.source.clone(), cause: cause.clone() },
                );
            },
            None => {},
        }
        let mut j: usize = 0;
        while j < w.entries.len()
            invariant
                i < walks@.len(),
                w == &walks@[i as int],
                j <= w.entries@.len(),
                strictly_sorted(files@),
                forall|p: Seq<char>|
                    #![trigger contains_str(files@, p)]
                    contains_str(files@, p) <==> eligible_upto(walks@, i as int, j as int, p),
            decreases w.entries@.len() - j,
        {
            let e = &w.entries[j];
            let eligible_file = e.is_file && !has_dat_extension(e.path.as_str());
            if eligible_file {
                proof {
                    assert(eligible_entry(walks@[i as int], j as int, e.path@));
                }
                insert_sorted(&mut files, e.path.clone());
            }
            proof {
                let ghost wi = i as int;
                let ghost wj = j as int;
                assert forall|p: Seq<char>| #[trigger]
                    contains_str(files@, p) implies eligible_upto(walks@, wi, wj + 1, p) by {
                    if eligible_file && p == e.path@ {
                        assert(eligible_entry(walks@[wi], wj, p));
                    }
                }
                assert forall|p: Seq<char>|
                    eligible_upto(walks@, wi, wj + 1, p) implies #[trigger] contains_str(
                    files@,
                    p,
                ) by {
                    let (a, b) = choose|a: int, b: int|
                        0 <= a <= wi && a < walks@.len() && (a < wi || b < wj + 1)
                            && #[trigger] eligible_entry(walks@[a], b, p);
                    if a < wi || b < wj {
                        assert(eligible_upto(walks@, wi, wj, p));
                    } else {
                        assert(a == wi && b == wj);
                        assert(p == e.path@);
                        assert(e.is_file && !is_dat_path(p));
                    }
                }
            }
            j = j + 1;
        }
        proof {
            let ghost wi = i as int;
            let ghost wlen = w.entries@.len() as int;
            assert forall|p: Seq<char>|
                eligible_upto(walks@, wi, wlen, p) <==> eligible_upto(
                    walks@,
                    wi + 1,
                    0,
                    p,
                ) by {
                if eligible_upto(walks@, wi, wlen, p) {
                    let (a, b) = choose|a: int, b: int|
                        0 <= a <= wi && a < walks@.len() && (a < wi || b < wlen)
                            && #[trigger] eligible_entry(walks@[a], b, p);
                    assert(eligible_entry(walks@[a], b, p));
                    assert(eligible_upto(walks@, wi + 1, 0, p));
                }
                if eligible_upto(walks@, wi + 1, 0, p) {
                    let (a, b) = choose|a: int, b: int|
                        0 <= a <= wi + 1 && a < walks@.len() && (a < wi + 1 || b < 0)
                            && #[trigger] eligible_entry(walks@[a], b, p);
                    assert(a <= wi);
                    if a == wi {
                        assert(b < w.entries@.len());
                    }
                    assert(eligible_upto(walks@, wi, wlen, p));
                }
            }
        }
        i = i + 1;
    }
    proof {
        assert forall|p: Seq<char>|
            eligible_upto(walks@, walks@.len() as int, 0, p) <==> eligible(walks@, p) by {
            if eligible_upto(walks@, walks@.len() as int, 0, p) {
                let (a, b) = choose|a: int, b: int|
                    0 <= a <= walks@.len() && a < walks@.len() && (a < walks@.len() || b < 0)
                        && #[trigger] eligible_entry(walks@[a], b, p);
                assert(eligible(walks@, p));
            }
            if eligible(walks@, p) {
                let (a, b) = choose|a: int, b: int|
                    0 <= a < walks@.len() && #[trigger] eligible_entry(walks@[a], b, p);
                assert(eligible_upto(walks@, walks@.len() as int, 0, p));
            }
        }
    }
    Ok(files)
}

} // verus!
