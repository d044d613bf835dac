//! Character-level helpers shared by the locator and the parser: the
//! lexicographic order on path strings, base-name extraction, and joining
//! lines with newline separators.
use vstd::prelude::*;
use vstd::string::StrSliceExecFns;

verus! {

/// Strict lexicographic order on character sequences by code point, the order
/// in which discovered paths are returned. A proper prefix sorts before any
/// of its extensions.
pub open spec fn lex_lt(a: Seq<char>, b: Seq<char>) -> bool
    decreases a.len(),
{
    if b.len() == 0 {
        false
    } else if a.len() == 0 {
        true
    } else if a[0] != b[0] {
        (a[0] as u32) < (b[0] as u32)
    } else {
        lex_lt(a.drop_first(), b.drop_first())
    }
}

/// Exactly one of `lex_lt(a, b)`, `lex_lt(b, a)`, `a == b` holds.
pub proof fn lemma_lex_trichotomy(a: Seq<char>, b: Seq<char>)
    ensures
        lex_lt(a, b) || lex_lt(b, a) || a == b,
        lex_lt(a, b) ==> !lex_lt(b, a) && a != b,
        lex_lt(b, a) ==> !lex_lt(a, b) && a != b,
    decreases a.len(),
{
    if a.len() == 0 && b.len() == 0 {
        assert(a =~= b);
    } else if a.len() > 0 && b.len() > 0 && a[0] != b[0] {
        vstd::utf8::char_u32_cast(a[0], a[0] as u32);
        vstd::utf8::char_u32_cast(b[0], b[0] as u32);
    } else if a.len() > 0 && b.len() > 0 && a[0] == b[0] {
        lemma_lex_trichotomy(a.drop_first(), b.drop_first());
        if a.drop_first() == b.drop_first() {
            assert(a.len() == b.len());
            assert forall|j: int| 0 <= j < a.len() implies a[j] == b[j] by {
                if j > 0 {
                    assert(a[j] == a.drop_first()[j - 1]);
                    assert(b[j] == b.drop_first()[j - 1]);
                }
            }
            assert(a =~= b);
        }
    }
}

/// The lexicographic order is transitive.
pub proof fn lemma_lex_trans(a: Seq<char>, b: Seq<char>, c: Seq<char>)
    requires
        lex_lt(a, b),
        lex_lt(b, c),
    ensures
        lex_lt(a, c),
    decreases a.len(),
{
    if a.len() > 0 && b.len() > 0 && c.len() > 0 && a[0] == b[0] && b[0] == c[0] {
        lemma_lex_trans(a.drop_first(), b.drop_first(), c.drop_first());
    }
}

/// If the first `i` characters agree, the order is decided by what follows.
proof fn lemma_lex_common_prefix(a: Seq<char>, b: Seq<char>, i: int)
    requires
        0 <= i <= a.len(),
        i <= b.len(),
        forall|j: int| 0 <= j < i ==> a[j] == b[j],
    ensures
        (i < a.len() && i < b.len() && (a[i] as u32) < (b[i] as u32)) ==> lex_lt(a, b),
        (i == a.len() && i < b.len()) ==> lex_lt(a, b),
        (i == a.len() && i == b.len()) ==> a == b,
    decreases i,
{
    if i == 0 {
        if a.len() == 0 && b.len() == 0 {
            assert(a =~= b);
        }
    } else {
        let a1 = a.drop_first();
        let b1 = b.drop_first();
        assert(forall|j: int| 0 <= j < i - 1 ==> a1[j] == b1[j]);
        lemma_lex_common_prefix(a1, b1, i - 1);
        if i == a.len() && i == b.len() {
            assert(a =~= b);
        }
    }
}

/// The three-way outcome of comparing two strings.
pub enum StrCmp {
    Less,
    Equal,
    Greater,
}

/// Three-way comparison of two strings in the code-point order `lex_lt`.
pub fn str_compare(a: &str, b: &str) -> (r: StrCmp)
    ensures
        r is Less <==> lex_lt(a@, b@),
        r is Greater <==> lex_lt(b@, a@),
        r is Equal <==> a@ == b@,
{
    let alen = a.unicode_len();
    let blen = b.unicode_len();
    let mut i: usize = 0;
    proof {
        lemma_lex_trichotomy(a@, b@);
    }
    while i < alen && i < blen
        invariant
            alen == a@.len(),
            blen == b@.len(),
            i <= alen,
            i <= blen,
            forall|j: int| 0 <= j < i ==> a@[j] == b@[j],
        decreases alen - i,
    {
        let ca = a.get_char(i);
        let cb = b.get_char(i);
        if (ca as u32) < (cb as u32) {
            proof {
                lemma_lex_common_prefix(a@, b@, i as int);
                lemma_lex_trichotomy(a@, b@);
            }
            return StrCmp::Less;
        }
        if (cb as u32) < (ca as u32) {
            proof {
                lemma_lex_common_prefix(b@, a@, i as int);
                lemma_lex_trichotomy(a@, b@);
            }
            return StrCmp::Greater;
        }
        proof {
            assert(ca as u32 == cb as u32);
            vstd::utf8::char_u32_cast(ca, ca as u32);
            vstd::utf8::char_u32_cast(cb, cb as u32);
        }
        i = i + 1;
    }
    proof {
        lemma_lex_common_prefix(a@, b@, i as int);
        lemma_lex_common_prefix(b@, a@, i as int);
        lemma_lex_trichotomy(a@, b@);
    }
    if alen < blen {
        StrCmp::Less
    } else if blen < alen {
        StrCmp::Greater
    } else {
        StrCmp::Equal
    }
}

/// The final path component: everything after the last `/`, the whole string
/// when no `/` occurs, and empty for a path that ends in `/`.
pub open spec fn base_name_spec(p: Seq<char>) -> Seq<char>
    decreases p.len(),
{
    if p.len() == 0 {
        Seq::empty()
    } else if p.last() == '/' {
        Seq::empty()
    } else {
        base_name_spec(p.drop_last()).push(p.last())
    }
}

/// A slash-free suffix that starts at a component boundary is the base name.
proof fn lemma_base_name_suffix(p: Seq<char>, k: int)
    requires
        0 <= k <= p.len(),
        forall|j: int| k <= j < p.len() ==> p[j] != '/',
        k == 0 || p[k - 1] == '/',
    ensures
        base_name_spec(p) == p.subrange(k, p.len() as int),
    decreases p.len(),
{
    if k == p.len() {
        assert(p.subrange(k, p.len() as int) =~= Seq::<char>::empty());
        if p.len() > 0 {
            assert(p.last() == p[k - 1]);
        }
    } else {
        assert(p.last() == p[p.len() - 1]);
        assert(p.last() != '/');
        let q = p.drop_last();
        assert(forall|j: int| k <= j < q.len() ==> q[j] == p[j]);
        lemma_base_name_suffix(q, k);
        assert(p.subrange(k, p.len() as int) =~= q.subrange(k, q.len() as int).push(p.last()));
    }
}

/// Index where the base name of `path` begins: just past the last `/`, or 0.
pub fn base_start(path: &str) -> (k: usize)
    ensures
        k <= path@.len(),
        forall|j: int| k <= j < path@.len() ==> path@[j] != '/',
        k == 0 || path@[k - 1] == '/',
        base_name_spec(path@) == path@.subrange(k as int, path@.len() as int),
{
    let n = path.unicode_len();
    let mut k = n;
    while k > 0
        invariant
            n == path@.len(),
            k <= n,
            forall|j: int| k <= j < n ==> path@[j] != '/',
        ensures
            k <= n,
            forall|j: int| k <= j < n ==> path@[j] != '/',
            k == 0 || path@[k - 1] == '/',
        decreases k,
    {
        if path.get_char(k - 1) == '/' {
            break;
        }
        k = k - 1;
    }
    proof {
        lemma_base_name_suffix(path@, k as int);
    }
    k
}

/// The final path component of `path` as an owned string.
pub fn base_name(path: &str) -> (r: String)
    ensures
        r@ == base_name_spec(path@),
{
    let n = path.unicode_len();
    let k = base_start(path);
    path.substring_char(k, n).to_owned()
}

/// All lines of a record joined with single `\n` separators, as the parser
/// builds a fortune's text out of its accumulated lines.
pub open spec fn join_lines(ls: Seq<Seq<char>>) -> Seq<char>
    decreases ls.len(),
{
    if ls.len() == 0 {
        Seq::empty()
    } else if ls.len() == 1 {
        ls[0]
    } else {
        ls[0] + seq!['\n'] + join_lines(ls.drop_first())
    }
}

/// Appending one line extends the joined text by a separator and that line.
pub proof fn lemma_join_push(ls: Seq<Seq<char>>, x: Seq<char>)
    ensures
        join_lines(ls.push(x)) == if ls.len() == 0 {
            x
        } else {
            join_lines(ls) + seq!['\n'] + x
        },
    decreases ls.len(),
{
    let e = ls.push(x);
    if ls.len() == 0 {
        assert(e[0] == x);
        assert(join_lines(e) == x);
    } else if ls.len() == 1 {
        assert(e.drop_first() =~= ls.drop_first().push(x));
        assert(e.drop_first() =~= seq![x]);
        assert(join_lines(e) == e[0] + seq!['\n'] + join_lines(e.drop_first()));
        assert(join_lines(ls) == ls[0]);
        assert(e[0] == ls[0]);
        assert(join_lines(e.drop_first()) == x);
    } else {
        assert(e.drop_first() =~= ls.drop_first().push(x));
        lemma_join_push(ls.drop_first(), x);
        assert(join_lines(e) == e[0] + seq!['\n'] + join_lines(ls.drop_first().push(x)));
        assert(e[0] == ls[0]);
        assert((ls[0] + seq!['\n'] + (join_lines(ls.drop_first()) + seq!['\n'] + x)) =~= (ls[0]
            + seq!['\n'] + join_lines(ls.drop_first())) + seq!['\n'] + x);
    }
}

/// The views of a sequence of owned strings.
pub open spec fn str_views(s: Seq<String>) -> Seq<Seq<char>> {
    s.map_values(|x: String| x@)
}

} // verus!
