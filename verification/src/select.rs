//! The selector. With a compiled pattern it filters the records and groups
//! the output by source label, emitting a header line only when the label
//! changes between consecutive matches; without one it picks a single record
//! uniformly at random, reproducibly when a seed is given.
use crate::parse::fortune_views;
use crate::parse::Fortune;
use crate::parse::FortuneView;
use rand::seq::SliceRandom;
use rand::SeedableRng;
use vstd::prelude::*;

verus! {

#[verifier::external_type_specification]
#[verifier::external_body]
pub struct ExRegex(regex::Regex);

/// What `regex::Regex::is_match` returns on `text` for a regex compiled from
/// `pattern` with the given case-insensitivity flag: the engine is a pure
/// function of these three values.
pub uninterp spec fn regex_matches(pattern: Seq<char>, insensitive: bool, text: Seq<char>) -> bool;

/// Whether `regex::RegexBuilder::build` accepts `pattern` as a valid regular
/// expression under the given case-insensitivity flag: validity is a pure
/// function of the pattern text and the builder's flags.
pub uninterp spec fn regex_compiles(pattern: Seq<char>, insensitive: bool) -> bool;

/// A compiled regular expression, together with the pattern text and the
/// case-insensitivity flag it was compiled from. The fields are private:
/// only `Pattern::new` builds a value, so the stored regex is always the one
/// compiled from the stored text and flag.
pub struct Pattern {
    re: regex::Regex,
    pat: String,
    insensitive: bool,
}

impl Pattern {
    /// The pattern text this value was compiled from.
    pub closed spec fn pat_view(&self) -> Seq<char> {
        self.pat@
    }

    /// Whether matching ignores case.
    pub closed spec fn case_insensitive(&self) -> bool {
        self.insensitive
    }

    /// Relies on `regex::RegexBuilder` (`new`, `case_insensitive`, `build`)
    /// to compile `pattern`: `build` succeeds exactly when the pattern is a
    /// valid regular expression under the chosen flags, so this returns
    /// `Some` exactly on the patterns `regex_compiles` names.
    #[verifier::external_body]
    pub fn new(pattern: &str, insensitive: bool) -> (r: Option<Pattern>)
        ensures
            r is Some <==> regex_compiles(pattern@, insensitive),
            r matches Some(p) ==> p.pat_view() == pattern@ && p.case_insensitive() == insensitive,
    {
        match regex::RegexBuilder::new(pattern).case_insensitive(insensitive).build() {
            Ok(re) => Some(Pattern { re, pat: pattern.to_string(), insensitive }),
            Err(_) => None,
        }
    }

    /// Relies on `regex::Regex::is_match`: whether the pattern matches
    /// anywhere in `text`, a deterministic function of the pattern text, the
    /// case-insensitivity flag and the haystack.
    #[verifier::external_body]
    pub fn is_match(&self, text: &str) -> (r: bool)
        ensures
            r == regex_matches(self.pat_view(), self.case_insensitive(), text@),
    {
        self.re.is_match(text)
    }
}

/// One line of filter-mode output. Headers are informational (the source
/// label changed); bodies are the matched records themselves, each to be
/// followed by a terminator line when rendered.
#[derive(Debug, PartialEq)]
pub enum FilterItem {
    Header(String),
    Body(String),
}

/// The mathematical shadow of a `FilterItem`.
pub ghost enum FilterItemView {
    Header(Seq<char>),
    Body(Seq<char>),
}

impl View for FilterItem {
    type V = FilterItemView;

    open spec fn view(&self) -> FilterItemView {
        match self {
            FilterItem::Header(s) => FilterItemView::Header(s@),
            FilterItem::Body(s) => FilterItemView::Body(s@),
        }
    }
}

/// The views of a sequence of output lines.
pub open spec fn filter_views(s: Seq<FilterItem>) -> Seq<FilterItemView> {
    s.map_values(|x: FilterItem| x@)
}

/// Filter-mode output for the records in order, given the source label of
/// the previous match: a matching record emits its text, preceded by a
/// header when its source differs from that label (or when it is the first
/// match); a non-matching record emits nothing.
pub open spec fn filter_spec(
    fortunes: Seq<FortuneView>,
    pattern: Seq<char>,
    insensitive: bool,
    prev: Option<Seq<char>>,
) -> Seq<FilterItemView>
    decreases fortunes.len(),
{
    if fortunes.len() == 0 {
        Seq::empty()
    } else {
        let f = fortunes[0];
        let rest = fortunes.drop_first();
        if regex_matches(pattern, insensitive, f.text) {
            if prev == Some(f.source) {
                seq![FilterItemView::Body(f.text)] + filter_spec(rest, pattern, insensitive, prev)
            } else {
                seq![
                    FilterItemView::Header(f.source),
                    FilterItemView::Body(f.text),
                ] + filter_spec(rest, pattern, insensitive, Some(f.source))
            }
        } else {
            filter_spec(rest, pattern, insensitive, prev)
        }
    }
}

/// The texts of the records that match the pattern, in order.
pub open spec fn matched_texts(
    fortunes: Seq<FortuneView>,
    pattern: Seq<char>,
    insensitive: bool,
) -> Seq<Seq<char>>
    decreases fortunes.len(),
{
    if fortunes.len() == 0 {
        Seq::empty()
    } else if regex_matches(pattern, insensitive, fortunes[0].text) {
        seq![fortunes[0].text] + matched_texts(fortunes.drop_first(), pattern, insensitive)
    } else {
        matched_texts(fortunes.drop_first(), pattern, insensitive)
    }
}

/// The body lines of filter-mode output, headers left out.
pub open spec fn bodies_of(items: Seq<FilterItemView>) -> Seq<Seq<char>>
    decreases items.len(),
{
    if items.len() == 0 {
        Seq::empty()
    } else {
        match items[0] {
            FilterItemView::Body(t) => seq![t] + bodies_of(items.drop_first()),
            FilterItemView::Header(_) => bodies_of(items.drop_first()),
        }
    }
}

/// The grouping headers add no text and lose none: the bodies of the
/// filter-mode output are exactly the matching records' texts, in order.
pub proof fn lemma_filter_bodies(
    fortunes: Seq<FortuneView>,
    pattern: Seq<char>,
    insensitive: bool,
    prev: Option<Seq<char>>,
)
    ensures
        bodies_of(filter_spec(fortunes, pattern, insensitive, prev)) == matched_texts(
            fortunes,
            pattern,
            insensitive,
        ),
    decreases fortunes.len(),
{
    if fortunes.len() == 0 {
    } else {
        let f = fortunes[0];
        let rest = fortunes.drop_first();
        if regex_matches(pattern, insensitive, f.text) {
            if prev == Some(f.source) {
                lemma_filter_bodies(rest, pattern, insensitive, prev);
                let tail = filter_spec(rest, pattern, insensitive, prev);
                let w = seq![FilterItemView::Body(f.text)] + tail;
                assert(filter_spec(fortunes, pattern, insensitive, prev) == w);
                assert(w[0] == FilterItemView::Body(f.text));
                assert(w.drop_first() =~= tail);
                assert(bodies_of(w) == seq![f.text] + bodies_of(tail));
                assert(matched_texts(fortunes, pattern, insensitive) == seq![f.text]
                    + matched_texts(rest, pattern, insensitive));
            } else {
                lemma_filter_bodies(rest, pattern, insensitive, Some(f.source));
                let tail = filter_spec(rest, pattern, insensitive, Some(f.source));
                let w1 = seq![FilterItemView::Body(f.text)] + tail;
                let w = seq![
                    FilterItemView::Header(f.source),
                    FilterItemView::Body(f.text),
                ] + tail;
                assert(filter_spec(fortunes, pattern, insensitive, prev) == w);
                assert(w[0] == FilterItemView::Header(f.source));
                assert(w.drop_first() =~= w1);
                assert(w1[0] == FilterItemView::Body(f.text));
                assert(w1.drop_first() =~= tail);
                assert(bodies_of(w1) == seq![f.text] + bodies_of(tail));
                assert(bodies_of(w) == bodies_of(w1));
                assert(matched_texts(fortunes, pattern, insensitive) == seq![f.text]
                    + matched_texts(rest, pattern, insensitive));
            }
        } else {
            lemma_filter_bodies(rest, pattern, insensitive, prev);
        }
    }
}

/// A pattern that matches no record filters to empty output.
pub proof fn lemma_filter_no_match(
    fortunes: Seq<FortuneView>,
    pattern: Seq<char>,
    insensitive: bool,
    prev: Option<Seq<char>>,
)
    requires
        forall|i: int|
            0 <= i < fortunes.len() ==> !regex_matches(
                pattern,
                insensitive,
                (#[trigger] fortunes[i]).text,
            ),
    ensures
        filter_spec(fortunes, pattern, insensitive, prev) == Seq::<FilterItemView>::empty(),
    decreases fortunes.len(),
{
    if fortunes.len() > 0 {
        assert(forall|i: int|
            0 <= i < fortunes.drop_first().len() ==> fortunes.drop_first()[i] == fortunes[i + 1]);
        lemma_filter_no_match(fortunes.drop_first(), pattern, insensitive, prev);
    }
}

/// The view of the previous-source label carried through the filter loop.
pub open spec fn opt_str_view(o: Option<String>) -> Option<Seq<char>> {
    match o {
        Some(s) => Some(s@),
        None => None,
    }
}

/// Filter mode: the output lines for the records that match the pattern,
/// grouped by source label as `filter_spec` says, starting with no previous
/// label.
pub fn filter_fortunes(fortunes: &Vec<Fortune>, pattern: &Pattern) -> (r: Vec<FilterItem>)
    ensures
        filter_views(r@) == filter_spec(
            fortune_views(fortunes@),
            pattern.pat_view(),
            pattern.case_insensitive(),
            None,
        ),
{
    let ghost fv = fortune_views(fortunes@);
    let ghost pv = pattern.pat_view();
    let ghost ci = pattern.case_insensitive();
    let mut out: Vec<FilterItem> = Vec::new();
    let mut prev: Option<String> = None;
    let mut i: usize = 0;
    proof {
        assert(fv.skip(0) =~= fv);
        assert(filter_views(out@) + filter_spec(fv, pv, ci, None) =~= filter_spec(
            fv,
            pv,
            ci,
            None,
        ));
    }
    while i < fortunes.len()
        invariant
            fv == fortune_views(fortunes@),
            fv.len() == fortunes@.len(),
            pv == pattern.pat_view(),
            ci == pattern.case_insensitive(),
            i <= fortunes@.len(),
            filter_spec(fv, pv, ci, None) == filter_views(out@) + filter_spec(
                fv.skip(i as int),
                pv,
                ci,
                opt_str_view(prev),
            ),
        decreases fortunes@.len() - i,
    {
        proof {
            assert(fv.skip(i as int)[0] == fv[i as int]);
            assert(fv.skip(i as int).drop_first() =~= fv.skip(i as int + 1));
        }
        let f: &Fortune = &fortunes[i];
        proof {
            assert(f@ == fv[i as int]);
        }
        if pattern.is_match(f.text.as_str()) {
            let ghost pre = out@;
            let ghost prevv = opt_str_view(prev);
            let same_source = match &prev {
                Some(s) => *s == f.source,
                None => false,
            };
            proof {
                assert(same_source <==> prevv == Some(fv[i as int].source));
            }
            if same_source {
                out.push(FilterItem::Body(f.text.clone()));
                proof {
                    assert(filter_views(out@) =~= filter_views(pre).push(
                        FilterItemView::Body(fv[i as int].text),
                    ));
                    assert(filter_views(pre) + (seq![FilterItemView::Body(fv[i as int].text)]
                        + filter_spec(fv.skip(i as int + 1), pv, ci, prevv)) =~= filter_views(
                        pre,
                    ).push(FilterItemView::Body(fv[i as int].text)) + filter_spec(
                        fv.skip(i as int + 1),
                        pv,
                        ci,
                        prevv,
                    ));
                }
            } else {
                out.push(FilterItem::Header(f.source.clone()));
                out.push(FilterItem::Body(f.text.clone()));
                prev = Some(f.source.clone());
                proof {
                    assert(opt_str_view(prev) == Some(fv[i as int].source));
                    assert(filter_views(out@) =~= filter_views(pre).push(
                        FilterItemView::Header(fv[i as int].source),
                    ).push(FilterItemView::Body(fv[i as int].text)));
                    assert(filter_views(pre) + (seq![
                        FilterItemView::Header(fv[i as int].source),
                        FilterItemView::Body(fv[i as int].text),
                    ] + filter_spec(fv.skip(i as int + 1), pv, ci, Some(fv[i as int].source)))
                        =~= filter_views(pre).push(FilterItemView::Header(fv[i as int].source)).push(
                        FilterItemView::Body(fv[i as int].text),
                    ) + filter_spec(fv.skip(i as int + 1), pv, ci, Some(fv[i as int].source)));
                }
            }
        }
        i = i + 1;
    }
    proof {
        assert(fv.skip(fortunes@.len() as int) =~= Seq::<FortuneView>::empty());
        assert(filter_views(out@) + Seq::<FilterItemView>::empty() =~= filter_views(out@));
    }
    out
}

/// The index `rand`'s seeded choice lands on for a list of the given length:
/// a pure function of the seed and the length, which is what makes seeded
/// selection reproducible.
pub uninterp spec fn seeded_pick(seed: u64, len: nat) -> nat;

/// Relies on `rand::rngs::StdRng::seed_from_u64` and
/// `rand::seq::SliceRandom::choose`: the seeded generator is a pure function
/// of its seed, so the chosen index depends only on the seed and the slice
/// length; `choose` returns `None` exactly on an empty slice and otherwise
/// an element of the slice.
#[verifier::external_body]
fn choose_seeded<'a>(fortunes: &'a Vec<Fortune>, seed: u64) -> (r: Option<&'a Fortune>)
    ensures
        r is Some <==> fortunes@.len() > 0,
        r matches Some(f) ==> seeded_pick(seed, fortunes@.len()) < fortunes@.len() && *f
            == fortunes@[seeded_pick(seed, fortunes@.len()) as int],
{
    let mut rng = rand::rngs::StdRng::seed_from_u64(seed);
    fortunes.as_slice().choose(&mut rng)
}

/// Relies on `rand::thread_rng` and `rand::seq::SliceRandom::choose`:
/// `None` exactly on an empty slice, otherwise some element of the slice;
/// nothing more is known of a non-deterministic draw.
#[verifier::external_body]
fn choose_unseeded<'a>(fortunes: &'a Vec<Fortune>) -> (r: Option<&'a Fortune>)
    ensures
        r is Some <==> fortunes@.len() > 0,
        r matches Some(f) ==> exists|i: int| 0 <= i < fortunes@.len() && *f == fortunes@[i],
{
    let mut rng = rand::thread_rng();
    fortunes.as_slice().choose(&mut rng)
}

/// Random-pick mode: one record's text chosen uniformly at random, `None`
/// when there are no records. With a seed, the choice is the fixed function
/// `seeded_pick` of the seed and the record count, hence reproducible.
pub fn pick_fortune(fortunes: &Vec<Fortune>, seed: Option<u64>) -> (r: Option<String>)
    ensures
        r is Some <==> fortunes@.len() > 0,
        seed matches Some(s) ==> fortunes@.len() > 0 ==> (r matches Some(t) && t@ == fortunes@[
            seeded_pick(s, fortunes@.len()) as int
        ].text@),
        (fortunes@.len() > 0 && seed is None) ==> (r matches Some(t) && exists|i: int|
            0 <= i < fortunes@.len() && t@ == (#[trigger] fortunes@[i]).text@),
{
    let picked = match seed {
        Some(s) => choose_seeded(fortunes, s),
        None => choose_unseeded(fortunes),
    };
    match picked {
        Some(f) => Some(f.text.clone()),
        None => None,
    }
}

/// Random-pick with a fixed seed is deterministic: over the same records
/// and the same seed, any two texts that `pick_fortune`'s contract allows
/// are the same text.
pub proof fn lemma_seeded_pick_deterministic(
    fortunes: Seq<FortuneView>,
    seed: u64,
    t1: Seq<char>,
    t2: Seq<char>,
)
    requires
        fortunes.len() > 0,
        t1 == fortunes[seeded_pick(seed, fortunes.len()) as int].text,
        t2 == fortunes[seeded_pick(seed, fortunes.len()) as int].text,
    ensures
        t1 == t2,
{
}

/// Random-pick mode rendered as the final message: the chosen record's
/// text, or the fixed fallback line when no fortunes exist.
pub fn pick_message(fortunes: &Vec<Fortune>, seed: Option<u64>) -> (r: String)
    ensures
        fortunes@.len() == 0 ==> r@ == "No fortunes found"@,
        seed matches Some(s) ==> fortunes@.len() > 0 ==> r@ == fortunes@[
            seeded_pick(s, fortunes@.len()) as int
        ].text@,
        (fortunes@.len() > 0 && seed is None) ==> exists|i: int|
            0 <= i < fortunes@.len() && r@ == (#[trigger] fortunes@[i]).text@,
{
    match pick_fortune(fortunes, seed) {
        Some(t) => t,
        None => "No fortunes found".to_owned(),
    }
}

} // verus!
