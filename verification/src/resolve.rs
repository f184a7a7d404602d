//! The resolution engine: planning the deduplicated fetch list,
//! combining fetch results into resolved plugins, selecting files with
//! glob patterns, rendering templates, and collecting per-plugin errors
//! without aborting siblings.

use vstd::prelude::*;
use crate::encode::enc_config;
use crate::glob;
use crate::lock::{ErrorKind, LockError, LockErrorV, LockedConfig, LockedV, ResolvedPlugin,
    ResolvedV, error_views, resolved_views};
use crate::model::{Config, ConfigV, Plugin, PluginV, Source, SourceV, Template, TemplateV};
use crate::template;
use crate::text;

verus! {

/// What the fetcher reports for one distinct source descriptor: the
/// resolved filesystem location together with the files found there,
/// or a failure.  The fetcher (git, download, local validation) runs
/// outside this library; the engine here is verified for every
/// possible outcome value.
pub enum FetchOutcome {
    Fetched { location: String, files: Vec<String> },
    Failed { kind: ErrorKind, detail: String },
}

/// Ghost view of a fetch outcome.
pub ghost enum FetchOutcomeV {
    Fetched { location: Seq<char>, files: Seq<Seq<char>> },
    Failed { kind: ErrorKind, detail: Seq<char> },
}

impl View for FetchOutcome {
    type V = FetchOutcomeV;

    open spec fn view(&self) -> FetchOutcomeV {
        match self {
            FetchOutcome::Fetched { location, files } => FetchOutcomeV::Fetched {
                location: location@,
                files: files.deep_view(),
            },
            FetchOutcome::Failed { kind, detail } => FetchOutcomeV::Failed {
                kind: *kind,
                detail: detail@,
            },
        }
    }
}

/// The views of a sequence of fetch outcomes.
pub open spec fn outcome_views(l: Seq<FetchOutcome>) -> Seq<FetchOutcomeV> {
    Seq::new(l.len(), |i: int| l[i]@)
}

/// The views of a sequence of source descriptors.
pub open spec fn source_views(l: Seq<Source>) -> Seq<SourceV> {
    Seq::new(l.len(), |i: int| l[i]@)
}

/// The views of a sequence of template definitions.
pub open spec fn template_views(l: Seq<Template>) -> Seq<TemplateV> {
    Seq::new(l.len(), |i: int| l[i]@)
}

/// Inserts a path into a sorted, duplicate-free list of paths.
pub open spec fn insert_sorted(x: Seq<char>, l: Seq<Seq<char>>) -> Seq<Seq<char>>
    decreases l.len(),
{
    if l.len() == 0 {
        seq![x]
    } else if x == l[0] {
        l
    } else if text::lex_lt(x, l[0]) {
        seq![x] + l
    } else {
        seq![l[0]] + insert_sorted(x, l.skip(1))
    }
}

/// The deterministic file order: the input paths sorted
/// lexicographically with duplicates removed.
pub open spec fn sort_unique(l: Seq<Seq<char>>) -> Seq<Seq<char>>
    decreases l.len(),
{
    if l.len() == 0 {
        Seq::empty()
    } else {
        insert_sorted(l[0], sort_unique(l.skip(1)))
    }
}

/// Paths in strictly ascending lexicographic order: sorted, with no
/// duplicates.
pub open spec fn strictly_sorted(l: Seq<Seq<char>>) -> bool {
    forall|i: int, j: int| 0 <= i < j < l.len() ==> text::lex_lt(l[i], l[j])
}

/// The lexicographic order never relates a path to itself.
pub proof fn lemma_lex_irrefl(a: Seq<char>)
    ensures
        !text::lex_lt(a, a),
    decreases a.len(),
{
    if a.len() > 0 {
        lemma_lex_irrefl(a.skip(1));
    }
}

/// The lexicographic order is total: distinct paths are ordered one
/// way or the other.
pub proof fn lemma_lex_total(a: Seq<char>, b: Seq<char>)
    requires
        a != b,
    ensures
        text::lex_lt(a, b) || text::lex_lt(b, a),
    decreases a.len(),
{
    if b.len() == 0 {
        if a.len() == 0 {
            assert(a =~= b);
        }
        assert(a.len() > 0);
    } else if a.len() == 0 {
    } else if a[0] == b[0] {
        if a.skip(1) == b.skip(1) {
            assert(a.skip(1).len() == a.len() - 1);
            assert(b.skip(1).len() == b.len() - 1);
            assert(a.len() == b.len());
            assert forall|i: int| 0 <= i < a.len() implies a[i] == b[i] by {
                if i > 0 {
                    assert(a.skip(1)[i - 1] == a[i]);
                    assert(b.skip(1)[i - 1] == b[i]);
                }
            }
            assert(a =~= b);
        }
        lemma_lex_total(a.skip(1), b.skip(1));
        assert(text::lex_lt(a, b) == text::lex_lt(a.skip(1), b.skip(1)));
        assert(text::lex_lt(b, a) == text::lex_lt(b.skip(1), a.skip(1)));
    } else {
        if (a[0] as u32) == (b[0] as u32) {
            vstd::utf8::char_u32_cast(a[0], a[0] as u32);
            vstd::utf8::char_u32_cast(b[0], b[0] as u32);
            assert(a[0] == b[0]);
        }
        if (a[0] as u32) < (b[0] as u32) {
            assert(text::lex_lt(a, b));
        } else {
            assert(text::lex_lt(b, a));
        }
    }
}

/// The lexicographic order is transitive.
pub proof fn lemma_lex_trans(a: Seq<char>, b: Seq<char>, c: Seq<char>)
    requires
        text::lex_lt(a, b),
        text::lex_lt(b, c),
    ensures
        text::lex_lt(a, c),
    decreases a.len(),
{
    if a.len() > 0 {
        let a0 = a[0] as u32;
        let b0 = b[0] as u32;
        let c0 = c[0] as u32;
        assert(a0 <= b0);
        assert(b0 <= c0);
        if a0 == b0 && b0 == c0 {
            lemma_lex_trans(a.skip(1), b.skip(1), c.skip(1));
        } else {
            assert(a0 < c0);
        }
    }
}

/// Insertion keeps exactly the old paths plus the new one.
pub proof fn lemma_insert_sorted_members(x: Seq<char>, l: Seq<Seq<char>>, y: Seq<char>)
    ensures
        insert_sorted(x, l).contains(y) <==> (y == x || l.contains(y)),
    decreases l.len(),
{
    let r = insert_sorted(x, l);
    if l.len() == 0 {
        assert(r[0] == x);
        if r.contains(y) {
            let w = choose|t: int| 0 <= t < r.len() && r[t] == y;
            assert(y == x);
        }
    } else if x == l[0] {
    } else if text::lex_lt(x, l[0]) {
        assert(r[0] == x);
        if r.contains(y) && y != x {
            let w = choose|t: int| 0 <= t < r.len() && r[t] == y;
            assert(l[w - 1] == y);
        }
        if l.contains(y) {
            let w = choose|t: int| 0 <= t < l.len() && l[t] == y;
            assert(r[w + 1] == y);
        }
    } else {
        lemma_insert_sorted_members(x, l.skip(1), y);
        let inner = insert_sorted(x, l.skip(1));
        assert(r[0] == l[0]);
        if r.contains(y) && y != l[0] {
            let w = choose|t: int| 0 <= t < r.len() && r[t] == y;
            assert(inner[w - 1] == y);
        }
        if y == l[0] {
            assert(r[0] == y);
        }
        if inner.contains(y) {
            let w = choose|t: int| 0 <= t < inner.len() && inner[t] == y;
            assert(r[w + 1] == y);
        }
        if l.contains(y) && y != l[0] {
            let w = choose|t: int| 0 <= t < l.len() && l[t] == y;
            assert(l.skip(1)[w - 1] == y);
        }
        if l.skip(1).contains(y) {
            let w = choose|t: int| 0 <= t < l.skip(1).len() && l.skip(1)[t] == y;
            assert(l[w + 1] == y);
        }
    }
}

/// Insertion into a strictly sorted list keeps it strictly sorted.
pub proof fn lemma_insert_sorted_sorted(x: Seq<char>, l: Seq<Seq<char>>)
    requires
        strictly_sorted(l),
    ensures
        strictly_sorted(insert_sorted(x, l)),
    decreases l.len(),
{
    let r = insert_sorted(x, l);
    if l.len() == 0 {
    } else if x == l[0] {
    } else if text::lex_lt(x, l[0]) {
        assert forall|i: int, j: int| 0 <= i < j < r.len() implies text::lex_lt(r[i], r[j]) by {
            if i == 0 {
                assert(r[j] == l[j - 1]);
                if j > 1 {
                    lemma_lex_trans(x, l[0], l[j - 1]);
                }
            } else {
                assert(r[i] == l[i - 1] && r[j] == l[j - 1]);
            }
        }
    } else {
        lemma_lex_total(l[0], x);
        assert(text::lex_lt(l[0], x));
        assert forall|i: int, j: int| 0 <= i < j < l.skip(1).len() implies text::lex_lt(
            l.skip(1)[i],
            l.skip(1)[j],
        ) by {
            assert(l.skip(1)[i] == l[i + 1] && l.skip(1)[j] == l[j + 1]);
        }
        lemma_insert_sorted_sorted(x, l.skip(1));
        let inner = insert_sorted(x, l.skip(1));
        assert forall|i: int, j: int| 0 <= i < j < r.len() implies text::lex_lt(r[i], r[j]) by {
            if i == 0 {
                assert(r[j] == inner[j - 1]);
                assert(inner.contains(inner[j - 1]));
                lemma_insert_sorted_members(x, l.skip(1), inner[j - 1]);
                if inner[j - 1] == x {
                } else {
                    let w = choose|t: int|
                        0 <= t < l.skip(1).len() && l.skip(1)[t] == inner[j - 1];
                    assert(l[w + 1] == inner[j - 1]);
                    assert(text::lex_lt(l[0], l[w + 1]));
                }
            } else {
                assert(r[i] == inner[i - 1] && r[j] == inner[j - 1]);
            }
        }
    }
}

/// Law: the matched-file order is deterministic.  `sort_unique`
/// returns the input paths in strictly ascending lexicographic order,
/// deduplicated, keeping exactly the paths that were present.
pub proof fn lemma_sort_unique_sorted(l: Seq<Seq<char>>)
    ensures
        strictly_sorted(sort_unique(l)),
        forall|y: Seq<char>| sort_unique(l).contains(y) <==> l.contains(y),
        forall|i: int, j: int|
            0 <= i < j < sort_unique(l).len() ==> sort_unique(l)[i] != sort_unique(l)[j],
    decreases l.len(),
{
    assert forall|i: int, j: int|
        0 <= i < j < sort_unique(l).len() && strictly_sorted(sort_unique(l)) implies sort_unique(
        l,
    )[i] != sort_unique(l)[j] by {
        lemma_lex_irrefl(sort_unique(l)[i]);
    }
    if l.len() == 0 {
        assert forall|y: Seq<char>| sort_unique(l).contains(y) <==> l.contains(y) by {
            if l.contains(y) {
                let w = choose|t: int| 0 <= t < l.len() && l[t] == y;
            }
            if sort_unique(l).contains(y) {
                let w = choose|t: int|
                    0 <= t < sort_unique(l).len() && sort_unique(l)[t] == y;
            }
        }
    } else {
        lemma_sort_unique_sorted(l.skip(1));
        lemma_insert_sorted_sorted(l[0], sort_unique(l.skip(1)));
        assert forall|y: Seq<char>| sort_unique(l).contains(y) <==> l.contains(y) by {
            let su = sort_unique(l.skip(1));
            lemma_insert_sorted_members(l[0], su, y);
            assert(sort_unique(l) == insert_sorted(l[0], su));
            assert(su.contains(y) <==> l.skip(1).contains(y));
            if l.contains(y) {
                let w = choose|t: int| 0 <= t < l.len() && l[t] == y;
                if w > 0 {
                    assert(l.skip(1)[w - 1] == y);
                    assert(l.skip(1).contains(y));
                }
                assert(sort_unique(l).contains(y));
            }
            if sort_unique(l).contains(y) {
                if y != l[0] {
                    assert(su.contains(y));
                    assert(l.skip(1).contains(y));
                    let w = choose|t: int| 0 <= t < l.skip(1).len() && l.skip(1)[t] == y;
                    assert(l[w + 1] == y);
                    assert(l.contains(y));
                } else {
                    assert(l[0] == y);
                    assert(l.contains(y));
                }
            }
        }
    }
}

fn insert_sorted_exec(x: String, l: Vec<String>) -> (r: Vec<String>)
    ensures
        r.deep_view() == insert_sorted(x@, l.deep_view()),
    decreases l@.len(),
{
    let ghost lv = l.deep_view();
    if l.len() == 0 {
        let mut r: Vec<String> = Vec::new();
        r.push(x);
        proof {
            assert(r.deep_view() =~= seq![x@]);
        }
        r
    } else if text::str_eq(&x, &l[0]) {
        proof {
            assert(lv[0] == l@[0]@);
        }
        l
    } else if text::str_lt(&x, &l[0]) {
        let mut l2 = l;
        l2.insert(0, x);
        proof {
            assert(l2.deep_view() =~= seq![x@] + lv);
        }
        l2
    } else {
        let mut l2 = l;
        let h = l2.remove(0);
        proof {
            assert(l2.deep_view() =~= lv.skip(1));
            assert(h@ == lv[0]);
        }
        let rest = insert_sorted_exec(x, l2);
        let mut out = rest;
        out.insert(0, h);
        proof {
            assert(out.deep_view() =~= seq![lv[0]] + insert_sorted(x@, lv.skip(1)));
        }
        out
    }
}

/// Sorts the file listing and removes duplicates.
pub fn sort_unique_exec(files: &Vec<String>) -> (r: Vec<String>)
    ensures
        r.deep_view() == sort_unique(files.deep_view()),
{
    let ghost fv = files.deep_view();
    let mut acc: Vec<String> = Vec::new();
    let mut i: usize = files.len();
    proof {
        assert(fv.skip(fv.len() as int) =~= Seq::<Seq<char>>::empty());
        assert(acc.deep_view() =~= Seq::<Seq<char>>::empty());
    }
    while i > 0
        invariant
            i <= files@.len(),
            fv == files.deep_view(),
            fv.len() == files@.len(),
            acc.deep_view() == sort_unique(fv.skip(i as int)),
        decreases i,
    {
        i = i - 1;
        let x = files[i].clone();
        proof {
            assert(fv.skip(i as int)[0] == fv[i as int]);
            assert(fv[i as int] == files@[i as int]@);
            assert(fv.skip(i as int).skip(1) =~= fv.skip(i as int + 1));
        }
        acc = insert_sorted_exec(x, acc);
    }
    proof {
        assert(fv.skip(0) =~= fv);
    }
    acc
}

/// The files selected by a pattern set from a sorted listing: every
/// file when the set is empty, otherwise the files some pattern
/// matches, in listing order.
pub open spec fn matched_spec(pats: Seq<Seq<char>>, files: Seq<Seq<char>>) -> Seq<Seq<char>>
    decreases files.len(),
{
    if files.len() == 0 {
        Seq::empty()
    } else {
        let rest = matched_spec(pats, files.drop_last());
        if pats.len() == 0 || glob::any_matches(pats, files.last()) {
            rest.push(files.last())
        } else {
            rest
        }
    }
}

fn matched_files_exec(patterns: &Vec<String>, files: &Vec<String>) -> (r: Vec<String>)
    ensures
        r.deep_view() == matched_spec(patterns.deep_view(), files.deep_view()),
{
    let ghost pv = patterns.deep_view();
    let ghost fv = files.deep_view();
    let mut out: Vec<String> = Vec::new();
    let mut k: usize = 0;
    proof {
        assert(fv.subrange(0, 0) =~= Seq::<Seq<char>>::empty());
        assert(out.deep_view() =~= Seq::<Seq<char>>::empty());
    }
    while k < files.len()
        invariant
            k <= files@.len(),
            pv == patterns.deep_view(),
            fv == files.deep_view(),
            fv.len() == files@.len(),
            out.deep_view() == matched_spec(pv, fv.subrange(0, k as int)),
        decreases files@.len() - k,
    {
        let keep = if patterns.len() == 0 {
            true
        } else {
            glob::any_match(patterns, files[k].as_str())
        };
        let ghost out0 = out.deep_view();
        if keep {
            out.push(files[k].clone());
        }
        proof {
            assert(fv.subrange(0, k as int + 1).drop_last() =~= fv.subrange(0, k as int));
            assert(fv.subrange(0, k as int + 1).last() == fv[k as int]);
            assert(fv[k as int] == files@[k as int]@);
            if keep {
                assert(out.deep_view() =~= out0.push(fv[k as int]));
            }
        }
        k = k + 1;
    }
    proof {
        assert(fv.subrange(0, fv.len() as int) =~= fv);
    }
    out
}

/// The first template definition with the given name, if any.
pub open spec fn find_template(ts: Seq<TemplateV>, name: Seq<char>) -> Option<TemplateV>
    decreases ts.len(),
{
    if ts.len() == 0 {
        None
    } else if ts[0].name == name {
        Some(ts[0])
    } else {
        find_template(ts.skip(1), name)
    }
}

fn find_template_exec(ts: &Vec<Template>, name: &String) -> (r: Option<usize>)
    ensures
        r is Some ==> r->0 < ts@.len() && find_template(template_views(ts@), name@) == Some(
            ts@[r->0 as int]@,
        ),
        r is None ==> find_template(template_views(ts@), name@) is None,
{
    let ghost tv = template_views(ts@);
    let mut k: usize = 0;
    proof {
        assert(tv.skip(0) =~= tv);
    }
    while k < ts.len()
        invariant
            k <= ts@.len(),
            tv == template_views(ts@),
            tv.len() == ts@.len(),
            find_template(tv, name@) == find_template(tv.skip(k as int), name@),
        decreases ts@.len() - k,
    {
        proof {
            assert(tv.skip(k as int)[0] == tv[k as int]);
            assert(tv[k as int] == ts@[k as int]@);
            assert(tv.skip(k as int).skip(1) =~= tv.skip(k as int + 1));
        }
        if text::str_eq(&ts[k].name, name) {
            return Some(k);
        }
        k = k + 1;
    }
    proof {
        assert(tv.skip(k as int).len() == 0);
    }
    None
}

/// The fragments one template contributes: one per matched file when
/// the body mentions the file placeholder, otherwise one, rendered
/// with an empty file value.
pub open spec fn frags_for(tpl: TemplateV, name: Seq<char>, loc: Seq<char>, files: Seq<Seq<char>>)
    -> Seq<Seq<char>> {
    if template::uses_file(tpl.body) {
        Seq::new(files.len(), |i: int| template::render_spec(tpl.body, name, loc, files[i]))
    } else {
        seq![template::render_spec(tpl.body, name, loc, Seq::empty())]
    }
}

/// The fragments of all of a plugin's templates in order, or the first
/// template name that is not defined.
pub open spec fn frags_all(
    tnames: Seq<Seq<char>>,
    ts: Seq<TemplateV>,
    name: Seq<char>,
    loc: Seq<char>,
    files: Seq<Seq<char>>,
) -> Result<Seq<Seq<char>>, Seq<char>>
    decreases tnames.len(),
{
    if tnames.len() == 0 {
        Ok(Seq::empty())
    } else {
        match frags_all(tnames.drop_last(), ts, name, loc, files) {
            Ok(rest) => match find_template(ts, tnames.last()) {
                Some(tpl) => Ok(rest + frags_for(tpl, name, loc, files)),
                None => Err(tnames.last()),
            },
            Err(e) => Err(e),
        }
    }
}

/// A failure among the first templates decides the whole list.
proof fn lemma_frags_err_prefix(
    tnames: Seq<Seq<char>>,
    ts: Seq<TemplateV>,
    name: Seq<char>,
    loc: Seq<char>,
    files: Seq<Seq<char>>,
    k: int,
)
    requires
        0 <= k <= tnames.len(),
        frags_all(tnames.subrange(0, k), ts, name, loc, files) is Err,
    ensures
        frags_all(tnames, ts, name, loc, files) == frags_all(
            tnames.subrange(0, k),
            ts,
            name,
            loc,
            files,
        ),
    decreases tnames.len(),
{
    if k == tnames.len() {
        assert(tnames.subrange(0, k) =~= tnames);
    } else {
        assert(tnames.drop_last() =~= tnames.subrange(0, tnames.len() - 1));
        assert(tnames.subrange(0, tnames.len() - 1).subrange(0, k) =~= tnames.subrange(0, k));
        lemma_frags_err_prefix(tnames.subrange(0, tnames.len() - 1), ts, name, loc, files, k);
    }
}

/// One plugin's resolution against one fetch outcome: the recorded
/// error on a failed fetch; otherwise the matched files are selected
/// from the sorted listing, an empty selection from a non-empty
/// pattern set is a `NoMatch` error, an undefined template name is a
/// `Template` error naming it, and otherwise the plugin resolves with
/// its rendered fragments.
pub open spec fn resolve_one(p: PluginV, o: FetchOutcomeV, ts: Seq<TemplateV>) -> Result<
    ResolvedV,
    LockErrorV,
> {
    match o {
        FetchOutcomeV::Failed { kind, detail } => Err(
            LockErrorV { plugin: p.name, kind, detail },
        ),
        FetchOutcomeV::Fetched { location, files } => {
            let matched = matched_spec(p.use_patterns, sort_unique(files));
            if p.use_patterns.len() > 0 && matched.len() == 0 {
                Err(
                    LockErrorV {
                        plugin: p.name,
                        kind: ErrorKind::NoMatch,
                        detail: Seq::empty(),
                    },
                )
            } else {
                match frags_all(p.templates, ts, p.name, location, matched) {
                    Ok(frags) => Ok(
                        ResolvedV {
                            name: p.name,
                            location,
                            matched_files: matched,
                            fragments: frags,
                        },
                    ),
                    Err(bad) => Err(
                        LockErrorV { plugin: p.name, kind: ErrorKind::Template, detail: bad },
                    ),
                }
            }
        },
    }
}

/// Resolves one plugin against the fetch outcome of its source.
pub fn resolve_plugin(p: &Plugin, outcome: &FetchOutcome, ts: &Vec<Template>) -> (r: Result<
    ResolvedPlugin,
    LockError,
>)
    ensures
        resolve_one(p@, outcome@, template_views(ts@)) is Ok ==> r is Ok && r->Ok_0@
            == resolve_one(p@, outcome@, template_views(ts@))->Ok_0,
        resolve_one(p@, outcome@, template_views(ts@)) is Err ==> r is Err && r->Err_0@
            == resolve_one(p@, outcome@, template_views(ts@))->Err_0,
{
    let ghost tv = template_views(ts@);
    match outcome {
        FetchOutcome::Failed { kind, detail } => Err(
            LockError { plugin: p.name.clone(), kind: *kind, detail: detail.clone() },
        ),
        FetchOutcome::Fetched { location, files } => {
            let sorted = sort_unique_exec(files);
            let matched = matched_files_exec(&p.use_patterns, &sorted);
            let ghost mv = matched.deep_view();
            if p.use_patterns.len() > 0 && matched.len() == 0 {
                proof {
                    assert(mv =~= Seq::<Seq<char>>::empty());
                }
                return Err(
                    LockError {
                        plugin: p.name.clone(),
                        kind: ErrorKind::NoMatch,
                        detail: String::new(),
                    },
                );
            }
            let mut frags: Vec<String> = Vec::new();
            let mut t: usize = 0;
            let ghost tn = p@.templates;
            proof {
                assert(tn.subrange(0, 0) =~= Seq::<Seq<char>>::empty());
                assert(frags.deep_view() =~= Seq::<Seq<char>>::empty());
            }
            while t < p.templates.len()
                invariant
                    t <= p.templates@.len(),
                    tv == template_views(ts@),
                    mv == matched.deep_view(),
                    tn == p@.templates,
                    tn.len() == p.templates@.len(),
                    (outcome@ == FetchOutcomeV::Fetched {
                        location: location@,
                        files: files.deep_view(),
                    }),
                    mv == matched_spec(p@.use_patterns, sort_unique(files.deep_view())),
                    !(p@.use_patterns.len() > 0 && mv.len() == 0),
                    frags_all(tn.subrange(0, t as int), tv, p@.name, location@, mv) == Ok::<
                        Seq<Seq<char>>,
                        Seq<char>,
                    >(frags.deep_view()),
                decreases p.templates@.len() - t,
            {
                proof {
                    assert(tn.subrange(0, t as int + 1).drop_last() =~= tn.subrange(0, t as int));
                    assert(tn.subrange(0, t as int + 1).last() == tn[t as int]);
                    assert(tn[t as int] == p.templates@[t as int]@);
                }
                match find_template_exec(ts, &p.templates[t]) {
                    None => {
                        proof {
                            assert(frags_all(
                                tn.subrange(0, t as int + 1),
                                tv,
                                p@.name,
                                location@,
                                mv,
                            ) == Err::<Seq<Seq<char>>, Seq<char>>(tn[t as int]));
                            lemma_frags_err_prefix(tn, tv, p@.name, location@, mv, t as int + 1);
                            assert(outcome@ == FetchOutcomeV::Fetched {
                                location: location@,
                                files: files.deep_view(),
                            });
                            assert(mv == matched_spec(
                                p@.use_patterns,
                                sort_unique(files.deep_view()),
                            ));
                            assert(resolve_one(p@, outcome@, tv) == Err::<ResolvedV, LockErrorV>(
                                LockErrorV {
                                    plugin: p@.name,
                                    kind: ErrorKind::Template,
                                    detail: tn[t as int],
                                },
                            ));
                        }
                        return Err(
                            LockError {
                                plugin: p.name.clone(),
                                kind: ErrorKind::Template,
                                detail: p.templates[t].clone(),
                            },
                        );
                    },
                    Some(idx) => {
                        let tpl = &ts[idx];
                        let ghost frags0 = frags.deep_view();
                        let ghost ff = frags_for(tpl@, p@.name, location@, mv);
                        if template::template_uses_file(tpl.body.as_str()) {
                            let mut k: usize = 0;
                            proof {
                                assert(frags.deep_view() =~= frags0 + ff.subrange(0, 0));
                            }
                            while k < matched.len()
                                invariant
                                    k <= matched@.len(),
                                    mv == matched.deep_view(),
                                    mv.len() == matched@.len(),
                                    ff == frags_for(tpl@, p@.name, location@, mv),
                                    ff.len() == mv.len(),
                                    template::uses_file(tpl@.body),
                                    tpl@ == ts@[idx as int]@,
                                    idx < ts@.len(),
                                    frags.deep_view() == frags0 + ff.subrange(0, k as int),
                                decreases matched@.len() - k,
                            {
                                let one = template::render(
                                    tpl.body.as_str(),
                                    p.name.as_str(),
                                    location.as_str(),
                                    matched[k].as_str(),
                                );
                                let ghost before = frags.deep_view();
                                frags.push(one);
                                proof {
                                    assert(mv[k as int] == matched@[k as int]@);
                                    assert(ff[k as int] == template::render_spec(
                                        tpl@.body,
                                        p@.name,
                                        location@,
                                        mv[k as int],
                                    ));
                                    assert(frags.deep_view() =~= before.push(ff[k as int]));
                                    assert(ff.subrange(0, k as int).push(ff[k as int])
                                        =~= ff.subrange(0, k as int + 1));
                                    assert(frags.deep_view() =~= frags0 + ff.subrange(
                                        0,
                                        k as int + 1,
                                    ));
                                }
                                k = k + 1;
                            }
                            proof {
                                assert(ff.subrange(0, ff.len() as int) =~= ff);
                            }
                        } else {
                            let empty = String::new();
                            let one = template::render(
                                tpl.body.as_str(),
                                p.name.as_str(),
                                location.as_str(),
                                empty.as_str(),
                            );
                            let ghost before = frags.deep_view();
                            frags.push(one);
                            proof {
                                assert(frags.deep_view() =~= before.push(
                                    template::render_spec(
                                        tpl@.body,
                                        p@.name,
                                        location@,
                                        Seq::empty(),
                                    ),
                                ));
                                assert(before.push(
                                    template::render_spec(
                                        tpl@.body,
                                        p@.name,
                                        location@,
                                        Seq::empty(),
                                    ),
                                ) =~= before + ff);
                            }
                        }
                        proof {
                            assert(frags.deep_view() =~= frags0 + ff);
                        }
                    },
                }
                t = t + 1;
            }
            proof {
                assert(tn.subrange(0, tn.len() as int) =~= tn);
                assert(outcome@ == FetchOutcomeV::Fetched {
                    location: location@,
                    files: files.deep_view(),
                });
                assert(mv == matched_spec(p@.use_patterns, sort_unique(files.deep_view())));
                assert(frags_all(p@.templates, tv, p@.name, location@, mv) == Ok::<
                    Seq<Seq<char>>,
                    Seq<char>,
                >(frags.deep_view()));
                assert(resolve_one(p@, outcome@, tv) == Ok::<ResolvedV, LockErrorV>(
                    ResolvedV {
                        name: p@.name,
                        location: location@,
                        matched_files: mv,
                        fragments: frags.deep_view(),
                    },
                ));
            }
            Ok(
                ResolvedPlugin {
                    name: p.name.clone(),
                    location: location.clone(),
                    matched_files: matched,
                    fragments: frags,
                },
            )
        },
    }
}

/// The fetch plan: the distinct source descriptors of the plugin
/// list, in first-occurrence order.  One fetch is performed per entry,
/// so plugins with equivalent sources share one fetch.
pub open spec fn plan_of(plugins: Seq<PluginV>) -> Seq<SourceV>
    decreases plugins.len(),
{
    if plugins.len() == 0 {
        Seq::empty()
    } else {
        let prev = plan_of(plugins.drop_last());
        if prev.contains(plugins.last().source) {
            prev
        } else {
            prev.push(plugins.last().source)
        }
    }
}

/// Every plugin's source appears in the fetch plan.
pub proof fn lemma_plan_contains(plugins: Seq<PluginV>, i: int)
    requires
        0 <= i < plugins.len(),
    ensures
        plan_of(plugins).contains(plugins[i].source),
    decreases plugins.len(),
{
    let prev = plan_of(plugins.drop_last());
    if i == plugins.len() - 1 {
        if !prev.contains(plugins.last().source) {
            assert(plan_of(plugins)[prev.len() as int] == plugins[i].source);
        }
    } else {
        lemma_plan_contains(plugins.drop_last(), i);
        assert(plugins.drop_last()[i] == plugins[i]);
        if !prev.contains(plugins.last().source) {
            let w = choose|k: int| 0 <= k < prev.len() && prev[k] == plugins[i].source;
            assert(plan_of(plugins)[w] == plugins[i].source);
        }
    }
}

/// The fetch plan never holds two equivalent sources: equivalent
/// plugin sources trigger exactly one fetch.
pub proof fn lemma_plan_distinct(plugins: Seq<PluginV>, i: int, j: int)
    requires
        0 <= i < j < plan_of(plugins).len(),
    ensures
        plan_of(plugins)[i] != plan_of(plugins)[j],
    decreases plugins.len(),
{
    let prev = plan_of(plugins.drop_last());
    if prev.contains(plugins.last().source) {
        lemma_plan_distinct(plugins.drop_last(), i, j);
    } else if j < prev.len() {
        lemma_plan_distinct(plugins.drop_last(), i, j);
    } else {
        assert(plan_of(plugins)[i] == prev[i]);
        if plan_of(plugins)[i] == plan_of(plugins)[j] {
            assert(prev.contains(plugins.last().source));
        }
    }
}

/// The position of the first source equivalent to `s`.
pub open spec fn first_index(l: Seq<SourceV>, s: SourceV) -> int
    decreases l.len(),
{
    if l.len() == 0 {
        0
    } else if l[0] == s {
        0
    } else {
        1 + first_index(l.skip(1), s)
    }
}

/// `first_index` finds the earliest occurrence.
pub proof fn lemma_first_index(l: Seq<SourceV>, s: SourceV)
    requires
        l.contains(s),
    ensures
        0 <= first_index(l, s) < l.len(),
        l[first_index(l, s)] == s,
        forall|t: int| 0 <= t < first_index(l, s) ==> l[t] != s,
    decreases l.len(),
{
    if l[0] == s {
    } else {
        let w = choose|k: int| 0 <= k < l.len() && l[k] == s;
        assert(l.skip(1)[w - 1] == s);
        assert(l.skip(1).contains(s));
        lemma_first_index(l.skip(1), s);
        let fi = first_index(l.skip(1), s);
        assert(l[1 + fi] == l.skip(1)[fi]);
        assert forall|t: int| 0 <= t < 1 + fi implies l[t] != s by {
            if t > 0 {
                assert(l.skip(1)[t - 1] == l[t]);
            }
        }
    }
}

fn contains_source(v: &Vec<Source>, s: &Source) -> (r: bool)
    ensures
        r == source_views(v@).contains(s@),
{
    let mut k: usize = 0;
    while k < v.len()
        invariant
            k <= v@.len(),
            forall|t: int| 0 <= t < k ==> source_views(v@)[t] != s@,
        decreases v@.len() - k,
    {
        if crate::model::source_eq(&v[k], s) {
            proof {
                assert(source_views(v@)[k as int] == s@);
            }
            return true;
        }
        k = k + 1;
    }
    proof {
        if source_views(v@).contains(s@) {
            let w = choose|t: int|
                0 <= t < source_views(v@).len() && source_views(v@)[t] == s@;
            assert(false);
        }
    }
    false
}

/// Computes the fetch plan of a configuration: the deduplicated
/// sources in first-occurrence order.  The caller performs one fetch
/// per entry and reports one outcome per entry, in this order.
pub fn plan_fetches(config: &Config) -> (r: Vec<Source>)
    ensures
        source_views(r@) == plan_of(config@.plugins),
{
    let ghost plugins = config@.plugins;
    let mut out: Vec<Source> = Vec::new();
    let mut i: usize = 0;
    proof {
        assert(plugins.subrange(0, 0) =~= Seq::<PluginV>::empty());
        assert(source_views(out@) =~= plan_of(plugins.subrange(0, 0)));
    }
    while i < config.plugins.len()
        invariant
            i <= config.plugins@.len(),
            plugins == config@.plugins,
            plugins.len() == config.plugins@.len(),
            source_views(out@) == plan_of(plugins.subrange(0, i as int)),
        decreases config.plugins@.len() - i,
    {
        let p = &config.plugins[i];
        proof {
            assert(p@ == plugins[i as int]);
            assert(plugins.subrange(0, i as int + 1).drop_last() =~= plugins.subrange(
                0,
                i as int,
            ));
            assert(plugins.subrange(0, i as int + 1).last() == plugins[i as int]);
        }
        if !contains_source(&out, &p.source) {
            let ghost out0 = out@;
            out.push(crate::model::clone_source(&p.source));
            proof {
                assert(source_views(out@) =~= source_views(out0).push(p@.source));
            }
        }
        i = i + 1;
    }
    proof {
        assert(plugins.subrange(0, plugins.len() as int) =~= plugins);
    }
    out
}

fn first_source_index(plan: &Vec<Source>, s: &Source) -> (r: usize)
    requires
        source_views(plan@).contains(s@),
    ensures
        r < plan@.len(),
        r as int == first_index(source_views(plan@), s@),
{
    let ghost pv = source_views(plan@);
    let mut k: usize = 0;
    while k < plan.len()
        invariant
            k <= plan@.len(),
            pv == source_views(plan@),
            pv.len() == plan@.len(),
            pv.contains(s@),
            forall|t: int| 0 <= t < k ==> pv[t] != s@,
        decreases plan@.len() - k,
    {
        if crate::model::source_eq(&plan[k], s) {
            proof {
                assert(pv[k as int] == s@);
                lemma_first_index(pv, s@);
                let fi = first_index(pv, s@);
                if fi < k {
                    assert(pv[fi] != s@);
                }
                if fi > k {
                    assert(pv[k as int] != s@);
                }
            }
            return k;
        }
        k = k + 1;
    }
    proof {
        let w = choose|t: int| 0 <= t < pv.len() && pv[t] == s@;
        assert(false);
    }
    0
}

/// The resolution result of one plugin: its source's outcome in the
/// fetch plan, run through `resolve_one`.
pub open spec fn plugin_result(
    p: PluginV,
    plan: Seq<SourceV>,
    outs: Seq<FetchOutcomeV>,
    ts: Seq<TemplateV>,
) -> Result<ResolvedV, LockErrorV> {
    resolve_one(p, outs[first_index(plan, p.source)], ts)
}

/// The resolved plugins of a run, in declaration order.
pub open spec fn res_seq(
    plugins: Seq<PluginV>,
    plan: Seq<SourceV>,
    outs: Seq<FetchOutcomeV>,
    ts: Seq<TemplateV>,
) -> Seq<ResolvedV>
    decreases plugins.len(),
{
    if plugins.len() == 0 {
        Seq::empty()
    } else {
        let rest = res_seq(plugins.drop_last(), plan, outs, ts);
        match plugin_result(plugins.last(), plan, outs, ts) {
            Ok(rp) => rest.push(rp),
            Err(_) => rest,
        }
    }
}

/// The recorded errors of a run, in declaration order.
pub open spec fn err_seq(
    plugins: Seq<PluginV>,
    plan: Seq<SourceV>,
    outs: Seq<FetchOutcomeV>,
    ts: Seq<TemplateV>,
) -> Seq<LockErrorV>
    decreases plugins.len(),
{
    if plugins.len() == 0 {
        Seq::empty()
    } else {
        let rest = err_seq(plugins.drop_last(), plan, outs, ts);
        match plugin_result(plugins.last(), plan, outs, ts) {
            Ok(_) => rest,
            Err(e) => rest.push(e),
        }
    }
}

/// The locked configuration a run produces: the configuration's
/// fingerprint, the resolved plugins and the errors.
pub open spec fn spec_locked(c: ConfigV, outs: Seq<FetchOutcomeV>) -> LockedV {
    LockedV {
        fingerprint: enc_config(c),
        resolved_plugins: res_seq(c.plugins, plan_of(c.plugins), outs, c.templates),
        errors: err_seq(c.plugins, plan_of(c.plugins), outs, c.templates),
    }
}

/// Builds the locked configuration from the fetch outcomes, one per
/// fetch-plan entry.  Every plugin is resolved against its source's
/// outcome; failures are recorded by name and do not disturb other
/// plugins; the resolved plugins keep declaration order.
pub fn locked(config: &Config, outcomes: &Vec<FetchOutcome>) -> (r: LockedConfig)
    requires
        outcomes@.len() == plan_of(config@.plugins).len(),
    ensures
        r@ == spec_locked(config@, outcome_views(outcomes@)),
{
    let plan = plan_fetches(config);
    let ghost planv = plan_of(config@.plugins);
    let ghost outs = outcome_views(outcomes@);
    let ghost plugins = config@.plugins;
    let ghost ctv = config@.templates;
    proof {
        assert(ctv =~= template_views(config.templates@));
    }
    let mut resolved: Vec<ResolvedPlugin> = Vec::new();
    let mut errors: Vec<LockError> = Vec::new();
    let mut i: usize = 0;
    proof {
        assert(plugins.subrange(0, 0) =~= Seq::<PluginV>::empty());
        assert(resolved_views(resolved@) =~= res_seq(plugins.subrange(0, 0), planv, outs, ctv));
        assert(error_views(errors@) =~= err_seq(plugins.subrange(0, 0), planv, outs, ctv));
    }
    while i < config.plugins.len()
        invariant
            i <= config.plugins@.len(),
            plugins == config@.plugins,
            plugins.len() == config.plugins@.len(),
            planv == plan_of(config@.plugins),
            source_views(plan@) == planv,
            plan@.len() == planv.len(),
            outcomes@.len() == planv.len(),
            outs == outcome_views(outcomes@),
            outs.len() == outcomes@.len(),
            ctv == config@.templates,
            ctv == template_views(config.templates@),
            resolved_views(resolved@) == res_seq(plugins.subrange(0, i as int), planv, outs, ctv),
            error_views(errors@) == err_seq(plugins.subrange(0, i as int), planv, outs, ctv),
        decreases config.plugins@.len() - i,
    {
        let p = &config.plugins[i];
        proof {
            assert(p@ == plugins[i as int]);
            lemma_plan_contains(plugins, i as int);
            assert(source_views(plan@).contains(p.source@));
        }
        let k = first_source_index(&plan, &p.source);
        proof {
            assert(outs[k as int] == outcomes@[k as int]@);
            assert(plugins.subrange(0, i as int + 1).drop_last() =~= plugins.subrange(
                0,
                i as int,
            ));
            assert(plugins.subrange(0, i as int + 1).last() == plugins[i as int]);
        }
        match resolve_plugin(p, &outcomes[k], &config.templates) {
            Ok(rp) => {
                let ghost r0 = resolved@;
                resolved.push(rp);
                proof {
                    assert(resolved_views(resolved@) =~= resolved_views(r0).push(rp@));
                }
            },
            Err(e) => {
                let ghost e0 = errors@;
                errors.push(e);
                proof {
                    assert(error_views(errors@) =~= error_views(e0).push(e@));
                }
            },
        }
        i = i + 1;
    }
    proof {
        assert(plugins.subrange(0, plugins.len() as int) =~= plugins);
    }
    let fingerprint = crate::encode::fingerprint(config);
    let r = LockedConfig { fingerprint, resolved_plugins: resolved, errors };
    proof {
        assert(r@ == spec_locked(config@, outs));
    }
    r
}

/// What the fetcher must do for a git source found in a given state.
pub enum GitAction {
    /// The target directory is absent: clone at the requested reference.
    Clone,
    /// The directory exists and the reference is movable (a branch or
    /// the default branch): fetch and check the reference out anew.
    Update,
    /// The directory exists and the reference is pinned (a tag or an
    /// exact revision): leave it untouched, avoiding network work.
    Leave,
}

/// Decides the git update policy for one source: clone when absent,
/// update only movable references, and never touch a pinned checkout
/// that is already present.
pub fn git_plan(directory_exists: bool, reference: &crate::model::GitReference) -> (r: GitAction)
    ensures
        !directory_exists ==> r is Clone,
        directory_exists && (reference is DefaultBranch || reference is Branch) ==> r is Update,
        directory_exists && (reference is Tag || reference is Revision) ==> r is Leave,
{
    if !directory_exists {
        GitAction::Clone
    } else {
        match reference {
            crate::model::GitReference::DefaultBranch => GitAction::Update,
            crate::model::GitReference::Branch(_) => GitAction::Update,
            crate::model::GitReference::Tag(_) => GitAction::Leave,
            crate::model::GitReference::Revision(_) => GitAction::Leave,
        }
    }
}

/// Decides the remote-file policy: presence alone is freshness, so a
/// download happens exactly when the cache entry is absent.
pub fn remote_plan(file_exists: bool) -> (r: bool)
    ensures
        r == !file_exists,
{
    !file_exists
}

/// A resolution error always names the plugin it belongs to.
pub proof fn lemma_resolve_one_err_name(p: PluginV, o: FetchOutcomeV, ts: Seq<TemplateV>)
    requires
        resolve_one(p, o, ts) is Err,
    ensures
        resolve_one(p, o, ts)->Err_0.plugin == p.name,
{
}

/// Law: plugins with equivalent source descriptors draw on one fetch
/// and resolve to the same location.  Their sources share one
/// fetch-plan entry (`lemma_plan_distinct` shows the plan holds no
/// two equivalent entries, so that entry is fetched once), and when
/// both plugins resolve, their resolved locations are equal.
pub proof fn lemma_dedup_shares_location(
    c: ConfigV,
    outs: Seq<FetchOutcomeV>,
    i: int,
    j: int,
)
    requires
        0 <= i < c.plugins.len(),
        0 <= j < c.plugins.len(),
        crate::model::source_equiv(c.plugins[i].source, c.plugins[j].source),
    ensures
        first_index(plan_of(c.plugins), c.plugins[i].source) == first_index(
            plan_of(c.plugins),
            c.plugins[j].source,
        ),
        plugin_result(c.plugins[i], plan_of(c.plugins), outs, c.templates) is Ok
            && plugin_result(c.plugins[j], plan_of(c.plugins), outs, c.templates) is Ok
            ==> plugin_result(c.plugins[i], plan_of(c.plugins), outs, c.templates)->Ok_0.location
            == plugin_result(c.plugins[j], plan_of(c.plugins), outs, c.templates)->Ok_0.location,
{
    let plan = plan_of(c.plugins);
    let o = outs[first_index(plan, c.plugins[i].source)];
    let ri = plugin_result(c.plugins[i], plan, outs, c.templates);
    let rj = plugin_result(c.plugins[j], plan, outs, c.templates);
    if ri is Ok && rj is Ok {
        match o {
            FetchOutcomeV::Fetched { location, files } => {
                assert(ri->Ok_0.location == location);
                assert(rj->Ok_0.location == location);
            },
            FetchOutcomeV::Failed { kind, detail } => {
                assert(ri is Err);
            },
        }
    }
}

/// The names of a sequence of resolved plugins.
pub open spec fn resolved_names(l: Seq<ResolvedV>) -> Seq<Seq<char>> {
    l.map_values(|r: ResolvedV| r.name)
}

/// The names of a sequence of plugins.
pub open spec fn plugin_names(l: Seq<PluginV>) -> Seq<Seq<char>> {
    l.map_values(|p: PluginV| p.name)
}

/// The plugin names a sequence of errors is charged to.
pub open spec fn error_plugins(l: Seq<LockErrorV>) -> Seq<Seq<char>> {
    l.map_values(|e: LockErrorV| e.plugin)
}

/// Whether a plugin's resolution succeeds in the given run.
pub open spec fn result_ok(
    plan: Seq<SourceV>,
    outs: Seq<FetchOutcomeV>,
    ts: Seq<TemplateV>,
) -> spec_fn(PluginV) -> bool {
    |p: PluginV| plugin_result(p, plan, outs, ts) is Ok
}

/// Whether a plugin's resolution fails in the given run.
pub open spec fn result_err(
    plan: Seq<SourceV>,
    outs: Seq<FetchOutcomeV>,
    ts: Seq<TemplateV>,
) -> spec_fn(PluginV) -> bool {
    |p: PluginV| plugin_result(p, plan, outs, ts) is Err
}

/// Law: the resolved plugins keep configuration declaration order:
/// their names are exactly the names of the successfully resolved
/// plugins, filtered from the plugin list in declaration order.
pub proof fn lemma_resolved_order(
    plugins: Seq<PluginV>,
    plan: Seq<SourceV>,
    outs: Seq<FetchOutcomeV>,
    ts: Seq<TemplateV>,
)
    ensures
        resolved_names(res_seq(plugins, plan, outs, ts)) == plugin_names(
            plugins.filter(result_ok(plan, outs, ts)),
        ),
    decreases plugins.len(),
{
    reveal(Seq::filter);
    let pred = result_ok(plan, outs, ts);
    if plugins.len() == 0 {
        assert(resolved_names(res_seq(plugins, plan, outs, ts)) =~= plugin_names(
            plugins.filter(pred),
        ));
    } else {
        let prev = plugins.drop_last();
        lemma_resolved_order(prev, plan, outs, ts);
        let last = plugins.last();
        let rest = res_seq(prev, plan, outs, ts);
        assert(plugins.filter(pred) == if pred(last) {
            prev.filter(pred).push(last)
        } else {
            prev.filter(pred)
        });
        if pred(last) {
            lemma_resolve_one_ok_name(last, outs[first_index(plan, last.source)], ts);
            let rp = plugin_result(last, plan, outs, ts)->Ok_0;
            assert(resolved_names(rest.push(rp)) =~= resolved_names(rest).push(rp.name));
            assert(plugin_names(prev.filter(pred).push(last)) =~= plugin_names(
                prev.filter(pred),
            ).push(last.name));
        }
        assert(resolved_names(res_seq(plugins, plan, outs, ts)) =~= plugin_names(
            plugins.filter(pred),
        ));
    }
}

/// A successful resolution keeps the plugin's name.
pub proof fn lemma_resolve_one_ok_name(p: PluginV, o: FetchOutcomeV, ts: Seq<TemplateV>)
    requires
        resolve_one(p, o, ts) is Ok,
    ensures
        resolve_one(p, o, ts)->Ok_0.name == p.name,
{
}

/// Law: the recorded errors are exactly the failed plugins' errors,
/// named after those plugins, in declaration order.
pub proof fn lemma_errors_named(
    plugins: Seq<PluginV>,
    plan: Seq<SourceV>,
    outs: Seq<FetchOutcomeV>,
    ts: Seq<TemplateV>,
)
    ensures
        error_plugins(err_seq(plugins, plan, outs, ts)) == plugin_names(
            plugins.filter(result_err(plan, outs, ts)),
        ),
    decreases plugins.len(),
{
    reveal(Seq::filter);
    let pred = result_err(plan, outs, ts);
    if plugins.len() == 0 {
        assert(error_plugins(err_seq(plugins, plan, outs, ts)) =~= plugin_names(
            plugins.filter(pred),
        ));
    } else {
        let prev = plugins.drop_last();
        lemma_errors_named(prev, plan, outs, ts);
        let last = plugins.last();
        let rest = err_seq(prev, plan, outs, ts);
        assert(plugins.filter(pred) == if pred(last) {
            prev.filter(pred).push(last)
        } else {
            prev.filter(pred)
        });
        if pred(last) {
            lemma_resolve_one_err_name(last, outs[first_index(plan, last.source)], ts);
            let e = plugin_result(last, plan, outs, ts)->Err_0;
            assert(error_plugins(rest.push(e)) =~= error_plugins(rest).push(e.plugin));
            assert(plugin_names(prev.filter(pred).push(last)) =~= plugin_names(
                prev.filter(pred),
            ).push(last.name));
        }
        assert(error_plugins(err_seq(plugins, plan, outs, ts)) =~= plugin_names(
            plugins.filter(pred),
        ));
    }
}

/// Law: a failing plugin is recorded without disturbing its siblings:
/// its error appears in the error list, and every other plugin that
/// resolves appears in the resolved list.
pub proof fn lemma_failure_isolated(
    plugins: Seq<PluginV>,
    plan: Seq<SourceV>,
    outs: Seq<FetchOutcomeV>,
    ts: Seq<TemplateV>,
    j: int,
)
    requires
        0 <= j < plugins.len(),
    ensures
        plugin_result(plugins[j], plan, outs, ts) is Ok ==> res_seq(
            plugins,
            plan,
            outs,
            ts,
        ).contains(plugin_result(plugins[j], plan, outs, ts)->Ok_0),
        plugin_result(plugins[j], plan, outs, ts) is Err ==> err_seq(
            plugins,
            plan,
            outs,
            ts,
        ).contains(plugin_result(plugins[j], plan, outs, ts)->Err_0),
    decreases plugins.len(),
{
    let rest_r = res_seq(plugins.drop_last(), plan, outs, ts);
    let rest_e = err_seq(plugins.drop_last(), plan, outs, ts);
    if j == plugins.len() - 1 {
        match plugin_result(plugins[j], plan, outs, ts) {
            Ok(rp) => {
                assert(res_seq(plugins, plan, outs, ts)[rest_r.len() as int] == rp);
            },
            Err(e) => {
                assert(err_seq(plugins, plan, outs, ts)[rest_e.len() as int] == e);
            },
        }
    } else {
        lemma_failure_isolated(plugins.drop_last(), plan, outs, ts, j);
        assert(plugins.drop_last()[j] == plugins[j]);
        match plugin_result(plugins[j], plan, outs, ts) {
            Ok(rp) => {
                if rest_r.contains(rp) {
                    let w = choose|t: int| 0 <= t < rest_r.len() && rest_r[t] == rp;
                    assert(res_seq(plugins, plan, outs, ts)[w] == rp);
                }
            },
            Err(e) => {
                if rest_e.contains(e) {
                    let w = choose|t: int| 0 <= t < rest_e.len() && rest_e[t] == e;
                    assert(err_seq(plugins, plan, outs, ts)[w] == e);
                }
            },
        }
    }
}

/// Law: a non-empty pattern set that selects no files is a `NoMatch`
/// error scoped to that plugin alone; `lemma_failure_isolated` places
/// it in the error list without touching the other plugins.
pub proof fn lemma_no_match_error(p: PluginV, o: FetchOutcomeV, ts: Seq<TemplateV>)
    requires
        o is Fetched,
        p.use_patterns.len() > 0,
        matched_spec(p.use_patterns, sort_unique(o->Fetched_files)).len() == 0,
    ensures
        resolve_one(p, o, ts) == Err::<ResolvedV, LockErrorV>(
            LockErrorV { plugin: p.name, kind: ErrorKind::NoMatch, detail: Seq::empty() },
        ),
{
}

/// Law: the staleness check of a produced lock is exact.  For a
/// locked configuration built from `c0`, the fingerprint comparison
/// against a live configuration succeeds exactly when the
/// configuration is structurally unchanged; so `verify` returns true
/// exactly when nothing changed and every resolved location still
/// exists.
pub proof fn lemma_verify_exact(
    c0: ConfigV,
    outs: Seq<FetchOutcomeV>,
    live: ConfigV,
    locations_exist: Seq<bool>,
)
    ensures
        ({
            let fp_matches = spec_locked(c0, outs).fingerprint == enc_config(live);
            let all_exist = forall|i: int|
                0 <= i < locations_exist.len() ==> locations_exist[i];
            (fp_matches && all_exist) <==> (c0 == live && all_exist)
        }),
{
    crate::encode::lemma_fingerprint_exact(c0, live);
}

/// Law: resolution is idempotent.  Resolving an unchanged
/// configuration against a warm cache (the same fetch outcomes)
/// produces an identical locked configuration: a byte-identical
/// script and an unchanged fingerprint.
pub proof fn lemma_idempotent(
    c1: ConfigV,
    c2: ConfigV,
    o1: Seq<FetchOutcomeV>,
    o2: Seq<FetchOutcomeV>,
)
    requires
        c1 == c2,
        o1 == o2,
    ensures
        spec_locked(c1, o1) == spec_locked(c2, o2),
        crate::lock::script_spec(spec_locked(c1, o1)) == crate::lock::script_spec(
            spec_locked(c2, o2),
        ),
        spec_locked(c1, o1).fingerprint == spec_locked(c2, o2).fingerprint,
{
}

} // verus!
