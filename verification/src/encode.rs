//! The canonical text encoding behind the configuration fingerprint,
//! the cache key of a source descriptor, and the persisted lock
//! artifact.  Every length is written in unary (a run of `l` followed
//! by `:`), which keeps the encoding prefix-free and lets decoding be
//! proved to invert encoding exactly; that inversion is what makes the
//! fingerprint injective and the lock artifact round-trippable.

use vstd::prelude::*;
use crate::model::{Config, ConfigV, GitReference, GitReferenceV, Plugin, PluginV, Source, SourceV,
    Template, TemplateV};
use crate::text;

verus! {

/// A length `n`, written as `n` copies of `l` followed by `:`.
pub open spec fn enc_len(n: nat) -> Seq<char>
    decreases n,
{
    if n == 0 {
        seq![':']
    } else {
        seq!['l'] + enc_len((n - 1) as nat)
    }
}

/// A string: its length, then its characters.
pub open spec fn enc_str(s: Seq<char>) -> Seq<char> {
    enc_len(s.len()) + s
}

/// The concatenated encodings of a sequence of strings.
pub open spec fn cat_strs(l: Seq<Seq<char>>) -> Seq<char>
    decreases l.len(),
{
    if l.len() == 0 {
        Seq::empty()
    } else {
        enc_str(l[0]) + cat_strs(l.skip(1))
    }
}

/// A sequence of strings: its length, then the encoded elements.
pub open spec fn enc_strs(l: Seq<Seq<char>>) -> Seq<char> {
    enc_len(l.len()) + cat_strs(l)
}

/// A git reference: a variant tag, then the name for the named variants.
pub open spec fn enc_ref(r: GitReferenceV) -> Seq<char> {
    match r {
        GitReferenceV::DefaultBranch => seq!['d'],
        GitReferenceV::Branch(b) => seq!['b'] + enc_str(b),
        GitReferenceV::Tag(t) => seq!['t'] + enc_str(t),
        GitReferenceV::Revision(v) => seq!['v'] + enc_str(v),
    }
}

/// A source descriptor: a variant tag, then the fields.  This is also
/// the cache key: two descriptors share a cache entry exactly when
/// their encodings are equal.
pub open spec fn enc_source(s: SourceV) -> Seq<char> {
    match s {
        SourceV::Git { url, reference } => seq!['g'] + enc_str(url) + enc_ref(reference),
        SourceV::Remote { url } => seq!['r'] + enc_str(url),
        SourceV::Local { path } => seq!['p'] + enc_str(path),
    }
}

/// A plugin: name, source, patterns, template names, profiles.
pub open spec fn enc_plugin(p: PluginV) -> Seq<char> {
    enc_str(p.name) + enc_source(p.source) + enc_strs(p.use_patterns) + enc_strs(p.templates)
        + enc_strs(p.profiles)
}

/// The concatenated encodings of a sequence of plugins.
pub open spec fn cat_plugins(l: Seq<PluginV>) -> Seq<char>
    decreases l.len(),
{
    if l.len() == 0 {
        Seq::empty()
    } else {
        enc_plugin(l[0]) + cat_plugins(l.skip(1))
    }
}

/// A template definition: its name, then its body.
pub open spec fn enc_template(t: TemplateV) -> Seq<char> {
    enc_str(t.name) + enc_str(t.body)
}

/// The concatenated encodings of a sequence of template definitions.
pub open spec fn cat_templates(l: Seq<TemplateV>) -> Seq<char>
    decreases l.len(),
{
    if l.len() == 0 {
        Seq::empty()
    } else {
        enc_template(l[0]) + cat_templates(l.skip(1))
    }
}

/// A whole configuration.  The fingerprint of a configuration is
/// exactly this encoding, so structurally equal configurations share a
/// fingerprint and any semantic change changes it.
pub open spec fn enc_config(c: ConfigV) -> Seq<char> {
    enc_len(c.plugins.len()) + cat_plugins(c.plugins) + enc_len(c.templates.len())
        + cat_templates(c.templates)
}

/// `e` occurs in `s` at position `i`.
pub open spec fn has_at(s: Seq<char>, i: int, e: Seq<char>) -> bool {
    0 <= i && i + e.len() <= s.len() && s.subrange(i, i + e.len() as int) == e
}

/// Splits an occurrence of a concatenation into occurrences of its parts.
pub proof fn lemma_at_concat(s: Seq<char>, i: int, a: Seq<char>, b: Seq<char>)
    requires
        has_at(s, i, a + b),
    ensures
        has_at(s, i, a),
        has_at(s, i + a.len(), b),
{
    let ab = a + b;
    assert forall|k: int| 0 <= k < a.len() implies s[i + k] == a[k] by {
        assert(s.subrange(i, i + ab.len() as int)[k] == s[i + k]);
        assert(ab[k] == a[k]);
    }
    assert(s.subrange(i, i + a.len() as int) =~= a);
    assert forall|k: int| 0 <= k < b.len() implies s[i + a.len() + k] == b[k] by {
        assert(s.subrange(i, i + ab.len() as int)[a.len() + k] == s[i + a.len() + k]);
        assert(ab[a.len() + k] == b[k]);
    }
    assert(s.subrange(i + a.len(), i + a.len() + b.len() as int) =~= b);
}

/// The unary encoding of `n` takes `n + 1` characters.
pub proof fn lemma_enc_len_len(n: nat)
    ensures
        enc_len(n).len() == n + 1,
    decreases n,
{
    if n > 0 {
        lemma_enc_len_len((n - 1) as nat);
    }
}

/// Decodes a unary length at position `i`.
pub open spec fn dec_len(s: Seq<char>, i: int) -> Option<(nat, int)>
    decreases s.len() - i,
{
    if i < 0 || i >= s.len() {
        None
    } else if s[i] == ':' {
        Some((0 as nat, i + 1))
    } else if s[i] == 'l' {
        match dec_len(s, i + 1) {
            Some((n, j)) => Some(((n + 1) as nat, j)),
            None => None,
        }
    } else {
        None
    }
}

/// A decoded length sits between `i` and the end of the string.
pub proof fn lemma_dec_len_bounds(s: Seq<char>, i: int)
    requires
        dec_len(s, i) is Some,
    ensures
        dec_len(s, i)->Some_0.1 == i + dec_len(s, i)->Some_0.0 + 1,
        i + dec_len(s, i)->Some_0.0 + 1 <= s.len(),
    decreases s.len() - i,
{
    if s[i] != ':' {
        lemma_dec_len_bounds(s, i + 1);
    }
}

/// Decoding inverts `enc_len`.
pub proof fn lemma_dec_len(s: Seq<char>, i: int, n: nat)
    requires
        has_at(s, i, enc_len(n)),
    ensures
        dec_len(s, i) == Some((n, i + enc_len(n).len() as int)),
    decreases n,
{
    lemma_enc_len_len(n);
    if n == 0 {
        assert(s.subrange(i, i + 1)[0] == s[i]);
        assert(s[i] == ':');
    } else {
        lemma_at_concat(s, i, seq!['l'], enc_len((n - 1) as nat));
        assert(s.subrange(i, i + 1)[0] == s[i]);
        assert(s[i] == 'l');
        lemma_enc_len_len((n - 1) as nat);
        lemma_dec_len(s, i + 1, (n - 1) as nat);
    }
}

/// Decodes a string at position `i`.
pub open spec fn dec_str(s: Seq<char>, i: int) -> Option<(Seq<char>, int)> {
    match dec_len(s, i) {
        Some((n, j)) => if j + n <= s.len() {
            Some((s.subrange(j, j + n), j + n))
        } else {
            None
        },
        None => None,
    }
}

/// Decoding inverts `enc_str`.
pub proof fn lemma_dec_str(s: Seq<char>, i: int, v: Seq<char>)
    requires
        has_at(s, i, enc_str(v)),
    ensures
        dec_str(s, i) == Some((v, i + enc_str(v).len() as int)),
{
    lemma_at_concat(s, i, enc_len(v.len()), v);
    lemma_dec_len(s, i, v.len());
    lemma_enc_len_len(v.len());
    let j = i + enc_len(v.len()).len() as int;
    assert(s.subrange(j, j + v.len() as int) == v);
}

/// Decodes `n` consecutive strings starting at position `i`.
pub open spec fn dec_strs_n(s: Seq<char>, i: int, n: nat) -> Option<(Seq<Seq<char>>, int)>
    decreases n,
{
    if n == 0 {
        Some((Seq::empty(), i))
    } else {
        match dec_str(s, i) {
            Some((v, j)) => match dec_strs_n(s, j, (n - 1) as nat) {
                Some((l, k)) => Some((seq![v] + l, k)),
                None => None,
            },
            None => None,
        }
    }
}

/// Decoding inverts `cat_strs`.
pub proof fn lemma_dec_cat_strs(s: Seq<char>, i: int, l: Seq<Seq<char>>)
    requires
        has_at(s, i, cat_strs(l)),
    ensures
        dec_strs_n(s, i, l.len()) == Some((l, i + cat_strs(l).len() as int)),
    decreases l.len(),
{
    if l.len() == 0 {
        assert(dec_strs_n(s, i, 0) == Some((Seq::<Seq<char>>::empty(), i)));
        assert(l =~= Seq::<Seq<char>>::empty());
    } else {
        lemma_at_concat(s, i, enc_str(l[0]), cat_strs(l.skip(1)));
        lemma_dec_str(s, i, l[0]);
        let j = i + enc_str(l[0]).len() as int;
        lemma_dec_cat_strs(s, j, l.skip(1));
        assert(seq![l[0]] + l.skip(1) =~= l);
    }
}

/// Decodes a length-prefixed sequence of strings.
pub open spec fn dec_strs(s: Seq<char>, i: int) -> Option<(Seq<Seq<char>>, int)> {
    match dec_len(s, i) {
        Some((n, j)) => dec_strs_n(s, j, n),
        None => None,
    }
}

/// Decoding inverts `enc_strs`.
pub proof fn lemma_dec_strs(s: Seq<char>, i: int, l: Seq<Seq<char>>)
    requires
        has_at(s, i, enc_strs(l)),
    ensures
        dec_strs(s, i) == Some((l, i + enc_strs(l).len() as int)),
{
    lemma_at_concat(s, i, enc_len(l.len()), cat_strs(l));
    lemma_dec_len(s, i, l.len());
    lemma_dec_cat_strs(s, i + enc_len(l.len()).len() as int, l);
}

/// Decodes a git reference.
pub open spec fn dec_ref(s: Seq<char>, i: int) -> Option<(GitReferenceV, int)> {
    if i < 0 || i >= s.len() {
        None
    } else if s[i] == 'd' {
        Some((GitReferenceV::DefaultBranch, i + 1))
    } else if s[i] == 'b' {
        match dec_str(s, i + 1) {
            Some((v, j)) => Some((GitReferenceV::Branch(v), j)),
            None => None,
        }
    } else if s[i] == 't' {
        match dec_str(s, i + 1) {
            Some((v, j)) => Some((GitReferenceV::Tag(v), j)),
            None => None,
        }
    } else if s[i] == 'v' {
        match dec_str(s, i + 1) {
            Some((v, j)) => Some((GitReferenceV::Revision(v), j)),
            None => None,
        }
    } else {
        None
    }
}

/// Decoding inverts `enc_ref`.
pub proof fn lemma_dec_ref(s: Seq<char>, i: int, r: GitReferenceV)
    requires
        has_at(s, i, enc_ref(r)),
    ensures
        dec_ref(s, i) == Some((r, i + enc_ref(r).len() as int)),
{
    match r {
        GitReferenceV::DefaultBranch => {
            assert(s.subrange(i, i + 1)[0] == s[i]);
        },
        GitReferenceV::Branch(b) => {
            lemma_at_concat(s, i, seq!['b'], enc_str(b));
            assert(s.subrange(i, i + 1)[0] == s[i]);
            lemma_dec_str(s, i + 1, b);
        },
        GitReferenceV::Tag(t) => {
            lemma_at_concat(s, i, seq!['t'], enc_str(t));
            assert(s.subrange(i, i + 1)[0] == s[i]);
            lemma_dec_str(s, i + 1, t);
        },
        GitReferenceV::Revision(v) => {
            lemma_at_concat(s, i, seq!['v'], enc_str(v));
            assert(s.subrange(i, i + 1)[0] == s[i]);
            lemma_dec_str(s, i + 1, v);
        },
    }
}

/// Decodes a source descriptor.
pub open spec fn dec_source(s: Seq<char>, i: int) -> Option<(SourceV, int)> {
    if i < 0 || i >= s.len() {
        None
    } else if s[i] == 'g' {
        match dec_str(s, i + 1) {
            Some((url, j)) => match dec_ref(s, j) {
                Some((r, k)) => Some((SourceV::Git { url, reference: r }, k)),
                None => None,
            },
            None => None,
        }
    } else if s[i] == 'r' {
        match dec_str(s, i + 1) {
            Some((url, j)) => Some((SourceV::Remote { url }, j)),
            None => None,
        }
    } else if s[i] == 'p' {
        match dec_str(s, i + 1) {
            Some((path, j)) => Some((SourceV::Local { path }, j)),
            None => None,
        }
    } else {
        None
    }
}

/// Decoding inverts `enc_source`.
pub proof fn lemma_dec_source(s: Seq<char>, i: int, v: SourceV)
    requires
        has_at(s, i, enc_source(v)),
    ensures
        dec_source(s, i) == Some((v, i + enc_source(v).len() as int)),
{
    match v {
        SourceV::Git { url, reference } => {
            lemma_at_concat(s, i, seq!['g'] + enc_str(url), enc_ref(reference));
            lemma_at_concat(s, i, seq!['g'], enc_str(url));
            assert(s.subrange(i, i + 1)[0] == s[i]);
            lemma_dec_str(s, i + 1, url);
            lemma_dec_ref(s, i + 1 + enc_str(url).len(), reference);
        },
        SourceV::Remote { url } => {
            lemma_at_concat(s, i, seq!['r'], enc_str(url));
            assert(s.subrange(i, i + 1)[0] == s[i]);
            lemma_dec_str(s, i + 1, url);
        },
        SourceV::Local { path } => {
            lemma_at_concat(s, i, seq!['p'], enc_str(path));
            assert(s.subrange(i, i + 1)[0] == s[i]);
            lemma_dec_str(s, i + 1, path);
        },
    }
}

/// Equal cache keys come only from equivalent source descriptors.
pub proof fn lemma_enc_source_injective(a: SourceV, b: SourceV)
    requires
        enc_source(a) == enc_source(b),
    ensures
        a == b,
{
    let s = enc_source(a);
    assert(s.subrange(0, s.len() as int) =~= s);
    lemma_dec_source(s, 0, a);
    lemma_dec_source(s, 0, b);
}

/// Decodes a plugin.
pub open spec fn dec_plugin(s: Seq<char>, i: int) -> Option<(PluginV, int)> {
    match dec_str(s, i) {
        Some((name, j1)) => match dec_source(s, j1) {
            Some((source, j2)) => match dec_strs(s, j2) {
                Some((use_patterns, j3)) => match dec_strs(s, j3) {
                    Some((templates, j4)) => match dec_strs(s, j4) {
                        Some((profiles, j5)) => Some(
                            (PluginV { name, source, use_patterns, templates, profiles }, j5),
                        ),
                        None => None,
                    },
                    None => None,
                },
                None => None,
            },
            None => None,
        },
        None => None,
    }
}

/// Decoding inverts `enc_plugin`.
pub proof fn lemma_dec_plugin(s: Seq<char>, i: int, p: PluginV)
    requires
        has_at(s, i, enc_plugin(p)),
    ensures
        dec_plugin(s, i) == Some((p, i + enc_plugin(p).len() as int)),
{
    let a = enc_str(p.name);
    let b = enc_source(p.source);
    let c = enc_strs(p.use_patterns);
    let d = enc_strs(p.templates);
    let e = enc_strs(p.profiles);
    lemma_at_concat(s, i, a + b + c + d, e);
    lemma_at_concat(s, i, a + b + c, d);
    lemma_at_concat(s, i, a + b, c);
    lemma_at_concat(s, i, a, b);
    lemma_dec_str(s, i, p.name);
    lemma_dec_source(s, i + a.len(), p.source);
    lemma_dec_strs(s, i + a.len() + b.len(), p.use_patterns);
    lemma_dec_strs(s, i + a.len() + b.len() + c.len(), p.templates);
    lemma_dec_strs(s, i + a.len() + b.len() + c.len() + d.len(), p.profiles);
}

/// Decodes `n` consecutive plugins.
pub open spec fn dec_plugins_n(s: Seq<char>, i: int, n: nat) -> Option<(Seq<PluginV>, int)>
    decreases n,
{
    if n == 0 {
        Some((Seq::empty(), i))
    } else {
        match dec_plugin(s, i) {
            Some((p, j)) => match dec_plugins_n(s, j, (n - 1) as nat) {
                Some((l, k)) => Some((seq![p] + l, k)),
                None => None,
            },
            None => None,
        }
    }
}

/// Decoding inverts `cat_plugins`.
pub proof fn lemma_dec_cat_plugins(s: Seq<char>, i: int, l: Seq<PluginV>)
    requires
        has_at(s, i, cat_plugins(l)),
    ensures
        dec_plugins_n(s, i, l.len()) == Some((l, i + cat_plugins(l).len() as int)),
    decreases l.len(),
{
    if l.len() == 0 {
        assert(l =~= Seq::<PluginV>::empty());
    } else {
        lemma_at_concat(s, i, enc_plugin(l[0]), cat_plugins(l.skip(1)));
        lemma_dec_plugin(s, i, l[0]);
        lemma_dec_cat_plugins(s, i + enc_plugin(l[0]).len(), l.skip(1));
        assert(seq![l[0]] + l.skip(1) =~= l);
    }
}

/// Decodes a template definition.
pub open spec fn dec_template(s: Seq<char>, i: int) -> Option<(TemplateV, int)> {
    match dec_str(s, i) {
        Some((name, j)) => match dec_str(s, j) {
            Some((body, k)) => Some((TemplateV { name, body }, k)),
            None => None,
        },
        None => None,
    }
}

/// Decoding inverts `enc_template`.
pub proof fn lemma_dec_template(s: Seq<char>, i: int, t: TemplateV)
    requires
        has_at(s, i, enc_template(t)),
    ensures
        dec_template(s, i) == Some((t, i + enc_template(t).len() as int)),
{
    lemma_at_concat(s, i, enc_str(t.name), enc_str(t.body));
    lemma_dec_str(s, i, t.name);
    lemma_dec_str(s, i + enc_str(t.name).len(), t.body);
}

/// Decodes `n` consecutive template definitions.
pub open spec fn dec_templates_n(s: Seq<char>, i: int, n: nat) -> Option<(Seq<TemplateV>, int)>
    decreases n,
{
    if n == 0 {
        Some((Seq::empty(), i))
    } else {
        match dec_template(s, i) {
            Some((t, j)) => match dec_templates_n(s, j, (n - 1) as nat) {
                Some((l, k)) => Some((seq![t] + l, k)),
                None => None,
            },
            None => None,
        }
    }
}

/// Decoding inverts `cat_templates`.
pub proof fn lemma_dec_cat_templates(s: Seq<char>, i: int, l: Seq<TemplateV>)
    requires
        has_at(s, i, cat_templates(l)),
    ensures
        dec_templates_n(s, i, l.len()) == Some((l, i + cat_templates(l).len() as int)),
    decreases l.len(),
{
    if l.len() == 0 {
        assert(l =~= Seq::<TemplateV>::empty());
    } else {
        lemma_at_concat(s, i, enc_template(l[0]), cat_templates(l.skip(1)));
        lemma_dec_template(s, i, l[0]);
        lemma_dec_cat_templates(s, i + enc_template(l[0]).len(), l.skip(1));
        assert(seq![l[0]] + l.skip(1) =~= l);
    }
}

/// Decodes a whole configuration.
pub open spec fn dec_config(s: Seq<char>, i: int) -> Option<(ConfigV, int)> {
    match dec_len(s, i) {
        Some((n, j)) => match dec_plugins_n(s, j, n) {
            Some((plugins, k)) => match dec_len(s, k) {
                Some((m, j2)) => match dec_templates_n(s, j2, m) {
                    Some((templates, k2)) => Some((ConfigV { plugins, templates }, k2)),
                    None => None,
                },
                None => None,
            },
            None => None,
        },
        None => None,
    }
}

/// Decoding inverts `enc_config`.
pub proof fn lemma_dec_config(s: Seq<char>, i: int, c: ConfigV)
    requires
        has_at(s, i, enc_config(c)),
    ensures
        dec_config(s, i) == Some((c, i + enc_config(c).len() as int)),
{
    let a = enc_len(c.plugins.len());
    let b = cat_plugins(c.plugins);
    let d = enc_len(c.templates.len());
    let e = cat_templates(c.templates);
    lemma_at_concat(s, i, a + b + d, e);
    lemma_at_concat(s, i, a + b, d);
    lemma_at_concat(s, i, a, b);
    lemma_dec_len(s, i, c.plugins.len());
    lemma_dec_cat_plugins(s, i + a.len(), c.plugins);
    lemma_dec_len(s, i + a.len() + b.len(), c.templates.len());
    lemma_dec_cat_templates(s, i + a.len() + b.len() + d.len(), c.templates);
}

/// Appending to a string sequence appends its encoding.
pub proof fn lemma_cat_strs_snoc(l: Seq<Seq<char>>, x: Seq<char>)
    ensures
        cat_strs(l.push(x)) == cat_strs(l) + enc_str(x),
    decreases l.len(),
{
    if l.len() == 0 {
        assert(cat_strs(l.push(x).skip(1)) == Seq::<char>::empty());
        assert(cat_strs(l.push(x)) =~= cat_strs(l) + enc_str(x));
    } else {
        assert(l.push(x).skip(1) =~= l.skip(1).push(x));
        lemma_cat_strs_snoc(l.skip(1), x);
        assert(cat_strs(l.push(x)) =~= cat_strs(l) + enc_str(x));
    }
}

/// Appending to a plugin sequence appends its encoding.
pub proof fn lemma_cat_plugins_snoc(l: Seq<PluginV>, x: PluginV)
    ensures
        cat_plugins(l.push(x)) == cat_plugins(l) + enc_plugin(x),
    decreases l.len(),
{
    if l.len() == 0 {
        assert(cat_plugins(l.push(x).skip(1)) == Seq::<char>::empty());
        assert(cat_plugins(l.push(x)) =~= cat_plugins(l) + enc_plugin(x));
    } else {
        assert(l.push(x).skip(1) =~= l.skip(1).push(x));
        lemma_cat_plugins_snoc(l.skip(1), x);
        assert(cat_plugins(l.push(x)) =~= cat_plugins(l) + enc_plugin(x));
    }
}

/// Appending to a template sequence appends its encoding.
pub proof fn lemma_cat_templates_snoc(l: Seq<TemplateV>, x: TemplateV)
    ensures
        cat_templates(l.push(x)) == cat_templates(l) + enc_template(x),
    decreases l.len(),
{
    if l.len() == 0 {
        assert(cat_templates(l.push(x).skip(1)) == Seq::<char>::empty());
        assert(cat_templates(l.push(x)) =~= cat_templates(l) + enc_template(x));
    } else {
        assert(l.push(x).skip(1) =~= l.skip(1).push(x));
        lemma_cat_templates_snoc(l.skip(1), x);
        assert(cat_templates(l.push(x)) =~= cat_templates(l) + enc_template(x));
    }
}

pub(crate) fn push_enc_len(out: &mut String, n: usize)
    ensures
        final(out)@ == old(out)@ + enc_len(n as nat),
    decreases n,
{
    if n == 0 {
        text::push_char(out, ':');
        proof {
            assert(final(out)@ =~= old(out)@ + enc_len(0));
        }
    } else {
        text::push_char(out, 'l');
        push_enc_len(out, n - 1);
        proof {
            assert(final(out)@ =~= old(out)@ + enc_len(n as nat));
        }
    }
}

pub(crate) fn push_enc_str(out: &mut String, s: &str)
    ensures
        final(out)@ == old(out)@ + enc_str(s@),
{
    let n: usize = s.unicode_len();
    push_enc_len(out, n);
    text::append_str(out, s);
    proof {
        assert(final(out)@ =~= old(out)@ + enc_str(s@));
    }
}

pub(crate) fn push_enc_strs(out: &mut String, l: &Vec<String>)
    ensures
        final(out)@ == old(out)@ + enc_strs(l.deep_view()),
{
    push_enc_len(out, l.len());
    let ghost dv = l.deep_view();
    let mut k: usize = 0;
    proof {
        assert(dv.subrange(0, 0) =~= Seq::<Seq<char>>::empty());
    }
    while k < l.len()
        invariant
            k <= l@.len(),
            dv == l.deep_view(),
            dv.len() == l@.len(),
            out@ == old(out)@ + enc_len(l@.len()) + cat_strs(dv.subrange(0, k as int)),
        decreases l@.len() - k,
    {
        let ghost out0 = out@;
        push_enc_str(out, l[k].as_str());
        proof {
            assert(dv[k as int] == l@[k as int]@);
            assert(dv.subrange(0, k as int).push(dv[k as int]) =~= dv.subrange(0, k as int + 1));
            lemma_cat_strs_snoc(dv.subrange(0, k as int), dv[k as int]);
            assert(out@ =~= old(out)@ + enc_len(l@.len()) + cat_strs(dv.subrange(0, k as int + 1)));
        }
        k = k + 1;
    }
    proof {
        assert(dv.subrange(0, dv.len() as int) =~= dv);
        assert(out@ =~= old(out)@ + enc_strs(dv));
    }
}

fn push_enc_ref(out: &mut String, r: &GitReference)
    ensures
        final(out)@ == old(out)@ + enc_ref(r@),
{
    match r {
        GitReference::DefaultBranch => {
            text::push_char(out, 'd');
            proof {
                assert(final(out)@ =~= old(out)@ + enc_ref(r@));
            }
        },
        GitReference::Branch(b) => {
            text::push_char(out, 'b');
            push_enc_str(out, b.as_str());
            proof {
                assert(final(out)@ =~= old(out)@ + enc_ref(r@));
            }
        },
        GitReference::Tag(t) => {
            text::push_char(out, 't');
            push_enc_str(out, t.as_str());
            proof {
                assert(final(out)@ =~= old(out)@ + enc_ref(r@));
            }
        },
        GitReference::Revision(v) => {
            text::push_char(out, 'v');
            push_enc_str(out, v.as_str());
            proof {
                assert(final(out)@ =~= old(out)@ + enc_ref(r@));
            }
        },
    }
}

fn push_enc_source(out: &mut String, s: &Source)
    ensures
        final(out)@ == old(out)@ + enc_source(s@),
{
    match s {
        Source::Git { url, reference } => {
            text::push_char(out, 'g');
            push_enc_str(out, url.as_str());
            push_enc_ref(out, reference);
            proof {
                assert(final(out)@ =~= old(out)@ + enc_source(s@));
            }
        },
        Source::Remote { url } => {
            text::push_char(out, 'r');
            push_enc_str(out, url.as_str());
            proof {
                assert(final(out)@ =~= old(out)@ + enc_source(s@));
            }
        },
        Source::Local { path } => {
            text::push_char(out, 'p');
            push_enc_str(out, path.as_str());
            proof {
                assert(final(out)@ =~= old(out)@ + enc_source(s@));
            }
        },
    }
}

fn push_enc_plugin(out: &mut String, p: &Plugin)
    ensures
        final(out)@ == old(out)@ + enc_plugin(p@),
{
    push_enc_str(out, p.name.as_str());
    push_enc_source(out, &p.source);
    push_enc_strs(out, &p.use_patterns);
    push_enc_strs(out, &p.templates);
    push_enc_strs(out, &p.profiles);
    proof {
        assert(final(out)@ =~= old(out)@ + enc_plugin(p@));
    }
}

fn push_enc_template(out: &mut String, t: &Template)
    ensures
        final(out)@ == old(out)@ + enc_template(t@),
{
    push_enc_str(out, t.name.as_str());
    push_enc_str(out, t.body.as_str());
    proof {
        assert(final(out)@ =~= old(out)@ + enc_template(t@));
    }
}

/// The cache key of a source descriptor: a deterministic, injective
/// encoding of the descriptor's variant and fields.  Equivalent
/// descriptors yield equal keys, and `lemma_enc_source_injective`
/// shows that distinct descriptors yield distinct keys.
pub fn cache_key(s: &Source) -> (r: String)
    ensures
        r@ == enc_source(s@),
{
    let mut out = String::new();
    push_enc_source(&mut out, s);
    proof {
        assert(out@ =~= enc_source(s@));
    }
    out
}

/// The fingerprint of a configuration: a deterministic, injective
/// encoding of the whole configuration value.
pub fn fingerprint(c: &Config) -> (r: String)
    ensures
        r@ == enc_config(c@),
{
    let mut out = String::new();
    push_enc_len(&mut out, c.plugins.len());
    let ghost pv = c@.plugins;
    let mut k: usize = 0;
    proof {
        assert(pv.subrange(0, 0) =~= Seq::<PluginV>::empty());
    }
    while k < c.plugins.len()
        invariant
            k <= c.plugins@.len(),
            pv == c@.plugins,
            pv.len() == c.plugins@.len(),
            out@ == enc_len(pv.len()) + cat_plugins(pv.subrange(0, k as int)),
        decreases c.plugins@.len() - k,
    {
        push_enc_plugin(&mut out, &c.plugins[k]);
        proof {
            assert(pv[k as int] == c.plugins@[k as int]@);
            assert(pv.subrange(0, k as int).push(pv[k as int]) =~= pv.subrange(0, k as int + 1));
            lemma_cat_plugins_snoc(pv.subrange(0, k as int), pv[k as int]);
            assert(out@ =~= enc_len(pv.len()) + cat_plugins(pv.subrange(0, k as int + 1)));
        }
        k = k + 1;
    }
    proof {
        assert(pv.subrange(0, pv.len() as int) =~= pv);
    }
    let ghost mid = out@;
    push_enc_len(&mut out, c.templates.len());
    let ghost tv = c@.templates;
    let mut t: usize = 0;
    proof {
        assert(tv.subrange(0, 0) =~= Seq::<TemplateV>::empty());
    }
    while t < c.templates.len()
        invariant
            t <= c.templates@.len(),
            tv == c@.templates,
            tv.len() == c.templates@.len(),
            mid == enc_len(c@.plugins.len()) + cat_plugins(c@.plugins),
            out@ == mid + enc_len(tv.len()) + cat_templates(tv.subrange(0, t as int)),
        decreases c.templates@.len() - t,
    {
        push_enc_template(&mut out, &c.templates[t]);
        proof {
            assert(tv[t as int] == c.templates@[t as int]@);
            assert(tv.subrange(0, t as int).push(tv[t as int]) =~= tv.subrange(0, t as int + 1));
            lemma_cat_templates_snoc(tv.subrange(0, t as int), tv[t as int]);
            assert(out@ =~= mid + enc_len(tv.len()) + cat_templates(tv.subrange(0, t as int + 1)));
        }
        t = t + 1;
    }
    proof {
        assert(tv.subrange(0, tv.len() as int) =~= tv);
        assert(out@ =~= enc_config(c@));
    }
    out
}

/// Reads a unary length.
pub(crate) fn dec_len_exec(v: &Vec<char>, i: usize) -> (r: Option<(usize, usize)>)
    requires
        i <= v@.len(),
    ensures
        r is Some <==> dec_len(v@, i as int) is Some,
        r is Some ==> dec_len(v@, i as int) == Some(
            (r->Some_0.0 as nat, r->Some_0.1 as int),
        ),
    decreases v@.len() - i,
{
    if i == v.len() {
        return None;
    }
    let c = v[i];
    if c == ':' {
        Some((0, i + 1))
    } else if c == 'l' {
        match dec_len_exec(v, i + 1) {
            Some((n, j)) => {
                proof {
                    lemma_dec_len_bounds(v@, i as int);
                }
                Some((n + 1, j))
            },
            None => None,
        }
    } else {
        None
    }
}

/// Reads one length-prefixed string.
pub(crate) fn dec_str_exec(v: &Vec<char>, i: usize) -> (r: Option<(String, usize)>)
    requires
        i <= v@.len(),
    ensures
        r is Some <==> dec_str(v@, i as int) is Some,
        r is Some ==> dec_str(v@, i as int) == Some((r->Some_0.0@, r->Some_0.1 as int)),
        r is Some ==> i <= r->Some_0.1 <= v@.len(),
{
    let vlen: usize = v.len();
    match dec_len_exec(v, i) {
        None => None,
        Some((n, j)) => {
            proof {
                lemma_dec_len_bounds(v@, i as int);
            }
            if n > vlen - j {
                return None;
            }
            proof {
                assert(j <= vlen);
                assert(j + n <= vlen);
            }
            let end: usize = j + n;
            let mut w: Vec<char> = Vec::new();
            let mut k: usize = j;
            while k < end
                invariant
                    j <= k <= end,
                    end == j + n,
                    end <= v@.len(),
                    w@ == v@.subrange(j as int, k as int),
                decreases end - k,
            {
                w.push(v[k]);
                proof {
                    assert(w@ =~= v@.subrange(j as int, k as int + 1));
                }
                k = k + 1;
            }
            let s = text::string_of(&w);
            Some((s, j + n))
        },
    }
}

/// Reads `n` consecutive strings.
pub(crate) fn dec_strs_n_exec(v: &Vec<char>, i: usize, n: usize) -> (r: Option<(Vec<String>, usize)>)
    requires
        i <= v@.len(),
    ensures
        r is Some <==> dec_strs_n(v@, i as int, n as nat) is Some,
        r is Some ==> dec_strs_n(v@, i as int, n as nat) == Some(
            (r->Some_0.0.deep_view(), r->Some_0.1 as int),
        ),
        r is Some ==> i <= r->Some_0.1 <= v@.len(),
    decreases n,
{
    if n == 0 {
        let out: Vec<String> = Vec::new();
        proof {
            assert(out.deep_view() =~= Seq::<Seq<char>>::empty());
        }
        Some((out, i))
    } else {
        match dec_str_exec(v, i) {
            None => None,
            Some((s, j)) => match dec_strs_n_exec(v, j, n - 1) {
                None => None,
                Some((mut l, k)) => {
                    let ghost l0 = l.deep_view();
                    l.insert(0, s);
                    proof {
                        assert(l.deep_view() =~= seq![s@] + l0);
                    }
                    Some((l, k))
                },
            },
        }
    }
}

/// Reads a length-prefixed sequence of strings.
pub(crate) fn dec_strs_exec(v: &Vec<char>, i: usize) -> (r: Option<(Vec<String>, usize)>)
    requires
        i <= v@.len(),
    ensures
        r is Some <==> dec_strs(v@, i as int) is Some,
        r is Some ==> dec_strs(v@, i as int) == Some(
            (r->Some_0.0.deep_view(), r->Some_0.1 as int),
        ),
        r is Some ==> i <= r->Some_0.1 <= v@.len(),
{
    match dec_len_exec(v, i) {
        None => None,
        Some((n, j)) => {
            proof {
                lemma_dec_len_bounds(v@, i as int);
            }
            dec_strs_n_exec(v, j, n)
        },
    }
}

/// Equal fingerprints come only from structurally equal configurations.
pub proof fn lemma_enc_config_injective(a: ConfigV, b: ConfigV)
    requires
        enc_config(a) == enc_config(b),
    ensures
        a == b,
{
    let s = enc_config(a);
    assert(s.subrange(0, s.len() as int) =~= s);
    lemma_dec_config(s, 0, a);
    lemma_dec_config(s, 0, b);
}

/// Law: the staleness check is exact.  A stored fingerprint equals the
/// fingerprint recomputed from a live configuration exactly when the
/// configuration is structurally unchanged; any change to a plugin's
/// reference, patterns, templates or to the plugin list changes the
/// fingerprint.
pub proof fn lemma_fingerprint_exact(c0: ConfigV, live: ConfigV)
    ensures
        (enc_config(c0) == enc_config(live)) <==> (c0 == live),
{
    if enc_config(c0) == enc_config(live) {
        lemma_enc_config_injective(c0, live);
    }
}

} // verus!
