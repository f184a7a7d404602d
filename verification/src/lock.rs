//! The locked configuration: the fingerprinted result of one
//! resolution run, its staleness check, final script assembly, and the
//! persistable lock artifact with its verified codec.

use vstd::prelude::*;
use crate::encode;
use crate::encode::{dec_len, dec_str, dec_strs, enc_config, enc_len, enc_str, enc_strs, has_at,
    lemma_at_concat, lemma_dec_len, lemma_dec_str, lemma_dec_strs};
use crate::model::Config;
use crate::text;

verus! {

/// The kind of a per-plugin resolution or rendering error.
#[derive(Clone, Copy, PartialEq, Eq, Structural)]
pub enum ErrorKind {
    /// A local path does not exist or cannot be read.
    NotFound,
    /// A git clone, fetch or checkout failed, or the reference is bad.
    Git,
    /// A remote download failed.
    Network,
    /// A plugin names a template that is not defined.
    Template,
    /// A non-empty pattern set matched no files.
    NoMatch,
}

/// One recorded per-plugin error: the plugin's name, the kind, and a
/// diagnostic detail (the bad template name, or the fetcher's message).
pub struct LockError {
    pub plugin: String,
    pub kind: ErrorKind,
    pub detail: String,
}

/// One successfully resolved plugin: its name, the resolved filesystem
/// location, the matched files (sorted, deduplicated), and the rendered
/// shell-script fragments in order.
pub struct ResolvedPlugin {
    pub name: String,
    pub location: String,
    pub matched_files: Vec<String>,
    pub fragments: Vec<String>,
}

/// The result of one resolution run: the configuration fingerprint,
/// the resolved plugins in declaration order, and the per-plugin
/// errors in declaration order.
pub struct LockedConfig {
    pub fingerprint: String,
    pub resolved_plugins: Vec<ResolvedPlugin>,
    pub errors: Vec<LockError>,
}

/// Ghost view of a recorded error.
pub ghost struct LockErrorV {
    pub plugin: Seq<char>,
    pub kind: ErrorKind,
    pub detail: Seq<char>,
}

/// Ghost view of a resolved plugin.
pub ghost struct ResolvedV {
    pub name: Seq<char>,
    pub location: Seq<char>,
    pub matched_files: Seq<Seq<char>>,
    pub fragments: Seq<Seq<char>>,
}

/// Ghost view of a locked configuration.
pub ghost struct LockedV {
    pub fingerprint: Seq<char>,
    pub resolved_plugins: Seq<ResolvedV>,
    pub errors: Seq<LockErrorV>,
}

impl View for LockError {
    type V = LockErrorV;

    open spec fn view(&self) -> LockErrorV {
        LockErrorV { plugin: self.plugin@, kind: self.kind, detail: self.detail@ }
    }
}

impl View for ResolvedPlugin {
    type V = ResolvedV;

    open spec fn view(&self) -> ResolvedV {
        ResolvedV {
            name: self.name@,
            location: self.location@,
            matched_files: self.matched_files.deep_view(),
            fragments: self.fragments.deep_view(),
        }
    }
}

/// The views of a sequence of resolved plugins.
pub open spec fn resolved_views(l: Seq<ResolvedPlugin>) -> Seq<ResolvedV> {
    Seq::new(l.len(), |i: int| l[i]@)
}

/// The views of a sequence of recorded errors.
pub open spec fn error_views(l: Seq<LockError>) -> Seq<LockErrorV> {
    Seq::new(l.len(), |i: int| l[i]@)
}

impl View for LockedConfig {
    type V = LockedV;

    open spec fn view(&self) -> LockedV {
        LockedV {
            fingerprint: self.fingerprint@,
            resolved_plugins: resolved_views(self.resolved_plugins@),
            errors: error_views(self.errors@),
        }
    }
}

/// The concatenation of one plugin's fragments, each ended by a newline.
pub open spec fn frag_cat(frags: Seq<Seq<char>>) -> Seq<char>
    decreases frags.len(),
{
    if frags.len() == 0 {
        Seq::empty()
    } else {
        frag_cat(frags.drop_last()) + frags.last() + seq!['\n']
    }
}

/// The final script: every resolved plugin's fragments, in order.
pub open spec fn script_spec(l: LockedV) -> Seq<char>
    decreases l.resolved_plugins.len(),
{
    if l.resolved_plugins.len() == 0 {
        Seq::empty()
    } else {
        script_spec(
            LockedV { resolved_plugins: l.resolved_plugins.drop_last(), ..l },
        ) + frag_cat(l.resolved_plugins.last().fragments)
    }
}

impl LockedConfig {
    /// The staleness check: true exactly when the stored fingerprint
    /// still equals the live configuration's fingerprint and every
    /// resolved location still exists on disk.  `locations_exist[i]`
    /// reports whether `resolved_plugins[i]`'s location exists; the
    /// caller gathers those facts from the filesystem.
    pub fn verify(&self, live_config: &Config, locations_exist: &Vec<bool>) -> (r: bool)
        requires
            locations_exist@.len() == self.resolved_plugins@.len(),
        ensures
            r == (self.fingerprint@ == enc_config(live_config@) && (forall|i: int|
                0 <= i < locations_exist@.len() ==> locations_exist@[i])),
    {
        let live = encode::fingerprint(live_config);
        if !text::str_eq(&self.fingerprint, &live) {
            return false;
        }
        let mut i: usize = 0;
        while i < locations_exist.len()
            invariant
                i <= locations_exist@.len(),
                forall|j: int| 0 <= j < i ==> locations_exist@[j],
            decreases locations_exist@.len() - i,
        {
            if !locations_exist[i] {
                return false;
            }
            i = i + 1;
        }
        true
    }

    /// Assembles the final shell script: every resolved plugin's
    /// fragments in declaration order, one line per fragment.  Pure;
    /// never fails; empty fragment lists contribute nothing.
    pub fn script(&self) -> (r: String)
        ensures
            r@ == script_spec(self@),
    {
        let mut out = String::new();
        let mut i: usize = 0;
        while i < self.resolved_plugins.len()
            invariant
                i <= self.resolved_plugins@.len(),
                out@ == script_spec(
                    LockedV { resolved_plugins: self@.resolved_plugins.subrange(0, i as int), ..self@ },
                ),
            decreases self.resolved_plugins@.len() - i,
        {
            let rp = &self.resolved_plugins[i];
            let mut k: usize = 0;
            while k < rp.fragments.len()
                invariant
                    k <= rp.fragments@.len(),
                    rp@ == self@.resolved_plugins[i as int],
                    i < self.resolved_plugins@.len(),
                    out@ == script_spec(
                        LockedV {
                            resolved_plugins: self@.resolved_plugins.subrange(0, i as int),
                            ..self@
                        },
                    ) + frag_cat(rp@.fragments.subrange(0, k as int)),
                decreases rp.fragments@.len() - k,
            {
                proof {
                    assert(frag_cat(rp@.fragments.subrange(0, 0)) == Seq::<char>::empty());
                }
                text::append_str(&mut out, rp.fragments[k].as_str());
                text::push_char(&mut out, '\n');
                proof {
                    let pfx = rp@.fragments.subrange(0, k as int + 1);
                    assert(pfx.drop_last() =~= rp@.fragments.subrange(0, k as int));
                    assert(pfx.last() == rp@.fragments[k as int]);
                    assert(rp@.fragments[k as int] == rp.fragments@[k as int]@);
                    assert(out@ =~= script_spec(
                        LockedV {
                            resolved_plugins: self@.resolved_plugins.subrange(0, i as int),
                            ..self@
                        },
                    ) + frag_cat(pfx));
                }
                k = k + 1;
            }
            proof {
                let pfx = self@.resolved_plugins.subrange(0, i as int + 1);
                assert(pfx.drop_last() =~= self@.resolved_plugins.subrange(0, i as int));
                assert(pfx.last() == self@.resolved_plugins[i as int]);
                assert(rp@.fragments.subrange(0, rp@.fragments.len() as int) =~= rp@.fragments);
                assert(out@ =~= script_spec(LockedV { resolved_plugins: pfx, ..self@ }));
            }
            i = i + 1;
        }
        proof {
            assert(self@.resolved_plugins.subrange(0, self@.resolved_plugins.len() as int)
                =~= self@.resolved_plugins);
            let full = LockedV { resolved_plugins: self@.resolved_plugins, ..self@ };
            assert(full == self@);
        }
        out
    }
}

/// The artifact tag character of an error kind.
pub open spec fn enc_kind(k: ErrorKind) -> Seq<char> {
    match k {
        ErrorKind::NotFound => seq!['f'],
        ErrorKind::Git => seq!['g'],
        ErrorKind::Network => seq!['n'],
        ErrorKind::Template => seq!['t'],
        ErrorKind::NoMatch => seq!['m'],
    }
}

/// One recorded error in the artifact.
pub open spec fn enc_error(e: LockErrorV) -> Seq<char> {
    enc_kind(e.kind) + enc_str(e.plugin) + enc_str(e.detail)
}

/// The concatenated encodings of the recorded errors.
pub open spec fn cat_errors(l: Seq<LockErrorV>) -> Seq<char>
    decreases l.len(),
{
    if l.len() == 0 {
        Seq::empty()
    } else {
        enc_error(l[0]) + cat_errors(l.skip(1))
    }
}

/// One resolved plugin in the artifact.
pub open spec fn enc_resolved(r: ResolvedV) -> Seq<char> {
    enc_str(r.name) + enc_str(r.location) + enc_strs(r.matched_files) + enc_strs(r.fragments)
}

/// The concatenated encodings of the resolved plugins.
pub open spec fn cat_resolved(l: Seq<ResolvedV>) -> Seq<char>
    decreases l.len(),
{
    if l.len() == 0 {
        Seq::empty()
    } else {
        enc_resolved(l[0]) + cat_resolved(l.skip(1))
    }
}

/// The whole lock artifact.
pub open spec fn enc_locked(l: LockedV) -> Seq<char> {
    enc_str(l.fingerprint) + enc_len(l.resolved_plugins.len()) + cat_resolved(l.resolved_plugins)
        + enc_len(l.errors.len()) + cat_errors(l.errors)
}

/// Decodes an error kind tag.
pub open spec fn dec_kind(s: Seq<char>, i: int) -> Option<(ErrorKind, int)> {
    if i < 0 || i >= s.len() {
        None
    } else if s[i] == 'f' {
        Some((ErrorKind::NotFound, i + 1))
    } else if s[i] == 'g' {
        Some((ErrorKind::Git, i + 1))
    } else if s[i] == 'n' {
        Some((ErrorKind::Network, i + 1))
    } else if s[i] == 't' {
        Some((ErrorKind::Template, i + 1))
    } else if s[i] == 'm' {
        Some((ErrorKind::NoMatch, i + 1))
    } else {
        None
    }
}

/// Decodes one recorded error.
pub open spec fn dec_error(s: Seq<char>, i: int) -> Option<(LockErrorV, int)> {
    match dec_kind(s, i) {
        Some((kind, j)) => match dec_str(s, j) {
            Some((plugin, k)) => match dec_str(s, k) {
                Some((detail, m)) => Some((LockErrorV { plugin, kind, detail }, m)),
                None => None,
            },
            None => None,
        },
        None => None,
    }
}

/// Decodes `n` consecutive recorded errors.
pub open spec fn dec_errors_n(s: Seq<char>, i: int, n: nat) -> Option<(Seq<LockErrorV>, int)>
    decreases n,
{
    if n == 0 {
        Some((Seq::empty(), i))
    } else {
        match dec_error(s, i) {
            Some((e, j)) => match dec_errors_n(s, j, (n - 1) as nat) {
                Some((l, k)) => Some((seq![e] + l, k)),
                None => None,
            },
            None => None,
        }
    }
}

/// Decodes one resolved plugin.
pub open spec fn dec_resolved(s: Seq<char>, i: int) -> Option<(ResolvedV, int)> {
    match dec_str(s, i) {
        Some((name, j1)) => match dec_str(s, j1) {
            Some((location, j2)) => match dec_strs(s, j2) {
                Some((matched_files, j3)) => match dec_strs(s, j3) {
                    Some((fragments, j4)) => Some(
                        (ResolvedV { name, location, matched_files, fragments }, j4),
                    ),
                    None => None,
                },
                None => None,
            },
            None => None,
        },
        None => None,
    }
}

/// Decodes `n` consecutive resolved plugins.
pub open spec fn dec_resolved_n(s: Seq<char>, i: int, n: nat) -> Option<(Seq<ResolvedV>, int)>
    decreases n,
{
    if n == 0 {
        Some((Seq::empty(), i))
    } else {
        match dec_resolved(s, i) {
            Some((r, j)) => match dec_resolved_n(s, j, (n - 1) as nat) {
                Some((l, k)) => Some((seq![r] + l, k)),
                None => None,
            },
            None => None,
        }
    }
}

/// Decodes a whole lock artifact.
pub open spec fn dec_locked(s: Seq<char>, i: int) -> Option<(LockedV, int)> {
    match dec_str(s, i) {
        Some((fingerprint, j1)) => match dec_len(s, j1) {
            Some((n, j2)) => match dec_resolved_n(s, j2, n) {
                Some((resolved_plugins, j3)) => match dec_len(s, j3) {
                    Some((m, j4)) => match dec_errors_n(s, j4, m) {
                        Some((errors, j5)) => Some(
                            (LockedV { fingerprint, resolved_plugins, errors }, j5),
                        ),
                        None => None,
                    },
                    None => None,
                },
                None => None,
            },
            None => None,
        },
        None => None,
    }
}

/// Decoding inverts `enc_kind`.
pub proof fn lemma_dec_kind(s: Seq<char>, i: int, k: ErrorKind)
    requires
        has_at(s, i, enc_kind(k)),
    ensures
        dec_kind(s, i) == Some((k, i + 1)),
{
    assert(s.subrange(i, i + 1)[0] == s[i]);
}

/// Decoding inverts `enc_error`.
pub proof fn lemma_dec_error(s: Seq<char>, i: int, e: LockErrorV)
    requires
        has_at(s, i, enc_error(e)),
    ensures
        dec_error(s, i) == Some((e, i + enc_error(e).len() as int)),
{
    lemma_at_concat(s, i, enc_kind(e.kind) + enc_str(e.plugin), enc_str(e.detail));
    lemma_at_concat(s, i, enc_kind(e.kind), enc_str(e.plugin));
    lemma_dec_kind(s, i, e.kind);
    lemma_dec_str(s, i + 1, e.plugin);
    lemma_dec_str(s, i + 1 + enc_str(e.plugin).len(), e.detail);
}

/// Decoding inverts `cat_errors`.
pub proof fn lemma_dec_cat_errors(s: Seq<char>, i: int, l: Seq<LockErrorV>)
    requires
        has_at(s, i, cat_errors(l)),
    ensures
        dec_errors_n(s, i, l.len()) == Some((l, i + cat_errors(l).len() as int)),
    decreases l.len(),
{
    if l.len() == 0 {
        assert(l =~= Seq::<LockErrorV>::empty());
    } else {
        lemma_at_concat(s, i, enc_error(l[0]), cat_errors(l.skip(1)));
        lemma_dec_error(s, i, l[0]);
        lemma_dec_cat_errors(s, i + enc_error(l[0]).len(), l.skip(1));
        assert(seq![l[0]] + l.skip(1) =~= l);
    }
}

/// Decoding inverts `enc_resolved`.
pub proof fn lemma_dec_resolved(s: Seq<char>, i: int, r: ResolvedV)
    requires
        has_at(s, i, enc_resolved(r)),
    ensures
        dec_resolved(s, i) == Some((r, i + enc_resolved(r).len() as int)),
{
    let a = enc_str(r.name);
    let b = enc_str(r.location);
    let c = enc_strs(r.matched_files);
    let d = enc_strs(r.fragments);
    lemma_at_concat(s, i, a + b + c, d);
    lemma_at_concat(s, i, a + b, c);
    lemma_at_concat(s, i, a, b);
    lemma_dec_str(s, i, r.name);
    lemma_dec_str(s, i + a.len(), r.location);
    lemma_dec_strs(s, i + a.len() + b.len(), r.matched_files);
    lemma_dec_strs(s, i + a.len() + b.len() + c.len(), r.fragments);
}

/// Decoding inverts `cat_resolved`.
pub proof fn lemma_dec_cat_resolved(s: Seq<char>, i: int, l: Seq<ResolvedV>)
    requires
        has_at(s, i, cat_resolved(l)),
    ensures
        dec_resolved_n(s, i, l.len()) == Some((l, i + cat_resolved(l).len() as int)),
    decreases l.len(),
{
    if l.len() == 0 {
        assert(l =~= Seq::<ResolvedV>::empty());
    } else {
        lemma_at_concat(s, i, enc_resolved(l[0]), cat_resolved(l.skip(1)));
        lemma_dec_resolved(s, i, l[0]);
        lemma_dec_cat_resolved(s, i + enc_resolved(l[0]).len(), l.skip(1));
        assert(seq![l[0]] + l.skip(1) =~= l);
    }
}

/// The lock artifact round trip: decoding an encoded locked
/// configuration gives back exactly that configuration.
pub proof fn lemma_artifact_round_trip(l: LockedV)
    ensures
        dec_locked(enc_locked(l), 0) == Some((l, enc_locked(l).len() as int)),
{
    let s = enc_locked(l);
    assert(s.subrange(0, s.len() as int) =~= s);
    assert(has_at(s, 0, enc_locked(l)));
    let a = enc_str(l.fingerprint);
    let b = enc_len(l.resolved_plugins.len());
    let c = cat_resolved(l.resolved_plugins);
    let d = enc_len(l.errors.len());
    let e = cat_errors(l.errors);
    lemma_at_concat(s, 0, a + b + c + d, e);
    lemma_at_concat(s, 0, a + b + c, d);
    lemma_at_concat(s, 0, a + b, c);
    lemma_at_concat(s, 0, a, b);
    lemma_dec_str(s, 0, l.fingerprint);
    lemma_dec_len(s, a.len() as int, l.resolved_plugins.len());
    crate::encode::lemma_enc_len_len(l.resolved_plugins.len());
    lemma_dec_cat_resolved(s, (a.len() + b.len()) as int, l.resolved_plugins);
    lemma_dec_len(s, (a.len() + b.len() + c.len()) as int, l.errors.len());
    crate::encode::lemma_enc_len_len(l.errors.len());
    lemma_dec_cat_errors(s, (a.len() + b.len() + c.len() + d.len()) as int, l.errors);
}

/// Appending to an error sequence appends its encoding.
pub proof fn lemma_cat_errors_snoc(l: Seq<LockErrorV>, x: LockErrorV)
    ensures
        cat_errors(l.push(x)) == cat_errors(l) + enc_error(x),
    decreases l.len(),
{
    if l.len() == 0 {
        assert(cat_errors(l.push(x).skip(1)) == Seq::<char>::empty());
        assert(cat_errors(l.push(x)) =~= cat_errors(l) + enc_error(x));
    } else {
        assert(l.push(x).skip(1) =~= l.skip(1).push(x));
        lemma_cat_errors_snoc(l.skip(1), x);
        assert(cat_errors(l.push(x)) =~= cat_errors(l) + enc_error(x));
    }
}

/// Appending to a resolved-plugin sequence appends its encoding.
pub proof fn lemma_cat_resolved_snoc(l: Seq<ResolvedV>, x: ResolvedV)
    ensures
        cat_resolved(l.push(x)) == cat_resolved(l) + enc_resolved(x),
    decreases l.len(),
{
    if l.len() == 0 {
        assert(cat_resolved(l.push(x).skip(1)) == Seq::<char>::empty());
        assert(cat_resolved(l.push(x)) =~= cat_resolved(l) + enc_resolved(x));
    } else {
        assert(l.push(x).skip(1) =~= l.skip(1).push(x));
        lemma_cat_resolved_snoc(l.skip(1), x);
        assert(cat_resolved(l.push(x)) =~= cat_resolved(l) + enc_resolved(x));
    }
}

fn push_enc_kind(out: &mut String, k: &ErrorKind)
    ensures
        final(out)@ == old(out)@ + enc_kind(*k),
{
    match k {
        ErrorKind::NotFound => text::push_char(out, 'f'),
        ErrorKind::Git => text::push_char(out, 'g'),
        ErrorKind::Network => text::push_char(out, 'n'),
        ErrorKind::Template => text::push_char(out, 't'),
        ErrorKind::NoMatch => text::push_char(out, 'm'),
    }
    proof {
        assert(final(out)@ =~= old(out)@ + enc_kind(*k));
    }
}

fn push_enc_error(out: &mut String, e: &LockError)
    ensures
        final(out)@ == old(out)@ + enc_error(e@),
{
    push_enc_kind(out, &e.kind);
    encode::push_enc_str(out, e.plugin.as_str());
    encode::push_enc_str(out, e.detail.as_str());
    proof {
        assert(final(out)@ =~= old(out)@ + enc_error(e@));
    }
}

fn push_enc_resolved(out: &mut String, r: &ResolvedPlugin)
    ensures
        final(out)@ == old(out)@ + enc_resolved(r@),
{
    encode::push_enc_str(out, r.name.as_str());
    encode::push_enc_str(out, r.location.as_str());
    encode::push_enc_strs(out, &r.matched_files);
    encode::push_enc_strs(out, &r.fragments);
    proof {
        assert(final(out)@ =~= old(out)@ + enc_resolved(r@));
    }
}

impl LockedConfig {
    /// Serializes this locked configuration to the persistable lock
    /// artifact text.
    pub fn to_artifact(&self) -> (r: String)
        ensures
            r@ == enc_locked(self@),
    {
        let mut out = String::new();
        encode::push_enc_str(&mut out, self.fingerprint.as_str());
        encode::push_enc_len(&mut out, self.resolved_plugins.len());
        let ghost rv = self@.resolved_plugins;
        let ghost head = enc_str(self@.fingerprint) + enc_len(rv.len());
        let mut i: usize = 0;
        proof {
            assert(rv.subrange(0, 0) =~= Seq::<ResolvedV>::empty());
            assert(out@ =~= head + cat_resolved(rv.subrange(0, 0)));
        }
        while i < self.resolved_plugins.len()
            invariant
                i <= self.resolved_plugins@.len(),
                rv == self@.resolved_plugins,
                rv.len() == self.resolved_plugins@.len(),
                head == enc_str(self@.fingerprint) + enc_len(rv.len()),
                out@ == head + cat_resolved(rv.subrange(0, i as int)),
            decreases self.resolved_plugins@.len() - i,
        {
            push_enc_resolved(&mut out, &self.resolved_plugins[i]);
            proof {
                assert(rv[i as int] == self.resolved_plugins@[i as int]@);
                assert(rv.subrange(0, i as int).push(rv[i as int]) =~= rv.subrange(
                    0,
                    i as int + 1,
                ));
                lemma_cat_resolved_snoc(rv.subrange(0, i as int), rv[i as int]);
                assert(out@ =~= head + cat_resolved(rv.subrange(0, i as int + 1)));
            }
            i = i + 1;
        }
        proof {
            assert(rv.subrange(0, rv.len() as int) =~= rv);
        }
        encode::push_enc_len(&mut out, self.errors.len());
        let ghost ev = self@.errors;
        let ghost head2 = head + cat_resolved(rv) + enc_len(ev.len());
        let mut k: usize = 0;
        proof {
            assert(ev.subrange(0, 0) =~= Seq::<LockErrorV>::empty());
            assert(out@ =~= head2 + cat_errors(ev.subrange(0, 0)));
        }
        while k < self.errors.len()
            invariant
                k <= self.errors@.len(),
                ev == self@.errors,
                ev.len() == self.errors@.len(),
                out@ == head2 + cat_errors(ev.subrange(0, k as int)),
            decreases self.errors@.len() - k,
        {
            push_enc_error(&mut out, &self.errors[k]);
            proof {
                assert(ev[k as int] == self.errors@[k as int]@);
                assert(ev.subrange(0, k as int).push(ev[k as int]) =~= ev.subrange(
                    0,
                    k as int + 1,
                ));
                lemma_cat_errors_snoc(ev.subrange(0, k as int), ev[k as int]);
                assert(out@ =~= head2 + cat_errors(ev.subrange(0, k as int + 1)));
            }
            k = k + 1;
        }
        proof {
            assert(ev.subrange(0, ev.len() as int) =~= ev);
            assert(out@ =~= enc_locked(self@));
        }
        out
    }
}

fn dec_kind_exec(v: &Vec<char>, i: usize) -> (r: Option<(ErrorKind, usize)>)
    requires
        i <= v@.len(),
    ensures
        r is Some <==> dec_kind(v@, i as int) is Some,
        r is Some ==> dec_kind(v@, i as int) == Some((r->Some_0.0, r->Some_0.1 as int)),
{
    if i == v.len() {
        return None;
    }
    let c = v[i];
    if c == 'f' {
        Some((ErrorKind::NotFound, i + 1))
    } else if c == 'g' {
        Some((ErrorKind::Git, i + 1))
    } else if c == 'n' {
        Some((ErrorKind::Network, i + 1))
    } else if c == 't' {
        Some((ErrorKind::Template, i + 1))
    } else if c == 'm' {
        Some((ErrorKind::NoMatch, i + 1))
    } else {
        None
    }
}

fn dec_error_exec(v: &Vec<char>, i: usize) -> (r: Option<(LockError, usize)>)
    requires
        i <= v@.len(),
    ensures
        r is Some <==> dec_error(v@, i as int) is Some,
        r is Some ==> dec_error(v@, i as int) == Some((r->Some_0.0@, r->Some_0.1 as int)),
        r is Some ==> i <= r->Some_0.1 <= v@.len(),
{
    match dec_kind_exec(v, i) {
        None => None,
        Some((kind, j)) => match encode::dec_str_exec(v, j) {
            None => None,
            Some((plugin, k)) => match encode::dec_str_exec(v, k) {
                None => None,
                Some((detail, m)) => Some((LockError { plugin, kind, detail }, m)),
            },
        },
    }
}

fn dec_errors_n_exec(v: &Vec<char>, i: usize, n: usize) -> (r: Option<(Vec<LockError>, usize)>)
    requires
        i <= v@.len(),
    ensures
        r is Some <==> dec_errors_n(v@, i as int, n as nat) is Some,
        r is Some ==> dec_errors_n(v@, i as int, n as nat) == Some(
            (error_views(r->Some_0.0@), r->Some_0.1 as int),
        ),
        r is Some ==> i <= r->Some_0.1 <= v@.len(),
    decreases n,
{
    if n == 0 {
        let out: Vec<LockError> = Vec::new();
        proof {
            assert(error_views(out@) =~= Seq::<LockErrorV>::empty());
        }
        Some((out, i))
    } else {
        match dec_error_exec(v, i) {
            None => None,
            Some((e, j)) => match dec_errors_n_exec(v, j, n - 1) {
                None => None,
                Some((mut l, k)) => {
                    let ghost l0 = l@;
                    l.insert(0, e);
                    proof {
                        assert(error_views(l@) =~= seq![e@] + error_views(l0));
                    }
                    Some((l, k))
                },
            },
        }
    }
}

fn dec_resolved_exec(v: &Vec<char>, i: usize) -> (r: Option<(ResolvedPlugin, usize)>)
    requires
        i <= v@.len(),
    ensures
        r is Some <==> dec_resolved(v@, i as int) is Some,
        r is Some ==> dec_resolved(v@, i as int) == Some((r->Some_0.0@, r->Some_0.1 as int)),
        r is Some ==> i <= r->Some_0.1 <= v@.len(),
{
    match encode::dec_str_exec(v, i) {
        None => None,
        Some((name, j1)) => match encode::dec_str_exec(v, j1) {
            None => None,
            Some((location, j2)) => match encode::dec_strs_exec(v, j2) {
                None => None,
                Some((matched_files, j3)) => match encode::dec_strs_exec(v, j3) {
                    None => None,
                    Some((fragments, j4)) => Some(
                        (ResolvedPlugin { name, location, matched_files, fragments }, j4),
                    ),
                },
            },
        },
    }
}

fn dec_resolved_n_exec(v: &Vec<char>, i: usize, n: usize) -> (r: Option<
    (Vec<ResolvedPlugin>, usize),
>)
    requires
        i <= v@.len(),
    ensures
        r is Some <==> dec_resolved_n(v@, i as int, n as nat) is Some,
        r is Some ==> dec_resolved_n(v@, i as int, n as nat) == Some(
            (resolved_views(r->Some_0.0@), r->Some_0.1 as int),
        ),
        r is Some ==> i <= r->Some_0.1 <= v@.len(),
    decreases n,
{
    if n == 0 {
        let out: Vec<ResolvedPlugin> = Vec::new();
        proof {
            assert(resolved_views(out@) =~= Seq::<ResolvedV>::empty());
        }
        Some((out, i))
    } else {
        match dec_resolved_exec(v, i) {
            None => None,
            Some((e, j)) => match dec_resolved_n_exec(v, j, n - 1) {
                None => None,
                Some((mut l, k)) => {
                    let ghost l0 = l@;
                    l.insert(0, e);
                    proof {
                        assert(resolved_views(l@) =~= seq![e@] + resolved_views(l0));
                    }
                    Some((l, k))
                },
            },
        }
    }
}

impl LockedConfig {
    /// Parses a persisted lock artifact.  Returns the locked
    /// configuration exactly when the text is a whole, well-formed
    /// artifact; a corrupt artifact yields `None`, which callers treat
    /// as "no prior lock" and rebuild from scratch.
    pub fn from_artifact(s: &str) -> (r: Option<LockedConfig>)
        ensures
            r is Some ==> dec_locked(s@, 0) == Some((r->Some_0@, s@.len() as int)),
            r is None ==> (dec_locked(s@, 0) is None || dec_locked(s@, 0)->Some_0.1 != s@.len()),
    {
        let v = text::chars_of(s);
        let vlen: usize = v.len();
        match encode::dec_str_exec(&v, 0) {
            None => None,
            Some((fingerprint, j1)) => match encode::dec_len_exec(&v, j1) {
                None => None,
                Some((n, j2)) => {
                    proof {
                        encode::lemma_dec_len_bounds(v@, j1 as int);
                    }
                    match dec_resolved_n_exec(&v, j2, n) {
                        None => None,
                        Some((resolved_plugins, j3)) => match encode::dec_len_exec(&v, j3) {
                            None => None,
                            Some((m, j4)) => {
                                proof {
                                    encode::lemma_dec_len_bounds(v@, j3 as int);
                                }
                                match dec_errors_n_exec(&v, j4, m) {
                                    None => None,
                                    Some((errors, j5)) => {
                                        if j5 == vlen {
                                            Some(
                                                LockedConfig {
                                                    fingerprint,
                                                    resolved_plugins,
                                                    errors,
                                                },
                                            )
                                        } else {
                                            None
                                        }
                                    },
                                }
                            },
                        },
                    }
                },
            },
        }
    }
}

} // verus!
