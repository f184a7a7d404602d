//! The configuration data model: source descriptors, plugins, template
//! definitions and whole configurations, together with their ghost views.

use vstd::prelude::*;

verus! {

/// The git reference a git source is pinned to: the remote's default
/// branch, a named branch, a tag, or an exact revision.
pub enum GitReference {
    DefaultBranch,
    Branch(String),
    Tag(String),
    Revision(String),
}

/// Where one plugin's files come from: a git repository at a reference,
/// a single remote file, or a pre-existing local directory.
pub enum Source {
    Git { url: String, reference: GitReference },
    Remote { url: String },
    Local { path: String },
}

/// One declared plugin: a unique name, a source descriptor, the glob
/// patterns selecting files inside the resolved source (empty means
/// "all files"), the names of the templates to apply, and its
/// profile/condition tags.
pub struct Plugin {
    pub name: String,
    pub source: Source,
    pub use_patterns: Vec<String>,
    pub templates: Vec<String>,
    pub profiles: Vec<String>,
}

/// A named template definition: applying `name` renders `body` with the
/// placeholders substituted.
pub struct Template {
    pub name: String,
    pub body: String,
}

/// A validated configuration: the ordered plugin list and the template
/// definitions available to the plugins.
pub struct Config {
    pub plugins: Vec<Plugin>,
    pub templates: Vec<Template>,
}

/// Ghost view of a git reference.
pub ghost enum GitReferenceV {
    DefaultBranch,
    Branch(Seq<char>),
    Tag(Seq<char>),
    Revision(Seq<char>),
}

/// Ghost view of a source descriptor.
pub ghost enum SourceV {
    Git { url: Seq<char>, reference: GitReferenceV },
    Remote { url: Seq<char> },
    Local { path: Seq<char> },
}

/// Ghost view of a plugin.
pub ghost struct PluginV {
    pub name: Seq<char>,
    pub source: SourceV,
    pub use_patterns: Seq<Seq<char>>,
    pub templates: Seq<Seq<char>>,
    pub profiles: Seq<Seq<char>>,
}

/// Ghost view of a template definition.
pub ghost struct TemplateV {
    pub name: Seq<char>,
    pub body: Seq<char>,
}

/// Ghost view of a configuration.
pub ghost struct ConfigV {
    pub plugins: Seq<PluginV>,
    pub templates: Seq<TemplateV>,
}

impl View for GitReference {
    type V = GitReferenceV;

    open spec fn view(&self) -> GitReferenceV {
        match self {
            GitReference::DefaultBranch => GitReferenceV::DefaultBranch,
            GitReference::Branch(b) => GitReferenceV::Branch(b@),
            GitReference::Tag(t) => GitReferenceV::Tag(t@),
            GitReference::Revision(r) => GitReferenceV::Revision(r@),
        }
    }
}

impl View for Source {
    type V = SourceV;

    open spec fn view(&self) -> SourceV {
        match self {
            Source::Git { url, reference } => SourceV::Git { url: url@, reference: reference@ },
            Source::Remote { url } => SourceV::Remote { url: url@ },
            Source::Local { path } => SourceV::Local { path: path@ },
        }
    }
}

impl View for Plugin {
    type V = PluginV;

    open spec fn view(&self) -> PluginV {
        PluginV {
            name: self.name@,
            source: self.source@,
            use_patterns: self.use_patterns.deep_view(),
            templates: self.templates.deep_view(),
            profiles: self.profiles.deep_view(),
        }
    }
}

impl View for Template {
    type V = TemplateV;

    open spec fn view(&self) -> TemplateV {
        TemplateV { name: self.name@, body: self.body@ }
    }
}

impl View for Config {
    type V = ConfigV;

    open spec fn view(&self) -> ConfigV {
        ConfigV {
            plugins: Seq::new(self.plugins@.len(), |i: int| self.plugins@[i]@),
            templates: Seq::new(self.templates@.len(), |i: int| self.templates@[i]@),
        }
    }
}

/// Two source descriptors are equivalent exactly when they have the same
/// variant and the same field values; equivalent descriptors must share
/// one cache entry.
pub open spec fn source_equiv(a: SourceV, b: SourceV) -> bool {
    a == b
}

/// Decides equality of two git references.
pub fn ref_eq(a: &GitReference, b: &GitReference) -> (r: bool)
    ensures
        r == (a@ == b@),
{
    match (a, b) {
        (GitReference::DefaultBranch, GitReference::DefaultBranch) => true,
        (GitReference::Branch(x), GitReference::Branch(y)) => crate::text::str_eq(x, y),
        (GitReference::Tag(x), GitReference::Tag(y)) => crate::text::str_eq(x, y),
        (GitReference::Revision(x), GitReference::Revision(y)) => crate::text::str_eq(x, y),
        _ => false,
    }
}

/// Decides equivalence of two source descriptors.
pub fn source_eq(a: &Source, b: &Source) -> (r: bool)
    ensures
        r == (a@ == b@),
{
    match (a, b) {
        (
            Source::Git { url: ua, reference: ra },
            Source::Git { url: ub, reference: rb },
        ) => crate::text::str_eq(ua, ub) && ref_eq(ra, rb),
        (Source::Remote { url: ua }, Source::Remote { url: ub }) => crate::text::str_eq(ua, ub),
        (Source::Local { path: pa }, Source::Local { path: pb }) => crate::text::str_eq(pa, pb),
        _ => false,
    }
}

/// Copies a git reference.
pub fn clone_ref(r: &GitReference) -> (c: GitReference)
    ensures
        c@ == r@,
{
    match r {
        GitReference::DefaultBranch => GitReference::DefaultBranch,
        GitReference::Branch(b) => GitReference::Branch(b.clone()),
        GitReference::Tag(t) => GitReference::Tag(t.clone()),
        GitReference::Revision(v) => GitReference::Revision(v.clone()),
    }
}

/// Copies a source descriptor.
pub fn clone_source(s: &Source) -> (c: Source)
    ensures
        c@ == s@,
{
    match s {
        Source::Git { url, reference } => Source::Git {
            url: url.clone(),
            reference: clone_ref(reference),
        },
        Source::Remote { url } => Source::Remote { url: url.clone() },
        Source::Local { path } => Source::Local { path: path.clone() },
    }
}

/// A configuration is well formed when its plugin names are unique and
/// its template names are unique.  Duplicate names are a configuration
/// error, rejected before a configuration reaches this library.
pub open spec fn config_wf(c: ConfigV) -> bool {
    &&& forall|i: int, j: int|
        0 <= i < j < c.plugins.len() ==> c.plugins[i].name != c.plugins[j].name
    &&& forall|i: int, j: int|
        0 <= i < j < c.templates.len() ==> c.templates[i].name != c.templates[j].name
}

} // verus!
