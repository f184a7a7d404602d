use sheldon::encode::{cache_key, fingerprint};
use sheldon::glob::glob_match;
use sheldon::lock::{ErrorKind, LockError, LockedConfig, ResolvedPlugin};
use sheldon::model::{Config, GitReference, Plugin, Source, Template};
use sheldon::template::{render, template_uses_file};
use sheldon::text::{str_eq, str_lt};

fn s(x: &str) -> String {
    String::from(x)
}

#[test]
fn glob_star_matches_runs() {
    assert!(glob_match("*.plugin.zsh", "foo.plugin.zsh"));
    assert!(glob_match("*", ""));
    assert!(glob_match("a*c", "abbbc"));
    assert!(!glob_match("*.plugin.zsh", "foo.zsh"));
    assert!(!glob_match("a*c", "abd"));
}

#[test]
fn glob_question_matches_one_character() {
    assert!(glob_match("a?c", "abc"));
    assert!(!glob_match("a?c", "ac"));
    assert!(!glob_match("a?c", "abbc"));
}

#[test]
fn glob_literal_matches_itself() {
    assert!(glob_match("init.sh", "init.sh"));
    assert!(!glob_match("init.sh", "init.shx"));
    assert!(!glob_match("", "x"));
    assert!(glob_match("", ""));
}

#[test]
fn glob_counts_characters_not_bytes() {
    assert!(glob_match("?", "\u{e9}"));
    assert!(!glob_match("?", "\u{e9}\u{e9}"));
}

#[test]
fn lexicographic_order_on_strings() {
    assert!(str_lt(&s("a"), &s("b")));
    assert!(str_lt(&s("a"), &s("ab")));
    assert!(!str_lt(&s("b"), &s("a")));
    assert!(!str_lt(&s("a"), &s("a")));
    assert!(str_eq(&s("a"), &s("a")));
    assert!(!str_eq(&s("a"), &s("b")));
}

#[test]
fn render_substitutes_placeholders() {
    let r = render("source \"{{ file }}\"", "p", "/cache/p", "/cache/p/a.zsh");
    assert_eq!(r, s("source \"/cache/p/a.zsh\""));
    let r2 = render("fpath=({{ dir }} $fpath) # {{ name }}", "p", "/cache/p", "");
    assert_eq!(r2, s("fpath=(/cache/p $fpath) # p"));
}

#[test]
fn render_leaves_unknown_placeholders_alone() {
    let r = render("echo {{ nope }}", "p", "/d", "/f");
    assert_eq!(r, s("echo {{ nope }}"));
}

#[test]
fn template_uses_file_detection() {
    assert!(template_uses_file("source \"{{ file }}\""));
    assert!(!template_uses_file("fpath=({{ dir }} $fpath)"));
    assert!(!template_uses_file(""));
}

#[test]
fn fingerprint_of_empty_config_is_exact() {
    let config = Config { plugins: Vec::new(), templates: Vec::new() };
    assert_eq!(fingerprint(&config), s("::"));
}

#[test]
fn cache_key_is_exact_encoding() {
    let src = Source::Local { path: s("ab") };
    assert_eq!(cache_key(&src), s("pll:ab"));
    let git = Source::Git { url: s("u"), reference: GitReference::Tag(s("v1")) };
    assert_eq!(cache_key(&git), s("gl:utll:v1"));
}

#[test]
fn cache_keys_agree_exactly_on_equivalent_sources() {
    let a = Source::Git {
        url: s("https://example.com/r.git"),
        reference: GitReference::Branch(s("main")),
    };
    let b = Source::Git {
        url: s("https://example.com/r.git"),
        reference: GitReference::Branch(s("main")),
    };
    let c = Source::Git {
        url: s("https://example.com/r.git"),
        reference: GitReference::Tag(s("main")),
    };
    let d = Source::Remote { url: s("https://example.com/r.git") };
    assert_eq!(cache_key(&a), cache_key(&b));
    assert_ne!(cache_key(&a), cache_key(&c));
    assert_ne!(cache_key(&a), cache_key(&d));
}

#[test]
fn fingerprint_changes_with_any_field() {
    let base = || Config {
        plugins: vec![Plugin {
            name: s("p"),
            source: Source::Remote { url: s("https://example.com/x.zsh") },
            use_patterns: vec![s("*.zsh")],
            templates: vec![s("source")],
            profiles: Vec::new(),
        }],
        templates: vec![Template { name: s("source"), body: s("source \"{{ file }}\"") }],
    };
    let a = base();
    assert_eq!(fingerprint(&a), fingerprint(&base()));
    let mut b = base();
    b.plugins[0].use_patterns[0] = s("*.sh");
    assert_ne!(fingerprint(&a), fingerprint(&b));
    let mut c = base();
    c.templates[0].body = s("source {{ file }}");
    assert_ne!(fingerprint(&a), fingerprint(&c));
    let mut d = base();
    d.plugins.push(Plugin {
        name: s("q"),
        source: Source::Local { path: s("/tmp/q") },
        use_patterns: Vec::new(),
        templates: Vec::new(),
        profiles: Vec::new(),
    });
    assert_ne!(fingerprint(&a), fingerprint(&d));
}

#[test]
fn artifact_round_trip_restores_everything() {
    let lc = LockedConfig {
        fingerprint: s("::"),
        resolved_plugins: vec![ResolvedPlugin {
            name: s("p"),
            location: s("/cache/p"),
            matched_files: vec![s("/cache/p/a.zsh"), s("/cache/p/b.zsh")],
            fragments: vec![s("source \"/cache/p/a.zsh\""), s("source \"/cache/p/b.zsh\"")],
        }],
        errors: vec![LockError {
            plugin: s("q"),
            kind: ErrorKind::Network,
            detail: s("connection refused"),
        }],
    };
    let text = lc.to_artifact();
    let back = LockedConfig::from_artifact(text.as_str()).unwrap();
    assert_eq!(back.fingerprint, lc.fingerprint);
    assert_eq!(back.resolved_plugins.len(), 1);
    assert_eq!(back.resolved_plugins[0].name, lc.resolved_plugins[0].name);
    assert_eq!(back.resolved_plugins[0].location, lc.resolved_plugins[0].location);
    assert_eq!(back.resolved_plugins[0].matched_files, lc.resolved_plugins[0].matched_files);
    assert_eq!(back.resolved_plugins[0].fragments, lc.resolved_plugins[0].fragments);
    assert_eq!(back.errors.len(), 1);
    assert_eq!(back.errors[0].plugin, lc.errors[0].plugin);
    assert!(matches!(back.errors[0].kind, ErrorKind::Network));
    assert_eq!(back.errors[0].detail, lc.errors[0].detail);
}

#[test]
fn corrupt_artifact_is_rejected() {
    assert!(LockedConfig::from_artifact("").is_none());
    assert!(LockedConfig::from_artifact("garbage").is_none());
    assert!(LockedConfig::from_artifact("ll:ab").is_none());
    let lc = LockedConfig { fingerprint: s("::"), resolved_plugins: Vec::new(), errors: Vec::new() };
    let mut text = lc.to_artifact();
    text.push('x');
    assert!(LockedConfig::from_artifact(text.as_str()).is_none());
}
