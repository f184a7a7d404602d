use sheldon::lock::{ErrorKind, LockedConfig};
use sheldon::model::{Config, GitReference, Plugin, Source, Template};
use sheldon::resolve::{locked, plan_fetches, FetchOutcome};
use sheldon::{mutex_failure_fatal, run_command, Command, CommandOutcome};

fn s(x: &str) -> String {
    String::from(x)
}

fn plugin(name: &str, source: Source, patterns: &[&str], templates: &[&str]) -> Plugin {
    Plugin {
        name: s(name),
        source,
        use_patterns: patterns.iter().map(|p| s(p)).collect(),
        templates: templates.iter().map(|t| s(t)).collect(),
        profiles: Vec::new(),
    }
}

fn source_template() -> Template {
    Template {
        name: s("source"),
        body: s("source \"{{ file }}\""),
    }
}

fn three_plugin_config() -> Config {
    Config {
        plugins: vec![
            plugin(
                "ohmy",
                Source::Git {
                    url: s("https://example.com/ohmy.git"),
                    reference: GitReference::Branch(s("main")),
                },
                &["*.plugin.zsh"],
                &["source"],
            ),
            plugin(
                "localdir",
                Source::Local {
                    path: s("/home/user/plugins/localdir"),
                },
                &[],
                &["source"],
            ),
            plugin(
                "remote",
                Source::Remote {
                    url: s("https://example.com/one.zsh"),
                },
                &[],
                &["source"],
            ),
        ],
        templates: vec![source_template()],
    }
}

fn three_plugin_outcomes() -> Vec<FetchOutcome> {
    vec![
        FetchOutcome::Fetched {
            location: s("/cache/ohmy"),
            files: vec![s("/cache/ohmy/b.plugin.zsh"), s("/cache/ohmy/a.plugin.zsh"), s("/cache/ohmy/readme.md")],
        },
        FetchOutcome::Fetched {
            location: s("/home/user/plugins/localdir"),
            files: vec![s("/home/user/plugins/localdir/init.sh")],
        },
        FetchOutcome::Fetched {
            location: s("/cache/one.zsh"),
            files: vec![s("/cache/one.zsh")],
        },
    ]
}

#[test]
fn plan_deduplicates_equivalent_sources() {
    let shared = || Source::Git {
        url: s("https://example.com/shared.git"),
        reference: GitReference::DefaultBranch,
    };
    let config = Config {
        plugins: vec![
            plugin("one", shared(), &[], &["source"]),
            plugin("two", shared(), &[], &["source"]),
        ],
        templates: vec![source_template()],
    };
    let plan = plan_fetches(&config);
    assert_eq!(plan.len(), 1);
}

#[test]
fn equivalent_sources_share_location() {
    let shared = || Source::Git {
        url: s("https://example.com/shared.git"),
        reference: GitReference::DefaultBranch,
    };
    let config = Config {
        plugins: vec![
            plugin("one", shared(), &[], &["source"]),
            plugin("two", shared(), &[], &["source"]),
        ],
        templates: vec![source_template()],
    };
    let outcomes = vec![FetchOutcome::Fetched {
        location: s("/cache/shared"),
        files: vec![s("/cache/shared/x.zsh")],
    }];
    let lc = locked(&config, &outcomes);
    assert_eq!(lc.resolved_plugins.len(), 2);
    assert_eq!(lc.resolved_plugins[0].location, lc.resolved_plugins[1].location);
}

#[test]
fn resolved_order_matches_declaration_order() {
    let config = three_plugin_config();
    let lc = locked(&config, &three_plugin_outcomes());
    let names: Vec<&str> = lc.resolved_plugins.iter().map(|r| r.name.as_str()).collect();
    assert_eq!(names, vec!["ohmy", "localdir", "remote"]);
    assert!(lc.errors.is_empty());
}

#[test]
fn matched_files_are_sorted_and_filtered() {
    let config = three_plugin_config();
    let lc = locked(&config, &three_plugin_outcomes());
    assert_eq!(
        lc.resolved_plugins[0].matched_files,
        vec![s("/cache/ohmy/a.plugin.zsh"), s("/cache/ohmy/b.plugin.zsh")]
    );
}

#[test]
fn verify_true_on_unchanged_config_and_existing_locations() {
    let config = three_plugin_config();
    let lc = locked(&config, &three_plugin_outcomes());
    assert!(lc.verify(&config, &vec![true, true, true]));
}

#[test]
fn verify_false_on_changed_pattern() {
    let config = three_plugin_config();
    let lc = locked(&config, &three_plugin_outcomes());
    let mut changed = three_plugin_config();
    changed.plugins[0].use_patterns[0] = s("*.zsh");
    assert!(!lc.verify(&changed, &vec![true, true, true]));
}

#[test]
fn verify_false_on_changed_reference() {
    let config = three_plugin_config();
    let lc = locked(&config, &three_plugin_outcomes());
    let mut changed = three_plugin_config();
    changed.plugins[0].source = Source::Git {
        url: s("https://example.com/ohmy.git"),
        reference: GitReference::Branch(s("dev")),
    };
    assert!(!lc.verify(&changed, &vec![true, true, true]));
}

#[test]
fn verify_false_on_missing_location() {
    let config = three_plugin_config();
    let lc = locked(&config, &three_plugin_outcomes());
    assert!(!lc.verify(&config, &vec![true, false, true]));
}

#[test]
fn warm_cache_run_is_byte_identical() {
    let config = three_plugin_config();
    let first = locked(&config, &three_plugin_outcomes());
    let second = locked(&three_plugin_config(), &three_plugin_outcomes());
    assert_eq!(first.fingerprint, second.fingerprint);
    assert_eq!(first.script(), second.script());
    assert_eq!(first.to_artifact(), second.to_artifact());
}

#[test]
fn persisted_lock_round_trips_and_still_verifies() {
    let config = three_plugin_config();
    let lc = locked(&config, &three_plugin_outcomes());
    let back = LockedConfig::from_artifact(lc.to_artifact().as_str()).unwrap();
    assert!(back.verify(&config, &vec![true, true, true]));
    assert_eq!(back.script(), lc.script());
}

#[test]
fn no_match_error_is_scoped_to_one_plugin() {
    let mut config = three_plugin_config();
    config.plugins[0].use_patterns = vec![s("*.nomatch")];
    let lc = locked(&config, &three_plugin_outcomes());
    assert_eq!(lc.errors.len(), 1);
    assert_eq!(lc.errors[0].plugin, s("ohmy"));
    assert!(matches!(lc.errors[0].kind, ErrorKind::NoMatch));
    let names: Vec<&str> = lc.resolved_plugins.iter().map(|r| r.name.as_str()).collect();
    assert_eq!(names, vec!["localdir", "remote"]);
    let script = lc.script();
    assert!(script.contains("init.sh"));
    assert!(script.contains("/cache/one.zsh"));
}

#[test]
fn unknown_template_is_an_error() {
    let mut config = three_plugin_config();
    config.plugins[2].templates = vec![s("missing")];
    let lc = locked(&config, &three_plugin_outcomes());
    assert_eq!(lc.errors.len(), 1);
    assert_eq!(lc.errors[0].plugin, s("remote"));
    assert!(matches!(lc.errors[0].kind, ErrorKind::Template));
    assert_eq!(lc.errors[0].detail, s("missing"));
}

#[test]
fn three_plugin_scenario_produces_full_script() {
    let config = three_plugin_config();
    let out: CommandOutcome = run_command(&Command::Source, &config, &three_plugin_outcomes());
    assert!(out.success);
    assert!(out.persist);
    let script = out.script.unwrap();
    assert!(!script.is_empty());
    let a = script.find("/cache/ohmy/a.plugin.zsh").unwrap();
    let b = script.find("/cache/ohmy/b.plugin.zsh").unwrap();
    let init = script.find("/home/user/plugins/localdir/init.sh").unwrap();
    let remote = script.find("/cache/one.zsh").unwrap();
    assert!(a < b && b < init && init < remote);
    assert!(out.locked.verify(&three_plugin_config(), &vec![true, true, true]));
}

#[test]
fn unreachable_git_strict_mode_fails_and_keeps_prior_lock() {
    let config = three_plugin_config();
    let mut outcomes = three_plugin_outcomes();
    outcomes[0] = FetchOutcome::Failed {
        kind: ErrorKind::Git,
        detail: s("failed to clone: remote unreachable"),
    };
    let out = run_command(&Command::Lock, &config, &outcomes);
    assert!(!out.success);
    assert!(!out.persist);
    assert!(out.script.is_none());
    assert_eq!(out.locked.errors.len(), 1);
    assert_eq!(out.locked.errors[0].plugin, s("ohmy"));
}

#[test]
fn unreachable_git_best_effort_still_emits_script() {
    let config = three_plugin_config();
    let mut outcomes = three_plugin_outcomes();
    outcomes[0] = FetchOutcome::Failed {
        kind: ErrorKind::Git,
        detail: s("failed to clone: remote unreachable"),
    };
    let out = run_command(&Command::Source, &config, &outcomes);
    assert!(out.success);
    assert!(!out.persist);
    let script = out.script.unwrap();
    assert!(!script.contains("ohmy"));
    assert!(script.contains("init.sh"));
    assert!(script.contains("/cache/one.zsh"));
    assert_eq!(out.locked.errors.len(), 1);
    assert_eq!(out.locked.errors[0].plugin, s("ohmy"));
    assert!(matches!(out.locked.errors[0].kind, ErrorKind::Git));
}

#[test]
fn failed_fetch_kinds_are_recorded() {
    let config = Config {
        plugins: vec![
            plugin(
                "gone",
                Source::Local { path: s("/nowhere") },
                &[],
                &["source"],
            ),
            plugin(
                "offline",
                Source::Remote { url: s("https://example.com/x.zsh") },
                &[],
                &["source"],
            ),
        ],
        templates: vec![source_template()],
    };
    let outcomes = vec![
        FetchOutcome::Failed { kind: ErrorKind::NotFound, detail: s("no such directory") },
        FetchOutcome::Failed { kind: ErrorKind::Network, detail: s("connection refused") },
    ];
    let lc = locked(&config, &outcomes);
    assert!(lc.resolved_plugins.is_empty());
    assert_eq!(lc.errors.len(), 2);
    assert!(matches!(lc.errors[0].kind, ErrorKind::NotFound));
    assert_eq!(lc.errors[0].detail, s("no such directory"));
    assert!(matches!(lc.errors[1].kind, ErrorKind::Network));
}

#[test]
fn mutex_requirement_depends_on_command() {
    assert!(mutex_failure_fatal(&Command::Lock));
    assert!(mutex_failure_fatal(&Command::Source));
    assert!(!mutex_failure_fatal(&Command::Init));
    assert!(!mutex_failure_fatal(&Command::Add));
    assert!(!mutex_failure_fatal(&Command::Edit));
    assert!(!mutex_failure_fatal(&Command::Remove));
}
