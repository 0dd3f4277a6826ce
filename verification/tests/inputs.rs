//! The fingerprint of the build environment, and the rules for other inputs.

use cargo_affected::config::{add_rule_hits, config_rule_hits, matching_paths, resolve_config_hits, rule_requests};
use cargo_affected::config::{AffectedConfig, ConfigError, InputRule};
use cargo_affected::db::TestId;
use cargo_affected::fingerprint::{collect_inputs, compute, hash_one, hex, read_manifest_for_fingerprint};
use cargo_affected::fingerprint::Fingerprint;
use cargo_affected::json::{read_json, Json};
use cargo_affected::listing::Listing;
use cargo_affected::ordered::{OrdMap, OrdSet};

const RUSTC: &str = "rustc 1.80.0\nhost: x86_64-unknown-linux-gnu\n";

fn fingerprint(lock: &str, manifests: &[(&str, &str)], rustflags: &str) -> Fingerprint {
    let inputs = collect_inputs(
        "/ws",
        false,
        lock.as_bytes().to_vec(),
        manifests.iter().map(|(p, text)| (p.to_string(), text.as_bytes().to_vec())).collect(),
        RUSTC.as_bytes().to_vec(),
        rustflags,
        "",
    );
    compute(&inputs)
}

#[test]
fn same_inputs_same_fingerprint() {
    let manifests = [("/ws/Cargo.toml", "[package]\nname = \"x\"\n")];
    let a = fingerprint("lock contents", &manifests, "");
    let b = fingerprint("lock contents", &manifests, "");
    assert_eq!(a, b);
    assert_eq!(a.hex.len(), 64);
}

#[test]
fn cargo_lock_change_changes_hex() {
    let manifests = [("/ws/Cargo.toml", "[package]\n")];
    let a = fingerprint("v1", &manifests, "");
    let b = fingerprint("v2", &manifests, "");
    assert_ne!(a.hex, b.hex);
    let differing: Vec<&str> = a
        .components
        .iter()
        .zip(b.components.iter())
        .filter(|(x, y)| x.hash != y.hash)
        .map(|(x, _)| x.label.as_str())
        .collect();
    assert_eq!(differing, vec!["cargo_lock"]);
}

#[test]
fn manifest_change_changes_hex() {
    let a = fingerprint("", &[("/ws/Cargo.toml", "[package]\nname = \"a\"\n")], "");
    let b = fingerprint("", &[("/ws/Cargo.toml", "[package]\nname = \"b\"\n")], "");
    assert_ne!(a.hex, b.hex);
}

#[test]
fn manifest_metadata_excluded_from_fingerprint() {
    let bare = "[package]\nname = \"a\"\nedition = \"2021\"\n";
    let a = fingerprint("", &[("/ws/Cargo.toml", bare)], "");
    let rule = format!(
        "{bare}\n[[package.metadata.affected.rule]]\nglobs = [\"x.snap\"]\nfilterset = \"test(=t)\"\n"
    );
    let with_rule = fingerprint("", &[("/ws/Cargo.toml", &rule)], "");
    let other = format!(
        "{bare}\n[[package.metadata.affected.rule]]\nglobs = [\"y.snap\", \"docs/**\"]\nfilterset = \"test(=u)\"\n"
    );
    let edited = fingerprint("", &[("/ws/Cargo.toml", &other)], "");
    assert_eq!(with_rule.hex, edited.hex, "editing a rule must not change the fingerprint");
    let real = format!("{bare}edition2 = true\n");
    let real_change = fingerprint("", &[("/ws/Cargo.toml", &real)], "");
    assert_ne!(a.hex, real_change.hex, "a non-metadata manifest edit must still register");
}

#[test]
fn metadata_of_package_and_workspace_is_stripped_together() {
    let manifest = |version: &str, rule: &str| {
        format!(
            "[workspace]\nmembers = []\n\n[workspace.metadata.affected]\nrule = [{rule}]\n\n[package]\n\
             name = \"a\" # kept\nversion = \"{version}\"\n\n[package.metadata.x]\ny = 1\n\n[dependencies]\n"
        )
    };
    let bytes = |text: String| read_manifest_for_fingerprint(text.into_bytes());
    let kept = bytes(manifest("1", "1"));
    assert_eq!(kept, bytes(manifest("1", "2, 3")));
    assert_ne!(kept, bytes(manifest("2", "1")));
    let text = String::from_utf8(kept).unwrap();
    assert!(!text.contains("metadata"), "{text}");
    assert!(text.contains("name = \"a\" # kept") && text.contains("[dependencies]"), "{text}");
}

#[test]
fn rustflags_change_changes_hex() {
    let manifests = [("/ws/Cargo.toml", "[package]\n")];
    let a = fingerprint("", &manifests, "");
    let b = fingerprint("", &manifests, "-C opt-level=3");
    assert_ne!(a.hex, b.hex);
}

#[test]
fn components_cover_every_input() {
    let fp = fingerprint(
        "lock",
        &[("/ws/Cargo.toml", "[package]"), ("/ws/crates/foo/Cargo.toml", "[package]\nname = \"foo\"")],
        "",
    );
    let labels: Vec<&str> = fp.components.iter().map(|c| c.label.as_str()).collect();
    assert_eq!(
        labels,
        vec![
            "cargo_lock",
            "manifest:Cargo.toml",
            "manifest:crates/foo/Cargo.toml",
            "rustc",
            "RUSTFLAGS",
            "CARGO_BUILD_TARGET",
        ],
    );
    for c in &fp.components {
        assert_eq!(c.hash.len(), 64, "{} hash should be 64 hex chars", c.label);
    }
}

#[test]
fn hex_roundtrip() {
    assert_eq!(hex(&[0x00, 0xff, 0xab]), "00ffab");
}

#[test]
fn components_are_hashed_with_sha_256() {
    assert_eq!(hash_one(b"abc"), "ba7816bf8f01cfea414140de5dae2223b00361a396177a9cb410ff61f20015ad");
}

#[test]
fn metadata_is_cut_out_of_a_manifest() {
    let kept = read_manifest_for_fingerprint(b"[package]\nname = \"a\"\n\n[package.metadata.x]\ny = 1\n".to_vec());
    let text = String::from_utf8(kept).unwrap();
    assert!(text.contains("name = \"a\"") && !text.contains("metadata"), "{text}");
    assert_eq!(read_manifest_for_fingerprint(b"not [ toml".to_vec()), b"not [ toml".to_vec());
    assert_eq!(read_manifest_for_fingerprint(vec![0xff, 0xfe]), vec![0xff, 0xfe]);
}

fn json(text: &str) -> Json {
    read_json(text).unwrap()
}

fn workspace_meta(rules: &str) -> Json {
    json(&format!("{{ \"metadata\": {{ \"affected\": {{ \"rule\": {rules} }} }}, \"packages\": [] }}"))
}

#[test]
fn absent_table_is_empty_config() {
    let meta = json("{ \"metadata\": null, \"packages\": [] }");
    let cfg = AffectedConfig::from_metadata(&meta, "/ws").unwrap();
    assert!(cfg.rules.is_empty());
    assert!(cfg.compile().unwrap().is_empty());
}

#[test]
fn parses_workspace_metadata_rules() {
    let meta = workspace_meta(
        "[ { \"globs\": [\"**/*.snap\"], \"filterset\": \"binary_id(=pkg::integration) & test(/help/)\" }, \
           { \"globs\": [\"README.md\", \"docs/**/*.md\"], \"filterset\": \"test(/sync/)\" } ]",
    );
    let cfg = AffectedConfig::from_metadata(&meta, "/ws").unwrap();
    assert_eq!(cfg.rules.len(), 2);
    assert_eq!(cfg.rules[0].filterset, "binary_id(=pkg::integration) & test(/help/)");
    assert_eq!(cfg.rules[1].globs, vec!["README.md", "docs/**/*.md"]);
}

#[test]
fn falls_back_to_root_package_metadata() {
    let meta = json(
        "{ \"metadata\": null, \"packages\": [ { \"manifest_path\": \"/ws/Cargo.toml\", \
           \"metadata\": { \"affected\": { \"rule\": [ \
             { \"globs\": [\"x.snap\"], \"filterset\": \"test(=t)\" } ] } } } ] }",
    );
    let cfg = AffectedConfig::from_metadata(&meta, "/ws").unwrap();
    assert_eq!(cfg.rules.len(), 1);
    assert_eq!(cfg.rules[0].globs, vec!["x.snap"]);
}

#[test]
fn malformed_table_errors() {
    let meta = workspace_meta("[ { \"globs\": [\"x\"], \"filterse\": \"y\" } ]");
    let err = AffectedConfig::from_metadata(&meta, "/ws").unwrap_err();
    assert_eq!(err, ConfigError::BadTable);
    assert!(err.message().contains("Cargo.toml"));
}

fn config(globs: &[&str], filterset: &str) -> AffectedConfig {
    AffectedConfig {
        rules: vec![InputRule {
            globs: globs.iter().map(|g| g.to_string()).collect(),
            filterset: filterset.to_string(),
        }],
    }
}

#[test]
fn invalid_glob_errors() {
    match config(&["a["], "test(/x/)").compile() {
        Err(err) => {
            assert!(matches!(err, ConfigError::BadGlob(_, _)));
            assert!(err.message().contains("invalid glob"));
        }
        Ok(_) => panic!("invalid glob must error"),
    }
}

#[test]
fn globs_that_are_too_large_together_error() {
    let long = "?".repeat(500_000);
    for _ in 0..2 {
        match config(&["docs/*", long.as_str()], "test(/x/)").compile() {
            Err(err) => {
                assert!(matches!(err, ConfigError::BadMatcher(_)));
                assert!(err.message().starts_with("failed to build glob matcher for [*.metadata.affected]: "));
            }
            Ok(_) => panic!("expected the compiler to give up"),
        }
    }
}

#[test]
fn a_rule_without_globs_matches_nothing() {
    let compiled = config(&[], "test(/x/)").compile().unwrap();
    assert!(!compiled[0].matches("docs/a.md"));
}

#[test]
fn compiled_rule_matches_globs() {
    let compiled = config(&["**/*.snap", "docs/**/*.md"], "test(/x/)").compile().unwrap();
    let m = &compiled[0];
    assert!(m.matches("tests/integration/snapshots/help.snap"));
    assert!(m.matches("docs/content/faq.md"));
    assert!(!m.matches("src/lib.rs"));
    assert!(!m.matches("README.md"));
}

fn texts(list: &[&str]) -> OrdSet<String> {
    OrdSet::from_vec(list.iter().map(|s| s.to_string()).collect())
}

#[test]
fn rules_match_changed_paths() {
    let compiled = config(&["**/*.snap"], "test(/x/)").compile().unwrap();
    let changed = texts(&["a.snap", "b/c.snap", "src/lib.rs"]);
    assert_eq!(matching_paths(&compiled[0], &changed), texts(&["a.snap", "b/c.snap"]));
    let requests = rule_requests(&compiled, &changed);
    assert_eq!(requests.len(), 1);
    assert_eq!(requests[0].filterset, "test(/x/)");
    assert!(rule_requests(&compiled, &texts(&["src/lib.rs"])).is_empty());
}

fn rule_listing(tests: &[&str], unmatched: &[&str]) -> Listing {
    let set = |names: &[&str]| OrdSet::from_vec(names.iter().map(|t| TestId::new("a", t)).collect());
    Listing { tests: set(tests), ignored: OrdSet::new(), unmatched: set(unmatched), binaries: vec![] }
}

#[test]
fn rules_name_their_tests_for_each_path() {
    let meta = workspace_meta("[ { \"globs\": [\"*.snap\"], \"filterset\": \"test(=t1)\" } ]");
    let requests = config_rule_hits(&meta, "/ws", &texts(&["a.snap", "b.snap", "c.rs"])).unwrap();
    assert_eq!(requests.len(), 1);
    assert_eq!(requests[0].matched, texts(&["a.snap", "b.snap"]));
    let (hits, warnings) = resolve_config_hits(&requests, &vec![rule_listing(&["t1", "t2"], &["t2"])]);
    assert!(warnings.is_empty());
    assert_eq!(hits.len(), 2);
    let only = OrdSet::from_vec(vec![TestId::new("a", "t1")]);
    assert_eq!(hits.get(&"a.snap".to_string()), Some(&only));
    assert_eq!(hits.get(&"b.snap".to_string()), Some(&only));
}

#[test]
fn a_rule_without_tests_is_warned_about() {
    let meta = workspace_meta("[ { \"globs\": [\"*.snap\"], \"filterset\": \"test(=nope)\" } ]");
    let requests = config_rule_hits(&meta, "/ws", &texts(&["a.snap"])).unwrap();
    let (hits, warnings) = resolve_config_hits(&requests, &vec![rule_listing(&["t1"], &["t1"])]);
    assert!(hits.is_empty());
    assert_eq!(warnings.len(), 1);
    assert!(warnings[0].contains("matched no tests") && warnings[0].contains("\"test(=nope)\""), "{}", warnings[0]);
}

#[test]
fn a_backslash_in_one_path_leaves_the_others_alone() {
    let meta = workspace_meta(
        r#"[{"globs": ["x\\y", "**/*.snap"], "filterset": "test(=t1)"}, {"globs": ["docs/*"], "filterset": "test(=t2)"}]"#,
    );
    let changed = texts(&["a\\b.rs", "one.snap", "docs/a.md", "src/lib.rs"]);
    let requests = config_rule_hits(&meta, "/ws", &changed).unwrap();
    assert_eq!(requests.len(), 2);
    assert!(requests[0].matched.contains(&"one.snap".to_string()));
    assert!(!requests[0].matched.contains(&"src/lib.rs".to_string()));
    assert_eq!(requests[1].filterset, "test(=t2)");
    assert!(requests[1].matched.contains(&"docs/a.md".to_string()));
    assert!(!requests[1].matched.contains(&"one.snap".to_string()));
}

#[test]
fn paths_that_no_rule_matches_ask_nothing() {
    let meta = workspace_meta(r#"[{"globs": ["**/*.snap"], "filterset": "test(=t1)"}]"#);
    let requests = config_rule_hits(&meta, "/ws", &texts(&["src/lib.rs", "Cargo.toml"])).unwrap();
    assert!(requests.is_empty());
    let (hits, warnings) = resolve_config_hits(&requests, &vec![]);
    assert!(hits.is_empty() && warnings.is_empty());
}

#[test]
fn hits_of_two_rules_add_up() {
    let mut hits = OrdMap::new();
    let t = |n: &str| OrdSet::from_vec(vec![TestId::new("a", n)]);
    assert_eq!(add_rule_hits(&mut hits, &texts(&["x"]), "test(=t1)", &rule_listing(&["t1"], &[])), None);
    assert_eq!(add_rule_hits(&mut hits, &texts(&["x", "y"]), "test(=t2)", &rule_listing(&["t2"], &[])), None);
    assert_eq!(
        hits.get(&"x".to_string()),
        Some(&OrdSet::from_vec(vec![TestId::new("a", "t1"), TestId::new("a", "t2")])),
    );
    assert_eq!(hits.get(&"y".to_string()), Some(&t("t2")));
}
