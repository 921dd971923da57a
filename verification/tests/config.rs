use herbalist::config::{
    find_namespace, load, scope_contains, versioning_for_namespace, ConfigFile, LoadedConfigs,
    RawVersioning, DEFAULT_WEIGHT,
};

fn raw(resource: Option<&str>, revision: Option<&str>, weight: Option<f32>) -> RawVersioning {
    RawVersioning {
        resource_key: resource.map(|s| s.to_owned()),
        revision_key: revision.map(|s| s.to_owned()),
        revision_of_weight: weight.map(f32::to_bits),
    }
}

fn file(dir: &str, raw: RawVersioning) -> ConfigFile {
    ConfigFile {
        dir: dir.to_owned(),
        raw,
    }
}

#[test]
fn scope_contains_root() {
    assert!(scope_contains("", "any/path.md"));
    assert!(scope_contains("", "root.md"));
}

#[test]
fn scope_contains_subdir() {
    assert!(scope_contains("papers", "papers/essay.md"));
    assert!(scope_contains("papers", "papers/deep/essay.md"));
    assert!(!scope_contains("papers", "papers-old/essay.md"));
    assert!(!scope_contains("papers", "other/essay.md"));
}

#[test]
fn scope_contains_itself() {
    assert!(scope_contains("papers", "papers"));
    assert!(!scope_contains("papers/2024", "papers"));
}

#[test]
fn find_namespace_deepest_wins() {
    let scopes = vec!["".to_owned(), "papers".to_owned(), "papers/2024".to_owned()];
    assert_eq!(
        find_namespace("papers/2024/essay.md", &scopes),
        Some("papers/2024")
    );
    assert_eq!(find_namespace("papers/essay.md", &scopes), Some("papers"));
    assert_eq!(find_namespace("notes/daily.md", &scopes), Some(""));
    assert_eq!(find_namespace("notes/daily.md", &[]), None);
}

#[test]
fn raw_versioning_merge_overlay_wins() {
    let base = RawVersioning {
        resource_key: Some("id".to_owned()),
        revision_key: Some("rev".to_owned()),
        revision_of_weight: None,
    };
    let top = RawVersioning {
        resource_key: Some("doc-id".to_owned()),
        revision_key: None,
        revision_of_weight: Some(0.3f32.to_bits()),
    };
    let merged = RawVersioning::overlay(base, top);
    assert_eq!(merged.resource_key.as_deref(), Some("doc-id"));
    assert_eq!(merged.revision_key.as_deref(), Some("rev"));
    let resolved = merged.resolve().unwrap();
    assert!((f32::from_bits(resolved.revision_of_weight) - 0.3).abs() < f32::EPSILON);
}

#[test]
fn raw_versioning_default_weight() {
    let raw = RawVersioning {
        resource_key: Some("id".to_owned()),
        revision_key: Some("rev".to_owned()),
        revision_of_weight: None,
    };
    let resolved = raw.resolve().unwrap();
    assert!((f32::from_bits(resolved.revision_of_weight) - 0.5).abs() < f32::EPSILON);
}

#[test]
fn raw_versioning_resolve_requires_both_keys() {
    let raw = RawVersioning {
        resource_key: Some("id".to_owned()),
        ..Default::default()
    };
    assert!(raw.resolve().is_none());
}

#[test]
fn raw_versioning_without_resource_key() {
    assert!(raw(None, Some("rev"), Some(0.3)).resolve().is_none());
    assert!(RawVersioning::unset().resolve().is_none());
}

#[test]
fn default_weight_is_a_half() {
    assert_eq!(f32::from_bits(DEFAULT_WEIGHT), 0.5);
}

#[test]
fn overlay_is_associative() {
    let values = [
        raw(Some("a"), None, Some(0.25)),
        raw(None, Some("b"), None),
        raw(Some("c"), Some("d"), Some(0.75)),
        raw(None, None, None),
    ];
    for a in &values {
        for b in &values {
            for c in &values {
                let left = RawVersioning::overlay(
                    RawVersioning::overlay(a.clone(), b.clone()),
                    c.clone(),
                );
                let right = RawVersioning::overlay(
                    a.clone(),
                    RawVersioning::overlay(b.clone(), c.clone()),
                );
                assert_eq!(left.resource_key, right.resource_key);
                assert_eq!(left.revision_key, right.revision_key);
                assert_eq!(left.revision_of_weight, right.revision_of_weight);
            }
        }
    }
}

#[test]
fn loaded_scopes_come_shallow_first() {
    let configs = load(vec![
        file("b/c/d", RawVersioning::unset()),
        file("z", RawVersioning::unset()),
        file("", RawVersioning::unset()),
        file("b/c", RawVersioning::unset()),
        file("a", RawVersioning::unset()),
        file("z", RawVersioning::unset()),
    ]);
    assert_eq!(configs.all_scopes, vec!["", "a", "z", "b/c", "b/c/d"]);
    assert!(configs.versioned.is_empty());
}

#[test]
fn settings_are_inherited_and_own_ones_win() {
    let configs = load(vec![
        file("papers/2024", raw(None, Some("epoch"), None)),
        file("", raw(Some("id"), None, Some(0.25))),
        file("papers", raw(None, Some("rev"), None)),
        file("daily", raw(Some("day"), None, None)),
    ]);
    let scopes: Vec<&str> = configs.versioned.iter().map(|c| c.scope.as_str()).collect();
    assert_eq!(scopes, vec!["papers", "papers/2024"]);
    let papers = &configs.versioned[0].versioning;
    assert_eq!(papers.resource_key, "id");
    assert_eq!(papers.revision_key, "rev");
    assert_eq!(f32::from_bits(papers.revision_of_weight), 0.25);
    let deep = &configs.versioned[1].versioning;
    assert_eq!(deep.resource_key, "id");
    assert_eq!(deep.revision_key, "epoch");
}

#[test]
fn settings_skip_directories_without_a_file() {
    let configs = load(vec![
        file("a", raw(Some("id"), Some("rev"), None)),
        file("a/b/c", RawVersioning::unset()),
    ]);
    let scopes: Vec<&str> = configs.versioned.iter().map(|c| c.scope.as_str()).collect();
    assert_eq!(scopes, vec!["a", "a/b/c"]);
}

#[test]
fn of_two_files_for_one_directory_the_last_counts() {
    let configs = load(vec![
        file("a", raw(Some("id"), Some("rev"), None)),
        file("a", raw(None, Some("other"), None)),
    ]);
    assert_eq!(configs.all_scopes, vec!["a"]);
    assert!(configs.versioned.is_empty());
}

#[test]
fn config_of_a_namespace_is_the_deepest_above_it() {
    let configs = load(vec![
        file("", raw(Some("id"), Some("rev"), None)),
        file("papers", raw(None, None, Some(0.125))),
    ]);
    let at = |ns: &str| {
        versioning_for_namespace(ns, &configs.versioned).map(|c| c.scope.clone())
    };
    assert_eq!(at("papers"), Some("papers".to_owned()));
    assert_eq!(at("papers/2024"), Some("papers".to_owned()));
    assert_eq!(at("other"), Some("".to_owned()));
    assert!(versioning_for_namespace("x", &[]).is_none());
}

#[test]
fn no_configs() {
    let none = LoadedConfigs::empty();
    assert!(none.all_scopes.is_empty());
    assert!(none.versioned.is_empty());
}
