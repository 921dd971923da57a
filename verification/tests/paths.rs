use std::path::{Component, Path};

use herbalist::indexer::files_to_index;
use herbalist::paths::{
    dir_relative, extension_of, is_included, is_inside_vault, is_markdown, is_watched, joined_path,
    resolve_db, stem, vault_relative, walks_configs, walks_notes,
};

const PATHS: [&str; 26] = [
    "", "/", ".", "..", "./", "../", "a", "a/", "/a", "//a", "a//b", "a/./b", "a/.", "a/..",
    "a/b.md", "/vault/a.MD", "/vault//x/./y.Md/", ".md", "a/.md", "a.b.c", "a.", "..md", "...",
    "/vault/..", "./a/b", "x/../y.md",
];

#[test]
fn stems_and_extensions_are_those_of_std() {
    for p in PATHS {
        let path = Path::new(p);
        assert_eq!(
            stem(p),
            path.file_stem().map(|s| s.to_str().unwrap().to_owned()),
            "{p}"
        );
        assert_eq!(
            extension_of(p),
            path.extension().map(|s| s.to_str().unwrap().to_owned()),
            "{p}"
        );
    }
}

#[test]
fn joining_is_that_of_std() {
    for base in PATHS {
        for p in PATHS {
            assert_eq!(
                joined_path(base, p),
                Path::new(base).join(p).to_str().unwrap(),
                "{base} {p}"
            );
        }
    }
}

#[test]
fn relative_paths_are_those_of_std() {
    for vault in PATHS {
        for file in PATHS {
            let path = Path::new(file);
            let expected = path
                .strip_prefix(Path::new(vault))
                .unwrap_or(path)
                .to_str()
                .unwrap()
                .replace('\\', "/");
            assert_eq!(vault_relative(vault, file), expected, "{vault} {file}");
            assert_eq!(
                dir_relative(vault, file),
                expected.trim_end_matches('/'),
                "{vault} {file}"
            );
        }
    }
}

#[test]
fn vault_relative_paths() {
    assert_eq!(vault_relative("/vault", "/vault/a/b.md"), "a/b.md");
    assert_eq!(vault_relative("/vault/", "/vault/a/b.md"), "a/b.md");
    assert_eq!(vault_relative("/vault", "/vaulted/b.md"), "/vaulted/b.md");
    assert_eq!(vault_relative("/vault", "/vault/a\\b.md"), "a/b.md");
    assert_eq!(vault_relative("/vault", "/vault"), "");
}

#[test]
fn a_joined_path_is_relative_again() {
    for rel in ["a.md", "a/b.md", "x y/z.md"] {
        let file = joined_path("/vault", rel);
        assert_eq!(vault_relative("/vault", &file), rel);
    }
}

#[test]
fn markdown_files() {
    for p in ["a.md", "a.MD", "x/y.Md", "a.b.mD"] {
        assert!(is_markdown(p), "{p}");
    }
    for p in ["md", ".md", "a.mdx", "a.md/b", "a.txt", "", "a."] {
        assert!(!is_markdown(p), "{p}");
    }
    assert!(is_watched("a.md"));
    assert!(!is_watched("a.MD"));
    assert!(!is_watched("a.txt"));
}

#[test]
fn paths_inside_the_vault() {
    for p in PATHS {
        let path = Path::new(p);
        let inside =
            !path.is_absolute() && !path.components().any(|c| c == Component::ParentDir);
        assert_eq!(is_inside_vault(p), inside, "{p}");
    }
    assert!(!is_inside_vault("a/../../etc/passwd"));
    assert!(!is_inside_vault(".."));
    assert!(!is_inside_vault("/etc/passwd"));
    assert!(is_inside_vault("a/..b/c.md"));
}

#[test]
fn database_path() {
    assert_eq!(resolve_db("/vault", None), "/vault/.herbalist.db");
    assert_eq!(resolve_db("/vault", Some("x.db".to_owned())), "x.db");
}

#[test]
fn skipped_names() {
    for name in [".obsidian", ".git", ".herbalist.db"] {
        assert!(!walks_notes(name), "{name}");
    }
    for name in [".obsidian", ".git"] {
        assert!(!walks_configs(name), "{name}");
    }
    assert!(walks_configs(".herbalist.db"));
    for name in ["a.md", ".github", "git", ""] {
        assert!(walks_notes(name) && walks_configs(name), "{name}");
    }
}

#[test]
fn directories_to_index() {
    let dirs = vec!["a".to_owned(), "b/c/".to_owned()];
    assert!(is_included("/v", "/v/a/x.md", &dirs));
    assert!(is_included("/v", "/v/b/c/d/x.md", &dirs));
    assert!(!is_included("/v", "/v/b/x.md", &dirs));
    assert!(!is_included("/v", "/v/ab/x.md", &dirs));
    assert!(is_included("/v", "/v/b/x.md", &vec![]));
    let files: Vec<String> = ["/v/a/x.md", "/v/y.md", "/v/b/c/z.md"]
        .iter()
        .map(|s| s.to_string())
        .collect();
    assert_eq!(
        files_to_index("/v", &files, &dirs),
        vec!["/v/a/x.md", "/v/b/c/z.md"]
    );
    assert_eq!(files_to_index("/v", &files, &vec![]), files);
}
