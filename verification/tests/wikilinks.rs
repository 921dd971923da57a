use herbalist::indexer::wikilinks::{build_name_map, extract_targets, resolve};
use regex::Regex;

fn strings(items: &[&str]) -> Vec<String> {
    items.iter().map(|s| s.to_string()).collect()
}

#[test]
fn test_extract() {
    let md = "See [[Alpha]] and [[Beta|display]] and [[Gamma#section]].";
    let targets = extract_targets(md);
    assert_eq!(targets, vec!["Alpha", "Beta", "Gamma"]);
}

#[test]
fn test_resolve() {
    let paths = vec![
        "/vault/Alpha.md".to_owned(),
        "/vault/sub/Beta.md".to_owned(),
    ];
    let map = build_name_map(&paths);
    assert_eq!(resolve("Alpha", &map), Some("/vault/Alpha.md".to_owned()));
    assert_eq!(resolve("beta", &map), Some("/vault/sub/Beta.md".to_owned()));
    assert_eq!(resolve("Missing", &map), None);
}

#[test]
fn targets_are_trimmed_and_not_empty() {
    assert_eq!(
        extract_targets("[[ Alpha ]] [[ ]] [[]] [[|x]] [[#x]] [[A#b|c]] [[A|b#c]]"),
        vec!["Alpha", "A", "A"]
    );
}

#[test]
fn broken_links_are_no_links() {
    for md in ["[[Alpha]", "[Alpha]]", "[[Al]pha]]", "[[Alpha|a]b]]", "[[", "]]", "[ [A]]"] {
        assert!(extract_targets(md).is_empty(), "{md}");
    }
    assert_eq!(extract_targets("[[[Alpha]]]"), vec!["[Alpha"]);
    assert_eq!(extract_targets("[[A\nB]]"), vec!["A\nB"]);
}

#[test]
fn links_stand_side_by_side() {
    assert_eq!(extract_targets("[[A]][[B]]x[[A]]"), vec!["A", "B", "A"]);
}

#[test]
fn targets_are_those_of_the_expression() {
    let re = Regex::new(r"\[\[([^\]|#]+)(?:[|#][^\]]*)?]]").unwrap();
    let letters = ['[', '[', '[', ']', ']', ']', '|', '#', 'a', 'é', ' ', '\n'];
    let mut state: u64 = 0x2545_f491_4f6c_dd1d;
    for _ in 0..20_000 {
        let mut s = String::new();
        for _ in 0..(state % 24) {
            state = state.wrapping_mul(6364136223846793005).wrapping_add(1442695040888963407);
            s.push(letters[((state >> 33) % letters.len() as u64) as usize]);
        }
        state = state.wrapping_mul(6364136223846793005).wrapping_add(1442695040888963407);
        let expected: Vec<String> = re
            .captures_iter(&s)
            .map(|cap| cap[1].trim().to_owned())
            .filter(|t| !t.is_empty())
            .collect();
        assert_eq!(extract_targets(&s), expected, "{:?}", s);
    }
}

#[test]
fn the_last_file_of_a_name_wins() {
    let map = build_name_map(&strings(&["a/Note.md", "b/note.md", "c/Other.md"]));
    assert_eq!(resolve("NOTE", &map), Some("b/note.md".to_owned()));
    assert_eq!(resolve("other", &map), Some("c/Other.md".to_owned()));
}

#[test]
fn folders_and_extensions_of_a_target_do_not_count() {
    let map = build_name_map(&strings(&["/vault/sub/Beta.md"]));
    let found = Some("/vault/sub/Beta.md".to_owned());
    assert_eq!(resolve("Folder/Beta", &map), found);
    assert_eq!(resolve("Beta.md", &map), found);
    assert_eq!(resolve("a/b/BETA.txt", &map), found);
    assert_eq!(resolve("Beta.v2.md", &map), None);
    assert_eq!(resolve("", &map), None);
    assert_eq!(resolve("..", &map), None);
}

#[test]
fn names_ignore_case_beyond_ascii() {
    let map = build_name_map(&strings(&["ÉTÉ.md", "ΟΔΟΣ.md"]));
    assert_eq!(resolve("été", &map), Some("ÉTÉ.md".to_owned()));
    // The final sigma of the lower case of the whole name.
    assert_eq!(resolve("οδος", &map), Some("ΟΔΟΣ.md".to_owned()));
}

#[test]
fn dots_belong_to_a_name() {
    let files = strings(&["/vault/Release v1.5.md", "/vault/Release v1.md", "/vault/2024.01.02.md"]);
    let map = build_name_map(&files);
    let found = Some("/vault/Release v1.5.md".to_owned());
    assert_eq!(resolve("Release v1.5", &map), found);
    assert_eq!(resolve("release V1.5", &map), found);
    assert_eq!(resolve("Notes/Release v1.5", &map), found);
    assert_eq!(resolve("Release v1.5.md", &map), found);
    assert_eq!(resolve("Release v1", &map), Some("/vault/Release v1.md".to_owned()));
    assert_eq!(resolve("Release v1.md", &map), Some("/vault/Release v1.md".to_owned()));
    assert_eq!(resolve("2024.01.02", &map), Some("/vault/2024.01.02.md".to_owned()));
    assert_eq!(resolve("2024.01", &map), None);
}

#[test]
fn names_in_another_case_resolve() {
    let map = build_name_map(&strings(&["/v/Straße über ΟΔΟΣ v2.0.md"]));
    let found = Some("/v/Straße über ΟΔΟΣ v2.0.md".to_owned());
    assert_eq!(resolve("Straße über ΟΔΟΣ v2.0", &map), found);
    assert_eq!(resolve("sTRAßE üBER ΟΔΟΣ V2.0", &map), found);
    assert_eq!(resolve("x/STRAßE ÜBER οδος V2.0", &map), found);
}

#[test]
fn every_listed_file_resolves_by_its_stem() {
    let files = strings(&["/v/One.md", "/v/x/Two.Three.md", "/v/.hidden"]);
    let map = build_name_map(&files);
    assert_eq!(resolve("one", &map).as_deref(), Some("/v/One.md"));
    for target in ["two.three", "two.three.md"] {
        assert_eq!(resolve(target, &map).as_deref(), Some("/v/x/Two.Three.md"));
    }
    assert_eq!(resolve(".hidden", &map).as_deref(), Some("/v/.hidden"));
}
