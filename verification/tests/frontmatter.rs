use herbalist::indexer::frontmatter::{
    parse, split_frontmatter, yaml_value_to_string, YamlNode,
};

fn split(content: &str) -> (String, String) {
    let chars: Vec<char> = content.chars().collect();
    let (a, b) = split_frontmatter(&chars);
    (a.iter().collect(), b.iter().collect())
}

fn field(content: &str, key: &str) -> Option<String> {
    let (fm, _) = parse(content);
    fm.fields
        .iter()
        .find(|(k, _)| k == key)
        .map(|(_, v)| v.clone())
}

#[test]
fn test_parse_frontmatter() {
    let content = "---\ntitle: My Note\ntags:\n  - rust\n  - mcp\n---\n# Hello\nBody.";
    let (fm, body) = parse(content);
    assert_eq!(fm.tags, vec!["rust", "mcp"]);
    assert!(fm
        .fields
        .iter()
        .any(|(k, v)| k == "title" && v == "My Note"));
    assert!(body.contains("# Hello"));
}

#[test]
fn test_no_frontmatter() {
    let content = "# Just a note\nNo frontmatter here.";
    let (fm, body) = parse(content);
    assert!(fm.fields.is_empty());
    assert!(fm.tags.is_empty());
    assert!(body.contains("# Just a note"));
}

#[test]
fn splits_at_the_closing_line() {
    assert_eq!(
        split("---\na: 1\n---\nbody\n---\nmore"),
        ("a: 1\n".to_owned(), "body\n---\nmore".to_owned())
    );
    assert_eq!(
        split("---\r\na: 1\r\n---\r\nbody"),
        ("a: 1\r\n".to_owned(), "body".to_owned())
    );
    assert_eq!(
        split("---\na: 1\n...\nbody"),
        ("a: 1\n".to_owned(), "body".to_owned())
    );
    assert_eq!(split("---\na: 1\n---"), ("a: 1\n".to_owned(), "".to_owned()));
}

#[test]
fn the_first_closing_line_counts() {
    assert_eq!(
        split("---\na: 1\n...\nb: 2\n---\nbody"),
        ("a: 1\n".to_owned(), "b: 2\n---\nbody".to_owned())
    );
    assert_eq!(
        split("---\na: |\n  ---\n---\nbody"),
        ("a: |\n  ---\n".to_owned(), "body".to_owned())
    );
    // The whole first line is the opening.
    for opening in ["---", "--- ", "---- x", "---\r"] {
        assert_eq!(
            split(&format!("{}\na: 1\n---\nbody", opening)),
            ("a: 1\n".to_owned(), "body".to_owned())
        );
    }
    let content = "x\n---\na: 1\n---\n";
    assert_eq!(split(content), ("".to_owned(), content.to_owned()));
}

#[test]
fn byte_order_marks_are_stripped() {
    assert_eq!(
        split("\u{feff}---\na: 1\n---\nbody"),
        ("a: 1\n".to_owned(), "body".to_owned())
    );
    assert_eq!(
        split("\u{feff}\u{feff}plain"),
        ("".to_owned(), "plain".to_owned())
    );
}

#[test]
fn unclosed_frontmatter_is_body() {
    for content in ["---\na: 1\nbody", "---", "--- \nx", "----\nx", "---\na\n --- \n"] {
        assert_eq!(split(content), ("".to_owned(), content.to_owned()));
    }
}

#[test]
fn splitting_loses_nothing() {
    let content = "---\na: 1\nb: 2\n---\nbody";
    let (fm, body) = split(content);
    assert_eq!(format!("---\n{}---\n{}", fm, body), content);
}

#[test]
fn empty_frontmatter() {
    let (fm, body) = parse("---\n---\nbody");
    assert!(fm.fields.is_empty());
    assert!(fm.tags.is_empty());
    assert_eq!(body, "body");
}

#[test]
fn tags_as_text() {
    let (fm, _) = parse("---\ntags: '#rust, mcp ,, ##graph'\n---\n");
    assert_eq!(fm.tags, vec!["rust", "mcp", "graph"]);
    assert!(fm.fields.is_empty());
}

#[test]
fn tags_of_a_list_are_kept_as_they_are() {
    let (fm, _) = parse("---\ntags: ['#a', '', 3, true, null]\n---\n");
    assert_eq!(fm.tags, vec!["#a", "3", "true"]);
}

#[test]
fn other_tags_are_none() {
    let (fm, _) = parse("---\ntags: 7\n---\n");
    assert!(fm.tags.is_empty());
    assert!(fm.fields.is_empty());
}

#[test]
fn values_become_text() {
    let content = "---\ns: text\nb: true\ni: 42\nf: 1.5\nn: null\nl: [1, 2]\n7: seven\n---\n";
    assert_eq!(field(content, "s").as_deref(), Some("text"));
    assert_eq!(field(content, "b").as_deref(), Some("true"));
    assert_eq!(field(content, "i").as_deref(), Some("42"));
    assert_eq!(field(content, "f").as_deref(), Some("1.5"));
    assert_eq!(field(content, "n").as_deref(), Some(""));
    assert_eq!(field(content, "l").as_deref(), Some("- 1\n- 2"));
    assert_eq!(field(content, "7").as_deref(), Some("seven"));
}

#[test]
fn fields_keep_their_order() {
    let (fm, _) = parse("---\nz: 1\na: 2\ntags: x\nm: 3\n---\n");
    let keys: Vec<&str> = fm.fields.iter().map(|(k, _)| k.as_str()).collect();
    assert_eq!(keys, vec!["z", "a", "m"]);
    assert_eq!(fm.tags, vec!["x"]);
}

#[test]
fn malformed_frontmatter_is_skipped() {
    let (fm, body) = parse("---\na: [1\n---\nbody");
    assert!(fm.fields.is_empty());
    assert!(fm.tags.is_empty());
    assert_eq!(body, "body");
    let (fm, body) = parse("---\njust text\n---\nbody");
    assert!(fm.fields.is_empty());
    assert_eq!(body, "body");
}

#[test]
fn tagged_lists_are_no_tags() {
    let (fm, _) = parse("---\ntags: !list [a, b]\n---\n");
    assert!(fm.tags.is_empty());
}

#[test]
fn yaml_values_as_text() {
    let texts: Vec<String> = [
        YamlNode::Null,
        YamlNode::Bool(true),
        YamlNode::Number("1.5".to_owned()),
        YamlNode::Text(" a ".to_owned()),
        YamlNode::Block(Some("- a\n- b\n".to_owned())),
        YamlNode::Block(None),
    ]
    .iter()
    .map(yaml_value_to_string)
    .collect();
    assert_eq!(texts, vec!["", "true", "1.5", " a ", "- a\n- b", ""]);
}
