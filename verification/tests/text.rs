use herbalist::indexer::tags::extract_inline_tags;
use herbalist::text::{
    alphanumeric, chars_of, lines_of, lowered, replaced, split_of, string_of, tag_char, trimmed,
    white, words_of,
};

fn chars(s: &str) -> Vec<char> {
    s.chars().collect()
}

fn texts(parts: Vec<&[char]>) -> Vec<String> {
    parts.into_iter().map(|p| p.iter().collect()).collect()
}

const SAMPLES: [&str; 12] = [
    "",
    " ",
    "\n",
    "\r\n",
    "a",
    "a\nb\r\nc\r",
    "\n\na b  c\t\n",
    "  \u{a0}x\u{2003}y\u{85} ",
    "a,b,,c,",
    ",",
    "\r\r\n\r",
    "é\u{feff} ß\u{3000}",
];

#[test]
fn white_space_is_that_of_unicode() {
    for c in '\u{0}'..=char::MAX {
        assert_eq!(white(c), c.is_whitespace(), "{:?}", c);
    }
}

#[test]
fn alphanumeric_characters_are_those_of_unicode() {
    for c in '\u{0}'..=char::MAX {
        assert_eq!(alphanumeric(c), c.is_alphanumeric(), "{:?}", c);
    }
    assert!(alphanumeric('é'));
    assert!(!alphanumeric('-'));
    assert!(tag_char('-') && tag_char('_') && tag_char('٣') && !tag_char('/'));
}

#[test]
fn lower_case_is_that_of_std() {
    for s in [
        "", "ABC", "aÉ", "ΟΔΟΣ", "İ", "ẞ", "MiXeD 123", "AΣ", "Σ A", "AΣ'B", "aΣ. B", "ΣA", "ÉI",
    ] {
        assert_eq!(lowered(s), s.to_lowercase());
    }
    assert_eq!(lowered("ÀB"), "àb");
}

#[test]
fn texts_and_characters() {
    for s in SAMPLES {
        assert_eq!(chars_of(s), chars(s));
        assert_eq!(string_of(&chars(s)), s);
    }
}

#[test]
fn lines_are_those_of_std() {
    for s in SAMPLES {
        let expected: Vec<String> = s.lines().map(|l| l.to_owned()).collect();
        assert_eq!(texts(lines_of(&chars(s))), expected, "{:?}", s);
    }
}

#[test]
fn words_are_those_of_std() {
    for s in SAMPLES {
        let expected: Vec<String> = s.split_whitespace().map(|l| l.to_owned()).collect();
        assert_eq!(texts(words_of(&chars(s))), expected, "{:?}", s);
    }
}

#[test]
fn parts_are_those_of_std() {
    for s in SAMPLES {
        let expected: Vec<String> = s.split(',').map(|l| l.to_owned()).collect();
        assert_eq!(texts(split_of(&chars(s), ',')), expected, "{:?}", s);
    }
}

#[test]
fn trimming_is_that_of_std() {
    for s in SAMPLES {
        let t: String = trimmed(&chars(s)).iter().collect();
        assert_eq!(t, s.trim(), "{:?}", s);
    }
}

#[test]
fn replacing_characters() {
    let r: String = replaced(&chars("a\\b\\\\c"), '\\', '/').iter().collect();
    assert_eq!(r, "a/b//c");
}

#[test]
fn inline_tags() {
    assert_eq!(
        extract_inline_tags("#one text #two-three, (#no) #four_5. ##six a#seven"),
        vec!["one", "two-three", "four_5", "six"]
    );
    assert_eq!(extract_inline_tags("# heading #é"), vec!["é"]);
    assert!(extract_inline_tags("# ## #! #a/b #a.b").is_empty());
}

#[test]
fn inline_tags_outside_code_only() {
    let body = "#a\n```c\n#include\n#b\n```\n#c\n  ~~~\n#d\n~~~~\n#e\n```\n#f";
    assert_eq!(extract_inline_tags(body), vec!["a", "c", "e"]);
}

#[test]
fn code_blocks_between_texts_have_no_tags() {
    let (first, second) = ("#a text\n#b\n", "#c\nmore #d");
    for (opening, closing) in [("```\n", "```\n"), ("  ~~~rust\n", "```\n"), ("````\n", "~~~\n")] {
        for code in ["", "#x\n", "#x\n\n # y\n#z"] {
            let code = if code.is_empty() || code.ends_with('\n') {
                code.to_owned()
            } else {
                format!("{}\n", code)
            };
            let body = format!("{}{}{}{}{}", first, opening, code, closing, second);
            assert_eq!(extract_inline_tags(&body), vec!["a", "b", "c", "d"], "{:?}", body);
        }
    }
}

#[test]
fn inline_tags_hold_tag_characters_only() {
    let body = "#a-b_c #x! #y?? #z#w #(q) #тег #1";
    for t in extract_inline_tags(body) {
        assert!(!t.is_empty());
        assert!(t.chars().all(|c| c.is_alphanumeric() || c == '-' || c == '_'));
    }
    assert_eq!(extract_inline_tags(body), vec!["a-b_c", "x", "y", "тег", "1"]);
}
