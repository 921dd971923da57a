//! The YAML frontmatter of a note: where it stands, its fields and its tags.
use serde_yaml::Value;
use serde_yaml::Value::{Mapping, Sequence, Tagged};
use vstd::prelude::*;

use crate::text;
use crate::text::{
    begins_with, chars_of, is_text, run_of, same_text, split_of, string_of, trimmed, trimmed_end,
    trimmed_start, CharClass,
};

verus! {

/// Parsed YAML frontmatter from a markdown file.
#[derive(Debug)]
pub struct Frontmatter {
    /// Raw key/value pairs (values serialized to string).
    pub fields: Vec<(String, String)>,
    /// Tags extracted from the `tags` field (list of strings).
    pub tags: Vec<String>,
}

/// What a [`Frontmatter`] holds.
pub struct FrontmatterModel {
    pub fields: Seq<(Seq<char>, Seq<char>)>,
    pub tags: Seq<Seq<char>>,
}

impl DeepView for Frontmatter {
    type V = FrontmatterModel;

    open spec fn deep_view(&self) -> FrontmatterModel {
        FrontmatterModel {
            fields: self.fields@.map_values(|f: (String, String)| (f.0@, f.1@)),
            tags: self.tags.deep_view(),
        }
    }
}

/// Frontmatter without fields and tags.
pub open spec fn no_frontmatter() -> FrontmatterModel {
    FrontmatterModel { fields: seq![], tags: seq![] }
}

impl Default for Frontmatter {
    fn default() -> (r: Self)
        ensures
            r.deep_view() == no_frontmatter(),
    {
        let r = Frontmatter { fields: Vec::new(), tags: Vec::new() };
        assert(r.deep_view().fields =~= no_frontmatter().fields);
        assert(r.deep_view().tags =~= no_frontmatter().tags);
        r
    }
}

// ── where the frontmatter stands ─────────────────────────────────────────────

/// Where the first line of `s` ends, its line feed included.
pub open spec fn line_end(s: Seq<char>) -> nat {
    let n = text::find(s, '\n');
    if n < s.len() {
        n + 1
    } else {
        s.len()
    }
}

/// Whether a line, with its line end, closes the frontmatter.
pub open spec fn closes(line: Seq<char>) -> bool {
    let l = text::trim_end_of(line, CharClass::LineEnd);
    l == "---"@ || l == "..."@
}

/// The place of the first line of `s` that closes the frontmatter: where it
/// starts and where it ends.
pub open spec fn closing_line(s: Seq<char>) -> Option<(nat, nat)>
    decreases s.len(),
    via closing_line_decreases
{
    let end = line_end(s);
    if s.len() == 0 {
        None
    } else if closes(s.take(end as int)) {
        Some((0nat, end))
    } else {
        match closing_line(s.skip(end as int)) {
            Some(p) => Some((p.0 + end, p.1 + end)),
            None => None,
        }
    }
}

#[via_fn]
proof fn closing_line_decreases(s: Seq<char>) {
    text::lemma_run(s, CharClass::Except('\n'));
}

/// A document without the byte order marks at its start.
pub open spec fn without_bom(content: Seq<char>) -> Seq<char> {
    text::trim_start_of(content, CharClass::Only('\u{feff}'))
}

/// A document taken apart into the text of its frontmatter and its body. The
/// frontmatter stands between an opening line that begins with `---` and the
/// first closing line; without either, the whole document is body.
pub open spec fn split_document(content: Seq<char>) -> (Seq<char>, Seq<char>) {
    let c = without_bom(content);
    let open = text::find(c, '\n');
    let rest = c.skip(open as int + 1);
    if text::starts_with(c, "---"@) && open < c.len() && closing_line(rest) is Some {
        let p = closing_line(rest)->0;
        (rest.take(p.0 as int), rest.skip(p.1 as int))
    } else {
        (seq![], c)
    }
}

proof fn lemma_closing_line(s: Seq<char>)
    ensures
        closing_line(s) matches Some(p) ==> p.0 < p.1 <= s.len() && closes(
            s.subrange(p.0 as int, p.1 as int),
        ),
    decreases s.len(),
{
    let end = line_end(s) as int;
    text::lemma_run(s, CharClass::Except('\n'));
    if s.len() > 0 {
        if closes(s.take(end)) {
            assert(s.subrange(0, end) =~= s.take(end));
        } else {
            let t = s.skip(end);
            lemma_closing_line(t);
            if closing_line(t) is Some {
                let p = closing_line(t)->0;
                assert(t.subrange(p.0 as int, p.1 as int) =~= s.subrange(p.0 + end, p.1 + end));
            }
        }
    }
}

/// Computes [`closing_line`].
fn find_closing_line(s: &[char]) -> (r: Option<(usize, usize)>)
    ensures
        match r {
            Some(p) => closing_line(s@) == Some((p.0 as nat, p.1 as nat)) && p.0 < p.1 <= s@.len(),
            None => closing_line(s@) is None,
        },
{
    let mut pos: usize = 0;
    assert(s@.skip(0) =~= s@);
    while pos < s.len()
        invariant
            pos <= s@.len(),
            match closing_line(s@.skip(pos as int)) {
                Some(p) => closing_line(s@) == Some((p.0 + pos as nat, p.1 + pos as nat)),
                None => closing_line(s@) is None,
            },
        decreases s@.len() - pos,
    {
        let rest: &[char] = &s[pos..s.len()];
        assert(rest@ =~= s@.skip(pos as int));
        let n: usize = run_of(rest, CharClass::Except('\n'));
        let end: usize = if n < rest.len() { n + 1 } else { rest.len() };
        let first: &[char] = &rest[0..end];
        assert(first@ =~= rest@.take(end as int));
        let line = trimmed_end(first, CharClass::LineEnd);
        if is_text(line, "---") || is_text(line, "...") {
            return Some((pos, pos + end));
        }
        assert(rest@.skip(end as int) =~= s@.skip(pos + end));
        pos = pos + end;
    }
    assert(s@.skip(pos as int).len() == 0);
    None
}

/// Takes a markdown document apart into frontmatter text and body.
///
/// Frontmatter is the content between the opening `---` and the closing `---`
/// (or `...`) on its own line. The frontmatter text is empty, and the body the
/// full content, if there is none.
pub fn split_frontmatter<'a>(content: &'a [char]) -> (r: (&'a [char], &'a [char]))
    ensures
        (r.0@, r.1@) == split_document(content@),
{
    let c = trimmed_start(content, CharClass::Only('\u{feff}'));
    let none: &'a [char] = &c[0..0];
    assert(none@ =~= Seq::<char>::empty());
    if !begins_with(c, "---") {
        return (none, c);
    }
    let open: usize = run_of(c, CharClass::Except('\n'));
    if open == c.len() {
        return (none, c);
    }
    let rest: &'a [char] = &c[open + 1..c.len()];
    assert(rest@ =~= c@.skip(open as int + 1));
    match find_closing_line(rest) {
        Some((start, end)) => {
            let fm: &'a [char] = &rest[0..start];
            let body: &'a [char] = &rest[end..rest.len()];
            assert(fm@ =~= rest@.take(start as int));
            assert(body@ =~= rest@.skip(end as int));
            (fm, body)
        },
        None => (none, c),
    }
}

// ── what YAML says ───────────────────────────────────────────────────────────

/// One YAML value, as far as frontmatter is concerned.
#[derive(Debug, Clone)]
pub enum YamlNode {
    Null,
    Bool(bool),
    /// A number, written out.
    Number(String),
    Text(String),
    /// A sequence, a mapping or a tagged value, serialized back to YAML; `None` if
    /// it cannot be.
    Block(Option<String>),
}

/// What a [`YamlNode`] holds.
pub enum YamlModel {
    Null,
    Bool(bool),
    Number(Seq<char>),
    Text(Seq<char>),
    Block(Option<Seq<char>>),
}

impl DeepView for YamlNode {
    type V = YamlModel;

    open spec fn deep_view(&self) -> YamlModel {
        match self {
            YamlNode::Null => YamlModel::Null,
            YamlNode::Bool(b) => YamlModel::Bool(*b),
            YamlNode::Number(s) => YamlModel::Number(s@),
            YamlNode::Text(s) => YamlModel::Text(s@),
            YamlNode::Block(s) => YamlModel::Block(s.deep_view()),
        }
    }
}

/// An entry of a YAML mapping.
#[derive(Debug, Clone)]
pub struct YamlEntry {
    pub key: YamlNode,
    pub value: YamlNode,
    /// The items of the value, if it is a sequence.
    pub items: Option<Vec<YamlNode>>,
}

/// What a [`YamlEntry`] holds.
pub struct YamlEntryModel {
    pub key: YamlModel,
    pub value: YamlModel,
    pub items: Option<Seq<YamlModel>>,
}

impl DeepView for YamlEntry {
    type V = YamlEntryModel;

    open spec fn deep_view(&self) -> YamlEntryModel {
        YamlEntryModel {
            key: self.key.deep_view(),
            value: self.value.deep_view(),
            items: self.items.deep_view(),
        }
    }
}

/// What `serde_yaml::from_str` reads out of a text: the entries of the mapping
/// that it is, in the order of the document, or `None` if it is malformed or no
/// mapping. Numbers are written with `serde_yaml::Number`'s `Display`, and values
/// that are no scalars with `serde_yaml::to_string`, `None` for one that it refuses.
pub uninterp spec fn yaml_mapping(source: Seq<char>) -> Option<Seq<YamlEntryModel>>;

/// Calls `serde_yaml::from_str` on the text, and `serde_yaml::to_string` on the
/// values in it that are no scalars. The result is named, not described.
#[verifier::external_body]
fn read_yaml_mapping(source: &str) -> (r: Option<Vec<YamlEntry>>)
    ensures
        r.deep_view() == yaml_mapping(source@),
{
    let Ok(Mapping(map)) = serde_yaml::from_str(source) else { return None; };
    let node = |v: &Value| match v {
        Value::Null => YamlNode::Null,
        Value::Bool(b) => YamlNode::Bool(*b),
        Value::Number(n) => YamlNode::Number(n.to_string()),
        Value::String(s) => YamlNode::Text(s.clone()),
        Sequence(_) | Mapping(_) | Tagged(_) => YamlNode::Block(serde_yaml::to_string(v).ok()),
    };
    Some(map.iter().map(|(k, v)| YamlEntry {
        key: node(k),
        value: node(v),
        items: match v { Sequence(s) => Some(s.iter().map(node).collect()), _ => None },
    }).collect())
}

// ── fields and tags ──────────────────────────────────────────────────────────

/// A YAML value as text.
pub open spec fn yaml_text(v: YamlModel) -> Seq<char> {
    match v {
        YamlModel::Null => seq![],
        YamlModel::Bool(b) => if b {
            "true"@
        } else {
            "false"@
        },
        YamlModel::Number(s) => s,
        YamlModel::Text(s) => s,
        YamlModel::Block(Some(s)) => text::trim(s),
        YamlModel::Block(None) => seq![],
    }
}

/// Those of the texts that are not empty.
pub open spec fn non_empty(s: Seq<Seq<char>>) -> Seq<Seq<char>> {
    s.filter(|t: Seq<char>| t.len() > 0)
}

/// The tag that a part of a comma-separated list stands for.
pub open spec fn listed_tag(part: Seq<char>) -> Seq<char> {
    text::trim_start_of(text::trim(part), CharClass::Only('#'))
}

/// The tags that the `tags` entry stands for: the items of a sequence, or the
/// parts of a comma-separated text without their `#`s; empty ones are left out.
pub open spec fn entry_tags(e: YamlEntryModel) -> Seq<Seq<char>> {
    match (e.items, e.value) {
        (Some(items), _) => non_empty(items.map_values(|v: YamlModel| yaml_text(v))),
        (None, YamlModel::Text(s)) => non_empty(
            text::split(s, ',').map_values(|p: Seq<char>| listed_tag(p)),
        ),
        _ => seq![],
    }
}

/// The frontmatter that the entries of a mapping make: the last `tags` entry
/// gives the tags, every other entry is a field.
pub open spec fn entries_frontmatter(entries: Seq<YamlEntryModel>) -> FrontmatterModel
    decreases entries.len(),
{
    if entries.len() == 0 {
        no_frontmatter()
    } else {
        let before = entries_frontmatter(entries.drop_last());
        let e = entries.last();
        if yaml_text(e.key) == "tags"@ {
            FrontmatterModel { fields: before.fields, tags: entry_tags(e) }
        } else {
            FrontmatterModel {
                fields: before.fields.push((yaml_text(e.key), yaml_text(e.value))),
                tags: before.tags,
            }
        }
    }
}

/// The frontmatter that a YAML text makes, given the mapping it was read as.
/// Malformed frontmatter has no fields and no tags.
pub open spec fn mapping_frontmatter(mapping: Option<Seq<YamlEntryModel>>) -> FrontmatterModel {
    match mapping {
        Some(entries) => entries_frontmatter(entries),
        None => no_frontmatter(),
    }
}

/// The frontmatter and the body of a document.
pub open spec fn parsed(content: Seq<char>) -> (FrontmatterModel, Seq<char>) {
    let (fm, body) = split_document(content);
    (
        if fm.len() == 0 {
            no_frontmatter()
        } else {
            mapping_frontmatter(yaml_mapping(fm))
        },
        body,
    )
}

/// A YAML value as text.
pub fn yaml_value_to_string(v: &YamlNode) -> (r: String)
    ensures
        r@ == yaml_text(v.deep_view()),
{
    match v {
        YamlNode::Null => {
            let r = String::new();
            assert(r@ =~= seq![]);
            r
        },
        YamlNode::Bool(b) => if *b {
            "true".to_owned()
        } else {
            "false".to_owned()
        },
        YamlNode::Number(s) => s.clone(),
        YamlNode::Text(s) => s.clone(),
        YamlNode::Block(Some(s)) => string_of(trimmed(chars_of(s.as_str()).as_slice())),
        YamlNode::Block(None) => {
            let r = String::new();
            assert(r@ =~= seq![]);
            r
        },
    }
}

/// Adds a text to the list unless it is empty.
fn push_non_empty(list: &mut Vec<String>, t: String, Ghost(seen): Ghost<Seq<Seq<char>>>)
    requires
        old(list).deep_view() == non_empty(seen),
    ensures
        final(list).deep_view() == non_empty(seen.push(t@)),
{
    let ghost before = list.deep_view();
    proof {
        reveal(Seq::filter);
        assert(seen.push(t@).drop_last() =~= seen);
    }
    if !t.as_str().is_empty() {
        list.push(t);
        assert(list.deep_view() =~= before.push(t@));
    }
}

/// The tags that the `tags` entry stands for.
pub fn extract_tags(e: &YamlEntry) -> (r: Vec<String>)
    ensures
        r.deep_view() == entry_tags(e.deep_view()),
{
    let mut tags: Vec<String> = Vec::new();
    proof {
        reveal(Seq::filter);
        assert(tags.deep_view() =~= non_empty(seq![]));
    }
    if let Some(items) = &e.items {
        let ghost all = items.deep_view().map_values(|v: YamlModel| yaml_text(v));
        assert(all.take(0) =~= seq![]);
        let mut i: usize = 0;
        while i < items.len()
            invariant
                i <= items@.len(),
                all == items.deep_view().map_values(|v: YamlModel| yaml_text(v)),
                tags.deep_view() == non_empty(all.take(i as int)),
            decreases items@.len() - i,
        {
            let t = yaml_value_to_string(&items[i]);
            push_non_empty(&mut tags, t, Ghost(all.take(i as int)));
            assert(all.take(i as int).push(t@) =~= all.take(i + 1));
            i = i + 1;
        }
        assert(all.take(i as int) =~= all);
        tags
    } else {
        match &e.value {
            YamlNode::Text(s) => {
                let chars = chars_of(s.as_str());
                let parts = split_of(chars.as_slice(), ',');
                let ghost all = text::split(s@, ',').map_values(|p: Seq<char>| listed_tag(p));
                assert(all.take(0) =~= seq![]);
                let mut i: usize = 0;
                while i < parts.len()
                    invariant
                        i <= parts@.len(),
                        text::rows(parts@) == text::split(s@, ','),
                        all == text::split(s@, ',').map_values(|p: Seq<char>| listed_tag(p)),
                        tags.deep_view() == non_empty(all.take(i as int)),
                    decreases parts@.len() - i,
                {
                    let part: &[char] = parts[i];
                    assert(part@ == text::rows(parts@)[i as int]);
                    let t = string_of(trimmed_start(trimmed(part), CharClass::Only('#')));
                    push_non_empty(&mut tags, t, Ghost(all.take(i as int)));
                    assert(all.take(i as int).push(t@) =~= all.take(i + 1));
                    i = i + 1;
                }
                assert(text::rows(parts@).len() == parts@.len());
                assert(all.take(i as int) =~= all);
                tags
            },
            _ => {
                assert(tags.deep_view() =~= seq![]);
                tags
            },
        }
    }
}

/// The frontmatter that the entries of a mapping make; `None` stands for text
/// that was no mapping.
pub fn frontmatter_of(mapping: Option<Vec<YamlEntry>>) -> (fm: Frontmatter)
    ensures
        fm.deep_view() == mapping_frontmatter(mapping.deep_view()),
{
    let mut fm = Frontmatter::default();
    if let Some(entries) = mapping {
        let ghost all = entries.deep_view();
        let mut i: usize = 0;
        while i < entries.len()
            invariant
                i <= entries@.len(),
                all == entries.deep_view(),
                fm.deep_view() == entries_frontmatter(all.take(i as int)),
            decreases entries@.len() - i,
        {
            let e = &entries[i];
            let ghost before = fm.deep_view();
            proof {
                assert(all.take(i + 1).drop_last() =~= all.take(i as int));
                assert(all.take(i + 1).last() == e.deep_view());
            }
            let key = yaml_value_to_string(&e.key);
            if same_text(key.as_str(), "tags") {
                let tags = extract_tags(e);
                fm.tags = tags;
                assert(fm.deep_view().fields =~= before.fields);
            } else {
                let value = yaml_value_to_string(&e.value);
                fm.fields.push((key, value));
                assert(fm.deep_view().fields =~= before.fields.push((key@, value@)));
                assert(fm.deep_view().tags =~= before.tags);
            }
            i = i + 1;
        }
        assert(all.take(i as int) =~= all);
    }
    fm
}

/// Parses a markdown document into its frontmatter and its body.
pub fn parse(content: &str) -> (r: (Frontmatter, String))
    ensures
        (r.0.deep_view(), r.1@) == parsed(content@),
{
    let chars = chars_of(content);
    let (fm_text, body) = split_frontmatter(chars.as_slice());
    let body = string_of(body);
    if fm_text.len() == 0 {
        return (Frontmatter::default(), body);
    }
    let mapping = read_yaml_mapping(string_of(fm_text).as_str());
    (frontmatter_of(mapping), body)
}

// ── laws ─────────────────────────────────────────────────────────────────────

/// Whether a document begins with frontmatter.
pub open spec fn has_frontmatter(content: Seq<char>) -> bool {
    let c = without_bom(content);
    let open = text::find(c, '\n');
    text::starts_with(c, "---"@) && open < c.len() && closing_line(c.skip(open as int + 1)) is Some
}

/// Whether a text is a single line: a line feed stands at its end or nowhere.
pub open spec fn single_line(s: Seq<char>) -> bool {
    s.len() > 0 && s.len() - 1 <= text::find(s, '\n')
}

proof fn lemma_first_closing_line(s: Seq<char>)
    ensures
        closing_line(s) matches Some(p) ==> {
            let before = s.take(p.0 as int);
            &&& before.len() == 0 || before.last() == '\n'
            &&& closing_line(before) is None
            &&& single_line(s.subrange(p.0 as int, p.1 as int))
        },
    decreases s.len(),
{
    let k = CharClass::Except('\n');
    let end = line_end(s) as int;
    text::lemma_run(s, k);
    lemma_closing_line(s);
    if s.len() > 0 {
        if closes(s.take(end)) {
            assert(s.take(0) =~= seq![]);
            let l = s.subrange(0, end);
            let n = text::find(s, '\n');
            assert forall|i: int| 0 <= i < n implies k.has(#[trigger] l[i]) by {
                assert(l[i] == s[i]);
            }
            if n < l.len() {
                assert(l[n as int] == s[n as int]);
            }
            text::lemma_run_is(l, k, n);
        } else {
            let t = s.skip(end);
            lemma_first_closing_line(t);
            lemma_closing_line(t);
            if closing_line(t) is Some {
                let p = closing_line(t)->0;
                let before = s.take(p.0 + end);
                let n = text::find(s, '\n');
                assert(end == n + 1);
                assert forall|i: int| 0 <= i < n implies k.has(#[trigger] before[i]) by {
                    assert(before[i] == s[i]);
                }
                assert(before[n as int] == s[n as int]);
                text::lemma_run_is(before, k, n);
                assert(before.take(end) =~= s.take(end));
                assert(before.skip(end) =~= t.take(p.0 as int));
                if p.0 > 0 {
                    assert(before.last() == t.take(p.0 as int).last());
                } else {
                    assert(before.last() == s[n as int]);
                }
                assert(t.subrange(p.0 as int, p.1 as int) =~= s.subrange(p.0 + end, p.1 + end));
            }
        }
    }
}

/// Taking a document apart loses nothing. With frontmatter, the document is its
/// first line, which begins with `---`, the frontmatter, a closing line, and the
/// body. The closing line is the first that closes: the frontmatter is whole lines,
/// and none of them does. Without frontmatter, the document is the body.
pub proof fn law_split_frontmatter(content: Seq<char>)
    ensures
        has_frontmatter(content) ==> exists|opening: Seq<char>, closing: Seq<char>|
            #![trigger opening + split_document(content).0 + closing]
            {
                let fm = split_document(content).0;
                &&& text::starts_with(opening, "---"@)
                &&& text::find(opening, '\n') == opening.len() - 1
                &&& fm.len() == 0 || fm.last() == '\n'
                &&& closing_line(fm) is None
                &&& single_line(closing)
                &&& closes(closing)
                &&& without_bom(content) == opening + fm + closing + split_document(content).1
            },
        !has_frontmatter(content) ==> split_document(content) == (
            Seq::<char>::empty(),
            without_bom(content),
        ),
{
    let k = CharClass::Except('\n');
    let c = without_bom(content);
    let open = text::find(c, '\n') as int;
    text::lemma_run(c, k);
    if has_frontmatter(content) {
        let rest = c.skip(open + 1);
        lemma_closing_line(rest);
        lemma_first_closing_line(rest);
        let p = closing_line(rest)->0;
        let opening = c.take(open + 1);
        let closing = rest.subrange(p.0 as int, p.1 as int);
        let fm = split_document(content).0;
        let body = split_document(content).1;
        assert(c =~= opening + fm + closing + body);
        reveal_strlit("---");
        assert(open >= 3) by {
            assert(c.take(3)[0] == '-' && c.take(3)[1] == '-' && c.take(3)[2] == '-');
            assert(c[0] == '-' && c[1] == '-' && c[2] == '-');
            if open < 3 {
                assert(!k.has(c[open]));
            }
        }
        assert(opening.take(3) =~= c.take(3));
        assert forall|i: int| 0 <= i < open implies k.has(#[trigger] opening[i]) by {
            assert(opening[i] == c[i]);
        }
        assert(opening[open] == c[open]);
        text::lemma_run_is(opening, k, open as nat);
        assert(opening + fm + closing == opening + fm + closing);
    } else {
        assert(split_document(content).0 =~= Seq::<char>::empty());
    }
}

/// A document that does not begin with `---` is all body, and has no fields and
/// no tags.
pub proof fn law_no_frontmatter(content: Seq<char>)
    requires
        !text::starts_with(without_bom(content), "---"@),
    ensures
        parsed(content) == (no_frontmatter(), without_bom(content)),
{
}

/// Lines put together, each with a line feed behind it.
pub open spec fn whole(ls: Seq<Seq<char>>) -> Seq<char>
    decreases ls.len(),
{
    if ls.len() == 0 {
        seq![]
    } else {
        ls[0] + seq!['\n'] + whole(ls.drop_first())
    }
}

/// Whether a text is `---` or `...`, with any number of carriage returns behind it.
pub open spec fn delimits(l: Seq<char>) -> bool {
    &&& l.len() >= 3
    &&& forall|i: int| 3 <= i < l.len() ==> #[trigger] l[i] == '\r'
    &&& l.take(3) == seq!['-', '-', '-'] || l.take(3) == seq!['.', '.', '.']
}

/// Whether a text is a line without its line feed that does not delimit.
pub open spec fn inner_line(l: Seq<char>) -> bool {
    !l.contains('\n') && !delimits(l)
}

proof fn lemma_closes(l: Seq<char>)
    requires
        !l.contains('\n'),
    ensures
        closes(l) <==> delimits(l),
        closes(l + seq!['\n']) <==> delimits(l),
{
    reveal_strlit("---");
    reveal_strlit("...");
    assert("---"@ =~= seq!['-', '-', '-']);
    assert("..."@ =~= seq!['.', '.', '.']);
    let k = CharClass::LineEnd;
    let n = l.len() - text::tail_run(l, k);
    text::lemma_tail_run(l, k);
    let m = l.take(n);
    let b = l.skip(n);
    let e = b + seq!['\n'];
    assert(l =~= m + b);
    assert(l + seq!['\n'] =~= m + e);
    assert forall|i: int| 0 <= i < b.len() implies k.has(#[trigger] b[i]) && b[i] == '\r' by {
        assert(k.has(l[n + i]));
        assert(l.contains(l[n + i]));
    }
    assert forall|i: int| 0 <= i < e.len() implies k.has(#[trigger] e[i]) by {
        if i < b.len() {
            assert(k.has(b[i]));
        }
    }
    if m.len() > 0 {
        assert(m.last() == l[n - 1]);
    }
    text::law_trim_end(m, b, k);
    text::law_trim_end(m, e, k);
    if m == "---"@ || m == "..."@ {
        assert(l.take(3) =~= m);
        assert forall|i: int| 3 <= i < l.len() implies #[trigger] l[i] == '\r' by {
            assert(l[i] == b[i - 3]);
        }
    }
    if delimits(l) {
        assert(l.take(3)[2] == l[2]);
        assert(!k.has(l[2]));
        if n < 3 {
            assert(k.has(l[2]));
        }
        if n > 3 {
            assert(l[n - 1] == '\r');
        }
        assert(m =~= l.take(3));
    }
}

proof fn lemma_line_end(l: Seq<char>, rest: Seq<char>)
    requires
        !l.contains('\n'),
    ensures
        line_end(l + seq!['\n'] + rest) == l.len() + 1,
        (l + seq!['\n'] + rest).take(l.len() as int + 1) == l + seq!['\n'],
        (l + seq!['\n'] + rest).skip(l.len() as int + 1) == rest,
        line_end(l) == l.len(),
{
    let k = CharClass::Except('\n');
    let s = l + seq!['\n'] + rest;
    assert forall|i: int| 0 <= i < l.len() implies k.has(#[trigger] s[i]) by {
        assert(l.contains(l[i]));
    }
    assert(s[l.len() as int] == '\n');
    text::lemma_run_is(s, k, l.len());
    assert forall|i: int| 0 <= i < l.len() implies k.has(#[trigger] l[i]) by {
        assert(l.contains(l[i]));
    }
    text::lemma_run_is(l, k, l.len());
    assert(s.take(l.len() as int + 1) =~= l + seq!['\n']);
    assert(s.skip(l.len() as int + 1) =~= rest);
}

proof fn lemma_whole_closing(ls: Seq<Seq<char>>, closing: Seq<char>, body: Seq<char>)
    requires
        forall|i: int| 0 <= i < ls.len() ==> inner_line(#[trigger] ls[i]),
        !closing.contains('\n'),
    ensures
        delimits(closing) ==> closing_line(whole(ls) + (closing + seq!['\n'] + body)) == Some(
            (whole(ls).len(), whole(ls).len() + closing.len() + 1),
        ),
        delimits(closing) ==> closing_line(whole(ls) + closing) == Some(
            (whole(ls).len(), whole(ls).len() + closing.len()),
        ),
        !delimits(closing) ==> closing_line(whole(ls) + closing) is None,
    decreases ls.len(),
{
    let c1 = closing + seq!['\n'] + body;
    lemma_closes(closing);
    if ls.len() == 0 {
        assert(whole(ls) + c1 =~= c1);
        assert(whole(ls) + closing =~= closing);
        lemma_line_end(closing, body);
        assert(closing.take(closing.len() as int) =~= closing);
        assert(closing.skip(closing.len() as int) =~= seq![]);
        if c1.len() > 0 && delimits(closing) {
            assert(closes(c1.take(line_end(c1) as int)));
        }
        assert(closing_line(seq![]) is None);
    } else {
        let l = ls[0];
        let less = ls.drop_first();
        assert forall|i: int| 0 <= i < less.len() implies inner_line(#[trigger] less[i]) by {
            assert(less[i] == ls[i + 1]);
        }
        lemma_whole_closing(less, closing, body);
        lemma_closes(l);
        let r1 = whole(less) + c1;
        let r2 = whole(less) + closing;
        lemma_line_end(l, r1);
        lemma_line_end(l, r2);
        assert(whole(ls) + c1 =~= l + seq!['\n'] + r1);
        assert(whole(ls) + closing =~= l + seq!['\n'] + r2);
    }
}

proof fn lemma_opening(marks: Seq<char>, x: Seq<char>, rest: Seq<char>)
    requires
        forall|i: int| 0 <= i < marks.len() ==> #[trigger] marks[i] == '\u{feff}',
        !x.contains('\n'),
    ensures
        ({
            let c = seq!['-', '-', '-'] + x + seq!['\n'] + rest;
            &&& without_bom(marks + c) == c
            &&& text::starts_with(c, "---"@)
            &&& text::find(c, '\n') == 3 + x.len()
            &&& c.skip(4 + x.len() as int) == rest
        }),
{
    reveal_strlit("---");
    let d = seq!['-', '-', '-'];
    assert("---"@ =~= d);
    let c = d + x + seq!['\n'] + rest;
    assert forall|i: int| 0 <= i < marks.len() implies CharClass::Only('\u{feff}').has(
        #[trigger] marks[i],
    ) by {}
    assert(c[0] == '-');
    text::law_trim_start(marks, c, CharClass::Only('\u{feff}'));
    assert(c.take(3) =~= d);
    let k = CharClass::Except('\n');
    let n = 3 + x.len() as int;
    assert forall|i: int| 0 <= i < n implies k.has(#[trigger] c[i]) by {
        if i >= 3 {
            assert(x.contains(x[i - 3]));
        }
    }
    assert(c[n] == '\n');
    text::lemma_run_is(c, k, n as nat);
    assert(c.skip(n + 1) =~= rest);
}

/// A document whose first line begins with `---` has the lines behind it for its
/// frontmatter, up to the first line that is `---` or `...`; the body is what
/// follows that line. Byte order marks before it do not count, nor does the rest of
/// the first line. Without such a line, all is body.
pub proof fn law_document_parts(
    marks: Seq<char>,
    x: Seq<char>,
    ls: Seq<Seq<char>>,
    closing: Seq<char>,
    body: Seq<char>,
)
    requires
        forall|i: int| 0 <= i < marks.len() ==> #[trigger] marks[i] == '\u{feff}',
        !x.contains('\n'),
        forall|i: int| 0 <= i < ls.len() ==> inner_line(#[trigger] ls[i]),
        !closing.contains('\n'),
    ensures
        delimits(closing) ==> split_document(
            marks + (seq!['-', '-', '-'] + x + seq!['\n'] + (whole(ls) + (closing + seq!['\n']
                + body))),
        ) == (whole(ls), body),
        delimits(closing) ==> split_document(
            marks + (seq!['-', '-', '-'] + x + seq!['\n'] + (whole(ls) + closing)),
        ) == (whole(ls), Seq::<char>::empty()),
        !delimits(closing) ==> split_document(
            marks + (seq!['-', '-', '-'] + x + seq!['\n'] + (whole(ls) + closing)),
        ) == (
            Seq::<char>::empty(),
            seq!['-', '-', '-'] + x + seq!['\n'] + (whole(ls) + closing),
        ),
{
    let r1 = whole(ls) + (closing + seq!['\n'] + body);
    let r2 = whole(ls) + closing;
    lemma_opening(marks, x, r1);
    lemma_opening(marks, x, r2);
    lemma_whole_closing(ls, closing, body);
    let n = whole(ls).len() as int;
    assert(r1.take(n) =~= whole(ls));
    assert(r1.skip(n + closing.len() + 1) =~= body);
    assert(r2.take(n) =~= whole(ls));
    assert(r2.skip(n + closing.len()) =~= Seq::<char>::empty());
}

/// A document that does not begin with `---`, or has no second line, is all body,
/// without the byte order marks before it.
pub proof fn law_document_without_frontmatter(marks: Seq<char>, c: Seq<char>)
    requires
        forall|i: int| 0 <= i < marks.len() ==> #[trigger] marks[i] == '\u{feff}',
        c.len() > 0 ==> c[0] != '\u{feff}',
        !(c.len() >= 3 && c.take(3) == seq!['-', '-', '-']) || !c.contains('\n'),
    ensures
        split_document(marks + c) == (Seq::<char>::empty(), c),
{
    reveal_strlit("---");
    assert("---"@ =~= seq!['-', '-', '-']);
    assert forall|i: int| 0 <= i < marks.len() implies CharClass::Only('\u{feff}').has(
        #[trigger] marks[i],
    ) by {}
    text::law_trim_start(marks, c, CharClass::Only('\u{feff}'));
    if !c.contains('\n') {
        lemma_line_end(c, seq![]);
        text::lemma_run(c, CharClass::Except('\n'));
        if text::find(c, '\n') < c.len() {
            assert(c.contains(c[text::find(c, '\n') as int]));
        }
    }
}

/// A document has the body that taking it apart gives; its fields and tags are those
/// of the mapping that its frontmatter is read as, and it has none without
/// frontmatter or where that is no mapping.
pub proof fn law_parsed(content: Seq<char>)
    ensures
        parsed(content).1 == split_document(content).1,
        split_document(content).0.len() == 0 || yaml_mapping(split_document(content).0) is None
            ==> parsed(content).0.fields.len() == 0 && parsed(content).0.tags.len() == 0,
        split_document(content).0.len() > 0 ==> (yaml_mapping(split_document(content).0)
            matches Some(entries) ==> parsed(content).0 == entries_frontmatter(entries)),
{
}

/// What a value is written as: scalars as they stand, nothing for the empty value,
/// and anything else as YAML, without white space around it.
pub proof fn law_yaml_text(s: Seq<char>)
    ensures
        yaml_text(YamlModel::Null).len() == 0,
        yaml_text(YamlModel::Bool(true)) == seq!['t', 'r', 'u', 'e'],
        yaml_text(YamlModel::Bool(false)) == seq!['f', 'a', 'l', 's', 'e'],
        yaml_text(YamlModel::Bool(true)) != yaml_text(YamlModel::Bool(false)),
        yaml_text(YamlModel::Number(s)) == s,
        yaml_text(YamlModel::Text(s)) == s,
        yaml_text(YamlModel::Block(Some(s))) == text::trim(s),
        yaml_text(YamlModel::Block(None)).len() == 0,
{
    reveal_strlit("true");
    reveal_strlit("false");
    assert("true"@ =~= seq!['t', 'r', 'u', 'e']);
    assert("false"@ =~= seq!['f', 'a', 'l', 's', 'e']);
}

/// One entry more: an entry under `tags` gives the tags and no field; any other is
/// a field behind the others, with its key and its value as they are written.
pub proof fn law_one_more_entry(entries: Seq<YamlEntryModel>, e: YamlEntryModel)
    ensures
        entries_frontmatter(Seq::<YamlEntryModel>::empty()).fields.len() == 0,
        entries_frontmatter(Seq::<YamlEntryModel>::empty()).tags.len() == 0,
        ({
            let a = entries_frontmatter(entries);
            let b = entries_frontmatter(entries.push(e));
            if yaml_text(e.key) == seq!['t', 'a', 'g', 's'] {
                b.fields == a.fields && b.tags == entry_tags(e)
            } else {
                b.fields == a.fields.push((yaml_text(e.key), yaml_text(e.value))) && b.tags == a.tags
            }
        }),
{
    reveal_strlit("tags");
    assert("tags"@ =~= seq!['t', 'a', 'g', 's']);
    assert(entries.push(e).drop_last() =~= entries);
}

spec fn filled() -> spec_fn(Seq<char>) -> bool {
    |t: Seq<char>| t.len() > 0
}

proof fn lemma_non_empty(s: Seq<Seq<char>>, t: Seq<char>)
    ensures
        non_empty(Seq::<Seq<char>>::empty()) == Seq::<Seq<char>>::empty(),
        non_empty(s.push(t)) == if t.len() > 0 {
            non_empty(s).push(t)
        } else {
            non_empty(s)
        },
        non_empty(seq![t] + s) == (if t.len() > 0 {
            seq![t]
        } else {
            seq![]
        }) + non_empty(s),
{
    reveal(Seq::filter);
    assert((|t: Seq<char>| t.len() > 0) =~= filled());
    assert(s.push(t).drop_last() =~= s);
    let one = seq![t];
    Seq::filter_distributes_over_add(one, s, filled());
    assert(one.drop_last() =~= seq![]);
    assert(one.last() == t);
    assert(Seq::<Seq<char>>::empty().filter(filled()) =~= seq![]);
    assert(one.filter(filled()) =~= if t.len() > 0 {
        seq![t]
    } else {
        seq![]
    });
}

/// The tags of a sequence are its items as they are written, in their order, but
/// for the empty ones.
pub proof fn law_tags_of_sequence(
    key: YamlModel,
    value: YamlModel,
    items: Seq<YamlModel>,
    item: YamlModel,
)
    ensures
        entry_tags(YamlEntryModel { key, value, items: Some(seq![]) }).len() == 0,
        entry_tags(YamlEntryModel { key, value, items: Some(items.push(item)) }) == if yaml_text(
            item,
        ).len() > 0 {
            entry_tags(YamlEntryModel { key, value, items: Some(items) }).push(yaml_text(item))
        } else {
            entry_tags(YamlEntryModel { key, value, items: Some(items) })
        },
{
    let f = |v: YamlModel| yaml_text(v);
    assert(items.push(item).map_values(f) =~= items.map_values(f).push(yaml_text(item)));
    lemma_non_empty(items.map_values(f), yaml_text(item));
    assert(Seq::<YamlModel>::empty().map_values(f) =~= seq![]);
}

/// The tags of a text are the parts between its commas, without the white space
/// around them and then without the `#`s before them, but for the empty ones. A
/// value that is neither a sequence nor a text has no tags.
pub proof fn law_tags_of_text(
    key: YamlModel,
    x: Seq<char>,
    hashes: Seq<char>,
    tag: Seq<char>,
    y: Seq<char>,
    rest: Seq<char>,
    other: YamlModel,
)
    requires
        text::blank(x),
        forall|i: int| 0 <= i < hashes.len() ==> #[trigger] hashes[i] == '#',
        tag.len() > 0 ==> tag[0] != '#',
        !tag.contains(','),
        text::tight(hashes + tag),
        text::blank(y),
        !(other is Text),
    ensures
        ({
            let part = x + (hashes + tag) + y;
            let found = if tag.len() > 0 {
                seq![tag]
            } else {
                seq![]
            };
            &&& entry_tags(YamlEntryModel { key, value: YamlModel::Text(part), items: None })
                == found
            &&& entry_tags(
                YamlEntryModel {
                    key,
                    value: YamlModel::Text(part + seq![','] + rest),
                    items: None,
                },
            ) == found + entry_tags(
                YamlEntryModel { key, value: YamlModel::Text(rest), items: None },
            )
        }),
        entry_tags(YamlEntryModel { key, value: other, items: None }).len() == 0,
{
    let part = x + (hashes + tag) + y;
    let k = CharClass::Only('#');
    assert(!part.contains(',')) by {
        assert forall|i: int| 0 <= i < part.len() implies part[i] != ',' by {
            if i < x.len() {
                assert(text::is_white(x[i]));
            } else if i < x.len() + hashes.len() {
                assert(hashes[i - x.len()] == '#');
            } else if i < x.len() + hashes.len() + tag.len() {
                assert(tag.contains(tag[i - x.len() - hashes.len()]));
            } else {
                assert(text::is_white(y[i - x.len() - hashes.len() - tag.len()]));
            }
        }
    }
    text::law_trim(x, hashes + tag, y);
    assert forall|i: int| 0 <= i < hashes.len() implies k.has(#[trigger] hashes[i]) by {}
    text::law_trim_start(hashes, tag, k);
    assert(listed_tag(part) == tag);
    text::law_split(part, rest, ',');
    let f = |p: Seq<char>| listed_tag(p);
    let none = Seq::<Seq<char>>::empty();
    assert(seq![part].map_values(f) =~= seq![tag] + none);
    assert((seq![part] + text::split(rest, ',')).map_values(f) =~= seq![tag] + text::split(
        rest,
        ',',
    ).map_values(f));
    lemma_non_empty(none, tag);
    lemma_non_empty(text::split(rest, ',').map_values(f), tag);
    let found: Seq<Seq<char>> = if tag.len() > 0 {
        seq![tag]
    } else {
        seq![]
    };
    assert(found + none =~= found);
}

} // verus!
