//! `[[wikilink]]` targets: finding them in a note, and the files they lead to.
use vstd::hash_map::StringHashMap;
use vstd::prelude::*;

use crate::paths;
use crate::text;
use crate::text::{begins_with, chars_of, lowered, run_of, string_of, trimmed, CharClass};

verus! {

// ── what a wikilink is ───────────────────────────────────────────────────────

/// The wikilink that a text begins with: how long its name is, and how long the
/// link is as a whole.
///
/// A wikilink is `[[`, a name of one or more characters other than `]`, `|` and
/// `#`, optionally a `|` or a `#` with anything but `]` behind it, and `]]`.
pub open spec fn link_at(s: Seq<char>) -> Option<(nat, nat)> {
    let n = text::run(s.skip(2), CharClass::LinkName);
    let after = s.skip(2 + n as int);
    let m = text::find(after.skip(1), ']');
    if !text::starts_with(s, "[["@) || n == 0 {
        None
    } else if text::starts_with(after, "]]"@) {
        Some((n, n + 4))
    } else if after.len() > 0 && (after[0] == '|' || after[0] == '#') && text::starts_with(
        after.skip(1 + m as int),
        "]]"@,
    ) {
        Some((n, n + m + 5))
    } else {
        None
    }
}

/// The names of the wikilinks in a text, from left to right; no link begins
/// inside another.
pub open spec fn link_names(s: Seq<char>) -> Seq<Seq<char>>
    decreases s.len(),
    via link_names_decreases
{
    if s.len() == 0 {
        seq![]
    } else {
        match link_at(s) {
            Some((n, len)) => seq![s.subrange(2, 2 + n as int)] + link_names(s.skip(len as int)),
            None => link_names(s.skip(1)),
        }
    }
}

#[via_fn]
proof fn link_names_decreases(s: Seq<char>) {
    lemma_link_at(s);
}

/// The targets of the wikilinks in a text: their names without white space
/// around them, the blank ones left out.
pub open spec fn targets(s: Seq<char>) -> Seq<Seq<char>> {
    link_names(s).map_values(|t: Seq<char>| text::trim(t)).filter(|t: Seq<char>| t.len() > 0)
}

proof fn lemma_link_at(s: Seq<char>)
    ensures
        link_at(s) matches Some((n, len)) ==> 0 < n && n + 4 <= len <= s.len(),
{
    reveal_strlit("[[");
    reveal_strlit("]]");
    if s.len() >= 2 {
        text::lemma_run(s.skip(2), CharClass::LinkName);
        let n = text::run(s.skip(2), CharClass::LinkName);
        let after = s.skip(2 + n as int);
        if after.len() > 0 {
            text::lemma_run(after.skip(1), CharClass::Except(']'));
        }
    }
}

// ── finding them ─────────────────────────────────────────────────────────────

/// Computes [`link_at`].
fn find_link_at(s: &[char]) -> (r: Option<(usize, usize)>)
    ensures
        match r {
            Some(p) => link_at(s@) == Some((p.0 as nat, p.1 as nat)),
            None => link_at(s@) is None,
        },
{
    proof {
        reveal_strlit("[[");
        reveal_strlit("]]");
        lemma_link_at(s@);
    }
    if !begins_with(s, "[[") {
        return None;
    }
    let name: &[char] = &s[2..s.len()];
    assert(name@ =~= s@.skip(2));
    let n: usize = run_of(name, CharClass::LinkName);
    if n == 0 {
        return None;
    }
    let after: &[char] = &name[n..name.len()];
    assert(after@ =~= s@.skip(2 + n as int));
    if begins_with(after, "]]") {
        return Some((n, n + 4));
    }
    if after.len() == 0 || (after[0] != '|' && after[0] != '#') {
        return None;
    }
    let shown: &[char] = &after[1..after.len()];
    assert(shown@ =~= after@.skip(1));
    let m: usize = run_of(shown, CharClass::Except(']'));
    let close: &[char] = &shown[m..shown.len()];
    assert(close@ =~= after@.skip(1 + m as int));
    if begins_with(close, "]]") {
        Some((n, n + m + 5))
    } else {
        None
    }
}

/// Extracts raw wikilink targets from markdown content.
///
/// `[[Note Name]]`, `[[Note Name|Display]]` and `[[Note Name#Heading]]` all give
/// `Note Name`.
pub fn extract_targets(content: &str) -> (r: Vec<String>)
    ensures
        r.deep_view() == targets(content@),
{
    let chars = chars_of(content);
    let all: &[char] = chars.as_slice();
    let mut found: Vec<String> = Vec::new();
    let mut pos: usize = 0;
    let ghost keep = |t: Seq<char>| t.len() > 0;
    let ghost clean = |t: Seq<char>| text::trim(t);
    let ghost mut names: Seq<Seq<char>> = seq![];
    proof {
        reveal(Seq::filter);
        assert(all@.skip(0) =~= all@);
        assert(names + link_names(all@) =~= link_names(content@));
        assert(found.deep_view() =~= names.map_values(clean).filter(keep));
    }
    while pos < all.len()
        invariant
            all@ == content@,
            pos <= all@.len(),
            keep == (|t: Seq<char>| t.len() > 0),
            clean == (|t: Seq<char>| text::trim(t)),
            names + link_names(all@.skip(pos as int)) == link_names(content@),
            found.deep_view() == names.map_values(clean).filter(keep),
        decreases all@.len() - pos,
    {
        let rest: &[char] = &all[pos..all.len()];
        assert(rest@ =~= all@.skip(pos as int));
        proof {
            lemma_link_at(rest@);
        }
        match find_link_at(rest) {
            Some((n, len)) => {
                let name: &[char] = &rest[2..2 + n];
                let t = string_of(trimmed(name));
                proof {
                    let before = names.map_values(clean);
                    assert(rest@.skip(len as int) =~= all@.skip(pos + len));
                    assert(names.push(name@) + link_names(rest@.skip(len as int)) =~= names + (
                    seq![name@] + link_names(rest@.skip(len as int))));
                    names = names.push(name@);
                    assert(names.map_values(clean) =~= before.push(t@));
                    reveal(Seq::filter);
                    assert(before.push(t@).drop_last() =~= before);
                }
                if !t.as_str().is_empty() {
                    let ghost had = found.deep_view();
                    found.push(t);
                    assert(found.deep_view() =~= had.push(t@));
                }
                pos = pos + len;
            },
            None => {
                assert(rest@.skip(1) =~= all@.skip(pos + 1));
                pos = pos + 1;
            },
        }
    }
    assert(link_names(all@.skip(pos as int)) =~= seq![]);
    assert(names =~= link_names(content@));
    found
}

// ── the files they lead to ───────────────────────────────────────────────────

/// The files of a vault by name, for looking wikilink targets up.
pub struct NameMap {
    files: StringHashMap<String>,
}

impl View for NameMap {
    type V = Map<Seq<char>, Seq<char>>;

    closed spec fn view(&self) -> Map<Seq<char>, Seq<char>> {
        self.files@.map_values(|p: String| p@)
    }
}

/// The key under which a name is looked up.
pub open spec fn name_key(name: Seq<char>) -> Seq<char> {
    text::lower(name)
}

/// The map from names to files that a list of files makes. A name is the file
/// name without its extension, in lower case; of two files with the same name
/// the last one counts.
pub open spec fn names_of(files: Seq<Seq<char>>) -> Map<Seq<char>, Seq<char>>
    decreases files.len(),
{
    if files.len() == 0 {
        Map::empty()
    } else {
        let before = names_of(files.drop_last());
        match paths::file_stem(files.last()) {
            Some(stem) => before.insert(name_key(stem), files.last()),
            None => before,
        }
    }
}

/// The name that a wikilink target asks for: its last component, or the target
/// itself if it has none.
pub open spec fn target_name(target: Seq<char>) -> Seq<char> {
    match paths::file_name(target) {
        Some(name) => name,
        None => target,
    }
}

/// The name that a target asks for if nothing is called by its last component:
/// that component without an extension.
pub open spec fn target_stem(target: Seq<char>) -> Seq<char> {
    match paths::file_stem(target) {
        Some(stem) => stem,
        None => target,
    }
}

/// The file of a name.
pub open spec fn named(name: Seq<char>, names: Map<Seq<char>, Seq<char>>) -> Option<Seq<char>> {
    let key = name_key(name);
    if names.contains_key(key) {
        Some(names[key])
    } else {
        None
    }
}

/// The file that a wikilink target leads to.
pub open spec fn resolved(target: Seq<char>, names: Map<Seq<char>, Seq<char>>) -> Option<
    Seq<char>,
> {
    match named(target_name(target), names) {
        Some(file) => Some(file),
        None => named(target_stem(target), names),
    }
}

/// Builds a name to path map from all vault markdown files.
///
/// The key is the stem (the file name without its extension), lowercased for
/// case-insensitive lookup. If two files have the same stem, the last one wins.
pub fn build_name_map(md_files: &Vec<String>) -> (r: NameMap)
    ensures
        r@ == names_of(md_files.deep_view()),
{
    let mut map = NameMap { files: StringHashMap::new() };
    let ghost all = md_files.deep_view();
    let mut i: usize = 0;
    assert(map@ =~= names_of(all.take(0)));
    while i < md_files.len()
        invariant
            i <= md_files@.len(),
            all == md_files.deep_view(),
            map@ == names_of(all.take(i as int)),
        decreases md_files@.len() - i,
    {
        let path = &md_files[i];
        proof {
            assert(all.take(i + 1).drop_last() =~= all.take(i as int));
            assert(all.take(i + 1).last() == path@);
        }
        let ghost before = map@;
        if let Some(stem) = paths::stem(path.as_str()) {
            let key = lowered(stem.as_str());
            let value = path.clone();
            map.files.insert(key, value);
            assert(map@ =~= before.insert(key@, path@));
        }
        i = i + 1;
    }
    assert(all.take(i as int) =~= all);
    map
}

/// Looks a name up.
fn file_named(name: &str, name_map: &NameMap) -> (r: Option<String>)
    ensures
        r.deep_view() == named(name@, name_map@),
{
    let key = lowered(name);
    match name_map.files.get(key.as_str()) {
        Some(p) => {
            assert(name_map@[key@] == p@);
            Some(p.clone())
        },
        None => None,
    }
}

/// Resolves a wikilink target to a file, by name.
///
/// Leading path components of the target are ignored (`[[Folder/Note]]` asks for
/// `Note`). A name may hold dots (`[[Release v1.5]]`); only where no file has the
/// name is an extension of the target ignored too (`[[Note.md]]`). `None` if no
/// file has the name either way.
pub fn resolve(target: &str, name_map: &NameMap) -> (r: Option<String>)
    ensures
        r.deep_view() == resolved(target@, name_map@),
{
    let found = match paths::name(target) {
        Some(name) => file_named(name.as_str(), name_map),
        None => file_named(target, name_map),
    };
    if found.is_some() {
        return found;
    }
    match paths::stem(target) {
        Some(stem) => file_named(stem.as_str(), name_map),
        None => file_named(target, name_map),
    }
}

// ── laws ─────────────────────────────────────────────────────────────────────

/// Whether a text can be the name in a wikilink.
pub open spec fn link_name(t: Seq<char>) -> bool {
    t.len() > 0 && forall|i: int| 0 <= i < t.len() ==> CharClass::LinkName.has(#[trigger] t[i])
}

/// A plain wikilink to `t`.
pub open spec fn plain_link(t: Seq<char>) -> Seq<char> {
    "[["@ + t + "]]"@
}

/// A wikilink to `t` with a part behind `mark` (`|` and a text to show, or `#`
/// and a heading).
pub open spec fn marked_link(t: Seq<char>, mark: char, shown: Seq<char>) -> Seq<char> {
    "[["@ + t + seq![mark] + shown + "]]"@
}

/// A wikilink at the start of a text gives its name first, whatever follows it.
pub proof fn law_plain_link(t: Seq<char>, rest: Seq<char>)
    requires
        link_name(t),
    ensures
        link_names(plain_link(t) + rest) == seq![t] + link_names(rest),
{
    reveal_strlit("[[");
    reveal_strlit("]]");
    let s = plain_link(t) + rest;
    let n = t.len();
    assert(s.take(2) =~= "[["@);
    let name = s.skip(2);
    assert forall|i: int| 0 <= i < n implies CharClass::LinkName.has(#[trigger] name[i]) by {
        assert(name[i] == t[i]);
    }
    assert(name[n as int] == ']');
    text::lemma_run_is(name, CharClass::LinkName, n);
    assert(s.skip(2 + n as int).take(2) =~= "]]"@);
    assert(s.subrange(2, 2 + n as int) =~= t);
    assert(s.skip(n as int + 4) =~= rest);
}

/// What is shown in place of a name, or the heading it leads to, does not change
/// the target.
pub proof fn law_marked_link(t: Seq<char>, mark: char, shown: Seq<char>, rest: Seq<char>)
    requires
        link_name(t),
        mark == '|' || mark == '#',
        !shown.contains(']'),
    ensures
        link_names(marked_link(t, mark, shown) + rest) == seq![t] + link_names(rest),
{
    reveal_strlit("[[");
    reveal_strlit("]]");
    let s = marked_link(t, mark, shown) + rest;
    let n = t.len();
    let m = shown.len();
    assert(s.take(2) =~= "[["@);
    let name = s.skip(2);
    assert forall|i: int| 0 <= i < n implies CharClass::LinkName.has(#[trigger] name[i]) by {
        assert(name[i] == t[i]);
    }
    assert(name[n as int] == mark);
    text::lemma_run_is(name, CharClass::LinkName, n);
    let after = s.skip(2 + n as int);
    assert(after[0] == mark);
    assert(!text::starts_with(after, "]]"@)) by {
        assert(after.take(2)[0] == mark);
        assert("]]"@[0] == ']');
    }
    let body = after.skip(1);
    assert forall|i: int| 0 <= i < m implies CharClass::Except(']').has(#[trigger] body[i]) by {
        assert(body[i] == shown[i]);
        assert(shown.contains(shown[i]));
    }
    assert(body[m as int] == ']');
    text::lemma_run_is(body, CharClass::Except(']'), m);
    assert(after.skip(1 + m as int).take(2) =~= "]]"@);
    assert(s.subrange(2, 2 + n as int) =~= t);
    assert(s.skip((n + m + 5) as int) =~= rest);
}

/// Targets are never blank and have no white space around them.
pub proof fn law_targets_clean(s: Seq<char>, i: int)
    requires
        0 <= i < targets(s).len(),
    ensures
        targets(s)[i].len() > 0,
        !text::is_white(targets(s)[i][0]),
        !text::is_white(targets(s)[i].last()),
{
    let keep = |t: Seq<char>| t.len() > 0;
    let all = link_names(s).map_values(|t: Seq<char>| text::trim(t));
    all.lemma_filter_pred(keep, i);
    assert(all.filter(keep).contains(targets(s)[i]));
    lemma_filtered_from(all, keep, i);
    let j = choose|j: int| 0 <= j < all.len() && all[j] == targets(s)[i];
    let name = link_names(s)[j];
    let t = text::trim_start_of(name, CharClass::White);
    text::lemma_run(name, CharClass::White);
    text::lemma_tail_run(t, CharClass::White);
    let r = text::trim(name);
    assert(r.len() > 0);
    assert(r[0] == t[0]);
    assert(t[0] == name[text::run(name, CharClass::White) as int]);
    assert(r.last() == t[r.len() - 1]);
}

proof fn lemma_filtered_from<A>(s: Seq<A>, keep: spec_fn(A) -> bool, i: int)
    requires
        0 <= i < s.filter(keep).len(),
    ensures
        exists|j: int| 0 <= j < s.len() && s[j] == s.filter(keep)[i],
    decreases s.len(),
{
    reveal(Seq::filter);
    if s.len() > 0 {
        let f = s.drop_last().filter(keep);
        if i < f.len() {
            lemma_filtered_from(s.drop_last(), keep, i);
            let j = choose|j: int| 0 <= j < s.drop_last().len() && s.drop_last()[j] == f[i];
            assert(s[j] == s.filter(keep)[i]);
        } else {
            assert(s[s.len() - 1] == s.filter(keep)[i]);
        }
    }
}

/// Every name in the map is the key of a file in the list, the last one with
/// that name; and every file with a name has it in the map.
pub proof fn law_last_file_wins(files: Seq<Seq<char>>, key: Seq<char>)
    ensures
        names_of(files).contains_key(key) <==> exists|i: int|
            0 <= i < files.len() && #[trigger] has_key(files[i], key),
        names_of(files).contains_key(key) ==> exists|i: int|
            {
                &&& 0 <= i < files.len()
                &&& #[trigger] has_key(files[i], key)
                &&& names_of(files)[key] == files[i]
                &&& forall|j: int| i < j < files.len() ==> !#[trigger] has_key(files[j], key)
            },
    decreases files.len(),
{
    if files.len() > 0 {
        let before = files.drop_last();
        let last = files.len() - 1;
        law_last_file_wins(before, key);
        if has_key(files[last], key) {
            assert(has_key(files[last], key));
        } else {
            if names_of(before).contains_key(key) {
                let i = choose|i: int|
                    {
                        &&& 0 <= i < before.len()
                        &&& #[trigger] has_key(before[i], key)
                        &&& names_of(before)[key] == before[i]
                        &&& forall|j: int|
                            i < j < before.len() ==> !#[trigger] has_key(before[j], key)
                    };
                assert(has_key(files[i], key));
                assert forall|j: int| i < j < files.len() implies !#[trigger] has_key(
                    files[j],
                    key,
                ) by {
                    if j < last {
                        assert(!has_key(before[j], key));
                    }
                }
            } else {
                assert forall|i: int| 0 <= i < files.len() implies !#[trigger] has_key(
                    files[i],
                    key,
                ) by {
                    if i < last {
                        assert(!has_key(before[i], key));
                    }
                }
            }
        }
    }
}

/// Whether a file is looked up under a key.
pub open spec fn has_key(file: Seq<char>, key: Seq<char>) -> bool {
    paths::file_stem(file) matches Some(stem) && name_key(stem) == key
}

/// Lookup ignores case: a name in another case leads to the same file, and also
/// where it holds more than ASCII, if only ASCII letters differ.
pub proof fn law_resolve_ignores_case(
    a: Seq<char>,
    b: Seq<char>,
    names: Map<Seq<char>, Seq<char>>,
)
    ensures
        text::lower(target_name(a)) == text::lower(target_name(b)) && text::lower(target_stem(a))
            == text::lower(target_stem(b)) ==> resolved(a, names) == resolved(b, names),
        text::ascii_lowered(a) == text::ascii_lowered(b) ==> resolved(a, names) == resolved(
            b,
            names,
        ),
{
    if text::ascii_lowered(a) == text::ascii_lowered(b) {
        lemma_same_but_case(a, b);
        paths::lemma_names_but_case(a, b);
        text::law_lower_ignores_ascii_case(target_name(a), target_name(b));
        text::law_lower_ignores_ascii_case(target_stem(a), target_stem(b));
    }
}

proof fn lemma_same_but_case(a: Seq<char>, b: Seq<char>)
    requires
        text::ascii_lowered(a) == text::ascii_lowered(b),
    ensures
        paths::same_but_case(a, b),
{
    assert(a.len() == text::ascii_lowered(a).len());
    assert(b.len() == text::ascii_lowered(b).len());
    assert forall|i: int| 0 <= i < a.len() implies text::ascii_lower(#[trigger] a[i])
        == text::ascii_lower(b[i]) by {
        assert(text::ascii_lowered(a)[i] == text::ascii_lower(a[i]));
        assert(text::ascii_lowered(b)[i] == text::ascii_lower(b[i]));
    }
}

/// The name of a listed file, which may hold dots, leads to the last file of that
/// name, whatever folders stand in front of it: the target's last component is
/// looked up as it is.
pub proof fn law_listed_file_resolves(files: Seq<Seq<char>>, i: int, target: Seq<char>)
    requires
        0 <= i < files.len(),
        has_key(files[i], name_key(target_name(target))),
    ensures
        exists|k: int|
            {
                &&& i <= k < files.len()
                &&& #[trigger] has_key(files[k], name_key(target_name(target)))
                &&& resolved(target, names_of(files)) == Some(files[k])
                &&& forall|j: int|
                    k < j < files.len() ==> !#[trigger] has_key(
                        files[j],
                        name_key(target_name(target)),
                    )
            },
{
    let key = name_key(target_name(target));
    law_last_file_wins(files, key);
    assert(names_of(files).contains_key(key));
    let k = choose|k: int|
        {
            &&& 0 <= k < files.len()
            &&& #[trigger] has_key(files[k], key)
            &&& names_of(files)[key] == files[k]
            &&& forall|j: int| k < j < files.len() ==> !#[trigger] has_key(files[j], key)
        };
    assert(has_key(files[i], key));
    assert(i <= k);
}

/// Of the files with a name, the last one is found by that name, in whatever case
/// its ASCII letters are written, with folders in front of it or not. (Behind
/// folders, `.` and `..` name no file.)
pub proof fn law_file_found_by_its_name(
    files: Seq<Seq<char>>,
    i: int,
    folders: Seq<char>,
    written: Seq<char>,
)
    requires
        0 <= i < files.len(),
        paths::file_stem(files[i]) is Some,
        text::ascii_lowered(written) == text::ascii_lowered(paths::file_stem(files[i])->0),
        folders.len() == 0 || (folders.last() == '/' && written != "."@ && written != ".."@),
        forall|j: int|
            i < j < files.len() ==> !#[trigger] has_key(
                files[j],
                name_key(paths::file_stem(files[i])->0),
            ),
    ensures
        resolved(folders + written, names_of(files)) == Some(files[i]),
{
    let stem = paths::file_stem(files[i])->0;
    paths::lemma_stem_is_name(files[i]);
    lemma_same_but_case(written, stem);
    assert(paths::is_name(written)) by {
        assert forall|k: int| 0 <= k < written.len() implies written[k] != '/' by {
            assert(text::ascii_lower(written[k]) == text::ascii_lower(stem[k]));
            assert(stem.contains(stem[k]));
        }
    }
    paths::lemma_last_name(folders, written);
    if folders.len() == 0 {
        assert(folders + written =~= written);
    }
    assert(target_name(folders + written) == written);
    text::law_lower_ignores_ascii_case(written, stem);
    assert(has_key(files[i], name_key(stem)));
    law_listed_file_resolves(files, i, folders + written);
}

/// Text in which no two `[` stand side by side hides no link behind it, and holds
/// none: the targets are those of what follows.
pub proof fn law_text_before_links(a: Seq<char>, b: Seq<char>)
    requires
        forall|i: int|
            0 <= i < a.len() ==> !(#[trigger] (a + b)[i] == '[' && i + 1 < (a + b).len() && (a
                + b)[i + 1] == '['),
    ensures
        link_names(a + b) == link_names(b),
        targets(a + b) == targets(b),
    decreases a.len(),
{
    let s = a + b;
    if a.len() == 0 {
        assert(s =~= b);
    } else {
        let rest = a.drop_first();
        assert(s.skip(1) =~= rest + b);
        reveal_strlit("[[");
        assert(link_at(s) is None) by {
            if text::starts_with(s, "[["@) {
                assert(s.take(2)[0] == '[' && s.take(2)[1] == '[');
                assert(s[0] == '[' && s[1] == '[');
            }
        }
        assert forall|i: int| 0 <= i < rest.len() implies !(#[trigger] (rest + b)[i] == '[' && i + 1
            < (rest + b).len() && (rest + b)[i + 1] == '[') by {
            assert((rest + b)[i] == s[i + 1]);
            if i + 1 < (rest + b).len() {
                assert((rest + b)[i + 1] == s[i + 2]);
            }
            assert(!(s[i + 1] == '[' && i + 2 < s.len() && s[i + 2] == '['));
        }
        law_text_before_links(rest, b);
    }
}

/// Text without `[` in front of a link does not hide it, and has no links.
pub proof fn law_plain_text_before_links(a: Seq<char>, b: Seq<char>)
    requires
        !a.contains('['),
    ensures
        link_names(a + b) == link_names(b),
        targets(a + b) == targets(b),
        targets(a) == Seq::<Seq<char>>::empty(),
{
    assert forall|i: int| 0 <= i < a.len() implies #[trigger] (a + b)[i] != '[' by {
        assert((a + b)[i] == a[i]);
        assert(a.contains(a[i]));
    }
    law_text_before_links(a, b);
    let none = Seq::<char>::empty();
    assert forall|i: int| 0 <= i < a.len() implies #[trigger] (a + none)[i] != '[' by {
        assert((a + none)[i] == a[i]);
        assert(a.contains(a[i]));
    }
    law_text_before_links(a, none);
    assert(a + none =~= a);
    lemma_targets_of(link_names(none), Seq::<char>::empty());
}

spec fn clean() -> spec_fn(Seq<char>) -> Seq<char> {
    |t: Seq<char>| text::trim(t)
}

spec fn filled() -> spec_fn(Seq<char>) -> bool {
    |t: Seq<char>| t.len() > 0
}

proof fn lemma_targets_of(names: Seq<Seq<char>>, name: Seq<char>)
    ensures
        Seq::<Seq<char>>::empty().map_values(clean()).filter(filled()) == Seq::<Seq<char>>::empty(),
        (seq![name] + names).map_values(clean()).filter(filled()) == (if text::trim(name).len() > 0 {
            seq![text::trim(name)]
        } else {
            seq![]
        }) + names.map_values(clean()).filter(filled()),
{
    reveal(Seq::filter);
    let none = Seq::<Seq<char>>::empty();
    assert(none.map_values(clean()) =~= none);
    let one = seq![name];
    let a = one.map_values(clean());
    assert((one + names).map_values(clean()) =~= a + names.map_values(clean()));
    Seq::filter_distributes_over_add(a, names.map_values(clean()), filled());
    assert(a.drop_last() =~= none);
    assert(a.last() == text::trim(name));
    assert(none.filter(filled()) =~= none);
    assert(a.filter(filled()) =~= if text::trim(name).len() > 0 {
        seq![text::trim(name)]
    } else {
        seq![]
    });
}

proof fn lemma_targets(s: Seq<char>)
    ensures
        targets(s) == link_names(s).map_values(clean()).filter(filled()),
{
    assert((|t: Seq<char>| text::trim(t)) =~= clean());
    assert((|t: Seq<char>| t.len() > 0) =~= filled());
}

/// A wikilink gives its name, without the white space around it, whatever follows
/// it; what it shows in place of the name, or the heading that it leads to, does
/// not count.
pub proof fn law_link_gives_target(
    x: Seq<char>,
    name: Seq<char>,
    y: Seq<char>,
    mark: char,
    shown: Seq<char>,
    rest: Seq<char>,
)
    requires
        text::blank(x),
        name.len() > 0,
        text::tight(name),
        !name.contains(']') && !name.contains('|') && !name.contains('#'),
        text::blank(y),
        mark == '|' || mark == '#',
        !shown.contains(']'),
    ensures
        targets(plain_link(x + name + y) + rest) == seq![name] + targets(rest),
        targets(marked_link(x + name + y, mark, shown) + rest) == seq![name] + targets(rest),
        plain_link(x + name + y) == seq!['[', '['] + (x + name + y) + seq![']', ']'],
        marked_link(x + name + y, mark, shown) == seq!['[', '['] + (x + name + y) + seq![mark]
            + shown + seq![']', ']'],
{
    let t = x + name + y;
    assert forall|i: int| 0 <= i < t.len() implies CharClass::LinkName.has(#[trigger] t[i]) by {
        if i < x.len() {
            assert(text::is_white(x[i]));
        } else if i < x.len() + name.len() {
            assert(name.contains(name[i - x.len()]));
        } else {
            assert(text::is_white(y[i - x.len() - name.len()]));
        }
    }
    assert(link_name(t));
    law_plain_link(t, rest);
    law_marked_link(t, mark, shown, rest);
    text::law_trim(x, name, y);
    lemma_targets(rest);
    lemma_targets(plain_link(t) + rest);
    lemma_targets(marked_link(t, mark, shown) + rest);
    lemma_targets_of(link_names(rest), t);
    reveal_strlit("[[");
    reveal_strlit("]]");
    assert("[["@ =~= seq!['[', '[']);
    assert("]]"@ =~= seq![']', ']']);
}

/// A wikilink without a name, or with white space alone, gives no target.
pub proof fn law_blank_link(
    name: Seq<char>,
    mark: char,
    shown: Seq<char>,
    rest: Seq<char>,
)
    requires
        text::blank(name),
        name.len() > 0,
        mark == '|' || mark == '#',
        !shown.contains(']'),
    ensures
        targets(plain_link(name) + rest) == targets(rest),
        targets(marked_link(name, mark, shown) + rest) == targets(rest),
{
    assert forall|i: int| 0 <= i < name.len() implies CharClass::LinkName.has(
        #[trigger] name[i],
    ) by {
        assert(text::is_white(name[i]));
    }
    assert(link_name(name));
    law_plain_link(name, rest);
    law_marked_link(name, mark, shown, rest);
    let none = Seq::<char>::empty();
    text::law_trim(name, none, none);
    assert(name + none + none =~= name);
    lemma_targets(rest);
    lemma_targets(plain_link(name) + rest);
    lemma_targets(marked_link(name, mark, shown) + rest);
    lemma_targets_of(link_names(rest), name);
    let found = targets(rest);
    assert(Seq::<Seq<char>>::empty() + found =~= found);
}

/// Whether two closing brackets stand at the start of a text.
pub open spec fn closes(s: Seq<char>) -> bool {
    s.len() >= 2 && s[0] == ']' && s[1] == ']'
}

/// Two opening brackets that are not followed by a name, or by a name that is not
/// closed, are no link: the links are those behind the first of them.
pub proof fn law_broken_link(name: Seq<char>, after: Seq<char>)
    requires
        !name.contains(']') && !name.contains('|') && !name.contains('#'),
        after.len() > 0 ==> after[0] == ']' || after[0] == '|' || after[0] == '#',
        name.len() > 0 ==> !closes(after),
        name.len() > 0 && after.len() > 0 && after[0] != ']' ==> forall|m: int|
            #![trigger after.subrange(1, m)]
            1 <= m <= after.len() && !after.subrange(1, m).contains(']') ==> !closes(
                after.skip(m),
            ),
    ensures
        targets(seq!['[', '['] + name + after) == targets(seq!['['] + name + after),
{
    let s = seq!['[', '['] + name + after;
    reveal_strlit("[[");
    reveal_strlit("]]");
    let t = s.skip(2);
    assert(t =~= name + after);
    let k = CharClass::LinkName;
    assert forall|i: int| 0 <= i < name.len() implies k.has(#[trigger] t[i]) by {
        assert(name.contains(name[i]));
    }
    if after.len() > 0 {
        assert(t[name.len() as int] == after[0]);
    }
    text::lemma_run_is(t, k, name.len());
    let n = name.len() as int;
    assert(s.skip(2 + n) =~= after);
    assert(text::starts_with(after, "]]"@) ==> closes(after)) by {
        if text::starts_with(after, "]]"@) {
            assert(after.take(2)[0] == ']' && after.take(2)[1] == ']');
        }
    }
    if n > 0 && after.len() > 0 && after[0] != ']' {
        let body = after.skip(1);
        text::lemma_run(body, CharClass::Except(']'));
        let m = text::run(body, CharClass::Except(']')) as int;
        let shown = after.subrange(1, 1 + m);
        assert(!shown.contains(']')) by {
            if shown.contains(']') {
                let i = choose|i: int| 0 <= i < shown.len() && shown[i] == ']';
                assert(body[i] == ']');
                assert(CharClass::Except(']').has(body[i]));
            }
        }
        let close = after.skip(1 + m);
        assert(!closes(close));
        if text::starts_with(close, "]]"@) {
            assert(close.take(2)[0] == ']' && close.take(2)[1] == ']');
        }
    }
    assert(link_at(s) is None);
    assert(s.skip(1) =~= seq!['['] + name + after);
}

/// A target leads to a file exactly if one has its last component for a name, or
/// that component without its extension, in whatever case; and only to such a file.
pub proof fn law_resolved_file_has_name(files: Seq<Seq<char>>, target: Seq<char>)
    ensures
        ({
            let full = text::lower(target_name(target));
            let short = text::lower(target_stem(target));
            match resolved(target, names_of(files)) {
                Some(f) => files.contains(f) && (has_key(f, full) || has_key(f, short)),
                None => forall|i: int|
                    0 <= i < files.len() ==> !has_key(#[trigger] files[i], full) && !has_key(
                        files[i],
                        short,
                    ),
            }
        }),
{
    let full = text::lower(target_name(target));
    let short = text::lower(target_stem(target));
    law_last_file_wins(files, full);
    law_last_file_wins(files, short);
    if resolved(target, names_of(files)) is None {
        assert forall|i: int| 0 <= i < files.len() implies !has_key(#[trigger] files[i], full)
            && !has_key(files[i], short) by {}
    }
}

/// What a file is looked up by: its name without folders and extension, in lower
/// case.
pub proof fn law_file_key(folders: Seq<char>, stem: Seq<char>, ext: Seq<char>, key: Seq<char>)
    requires
        folders.len() == 0 || folders.last() == '/',
        stem.len() > 0 && !stem.contains('/'),
        !ext.contains('/') && !ext.contains('.'),
        ext.len() > 0,
    ensures
        has_key(folders + (stem + seq!['.'] + ext), key) <==> key == text::lower(stem),
{
    paths::law_stem_and_extension(folders, stem, ext);
}

/// A target asks for its last component; and, where no file has that name, for the
/// component without its extension.
pub proof fn law_target_names(folders: Seq<char>, name: Seq<char>, stem: Seq<char>, ext: Seq<char>)
    requires
        folders.len() == 0 || folders.last() == '/',
        name.len() > 0 && !name.contains('/'),
        name != seq!['.'] && name != seq!['.', '.'],
        stem.len() > 0 && !stem.contains('/'),
        !ext.contains('/') && !ext.contains('.'),
        ext.len() > 0,
    ensures
        target_name(folders + name) == name,
        target_stem(folders + (stem + seq!['.'] + ext)) == stem,
{
    paths::law_file_name(folders, name);
    paths::law_stem_and_extension(folders, stem, ext);
}

/// The extension of a target does not count where no file has the whole for a name:
/// of the files with the name before it, the last one is found.
pub proof fn law_target_with_extension(
    files: Seq<Seq<char>>,
    i: int,
    folders: Seq<char>,
    stem: Seq<char>,
    ext: Seq<char>,
)
    requires
        0 <= i < files.len(),
        folders.len() == 0 || folders.last() == '/',
        stem.len() > 0 && !stem.contains('/'),
        !ext.contains('/') && !ext.contains('.'),
        ext.len() > 0,
        has_key(files[i], text::lower(stem)),
        forall|j: int| i < j < files.len() ==> !#[trigger] has_key(files[j], text::lower(stem)),
        forall|j: int|
            0 <= j < files.len() ==> !#[trigger] has_key(
                files[j],
                text::lower(stem + seq!['.'] + ext),
            ),
    ensures
        resolved(folders + (stem + seq!['.'] + ext), names_of(files)) == Some(files[i]),
{
    let name = stem + seq!['.'] + ext;
    let target = folders + name;
    assert(!name.contains('/')) by {
        assert forall|k: int| 0 <= k < name.len() implies name[k] != '/' by {
            if k < stem.len() {
                assert(stem.contains(stem[k]));
            } else if k > stem.len() {
                assert(ext.contains(ext[k - stem.len() - 1]));
            }
        }
    }
    assert(name.last() == ext.last());
    assert(ext.contains(ext.last()));
    assert(name != seq!['.'] && name != seq!['.', '.']);
    law_target_names(folders, name, stem, ext);
    law_last_file_wins(files, text::lower(name));
    law_last_file_wins(files, text::lower(stem));
}

} // verus!
