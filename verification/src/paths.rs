//! Paths as text with `/` between their components, as a vault writes them.
use vstd::prelude::*;
use vstd::string::StringExecFns;

use crate::text;
use crate::text::{
    chars_of, is_text, replaced, run_of, same_text, string_of, tail_run_of, trimmed_end, CharClass,
};

verus! {

// ── what a path is ───────────────────────────────────────────────────────────

/// How a path begins: at the root, at the current directory, or with a name.
pub enum Lead {
    Root,
    Current,
    Name,
}

/// How a path begins.
pub open spec fn lead(s: Seq<char>) -> Lead {
    if s.len() > 0 && s[0] == '/' {
        Lead::Root
    } else if s.len() > 0 && s[0] == '.' && (s.len() == 1 || s[1] == '/') {
        Lead::Current
    } else {
        Lead::Name
    }
}

/// A path without the separators and `.` components at its start.
pub open spec fn trim_left(s: Seq<char>) -> Seq<char>
    decreases s.len(),
{
    if lead(s) is Name {
        s
    } else {
        trim_left(s.drop_first())
    }
}

/// A path without the separators and `.` components at its end, but for the
/// first `floor` characters.
pub open spec fn trim_right(s: Seq<char>, floor: nat) -> Seq<char>
    decreases s.len(),
{
    if s.len() <= floor {
        s
    } else if s.last() == '/' || (s.last() == '.' && (s.len() == 1 || s[s.len() - 2] == '/')) {
        trim_right(s.drop_last(), floor)
    } else {
        s
    }
}

/// What is left of `s` behind the components of `base`, which must be the first
/// components of `s`.
pub open spec fn strip_components(s: Seq<char>, base: Seq<char>) -> Option<Seq<char>>
    decreases base.len(),
    via strip_components_decreases
{
    let t = trim_left(s);
    let b = trim_left(base);
    let n = text::find(t, '/');
    let m = text::find(b, '/');
    if b.len() == 0 {
        Some(trim_right(t, 0))
    } else if t.take(n as int) == b.take(m as int) {
        strip_components(t.skip(n as int), b.skip(m as int))
    } else {
        None
    }
}

#[via_fn]
proof fn strip_components_decreases(s: Seq<char>, base: Seq<char>) {
    lemma_trim_left(base);
    let b = trim_left(base);
    text::lemma_run(b, CharClass::Except('/'));
}

/// `s` relative to `base`, if `base` is a directory above it. Nothing is above
/// every path.
pub open spec fn strip_prefix(s: Seq<char>, base: Seq<char>) -> Option<Seq<char>> {
    if base.len() == 0 {
        Some(trim_right(s, if lead(s) is Name { 0 } else { 1 }))
    } else if lead(s) == lead(base) {
        strip_components(s, base)
    } else {
        None
    }
}

/// The place behind the last `/` of `s`.
pub open spec fn last_component(s: Seq<char>) -> Seq<char> {
    s.skip(s.len() - text::tail_run(s, CharClass::Except('/')))
}

/// The name of the file that a path leads to.
pub open spec fn file_name(s: Seq<char>) -> Option<Seq<char>> {
    let name = last_component(trim_right(s, 0));
    if name.len() == 0 || name == ".."@ {
        None
    } else {
        Some(name)
    }
}

/// How many characters of a file name stand before its last dot, if a dot stands
/// in it and not only at its start.
pub open spec fn dot(name: Seq<char>) -> Option<nat> {
    let n = name.len() - text::tail_run(name, CharClass::Except('.'));
    if n >= 2 {
        Some((n - 1) as nat)
    } else {
        None
    }
}

/// The name of the file without its extension.
pub open spec fn file_stem(s: Seq<char>) -> Option<Seq<char>> {
    match file_name(s) {
        Some(name) => Some(
            match dot(name) {
                Some(n) => name.take(n as int),
                None => name,
            },
        ),
        None => None,
    }
}

/// The extension of the file.
pub open spec fn extension(s: Seq<char>) -> Option<Seq<char>> {
    match file_name(s) {
        Some(name) => match dot(name) {
            Some(n) => Some(name.skip(n as int + 1)),
            None => None,
        },
        None => None,
    }
}

// ── computing it ─────────────────────────────────────────────────────────────

proof fn lemma_trim_left(s: Seq<char>)
    ensures
        trim_left(s).len() <= s.len(),
        lead(trim_left(s)) is Name,
        trim_left(s) == s.skip(s.len() - trim_left(s).len()),
    decreases s.len(),
{
    if lead(s) is Name {
        assert(s.skip(0) =~= s);
    } else {
        let t = s.drop_first();
        lemma_trim_left(t);
        assert(s.skip(s.len() - trim_left(s).len()) =~= t.skip(t.len() - trim_left(t).len()));
    }
}

/// Whether two ways to begin are the same.
fn same_lead(a: &[char], b: &[char]) -> (r: bool)
    ensures
        r == (lead(a@) == lead(b@)),
{
    match (lead_of(a), lead_of(b)) {
        (Lead::Root, Lead::Root) => true,
        (Lead::Current, Lead::Current) => true,
        (Lead::Name, Lead::Name) => true,
        _ => false,
    }
}

/// Computes [`lead`].
fn lead_of(s: &[char]) -> (r: Lead)
    ensures
        r == lead(s@),
{
    if s.len() > 0 && s[0] == '/' {
        Lead::Root
    } else if s.len() > 0 && s[0] == '.' && (s.len() == 1 || s[1] == '/') {
        Lead::Current
    } else {
        Lead::Name
    }
}

/// Computes [`trim_left`].
fn trimmed_left<'a>(s: &'a [char]) -> (r: &'a [char])
    ensures
        r@ == trim_left(s@),
{
    let mut t: &'a [char] = s;
    loop
        invariant
            trim_left(t@) == trim_left(s@),
        ensures
            t@ == trim_left(s@),
        decreases t@.len(),
    {
        match lead_of(t) {
            Lead::Name => {
                break;
            },
            _ => {
                let ghost old_t = t@;
                t = &t[1..t.len()];
                assert(t@ =~= old_t.drop_first());
            },
        }
    }
    t
}

/// Computes [`trim_right`].
fn trimmed_right<'a>(s: &'a [char], floor: usize) -> (r: &'a [char])
    ensures
        r@ == trim_right(s@, floor as nat),
{
    let mut t: &'a [char] = s;
    while t.len() > floor && (t[t.len() - 1] == '/' || (t[t.len() - 1] == '.' && (t.len() == 1
        || t[t.len() - 2] == '/')))
        invariant
            trim_right(t@, floor as nat) == trim_right(s@, floor as nat),
        decreases t@.len(),
    {
        let ghost old_t = t@;
        t = &t[0..t.len() - 1];
        assert(t@ =~= old_t.drop_last());
    }
    t
}

/// Whether two slices hold the same characters.
fn same_chars(a: &[char], b: &[char]) -> (r: bool)
    ensures
        r == (a@ == b@),
{
    if a.len() != b.len() {
        return false;
    }
    let mut i: usize = 0;
    while i < a.len()
        invariant
            i <= a@.len(),
            a@.len() == b@.len(),
            forall|j: int| 0 <= j < i ==> a@[j] == b@[j],
        decreases a@.len() - i,
    {
        if a[i] != b[i] {
            return false;
        }
        i = i + 1;
    }
    assert(a@ =~= b@);
    true
}

/// Computes [`strip_components`].
fn stripped_components<'a>(s: &'a [char], base: &[char]) -> (r: Option<&'a [char]>)
    ensures
        match r {
            Some(t) => strip_components(s@, base@) == Some(t@),
            None => strip_components(s@, base@) is None,
        },
{
    let mut rest: &'a [char] = s;
    let mut below: &[char] = base;
    loop
        invariant
            strip_components(rest@, below@) == strip_components(s@, base@),
        decreases below@.len(),
    {
        let t = trimmed_left(rest);
        let b = trimmed_left(below);
        proof {
            lemma_trim_left(below@);
        }
        if b.len() == 0 {
            return Some(trimmed_right(t, 0));
        }
        let n: usize = run_of(t, CharClass::Except('/'));
        let m: usize = run_of(b, CharClass::Except('/'));
        let head: &'a [char] = &t[0..n];
        let want: &[char] = &b[0..m];
        assert(head@ =~= t@.take(n as int));
        assert(want@ =~= b@.take(m as int));
        if !same_chars(head, want) {
            return None;
        }
        rest = &t[n..t.len()];
        let ghost old_below = below@;
        below = &b[m..b.len()];
        proof {
            assert(rest@ =~= t@.skip(n as int));
            assert(below@ =~= b@.skip(m as int));
            text::lemma_run(b@, CharClass::Except('/'));
        }
    }
}

/// Computes [`strip_prefix`].
fn stripped_prefix<'a>(s: &'a [char], base: &[char]) -> (r: Option<&'a [char]>)
    ensures
        match r {
            Some(t) => strip_prefix(s@, base@) == Some(t@),
            None => strip_prefix(s@, base@) is None,
        },
{
    if base.len() == 0 {
        let floor: usize = match lead_of(s) {
            Lead::Name => 0,
            _ => 1,
        };
        Some(trimmed_right(s, floor))
    } else if same_lead(s, base) {
        stripped_components(s, base)
    } else {
        None
    }
}

/// Computes [`file_name`].
fn name_of<'a>(s: &'a [char]) -> (r: Option<&'a [char]>)
    ensures
        match r {
            Some(t) => file_name(s@) == Some(t@),
            None => file_name(s@) is None,
        },
{
    let t = trimmed_right(s, 0);
    let n: usize = tail_run_of(t, CharClass::Except('/'));
    let name: &'a [char] = &t[t.len() - n..t.len()];
    assert(name@ =~= last_component(t@));
    if name.len() == 0 || is_text(name, "..") {
        None
    } else {
        Some(name)
    }
}

/// Computes [`dot`].
fn dot_of(name: &[char]) -> (r: Option<usize>)
    ensures
        match r {
            Some(n) => dot(name@) == Some(n as nat) && n < name@.len(),
            None => dot(name@) is None,
        },
{
    let n: usize = name.len() - tail_run_of(name, CharClass::Except('.'));
    if n >= 2 {
        Some(n - 1)
    } else {
        None
    }
}

/// The name of the file that the path leads to.
pub fn name(path: &str) -> (r: Option<String>)
    ensures
        r.deep_view() == file_name(path@),
{
    let chars = chars_of(path);
    match name_of(chars.as_slice()) {
        Some(n) => Some(string_of(n)),
        None => None,
    }
}

/// The name of the file that the path leads to, without its extension.
pub fn stem(path: &str) -> (r: Option<String>)
    ensures
        r.deep_view() == file_stem(path@),
{
    let chars = chars_of(path);
    match name_of(chars.as_slice()) {
        Some(name) => match dot_of(name) {
            Some(n) => {
                let head: &[char] = &name[0..n];
                assert(head@ =~= name@.take(n as int));
                Some(string_of(head))
            },
            None => Some(string_of(name)),
        },
        None => None,
    }
}

/// The extension of the file that the path leads to.
pub fn extension_of(path: &str) -> (r: Option<String>)
    ensures
        r.deep_view() == extension(path@),
{
    let chars = chars_of(path);
    match name_of(chars.as_slice()) {
        Some(name) => match dot_of(name) {
            Some(n) => {
                let len: usize = name.len();
                let tail: &[char] = &name[n + 1..len];
                assert(tail@ =~= name@.skip(n as int + 1));
                Some(string_of(tail))
            },
            None => None,
        },
        None => None,
    }
}

// ── paths of a vault ─────────────────────────────────────────────────────────

/// `p` taken relative to the directory `base`; an absolute `p` stays as it is.
pub open spec fn join_path(base: Seq<char>, p: Seq<char>) -> Seq<char> {
    if lead(p) is Root {
        p
    } else if base.len() == 0 || base.last() == '/' {
        base + p
    } else {
        base.push('/') + p
    }
}

/// A file's path relative to a directory, with forward slashes; a file outside
/// the directory keeps its own path.
pub open spec fn relative_path(dir: Seq<char>, file: Seq<char>) -> Seq<char> {
    let p = match strip_prefix(file, dir) {
        Some(t) => t,
        None => file,
    };
    text::replace(p, '\\', '/')
}

/// Whether a path leads to a markdown file.
pub open spec fn markdown_path(path: Seq<char>) -> bool {
    match extension(path) {
        Some(e) => e.map_values(|c: char| text::ascii_lower(c)) == "md"@,
        None => false,
    }
}

/// Whether a path stays inside the vault: it is relative, and no component of it
/// is `..`.
pub open spec fn inside_vault(path: Seq<char>) -> bool {
    !(lead(path) is Root) && !text::split(path, '/').contains(".."@)
}

/// Whether a file stands under one of the directories, which are relative to the
/// vault. No directories mean the whole vault.
pub open spec fn included(vault: Seq<char>, file: Seq<char>, dirs: Seq<Seq<char>>) -> bool {
    dirs.len() == 0 || exists|i: int|
        0 <= i < dirs.len() && strip_prefix(file, join_path(vault, #[trigger] dirs[i])) is Some
}

/// Computes [`join_path`].
pub fn joined_path(base: &str, p: &str) -> (r: String)
    ensures
        r@ == join_path(base@, p@),
{
    let b = chars_of(base);
    let q = chars_of(p);
    match lead_of(q.as_slice()) {
        Lead::Root => p.to_owned(),
        _ => {
            let mut r = base.to_owned();
            if b.len() > 0 && b[b.len() - 1] != '/' {
                r.push('/');
            }
            r.append(p);
            r
        },
    }
}

/// Makes `file` relative to `vault`, returned as a forward-slash string.
pub fn vault_relative(vault: &str, file: &str) -> (r: String)
    ensures
        r@ == relative_path(vault@, file@),
{
    let v = chars_of(vault);
    let f = chars_of(file);
    let p: &[char] = match stripped_prefix(f.as_slice(), v.as_slice()) {
        Some(t) => t,
        None => f.as_slice(),
    };
    string_of(replaced(p, '\\', '/').as_slice())
}

/// Makes the directory `dir` relative to `vault`: a forward-slash string without
/// slashes at its end, empty for the vault itself.
pub fn dir_relative(vault: &str, dir: &str) -> (r: String)
    ensures
        r@ == text::trim_end_of(relative_path(vault@, dir@), CharClass::Only('/')),
{
    let p = vault_relative(vault, dir);
    string_of(trimmed_end(chars_of(p.as_str()).as_slice(), CharClass::Only('/')))
}

/// Whether a path leads to a markdown file: its extension is `md`, in upper or
/// lower case.
pub fn is_markdown(path: &str) -> (r: bool)
    ensures
        r == markdown_path(path@),
{
    match extension_of(path) {
        Some(e) => {
            let c = chars_of(e.as_str());
            proof {
                reveal_strlit("md");
            }
            let ghost low = e@.map_values(|c: char| text::ascii_lower(c));
            if c.len() != 2 {
                assert(low.len() != "md"@.len());
                return false;
            }
            let r = (c[0] == 'm' || c[0] == 'M') && (c[1] == 'd' || c[1] == 'D');
            proof {
                assert(low.len() == 2);
                assert(low[0] == text::ascii_lower(c@[0]) && low[1] == text::ascii_lower(c@[1]));
                lemma_ascii_lower(c@[0]);
                lemma_ascii_lower(c@[1]);
                if r {
                    assert(low =~= "md"@);
                } else if low == "md"@ {
                    assert(low[0] == 'm' && low[1] == 'd');
                }
            }
            r
        },
        None => false,
    }
}

proof fn lemma_ascii_lower(c: char)
    ensures
        text::ascii_lower(c) == 'm' <==> c == 'm' || c == 'M',
        text::ascii_lower(c) == 'd' <==> c == 'd' || c == 'D',
{
}

/// Whether the file watcher looks at a path: its extension is `md`.
pub fn is_watched(path: &str) -> (r: bool)
    ensures
        r == (extension(path@) == Some("md"@)),
{
    match extension_of(path) {
        Some(e) => same_text(e.as_str(), "md"),
        None => false,
    }
}

/// Whether a path stays inside the vault: it is not absolute, and has no `..`
/// component.
pub fn is_inside_vault(path: &str) -> (r: bool)
    ensures
        r == inside_vault(path@),
{
    let chars = chars_of(path);
    match lead_of(chars.as_slice()) {
        Lead::Root => {
            return false;
        },
        _ => {},
    }
    let parts = text::split_of(chars.as_slice(), '/');
    let ghost all = text::split(path@, '/');
    let mut i: usize = 0;
    while i < parts.len()
        invariant
            i <= parts@.len(),
            all == text::split(path@, '/'),
            text::rows(parts@) == all,
            !(lead(path@) is Root),
            forall|j: int| 0 <= j < i ==> all[j] != ".."@,
        decreases parts@.len() - i,
    {
        assert(all[i as int] == parts@[i as int]@);
        if is_text(parts[i], "..") {
            assert(all.contains(".."@));
            return false;
        }
        i = i + 1;
    }
    assert(all.len() == parts@.len());
    assert(!all.contains(".."@));
    true
}

/// Whether a file stands under one of the directories to index.
pub fn is_included(vault: &str, file: &str, dirs: &Vec<String>) -> (r: bool)
    ensures
        r == included(vault@, file@, dirs.deep_view()),
{
    if dirs.len() == 0 {
        return true;
    }
    let f = chars_of(file);
    let mut i: usize = 0;
    while i < dirs.len()
        invariant
            i <= dirs@.len(),
            dirs@.len() > 0,
            f@ == file@,
            forall|j: int|
                0 <= j < i ==> strip_prefix(
                    file@,
                    join_path(vault@, #[trigger] dirs.deep_view()[j]),
                ) is None,
        decreases dirs@.len() - i,
    {
        let d = chars_of(joined_path(vault, dirs[i].as_str()).as_str());
        assert(d@ == join_path(vault@, dirs.deep_view()[i as int]));
        if stripped_prefix(f.as_slice(), d.as_slice()).is_some() {
            return true;
        }
        i = i + 1;
    }
    false
}

/// The path of the index database: the given one, or `.herbalist.db` in the
/// vault.
pub fn resolve_db(vault: &str, db: Option<String>) -> (r: String)
    ensures
        r@ == match db {
            Some(p) => p@,
            None => join_path(vault@, ".herbalist.db"@),
        },
{
    match db {
        Some(p) => p,
        None => joined_path(vault, ".herbalist.db"),
    }
}

/// Whether a walk over the vault's notes enters a directory or a file of this
/// name.
pub fn walks_notes(name: &str) -> (r: bool)
    ensures
        r == (name@ != ".obsidian"@ && name@ != ".git"@ && name@ != ".herbalist.db"@),
{
    !same_text(name, ".obsidian") && !same_text(name, ".git") && !same_text(name, ".herbalist.db")
}

/// Whether a walk over the vault's settings enters a directory or a file of this
/// name.
pub fn walks_configs(name: &str) -> (r: bool)
    ensures
        r == (name@ != ".obsidian"@ && name@ != ".git"@),
{
    !same_text(name, ".obsidian") && !same_text(name, ".git")
}

// ── laws ─────────────────────────────────────────────────────────────────────

/// A relative path with nothing to trim and no backslash: what walking a vault
/// finds.
pub open spec fn plain(p: Seq<char>) -> bool {
    lead(p) is Name && trim_right(p, 0) == p && !p.contains('\\')
}

proof fn lemma_trim_left_add(b: Seq<char>, x: Seq<char>)
    requires
        b.len() == 0 || b.last() == '/' || (x.len() > 0 && x[0] == '/'),
    ensures
        trim_left(b).len() == 0 ==> trim_left(b + x) == trim_left(x),
        trim_left(b).len() > 0 ==> trim_left(b + x) == trim_left(b) + x,
    decreases b.len(),
{
    if b.len() == 0 {
        assert(b + x =~= x);
    } else if lead(b) is Name {
        assert(lead(b + x) is Name) by {
            assert((b + x)[0] == b[0]);
            if b.len() > 1 {
                assert((b + x)[1] == b[1]);
            }
        }
    } else {
        assert((b + x)[0] == b[0]);
        if b.len() > 1 {
            assert((b + x)[1] == b[1]);
        } else {
            assert(b[0] == '/' || x[0] == '/');
            assert(b[0] == '.' ==> (b + x)[1] == '/');
        }
        assert(!(lead(b + x) is Name));
        assert((b + x).drop_first() =~= b.drop_first() + x);
        lemma_trim_left_add(b.drop_first(), x);
    }
}

proof fn lemma_strip_components_add(b: Seq<char>, x: Seq<char>)
    requires
        b.len() == 0 || b.last() == '/' || (x.len() > 0 && x[0] == '/'),
    ensures
        strip_components(b + x, b) == Some(trim_right(trim_left(x), 0)),
    decreases b.len(),
{
    let c = trim_left(b);
    lemma_trim_left(b);
    lemma_trim_left_add(b, x);
    if c.len() > 0 {
        let t = c + x;
        let k = CharClass::Except('/');
        assert(c.last() == b.last());
        text::lemma_run(c, k);
        let m = text::find(c, '/');
        assert forall|i: int| 0 <= i < m implies k.has(#[trigger] t[i]) by {
            assert(t[i] == c[i]);
            assert(k.has(c[i]));
        }
        if m < c.len() {
            assert(t[m as int] == c[m as int]);
        } else {
            assert(k.has(c[c.len() - 1]));
            assert(t[m as int] == x[0]);
        }
        text::lemma_run_is(t, k, m);
        assert(t.take(m as int) =~= c.take(m as int));
        let rest = c.skip(m as int);
        assert(t.skip(m as int) =~= rest + x);
        assert(m > 0);
        if rest.len() > 0 {
            assert(rest.last() == c.last());
        }
        lemma_strip_components_add(rest, x);
    }
}

/// A file of the vault, named by its vault-relative path, has that path relative
/// to the vault.
pub proof fn law_vault_relative(vault: Seq<char>, rel: Seq<char>)
    requires
        vault.len() > 0,
        plain(rel),
    ensures
        relative_path(vault, join_path(vault, rel)) == rel,
{
    let file = join_path(vault, rel);
    assert(file[0] == vault[0]);
    if vault.len() > 1 {
        assert(file[1] == vault[1]);
    } else if vault[0] != '/' {
        assert(file[1] == '/');
    }
    assert(lead(file) == lead(vault));
    if vault.last() == '/' {
        lemma_strip_components_add(vault, rel);
    } else {
        let x = seq!['/'] + rel;
        lemma_strip_components_add(vault, x);
        assert(vault + x =~= file);
        assert(x.drop_first() =~= rel);
        assert(trim_left(x) == trim_left(rel));
    }
    assert(text::replace(rel, '\\', '/') =~= rel) by {
        assert forall|i: int| 0 <= i < rel.len() implies rel[i] != '\\' by {
            assert(rel.contains(rel[i]));
        }
    }
}

/// A path with a `..` component is refused, wherever in it the component stands.
pub proof fn law_parent_refused(before: Seq<char>, after: Seq<char>)
    requires
        before.len() == 0 || before.last() == '/',
        after.len() == 0 || after[0] == '/',
    ensures
        !inside_vault(before + ".."@ + after),
{
    let p = before + ".."@ + after;
    reveal_strlit("..");
    lemma_split_at(before, ".."@ + after);
    assert(p =~= before + (".."@ + after));
    let t = ".."@ + after;
    let k = CharClass::Except('/');
    assert(t[0] == '.' && t[1] == '.');
    if after.len() > 0 {
        assert(t[2] == '/');
    }
    text::lemma_run_is(t, k, 2);
    assert(t.take(2) =~= ".."@);
    if after.len() == 0 {
        assert(t =~= ".."@);
    }
    assert(text::split(t, '/')[0] == ".."@);
    assert(text::split(t, '/').contains(".."@));
}

/// The parts behind a separator are parts of the whole.
proof fn lemma_split_at(before: Seq<char>, t: Seq<char>)
    requires
        before.len() == 0 || before.last() == '/',
    ensures
        forall|x: Seq<char>|
            text::split(t, '/').contains(x) ==> #[trigger] text::split(before + t, '/').contains(x),
    decreases before.len(),
{
    if before.len() == 0 {
        assert(before + t =~= t);
    } else {
        let k = CharClass::Except('/');
        let s = before + t;
        text::lemma_run(before, k);
        let n = text::find(before, '/');
        if n == before.len() {
            assert(k.has(before[before.len() - 1]));
        }
        assert forall|i: int| 0 <= i < n implies k.has(#[trigger] s[i]) by {
            assert(k.has(before[i]));
        }
        assert(s[n as int] == before[n as int]);
        text::lemma_run_is(s, k, n);
        let rest = before.skip(n as int + 1);
        assert(s.skip(n as int + 1) =~= rest + t);
        lemma_split_at(rest, t);
        let head = seq![s.take(n as int)];
        let tail = text::split(rest + t, '/');
        assert(text::split(s, '/') == head + tail);
        assert forall|x: Seq<char>| text::split(t, '/').contains(x) implies #[trigger] text::split(
            s,
            '/',
        ).contains(x) by {
            assert(tail.contains(x));
            let j = choose|j: int| 0 <= j < tail.len() && tail[j] == x;
            assert((head + tail)[j + 1] == x);
        }
    }
}

/// Whether a text can be one component of a path.
pub open spec fn is_name(s: Seq<char>) -> bool {
    s.len() > 0 && !s.contains('/')
}

/// The last component of a path is found behind its folders. Only `.` and `..`
/// name no file.
pub proof fn lemma_last_name(folders: Seq<char>, name: Seq<char>)
    requires
        is_name(name),
        folders.len() == 0 || folders.last() == '/',
    ensures
        name != "."@ && name != ".."@ ==> file_name(folders + name) == Some(name),
        folders.len() == 0 && (name == "."@ || name == ".."@) ==> file_name(folders + name) is None,
{
    reveal_strlit(".");
    reveal_strlit("..");
    let s = folders + name;
    let k = CharClass::Except('/');
    assert(s.last() == name.last());
    assert(name.contains(name.last()));
    if name == "."@ {
        if folders.len() == 0 {
            assert(s =~= "."@);
            assert(s.drop_last() =~= seq![]);
            assert(trim_right(s, 0) == trim_right(s.drop_last(), 0));
        }
    } else {
        if s.last() == '.' && s.len() > 1 && s[s.len() - 2] == '/' {
            if name.len() > 1 {
                assert(name[name.len() - 2] == s[s.len() - 2]);
                assert(name.contains('/'));
            } else {
                assert(name =~= "."@);
            }
        }
        if s.len() == 1 && s.last() == '.' {
            assert(name =~= "."@);
        }
        assert(trim_right(s, 0) == s);
        assert forall|i: int| s.len() - name.len() <= i < s.len() implies k.has(
            #[trigger] s[i],
        ) by {
            assert(s[i] == name[i - folders.len()]);
            assert(name.contains(name[i - folders.len()]));
        }
        if folders.len() > 0 {
            assert(s[s.len() - name.len() - 1] == folders.last());
        }
        text::lemma_tail_run_is(s, k, name.len());
        assert(last_component(s) =~= name);
    }
}

/// What a file is called without its extension is one component of a path.
pub proof fn lemma_stem_is_name(file: Seq<char>)
    ensures
        file_stem(file) matches Some(stem) ==> is_name(stem),
{
    let t = trim_right(file, 0);
    text::lemma_tail_run(t, CharClass::Except('/'));
    let name = last_component(t);
    if let Some(stem) = file_stem(file) {
        assert forall|i: int| 0 <= i < stem.len() implies stem[i] != '/' by {
            assert(stem[i] == name[i]);
            assert(CharClass::Except('/').has(t[t.len() - name.len() + i]));
        }
        text::lemma_tail_run(name, CharClass::Except('.'));
    }
}

/// Whether two texts differ in the case of ASCII letters alone.
pub open spec fn same_but_case(a: Seq<char>, b: Seq<char>) -> bool {
    a.len() == b.len() && forall|i: int|
        0 <= i < a.len() ==> text::ascii_lower(#[trigger] a[i]) == text::ascii_lower(b[i])
}

proof fn lemma_trim_right_but_case(a: Seq<char>, b: Seq<char>)
    requires
        same_but_case(a, b),
    ensures
        same_but_case(trim_right(a, 0), trim_right(b, 0)),
    decreases a.len(),
{
    if a.len() > 0 {
        let n = a.len() - 1;
        assert(text::ascii_lower(a[n]) == text::ascii_lower(b[n]));
        if n > 0 {
            assert(text::ascii_lower(a[n - 1]) == text::ascii_lower(b[n - 1]));
        }
        assert forall|i: int| 0 <= i < n implies text::ascii_lower(#[trigger] a.drop_last()[i])
            == text::ascii_lower(b.drop_last()[i]) by {
            assert(a.drop_last()[i] == a[i]);
        }
        lemma_trim_right_but_case(a.drop_last(), b.drop_last());
    }
}

proof fn lemma_tail_but_case(a: Seq<char>, b: Seq<char>, c: char)
    requires
        same_but_case(a, b),
        c == '/' || c == '.',
    ensures
        text::tail_run(a, CharClass::Except(c)) == text::tail_run(b, CharClass::Except(c)),
{
    let k = CharClass::Except(c);
    text::lemma_tail_run(a, k);
    let n = text::tail_run(a, k);
    assert forall|i: int| b.len() - n <= i < b.len() implies k.has(#[trigger] b[i]) by {
        assert(k.has(a[i]));
        assert(text::ascii_lower(a[i]) == text::ascii_lower(b[i]));
    }
    if n < b.len() {
        assert(text::ascii_lower(a[a.len() - n - 1]) == text::ascii_lower(b[b.len() - n - 1]));
    }
    text::lemma_tail_run_is(b, k, n);
}

/// Paths that differ in the case of ASCII letters alone lead to files whose names
/// do.
pub proof fn lemma_names_but_case(a: Seq<char>, b: Seq<char>)
    requires
        same_but_case(a, b),
    ensures
        file_name(a) is Some <==> file_name(b) is Some,
        file_name(a) is Some ==> text::ascii_lowered(file_name(a)->0) == text::ascii_lowered(
            file_name(b)->0,
        ) && text::ascii_lowered(file_stem(a)->0) == text::ascii_lowered(file_stem(b)->0),
{
    lemma_trim_right_but_case(a, b);
    let s = trim_right(a, 0);
    let t = trim_right(b, 0);
    lemma_tail_but_case(s, t, '/');
    text::lemma_tail_run(s, CharClass::Except('/'));
    let m = last_component(s);
    let n = last_component(t);
    let skipped = s.len() - m.len();
    assert(same_but_case(m, n)) by {
        assert forall|i: int| 0 <= i < m.len() implies text::ascii_lower(#[trigger] m[i])
            == text::ascii_lower(n[i]) by {
            assert(m[i] == s[skipped + i] && n[i] == t[skipped + i]);
            assert(text::ascii_lower(s[skipped + i]) == text::ascii_lower(t[skipped + i]));
        }
    }
    reveal_strlit("..");
    assert(m == ".."@ <==> n == ".."@) by {
        if m == ".."@ {
            assert(text::ascii_lower(m[0]) == text::ascii_lower(n[0]));
            assert(text::ascii_lower(m[1]) == text::ascii_lower(n[1]));
            assert(n =~= ".."@);
        }
        if n == ".."@ {
            assert(text::ascii_lower(m[0]) == text::ascii_lower(n[0]));
            assert(text::ascii_lower(m[1]) == text::ascii_lower(n[1]));
            assert(m =~= ".."@);
        }
    }
    lemma_tail_but_case(m, n, '.');
    assert(text::ascii_lowered(m) =~= text::ascii_lowered(n));
    if let Some(d) = dot(m) {
        text::lemma_tail_run(m, CharClass::Except('.'));
        assert(text::ascii_lowered(m.take(d as int)) =~= text::ascii_lowered(n.take(d as int)));
    }
}

/// The name of a file is the last component of its path, whatever stands before
/// it; `.` and `..` name no file.
pub proof fn law_file_name(folders: Seq<char>, name: Seq<char>)
    requires
        folders.len() == 0 || folders.last() == '/',
        name.len() > 0 && !name.contains('/'),
    ensures
        name != seq!['.'] && name != seq!['.', '.'] ==> file_name(folders + name) == Some(name),
        file_name(folders + seq!['.', '.']) is None,
        file_name(seq!['.']) is None,
        file_name(seq![]) is None,
{
    reveal_strlit(".");
    reveal_strlit("..");
    assert("."@ =~= seq!['.']);
    assert(".."@ =~= seq!['.', '.']);
    lemma_last_name(folders, name);
    lemma_last_name(seq![], seq!['.']);
    assert(Seq::<char>::empty() + seq!['.'] =~= seq!['.']);
    let up = seq!['.', '.'];
    let s = folders + up;
    assert(s.last() == '.' && s[s.len() - 2] == '.');
    assert(trim_right(s, 0) == s);
    let k = CharClass::Except('/');
    assert(k.has(s[s.len() - 1]) && k.has(s[s.len() - 2]));
    if folders.len() > 0 {
        assert(s[s.len() - 3] == folders.last());
    }
    text::lemma_tail_run_is(s, k, 2);
    assert(last_component(s) =~= up);
}

/// A separator at the end of a path, or a `.` component there, does not count.
pub proof fn law_file_name_trailing(path: Seq<char>)
    ensures
        file_name(path + seq!['/']) == file_name(path),
        file_name(path + seq!['/', '.']) == file_name(path),
{
    let a = path + seq!['/'];
    let b = path + seq!['/', '.'];
    assert(a.drop_last() =~= path);
    assert(b.drop_last() =~= a);
    assert(b[b.len() - 2] == '/');
}

/// The last dot of a name stands before the extension, unless the name begins with
/// it.
pub proof fn law_stem_and_extension(folders: Seq<char>, stem: Seq<char>, ext: Seq<char>)
    requires
        folders.len() == 0 || folders.last() == '/',
        stem.len() > 0 && !stem.contains('/'),
        !ext.contains('/') && !ext.contains('.'),
        stem == seq!['.'] ==> ext.len() > 0,
    ensures
        file_stem(folders + (stem + seq!['.'] + ext)) == Some(stem),
        extension(folders + (stem + seq!['.'] + ext)) == Some(ext),
{
    let name = stem + seq!['.'] + ext;
    assert(!name.contains('/')) by {
        assert forall|k: int| 0 <= k < name.len() implies name[k] != '/' by {
            if k < stem.len() {
                assert(stem.contains(stem[k]));
            } else if k > stem.len() {
                assert(ext.contains(ext[k - stem.len() - 1]));
            }
        }
    }
    assert(name != seq!['.']);
    assert(name != seq!['.', '.']) by {
        if name == seq!['.', '.'] {
            assert(stem =~= seq!['.']);
        }
    }
    law_file_name(folders, name);
    let k = CharClass::Except('.');
    assert forall|i: int| name.len() - ext.len() <= i < name.len() implies k.has(
        #[trigger] name[i],
    ) by {
        assert(ext.contains(ext[i - stem.len() - 1]));
    }
    assert(name[name.len() - ext.len() - 1] == '.');
    text::lemma_tail_run_is(name, k, ext.len());
    assert(name.take(stem.len() as int) =~= stem);
    assert(name.skip(stem.len() as int + 1) =~= ext);
}

/// A name without a dot, or with one at its start alone, has no extension.
pub proof fn law_no_extension(folders: Seq<char>, name: Seq<char>)
    requires
        folders.len() == 0 || folders.last() == '/',
        name.len() > 0 && !name.contains('/'),
        name != seq!['.'],
        forall|i: int| 1 <= i < name.len() ==> #[trigger] name[i] != '.',
    ensures
        file_stem(folders + name) == Some(name),
        extension(folders + name) is None,
{
    if name == seq!['.', '.'] {
        assert(name[1] == '.');
    }
    law_file_name(folders, name);
    let k = CharClass::Except('.');
    let n = if name[0] == '.' { (name.len() - 1) as nat } else { name.len() };
    assert forall|i: int| name.len() - n <= i < name.len() implies k.has(#[trigger] name[i]) by {}
    text::lemma_tail_run_is(name, k, n);
}

/// A path leads to a markdown file exactly if its extension is `md`, in upper or
/// lower case; the watcher looks at it exactly if it is `md`.
pub proof fn law_markdown(folders: Seq<char>, stem: Seq<char>, ext: Seq<char>)
    requires
        folders.len() == 0 || folders.last() == '/',
        stem.len() > 0 && !stem.contains('/'),
        !ext.contains('/') && !ext.contains('.'),
        stem == seq!['.'] ==> ext.len() > 0,
    ensures
        markdown_path(folders + (stem + seq!['.'] + ext)) <==> ext.len() == 2 && (ext[0] == 'm'
            || ext[0] == 'M') && (ext[1] == 'd' || ext[1] == 'D'),
        extension(folders + (stem + seq!['.'] + ext)) == Some("md"@) <==> ext == seq!['m', 'd'],
{
    law_stem_and_extension(folders, stem, ext);
    reveal_strlit("md");
    assert("md"@ =~= seq!['m', 'd']);
    let low = ext.map_values(|c: char| text::ascii_lower(c));
    if ext.len() == 2 {
        lemma_ascii_lower(ext[0]);
        lemma_ascii_lower(ext[1]);
        assert(low[0] == text::ascii_lower(ext[0]) && low[1] == text::ascii_lower(ext[1]));
        if low[0] == 'm' && low[1] == 'd' {
            assert(low =~= "md"@);
        }
    }
    if low == "md"@ {
        assert(low.len() == 2);
        assert(low[0] == 'm' && low[1] == 'd');
    }
}

/// A relative path is put behind its directory, with one separator between them; an
/// absolute one stays as it is.
pub proof fn law_join_path(base: Seq<char>, p: Seq<char>)
    ensures
        p.len() > 0 && p[0] == '/' ==> join_path(base, p) == p,
        (p.len() == 0 || p[0] != '/') && base.len() == 0 ==> join_path(base, p) == p,
        (p.len() == 0 || p[0] != '/') && base.len() > 0 && base.last() == '/' ==> join_path(base, p)
            == base + p,
        (p.len() == 0 || p[0] != '/') && base.len() > 0 && base.last() != '/' ==> join_path(base, p)
            == base + seq!['/'] + p,
{
    if base.len() == 0 {
        assert(base + p =~= p);
    }
    assert(base.push('/') =~= base + seq!['/']);
}

/// Whether nothing is to be trimmed at either end of a relative path: it neither
/// begins nor ends with a separator or a `.` component.
pub open spec fn tidy(p: Seq<char>) -> bool {
    &&& p.len() > 0
    &&& p[0] != '/' && p.last() != '/'
    &&& !(p[0] == '.' && (p.len() == 1 || p[1] == '/'))
    &&& !(p.last() == '.' && (p.len() == 1 || p[p.len() - 2] == '/'))
}

/// A file that stands below a directory has, relative to it, the path that is left,
/// with forward slashes. Separators between the two do not count.
pub proof fn law_below_directory(dir: Seq<char>, rel: Seq<char>)
    requires
        dir.len() > 0,
        tidy(rel),
    ensures
        dir.last() != '/' ==> relative_path(dir, dir + seq!['/'] + rel) == text::replace(
            rel,
            '\\',
            '/',
        ),
        dir.last() == '/' ==> relative_path(dir, dir + rel) == text::replace(rel, '\\', '/'),
        relative_path(dir, dir) == Seq::<char>::empty(),
{
    assert(lead(rel) is Name);
    assert(trim_right(rel, 0) == rel);
    assert(trim_left(rel) == rel);
    let sep = seq!['/'];
    if dir.last() == '/' {
        lemma_strip_components_add(dir, rel);
        let file = dir + rel;
        assert(file[0] == dir[0]);
        if dir.len() > 1 {
            assert(file[1] == dir[1]);
        }
        assert(lead(file) == lead(dir));
    } else {
        let x = sep + rel;
        let file = dir + sep + rel;
        lemma_strip_components_add(dir, x);
        assert(file =~= dir + x);
        assert(file[0] == dir[0]);
        if dir.len() > 1 {
            assert(file[1] == dir[1]);
        } else {
            assert(file[1] == '/');
        }
        assert(lead(file) == lead(dir));
        assert(x.drop_first() =~= rel);
        assert(trim_left(x) == trim_left(rel));
    }
    lemma_strip_itself(dir, dir);
    assert(text::replace(Seq::<char>::empty(), '\\', '/') =~= Seq::<char>::empty());
}

proof fn lemma_strip_itself(s: Seq<char>, b: Seq<char>)
    requires
        s == b,
    ensures
        strip_components(s, b) == Some(Seq::<char>::empty()),
    decreases b.len(),
{
    let c = trim_left(b);
    lemma_trim_left(b);
    if c.len() > 0 {
        text::lemma_run(c, CharClass::Except('/'));
        let m = text::find(c, '/') as int;
        lemma_strip_itself(c.skip(m), c.skip(m));
    } else {
        assert(c =~= seq![]);
        assert(trim_right(c, 0) == c);
    }
}

/// The components of a path: what stands between separators, but for `.`.
pub open spec fn components(s: Seq<char>) -> Seq<Seq<char>> {
    text::split(s, '/').filter(counts())
}

/// Whether a text between separators is a component: it is not empty, and not `.`.
pub open spec fn counts() -> spec_fn(Seq<char>) -> bool {
    |p: Seq<char>| p.len() > 0 && p != seq!['.']
}

/// Whether a path begins with a `.` component.
pub open spec fn begins_here(s: Seq<char>) -> bool {
    s.len() > 0 && s[0] == '.' && (s.len() == 1 || s[1] == '/')
}

proof fn lemma_components_of(p: Seq<char>, rest: Seq<Seq<char>>)
    ensures
        (seq![p] + rest).filter(counts()) == (if p.len() > 0 && p != seq!['.'] {
            seq![p]
        } else {
            seq![]
        }) + rest.filter(counts()),
{
    reveal(Seq::filter);
    let one = seq![p];
    Seq::filter_distributes_over_add(one, rest, counts());
    assert(one.drop_last() =~= seq![]);
    assert(one.last() == p);
    assert(Seq::<Seq<char>>::empty().filter(counts()) =~= seq![]);
    assert(one.filter(counts()) =~= if p.len() > 0 && p != seq!['.'] {
        seq![p]
    } else {
        seq![]
    });
}

proof fn lemma_first_component(w: Seq<char>, x: Seq<char>)
    requires
        !w.contains('/'),
        x.len() == 0 || x[0] == '/',
    ensures
        components(w + x) == (if w.len() > 0 && w != seq!['.'] {
            seq![w]
        } else {
            seq![]
        }) + components(x),
{
    let none = Seq::<char>::empty();
    let no_parts = Seq::<Seq<char>>::empty();
    reveal(Seq::filter);
    text::law_split(none, none, '/');
    lemma_components_of(none, no_parts);
    assert(seq![none] + no_parts =~= seq![none]);
    assert(components(none) =~= no_parts);
    if x.len() == 0 {
        assert(w + x =~= w);
        assert(x =~= none);
        text::law_split(w, none, '/');
        lemma_components_of(w, no_parts);
        assert(seq![w] + no_parts =~= seq![w]);
    } else {
        let y = x.drop_first();
        assert(w + x =~= w + seq!['/'] + y);
        assert(x =~= none + seq!['/'] + y);
        text::law_split(w, y, '/');
        text::law_split(none, y, '/');
        lemma_components_of(w, text::split(y, '/'));
        lemma_components_of(none, text::split(y, '/'));
        assert(no_parts + components(y) =~= components(y));
    }
}

proof fn lemma_components_trim_left(s: Seq<char>)
    ensures
        components(trim_left(s)) == components(s),
    decreases s.len(),
{
    if !(lead(s) is Name) {
        let t = s.drop_first();
        lemma_components_trim_left(t);
        let none = Seq::<Seq<char>>::empty();
        if s[0] == '/' {
            let w = Seq::<char>::empty();
            let y = t;
            text::law_split(w, y, '/');
            lemma_components_of(w, text::split(y, '/'));
            assert(s =~= w + seq!['/'] + y);
            assert(none + components(y) =~= components(y));
        } else {
            let w = seq!['.'];
            assert(s =~= w + t);
            assert(!w.contains('/'));
            lemma_first_component(w, t);
            assert(none + components(t) =~= components(t));
        }
    }
}

proof fn lemma_strip_components_is(s: Seq<char>, base: Seq<char>)
    ensures
        strip_components(s, base) is Some <==> components(base).is_prefix_of(components(s)),
    decreases base.len(),
{
    let t = trim_left(s);
    let b = trim_left(base);
    lemma_components_trim_left(s);
    lemma_components_trim_left(base);
    lemma_trim_left(s);
    lemma_trim_left(base);
    if b.len() == 0 {
        let none = Seq::<char>::empty();
        assert(b =~= none);
        assert(!none.contains('/'));
        text::law_split(none, none, '/');
        lemma_components_of(none, seq![]);
        assert(seq![none] + Seq::<Seq<char>>::empty() =~= seq![none]);
        assert(components(base) =~= seq![]);
        assert(components(base).is_prefix_of(components(s)));
    } else {
        let n = text::find(t, '/') as int;
        let m = text::find(b, '/') as int;
        lemma_head(b);
        let cb = components(b.skip(m));
        assert(components(base) =~= seq![b.take(m)] + cb);
        assert(components(base)[0] == b.take(m));
        if t.len() == 0 {
            let none = Seq::<char>::empty();
            assert(t =~= none);
            assert(!none.contains('/'));
            text::law_split(none, none, '/');
            lemma_components_of(none, seq![]);
            assert(seq![none] + Seq::<Seq<char>>::empty() =~= seq![none]);
            assert(components(s) =~= seq![]);
            assert(t.take(n) =~= none);
            assert(b.take(m).len() > 0);
        } else {
            lemma_head(t);
            let ct = components(t.skip(n));
            assert(components(s) =~= seq![t.take(n)] + ct);
            assert(components(s)[0] == t.take(n));
            lemma_strip_components_is(t.skip(n), b.skip(m));
            if t.take(n) == b.take(m) {
                if cb.is_prefix_of(ct) {
                    assert(components(base) =~= components(s).take(components(base).len() as int)) by {
                        assert(cb =~= ct.take(cb.len() as int));
                    }
                }
                if components(base).is_prefix_of(components(s)) {
                    assert(cb =~= ct.take(cb.len() as int)) by {
                        assert forall|i: int| 0 <= i < cb.len() implies cb[i] == ct[i] by {
                            assert(components(base)[i + 1] == cb[i]);
                            assert(components(s)[i + 1] == ct[i]);
                            assert(components(s).take(components(base).len() as int)[i + 1]
                                == components(s)[i + 1]);
                        }
                    }
                }
            } else {
                if components(base).is_prefix_of(components(s)) {
                    assert(components(s).take(components(base).len() as int)[0] == components(s)[0]);
                }
            }
        }
    }
}

proof fn lemma_head(b: Seq<char>)
    requires
        b.len() > 0,
        lead(b) is Name,
    ensures
        ({
            let m = text::find(b, '/') as int;
            &&& 0 < m <= b.len()
            &&& components(b) == seq![b.take(m)] + components(b.skip(m))
        }),
{
    let k = CharClass::Except('/');
    text::lemma_run(b, k);
    let m = text::find(b, '/') as int;
    let w = b.take(m);
    let x = b.skip(m);
    assert(b =~= w + x);
    assert(!w.contains('/')) by {
        assert forall|i: int| 0 <= i < w.len() implies w[i] != '/' by {
            assert(k.has(b[i]));
        }
    }
    assert(w != seq!['.']) by {
        if w == seq!['.'] {
            assert(b[0] == w[0]);
            assert(m == 1);
            if b.len() > 1 {
                assert(!k.has(b[1]));
            }
        }
    }
    lemma_first_component(w, x);
}

/// A file stands below a directory exactly if the components of the directory are
/// the first ones of the file's path, and both begin alike: at the root, at the
/// current directory, or with a name.
pub proof fn law_below_by_components(file: Seq<char>, dir: Seq<char>)
    requires
        dir.len() > 0,
    ensures
        strip_prefix(file, dir) is Some <==> {
            &&& (file.len() > 0 && file[0] == '/') == (dir[0] == '/')
            &&& begins_here(file) == begins_here(dir)
            &&& components(dir).is_prefix_of(components(file))
        },
        strip_prefix(file, dir) is None ==> relative_path(dir, file) == text::replace(
            file,
            '\\',
            '/',
        ),
{
    lemma_strip_components_is(file, dir);
    assert(lead(file) == lead(dir) <==> (file.len() > 0 && file[0] == '/') == (dir[0] == '/')
        && begins_here(file) == begins_here(dir));
}

/// Without directories every file of the vault is indexed; with some, those that
/// stand below one of them.
pub proof fn law_included(vault: Seq<char>, file: Seq<char>, dirs: Seq<Seq<char>>, dir: Seq<char>)
    ensures
        included(vault, file, seq![]),
        dirs.len() > 0 && included(vault, file, dirs.push(dir)) ==> included(vault, file, dirs)
            || strip_prefix(file, join_path(vault, dir)) is Some,
        dirs.len() > 0 && included(vault, file, dirs) ==> included(vault, file, dirs.push(dir)),
        strip_prefix(file, join_path(vault, dir)) is Some ==> included(vault, file, dirs.push(dir)),
        included(vault, file, seq![dir]) <==> strip_prefix(file, join_path(vault, dir)) is Some,
{
    let all = dirs.push(dir);
    if dirs.len() > 0 && included(vault, file, dirs) {
        let i = choose|i: int|
            0 <= i < dirs.len() && strip_prefix(file, join_path(vault, #[trigger] dirs[i])) is Some;
        assert(all[i] == dirs[i]);
    }
    if dirs.len() > 0 && included(vault, file, all) {
        let i = choose|i: int|
            0 <= i < all.len() && strip_prefix(file, join_path(vault, #[trigger] all[i])) is Some;
        if i < dirs.len() {
            assert(all[i] == dirs[i]);
        }
    }
    assert(all[dirs.len() as int] == dir);
    assert(seq![dir][0] == dir);
}

/// A relative path without a `..` component stays inside the vault, an absolute one
/// does not.
pub proof fn law_inside_vault(path: Seq<char>)
    ensures
        path.len() > 0 && path[0] == '/' ==> !inside_vault(path),
        (path.len() == 0 || path[0] != '/') ==> (inside_vault(path) <==> !text::split(
            path,
            '/',
        ).contains(seq!['.', '.'])),
{
    reveal_strlit("..");
    assert(".."@ =~= seq!['.', '.']);
}

} // verus!
