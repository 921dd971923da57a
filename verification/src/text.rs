//! Text as sequences of characters: the spec functions that the rest of the
//! library states its contracts with, and the slice functions that compute them.
use vstd::prelude::*;

verus! {

// ── trusted parts of std ─────────────────────────────────────────────────────

/// `std::string::String::push`: appends one character at the end.
pub assume_specification[ std::string::String::push ](s: &mut String, c: char)
    ensures
        final(s)@ == old(s)@.push(c),
;

/// What `char::is_alphanumeric` answers: the Unicode properties Alphabetic and
/// Numeric, as the standard library's tables have them.
pub uninterp spec fn unicode_alphanumeric(c: char) -> bool;

/// Calls `char::is_alphanumeric`; the answer is named, not described.
#[verifier::external_body]
fn is_unicode_alphanumeric(c: char) -> (b: bool)
    ensures
        b == unicode_alphanumeric(c),
{
    c.is_alphanumeric()
}

/// What `str::to_lowercase` makes of a text: the Unicode lower case mapping.
pub uninterp spec fn unicode_lowercase(s: Seq<char>) -> Seq<char>;

/// Calls `str::to_lowercase`; the result is named, not described.
#[verifier::external_body]
fn to_unicode_lowercase(s: &str) -> (r: String)
    ensures
        r@ == unicode_lowercase(s@),
{
    s.to_lowercase()
}

// ── classes of characters ────────────────────────────────────────────────────

/// The characters with the Unicode property White_Space.
pub open spec fn is_white(c: char) -> bool {
    ||| '\u{9}' <= c <= '\u{d}'
    ||| c == ' '
    ||| c == '\u{85}'
    ||| c == '\u{a0}'
    ||| c == '\u{1680}'
    ||| '\u{2000}' <= c <= '\u{200a}'
    ||| c == '\u{2028}'
    ||| c == '\u{2029}'
    ||| c == '\u{202f}'
    ||| c == '\u{205f}'
    ||| c == '\u{3000}'
}

/// ASCII letters and digits.
pub open spec fn is_ascii_alphanumeric(c: char) -> bool {
    ||| 'a' <= c <= 'z'
    ||| 'A' <= c <= 'Z'
    ||| '0' <= c <= '9'
}

/// Letters and digits: ASCII by range, the rest as Unicode has them.
pub open spec fn is_alphanumeric(c: char) -> bool {
    if c <= '\u{7f}' {
        is_ascii_alphanumeric(c)
    } else {
        unicode_alphanumeric(c)
    }
}

/// A set of characters that a scan runs over.
#[derive(Clone, Copy)]
pub enum CharClass {
    /// White space.
    White,
    /// Anything but white space.
    Visible,
    /// Exactly this character.
    Only(char),
    /// Anything but this character.
    Except(char),
    /// Carriage return and line feed.
    LineEnd,
    /// Anything that cannot stand in a tag.
    NotTag,
    /// Anything that can stand in the name part of a wikilink.
    LinkName,
}

/// The characters of a tag: letters, digits, `-` and `_`.
pub open spec fn is_tag_char(c: char) -> bool {
    is_alphanumeric(c) || c == '-' || c == '_'
}

impl CharClass {
    /// Whether the class holds `c`.
    pub open spec fn has(self, c: char) -> bool {
        match self {
            CharClass::White => is_white(c),
            CharClass::Visible => !is_white(c),
            CharClass::Only(x) => c == x,
            CharClass::Except(x) => c != x,
            CharClass::LineEnd => c == '\r' || c == '\n',
            CharClass::NotTag => !is_tag_char(c),
            CharClass::LinkName => c != ']' && c != '|' && c != '#',
        }
    }

    /// Computes [`CharClass::has`].
    pub fn test(self, c: char) -> (b: bool)
        ensures
            b == self.has(c),
    {
        match self {
            CharClass::White => white(c),
            CharClass::Visible => !white(c),
            CharClass::Only(x) => c == x,
            CharClass::Except(x) => c != x,
            CharClass::LineEnd => c == '\r' || c == '\n',
            CharClass::NotTag => !tag_char(c),
            CharClass::LinkName => c != ']' && c != '|' && c != '#',
        }
    }
}

/// Whether `c` is white space.
pub fn white(c: char) -> (b: bool)
    ensures
        b == is_white(c),
{
    ('\u{9}' <= c && c <= '\u{d}') || c == ' ' || c == '\u{85}' || c == '\u{a0}' || c == '\u{1680}'
        || ('\u{2000}' <= c && c <= '\u{200a}') || c == '\u{2028}' || c == '\u{2029}' || c
        == '\u{202f}' || c == '\u{205f}' || c == '\u{3000}'
}

/// Whether `c` is a letter or a digit.
pub fn alphanumeric(c: char) -> (b: bool)
    ensures
        b == is_alphanumeric(c),
{
    if c <= '\u{7f}' {
        ('a' <= c && c <= 'z') || ('A' <= c && c <= 'Z') || ('0' <= c && c <= '9')
    } else {
        is_unicode_alphanumeric(c)
    }
}

/// Whether `c` can stand in a tag.
pub fn tag_char(c: char) -> (b: bool)
    ensures
        b == is_tag_char(c),
{
    alphanumeric(c) || c == '-' || c == '_'
}

// ── runs ─────────────────────────────────────────────────────────────────────

/// How many characters at the start of `s` belong to the class.
pub open spec fn run(s: Seq<char>, k: CharClass) -> nat
    decreases s.len(),
{
    if s.len() == 0 || !k.has(s[0]) {
        0
    } else {
        1 + run(s.drop_first(), k)
    }
}

/// How many characters at the end of `s` belong to the class.
pub open spec fn tail_run(s: Seq<char>, k: CharClass) -> nat
    decreases s.len(),
{
    if s.len() == 0 || !k.has(s.last()) {
        0
    } else {
        1 + tail_run(s.drop_last(), k)
    }
}

/// `s` without the characters of the class at its start.
pub open spec fn trim_start_of(s: Seq<char>, k: CharClass) -> Seq<char> {
    s.skip(run(s, k) as int)
}

/// `s` without the characters of the class at its end.
pub open spec fn trim_end_of(s: Seq<char>, k: CharClass) -> Seq<char> {
    s.take(s.len() - tail_run(s, k))
}

/// `s` without white space at either end.
pub open spec fn trim(s: Seq<char>) -> Seq<char> {
    trim_end_of(trim_start_of(s, CharClass::White), CharClass::White)
}

/// The place of the first `c` in `s`, or the length of `s` if there is none.
pub open spec fn find(s: Seq<char>, c: char) -> nat {
    run(s, CharClass::Except(c))
}

/// A run is as long as it can be: every character in it belongs to the class,
/// and the one behind it does not.
pub proof fn lemma_run(s: Seq<char>, k: CharClass)
    ensures
        run(s, k) <= s.len(),
        forall|i: int| 0 <= i < run(s, k) ==> k.has(#[trigger] s[i]),
        run(s, k) < s.len() ==> !k.has(s[run(s, k) as int]),
    decreases s.len(),
{
    if s.len() > 0 && k.has(s[0]) {
        let t = s.drop_first();
        lemma_run(t, k);
        assert forall|i: int| 0 <= i < run(s, k) implies k.has(#[trigger] s[i]) by {
            if i > 0 {
                assert(s[i] == t[i - 1]);
            }
        }
    }
}

/// Whatever prefix of the class is maximal is the run.
pub proof fn lemma_run_is(s: Seq<char>, k: CharClass, n: nat)
    requires
        n <= s.len(),
        forall|i: int| 0 <= i < n ==> k.has(#[trigger] s[i]),
        n < s.len() ==> !k.has(s[n as int]),
    ensures
        run(s, k) == n,
{
    lemma_run(s, k);
    let r = run(s, k);
    if r < n {
        assert(k.has(s[r as int]));
    }
    if n < r {
        assert(k.has(s[n as int]));
    }
}

/// The counterpart of [`lemma_run`] at the end of `s`.
pub proof fn lemma_tail_run(s: Seq<char>, k: CharClass)
    ensures
        tail_run(s, k) <= s.len(),
        forall|i: int| s.len() - tail_run(s, k) <= i < s.len() ==> k.has(#[trigger] s[i]),
        tail_run(s, k) < s.len() ==> !k.has(s[s.len() - tail_run(s, k) - 1]),
    decreases s.len(),
{
    if s.len() > 0 && k.has(s.last()) {
        let t = s.drop_last();
        lemma_tail_run(t, k);
        assert forall|i: int| s.len() - tail_run(s, k) <= i < s.len() implies k.has(
            #[trigger] s[i],
        ) by {
            if i < s.len() - 1 {
                assert(s[i] == t[i]);
            }
        }
    }
}

/// The counterpart of [`lemma_run_is`] at the end of `s`.
pub proof fn lemma_tail_run_is(s: Seq<char>, k: CharClass, n: nat)
    requires
        n <= s.len(),
        forall|i: int| s.len() - n <= i < s.len() ==> k.has(#[trigger] s[i]),
        n < s.len() ==> !k.has(s[s.len() - n - 1]),
    ensures
        tail_run(s, k) == n,
{
    lemma_tail_run(s, k);
    let r = tail_run(s, k);
    if r < n {
        assert(k.has(s[s.len() - r - 1]));
    }
    if n < r {
        assert(k.has(s[s.len() - n - 1]));
    }
}

/// Length of the run of the class at the start of `s`.
pub fn run_of(s: &[char], k: CharClass) -> (n: usize)
    ensures
        n == run(s@, k),
        n <= s@.len(),
{
    let mut n: usize = 0;
    while n < s.len() && k.test(s[n])
        invariant
            n <= s@.len(),
            forall|i: int| 0 <= i < n ==> k.has(#[trigger] s@[i]),
        decreases s@.len() - n,
    {
        n = n + 1;
    }
    proof {
        lemma_run_is(s@, k, n as nat);
    }
    n
}

/// Length of the run of the class at the end of `s`.
pub fn tail_run_of(s: &[char], k: CharClass) -> (n: usize)
    ensures
        n == tail_run(s@, k),
        n <= s@.len(),
{
    let mut n: usize = 0;
    while n < s.len() && k.test(s[s.len() - n - 1])
        invariant
            n <= s@.len(),
            forall|i: int| s@.len() - n <= i < s@.len() ==> k.has(#[trigger] s@[i]),
        decreases s@.len() - n,
    {
        n = n + 1;
    }
    proof {
        lemma_tail_run_is(s@, k, n as nat);
    }
    n
}

/// Computes [`trim_start_of`].
pub fn trimmed_start<'a>(s: &'a [char], k: CharClass) -> (r: &'a [char])
    ensures
        r@ == trim_start_of(s@, k),
{
    let n: usize = run_of(s, k);
    &s[n..s.len()]
}

/// Computes [`trim_end_of`].
pub fn trimmed_end<'a>(s: &'a [char], k: CharClass) -> (r: &'a [char])
    ensures
        r@ == trim_end_of(s@, k),
{
    let n: usize = tail_run_of(s, k);
    &s[0..s.len() - n]
}

/// Computes [`trim`].
pub fn trimmed<'a>(s: &'a [char]) -> (r: &'a [char])
    ensures
        r@ == trim(s@),
{
    trimmed_end(trimmed_start(s, CharClass::White), CharClass::White)
}

// ── conversions and comparisons ──────────────────────────────────────────────

/// The characters of `s`, in order.
pub fn chars_of(s: &str) -> (v: Vec<char>)
    ensures
        v@ == s@,
{
    let mut v: Vec<char> = Vec::new();
    for c in it: s.chars()
        invariant
            it.seq() == s@,
            v@ == s@.take(it.index() as int),
    {
        v.push(c);
    }
    v
}

/// The text made of these characters.
pub fn string_of(v: &[char]) -> (s: String)
    ensures
        s@ == v@,
{
    let mut s = String::new();
    let mut i: usize = 0;
    while i < v.len()
        invariant
            i <= v@.len(),
            s@ == v@.take(i as int),
        decreases v@.len() - i,
    {
        s.push(v[i]);
        i = i + 1;
    }
    s
}

/// Whether two texts are the same.
pub fn same_text(a: &str, b: &str) -> (r: bool)
    ensures
        r == (a@ == b@),
{
    a.to_owned() == b.to_owned()
}

/// Whether `s` begins with `p`.
pub open spec fn starts_with(s: Seq<char>, p: Seq<char>) -> bool {
    p.len() <= s.len() && s.take(p.len() as int) == p
}

/// Computes [`starts_with`].
pub fn begins_with(s: &[char], p: &str) -> (r: bool)
    ensures
        r == starts_with(s@, p@),
{
    let q = chars_of(p);
    if q.len() > s.len() {
        return false;
    }
    let mut i: usize = 0;
    while i < q.len()
        invariant
            q@ == p@,
            i <= q@.len() <= s@.len(),
            forall|j: int| 0 <= j < i ==> s@[j] == q@[j],
        decreases q@.len() - i,
    {
        if s[i] != q[i] {
            assert(s@.take(p@.len() as int)[i as int] != p@[i as int]);
            return false;
        }
        i = i + 1;
    }
    assert(s@.take(p@.len() as int) =~= p@);
    true
}

/// Whether `s` holds exactly the characters of `p`.
pub fn is_text(s: &[char], p: &str) -> (r: bool)
    ensures
        r == (s@ == p@),
{
    let r = begins_with(s, p) && s.len() == chars_of(p).len();
    proof {
        if r {
            assert(s@.take(p@.len() as int) =~= s@);
        } else if s@ == p@ {
            assert(s@.take(p@.len() as int) =~= s@);
        }
    }
    r
}

/// `s` with every `from` replaced by `to`.
pub open spec fn replace(s: Seq<char>, from: char, to: char) -> Seq<char> {
    s.map_values(|c: char| if c == from { to } else { c })
}

/// Computes [`replace`].
pub fn replaced(s: &[char], from: char, to: char) -> (r: Vec<char>)
    ensures
        r@ == replace(s@, from, to),
{
    let mut r: Vec<char> = Vec::new();
    let mut i: usize = 0;
    while i < s.len()
        invariant
            i <= s@.len(),
            r@ =~= replace(s@, from, to).take(i as int),
        decreases s@.len() - i,
    {
        r.push(if s[i] == from { to } else { s[i] });
        i = i + 1;
    }
    r
}

// ── lower case ───────────────────────────────────────────────────────────────

/// Whether every character is ASCII.
pub open spec fn all_ascii(s: Seq<char>) -> bool {
    forall|i: int| 0 <= i < s.len() ==> #[trigger] s[i] <= '\u{7f}'
}

/// The lower case form of an ASCII character.
pub open spec fn ascii_lower(c: char) -> char {
    if 'A' <= c <= 'Z' {
        ((c as u32) + 32) as char
    } else {
        c
    }
}

/// A text with its ASCII letters in lower case.
pub open spec fn ascii_lowered(s: Seq<char>) -> Seq<char> {
    s.map_values(|c: char| ascii_lower(c))
}

/// The lower case form of a text: its ASCII letters one by one, the rest as
/// Unicode has it. (To Unicode, an ASCII letter is a cased letter in either case,
/// so that the rest does not depend on which of the two stands there.)
pub open spec fn lower(s: Seq<char>) -> Seq<char> {
    if all_ascii(s) {
        ascii_lowered(s)
    } else {
        unicode_lowercase(ascii_lowered(s))
    }
}

/// Computes [`ascii_lower`].
fn lowered_char(c: char) -> (r: char)
    ensures
        r == ascii_lower(c),
{
    if 'A' <= c && c <= 'Z' {
        ((c as u8) + 32) as char
    } else {
        c
    }
}

/// Computes [`lower`].
pub fn lowered(s: &str) -> (r: String)
    ensures
        r@ == lower(s@),
{
    let v = chars_of(s);
    let mut r = String::new();
    let mut ascii = true;
    let mut i: usize = 0;
    while i < v.len()
        invariant
            v@ == s@,
            i <= v@.len(),
            ascii <==> all_ascii(v@.take(i as int)),
            r@ =~= ascii_lowered(v@.take(i as int)),
        decreases v@.len() - i,
    {
        proof {
            let a = v@.take(i as int);
            let b = v@.take(i + 1);
            assert(b =~= a.push(v@[i as int]));
            if all_ascii(b) {
                assert forall|j: int| 0 <= j < a.len() implies #[trigger] a[j] <= '\u{7f}' by {
                    assert(b[j] == a[j]);
                }
                assert(b[i as int] <= '\u{7f}');
            }
        }
        if v[i] > '\u{7f}' {
            ascii = false;
        }
        r.push(lowered_char(v[i]));
        i = i + 1;
    }
    assert(v@.take(i as int) =~= s@);
    if ascii {
        r
    } else {
        to_unicode_lowercase(r.as_str())
    }
}

/// Texts that differ in the case of ASCII letters alone have the same lower case
/// form, whatever else they hold.
pub proof fn law_lower_ignores_ascii_case(a: Seq<char>, b: Seq<char>)
    requires
        ascii_lowered(a) == ascii_lowered(b),
    ensures
        lower(a) == lower(b),
{
    lemma_ascii_lowered(a);
    lemma_ascii_lowered(b);
}

proof fn lemma_ascii_lowered(s: Seq<char>)
    ensures
        all_ascii(s) <==> all_ascii(ascii_lowered(s)),
{
    let t = ascii_lowered(s);
    assert(t.len() == s.len());
    if all_ascii(s) {
        assert forall|i: int| 0 <= i < t.len() implies #[trigger] t[i] <= '\u{7f}' by {
            assert(s[i] <= '\u{7f}');
            assert(t[i] == ascii_lower(s[i]));
        }
    }
    if all_ascii(t) {
        assert forall|i: int| 0 <= i < s.len() implies #[trigger] s[i] <= '\u{7f}' by {
            assert(t[i] == ascii_lower(s[i]));
            assert(t[i] <= '\u{7f}');
        }
    }
}

// ── lines, words, parts ──────────────────────────────────────────────────────

/// A line without the carriage return at its end.
pub open spec fn strip_cr(s: Seq<char>) -> Seq<char> {
    if s.len() > 0 && s.last() == '\r' {
        s.drop_last()
    } else {
        s
    }
}

/// The lines of a text. A line ends with a line feed, or with a carriage return
/// and a line feed, neither of which belongs to it; the last may end without.
pub open spec fn lines(s: Seq<char>) -> Seq<Seq<char>>
    decreases s.len(),
    via lines_decreases
{
    let n = find(s, '\n');
    if s.len() == 0 {
        seq![]
    } else if n >= s.len() {
        seq![s]
    } else {
        seq![strip_cr(s.take(n as int))] + lines(s.skip(n as int + 1))
    }
}

#[via_fn]
proof fn lines_decreases(s: Seq<char>) {
    lemma_run(s, CharClass::Except('\n'));
}

/// The parts of a text between the `sep`s, of which there is at least one.
pub open spec fn split(s: Seq<char>, sep: char) -> Seq<Seq<char>>
    decreases s.len(),
    via split_decreases
{
    let n = find(s, sep);
    if n >= s.len() {
        seq![s]
    } else {
        seq![s.take(n as int)] + split(s.skip(n as int + 1), sep)
    }
}

#[via_fn]
proof fn split_decreases(s: Seq<char>, sep: char) {
    lemma_run(s, CharClass::Except(sep));
}

/// The maximal pieces of a text that hold no white space.
pub open spec fn words(s: Seq<char>) -> Seq<Seq<char>>
    decreases s.len(),
    via words_decreases
{
    let t = trim_start_of(s, CharClass::White);
    let n = run(t, CharClass::Visible);
    if t.len() == 0 {
        seq![]
    } else {
        seq![t.take(n as int)] + words(t.skip(n as int))
    }
}

#[via_fn]
proof fn words_decreases(s: Seq<char>) {
    lemma_run(s, CharClass::White);
    let t = trim_start_of(s, CharClass::White);
    lemma_run(t, CharClass::Visible);
    if t.len() > 0 {
        assert(t[0] == s[run(s, CharClass::White) as int]);
    }
}

/// The parts put together with `sep` between them.
pub open spec fn join(parts: Seq<Seq<char>>, sep: Seq<char>) -> Seq<char>
    decreases parts.len(),
{
    if parts.len() == 0 {
        seq![]
    } else if parts.len() == 1 {
        parts[0]
    } else {
        join(parts.drop_last(), sep) + sep + parts.last()
    }
}

/// The characters of each row.
pub open spec fn rows(v: Seq<&[char]>) -> Seq<Seq<char>> {
    v.map_values(|r: &[char]| r@)
}

/// Computes [`lines`].
pub fn lines_of<'a>(s: &'a [char]) -> (r: Vec<&'a [char]>)
    ensures
        rows(r@) == lines(s@),
{
    let mut r: Vec<&'a [char]> = Vec::new();
    let mut rest: &'a [char] = s;
    assert(rows(r@) + lines(rest@) =~= lines(s@));
    while rest.len() > 0
        invariant
            rows(r@) + lines(rest@) == lines(s@),
        decreases rest@.len(),
    {
        let n: usize = run_of(rest, CharClass::Except('\n'));
        let ghost before = rows(r@);
        if n == rest.len() {
            r.push(rest);
            let whole: &'a [char] = rest;
            rest = &rest[n..n];
            proof {
                assert(rows(r@) =~= before.push(whole@));
                assert(lines(rest@) =~= Seq::<Seq<char>>::empty());
            }
        } else {
            let line: &'a [char] = if n > 0 && rest[n - 1] == '\r' {
                &rest[0..n - 1]
            } else {
                &rest[0..n]
            };
            let ghost old_rest = rest@;
            assert(line@ =~= strip_cr(rest@.take(n as int)));
            r.push(line);
            rest = &rest[n + 1..rest.len()];
            proof {
                assert(rest@ =~= old_rest.skip(n + 1));
                assert(rows(r@) =~= before.push(line@));
                assert(rows(r@) + lines(rest@) =~= before + lines(old_rest));
            }
        }
    }
    assert(rows(r@) + lines(rest@) =~= rows(r@));
    r
}

/// Computes [`split`].
pub fn split_of<'a>(s: &'a [char], sep: char) -> (r: Vec<&'a [char]>)
    ensures
        rows(r@) == split(s@, sep),
{
    let mut r: Vec<&'a [char]> = Vec::new();
    let mut rest: &'a [char] = s;
    let mut n: usize = run_of(rest, CharClass::Except(sep));
    assert(rows(r@) + split(rest@, sep) =~= split(s@, sep));
    while n < rest.len()
        invariant
            n == find(rest@, sep),
            n <= rest@.len(),
            rows(r@) + split(rest@, sep) == split(s@, sep),
        decreases rest@.len(),
    {
        let ghost before = rows(r@);
        let ghost old_rest = rest@;
        let part: &'a [char] = &rest[0..n];
        r.push(part);
        rest = &rest[n + 1..rest.len()];
        proof {
            assert(rest@ =~= old_rest.skip(n + 1));
            assert(rows(r@) =~= before.push(part@));
            assert(rows(r@) + split(rest@, sep) =~= before + split(old_rest, sep));
        }
        n = run_of(rest, CharClass::Except(sep));
    }
    let ghost before = rows(r@);
    r.push(rest);
    assert(rows(r@) =~= before + seq![rest@]);
    r
}

/// Computes [`words`].
pub fn words_of<'a>(s: &'a [char]) -> (r: Vec<&'a [char]>)
    ensures
        rows(r@) == words(s@),
{
    let mut r: Vec<&'a [char]> = Vec::new();
    let mut rest: &'a [char] = s;
    let mut t: &'a [char] = trimmed_start(rest, CharClass::White);
    assert(rows(r@) + words(rest@) =~= words(s@));
    while t.len() > 0
        invariant
            t@ == trim_start_of(rest@, CharClass::White),
            rows(r@) + words(rest@) == words(s@),
        decreases rest@.len(),
    {
        let ghost before = rows(r@);
        let ghost old_rest = rest@;
        let n: usize = run_of(t, CharClass::Visible);
        proof {
            lemma_run(rest@, CharClass::White);
            assert(t@[0] == rest@[run(rest@, CharClass::White) as int]);
        }
        let word: &'a [char] = &t[0..n];
        r.push(word);
        rest = &t[n..t.len()];
        proof {
            assert(rest@ =~= t@.skip(n as int));
            assert(rows(r@) =~= before.push(word@));
            assert(rows(r@) + words(rest@) =~= before + words(old_rest));
        }
        t = trimmed_start(rest, CharClass::White);
    }
    assert(rows(r@) + words(rest@) =~= rows(r@));
    r
}

/// Lines of a text whose first part ends where a line ends are the lines of the
/// two parts.
pub proof fn lemma_lines_add(a: Seq<char>, b: Seq<char>)
    requires
        a.len() == 0 || a.last() == '\n',
    ensures
        lines(a + b) == lines(a) + lines(b),
    decreases a.len(),
{
    let s = a + b;
    if a.len() == 0 {
        assert(s =~= b);
        assert(lines(a) + lines(b) =~= lines(b));
    } else {
        let k = CharClass::Except('\n');
        let n = find(a, '\n');
        lemma_run(a, k);
        if n == a.len() {
            assert(k.has(a[a.len() - 1]));
        }
        assert forall|i: int| 0 <= i < n implies k.has(#[trigger] s[i]) by {
            assert(k.has(a[i]));
        }
        assert(s[n as int] == a[n as int]);
        lemma_run_is(s, k, n);
        let rest = a.skip(n as int + 1);
        if rest.len() > 0 {
            assert(rest.last() == a.last());
        }
        lemma_lines_add(rest, b);
        assert(s.take(n as int) =~= a.take(n as int));
        assert(s.skip(n as int + 1) =~= rest + b);
        let head = seq![strip_cr(a.take(n as int))];
        assert(head + (lines(rest) + lines(b)) =~= (head + lines(rest)) + lines(b));
    }
}

// ── laws ─────────────────────────────────────────────────────────────────────

/// Whether all characters of a text are white space.
pub open spec fn blank(s: Seq<char>) -> bool {
    forall|i: int| 0 <= i < s.len() ==> is_white(#[trigger] s[i])
}

/// Whether a text has neither white space at its start nor at its end.
pub open spec fn tight(s: Seq<char>) -> bool {
    s.len() > 0 ==> !is_white(s[0]) && !is_white(s.last())
}

/// Which characters the classes hold.
pub proof fn law_classes(c: char, x: char)
    ensures
        CharClass::White.has(c) <==> is_white(c),
        CharClass::Visible.has(c) <==> !is_white(c),
        CharClass::Only(x).has(c) <==> c == x,
        CharClass::Except(x).has(c) <==> c != x,
        CharClass::LineEnd.has(c) <==> c == '\r' || c == '\n',
        CharClass::LinkName.has(c) <==> c != ']' && c != '|' && c != '#',
        CharClass::NotTag.has(c) <==> !is_tag_char(c),
{
}

/// Tags are written with ASCII letters and digits, `-` and `_`, and with what
/// Unicode counts among the letters and digits beyond ASCII.
pub proof fn law_tag_characters(c: char)
    ensures
        is_tag_char(c) <==> {
            ||| 'a' <= c <= 'z'
            ||| 'A' <= c <= 'Z'
            ||| '0' <= c <= '9'
            ||| c == '-'
            ||| c == '_'
            ||| c > '\u{7f}' && unicode_alphanumeric(c)
        },
{
}

/// What a text begins with, if the class holds it all, is left out when the text
/// is trimmed at its start, and nothing behind it is.
pub proof fn law_trim_start(a: Seq<char>, m: Seq<char>, k: CharClass)
    requires
        forall|i: int| 0 <= i < a.len() ==> k.has(#[trigger] a[i]),
        m.len() > 0 ==> !k.has(m[0]),
    ensures
        trim_start_of(a + m, k) == m,
{
    let s = a + m;
    assert forall|i: int| 0 <= i < a.len() implies k.has(#[trigger] s[i]) by {
        assert(s[i] == a[i]);
    }
    if m.len() > 0 {
        assert(s[a.len() as int] == m[0]);
    }
    lemma_run_is(s, k, a.len());
    assert(s.skip(a.len() as int) =~= m);
}

/// The counterpart of [`law_trim_start`] at the end of a text.
pub proof fn law_trim_end(m: Seq<char>, b: Seq<char>, k: CharClass)
    requires
        forall|i: int| 0 <= i < b.len() ==> k.has(#[trigger] b[i]),
        m.len() > 0 ==> !k.has(m.last()),
    ensures
        trim_end_of(m + b, k) == m,
{
    let s = m + b;
    assert forall|i: int| s.len() - b.len() <= i < s.len() implies k.has(#[trigger] s[i]) by {
        assert(s[i] == b[i - m.len()]);
    }
    if m.len() > 0 {
        assert(s[m.len() - 1] == m.last());
    }
    lemma_tail_run_is(s, k, b.len());
    assert(s.take(m.len() as int) =~= m);
}

/// Trimming takes away the white space around a text, and nothing else.
pub proof fn law_trim(a: Seq<char>, m: Seq<char>, b: Seq<char>)
    requires
        blank(a),
        tight(m),
        blank(b),
    ensures
        trim(a + m + b) == m,
{
    let k = CharClass::White;
    let s = a + m + b;
    if m.len() == 0 {
        let all = a + b;
        assert(s =~= all + m);
        assert forall|i: int| 0 <= i < all.len() implies k.has(#[trigger] all[i]) by {
            if i < a.len() {
                assert(is_white(a[i]));
            } else {
                assert(is_white(b[i - a.len()]));
            }
        }
        law_trim_start(all, m, k);
        law_trim_end(m, seq![], k);
        assert(m + seq![] =~= m);
    } else {
        assert(s =~= a + (m + b));
        assert forall|i: int| 0 <= i < a.len() implies k.has(#[trigger] a[i]) by {
            assert(is_white(a[i]));
        }
        assert forall|i: int| 0 <= i < b.len() implies k.has(#[trigger] b[i]) by {
            assert(is_white(b[i]));
        }
        law_trim_start(a, m + b, k);
        law_trim_end(m, b, k);
    }
}

/// Every text is white space, what trimming leaves of it, and white space; what is
/// left is tight.
pub proof fn lemma_trim_parts(s: Seq<char>) -> (r: (Seq<char>, Seq<char>))
    ensures
        s == r.0 + trim(s) + r.1,
        blank(r.0),
        blank(r.1),
        tight(trim(s)),
{
    let k = CharClass::White;
    let n = run(s, k) as int;
    lemma_run(s, k);
    let t = s.skip(n);
    lemma_tail_run(t, k);
    let m = t.len() - tail_run(t, k);
    let a = s.take(n);
    let b = t.skip(m);
    assert(s =~= a + t.take(m) + b);
    assert forall|i: int| 0 <= i < a.len() implies is_white(#[trigger] a[i]) by {
        assert(k.has(s[i]));
    }
    assert forall|i: int| 0 <= i < b.len() implies is_white(#[trigger] b[i]) by {
        assert(k.has(t[m + i]));
    }
    if m > 0 {
        assert(t[0] == s[n]);
        assert(trim(s)[0] == t[0]);
        assert(trim(s).last() == t[m - 1]);
    }
    (a, b)
}

/// Where a text that holds no `sep` stands before a `sep`, it is the first part,
/// and the other parts are those of what stands behind; a text without a `sep` is
/// its only part.
pub proof fn law_split(a: Seq<char>, b: Seq<char>, sep: char)
    requires
        !a.contains(sep),
    ensures
        split(a, sep) == seq![a],
        split(a + seq![sep] + b, sep) == seq![a] + split(b, sep),
{
    let k = CharClass::Except(sep);
    assert forall|i: int| 0 <= i < a.len() implies k.has(#[trigger] a[i]) by {
        assert(a.contains(a[i]));
    }
    lemma_run_is(a, k, a.len());
    let s = a + seq![sep] + b;
    assert forall|i: int| 0 <= i < a.len() implies k.has(#[trigger] s[i]) by {
        assert(s[i] == a[i]);
    }
    assert(s[a.len() as int] == sep);
    lemma_run_is(s, k, a.len());
    assert(s.take(a.len() as int) =~= a);
    assert(s.skip(a.len() as int + 1) =~= b);
}

/// A text up to a line feed is the first line, without a carriage return before the
/// line feed; the other lines are those of what stands behind. A text without a
/// line feed is its only line, and an empty one has none.
pub proof fn law_lines(a: Seq<char>, b: Seq<char>)
    requires
        !a.contains('\n'),
    ensures
        a.len() == 0 ==> lines(a) == Seq::<Seq<char>>::empty(),
        a.len() > 0 ==> lines(a) == seq![a],
        (a.len() == 0 || a.last() != '\r') ==> lines(a + seq!['\n'] + b) == seq![a] + lines(b),
        lines(a + seq!['\r', '\n'] + b) == seq![a] + lines(b),
{
    let k = CharClass::Except('\n');
    assert forall|i: int| 0 <= i < a.len() implies k.has(#[trigger] a[i]) by {
        assert(a.contains(a[i]));
    }
    lemma_run_is(a, k, a.len());
    let s = a + seq!['\n'] + b;
    assert forall|i: int| 0 <= i < a.len() implies k.has(#[trigger] s[i]) by {
        assert(s[i] == a[i]);
    }
    assert(s[a.len() as int] == '\n');
    lemma_run_is(s, k, a.len());
    assert(s.take(a.len() as int) =~= a);
    assert(s.skip(a.len() as int + 1) =~= b);
    let n = a.len() as int + 1;
    let t = a + seq!['\r', '\n'] + b;
    assert forall|i: int| 0 <= i < n implies k.has(#[trigger] t[i]) by {
        if i < a.len() {
            assert(t[i] == a[i]);
        }
    }
    assert(t[n] == '\n');
    lemma_run_is(t, k, n as nat);
    assert(t.take(n) =~= a.push('\r'));
    assert(a.push('\r').drop_last() =~= a);
    assert(t.skip(n + 1) =~= b);
}

/// A text without white space, up to a white space character, is the first word;
/// the other words are those of what stands behind. White space at the start of a
/// text does not count, and an empty text has no words.
pub proof fn law_words(w: Seq<char>, c: char, b: Seq<char>)
    requires
        w.len() > 0,
        forall|i: int| 0 <= i < w.len() ==> !is_white(#[trigger] w[i]),
        is_white(c),
    ensures
        words(Seq::<char>::empty()) == Seq::<Seq<char>>::empty(),
        words(w) == seq![w],
        words(w + seq![c] + b) == seq![w] + words(b),
        words(seq![c] + b) == words(b),
{
    let white = CharClass::White;
    let none = Seq::<char>::empty();
    lemma_run_is(none, white, 0);
    assert(none.skip(0) =~= none);
    lemma_first_word(w, none);
    assert(w + none =~= w);
    assert(words(w) =~= seq![w]);
    let rest = seq![c] + b;
    lemma_first_word(w, rest);
    assert(w + rest =~= w + seq![c] + b);
    lemma_run(b, white);
    let n = run(b, white);
    assert forall|i: int| 0 <= i < n + 1 implies white.has(#[trigger] rest[i]) by {
        if i > 0 {
            assert(rest[i] == b[i - 1]);
        }
    }
    if n < b.len() {
        assert(rest[n as int + 1] == b[n as int]);
    }
    lemma_run_is(rest, white, n + 1);
    assert(rest.skip(n as int + 1) =~= b.skip(n as int));
}

proof fn lemma_first_word(w: Seq<char>, rest: Seq<char>)
    requires
        w.len() > 0,
        forall|i: int| 0 <= i < w.len() ==> !is_white(#[trigger] w[i]),
        rest.len() > 0 ==> is_white(rest[0]),
    ensures
        words(w + rest) == seq![w] + words(rest),
{
    let s = w + rest;
    assert(s[0] == w[0]);
    lemma_run_is(s, CharClass::White, 0);
    assert(s.skip(0) =~= s);
    assert forall|i: int| 0 <= i < w.len() implies CharClass::Visible.has(#[trigger] s[i]) by {
        assert(s[i] == w[i]);
    }
    if rest.len() > 0 {
        assert(s[w.len() as int] == rest[0]);
    }
    lemma_run_is(s, CharClass::Visible, w.len());
    assert(s.take(w.len() as int) =~= w);
    assert(s.skip(w.len() as int) =~= rest);
}

/// Parts are put together one behind the other, with `sep` between any two.
pub proof fn law_join(parts: Seq<Seq<char>>, last: Seq<char>, sep: Seq<char>)
    ensures
        join(Seq::<Seq<char>>::empty(), sep) == Seq::<char>::empty(),
        join(seq![last], sep) == last,
        parts.len() > 0 ==> join(parts.push(last), sep) == join(parts, sep) + sep + last,
{
    assert(parts.push(last).drop_last() =~= parts);
}

/// Replacing a character changes that character wherever it stands, and no other.
pub proof fn law_replace(s: Seq<char>, from: char, to: char)
    ensures
        replace(s, from, to).len() == s.len(),
        forall|i: int|
            0 <= i < s.len() ==> #[trigger] replace(s, from, to)[i] == if s[i] == from {
                to
            } else {
                s[i]
            },
{
}

/// Whether `t` is `s` with its ASCII letters in lower case.
pub open spec fn lowers(s: Seq<char>, t: Seq<char>) -> bool {
    s.len() == t.len() && forall|i: int|
        0 <= i < s.len() ==> #[trigger] t[i] == if 'A' <= s[i] <= 'Z' {
            ((s[i] as u32) + 32) as char
        } else {
            s[i]
        }
}

/// The lower case form of an ASCII text has its letters in lower case; that of
/// another text is what Unicode makes of the text with its ASCII letters in lower
/// case.
pub proof fn law_lower(s: Seq<char>, t: Seq<char>)
    requires
        lowers(s, t),
    ensures
        (forall|i: int| 0 <= i < s.len() ==> #[trigger] s[i] <= '\u{7f}') ==> lower(s) == t,
        (exists|i: int| 0 <= i < s.len() && #[trigger] s[i] > '\u{7f}') ==> lower(s)
            == unicode_lowercase(t),
{
    assert(ascii_lowered(s) =~= t);
}

/// A text begins with another exactly if it is that one and more.
pub proof fn law_starts_with(p: Seq<char>, rest: Seq<char>, s: Seq<char>)
    ensures
        starts_with(p + rest, p),
        starts_with(s, p) ==> s == p + s.skip(p.len() as int),
{
    assert((p + rest).take(p.len() as int) =~= p);
    if starts_with(s, p) {
        assert(s =~= s.take(p.len() as int) + s.skip(p.len() as int));
    }
}

/// Parts put together are the first one, the separator and the other parts put
/// together.
pub proof fn lemma_join_first(parts: Seq<Seq<char>>, sep: Seq<char>)
    requires
        parts.len() >= 2,
    ensures
        join(parts, sep) == parts[0] + sep + join(parts.drop_first(), sep),
    decreases parts.len(),
{
    if parts.len() == 2 {
        assert(parts.drop_last() =~= seq![parts[0]]);
        assert(parts.drop_first() =~= seq![parts[1]]);
        assert(join(parts.drop_last(), sep) == parts[0]);
        assert(join(parts.drop_first(), sep) == parts[1]);
    } else {
        let a = parts.drop_last();
        let b = parts.drop_first();
        lemma_join_first(a, sep);
        assert(a.drop_first() =~= b.drop_last());
        assert(b.last() == parts.last());
        assert(join(b, sep) == join(b.drop_last(), sep) + sep + b.last());
        assert(join(parts, sep) =~= parts[0] + sep + join(b, sep));
    }
}

/// The parts of a text, put together with the separator, are the text.
pub proof fn law_split_join(s: Seq<char>, sep: char)
    ensures
        join(split(s, sep), seq![sep]) == s,
        split(s, sep).len() >= 1,
        forall|i: int| 0 <= i < split(s, sep).len() ==> !(#[trigger] split(s, sep)[i]).contains(sep),
    decreases s.len(),
{
    let k = CharClass::Except(sep);
    let n = find(s, sep) as int;
    lemma_run(s, k);
    let a = s.take(n);
    assert(!a.contains(sep)) by {
        assert forall|i: int| 0 <= i < a.len() implies a[i] != sep by {
            assert(k.has(s[i]));
        }
    }
    if n == s.len() {
        assert(s =~= a);
        law_split(a, a, sep);
    } else {
        let b = s.skip(n + 1);
        assert(s =~= a + seq![sep] + b);
        law_split(a, b, sep);
        law_split_join(b, sep);
        let parts = seq![a] + split(b, sep);
        assert(parts.drop_first() =~= split(b, sep));
        lemma_join_first(parts, seq![sep]);
        assert forall|i: int| 0 <= i < parts.len() implies !(#[trigger] parts[i]).contains(sep) by {
            if i > 0 {
                assert(parts[i] == split(b, sep)[i - 1]);
            }
        }
    }
}

} // verus!
