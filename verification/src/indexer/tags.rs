//! Inline `#tags` in the body of a note.
use vstd::prelude::*;

use crate::text;
use crate::text::{
    begins_with, chars_of, lines_of, string_of, tag_char, trimmed_end, trimmed_start, words_of,
    CharClass,
};

verus! {

/// The tag that a word stands for: it begins with `#`; what is left without the
/// `#`s at its start and the punctuation at its end must be tag characters alone.
pub open spec fn word_tag(w: Seq<char>) -> Option<Seq<char>> {
    let t = text::trim_end_of(
        text::trim_start_of(w, CharClass::Only('#')),
        CharClass::NotTag,
    );
    if w.len() > 1 && w[0] == '#' && t.len() > 0 && (forall|i: int|
        0 <= i < t.len() ==> text::is_tag_char(#[trigger] t[i])) {
        Some(t)
    } else {
        None
    }
}

/// The tags among words, in order.
pub open spec fn word_tags(ws: Seq<Seq<char>>) -> Seq<Seq<char>>
    decreases ws.len(),
{
    if ws.len() == 0 {
        seq![]
    } else {
        let before = word_tags(ws.drop_last());
        match word_tag(ws.last()) {
            Some(t) => before.push(t),
            None => before,
        }
    }
}

/// Whether a line opens or closes a fenced code block.
pub open spec fn is_fence(line: Seq<char>) -> bool {
    let t = text::trim_start_of(line, CharClass::White);
    text::starts_with(t, "```"@) || text::starts_with(t, "~~~"@)
}

/// Whether the line behind these lines stands inside a fenced code block.
pub open spec fn inside_fence(lines: Seq<Seq<char>>) -> bool
    decreases lines.len(),
{
    if lines.len() == 0 {
        false
    } else if is_fence(lines.last()) {
        !inside_fence(lines.drop_last())
    } else {
        inside_fence(lines.drop_last())
    }
}

/// The tags in lines, but for those in fenced code blocks.
pub open spec fn line_tags(lines: Seq<Seq<char>>) -> Seq<Seq<char>>
    decreases lines.len(),
{
    if lines.len() == 0 {
        seq![]
    } else {
        let before = line_tags(lines.drop_last());
        if is_fence(lines.last()) || inside_fence(lines.drop_last()) {
            before
        } else {
            before + word_tags(text::words(lines.last()))
        }
    }
}

/// The inline tags of a markdown body.
pub open spec fn inline_tags(body: Seq<char>) -> Seq<Seq<char>> {
    line_tags(text::lines(body))
}

/// Computes [`word_tag`].
fn tag_of_word(w: &[char]) -> (r: Option<String>)
    ensures
        r.deep_view() == word_tag(w@),
{
    if w.len() <= 1 || w[0] != '#' {
        return None;
    }
    let t = trimmed_end(trimmed_start(w, CharClass::Only('#')), CharClass::NotTag);
    if t.len() == 0 {
        return None;
    }
    let mut i: usize = 0;
    while i < t.len()
        invariant
            i <= t@.len(),
            t@ == text::trim_end_of(
                text::trim_start_of(w@, CharClass::Only('#')),
                CharClass::NotTag,
            ),
            forall|j: int| 0 <= j < i ==> text::is_tag_char(#[trigger] t@[j]),
        decreases t@.len() - i,
    {
        if !tag_char(t[i]) {
            assert(!text::is_tag_char(t@[i as int]));
            return None;
        }
        i = i + 1;
    }
    Some(string_of(t))
}

/// Extracts the inline `#tags` of a markdown body, in order. Fenced code blocks
/// (``` or ~~~) are left out, so that `#include` and the like are no tags.
pub fn extract_inline_tags(body: &str) -> (r: Vec<String>)
    ensures
        r.deep_view() == inline_tags(body@),
{
    let chars = chars_of(body);
    let lines = lines_of(chars.as_slice());
    let ghost all = text::lines(body@);
    let mut tags: Vec<String> = Vec::new();
    let mut in_fence = false;
    let mut i: usize = 0;
    assert(tags.deep_view() =~= line_tags(all.take(0)));
    while i < lines.len()
        invariant
            i <= lines@.len(),
            all == text::rows(lines@),
            in_fence == inside_fence(all.take(i as int)),
            tags.deep_view() == line_tags(all.take(i as int)),
        decreases lines@.len() - i,
    {
        let line: &[char] = lines[i];
        proof {
            assert(all.take(i + 1).drop_last() =~= all.take(i as int));
            assert(all.take(i + 1).last() == line@);
        }
        let start = trimmed_start(line, CharClass::White);
        if begins_with(start, "```") || begins_with(start, "~~~") {
            in_fence = !in_fence;
        } else if !in_fence {
            let words = words_of(line);
            let ghost ws = text::words(line@);
            let ghost before = tags.deep_view();
            let mut j: usize = 0;
            assert(before + word_tags(ws.take(0)) =~= before);
            while j < words.len()
                invariant
                    j <= words@.len(),
                    ws == text::rows(words@),
                    tags.deep_view() == before + word_tags(ws.take(j as int)),
                decreases words@.len() - j,
            {
                proof {
                    assert(ws.take(j + 1).drop_last() =~= ws.take(j as int));
                    assert(ws.take(j + 1).last() == words@[j as int]@);
                }
                let ghost had = tags.deep_view();
                if let Some(t) = tag_of_word(words[j]) {
                    tags.push(t);
                    assert(tags.deep_view() =~= had.push(t@));
                    assert(had.push(t@) =~= before + word_tags(ws.take(j as int)).push(t@));
                }
                j = j + 1;
            }
            assert(ws.take(j as int) =~= ws);
        }
        i = i + 1;
    }
    assert(all.take(i as int) =~= all);
    tags
}

// ── laws ─────────────────────────────────────────────────────────────────────

proof fn lemma_word_tags(ws: Seq<Seq<char>>, i: int)
    requires
        0 <= i < word_tags(ws).len(),
    ensures
        clean_tag(word_tags(ws)[i]),
    decreases ws.len(),
{
    if ws.len() > 0 {
        let before = word_tags(ws.drop_last());
        if i < before.len() {
            lemma_word_tags(ws.drop_last(), i);
        }
    }
}

/// Whether a text is a tag: not empty, and made of tag characters alone.
pub open spec fn clean_tag(t: Seq<char>) -> bool {
    t.len() > 0 && forall|i: int| 0 <= i < t.len() ==> text::is_tag_char(#[trigger] t[i])
}

proof fn lemma_line_tags(lines: Seq<Seq<char>>, i: int)
    requires
        0 <= i < line_tags(lines).len(),
    ensures
        clean_tag(line_tags(lines)[i]),
    decreases lines.len(),
{
    if lines.len() > 0 {
        let before = line_tags(lines.drop_last());
        if i < before.len() {
            lemma_line_tags(lines.drop_last(), i);
        } else {
            lemma_word_tags(text::words(lines.last()), i - before.len());
        }
    }
}

/// Every inline tag is made of letters, digits, `-` and `_`, without its `#`.
pub proof fn law_inline_tags_clean(body: Seq<char>, i: int)
    requires
        0 <= i < inline_tags(body).len(),
    ensures
        clean_tag(inline_tags(body)[i]),
{
    lemma_line_tags(text::lines(body), i);
}

/// A line inside a fenced code block adds no tags, whatever it holds.
pub proof fn law_fenced_lines_untagged(before: Seq<Seq<char>>, line: Seq<char>)
    requires
        inside_fence(before),
    ensures
        line_tags(before.push(line)) == line_tags(before),
{
    assert(before.push(line).drop_last() =~= before);
}

/// Whether a text is one line, its line feed included, that opens or closes a
/// fenced code block.
pub open spec fn fence_line(s: Seq<char>) -> bool {
    s.len() > 0 && text::find(s, '\n') == s.len() - 1 && is_fence(text::strip_cr(s.drop_last()))
}

/// Whether a text is empty or ends where a line ends.
pub open spec fn whole_lines(s: Seq<char>) -> bool {
    s.len() == 0 || s.last() == '\n'
}

proof fn lemma_tags_add(a: Seq<Seq<char>>, b: Seq<Seq<char>>)
    requires
        !inside_fence(a),
    ensures
        line_tags(a + b) == line_tags(a) + line_tags(b),
        inside_fence(a + b) == inside_fence(b),
    decreases b.len(),
{
    if b.len() == 0 {
        assert(a + b =~= a);
        assert(line_tags(a) + line_tags(b) =~= line_tags(a));
    } else {
        lemma_tags_add(a, b.drop_last());
        assert((a + b).drop_last() =~= a + b.drop_last());
        assert((a + b).last() == b.last());
        assert(line_tags(a + b) =~= line_tags(a) + line_tags(b));
    }
}

proof fn lemma_code_block(open: Seq<char>, code: Seq<Seq<char>>)
    requires
        is_fence(open),
        forall|i: int| 0 <= i < code.len() ==> !is_fence(#[trigger] code[i]),
    ensures
        line_tags(seq![open] + code) == Seq::<Seq<char>>::empty(),
        inside_fence(seq![open] + code),
    decreases code.len(),
{
    let s = seq![open] + code;
    if code.len() == 0 {
        assert(s.last() == open);
        assert(s.drop_last() =~= seq![]);
        assert(!inside_fence(s.drop_last()));
        assert(line_tags(s.drop_last()) =~= seq![]);
    } else {
        let before = code.drop_last();
        assert forall|i: int| 0 <= i < before.len() implies !is_fence(#[trigger] before[i]) by {
            assert(before[i] == code[i]);
        }
        lemma_code_block(open, before);
        assert(s.drop_last() =~= seq![open] + before);
        assert(s.last() == code[code.len() - 1]);
    }
}

proof fn lemma_fence_line(s: Seq<char>)
    requires
        fence_line(s),
    ensures
        text::lines(s) == seq![text::strip_cr(s.drop_last())],
        whole_lines(s),
{
    text::lemma_run(s, CharClass::Except('\n'));
    let n = s.len() - 1;
    assert(s.take(n) =~= s.drop_last());
    assert(s.skip(n + 1) =~= seq![]);
    assert(text::lines(s.skip(n + 1)) =~= seq![]);
    assert(text::lines(s) =~= seq![text::strip_cr(s.drop_last())]);
}

/// A fenced code block between two texts leaves the tags of the first text and,
/// behind them, those of the second. The first must not itself leave a block open,
/// so it has an even number of fence lines.
pub proof fn law_code_block_has_no_tags(
    first: Seq<char>,
    opening: Seq<char>,
    code: Seq<char>,
    closing: Seq<char>,
    second: Seq<char>,
)
    requires
        whole_lines(first),
        !inside_fence(text::lines(first)),
        fence_line(opening),
        whole_lines(code),
        forall|i: int|
            0 <= i < text::lines(code).len() ==> !is_fence(#[trigger] text::lines(code)[i]),
        fence_line(closing),
    ensures
        inline_tags(first + opening + code + closing + second) == inline_tags(first) + inline_tags(
            second,
        ),
{
    let o = text::strip_cr(opening.drop_last());
    let c = text::strip_cr(closing.drop_last());
    let f = text::lines(first);
    let k = text::lines(code);
    let s = text::lines(second);
    lemma_fence_line(opening);
    lemma_fence_line(closing);
    let p1 = first + opening;
    let p2 = p1 + code;
    let p3 = p2 + closing;
    assert(p1.last() == '\n');
    assert(whole_lines(p2)) by {
        if code.len() == 0 {
            assert(p2 =~= p1);
        } else {
            assert(p2.last() == code.last());
        }
    }
    assert(p3.last() == closing.last());
    text::lemma_lines_add(first, opening);
    text::lemma_lines_add(p1, code);
    text::lemma_lines_add(p2, closing);
    text::lemma_lines_add(p3, second);
    let block = seq![o] + k;
    lemma_code_block(o, k);
    let whole = block.push(c);
    assert(whole.drop_last() =~= block);
    assert(!inside_fence(whole));
    assert(line_tags(whole) == Seq::<Seq<char>>::empty());
    lemma_tags_add(f, whole);
    lemma_tags_add(f + whole, s);
    assert(text::lines(p3 + second) =~= (f + whole) + s);
    assert(line_tags(f) + line_tags(whole) =~= line_tags(f));
}

/// A word of `#`s, tag characters and other characters at its end stands for the
/// tag that the tag characters are.
pub proof fn law_word_tag(hashes: Seq<char>, tag: Seq<char>, rest: Seq<char>)
    requires
        hashes.len() > 0,
        forall|i: int| 0 <= i < hashes.len() ==> #[trigger] hashes[i] == '#',
        tag.len() > 0,
        forall|i: int| 0 <= i < tag.len() ==> text::is_tag_char(#[trigger] tag[i]),
        forall|i: int| 0 <= i < rest.len() ==> !text::is_tag_char(#[trigger] rest[i]),
    ensures
        word_tag(hashes + (tag + rest)) == Some(tag),
{
    let w = hashes + (tag + rest);
    let k = CharClass::Only('#');
    assert forall|i: int| 0 <= i < hashes.len() implies k.has(#[trigger] hashes[i]) by {}
    assert(text::is_tag_char(tag[0]));
    text::law_tag_characters('#');
    assert((tag + rest)[0] == tag[0]);
    text::law_trim_start(hashes, tag + rest, k);
    assert forall|i: int| 0 <= i < rest.len() implies CharClass::NotTag.has(
        #[trigger] rest[i],
    ) by {}
    assert(text::is_tag_char(tag[tag.len() - 1]));
    text::law_trim_end(tag, rest, CharClass::NotTag);
    assert(w[0] == hashes[0]);
}

/// A word that does not begin with `#`, or holds no tag character behind its `#`s,
/// or another character before one, stands for no tag.
pub proof fn law_no_word_tag(w: Seq<char>, hashes: Seq<char>, rest: Seq<char>, i: int, j: int)
    requires
        w.len() == 0 || w[0] != '#',
        forall|i: int| 0 <= i < hashes.len() ==> #[trigger] hashes[i] == '#',
        rest.len() > 0 ==> rest[0] != '#',
        (forall|n: int| 0 <= n < rest.len() ==> !text::is_tag_char(#[trigger] rest[n])) || (0 <= i
            < j < rest.len() && !text::is_tag_char(rest[i]) && text::is_tag_char(rest[j])),
    ensures
        word_tag(w) is None,
        word_tag(hashes + rest) is None,
{
    let k = CharClass::Only('#');
    assert forall|n: int| 0 <= n < hashes.len() implies k.has(#[trigger] hashes[n]) by {}
    text::law_trim_start(hashes, rest, k);
    let t = text::trim_end_of(rest, CharClass::NotTag);
    text::lemma_tail_run(rest, CharClass::NotTag);
    if forall|n: int| 0 <= n < rest.len() ==> !text::is_tag_char(#[trigger] rest[n]) {
        let n = rest.len() - text::tail_run(rest, CharClass::NotTag);
        if n > 0 {
            assert(!CharClass::NotTag.has(rest[n - 1]));
        }
    } else {
        let n = rest.len() - text::tail_run(rest, CharClass::NotTag);
        if n <= j {
            assert(CharClass::NotTag.has(rest[j]));
        }
        assert(t[i] == rest[i]);
    }
}

/// The tags of words are those that the words stand for, in their order.
pub proof fn law_one_more_word(ws: Seq<Seq<char>>, w: Seq<char>)
    ensures
        word_tags(Seq::<Seq<char>>::empty()) == Seq::<Seq<char>>::empty(),
        word_tags(ws.push(w)) == match word_tag(w) {
            Some(t) => word_tags(ws).push(t),
            None => word_tags(ws),
        },
{
    assert(ws.push(w).drop_last() =~= ws);
}

/// A line opens or closes a code block exactly if three backticks or three tildes
/// stand at its start, behind white space or not.
pub proof fn law_fence(x: Seq<char>, m: Seq<char>)
    requires
        text::blank(x),
        m.len() > 0 ==> !text::is_white(m[0]),
    ensures
        is_fence(x + m) <==> m.len() >= 3 && ((m[0] == '`' && m[1] == '`' && m[2] == '`') || (m[0]
            == '~' && m[1] == '~' && m[2] == '~')),
{
    reveal_strlit("```");
    reveal_strlit("~~~");
    let k = CharClass::White;
    assert forall|i: int| 0 <= i < x.len() implies k.has(#[trigger] x[i]) by {
        assert(text::is_white(x[i]));
    }
    text::law_trim_start(x, m, k);
    if m.len() >= 3 {
        assert(m.take(3)[0] == m[0] && m.take(3)[1] == m[1] && m.take(3)[2] == m[2]);
        if m[0] == '`' && m[1] == '`' && m[2] == '`' {
            assert(m.take(3) =~= "```"@);
        }
        if m[0] == '~' && m[1] == '~' && m[2] == '~' {
            assert(m.take(3) =~= "~~~"@);
        }
        if m.take(3) == "```"@ {
            assert("```"@[0] == '`' && "```"@[1] == '`' && "```"@[2] == '`');
        }
        if m.take(3) == "~~~"@ {
            assert("~~~"@[0] == '~' && "~~~"@[1] == '~' && "~~~"@[2] == '~');
        }
    }
}

/// A body has the tags of the words of its first line, if that opens no code block,
/// and then those of what follows; an empty body has none.
pub proof fn law_tags_line_by_line(line: Seq<char>, rest: Seq<char>)
    requires
        !line.contains('\n'),
        line.len() > 0 ==> line.last() != '\r',
        !is_fence(line),
    ensures
        inline_tags(Seq::<char>::empty()) == Seq::<Seq<char>>::empty(),
        inline_tags(line) == word_tags(text::words(line)),
        inline_tags(line + seq!['\n'] + rest) == word_tags(text::words(line)) + inline_tags(rest),
        inline_tags(line + seq!['\r', '\n'] + rest) == word_tags(text::words(line)) + inline_tags(
            rest,
        ),
{
    let none = Seq::<Seq<char>>::empty();
    text::law_lines(seq![], seq![]);
    text::law_lines(line, rest);
    let one = seq![line];
    assert(one.drop_last() =~= none);
    assert(one.last() == line);
    assert(!inside_fence(none));
    assert(line_tags(none) =~= none);
    assert(line_tags(one) =~= word_tags(text::words(line)));
    assert(!inside_fence(one));
    lemma_tags_add(one, text::lines(rest));
    if line.len() == 0 {
        text::law_words(seq!['a'], ' ', seq![]);
        assert(line =~= seq![]);
        assert(word_tags(none) =~= none);
    }
}

/// A code block at the start of a body has no tags, whatever it holds; the tags are
/// those of what follows it. A block that is not closed reaches to the end.
pub proof fn law_code_block(opening: Seq<char>, code: Seq<char>, closing: Seq<char>, rest: Seq<char>)
    requires
        !opening.contains('\n'),
        opening.len() > 0 ==> opening.last() != '\r',
        is_fence(opening),
        code.len() == 0 || code.last() == '\n',
        forall|i: int|
            0 <= i < text::lines(code).len() ==> !is_fence(#[trigger] text::lines(code)[i]),
        !closing.contains('\n'),
        closing.len() > 0 ==> closing.last() != '\r',
        is_fence(closing),
    ensures
        inline_tags(opening + seq!['\n'] + (code + (closing + seq!['\n'] + rest))) == inline_tags(
            rest,
        ),
        inline_tags(opening + seq!['\n'] + code) == Seq::<Seq<char>>::empty(),
        inline_tags(opening + seq!['\n'] + (code + closing)) == Seq::<Seq<char>>::empty(),
{
    let tail = closing + seq!['\n'] + rest;
    let k = text::lines(code);
    text::law_lines(opening, code + tail);
    text::law_lines(opening, code);
    text::law_lines(opening, code + closing);
    text::lemma_lines_add(code, tail);
    text::lemma_lines_add(code, closing);
    text::law_lines(closing, rest);
    lemma_code_block(opening, k);
    let block = seq![opening] + k;
    let whole = block.push(closing);
    assert(whole.drop_last() =~= block);
    assert(!inside_fence(whole));
    assert(line_tags(whole) == Seq::<Seq<char>>::empty());
    lemma_tags_add(whole, text::lines(rest));
    assert(text::lines(opening + seq!['\n'] + (code + tail)) =~= whole + text::lines(rest));
    assert(Seq::<Seq<char>>::empty() + inline_tags(rest) =~= inline_tags(rest));
    assert(text::lines(opening + seq!['\n'] + code) =~= block);
    lemma_fence_not_empty(closing);
    assert(text::lines(opening + seq!['\n'] + (code + closing)) =~= whole);
}

proof fn lemma_fence_not_empty(line: Seq<char>)
    requires
        is_fence(line),
    ensures
        line.len() > 0,
{
    if line.len() == 0 {
        let none = Seq::<char>::empty();
        law_fence(none, none);
        assert(none + none =~= line);
    }
}

} // verus!
