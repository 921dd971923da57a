//! Splitting the body of a note into sections at its H1 and H2 headings.
use vstd::prelude::*;
use vstd::string::StringExecFns;

use crate::text;
use crate::text::{
    begins_with, chars_of, lines_of, string_of, trimmed, trimmed_end, CharClass,
};

verus! {

/// A single section of a markdown document.
#[derive(Debug, Clone)]
pub struct Chunk {
    /// The heading text (empty for content before the first heading).
    pub heading: String,
    /// The body of the section, without its heading line.
    pub content: String,
}

/// What a [`Chunk`] holds.
pub struct ChunkModel {
    pub heading: Seq<char>,
    pub content: Seq<char>,
}

impl DeepView for Chunk {
    type V = ChunkModel;

    open spec fn deep_view(&self) -> ChunkModel {
        ChunkModel { heading: self.heading@, content: self.content@ }
    }
}

/// Sections shorter than this many characters are merged into the one before.
pub const MIN_CONTENT: usize = 10;

// ── what chunking is ─────────────────────────────────────────────────────────

/// The heading that a line is, if it is an H1 or an H2.
pub open spec fn heading_of(line: Seq<char>) -> Option<Seq<char>> {
    let l = text::trim_end_of(line, CharClass::White);
    if text::starts_with(l, "## "@) {
        Some(text::trim(l.skip(3)))
    } else if text::starts_with(l, "# "@) {
        Some(text::trim(l.skip(2)))
    } else {
        None
    }
}

/// A heading with the lines up to the next one.
pub struct Section {
    pub heading: Seq<char>,
    pub lines: Seq<Seq<char>>,
}

/// The sections of a document. The first has an empty heading and holds the
/// lines before the first heading line.
pub open spec fn sections(lines: Seq<Seq<char>>) -> Seq<Section>
    decreases lines.len(),
{
    if lines.len() == 0 {
        seq![Section { heading: seq![], lines: seq![] }]
    } else {
        let before = sections(lines.drop_last());
        match heading_of(lines.last()) {
            Some(h) => before.push(Section { heading: h, lines: seq![] }),
            None => before.update(
                before.len() - 1,
                Section {
                    heading: before.last().heading,
                    lines: before.last().lines.push(lines.last()),
                },
            ),
        }
    }
}

/// The chunk that a section becomes: its lines put together and trimmed.
pub open spec fn section_chunk(s: Section) -> ChunkModel {
    ChunkModel {
        heading: s.heading,
        content: text::trim(text::join(s.lines, seq!['\n'])),
    }
}

/// The chunks of the sections. Those without content are left out, but for the
/// first.
pub open spec fn section_chunks(ss: Seq<Section>) -> Seq<ChunkModel>
    decreases ss.len(),
{
    if ss.len() == 0 {
        seq![]
    } else {
        let before = section_chunks(ss.drop_last());
        let c = section_chunk(ss.last());
        if ss.len() == 1 || c.content.len() > 0 {
            before.push(c)
        } else {
            before
        }
    }
}

/// `prev` with the content of a short chunk put on a line of its own behind.
pub open spec fn absorb(prev: ChunkModel, content: Seq<char>) -> ChunkModel {
    ChunkModel {
        heading: prev.heading,
        content: if content.len() == 0 {
            prev.content
        } else if prev.content.len() == 0 {
            content
        } else {
            prev.content.push('\n') + content
        },
    }
}

/// The chunks with each short one, but for the first, merged into the one
/// before it.
pub open spec fn merged(cs: Seq<ChunkModel>) -> Seq<ChunkModel>
    decreases cs.len(),
{
    if cs.len() <= 1 {
        cs
    } else {
        let before = merged(cs.drop_last());
        let c = cs.last();
        if c.content.len() < MIN_CONTENT {
            before.update(before.len() - 1, absorb(before.last(), c.content))
        } else {
            before.push(c)
        }
    }
}

/// The chunks of a markdown body.
pub open spec fn chunks(body: Seq<char>) -> Seq<ChunkModel> {
    merged(section_chunks(sections(text::lines(body))))
}

// ── chunking ─────────────────────────────────────────────────────────────────

/// The heading that a line is, if it is an H1 or an H2.
pub fn parse_heading(line: &[char]) -> (r: Option<String>)
    ensures
        r.deep_view() == heading_of(line@),
{
    let l = trimmed_end(line, CharClass::White);
    proof {
        reveal_strlit("## ");
        reveal_strlit("# ");
    }
    if begins_with(l, "## ") {
        let h: &[char] = &l[3..l.len()];
        assert(h@ =~= l@.skip(3));
        Some(string_of(trimmed(h)))
    } else if begins_with(l, "# ") {
        let h: &[char] = &l[2..l.len()];
        assert(h@ =~= l@.skip(2));
        Some(string_of(trimmed(h)))
    } else {
        None
    }
}

/// The content of a section: its lines put together with line feeds, trimmed.
fn section_content(lines: &Vec<&[char]>) -> (r: String)
    ensures
        r@ == text::trim(text::join(text::rows(lines@), seq!['\n'])),
{
    let mut text: Vec<char> = Vec::new();
    let ghost all = text::rows(lines@);
    let mut i: usize = 0;
    while i < lines.len()
        invariant
            i <= lines@.len(),
            all == text::rows(lines@),
            text@ == text::join(all.take(i as int), seq!['\n']),
        decreases lines@.len() - i,
    {
        let ghost done = text@;
        if i > 0 {
            text.push('\n');
        }
        let line: &[char] = lines[i];
        let ghost headed = text@;
        let mut j: usize = 0;
        while j < line.len()
            invariant
                j <= line@.len(),
                text@ == headed + line@.take(j as int),
            decreases line@.len() - j,
        {
            text.push(line[j]);
            j = j + 1;
            assert(line@.take(j as int) =~= line@.take(j - 1).push(line@[j - 1]));
        }
        proof {
            assert(line@.take(j as int) =~= line@);
            let next = all.take(i + 1);
            assert(next.drop_last() =~= all.take(i as int));
            assert(next.last() == line@);
            if i > 0 {
                assert(headed =~= done + seq!['\n']);
            } else {
                assert(text@ =~= line@);
            }
        }
        i = i + 1;
    }
    assert(all.take(i as int) =~= all);
    string_of(trimmed(text.as_slice()))
}

/// Adds the chunk of a section that has ended, unless it is empty and not the
/// first.
fn flush(chunks: &mut Vec<Chunk>, heading: String, lines: &Vec<&[char]>, Ghost(done): Ghost<
    Seq<Section>,
>)
    requires
        old(chunks).deep_view() == section_chunks(done),
        done.len() == 0 <==> old(chunks)@.len() == 0,
    ensures
        final(chunks).deep_view() == section_chunks(
            done.push(Section { heading: heading@, lines: text::rows(lines@) }),
        ),
        final(chunks)@.len() > 0,
{
    let ghost section = Section { heading: heading@, lines: text::rows(lines@) };
    let ghost before = chunks.deep_view();
    let content = section_content(lines);
    proof {
        assert(done.push(section).drop_last() =~= done);
        assert(before.len() == chunks@.len());
    }
    if !content.as_str().is_empty() || chunks.len() == 0 {
        let c = Chunk { heading, content };
        chunks.push(c);
        proof {
            assert(chunks.deep_view() =~= before.push(section_chunk(section)));
        }
    }
}

/// Splits a markdown body into chunks at H1 and H2 boundaries.
///
/// The preamble (content before the first heading) becomes a chunk with an empty
/// heading. Very short chunks (less than [`MIN_CONTENT`] characters of content)
/// are merged into the previous chunk.
pub fn chunk(body: &str) -> (r: Vec<Chunk>)
    ensures
        r.deep_view() == chunks(body@),
{
    let text = chars_of(body);
    let lines = lines_of(text.as_slice());
    let ghost all = text::lines(body@);
    let mut found: Vec<Chunk> = Vec::new();
    let mut heading = String::new();
    let mut current: Vec<&[char]> = Vec::new();
    let mut i: usize = 0;
    proof {
        let s = sections(all.take(0));
        assert(s.drop_last() =~= Seq::<Section>::empty());
        assert(text::rows(current@) =~= Seq::<Seq<char>>::empty());
        assert(s.last().heading =~= heading@);
        assert(found.deep_view() =~= section_chunks(s.drop_last()));
    }
    while i < lines.len()
        invariant
            i <= lines@.len(),
            all == text::rows(lines@),
            sections(all.take(i as int)).len() >= 1,
            found.deep_view() == section_chunks(sections(all.take(i as int)).drop_last()),
            sections(all.take(i as int)).len() == 1 <==> found@.len() == 0,
            sections(all.take(i as int)).last() == (Section {
                heading: heading@,
                lines: text::rows(current@),
            }),
        decreases lines@.len() - i,
    {
        let line: &[char] = lines[i];
        let ghost before = sections(all.take(i as int));
        proof {
            assert(all.take(i + 1).drop_last() =~= all.take(i as int));
            assert(all.take(i + 1).last() == line@);
        }
        match parse_heading(line) {
            Some(h) => {
                let ghost done = before.drop_last();
                flush(&mut found, heading, &current, Ghost(done));
                proof {
                    assert(done.push(before.last()) =~= before);
                    assert(before.push(Section { heading: h@, lines: seq![] }).drop_last() =~= before);
                }
                heading = h;
                current.clear();
                assert(text::rows(current@) =~= Seq::<Seq<char>>::empty());
            },
            None => {
                let ghost had = text::rows(current@);
                current.push(line);
                proof {
                    assert(text::rows(current@) =~= had.push(line@));
                    assert(sections(all.take(i + 1)).drop_last() =~= before.drop_last());
                }
            },
        }
        i = i + 1;
    }
    proof {
        assert(all.take(i as int) =~= all);
        let before = sections(all);
        assert(before.drop_last().push(before.last()) =~= before);
    }
    flush(&mut found, heading, &current, Ghost(sections(all).drop_last()));
    merge_tiny(found)
}

/// Merges each short chunk, but for the first, into the one before it.
pub fn merge_tiny(chunks: Vec<Chunk>) -> (r: Vec<Chunk>)
    ensures
        r.deep_view() == merged(chunks.deep_view()),
{
    let ghost all = chunks.deep_view();
    let mut r: Vec<Chunk> = Vec::new();
    let mut i: usize = 0;
    while i < chunks.len()
        invariant
            i <= chunks@.len(),
            all == chunks.deep_view(),
            r.deep_view() == merged(all.take(i as int)),
            i > 0 ==> r@.len() > 0,
        decreases chunks@.len() - i,
    {
        let c = Chunk { heading: chunks[i].heading.clone(), content: chunks[i].content.clone() };
        let ghost before = r.deep_view();
        proof {
            assert(all.take(i + 1).drop_last() =~= all.take(i as int));
            assert(all.take(i + 1).last() == c.deep_view());
        }
        if i > 0 && chars_of(c.content.as_str()).len() < MIN_CONTENT {
            let last: usize = r.len() - 1;
            let mut content = r[last].content.clone();
            if !c.content.as_str().is_empty() {
                if !content.as_str().is_empty() {
                    content.push('\n');
                }
                content.append(c.content.as_str());
            }
            let heading = r[last].heading.clone();
            proof {
                assert(before.last() == r@[last as int].deep_view());
                let prev = r@[last as int].content@;
                if c.content@.len() == 0 {
                    assert(content@ == prev);
                } else if prev.len() == 0 {
                    assert(content@ =~= c.content@);
                }
            }
            r.set(last, Chunk { heading, content });
            assert(r.deep_view() =~= before.update(
                before.len() - 1,
                absorb(before.last(), c.content@),
            ));
        } else {
            r.push(c);
            proof {
                assert(r.deep_view() =~= before.push(c.deep_view()));
                if i == 0 {
                    assert(r.deep_view() =~= all.take(1));
                }
            }
        }
        i = i + 1;
    }
    assert(all.take(i as int) =~= all);
    r
}

// ── laws ─────────────────────────────────────────────────────────────────────

proof fn lemma_sections(lines: Seq<Seq<char>>)
    ensures
        sections(lines).len() >= 1,
        sections(lines)[0].heading.len() == 0,
    decreases lines.len(),
{
    if lines.len() > 0 {
        lemma_sections(lines.drop_last());
    }
}

proof fn lemma_section_chunks(ss: Seq<Section>)
    requires
        ss.len() >= 1,
    ensures
        section_chunks(ss).len() >= 1,
        section_chunks(ss)[0].heading == ss[0].heading,
    decreases ss.len(),
{
    if ss.len() > 1 {
        lemma_section_chunks(ss.drop_last());
    } else {
        assert(section_chunks(ss.drop_last()) =~= Seq::<ChunkModel>::empty());
    }
}

proof fn lemma_merged(cs: Seq<ChunkModel>)
    requires
        cs.len() >= 1,
    ensures
        merged(cs).len() >= 1,
        merged(cs)[0].heading == cs[0].heading,
        forall|i: int| 1 <= i < merged(cs).len() ==> (#[trigger] merged(cs)[i]).content.len()
            >= MIN_CONTENT,
    decreases cs.len(),
{
    if cs.len() > 1 {
        lemma_merged(cs.drop_last());
    }
}

/// A document has at least one chunk; the first is the preamble, without a
/// heading; every other holds at least [`MIN_CONTENT`] characters.
pub proof fn law_chunk_shape(body: Seq<char>)
    ensures
        chunks(body).len() >= 1,
        chunks(body)[0].heading.len() == 0,
        forall|i: int| 1 <= i < chunks(body).len() ==> (#[trigger] chunks(body)[i]).content.len()
            >= MIN_CONTENT,
{
    let ls = text::lines(body);
    lemma_sections(ls);
    lemma_section_chunks(sections(ls));
    lemma_merged(section_chunks(sections(ls)));
}

/// A text without its white space.
pub open spec fn visible(s: Seq<char>) -> Seq<char> {
    s.filter(|c: char| !text::is_white(c))
}

/// The visible characters of all lines that are no headings, in order.
pub open spec fn visible_body(lines: Seq<Seq<char>>) -> Seq<char>
    decreases lines.len(),
{
    if lines.len() == 0 {
        seq![]
    } else if heading_of(lines.last()) is Some {
        visible_body(lines.drop_last())
    } else {
        visible_body(lines.drop_last()) + visible(lines.last())
    }
}

/// The visible characters of all chunks' contents, in order.
pub open spec fn visible_chunks(cs: Seq<ChunkModel>) -> Seq<char>
    decreases cs.len(),
{
    if cs.len() == 0 {
        seq![]
    } else {
        visible_chunks(cs.drop_last()) + visible(cs.last().content)
    }
}

spec fn visible_lines(ls: Seq<Seq<char>>) -> Seq<char>
    decreases ls.len(),
{
    if ls.len() == 0 {
        seq![]
    } else {
        visible_lines(ls.drop_last()) + visible(ls.last())
    }
}

spec fn visible_sections(ss: Seq<Section>) -> Seq<char>
    decreases ss.len(),
{
    if ss.len() == 0 {
        seq![]
    } else {
        visible_sections(ss.drop_last()) + visible_lines(ss.last().lines)
    }
}

proof fn lemma_visible_add(a: Seq<char>, b: Seq<char>)
    ensures
        visible(a + b) == visible(a) + visible(b),
{
    Seq::<char>::filter_distributes_over_add(a, b, |c: char| !text::is_white(c));
}

proof fn lemma_visible_white(s: Seq<char>)
    requires
        forall|i: int| 0 <= i < s.len() ==> text::is_white(#[trigger] s[i]),
    ensures
        visible(s) == Seq::<char>::empty(),
    decreases s.len(),
{
    reveal(Seq::filter);
    if s.len() > 0 {
        assert forall|i: int| 0 <= i < s.drop_last().len() implies text::is_white(
            #[trigger] s.drop_last()[i],
        ) by {
            assert(text::is_white(s[i]));
        }
        lemma_visible_white(s.drop_last());
        assert(text::is_white(s[s.len() - 1]));
    }
}

proof fn lemma_visible_trim(s: Seq<char>)
    ensures
        visible(text::trim(s)) == visible(s),
{
    let k = CharClass::White;
    text::lemma_run(s, k);
    let n = text::run(s, k) as int;
    let t = s.skip(n);
    assert(s =~= s.take(n) + t);
    lemma_visible_add(s.take(n), t);
    assert forall|i: int| 0 <= i < s.take(n).len() implies text::is_white(
        #[trigger] s.take(n)[i],
    ) by {
        assert(k.has(s[i]));
    }
    lemma_visible_white(s.take(n));
    text::lemma_tail_run(t, k);
    let m = t.len() - text::tail_run(t, k);
    assert(t =~= t.take(m) + t.skip(m));
    lemma_visible_add(t.take(m), t.skip(m));
    assert forall|i: int| 0 <= i < t.skip(m).len() implies text::is_white(
        #[trigger] t.skip(m)[i],
    ) by {
        assert(k.has(t[m + i]));
    }
    lemma_visible_white(t.skip(m));
    assert(visible(s) =~= visible(text::trim(s)));
}

proof fn lemma_visible_join(ls: Seq<Seq<char>>)
    ensures
        visible(text::join(ls, seq!['\n'])) == visible_lines(ls),
    decreases ls.len(),
{
    let sep = seq!['\n'];
    if ls.len() == 0 {
        lemma_visible_white(Seq::<char>::empty());
    } else if ls.len() == 1 {
        assert(visible_lines(ls.drop_last()) =~= Seq::<char>::empty());
        assert(visible_lines(ls) =~= visible(ls[0]));
    } else {
        lemma_visible_join(ls.drop_last());
        let head = text::join(ls.drop_last(), sep);
        lemma_visible_add(head, sep);
        lemma_visible_white(sep);
        lemma_visible_add(head + sep, ls.last());
        assert(visible(head + sep) =~= visible(head));
    }
}

proof fn lemma_visible_update(ss: Seq<Section>, line: Seq<char>)
    requires
        ss.len() >= 1,
    ensures
        visible_sections(
            ss.update(
                ss.len() - 1,
                Section { heading: ss.last().heading, lines: ss.last().lines.push(line) },
            ),
        ) == visible_sections(ss) + visible(line),
{
    let s = Section { heading: ss.last().heading, lines: ss.last().lines.push(line) };
    let t = ss.update(ss.len() - 1, s);
    assert(t.drop_last() =~= ss.drop_last());
    assert(s.lines.drop_last() =~= ss.last().lines);
    assert(visible_sections(t) =~= visible_sections(ss) + visible(line));
}

proof fn lemma_sections_keep_text(lines: Seq<Seq<char>>)
    ensures
        visible_sections(sections(lines)) == visible_body(lines),
    decreases lines.len(),
{
    if lines.len() == 0 {
        let s = sections(lines);
        assert(s.drop_last() =~= Seq::<Section>::empty());
        assert(visible_sections(s.drop_last()) =~= Seq::<char>::empty());
        assert(visible_sections(s) =~= Seq::<char>::empty());
    } else {
        let before = sections(lines.drop_last());
        lemma_sections_keep_text(lines.drop_last());
        lemma_sections(lines.drop_last());
        match heading_of(lines.last()) {
            Some(h) => {
                let s = Section { heading: h, lines: seq![] };
                assert(before.push(s).drop_last() =~= before);
                assert(visible_sections(before.push(s)) =~= visible_sections(before));
            },
            None => {
                lemma_visible_update(before, lines.last());
            },
        }
    }
}

proof fn lemma_section_chunks_keep_text(ss: Seq<Section>)
    ensures
        visible_chunks(section_chunks(ss)) == visible_sections(ss),
    decreases ss.len(),
{
    if ss.len() > 0 {
        let before = section_chunks(ss.drop_last());
        let c = section_chunk(ss.last());
        lemma_section_chunks_keep_text(ss.drop_last());
        lemma_visible_trim(text::join(ss.last().lines, seq!['\n']));
        lemma_visible_join(ss.last().lines);
        if ss.len() == 1 || c.content.len() > 0 {
            assert(before.push(c).drop_last() =~= before);
        } else {
            lemma_visible_white(c.content);
            assert(visible_sections(ss) =~= visible_sections(ss.drop_last()));
        }
    }
}

proof fn lemma_merged_keeps_text(cs: Seq<ChunkModel>)
    ensures
        visible_chunks(merged(cs)) == visible_chunks(cs),
    decreases cs.len(),
{
    if cs.len() > 1 {
        let before = merged(cs.drop_last());
        let c = cs.last();
        lemma_merged_keeps_text(cs.drop_last());
        lemma_merged(cs.drop_last());
        if c.content.len() < MIN_CONTENT {
            let prev = before.last();
            let a = absorb(prev, c.content);
            let after = before.update(before.len() - 1, a);
            assert(after.drop_last() =~= before.drop_last());
            assert(visible(a.content) =~= visible(prev.content) + visible(c.content)) by {
                if c.content.len() == 0 {
                    lemma_visible_white(c.content);
                } else if prev.content.len() == 0 {
                    lemma_visible_white(prev.content);
                } else {
                    assert(prev.content.push('\n') =~= prev.content + seq!['\n']);
                    lemma_visible_add(prev.content, seq!['\n']);
                    lemma_visible_white(seq!['\n']);
                    lemma_visible_add(prev.content.push('\n'), c.content);
                }
            }
            assert(visible_chunks(after) =~= visible_chunks(before) + visible(c.content));
        } else {
            assert(before.push(c).drop_last() =~= before);
        }
    }
}

/// Chunking loses no text: the visible characters of the chunks' contents are
/// those of the lines that are no headings, in the same order.
pub proof fn law_chunk_keeps_text(body: Seq<char>)
    ensures
        visible_chunks(chunks(body)) == visible_body(text::lines(body)),
{
    let ls = text::lines(body);
    lemma_sections_keep_text(ls);
    lemma_section_chunks_keep_text(sections(ls));
    lemma_merged_keeps_text(section_chunks(sections(ls)));
}

/// A body without heading lines is one chunk, its lines put together and
/// trimmed.
pub proof fn law_chunk_without_headings(body: Seq<char>)
    requires
        forall|i: int|
            0 <= i < text::lines(body).len() ==> heading_of(#[trigger] text::lines(body)[i]) is None,
    ensures
        chunks(body) == seq![
            ChunkModel {
                heading: seq![],
                content: text::trim(text::join(text::lines(body), seq!['\n'])),
            },
        ],
{
    let ls = text::lines(body);
    lemma_one_section(ls);
    let ss = sections(ls);
    assert(ss.drop_last() =~= Seq::<Section>::empty());
    assert(section_chunks(ss.drop_last()) =~= Seq::<ChunkModel>::empty());
    assert(chunks(body) =~= seq![section_chunk(ss[0])]);
}

proof fn lemma_one_section(ls: Seq<Seq<char>>)
    requires
        forall|i: int| 0 <= i < ls.len() ==> heading_of(#[trigger] ls[i]) is None,
    ensures
        sections(ls) == seq![Section { heading: seq![], lines: ls }],
    decreases ls.len(),
{
    if ls.len() > 0 {
        assert forall|i: int| 0 <= i < ls.drop_last().len() implies heading_of(
            #[trigger] ls.drop_last()[i],
        ) is None by {
            assert(heading_of(ls[i]) is None);
        }
        lemma_one_section(ls.drop_last());
        assert(ls.drop_last().push(ls.last()) =~= ls);
        assert(heading_of(ls[ls.len() - 1]) is None);
        assert(sections(ls) =~= seq![Section { heading: seq![], lines: ls }]);
    } else {
        assert(ls =~= seq![]);
    }
}

/// The headings of a document, in order.
pub open spec fn headings(lines: Seq<Seq<char>>) -> Seq<Seq<char>>
    decreases lines.len(),
{
    if lines.len() == 0 {
        seq![]
    } else {
        let before = headings(lines.drop_last());
        match heading_of(lines.last()) {
            Some(h) => before.push(h),
            None => before,
        }
    }
}

/// Whether `a` is what stands at these places of `b`, in the order of `b`.
pub open spec fn picks(a: Seq<Seq<char>>, b: Seq<Seq<char>>, at: Seq<int>) -> bool {
    &&& at.len() == a.len()
    &&& forall|i: int| 0 <= i < a.len() ==> 0 <= #[trigger] at[i] < b.len() && a[i] == b[at[i]]
    &&& forall|i: int, j: int| 0 <= i < j < a.len() ==> #[trigger] at[i] < #[trigger] at[j]
}

/// The headings of chunks.
pub open spec fn chunk_headings(cs: Seq<ChunkModel>) -> Seq<Seq<char>> {
    cs.map_values(|c: ChunkModel| c.heading)
}

spec fn section_headings(ss: Seq<Section>) -> Seq<Seq<char>> {
    ss.map_values(|s: Section| s.heading)
}

proof fn lemma_section_headings(lines: Seq<Seq<char>>)
    ensures
        section_headings(sections(lines)) == seq![Seq::<char>::empty()] + headings(lines),
    decreases lines.len(),
{
    let want = seq![Seq::<char>::empty()] + headings(lines);
    if lines.len() == 0 {
        assert(section_headings(sections(lines)) =~= want);
    } else {
        let before = sections(lines.drop_last());
        lemma_section_headings(lines.drop_last());
        assert(section_headings(before).len() == before.len());
        assert forall|i: int| 0 <= i < before.len() implies (#[trigger] before[i]).heading
            == section_headings(before)[i] by {}
        assert(section_headings(sections(lines)) =~= want);
    }
}

proof fn lemma_section_picks(ss: Seq<Section>) -> (at: Seq<int>)
    ensures
        picks(chunk_headings(section_chunks(ss)), section_headings(ss), at),
        at.len() > 0 ==> at[0] == 0,
        ss.len() > 0 ==> at.len() > 0,
    decreases ss.len(),
{
    if ss.len() == 0 {
        seq![]
    } else {
        let before = lemma_section_picks(ss.drop_last());
        let a = section_chunks(ss.drop_last());
        let b = section_chunks(ss);
        let heads = section_headings(ss);
        assert forall|i: int| 0 <= i < a.len() implies 0 <= #[trigger] before[i] < ss.len() - 1
            && chunk_headings(a)[i] == heads[before[i]] by {
            assert(section_headings(ss.drop_last())[before[i]] == heads[before[i]]);
        }
        if b.len() > a.len() {
            let at = before.push(ss.len() - 1);
            assert forall|i: int| 0 <= i < b.len() implies 0 <= #[trigger] at[i] < heads.len()
                && chunk_headings(b)[i] == heads[at[i]] by {
                if i < a.len() {
                    assert(at[i] == before[i]);
                    assert(chunk_headings(b)[i] == chunk_headings(a)[i]);
                }
            }
            assert forall|i: int, j: int| 0 <= i < j < b.len() implies #[trigger] at[i]
                < #[trigger] at[j] by {
                assert(at[i] == before[i]);
                if j < a.len() {
                    assert(at[j] == before[j]);
                }
            }
            at
        } else {
            before
        }
    }
}

proof fn lemma_merged_picks(cs: Seq<ChunkModel>) -> (at: Seq<int>)
    ensures
        picks(chunk_headings(merged(cs)), chunk_headings(cs), at),
        at.len() > 0 ==> at[0] == 0,
        at.len() == merged(cs).len(),
    decreases cs.len(),
{
    if cs.len() <= 1 {
        Seq::new(cs.len(), |i: int| i)
    } else {
        let before = lemma_merged_picks(cs.drop_last());
        let a = merged(cs.drop_last());
        let b = merged(cs);
        let heads = chunk_headings(cs);
        lemma_merged(cs.drop_last());
        assert forall|i: int| 0 <= i < a.len() implies 0 <= #[trigger] before[i] < cs.len() - 1
            && a[i].heading == heads[before[i]] by {
            assert(chunk_headings(a)[i] == a[i].heading);
            assert(chunk_headings(cs.drop_last())[before[i]] == heads[before[i]]);
        }
        if b.len() > a.len() {
            let at = before.push(cs.len() - 1);
            assert forall|i: int| 0 <= i < b.len() implies 0 <= #[trigger] at[i] < heads.len()
                && chunk_headings(b)[i] == heads[at[i]] by {
                if i < a.len() {
                    assert(at[i] == before[i]);
                    assert(b[i] == a[i]);
                }
            }
            assert forall|i: int, j: int| 0 <= i < j < b.len() implies #[trigger] at[i]
                < #[trigger] at[j] by {
                assert(at[i] == before[i]);
                if j < a.len() {
                    assert(at[j] == before[j]);
                }
            }
            at
        } else {
            assert forall|i: int| 0 <= i < b.len() implies 0 <= #[trigger] before[i] < heads.len()
                && chunk_headings(b)[i] == heads[before[i]] by {
                assert(b[i].heading == a[i].heading);
            }
            before
        }
    }
}

proof fn lemma_heading_not_empty(line: Seq<char>)
    ensures
        heading_of(line) matches Some(h) ==> h.len() > 0,
{
    let w = CharClass::White;
    let l = text::trim_end_of(line, w);
    text::lemma_tail_run(line, w);
    reveal_strlit("## ");
    reveal_strlit("# ");
    if heading_of(line) is Some {
        let n: int = if text::starts_with(l, "## "@) {
            3
        } else {
            2
        };
        assert(l.take(n)[n - 1] == ' ');
        assert(l[n - 1] == ' ');
        assert(l.last() == line[line.len() - text::tail_run(line, w) - 1]);
        assert(!w.has(l.last()));
        let rest = l.skip(n);
        assert(rest.len() > 0);
        assert(rest.last() == l.last());
        text::lemma_run(rest, w);
        let t = text::trim_start_of(rest, w);
        if text::run(rest, w) == rest.len() {
            assert(w.has(rest[rest.len() - 1]));
        }
        assert(t.last() == rest.last());
        text::lemma_tail_run(t, w);
        assert(text::tail_run(t, w) == 0);
    }
}

proof fn lemma_headings_not_empty(lines: Seq<Seq<char>>)
    ensures
        forall|i: int| 0 <= i < headings(lines).len() ==> (#[trigger] headings(lines)[i]).len() > 0,
    decreases lines.len(),
{
    if lines.len() > 0 {
        let before = headings(lines.drop_last());
        lemma_headings_not_empty(lines.drop_last());
        lemma_heading_not_empty(lines.last());
        assert forall|i: int| 0 <= i < headings(lines).len() implies (
        #[trigger] headings(lines)[i]).len() > 0 by {
            if i < before.len() {
                assert(headings(lines)[i] == before[i]);
            }
        }
    }
}

/// The headings of the chunks behind the first are H1 and H2 headings of the body,
/// in the order in which they stand there; none of them is empty.
pub proof fn law_chunk_headings(body: Seq<char>)
    ensures
        exists|at: Seq<int>| #[trigger]
            picks(chunk_headings(chunks(body)).skip(1), headings(text::lines(body)), at),
        forall|i: int| 1 <= i < chunks(body).len() ==> (#[trigger] chunks(body)[i]).heading.len() > 0,
{
    let ls = text::lines(body);
    let ss = sections(ls);
    let cs = section_chunks(ss);
    lemma_sections(ls);
    lemma_section_headings(ls);
    lemma_headings_not_empty(ls);
    lemma_section_chunks(ss);
    lemma_merged(cs);
    let x = lemma_section_picks(ss);
    let y = lemma_merged_picks(cs);
    let heads = headings(ls);
    let all = chunk_headings(chunks(body));
    let rest = all.skip(1);
    let at = Seq::new(rest.len(), |i: int| x[y[i + 1]] - 1);
    assert forall|i: int| 1 <= i < all.len() implies 1 <= x[#[trigger] y[i]] <= heads.len()
        && all[i] == heads[x[y[i]] - 1] by {
        assert(y[0] < y[i]);
        assert(x[0] < x[y[i]]);
        assert(section_headings(ss)[x[y[i]]] == heads[x[y[i]] - 1]);
        assert(chunk_headings(cs)[y[i]] == section_headings(ss)[x[y[i]]]);
    }
    assert forall|i: int| 0 <= i < rest.len() implies 0 <= #[trigger] at[i] < heads.len()
        && rest[i] == heads[at[i]] by {
        assert(rest[i] == all[i + 1]);
        assert(1 <= x[y[i + 1]]);
    }
    assert forall|i: int, j: int| 0 <= i < j < rest.len() implies #[trigger] at[i]
        < #[trigger] at[j] by {
        assert(y[i + 1] < y[j + 1]);
        assert(x[y[i + 1]] < x[y[j + 1]]);
    }
    assert(picks(rest, heads, at));
    assert forall|i: int| 1 <= i < chunks(body).len() implies (
    #[trigger] chunks(body)[i]).heading.len() > 0 by {
        assert(all[i] == chunks(body)[i].heading);
        assert(1 <= x[y[i]]);
    }
}

/// A line of one or two `#`s, a blank and a text is the heading that the text is,
/// without the white space around it.
pub proof fn law_heading_line(x: Seq<char>, h: Seq<char>, y: Seq<char>)
    requires
        text::blank(x),
        h.len() > 0,
        text::tight(h),
        text::blank(y),
    ensures
        heading_of(seq!['#', ' '] + (x + h + y)) == Some(h),
        heading_of(seq!['#', '#', ' '] + (x + h + y)) == Some(h),
{
    let w = CharClass::White;
    reveal_strlit("## ");
    reveal_strlit("# ");
    assert forall|i: int| 0 <= i < y.len() implies w.has(#[trigger] y[i]) by {
        assert(text::is_white(y[i]));
    }
    let none = Seq::<char>::empty();
    text::law_trim(x, h, none);
    assert(x + h + none =~= x + h);
    let one = seq!['#', ' '] + (x + h);
    assert(seq!['#', ' '] + (x + h + y) =~= one + y);
    assert(one.last() == h.last());
    text::law_trim_end(one, y, w);
    assert(one.take(2) =~= "# "@);
    assert(one.skip(2) =~= x + h);
    assert(!text::starts_with(one, "## "@)) by {
        if text::starts_with(one, "## "@) {
            assert(one.take(3)[1] == '#');
        }
    }
    let two = seq!['#', '#', ' '] + (x + h);
    assert(seq!['#', '#', ' '] + (x + h + y) =~= two + y);
    assert(two.last() == h.last());
    text::law_trim_end(two, y, w);
    assert(two.take(3) =~= "## "@);
    assert(two.skip(3) =~= x + h);
}

/// A line that does not begin so, or holds nothing else, is no heading.
pub proof fn law_no_heading_line(line: Seq<char>, y: Seq<char>)
    requires
        !(line.len() >= 2 && line[0] == '#' && line[1] == ' '),
        !(line.len() >= 3 && line[0] == '#' && line[1] == '#' && line[2] == ' '),
        text::blank(y),
    ensures
        heading_of(line) is None,
        heading_of(seq!['#', ' '] + y) is None,
        heading_of(seq!['#', '#', ' '] + y) is None,
{
    let w = CharClass::White;
    reveal_strlit("## ");
    reveal_strlit("# ");
    text::lemma_tail_run(line, w);
    let l = text::trim_end_of(line, w);
    if text::starts_with(l, "## "@) {
        assert(l.take(3)[0] == '#' && l.take(3)[1] == '#' && l.take(3)[2] == ' ');
        assert(line[0] == l[0] && line[1] == l[1] && line[2] == l[2]);
    }
    if text::starts_with(l, "# "@) {
        assert(l.take(2)[0] == '#' && l.take(2)[1] == ' ');
        assert(line[0] == l[0] && line[1] == l[1]);
    }
    let b = seq![' '] + y;
    assert forall|i: int| 0 <= i < b.len() implies w.has(#[trigger] b[i]) by {
        if i > 0 {
            assert(text::is_white(y[i - 1]));
        }
    }
    text::law_trim_end(seq!['#'], b, w);
    text::law_trim_end(seq!['#', '#'], b, w);
    assert(seq!['#', ' '] + y =~= seq!['#'] + b);
    assert(seq!['#', '#', ' '] + y =~= seq!['#', '#'] + b);
    let two = seq!['#', '#'];
    if text::starts_with(two, "# "@) {
        assert(two.take(2)[1] == ' ');
    }
}

proof fn lemma_sections_add(before: Seq<Seq<char>>, line: Seq<char>, lines: Seq<Seq<char>>)
    requires
        heading_of(line) is Some,
        forall|i: int| 0 <= i < lines.len() ==> heading_of(#[trigger] lines[i]) is None,
    ensures
        sections(before + seq![line] + lines) == sections(before).push(
            Section { heading: heading_of(line)->0, lines },
        ),
    decreases lines.len(),
{
    let all = before + seq![line] + lines;
    let ss = sections(before);
    let h = heading_of(line)->0;
    lemma_sections(before);
    if lines.len() == 0 {
        assert(all.drop_last() =~= before);
        assert(all.last() == line);
        assert(lines =~= seq![]);
    } else {
        let less = lines.drop_last();
        assert forall|i: int| 0 <= i < less.len() implies heading_of(#[trigger] less[i]) is None by {
            assert(less[i] == lines[i]);
        }
        lemma_sections_add(before, line, less);
        assert(all.drop_last() =~= before + seq![line] + less);
        assert(all.last() == lines[lines.len() - 1]);
        assert(less.push(lines.last()) =~= lines);
        assert(sections(all) =~= ss.push(Section { heading: h, lines }));
    }
}

spec fn with_section(
    before: Seq<ChunkModel>,
    heading: Seq<char>,
    content: Seq<char>,
) -> Seq<ChunkModel> {
    if content.len() >= 10 {
        before.push(ChunkModel { heading, content })
    } else if content.len() == 0 {
        before
    } else if before.last().content.len() == 0 {
        before.update(
            before.len() - 1,
            ChunkModel { heading: before.last().heading, content },
        )
    } else {
        before.update(
            before.len() - 1,
            ChunkModel {
                heading: before.last().heading,
                content: before.last().content + seq!['\n'] + content,
            },
        )
    }
}

/// One section more: the chunks of the text before stay as they are, but for a
/// short section that is put behind the last of them; a section with at least ten
/// characters of content is a chunk of its own, with its heading and its content.
pub proof fn law_one_more_section(
    before: Seq<char>,
    line: Seq<char>,
    body: Seq<char>,
    heading: Seq<char>,
    content: Seq<char>,
)
    requires
        before.len() == 0 || before.last() == '\n',
        !line.contains('\n'),
        line.len() == 0 || line.last() != '\r',
        heading_of(line) == Some(heading),
        forall|i: int|
            0 <= i < text::lines(body).len() ==> heading_of(#[trigger] text::lines(body)[i]) is None,
        content == text::trim(text::join(text::lines(body), seq!['\n'])),
    ensures
        content.len() >= 10 ==> chunks(before + (line + seq!['\n'] + body)) == chunks(before).push(
            ChunkModel { heading, content },
        ),
        content.len() == 0 ==> chunks(before + (line + seq!['\n'] + body)) == chunks(before),
        0 < content.len() < 10 ==> ({
            let a = chunks(before);
            let b = chunks(before + (line + seq!['\n'] + body));
            let last = a.len() - 1;
            &&& a.len() > 0 && b.len() == a.len()
            &&& forall|i: int| 0 <= i < last ==> #[trigger] b[i] == a[i]
            &&& b[last].heading == a[last].heading
            &&& b[last].content == if a[last].content.len() == 0 {
                content
            } else {
                a[last].content + seq!['\n'] + content
            }
        }),
        chunks(before + line) == chunks(before),
{
    let all = before + (line + seq!['\n'] + body);
    let lb = text::lines(before);
    let lt = text::lines(body);
    text::lemma_lines_add(before, line + seq!['\n'] + body);
    text::law_lines(line, body);
    assert(text::lines(all) =~= lb + seq![line] + lt);
    lemma_sections_add(lb, line, lt);
    lemma_one_more(lb, Section { heading, lines: lt });
    let none = Seq::<Seq<char>>::empty();
    text::lemma_lines_add(before, line);
    if line.len() == 0 {
        lemma_heading_not_blank(line);
    }
    assert(text::lines(before + line) =~= lb + seq![line] + none);
    lemma_sections_add(lb, line, none);
    lemma_one_more(lb, Section { heading, lines: none });
    let blank = Seq::<char>::empty();
    text::law_trim(blank, blank, blank);
    assert(blank + blank + blank =~= blank);
    assert(text::join(none, seq!['\n']) =~= blank);
    lemma_sections(lb);
    lemma_section_chunks(sections(lb));
    lemma_merged(section_chunks(sections(lb)));
}

proof fn lemma_heading_not_blank(line: Seq<char>)
    requires
        heading_of(line) is Some,
    ensures
        line.len() > 0,
{
    if line.len() == 0 {
        law_no_heading_line(line, seq![]);
    }
}

proof fn lemma_one_more(lines: Seq<Seq<char>>, s: Section)
    ensures
        merged(section_chunks(sections(lines).push(s))) == with_section(
            merged(section_chunks(sections(lines))),
            s.heading,
            section_chunk(s).content,
        ),
{
    let ss = sections(lines);
    let cs = section_chunks(ss);
    let c = section_chunk(s);
    lemma_sections(lines);
    lemma_section_chunks(ss);
    lemma_merged(cs);
    assert(ss.push(s).drop_last() =~= ss);
    if c.content.len() > 0 {
        assert(cs.push(c).drop_last() =~= cs);
        let m = merged(cs);
        if c.content.len() < 10 && m.last().content.len() > 0 {
            assert(m.last().content.push('\n') + c.content =~= m.last().content + seq!['\n']
                + c.content);
        }
    }
}

/// How many of the sections behind the first have at least ten characters of
/// content.
pub open spec fn long_sections(ss: Seq<Section>) -> nat
    decreases ss.len(),
{
    if ss.len() <= 1 {
        0
    } else {
        long_sections(ss.drop_last()) + if text::trim(
            text::join(ss.last().lines, seq!['\n']),
        ).len() >= 10 {
            1nat
        } else {
            0nat
        }
    }
}

/// Whether some chunk has the heading of a section and a content that begins with
/// its own.
pub open spec fn has_section(cs: Seq<ChunkModel>, s: Section) -> bool {
    exists|k: int|
        0 <= k < cs.len() && (#[trigger] cs[k]).heading == s.heading && text::starts_with(
            cs[k].content,
            text::trim(text::join(s.lines, seq!['\n'])),
        )
}

proof fn lemma_sections_are_chunks(ss: Seq<Section>)
    requires
        ss.len() >= 1,
    ensures
        merged(section_chunks(ss)).len() == 1 + long_sections(ss),
        forall|i: int|
            0 <= i < ss.len() && (i == 0 || text::trim(
                text::join((#[trigger] ss[i]).lines, seq!['\n']),
            ).len() >= 10) ==> has_section(merged(section_chunks(ss)), ss[i]),
    decreases ss.len(),
{
    let m = merged(section_chunks(ss));
    let before = ss.drop_last();
    let c = section_chunk(ss.last());
    if ss.len() == 1 {
        assert(section_chunks(before) =~= seq![]);
        assert(m =~= seq![c]);
        assert(m[0].content.take(c.content.len() as int) =~= c.content);
        assert(has_section(m, ss[0]));
    } else {
        lemma_sections_are_chunks(before);
        lemma_section_chunks(before);
        let cs = section_chunks(before);
        let a = merged(cs);
        lemma_merged(cs);
        if c.content.len() > 0 {
            assert(cs.push(c).drop_last() =~= cs);
        }
        assert forall|i: int|
            0 <= i < ss.len() && (i == 0 || text::trim(
                text::join((#[trigger] ss[i]).lines, seq!['\n']),
            ).len() >= 10) implies has_section(m, ss[i]) by {
            let t = text::trim(text::join(ss[i].lines, seq!['\n']));
            if i < before.len() {
                assert(before[i] == ss[i]);
                assert(has_section(a, before[i]));
                let k = choose|k: int|
                    0 <= k < a.len() && (#[trigger] a[k]).heading == ss[i].heading
                        && text::starts_with(a[k].content, t);
                assert(m[k].heading == a[k].heading);
                assert(m[k].content.take(t.len() as int) =~= a[k].content.take(t.len() as int));
            } else {
                assert(m.last() == c);
                assert(m[m.len() - 1].content.take(t.len() as int) =~= t);
            }
        }
    }
}

/// Every section with at least ten characters of content is found among the chunks,
/// with its heading, at the start of a chunk's content, and so is the preamble;
/// there are no more chunks than these.
pub proof fn law_sections_are_chunks(body: Seq<char>)
    ensures
        ({
            let ss = sections(text::lines(body));
            &&& chunks(body).len() == 1 + long_sections(ss)
            &&& forall|i: int|
                0 <= i < ss.len() && (i == 0 || text::trim(
                    text::join((#[trigger] ss[i]).lines, seq!['\n']),
                ).len() >= 10) ==> has_section(chunks(body), ss[i])
        }),
{
    lemma_sections(text::lines(body));
    lemma_sections_are_chunks(sections(text::lines(body)));
}

} // verus!
