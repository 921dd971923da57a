//! The tools that the server offers.
use vstd::prelude::*;

use crate::text::same_text;

pub mod graph;
pub mod ranking;
pub mod tools;

use tools::ToolError;

verus! {

/// The tools.
#[derive(Debug, Clone, Copy, PartialEq, Eq, Structural)]
pub enum ToolName {
    SearchNotes,
    GetNote,
    RelatedNotes,
    ListTags,
    NotesByTag,
    GraphNeighbors,
}

/// The name by which a tool is called.
pub open spec fn tool_text(t: ToolName) -> Seq<char> {
    match t {
        ToolName::SearchNotes => "search_notes"@,
        ToolName::GetNote => "get_note"@,
        ToolName::RelatedNotes => "related_notes"@,
        ToolName::ListTags => "list_tags"@,
        ToolName::NotesByTag => "notes_by_tag"@,
        ToolName::GraphNeighbors => "graph_neighbors"@,
    }
}

proof fn lemma_tool_texts()
    ensures
        forall|a: ToolName, b: ToolName| #[trigger]
            tool_text(a) == #[trigger] tool_text(b) ==> a == b,
{
    reveal_strlit("search_notes");
    reveal_strlit("get_note");
    reveal_strlit("related_notes");
    reveal_strlit("list_tags");
    reveal_strlit("notes_by_tag");
    reveal_strlit("graph_neighbors");
    assert("search_notes"@[0] == 's' && "get_note"@[0] == 'g' && "related_notes"@[0] == 'r');
    assert("list_tags"@[0] == 'l' && "notes_by_tag"@[0] == 'n' && "graph_neighbors"@[0] == 'g');
    assert("get_note"@[1] == 'e' && "graph_neighbors"@[1] == 'r');
    assert forall|a: ToolName, b: ToolName| #[trigger] tool_text(a) == #[trigger] tool_text(
        b,
    ) implies a == b by {
        assert(tool_text(a)[0] == tool_text(b)[0] && tool_text(a)[1] == tool_text(b)[1]);
    }
}

impl ToolName {
    /// The name by which the tool is called.
    pub fn name(self) -> (r: &'static str)
        ensures
            r@ == tool_text(self),
    {
        match self {
            ToolName::SearchNotes => "search_notes",
            ToolName::GetNote => "get_note",
            ToolName::RelatedNotes => "related_notes",
            ToolName::ListTags => "list_tags",
            ToolName::NotesByTag => "notes_by_tag",
            ToolName::GraphNeighbors => "graph_neighbors",
        }
    }
}

/// The tool of that name.
pub fn tool_named(name: &str) -> (r: Result<ToolName, ToolError>)
    ensures
        match r {
            Ok(t) => tool_text(t) == name@,
            Err(e) => (forall|t: ToolName| #[trigger] tool_text(t) != name@) && e.deep_view() == (
            tools::ToolErrorModel::UnknownTool { name: name@ }),
        },
{
    if same_text(name, "search_notes") {
        Ok(ToolName::SearchNotes)
    } else if same_text(name, "get_note") {
        Ok(ToolName::GetNote)
    } else if same_text(name, "related_notes") {
        Ok(ToolName::RelatedNotes)
    } else if same_text(name, "list_tags") {
        Ok(ToolName::ListTags)
    } else if same_text(name, "notes_by_tag") {
        Ok(ToolName::NotesByTag)
    } else if same_text(name, "graph_neighbors") {
        Ok(ToolName::GraphNeighbors)
    } else {
        Err(ToolError::UnknownTool { name: name.to_owned() })
    }
}

// ── definitions ──────────────────────────────────────────────────────────────

/// The type of a parameter.
#[derive(Debug, Clone, Copy, PartialEq, Eq, Structural)]
pub enum ParamKind {
    Text,
    Integer,
}

impl ParamKind {
    /// The type in a JSON schema.
    pub fn name(self) -> (r: &'static str)
        ensures
            r@ == match self {
                ParamKind::Text => "string"@,
                ParamKind::Integer => "integer"@,
            },
    {
        match self {
            ParamKind::Text => "string",
            ParamKind::Integer => "integer",
        }
    }
}

/// A parameter of a tool.
#[derive(Debug, Clone, Copy)]
pub struct ToolParam {
    pub name: &'static str,
    pub kind: ParamKind,
    pub description: &'static str,
    pub required: bool,
}

/// A tool as it is listed to clients.
#[derive(Debug, Clone)]
pub struct ToolDefinition {
    pub tool: ToolName,
    pub description: &'static str,
    pub params: Vec<ToolParam>,
}

/// What a [`ToolParam`] holds.
pub struct ParamModel {
    pub name: Seq<char>,
    pub kind: ParamKind,
    pub description: Seq<char>,
    pub required: bool,
}

/// What a [`ToolDefinition`] holds.
pub struct DefinitionModel {
    pub tool: ToolName,
    pub description: Seq<char>,
    pub params: Seq<ParamModel>,
}

impl DeepView for ToolParam {
    type V = ParamModel;

    open spec fn deep_view(&self) -> ParamModel {
        ParamModel {
            name: self.name@,
            kind: self.kind,
            description: self.description@,
            required: self.required,
        }
    }
}

impl DeepView for ToolDefinition {
    type V = DefinitionModel;

    open spec fn deep_view(&self) -> DefinitionModel {
        DefinitionModel {
            tool: self.tool,
            description: self.description@,
            params: self.params.deep_view(),
        }
    }
}

/// A text parameter that has to be there.
pub open spec fn text_param(name: Seq<char>, description: Seq<char>) -> ParamModel {
    ParamModel { name, kind: ParamKind::Text, description, required: true }
}

/// A number that may be left out.
pub open spec fn number_param(name: Seq<char>, description: Seq<char>) -> ParamModel {
    ParamModel { name, kind: ParamKind::Integer, description, required: false }
}

/// How a tool is described to clients.
pub open spec fn definition(tool: ToolName) -> DefinitionModel {
    match tool {
        ToolName::SearchNotes => DefinitionModel {
            tool,
            description:
                "Semantic + keyword search over the vault. Returns the most relevant note sections."@,
            params: seq![
                text_param("query"@, "Natural language search query"@),
                number_param("top_k"@, "Number of results to return (default 10)"@),
            ],
        },
        ToolName::GetNote => DefinitionModel {
            tool,
            description:
                "Read a note's full content along with its frontmatter, tags, outlinks, and backlinks."@,
            params: seq![
                text_param("path"@, "Vault-relative path to the note (e.g. 'Topics/Rust.md')"@),
            ],
        },
        ToolName::RelatedNotes => DefinitionModel {
            tool,
            description:
                "Find notes that are structurally similar to a given note based on the wikilink graph."@,
            params: seq![
                text_param("path"@, "Vault-relative path to the anchor note"@),
                number_param("top_k"@, "Number of results (default 10)"@),
            ],
        },
        ToolName::ListTags => DefinitionModel {
            tool,
            description: "List all tags present in the vault (from frontmatter and inline #tags)."@,
            params: seq![],
        },
        ToolName::NotesByTag => DefinitionModel {
            tool,
            description: "Return all note paths that have a given tag."@,
            params: seq![text_param("tag"@, "Tag to look up (without leading #)"@)],
        },
        ToolName::GraphNeighbors => DefinitionModel {
            tool,
            description:
                "Traverse the wikilink graph from a note up to `depth` hops in both directions."@,
            params: seq![
                text_param("path"@, "Vault-relative path to the starting note"@),
                number_param("depth"@, "Number of hops to traverse (default 1, max 5)"@),
            ],
        },
    }
}

/// The tools in the order in which they are listed.
pub open spec fn tool_order() -> Seq<ToolName> {
    seq![
        ToolName::SearchNotes,
        ToolName::GetNote,
        ToolName::RelatedNotes,
        ToolName::ListTags,
        ToolName::NotesByTag,
        ToolName::GraphNeighbors,
    ]
}

/// A text parameter that has to be there.
fn text_parameter(name: &'static str, description: &'static str) -> (r: ToolParam)
    ensures
        r.deep_view() == text_param(name@, description@),
{
    ToolParam { name, kind: ParamKind::Text, description, required: true }
}

/// A number that may be left out.
fn number_parameter(name: &'static str, description: &'static str) -> (r: ToolParam)
    ensures
        r.deep_view() == number_param(name@, description@),
{
    ToolParam { name, kind: ParamKind::Integer, description, required: false }
}

/// A tool with at most two parameters.
fn make_tool(
    tool: ToolName,
    description: &'static str,
    first: Option<ToolParam>,
    second: Option<ToolParam>,
) -> (r: ToolDefinition)
    ensures
        r.deep_view() == (DefinitionModel {
            tool,
            description: description@,
            params: (match first {
                Some(p) => seq![p.deep_view()],
                None => seq![],
            }) + (match second {
                Some(p) => seq![p.deep_view()],
                None => seq![],
            }),
        }),
{
    let mut params: Vec<ToolParam> = Vec::new();
    if let Some(p) = first {
        params.push(p);
    }
    if let Some(p) = second {
        params.push(p);
    }
    assert(params.deep_view() =~= (match first {
        Some(p) => seq![p.deep_view()],
        None => seq![],
    }) + (match second {
        Some(p) => seq![p.deep_view()],
        None => seq![],
    }));
    ToolDefinition { tool, description, params }
}

/// The tools as they are listed to clients.
pub fn tool_definitions() -> (r: Vec<ToolDefinition>)
    ensures
        r.deep_view() == tool_order().map_values(|t: ToolName| definition(t)),
{
    let mut r: Vec<ToolDefinition> = Vec::new();
    let d = make_tool(
        ToolName::SearchNotes,
        "Semantic + keyword search over the vault. Returns the most relevant note sections.",
        Some(text_parameter("query", "Natural language search query")),
        Some(number_parameter("top_k", "Number of results to return (default 10)")),
    );
    assert(d.deep_view().params =~= definition(ToolName::SearchNotes).params);
    r.push(d);
    let d = make_tool(
        ToolName::GetNote,
        "Read a note's full content along with its frontmatter, tags, outlinks, and backlinks.",
        Some(text_parameter("path", "Vault-relative path to the note (e.g. 'Topics/Rust.md')")),
        None,
    );
    assert(d.deep_view().params =~= definition(ToolName::GetNote).params);
    r.push(d);
    let d = make_tool(
        ToolName::RelatedNotes,
        "Find notes that are structurally similar to a given note based on the wikilink graph.",
        Some(text_parameter("path", "Vault-relative path to the anchor note")),
        Some(number_parameter("top_k", "Number of results (default 10)")),
    );
    assert(d.deep_view().params =~= definition(ToolName::RelatedNotes).params);
    r.push(d);
    let d = make_tool(
        ToolName::ListTags,
        "List all tags present in the vault (from frontmatter and inline #tags).",
        None,
        None,
    );
    assert(d.deep_view().params =~= definition(ToolName::ListTags).params);
    r.push(d);
    let d = make_tool(
        ToolName::NotesByTag,
        "Return all note paths that have a given tag.",
        Some(text_parameter("tag", "Tag to look up (without leading #)")),
        None,
    );
    assert(d.deep_view().params =~= definition(ToolName::NotesByTag).params);
    r.push(d);
    let d = make_tool(
        ToolName::GraphNeighbors,
        "Traverse the wikilink graph from a note up to `depth` hops in both directions.",
        Some(text_parameter("path", "Vault-relative path to the starting note")),
        Some(number_parameter("depth", "Number of hops to traverse (default 1, max 5)")),
    );
    assert(d.deep_view().params =~= definition(ToolName::GraphNeighbors).params);
    r.push(d);
    assert(r.deep_view() =~= tool_order().map_values(|t: ToolName| definition(t)));
    r
}

// ── laws ─────────────────────────────────────────────────────────────────────

/// Every tool is listed, each once, and no two tools have the same name.
pub proof fn law_tools_listed()
    ensures
        tool_order().no_duplicates(),
        forall|t: ToolName| #[trigger] tool_order().contains(t),
        forall|a: ToolName, b: ToolName| #[trigger]
            tool_text(a) == #[trigger] tool_text(b) ==> a == b,
{
    lemma_tool_texts();
    let s = tool_order();
    assert(s[0] == ToolName::SearchNotes && s[1] == ToolName::GetNote && s[2]
        == ToolName::RelatedNotes);
    assert(s[3] == ToolName::ListTags && s[4] == ToolName::NotesByTag && s[5]
        == ToolName::GraphNeighbors);
    assert forall|t: ToolName| #[trigger] s.contains(t) by {
        match t {
            ToolName::SearchNotes => assert(s[0] == t),
            ToolName::GetNote => assert(s[1] == t),
            ToolName::RelatedNotes => assert(s[2] == t),
            ToolName::ListTags => assert(s[3] == t),
            ToolName::NotesByTag => assert(s[4] == t),
            ToolName::GraphNeighbors => assert(s[5] == t),
        }
    }
}

} // verus!
