//! Embedding models: their names, the vectors they give, and where they are kept.
use vstd::prelude::*;
use vstd::string::StringExecFns;

use crate::paths;
use crate::paths::joined_path;
use crate::text;
use crate::text::{lowered, same_text};

pub mod cleora;

verus! {

/// An embedding model of the registry.
#[derive(Debug, Clone, Copy, PartialEq, Eq, Structural)]
pub enum EmbeddingModel {
    AllMiniLML6V2,
    AllMiniLML6V2Q,
    BGESmallENV15,
    BGESmallENV15Q,
    BGEBaseENV15,
    BGEBaseENV15Q,
    NomicEmbedTextV1,
    NomicEmbedTextV15,
    NomicEmbedTextV15Q,
    /// Any other model.
    Other,
}

/// How long the vectors of a model are, as far as is known.
pub open spec fn dimension_of(model: EmbeddingModel) -> usize {
    match model {
        EmbeddingModel::BGEBaseENV15 => 768,
        EmbeddingModel::BGEBaseENV15Q => 768,
        EmbeddingModel::NomicEmbedTextV1 => 768,
        EmbeddingModel::NomicEmbedTextV15 => 768,
        EmbeddingModel::NomicEmbedTextV15Q => 768,
        _ => 384,
    }
}

/// Best-effort dimension lookup for known models.
pub fn model_dimension(model: EmbeddingModel) -> (r: usize)
    ensures
        r == dimension_of(model),
{
    match model {
        EmbeddingModel::AllMiniLML6V2 | EmbeddingModel::AllMiniLML6V2Q => 384,
        EmbeddingModel::BGESmallENV15 | EmbeddingModel::BGESmallENV15Q => 384,
        EmbeddingModel::BGEBaseENV15 | EmbeddingModel::BGEBaseENV15Q => 768,
        EmbeddingModel::NomicEmbedTextV1 | EmbeddingModel::NomicEmbedTextV15
        | EmbeddingModel::NomicEmbedTextV15Q => 768,
        EmbeddingModel::Other => 384,
    }
}

/// A name that is not that of a model.
#[derive(Debug, Clone)]
pub struct UnknownModel {
    /// The name in lower case.
    pub name: String,
}

impl UnknownModel {
    /// What the error says.
    pub fn message(&self) -> (r: String)
        ensures
            r@ == "unknown model '"@ + self.name@
                + "'. Choose from: bge-small-en-v1.5, bge-base-en-v1.5, all-minilm-l6-v2, nomic-embed-text-v1.5"@,
    {
        let mut r = "unknown model '".to_owned();
        r.append(self.name.as_str());
        r.append(
            "'. Choose from: bge-small-en-v1.5, bge-base-en-v1.5, all-minilm-l6-v2, nomic-embed-text-v1.5",
        );
        r
    }
}

/// The model that a name in lower case stands for: each model has a full name and
/// a short one.
pub open spec fn model_named(name: Seq<char>) -> Option<EmbeddingModel> {
    if name == "bge-small-en-v1.5"@ || name == "bge-small"@ {
        Some(EmbeddingModel::BGESmallENV15)
    } else if name == "bge-base-en-v1.5"@ || name == "bge-base"@ {
        Some(EmbeddingModel::BGEBaseENV15)
    } else if name == "all-minilm-l6-v2"@ || name == "minilm"@ {
        Some(EmbeddingModel::AllMiniLML6V2)
    } else if name == "nomic-embed-text-v1.5"@ || name == "nomic"@ {
        Some(EmbeddingModel::NomicEmbedTextV15)
    } else {
        None
    }
}

/// The model of that name, in whatever case it is written.
pub fn model_from_name(name: &str) -> (r: Result<EmbeddingModel, UnknownModel>)
    ensures
        match r {
            Ok(m) => model_named(text::lower(name@)) == Some(m),
            Err(e) => model_named(text::lower(name@)) is None && e.name@ == text::lower(name@),
        },
{
    let name = lowered(name);
    let n = name.as_str();
    if same_text(n, "bge-small-en-v1.5") || same_text(n, "bge-small") {
        Ok(EmbeddingModel::BGESmallENV15)
    } else if same_text(n, "bge-base-en-v1.5") || same_text(n, "bge-base") {
        Ok(EmbeddingModel::BGEBaseENV15)
    } else if same_text(n, "all-minilm-l6-v2") || same_text(n, "minilm") {
        Ok(EmbeddingModel::AllMiniLML6V2)
    } else if same_text(n, "nomic-embed-text-v1.5") || same_text(n, "nomic") {
        Ok(EmbeddingModel::NomicEmbedTextV15)
    } else {
        Err(UnknownModel { name })
    }
}

/// The directory that models are cached in: the one that is configured, else
/// `herbalist-mcp` in the platform's cache directory, or where we are if it has
/// none.
pub open spec fn cache_dir(configured: Option<Seq<char>>, platform: Option<Seq<char>>) -> Seq<
    char,
> {
    match configured {
        Some(dir) => dir,
        None => paths::join_path(
            match platform {
                Some(dir) => dir,
                None => "."@,
            },
            "herbalist-mcp"@,
        ),
    }
}

/// Computes [`cache_dir`].
pub fn model_cache_dir(configured: Option<String>, platform: Option<String>) -> (r: String)
    ensures
        r@ == cache_dir(configured.deep_view(), platform.deep_view()),
{
    match configured {
        Some(dir) => dir,
        None => match platform {
            Some(dir) => joined_path(dir.as_str(), "herbalist-mcp"),
            None => joined_path(".", "herbalist-mcp"),
        },
    }
}

/// A directory that is configured is used as it is; otherwise models are kept in a
/// directory of their own below the platform's, or below where we are.
pub proof fn law_cache_dir(dir: Seq<char>, platform: Option<Seq<char>>)
    ensures
        cache_dir(Some(dir), platform) == dir,
        dir.len() > 0 && dir.last() != '/' ==> cache_dir(None, Some(dir)) == dir + seq!['/']
            + "herbalist-mcp"@,
        cache_dir(None, None) == seq!['.', '/'] + "herbalist-mcp"@,
{
    reveal_strlit("herbalist-mcp");
    reveal_strlit(".");
    assert("."@ =~= seq!['.']);
    paths::law_join_path(dir, "herbalist-mcp"@);
    paths::law_join_path("."@, "herbalist-mcp"@);
    assert(seq!['.'] + seq!['/'] + "herbalist-mcp"@ =~= seq!['.', '/'] + "herbalist-mcp"@);
}

/// The vectors of the base models and of the Nomic models are 768 numbers long, all
/// others 384.
pub proof fn law_dimension(model: EmbeddingModel)
    ensures
        dimension_of(model) == 768 || dimension_of(model) == 384,
        dimension_of(model) == 768 <==> {
            ||| model == EmbeddingModel::BGEBaseENV15
            ||| model == EmbeddingModel::BGEBaseENV15Q
            ||| model == EmbeddingModel::NomicEmbedTextV1
            ||| model == EmbeddingModel::NomicEmbedTextV15
            ||| model == EmbeddingModel::NomicEmbedTextV15Q
        },
{
}

/// Each of the four models has a full name and a short one, and no other; no other
/// model has a name.
pub proof fn law_model_names(name: Seq<char>)
    ensures
        model_named(name) == Some(EmbeddingModel::BGESmallENV15) <==> name == "bge-small-en-v1.5"@
            || name == "bge-small"@,
        model_named(name) == Some(EmbeddingModel::BGEBaseENV15) <==> name == "bge-base-en-v1.5"@
            || name == "bge-base"@,
        model_named(name) == Some(EmbeddingModel::AllMiniLML6V2) <==> name == "all-minilm-l6-v2"@
            || name == "minilm"@,
        model_named(name) == Some(EmbeddingModel::NomicEmbedTextV15) <==> name
            == "nomic-embed-text-v1.5"@ || name == "nomic"@,
        match model_named(name) {
            Some(m) => m == EmbeddingModel::BGESmallENV15 || m == EmbeddingModel::BGEBaseENV15 || m
                == EmbeddingModel::AllMiniLML6V2 || m == EmbeddingModel::NomicEmbedTextV15,
            None => true,
        },
{
    reveal_strlit("bge-small-en-v1.5");
    reveal_strlit("bge-small");
    reveal_strlit("bge-base-en-v1.5");
    reveal_strlit("bge-base");
    reveal_strlit("all-minilm-l6-v2");
    reveal_strlit("minilm");
    reveal_strlit("nomic-embed-text-v1.5");
    reveal_strlit("nomic");
    assert("bge-small-en-v1.5"@[0] == 'b' && "bge-small"@[0] == 'b' && "bge-base-en-v1.5"@[0] == 'b'
        && "bge-base"@[0] == 'b' && "all-minilm-l6-v2"@[0] == 'a' && "minilm"@[0] == 'm'
        && "nomic-embed-text-v1.5"@[0] == 'n' && "nomic"@[0] == 'n');
    assert("bge-small-en-v1.5"@[4] == 's' && "bge-small"@[4] == 's' && "bge-base-en-v1.5"@[4] == 'b'
        && "bge-base"@[4] == 'b');
}

} // verus!
