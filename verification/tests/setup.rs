use herbalist::embeddings::{model_cache_dir, model_dimension, model_from_name, EmbeddingModel};
use herbalist::setup::{
    invalid_choice_message, menu_entry, menu_line, model_choice, not_configured_message,
    resolve_embedder_for_index, resolve_embedder_for_search, resolve_embedder_for_serve,
    search_not_configured_message, IndexModelChoice, ModelSource, SetupError, MENU_LEN,
};

fn some(s: &str) -> Option<String> {
    Some(s.to_owned())
}

fn registry(source: &ModelSource) -> (EmbeddingModel, String) {
    match source {
        ModelSource::Registry { model, name } => (*model, name.clone()),
        ModelSource::Directory { path } => panic!("{}", path),
    }
}

#[test]
fn models_by_name() {
    for (name, model) in [
        ("bge-small-en-v1.5", EmbeddingModel::BGESmallENV15),
        ("bge-small", EmbeddingModel::BGESmallENV15),
        ("BGE-Base-EN-v1.5", EmbeddingModel::BGEBaseENV15),
        ("bge-base", EmbeddingModel::BGEBaseENV15),
        ("all-MiniLM-L6-v2", EmbeddingModel::AllMiniLML6V2),
        ("minilm", EmbeddingModel::AllMiniLML6V2),
        ("nomic-embed-text-v1.5", EmbeddingModel::NomicEmbedTextV15),
        ("NOMIC", EmbeddingModel::NomicEmbedTextV15),
    ] {
        assert_eq!(model_from_name(name).unwrap(), model);
    }
    assert_eq!(
        model_from_name("GPT").unwrap_err().message(),
        "unknown model 'gpt'. Choose from: bge-small-en-v1.5, bge-base-en-v1.5, \
         all-minilm-l6-v2, nomic-embed-text-v1.5"
    );
    assert!(model_from_name("").is_err());
    assert!(model_from_name(" minilm").is_err());
}

#[test]
fn dimensions() {
    assert_eq!(model_dimension(EmbeddingModel::BGESmallENV15), 384);
    assert_eq!(model_dimension(EmbeddingModel::AllMiniLML6V2), 384);
    assert_eq!(model_dimension(EmbeddingModel::BGEBaseENV15), 768);
    assert_eq!(model_dimension(EmbeddingModel::NomicEmbedTextV15), 768);
    assert_eq!(model_dimension(EmbeddingModel::NomicEmbedTextV1), 768);
    assert_eq!(model_dimension(EmbeddingModel::Other), 384);
}

#[test]
fn cache_directory() {
    assert_eq!(model_cache_dir(some("/x"), some("/cache")), "/x");
    assert_eq!(model_cache_dir(None, some("/cache")), "/cache/herbalist-mcp");
    assert_eq!(model_cache_dir(None, None), "./herbalist-mcp");
}

#[test]
fn serve_prefers_a_directory_then_a_name_then_the_stored_name() {
    let r = resolve_embedder_for_serve(some("/m"), some("minilm"), some("nomic")).unwrap();
    assert!(matches!(r, ModelSource::Directory { path } if path == "/m"));
    let r = resolve_embedder_for_serve(None, some("MiniLM"), some("nomic")).unwrap();
    assert_eq!(registry(&r), (EmbeddingModel::AllMiniLML6V2, "MiniLM".to_owned()));
    let r = resolve_embedder_for_serve(None, None, some("nomic")).unwrap();
    assert_eq!(registry(&r), (EmbeddingModel::NomicEmbedTextV15, "nomic".to_owned()));
    let e = resolve_embedder_for_serve(None, None, None).unwrap_err();
    assert!(matches!(e, SetupError::NotConfigured));
    let e = resolve_embedder_for_serve(None, some("Nope"), some("nomic")).unwrap_err();
    assert!(matches!(e, SetupError::UnknownModel { name } if name == "nope"));
}

#[test]
fn search_uses_the_stored_name() {
    let r = resolve_embedder_for_search(some("bge-base")).unwrap();
    assert_eq!(registry(&r).0, EmbeddingModel::BGEBaseENV15);
    assert!(matches!(
        resolve_embedder_for_search(None).unwrap_err(),
        SetupError::NotConfigured
    ));
}

#[test]
fn index_stores_names_but_no_directories() {
    let r = resolve_embedder_for_index(some("/m"), some("minilm"), some("nomic")).unwrap();
    assert!(matches!(
        r,
        IndexModelChoice::Use { source: ModelSource::Directory { .. }, key: None }
    ));
    for (name, stored, key) in [
        (some("minilm"), some("nomic"), "minilm"),
        (None, some("nomic"), "nomic"),
        (some("BGE-small"), None, "BGE-small"),
    ] {
        match resolve_embedder_for_index(None, name, stored).unwrap() {
            IndexModelChoice::Use { key: Some(k), .. } => assert_eq!(k, key),
            _ => unreachable!(),
        }
    }
    let r = resolve_embedder_for_index(None, None, None).unwrap();
    assert!(matches!(r, IndexModelChoice::Ask));
    let e = resolve_embedder_for_index(None, None, some("old")).unwrap_err();
    assert!(matches!(e, SetupError::UnknownModel { name } if name == "old"));
}

#[test]
fn menu() {
    let lines: Vec<String> = (0..MENU_LEN).map(menu_line).collect();
    assert_eq!(
        lines,
        vec![
            "  [1] bge-small-en-v1.5        ~130 MB  Fast, good quality (recommended)",
            "  [2] all-minilm-l6-v2          ~90 MB  Faster, lower quality",
            "  [3] bge-base-en-v1.5         ~440 MB  Better quality, slower indexing",
            "  [4] nomic-embed-text-v1.5    ~550 MB  Best quality",
        ]
    );
}

#[test]
fn choices() {
    for (input, name) in [
        ("1\n", "bge-small-en-v1.5"),
        (" 2 \r\n", "all-minilm-l6-v2"),
        ("+3", "bge-base-en-v1.5"),
        ("0004", "nomic-embed-text-v1.5"),
    ] {
        let (chosen, model) = model_choice(input).unwrap();
        assert_eq!(chosen, name);
        assert_eq!(model, model_from_name(name).unwrap());
    }
}

#[test]
fn invalid_choices() {
    for input in [
        "", "0", "5", "10", "-1", "-0", "1.0", "one", "1 2", "+", "++1", "+-1", "12345678901234567890123",
        "٣", "1a", "a1",
    ] {
        let expected: usize = input.trim().parse().unwrap_or(0);
        assert!(!(1..=4).contains(&expected));
        match model_choice(input) {
            Err(SetupError::InvalidChoice { input: shown }) => assert_eq!(shown, input.trim()),
            _ => panic!("{}", input),
        }
    }
    assert_eq!(
        invalid_choice_message("x"),
        "Invalid choice 'x'. Re-run and enter a number between 1 and 4."
    );
    match model_choice(" 9 \n") {
        Err(SetupError::InvalidChoice { input }) => assert_eq!(input, "9"),
        _ => unreachable!(),
    }
}

#[test]
fn a_stored_choice_is_found_again() {
    for i in 0..MENU_LEN {
        let entry = menu_entry(i);
        let r = resolve_embedder_for_serve(None, None, some(entry.name)).unwrap();
        assert_eq!(registry(&r), (entry.model, entry.name.to_owned()));
    }
}

#[test]
fn messages() {
    assert_eq!(
        not_configured_message(),
        "No embedding model configured. \
         Run `herbalist-mcp index --vault <vault>` first to index the vault \
         and choose an embedding model."
    );
    assert_eq!(
        search_not_configured_message("/v"),
        "No embedding model configured for this vault.\n\
         Run `herbalist-mcp index --vault /v` first."
    );
}
