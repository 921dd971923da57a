//! Which embedding model a command uses.
use vstd::prelude::*;
use vstd::string::StringExecFns;

use crate::embeddings;
use crate::embeddings::{model_from_name, EmbeddingModel};
use crate::text;
use crate::text::{chars_of, string_of, trimmed};

verus! {

/// Where an embedding model comes from.
#[derive(Debug, Clone)]
pub enum ModelSource {
    /// A local directory.
    Directory { path: String },
    /// The registry.
    Registry { model: EmbeddingModel, name: String },
}

/// What a [`ModelSource`] holds.
pub enum SourceModel {
    Directory { path: Seq<char> },
    Registry { model: EmbeddingModel, name: Seq<char> },
}

impl DeepView for ModelSource {
    type V = SourceModel;

    open spec fn deep_view(&self) -> SourceModel {
        match self {
            ModelSource::Directory { path } => SourceModel::Directory { path: path@ },
            ModelSource::Registry { model, name } => SourceModel::Registry {
                model: *model,
                name: name@,
            },
        }
    }
}

/// Why there is no embedding model to use.
#[derive(Debug, Clone)]
pub enum SetupError {
    /// A name, here in lower case, is not that of a model.
    UnknownModel { name: String },
    /// No model was chosen yet.
    NotConfigured,
    /// The answer to the menu is not one of its numbers.
    InvalidChoice { input: String },
}

/// What a [`SetupError`] holds.
pub enum SetupErrorModel {
    UnknownModel { name: Seq<char> },
    NotConfigured,
    InvalidChoice { input: Seq<char> },
}

impl DeepView for SetupError {
    type V = SetupErrorModel;

    open spec fn deep_view(&self) -> SetupErrorModel {
        match self {
            SetupError::UnknownModel { name } => SetupErrorModel::UnknownModel { name: name@ },
            SetupError::NotConfigured => SetupErrorModel::NotConfigured,
            SetupError::InvalidChoice { input } => SetupErrorModel::InvalidChoice {
                input: input@,
            },
        }
    }
}

/// The model of that name from the registry, or that there is none.
pub open spec fn from_registry(name: Seq<char>) -> Result<SourceModel, SetupErrorModel> {
    let lower = text::lower(name);
    match embeddings::model_named(lower) {
        Some(model) => Ok(SourceModel::Registry { model, name }),
        None => Err(SetupErrorModel::UnknownModel { name: lower }),
    }
}

/// Finds the model of that name.
fn registry_model(name: String) -> (r: Result<ModelSource, SetupError>)
    ensures
        match r {
            Ok(s) => from_registry(name@) == Ok::<SourceModel, SetupErrorModel>(s.deep_view()),
            Err(e) => from_registry(name@) == Err::<SourceModel, SetupErrorModel>(e.deep_view()),
        },
{
    match model_from_name(name.as_str()) {
        Ok(model) => Ok(ModelSource::Registry { model, name }),
        Err(e) => Err(SetupError::UnknownModel { name: e.name }),
    }
}

// ── serve and search ─────────────────────────────────────────────────────────

/// The model to serve with: a directory that is given comes first, then a name
/// that is given, then the model that was chosen when the vault was indexed.
pub open spec fn serve_model(
    model_path: Option<Seq<char>>,
    model_name: Option<Seq<char>>,
    stored: Option<Seq<char>>,
) -> Result<SourceModel, SetupErrorModel> {
    match model_path {
        Some(path) => Ok(SourceModel::Directory { path }),
        None => match model_name {
            Some(name) => from_registry(name),
            None => match stored {
                Some(name) => from_registry(name),
                None => Err(SetupErrorModel::NotConfigured),
            },
        },
    }
}

/// For `serve`: which model to load, without asking anybody.
/// Priority: `model_path`, then `model_name`, then the stored name, then an error.
pub fn resolve_embedder_for_serve(
    model_path: Option<String>,
    model_name: Option<String>,
    stored: Option<String>,
) -> (r: Result<ModelSource, SetupError>)
    ensures
        ({
            let wanted = serve_model(
                model_path.deep_view(),
                model_name.deep_view(),
                stored.deep_view(),
            );
            match r {
                Ok(s) => wanted == Ok::<SourceModel, SetupErrorModel>(s.deep_view()),
                Err(e) => wanted == Err::<SourceModel, SetupErrorModel>(e.deep_view()),
            }
        }),
{
    if let Some(path) = model_path {
        return Ok(ModelSource::Directory { path });
    }
    if let Some(name) = model_name {
        return registry_model(name);
    }
    match stored {
        Some(name) => registry_model(name),
        None => Err(SetupError::NotConfigured),
    }
}

/// For `search`: which model to load. Only the stored name counts.
pub fn resolve_embedder_for_search(stored: Option<String>) -> (r: Result<ModelSource, SetupError>)
    ensures
        ({
            let wanted = serve_model(None, None, stored.deep_view());
            match r {
                Ok(s) => wanted == Ok::<SourceModel, SetupErrorModel>(s.deep_view()),
                Err(e) => wanted == Err::<SourceModel, SetupErrorModel>(e.deep_view()),
            }
        }),
{
    resolve_embedder_for_serve(None, None, stored)
}

// ── index ────────────────────────────────────────────────────────────────────

/// Which model to index with.
#[derive(Debug, Clone)]
pub enum IndexModelChoice {
    /// The model, and the name to store, if there is one.
    Use { source: ModelSource, key: Option<String> },
    /// The user has to choose from the menu.
    Ask,
}

/// What an [`IndexModelChoice`] holds.
pub enum ChoiceModel {
    Use { source: SourceModel, key: Option<Seq<char>> },
    Ask,
}

impl DeepView for IndexModelChoice {
    type V = ChoiceModel;

    open spec fn deep_view(&self) -> ChoiceModel {
        match self {
            IndexModelChoice::Use { source, key } => ChoiceModel::Use {
                source: source.deep_view(),
                key: key.deep_view(),
            },
            IndexModelChoice::Ask => ChoiceModel::Ask,
        }
    }
}

/// The model of that name, and the name to store.
pub open spec fn named_choice(name: Seq<char>) -> Result<ChoiceModel, SetupErrorModel> {
    match from_registry(name) {
        Ok(source) => Ok(ChoiceModel::Use { source, key: Some(name) }),
        Err(e) => Err(e),
    }
}

/// The model to index with. A directory is used without storing anything; a name
/// that is given, or else the stored one, is (again) stored; else the user has to
/// choose.
pub open spec fn index_model(
    model_path: Option<Seq<char>>,
    model_name: Option<Seq<char>>,
    stored: Option<Seq<char>>,
) -> Result<ChoiceModel, SetupErrorModel> {
    match model_path {
        Some(path) => Ok(
            ChoiceModel::Use { source: SourceModel::Directory { path }, key: None },
        ),
        None => match model_name {
            Some(name) => named_choice(name),
            None => match stored {
                Some(name) => named_choice(name),
                None => Ok(ChoiceModel::Ask),
            },
        },
    }
}

/// Finds the model of that name, to be stored under it.
fn registry_choice(name: String) -> (r: Result<IndexModelChoice, SetupError>)
    ensures
        match r {
            Ok(c) => named_choice(name@) == Ok::<ChoiceModel, SetupErrorModel>(c.deep_view()),
            Err(e) => named_choice(name@) == Err::<ChoiceModel, SetupErrorModel>(e.deep_view()),
        },
{
    let key = name.clone();
    match registry_model(name) {
        Ok(source) => Ok(IndexModelChoice::Use { source, key: Some(key) }),
        Err(e) => Err(e),
    }
}

/// For `index`: which model to load, and the name to store (none for a
/// directory); or that the user has to choose.
pub fn resolve_embedder_for_index(
    model_path: Option<String>,
    model_name: Option<String>,
    stored: Option<String>,
) -> (r: Result<IndexModelChoice, SetupError>)
    ensures
        ({
            let wanted = index_model(
                model_path.deep_view(),
                model_name.deep_view(),
                stored.deep_view(),
            );
            match r {
                Ok(c) => wanted == Ok::<ChoiceModel, SetupErrorModel>(c.deep_view()),
                Err(e) => wanted == Err::<ChoiceModel, SetupErrorModel>(e.deep_view()),
            }
        }),
{
    if let Some(path) = model_path {
        return Ok(IndexModelChoice::Use { source: ModelSource::Directory { path }, key: None });
    }
    if let Some(name) = model_name {
        return registry_choice(name);
    }
    match stored {
        Some(name) => registry_choice(name),
        None => Ok(IndexModelChoice::Ask),
    }
}

// ── the menu ─────────────────────────────────────────────────────────────────

/// A model of the menu.
#[derive(Debug, Clone, Copy)]
pub struct MenuEntry {
    pub name: &'static str,
    pub description: &'static str,
    pub model: EmbeddingModel,
}

/// How many models the menu has.
pub const MENU_LEN: usize = 4;

/// The name of a model of the menu.
pub open spec fn menu_name(i: int) -> Seq<char> {
    if i == 0 {
        "bge-small-en-v1.5"@
    } else if i == 1 {
        "all-minilm-l6-v2"@
    } else if i == 2 {
        "bge-base-en-v1.5"@
    } else {
        "nomic-embed-text-v1.5"@
    }
}

/// The description of a model of the menu.
pub open spec fn menu_description(i: int) -> Seq<char> {
    if i == 0 {
        "~130 MB  Fast, good quality (recommended)"@
    } else if i == 1 {
        " ~90 MB  Faster, lower quality"@
    } else if i == 2 {
        "~440 MB  Better quality, slower indexing"@
    } else {
        "~550 MB  Best quality"@
    }
}

/// A model of the menu.
pub open spec fn menu_model(i: int) -> EmbeddingModel {
    if i == 0 {
        EmbeddingModel::BGESmallENV15
    } else if i == 1 {
        EmbeddingModel::AllMiniLML6V2
    } else if i == 2 {
        EmbeddingModel::BGEBaseENV15
    } else {
        EmbeddingModel::NomicEmbedTextV15
    }
}

/// A model of the menu.
pub fn menu_entry(i: usize) -> (r: MenuEntry)
    requires
        i < MENU_LEN,
    ensures
        r.name@ == menu_name(i as int),
        r.description@ == menu_description(i as int),
        r.model == menu_model(i as int),
{
    if i == 0 {
        MenuEntry {
            name: "bge-small-en-v1.5",
            description: "~130 MB  Fast, good quality (recommended)",
            model: EmbeddingModel::BGESmallENV15,
        }
    } else if i == 1 {
        MenuEntry {
            name: "all-minilm-l6-v2",
            description: " ~90 MB  Faster, lower quality",
            model: EmbeddingModel::AllMiniLML6V2,
        }
    } else if i == 2 {
        MenuEntry {
            name: "bge-base-en-v1.5",
            description: "~440 MB  Better quality, slower indexing",
            model: EmbeddingModel::BGEBaseENV15,
        }
    } else {
        MenuEntry {
            name: "nomic-embed-text-v1.5",
            description: "~550 MB  Best quality",
            model: EmbeddingModel::NomicEmbedTextV15,
        }
    }
}

/// How wide the column of the names is.
pub const NAME_WIDTH: usize = 24;

/// A text filled up with blanks.
pub open spec fn padded(s: Seq<char>, width: nat) -> Seq<char> {
    s + Seq::new(
        if s.len() < width {
            (width - s.len()) as nat
        } else {
            0
        },
        |i: int| ' ',
    )
}

/// The number of a menu line.
pub open spec fn menu_number(i: int) -> Seq<char> {
    if i == 0 {
        "1"@
    } else if i == 1 {
        "2"@
    } else if i == 2 {
        "3"@
    } else {
        "4"@
    }
}

/// A line of the menu: the number, the name and the description.
pub open spec fn menu_line_text(i: int) -> Seq<char> {
    "  ["@ + menu_number(i) + "] "@ + padded(menu_name(i), NAME_WIDTH as nat) + " "@
        + menu_description(i)
}

/// Computes [`menu_line_text`].
pub fn menu_line(i: usize) -> (r: String)
    requires
        i < MENU_LEN,
    ensures
        r@ == menu_line_text(i as int),
{
    let entry = menu_entry(i);
    let mut r = "  [".to_owned();
    r.append(
        if i == 0 {
            "1"
        } else if i == 1 {
            "2"
        } else if i == 2 {
            "3"
        } else {
            "4"
        },
    );
    r.append("] ");
    r.append(entry.name);
    let len: usize = chars_of(entry.name).len();
    let ghost start = r@;
    let mut k: usize = len;
    while k < NAME_WIDTH
        invariant
            len <= k,
            len < NAME_WIDTH ==> k <= NAME_WIDTH,
            len >= NAME_WIDTH ==> k == len,
            r@ =~= start + Seq::new((k - len) as nat, |i: int| ' '),
        decreases NAME_WIDTH - k,
    {
        r.push(' ');
        k = k + 1;
    }
    proof {
        assert(r@ =~= "  ["@ + menu_number(i as int) + "] "@ + padded(
            menu_name(i as int),
            NAME_WIDTH as nat,
        ));
    }
    r.append(" ");
    r.append(entry.description);
    r
}

/// The value of decimal digits.
pub open spec fn digits_value(s: Seq<char>) -> nat
    decreases s.len(),
{
    if s.len() == 0 {
        0
    } else {
        10 * digits_value(s.drop_last()) + (s.last() as nat - '0' as nat) as nat
    }
}

/// Whether a character is a decimal digit.
pub open spec fn is_digit(c: char) -> bool {
    '0' <= c <= '9'
}

/// Whether a text is made of decimal digits.
pub open spec fn all_digits(s: Seq<char>) -> bool {
    forall|i: int| 0 <= i < s.len() ==> is_digit(#[trigger] s[i])
}

/// A text without the plus sign in front of it.
pub open spec fn without_plus(s: Seq<char>) -> Seq<char> {
    if s.len() > 0 && s[0] == '+' {
        s.skip(1)
    } else {
        s
    }
}

/// The number that a text stands for, if it is one: decimal digits, with a plus
/// sign in front of them or not.
pub open spec fn number_of(s: Seq<char>) -> Option<nat> {
    let digits = without_plus(s);
    if digits.len() > 0 && all_digits(digits) {
        Some(digits_value(digits))
    } else {
        None
    }
}

/// The place in the menu that an answer stands for, if it does: a number from 1
/// to the length of the menu.
pub open spec fn chosen(input: Seq<char>) -> Option<int> {
    match number_of(text::trim(input)) {
        Some(n) => if 1 <= n <= MENU_LEN {
            Some(n - 1)
        } else {
            None
        },
        None => None,
    }
}

/// The number from 1 to [`MENU_LEN`] that a text stands for.
fn menu_place(s: &[char]) -> (r: Option<usize>)
    ensures
        match r {
            Some(n) => 1 <= n <= MENU_LEN && number_of(s@) == Some(n as nat),
            None => match number_of(s@) {
                Some(n) => !(1 <= n <= MENU_LEN),
                None => true,
            },
        },
{
    let len: usize = s.len();
    let start: usize = if len > 0 && s[0] == '+' {
        1
    } else {
        0
    };
    let ghost digits = without_plus(s@);
    if start == len {
        return None;
    }
    let mut value: usize = 0;
    let mut i: usize = start;
    assert(digits =~= s@.skip(start as int));
    assert(digits.take(0) =~= seq![]);
    while i < len
        invariant
            start <= i <= len,
            start <= 1,
            len == s@.len(),
            digits == without_plus(s@),
            digits == s@.skip(start as int),
            value <= MENU_LEN || value == MENU_LEN + 1,
            value <= MENU_LEN ==> value == digits_value(digits.take(i - start)),
            value > MENU_LEN ==> digits_value(digits.take(i - start)) > MENU_LEN,
            forall|j: int| 0 <= j < i - start ==> is_digit(#[trigger] digits[j]),
        decreases len - i,
    {
        let c: char = s[i];
        assert(digits[i - start] == c);
        if c < '0' || c > '9' {
            assert(!is_digit(digits[i - start]));
            return None;
        }
        proof {
            assert(digits.take(i - start + 1).drop_last() =~= digits.take(i - start));
            assert(digits.take(i - start + 1).last() == c);
        }
        if value <= MENU_LEN {
            let d: usize = (c as u32 - '0' as u32) as usize;
            let v: usize = 10 * value + d;
            value = if v <= MENU_LEN {
                v
            } else {
                MENU_LEN + 1
            };
        }
        i = i + 1;
    }
    assert(digits.take(i - start) =~= digits);
    if 1 <= value && value <= MENU_LEN {
        Some(value)
    } else {
        None
    }
}

/// The model that the user has chosen from the menu, with its name, from what was
/// typed.
pub fn model_choice(input: &str) -> (r: Result<(String, EmbeddingModel), SetupError>)
    ensures
        match r {
            Ok(c) => match chosen(input@) {
                Some(i) => c.0@ == menu_name(i) && c.1 == menu_model(i),
                None => false,
            },
            Err(e) => chosen(input@) is None && e.deep_view() == (SetupErrorModel::InvalidChoice {
                input: text::trim(input@),
            }),
        },
{
    let chars = chars_of(input);
    let answer = trimmed(chars.as_slice());
    match menu_place(answer) {
        Some(n) => {
            let entry = menu_entry(n - 1);
            Ok((entry.name.to_owned(), entry.model))
        },
        None => Err(SetupError::InvalidChoice { input: string_of(answer) }),
    }
}

// ── messages ─────────────────────────────────────────────────────────────────

/// What is said when a vault has no model to serve with.
pub fn not_configured_message() -> (r: String)
    ensures
        r@
            == "No embedding model configured. Run `herbalist-mcp index --vault <vault>` first to index the vault and choose an embedding model."@,
{
    "No embedding model configured. Run `herbalist-mcp index --vault <vault>` first to index the vault and choose an embedding model.".to_owned()
}

/// What is said when a vault has no model to search with.
pub fn search_not_configured_message(vault: &str) -> (r: String)
    ensures
        r@
            == "No embedding model configured for this vault.\nRun `herbalist-mcp index --vault "@
            + vault@ + "` first."@,
{
    let mut r =
        "No embedding model configured for this vault.\nRun `herbalist-mcp index --vault ".to_owned();
    r.append(vault);
    r.append("` first.");
    r
}

/// What is said when the answer to the menu is not one of its numbers.
pub fn invalid_choice_message(input: &str) -> (r: String)
    ensures
        r@ == "Invalid choice '"@ + input@ + "'. Re-run and enter a number between 1 and 4."@,
{
    let mut r = "Invalid choice '".to_owned();
    r.append(input);
    r.append("'. Re-run and enter a number between 1 and 4.");
    r
}

// ── laws ─────────────────────────────────────────────────────────────────────

/// The name of every model of the menu is that of the model, so that a choice
/// that was stored leads back to the model that was chosen.
pub proof fn law_stored_choice_is_found_again(i: int)
    requires
        0 <= i < MENU_LEN,
    ensures
        serve_model(None, None, Some(menu_name(i))) == Ok::<SourceModel, SetupErrorModel>(
            SourceModel::Registry { model: menu_model(i), name: menu_name(i) },
        ),
        index_model(None, None, Some(menu_name(i))) == Ok::<ChoiceModel, SetupErrorModel>(
            ChoiceModel::Use {
                source: SourceModel::Registry { model: menu_model(i), name: menu_name(i) },
                key: Some(menu_name(i)),
            },
        ),
{
    reveal_strlit("bge-small-en-v1.5");
    reveal_strlit("bge-small");
    reveal_strlit("bge-base-en-v1.5");
    reveal_strlit("bge-base");
    reveal_strlit("all-minilm-l6-v2");
    reveal_strlit("minilm");
    reveal_strlit("nomic-embed-text-v1.5");
    reveal_strlit("nomic");
    let name = menu_name(i);
    assert(text::all_ascii(name));
    assert(text::lower(name) =~= name);
    assert("bge-small-en-v1.5"@[0] == 'b' && "all-minilm-l6-v2"@[0] == 'a'
        && "nomic-embed-text-v1.5"@[0] == 'n');
    assert("bge-small-en-v1.5"@[4] == 's' && "bge-base-en-v1.5"@[4] == 'b' && "bge-base"@[4] == 'b'
        && "bge-small"@[4] == 's');
    assert("bge-base"@[0] == 'b' && "bge-small"@[0] == 'b' && "minilm"@[0] == 'm'
        && "bge-base-en-v1.5"@[0] == 'b');
}

/// A model that is given on the command line is used whatever was stored, and a
/// directory before a name.
pub proof fn law_given_model_wins(
    path: Seq<char>,
    name: Seq<char>,
    other: Option<Seq<char>>,
    stored: Option<Seq<char>>,
)
    ensures
        serve_model(Some(path), other, stored) == Ok::<SourceModel, SetupErrorModel>(
            SourceModel::Directory { path },
        ),
        serve_model(None, Some(name), stored) == serve_model(None, Some(name), None),
        index_model(Some(path), other, stored) == Ok::<ChoiceModel, SetupErrorModel>(
            ChoiceModel::Use { source: SourceModel::Directory { path }, key: None },
        ),
        index_model(None, Some(name), stored) == index_model(None, Some(name), None),
{
}

/// A digit more makes a number ten times as great, and adds the digit; a plus sign
/// in front of the first digit does not count.
pub proof fn law_number(s: Seq<char>, d: char)
    requires
        '0' <= d <= '9',
        forall|i: int| 0 <= i < s.len() ==> '0' <= #[trigger] s[i] <= '9',
    ensures
        number_of(Seq::<char>::empty()) is None,
        number_of(seq!['+']) is None,
        number_of(seq![d]) == Some((d as nat - '0' as nat) as nat),
        s.len() > 0 ==> (number_of(s) matches Some(n) && number_of(s.push(d)) == Some(
            (10 * n + (d as nat - '0' as nat)) as nat,
        )),
        s.len() > 0 ==> number_of(seq!['+'] + s) == number_of(s),
{
    let one = seq![d];
    assert(one.drop_last() =~= seq![]);
    assert(all_digits(one)) by {
        assert(is_digit(one[0]));
    }
    assert(seq!['+'].skip(1) =~= seq![]);
    if s.len() > 0 {
        assert('0' <= s[0] <= '9');
        assert(all_digits(s)) by {
            assert forall|i: int| 0 <= i < s.len() implies is_digit(#[trigger] s[i]) by {}
        }
        let t = s.push(d);
        assert(t.drop_last() =~= s);
        assert(t[0] == s[0]);
        assert(all_digits(t)) by {
            assert forall|i: int| 0 <= i < t.len() implies is_digit(#[trigger] t[i]) by {
                if i < s.len() {
                    assert(t[i] == s[i]);
                }
            }
        }
        let u = seq!['+'] + s;
        assert(u[0] == '+');
        assert(u.skip(1) =~= s);
    }
}

/// An answer to the menu counts exactly if it is a number from 1 to 4, with white
/// space around it or not; it stands for the model in that place.
pub proof fn law_chosen(x: Seq<char>, answer: Seq<char>, y: Seq<char>)
    requires
        text::blank(x),
        text::tight(answer),
        text::blank(y),
    ensures
        chosen(x + answer + y) == match number_of(answer) {
            Some(n) => if 1 <= n <= 4 {
                Some(n - 1)
            } else {
                None
            },
            None => None,
        },
{
    text::law_trim(x, answer, y);
}

/// What is no number: a text with a character that is no digit, but for a plus sign
/// in front of it.
pub proof fn law_no_number(s: Seq<char>, i: int)
    requires
        0 <= i < s.len(),
        !('0' <= s[i] <= '9'),
        i > 0 || s[0] != '+',
    ensures
        number_of(s) is None,
{
    let d = without_plus(s);
    if s[0] == '+' {
        assert(d[i - 1] == s[i]);
        assert(!is_digit(d[i - 1]));
    } else {
        assert(!is_digit(d[i]));
    }
}

/// Without a model on the command line the stored one counts; without that too, the
/// user is asked when indexing, and serving fails. A name is looked up in lower case,
/// and one that no model has is reported so.
pub proof fn law_stored_model(name: Seq<char>)
    ensures
        serve_model(None, None, None) == Err::<SourceModel, SetupErrorModel>(
            SetupErrorModel::NotConfigured,
        ),
        index_model(None, None, None) == Ok::<ChoiceModel, SetupErrorModel>(ChoiceModel::Ask),
        serve_model(None, None, Some(name)) == serve_model(None, Some(name), None),
        index_model(None, None, Some(name)) == index_model(None, Some(name), None),
        match embeddings::model_named(text::lower(name)) {
            Some(model) => serve_model(None, Some(name), None) == Ok::<
                SourceModel,
                SetupErrorModel,
            >(SourceModel::Registry { model, name }) && index_model(None, Some(name), None) == Ok::<
                ChoiceModel,
                SetupErrorModel,
            >(
                ChoiceModel::Use {
                    source: SourceModel::Registry { model, name },
                    key: Some(name),
                },
            ),
            None => serve_model(None, Some(name), None) == Err::<SourceModel, SetupErrorModel>(
                SetupErrorModel::UnknownModel { name: text::lower(name) },
            ) && index_model(None, Some(name), None) == Err::<ChoiceModel, SetupErrorModel>(
                SetupErrorModel::UnknownModel { name: text::lower(name) },
            ),
        },
{
}

} // verus!
