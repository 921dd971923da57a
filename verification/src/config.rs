//! Versioning settings of a vault: the `.herbalist.yaml` files, their scopes, and
//! what holds for a note.
use vstd::hash_map::StringHashMap;
use vstd::prelude::*;
use vstd::string::StringExecFns;

use crate::lists;
use crate::text;
use crate::text::{begins_with, chars_of, same_text, split_of, string_of, CharClass};

verus! {

/// The versioning settings of one `.herbalist.yaml` file; what it leaves out is
/// `None`.
#[derive(Debug, Clone, Default)]
pub struct RawVersioning {
    pub resource_key: Option<String>,
    pub revision_key: Option<String>,
    /// Bits of the `f32` weight.
    pub revision_of_weight: Option<u32>,
}

/// What a [`RawVersioning`] holds.
pub struct RawModel {
    pub resource_key: Option<Seq<char>>,
    pub revision_key: Option<Seq<char>>,
    pub revision_of_weight: Option<u32>,
}

impl DeepView for RawVersioning {
    type V = RawModel;

    open spec fn deep_view(&self) -> RawModel {
        RawModel {
            resource_key: self.resource_key.deep_view(),
            revision_key: self.revision_key.deep_view(),
            revision_of_weight: self.revision_of_weight,
        }
    }
}

/// Fully resolved versioning config for a scope.
#[derive(Debug, Clone)]
pub struct VersioningConfig {
    /// Frontmatter key whose value identifies the logical document.
    pub resource_key: String,
    /// Frontmatter key holding epoch timestamp (integer) for ordering.
    pub revision_key: String,
    /// Bits of the `f32` Cleora edge weight for revision_of edges (default 0.5).
    pub revision_of_weight: u32,
}

/// What a [`VersioningConfig`] holds.
pub struct VersioningModel {
    pub resource_key: Seq<char>,
    pub revision_key: Seq<char>,
    pub revision_of_weight: u32,
}

impl DeepView for VersioningConfig {
    type V = VersioningModel;

    open spec fn deep_view(&self) -> VersioningModel {
        VersioningModel {
            resource_key: self.resource_key@,
            revision_key: self.revision_key@,
            revision_of_weight: self.revision_of_weight,
        }
    }
}

/// Effective config tied to a vault subdirectory scope.
#[derive(Debug, Clone)]
pub struct ScopedConfig {
    /// Vault-relative directory (empty string = vault root).
    pub scope: String,
    pub versioning: VersioningConfig,
}

/// What a [`ScopedConfig`] holds.
pub struct ScopedModel {
    pub scope: Seq<char>,
    pub versioning: VersioningModel,
}

impl DeepView for ScopedConfig {
    type V = ScopedModel;

    open spec fn deep_view(&self) -> ScopedModel {
        ScopedModel { scope: self.scope@, versioning: self.versioning.deep_view() }
    }
}

/// A `.herbalist.yaml` file: the vault-relative directory it stands in, and its
/// settings.
#[derive(Debug, Clone)]
pub struct ConfigFile {
    pub dir: String,
    pub raw: RawVersioning,
}

/// What a [`ConfigFile`] holds.
pub struct ConfigFileModel {
    pub dir: Seq<char>,
    pub raw: RawModel,
}

impl DeepView for ConfigFile {
    type V = ConfigFileModel;

    open spec fn deep_view(&self) -> ConfigFileModel {
        ConfigFileModel { dir: self.dir@, raw: self.raw.deep_view() }
    }
}

/// All config information loaded from a vault's `.herbalist.yaml` files.
pub struct LoadedConfigs {
    /// Every vault-relative directory that contains a `.herbalist.yaml`,
    /// sorted shallowest first. These are the namespace boundaries.
    pub all_scopes: Vec<String>,
    /// Scopes where the merged config resolves to a complete VersioningConfig,
    /// sorted shallowest first.
    pub versioned: Vec<ScopedConfig>,
}

/// Bits of the weight of a revision_of edge where none is set: 0.5.
pub const DEFAULT_WEIGHT: u32 = 0x3f00_0000;

// ── settings of one scope ────────────────────────────────────────────────────

/// No settings at all.
pub open spec fn no_settings() -> RawModel {
    RawModel { resource_key: None, revision_key: None, revision_of_weight: None }
}

/// `top` where it is set, else `base`.
pub open spec fn first_set<T>(top: Option<T>, base: Option<T>) -> Option<T> {
    if top is Some {
        top
    } else {
        base
    }
}

/// The settings of `base` with those of `top` on top of them.
pub open spec fn overlaid(base: RawModel, top: RawModel) -> RawModel {
    RawModel {
        resource_key: first_set(top.resource_key, base.resource_key),
        revision_key: first_set(top.revision_key, base.revision_key),
        revision_of_weight: first_set(top.revision_of_weight, base.revision_of_weight),
    }
}

/// The config that settings amount to: complete as soon as both keys are set.
pub open spec fn complete(raw: RawModel) -> Option<VersioningModel> {
    match (raw.resource_key, raw.revision_key) {
        (Some(resource_key), Some(revision_key)) => Some(
            VersioningModel {
                resource_key,
                revision_key,
                revision_of_weight: match raw.revision_of_weight {
                    Some(w) => w,
                    None => DEFAULT_WEIGHT,
                },
            },
        ),
        _ => None,
    }
}

/// The upper setting, or the lower one where it is missing.
fn upper_text(top: Option<String>, base: Option<String>) -> (r: Option<String>)
    ensures
        r.deep_view() == first_set(top.deep_view(), base.deep_view()),
{
    match top {
        Some(t) => Some(t),
        None => base,
    }
}

impl RawVersioning {
    /// No settings at all.
    pub fn unset() -> (r: Self)
        ensures
            r.deep_view() == no_settings(),
    {
        RawVersioning { resource_key: None, revision_key: None, revision_of_weight: None }
    }

    /// The settings of `base` with those of `top` on top of them.
    pub fn overlay(base: Self, top: Self) -> (r: Self)
        ensures
            r.deep_view() == overlaid(base.deep_view(), top.deep_view()),
    {
        RawVersioning {
            resource_key: upper_text(top.resource_key, base.resource_key),
            revision_key: upper_text(top.revision_key, base.revision_key),
            revision_of_weight: match top.revision_of_weight {
                Some(w) => Some(w),
                None => base.revision_of_weight,
            },
        }
    }

    /// The config that the settings amount to, if both keys are set.
    pub fn resolve(self) -> (r: Option<VersioningConfig>)
        ensures
            r.deep_view() == complete(self.deep_view()),
    {
        match (self.resource_key, self.revision_key) {
            (Some(resource_key), Some(revision_key)) => Some(
                VersioningConfig {
                    resource_key,
                    revision_key,
                    revision_of_weight: match self.revision_of_weight {
                        Some(w) => w,
                        None => DEFAULT_WEIGHT,
                    },
                },
            ),
            _ => None,
        }
    }

    /// A copy of the settings.
    fn copy(&self) -> (r: Self)
        ensures
            r.deep_view() == self.deep_view(),
    {
        RawVersioning {
            resource_key: match &self.resource_key {
                Some(k) => Some(k.clone()),
                None => None,
            },
            revision_key: match &self.revision_key {
                Some(k) => Some(k.clone()),
                None => None,
            },
            revision_of_weight: self.revision_of_weight,
        }
    }
}

// ── scopes ───────────────────────────────────────────────────────────────────

/// Whether `scope` is an ancestor of `path`, or `path` itself. The empty scope is
/// the vault root.
pub open spec fn covers(scope: Seq<char>, path: Seq<char>) -> bool {
    scope.len() == 0 || path == scope || text::starts_with(path, scope.push('/'))
}

/// How deep a scope lies: 0 for the vault root, else the number of its
/// components.
pub open spec fn depth(scope: Seq<char>) -> nat {
    if scope.len() == 0 {
        0
    } else {
        text::split(scope, '/').len()
    }
}

/// Whether `a` comes before `b` character by character.
pub open spec fn text_before(a: Seq<char>, b: Seq<char>) -> bool
    decreases a.len(),
{
    if b.len() == 0 {
        false
    } else if a.len() == 0 {
        true
    } else if a[0] != b[0] {
        a[0] < b[0]
    } else {
        text_before(a.drop_first(), b.drop_first())
    }
}

/// Whether scope `a` is listed before scope `b`: shallow ones first, those of one
/// depth in alphabetical order.
pub open spec fn scope_before(a: Seq<char>, b: Seq<char>) -> bool {
    depth(a) < depth(b) || (depth(a) == depth(b) && text_before(a, b))
}

/// Whether scopes are listed in order, each once.
pub open spec fn in_order(scopes: Seq<Seq<char>>) -> bool {
    forall|i: int, j: int|
        0 <= i < j < scopes.len() ==> scope_before(#[trigger] scopes[i], #[trigger] scopes[j])
}

/// Whether shallow scopes are listed before deep ones.
pub open spec fn shallow_first(scopes: Seq<Seq<char>>) -> bool {
    forall|i: int, j: int|
        0 <= i < j < scopes.len() ==> depth(#[trigger] scopes[i]) <= depth(#[trigger] scopes[j])
}

/// The place of the last scope that covers a path.
pub open spec fn last_covering(scopes: Seq<Seq<char>>, path: Seq<char>) -> Option<int>
    decreases scopes.len(),
{
    if scopes.len() == 0 {
        None
    } else if covers(scopes.last(), path) {
        Some(scopes.len() - 1)
    } else {
        last_covering(scopes.drop_last(), path)
    }
}

/// The namespace of a note: the last of the scopes that covers it.
pub open spec fn namespace_of(scopes: Seq<Seq<char>>, path: Seq<char>) -> Option<Seq<char>> {
    match last_covering(scopes, path) {
        Some(i) => Some(scopes[i]),
        None => None,
    }
}

/// True when `scope` is an ancestor of (or equal to) `path`.
pub fn scope_contains(scope: &str, path: &str) -> (r: bool)
    ensures
        r == covers(scope@, path@),
{
    if scope.is_empty() {
        return true;
    }
    if same_text(path, scope) {
        return true;
    }
    let mut inside = scope.to_owned();
    inside.push('/');
    begins_with(chars_of(path).as_slice(), inside.as_str())
}

proof fn lemma_last_covering(scopes: Seq<Seq<char>>, path: Seq<char>, i: int)
    requires
        0 <= i < scopes.len(),
        covers(scopes[i], path),
        forall|j: int| i < j < scopes.len() ==> !covers(#[trigger] scopes[j], path),
    ensures
        last_covering(scopes, path) == Some(i),
    decreases scopes.len(),
{
    if i < scopes.len() - 1 {
        assert(!covers(scopes[scopes.len() - 1], path));
        assert forall|j: int| i < j < scopes.drop_last().len() implies !covers(
            #[trigger] scopes.drop_last()[j],
            path,
        ) by {
            assert(!covers(scopes[j], path));
        }
        lemma_last_covering(scopes.drop_last(), path, i);
    }
}

proof fn lemma_none_covering(scopes: Seq<Seq<char>>, path: Seq<char>)
    requires
        forall|j: int| 0 <= j < scopes.len() ==> !covers(#[trigger] scopes[j], path),
    ensures
        last_covering(scopes, path) is None,
    decreases scopes.len(),
{
    if scopes.len() > 0 {
        assert(!covers(scopes[scopes.len() - 1], path));
        assert forall|j: int| 0 <= j < scopes.drop_last().len() implies !covers(
            #[trigger] scopes.drop_last()[j],
            path,
        ) by {
            assert(!covers(scopes[j], path));
        }
        lemma_none_covering(scopes.drop_last(), path);
    }
}

/// The namespace for a note is the deepest ancestor directory that owns a
/// `.herbalist.yaml`. Returns `None` if no config file exists anywhere above the
/// note.
///
/// `all_scopes` must be sorted shallowest first.
pub fn find_namespace<'a>(note_path: &str, all_scopes: &'a [String]) -> (r: Option<&'a str>)
    ensures
        r.deep_view() == namespace_of(all_scopes.deep_view(), note_path@),
{
    let ghost all = all_scopes.deep_view();
    let mut n: usize = all_scopes.len();
    while n > 0
        invariant
            n <= all_scopes@.len(),
            all == all_scopes.deep_view(),
            forall|j: int| n <= j < all.len() ==> !covers(#[trigger] all[j], note_path@),
        decreases n,
    {
        let scope: &'a String = &all_scopes[n - 1];
        assert(all[n - 1] == scope@);
        if scope_contains(scope.as_str(), note_path) {
            proof {
                lemma_last_covering(all, note_path@, n - 1);
            }
            return Some(scope.as_str());
        }
        n = n - 1;
    }
    proof {
        lemma_none_covering(all, note_path@);
    }
    None
}

/// The scopes of the configs, in their order.
pub open spec fn scopes_of(versioned: Seq<ScopedModel>) -> Seq<Seq<char>> {
    versioned.map_values(|c: ScopedModel| c.scope)
}

/// The config that holds for a namespace: the last one whose scope covers it.
pub open spec fn config_of(versioned: Seq<ScopedModel>, namespace: Seq<char>) -> Option<
    ScopedModel,
> {
    match last_covering(scopes_of(versioned), namespace) {
        Some(i) => Some(versioned[i]),
        None => None,
    }
}

/// Finds the effective `ScopedConfig` for a given namespace.
/// Returns `None` if no versioning config covers this namespace.
///
/// `versioned` must be sorted shallowest first.
pub fn versioning_for_namespace<'a>(namespace: &str, versioned: &'a [ScopedConfig]) -> (r: Option<
    &'a ScopedConfig,
>)
    ensures
        r.deep_view() == config_of(versioned.deep_view(), namespace@),
{
    let ghost all = scopes_of(versioned.deep_view());
    let mut n: usize = versioned.len();
    while n > 0
        invariant
            n <= versioned@.len(),
            all == scopes_of(versioned.deep_view()),
            forall|j: int| n <= j < all.len() ==> !covers(#[trigger] all[j], namespace@),
        decreases n,
    {
        let config: &'a ScopedConfig = &versioned[n - 1];
        assert(all[n - 1] == config.scope@);
        if scope_contains(config.scope.as_str(), namespace) {
            proof {
                lemma_last_covering(all, namespace@, n - 1);
            }
            return Some(config);
        }
        n = n - 1;
    }
    proof {
        lemma_none_covering(all, namespace@);
    }
    None
}

// ── loading ──────────────────────────────────────────────────────────────────

/// The settings by directory; of two files for one directory the last one
/// counts.
pub open spec fn settings_by_dir(files: Seq<ConfigFileModel>) -> Map<Seq<char>, RawModel>
    decreases files.len(),
{
    if files.len() == 0 {
        Map::empty()
    } else {
        settings_by_dir(files.drop_last()).insert(files.last().dir, files.last().raw)
    }
}

/// The settings so far with those of one directory on top, if it has any.
pub open spec fn with_dir(
    acc: RawModel,
    by_dir: Map<Seq<char>, RawModel>,
    dir: Seq<char>,
) -> RawModel {
    if by_dir.contains_key(dir) {
        overlaid(acc, by_dir[dir])
    } else {
        acc
    }
}

/// The directory that the components lead to.
pub open spec fn dir_of(parts: Seq<Seq<char>>) -> Seq<char>
    decreases parts.len(),
{
    if parts.len() == 0 {
        seq![]
    } else {
        let above = dir_of(parts.drop_last());
        if above.len() == 0 {
            parts.last()
        } else {
            above.push('/') + parts.last()
        }
    }
}

/// The settings from the vault root down along the components, the deeper ones
/// on top.
pub open spec fn settings_along(
    by_dir: Map<Seq<char>, RawModel>,
    parts: Seq<Seq<char>>,
) -> RawModel
    decreases parts.len(),
{
    if parts.len() == 0 {
        with_dir(no_settings(), by_dir, seq![])
    } else {
        with_dir(settings_along(by_dir, parts.drop_last()), by_dir, dir_of(parts))
    }
}

/// The settings that hold in a scope.
pub open spec fn settings_of(by_dir: Map<Seq<char>, RawModel>, scope: Seq<char>) -> RawModel {
    settings_along(
        by_dir,
        if scope.len() == 0 {
            seq![]
        } else {
            text::split(scope, '/')
        },
    )
}

/// The complete configs among the settings of the scopes, in their order.
pub open spec fn complete_configs(
    by_dir: Map<Seq<char>, RawModel>,
    scopes: Seq<Seq<char>>,
) -> Seq<ScopedModel>
    decreases scopes.len(),
{
    if scopes.len() == 0 {
        seq![]
    } else {
        let before = complete_configs(by_dir, scopes.drop_last());
        match complete(settings_of(by_dir, scopes.last())) {
            Some(versioning) => before.push(ScopedModel { scope: scopes.last(), versioning }),
            None => before,
        }
    }
}

/// The settings in a table of them.
spec fn table_model(m: Map<Seq<char>, RawVersioning>) -> Map<Seq<char>, RawModel> {
    m.map_values(|r: RawVersioning| r.deep_view())
}

proof fn lemma_before_total(a: Seq<char>, b: Seq<char>)
    ensures
        a == b || text_before(a, b) || text_before(b, a),
    decreases a.len(),
{
    if a.len() > 0 && b.len() > 0 && a[0] == b[0] {
        lemma_before_total(a.drop_first(), b.drop_first());
        if a.drop_first() == b.drop_first() {
            assert(a =~= seq![a[0]] + a.drop_first());
            assert(b =~= seq![b[0]] + b.drop_first());
        }
    } else if a.len() == 0 && b.len() == 0 {
        assert(a =~= b);
    }
}

proof fn lemma_before_transitive(a: Seq<char>, b: Seq<char>, c: Seq<char>)
    requires
        text_before(a, b),
        text_before(b, c),
    ensures
        text_before(a, c),
    decreases a.len(),
{
    if a.len() > 0 && a[0] == b[0] && b[0] == c[0] {
        lemma_before_transitive(a.drop_first(), b.drop_first(), c.drop_first());
    }
}

/// Computes [`text_before`].
fn is_text_before(a: &[char], b: &[char]) -> (r: bool)
    ensures
        r == text_before(a@, b@),
{
    let mut i: usize = 0;
    assert(a@.skip(0) =~= a@);
    assert(b@.skip(0) =~= b@);
    loop
        invariant
            i <= a@.len(),
            i <= b@.len(),
            text_before(a@.skip(i as int), b@.skip(i as int)) == text_before(a@, b@),
        decreases a@.len() - i,
    {
        if i >= b.len() {
            return false;
        }
        if i >= a.len() {
            return true;
        }
        if a[i] != b[i] {
            return a[i] < b[i];
        }
        assert(a@.skip(i as int).drop_first() =~= a@.skip(i + 1));
        assert(b@.skip(i as int).drop_first() =~= b@.skip(i + 1));
        i = i + 1;
    }
}

/// Computes [`depth`].
fn depth_of(scope: &[char]) -> (r: usize)
    ensures
        r == depth(scope@),
{
    if scope.len() == 0 {
        0
    } else {
        let parts = split_of(scope, '/');
        assert(text::rows(parts@).len() == parts@.len());
        parts.len()
    }
}

/// Computes [`scope_before`].
fn is_scope_before(a: &str, b: &str) -> (r: bool)
    ensures
        r == scope_before(a@, b@),
{
    let x = chars_of(a);
    let y = chars_of(b);
    let dx: usize = depth_of(x.as_slice());
    let dy: usize = depth_of(y.as_slice());
    dx < dy || (dx == dy && is_text_before(x.as_slice(), y.as_slice()))
}

/// Lists a scope at its place, unless it is listed already.
fn insert_scope(scopes: &mut Vec<String>, scope: String)
    requires
        in_order(old(scopes).deep_view()),
    ensures
        in_order(final(scopes).deep_view()),
        forall|s: Seq<char>|
            #[trigger] final(scopes).deep_view().contains(s) <==> (s == scope@
                || old(scopes).deep_view().contains(s)),
{
    let ghost before = scopes.deep_view();
    let mut i: usize = 0;
    while i < scopes.len() && is_scope_before(scopes[i].as_str(), scope.as_str())
        invariant
            i <= scopes@.len(),
            before == scopes.deep_view(),
            forall|j: int| 0 <= j < i ==> scope_before(#[trigger] before[j], scope@),
        decreases scopes@.len() - i,
    {
        i = i + 1;
    }
    if i < scopes.len() && same_text(scopes[i].as_str(), scope.as_str()) {
        assert(before[i as int] == scope@);
        assert(before.contains(scope@));
        return;
    }
    let ghost s = scope@;
    scopes.insert(i, scope);
    proof {
        let after = scopes.deep_view();
        assert(after =~= before.insert(i as int, s));
        assert forall|j: int| i <= j < before.len() implies scope_before(s, #[trigger] before[j]) by {
            lemma_before_total(before[i as int], s);
            if j > i {
                assert(scope_before(before[i as int], before[j]));
                if depth(s) == depth(before[i as int]) && depth(s) == depth(before[j]) {
                    lemma_before_transitive(s, before[i as int], before[j]);
                }
            }
        }
        assert forall|a: int, b: int| 0 <= a < b < after.len() implies scope_before(
            #[trigger] after[a],
            #[trigger] after[b],
        ) by {
            let x = if a < i { a } else { a - 1 };
            let y = if b < i { b } else { b - 1 };
            assert(a != i ==> after[a] == before[x]);
            assert(b != i ==> after[b] == before[y]);
        }
        lists::lemma_insert_contains(before, i as int, s);
    }
}

/// Merges versioning settings from the vault root down to `scope`.
fn merged_versioning(scope: &str, by_dir: &StringHashMap<RawVersioning>) -> (r: RawVersioning)
    ensures
        r.deep_view() == settings_of(table_model(by_dir@), scope@),
{
    let ghost table = table_model(by_dir@);
    let mut acc = RawVersioning::unset();
    assert(""@ =~= seq![]) by {
        reveal_strlit("");
    }
    if let Some(v) = by_dir.get("") {
        assert(table[""@] == v.deep_view());
        acc = RawVersioning::overlay(acc, v.copy());
    }
    if scope.is_empty() {
        return acc;
    }
    let chars = chars_of(scope);
    let parts = split_of(chars.as_slice(), '/');
    let ghost all = text::split(scope@, '/');
    let mut prefix = String::new();
    assert(prefix@ =~= dir_of(all.take(0)));
    let mut i: usize = 0;
    while i < parts.len()
        invariant
            i <= parts@.len(),
            table == table_model(by_dir@),
            all == text::rows(parts@),
            prefix@ == dir_of(all.take(i as int)),
            acc.deep_view() == settings_along(table, all.take(i as int)),
        decreases parts@.len() - i,
    {
        proof {
            assert(all.take(i + 1).drop_last() =~= all.take(i as int));
            assert(all.take(i + 1).last() == parts@[i as int]@);
        }
        let ghost above = prefix@;
        if !prefix.as_str().is_empty() {
            prefix.push('/');
        }
        let part = string_of(parts[i]);
        prefix.append(part.as_str());
        proof {
            if above.len() == 0 {
                assert(prefix@ =~= part@);
            }
        }
        if let Some(v) = by_dir.get(prefix.as_str()) {
            assert(table[prefix@] == v.deep_view());
            acc = RawVersioning::overlay(acc, v.copy());
        }
        i = i + 1;
    }
    assert(all.take(i as int) =~= all);
    acc
}

impl LoadedConfigs {
    /// No config files.
    pub fn empty() -> (r: Self)
        ensures
            r.all_scopes@.len() == 0,
            r.versioned@.len() == 0,
    {
        LoadedConfigs { all_scopes: Vec::new(), versioned: Vec::new() }
    }
}

/// Puts the `.herbalist.yaml` files of a vault together: the scopes they open, and
/// for each scope the settings from the vault root down to it, as far as they are
/// complete.
pub fn load(files: Vec<ConfigFile>) -> (r: LoadedConfigs)
    ensures
        in_order(r.all_scopes.deep_view()),
        forall|s: Seq<char>|
            #[trigger] r.all_scopes.deep_view().contains(s) <==> settings_by_dir(
                files.deep_view(),
            ).contains_key(s),
        r.versioned.deep_view() == complete_configs(
            settings_by_dir(files.deep_view()),
            r.all_scopes.deep_view(),
        ),
{
    let ghost all = files.deep_view();
    let mut by_dir: StringHashMap<RawVersioning> = StringHashMap::new();
    let mut all_scopes: Vec<String> = Vec::new();
    let mut i: usize = 0;
    assert(table_model(by_dir@) =~= settings_by_dir(all.take(0)));
    while i < files.len()
        invariant
            i <= files@.len(),
            all == files.deep_view(),
            table_model(by_dir@) == settings_by_dir(all.take(i as int)),
            in_order(all_scopes.deep_view()),
            forall|s: Seq<char>|
                #[trigger] all_scopes.deep_view().contains(s) <==> table_model(
                    by_dir@,
                ).contains_key(s),
        decreases files@.len() - i,
    {
        proof {
            assert(all.take(i + 1).drop_last() =~= all.take(i as int));
            assert(all.take(i + 1).last() == files@[i as int].deep_view());
        }
        let ghost before = table_model(by_dir@);
        let dir = files[i].dir.clone();
        let raw = files[i].raw.copy();
        insert_scope(&mut all_scopes, dir.clone());
        by_dir.insert(dir, raw);
        assert(table_model(by_dir@) =~= before.insert(dir@, raw.deep_view()));
        i = i + 1;
    }
    assert(all.take(i as int) =~= all);
    let ghost table = settings_by_dir(all);
    let ghost scopes = all_scopes.deep_view();
    let mut versioned: Vec<ScopedConfig> = Vec::new();
    let mut k: usize = 0;
    assert(versioned.deep_view() =~= complete_configs(table, scopes.take(0)));
    while k < all_scopes.len()
        invariant
            k <= all_scopes@.len(),
            scopes == all_scopes.deep_view(),
            table == table_model(by_dir@),
            versioned.deep_view() == complete_configs(table, scopes.take(k as int)),
        decreases all_scopes@.len() - k,
    {
        proof {
            assert(scopes.take(k + 1).drop_last() =~= scopes.take(k as int));
            assert(scopes.take(k + 1).last() == all_scopes@[k as int]@);
        }
        let merged = merged_versioning(all_scopes[k].as_str(), &by_dir);
        let ghost before = versioned.deep_view();
        if let Some(v) = merged.resolve() {
            let scope = all_scopes[k].clone();
            versioned.push(ScopedConfig { scope, versioning: v });
            assert(versioned.deep_view() =~= before.push(
                ScopedModel { scope: scope@, versioning: v.deep_view() },
            ));
        }
        k = k + 1;
    }
    assert(scopes.take(k as int) =~= scopes);
    LoadedConfigs { all_scopes, versioned }
}

// ── laws ─────────────────────────────────────────────────────────────────────

/// Putting settings on top of each other may be done in any grouping.
pub proof fn law_overlay_associative(a: RawModel, b: RawModel, c: RawModel)
    ensures
        overlaid(overlaid(a, b), c) == overlaid(a, overlaid(b, c)),
{
}

/// What a scope's own file sets holds in the scope.
pub proof fn law_own_settings_win(by_dir: Map<Seq<char>, RawModel>, parts: Seq<Seq<char>>)
    requires
        by_dir.contains_key(dir_of(parts)),
    ensures
        by_dir[dir_of(parts)].resource_key is Some ==> settings_along(by_dir, parts).resource_key
            == by_dir[dir_of(parts)].resource_key,
        by_dir[dir_of(parts)].revision_key is Some ==> settings_along(by_dir, parts).revision_key
            == by_dir[dir_of(parts)].revision_key,
        by_dir[dir_of(parts)].revision_of_weight is Some ==> settings_along(
            by_dir,
            parts,
        ).revision_of_weight == by_dir[dir_of(parts)].revision_of_weight,
{
}

/// What a scope's own file leaves out, or all of it where the scope has no file,
/// is as in the directory above.
pub proof fn law_settings_inherited(by_dir: Map<Seq<char>, RawModel>, parts: Seq<Seq<char>>)
    requires
        parts.len() > 0,
    ensures
        !by_dir.contains_key(dir_of(parts)) ==> settings_along(by_dir, parts) == settings_along(
            by_dir,
            parts.drop_last(),
        ),
        by_dir.contains_key(dir_of(parts)) && by_dir[dir_of(parts)].resource_key is None
            ==> settings_along(by_dir, parts).resource_key == settings_along(
            by_dir,
            parts.drop_last(),
        ).resource_key,
        by_dir.contains_key(dir_of(parts)) && by_dir[dir_of(parts)].revision_key is None
            ==> settings_along(by_dir, parts).revision_key == settings_along(
            by_dir,
            parts.drop_last(),
        ).revision_key,
        by_dir.contains_key(dir_of(parts)) && by_dir[dir_of(parts)].revision_of_weight is None
            ==> settings_along(by_dir, parts).revision_of_weight == settings_along(
            by_dir,
            parts.drop_last(),
        ).revision_of_weight,
{
}

proof fn lemma_split_add(a: Seq<char>, b: Seq<char>)
    ensures
        text::split(a.push('/') + b, '/') == text::split(a, '/') + text::split(b, '/'),
    decreases a.len(),
{
    let k = CharClass::Except('/');
    let s = a.push('/') + b;
    let n = text::find(a, '/');
    text::lemma_run(a, k);
    assert forall|i: int| 0 <= i < n implies k.has(#[trigger] s[i]) by {
        assert(k.has(a[i]));
    }
    if n == a.len() {
        assert(s[n as int] == '/');
        text::lemma_run_is(s, k, n);
        assert(s.take(n as int) =~= a);
        assert(s.skip(n as int + 1) =~= b);
    } else {
        assert(s[n as int] == a[n as int]);
        text::lemma_run_is(s, k, n);
        let rest = a.skip(n as int + 1);
        assert(s.take(n as int) =~= a.take(n as int));
        assert(s.skip(n as int + 1) =~= rest.push('/') + b);
        lemma_split_add(rest, b);
        let head = seq![a.take(n as int)];
        assert(head + (text::split(rest, '/') + text::split(b, '/')) =~= head + text::split(
            rest,
            '/',
        ) + text::split(b, '/'));
    }
}

proof fn lemma_split_len(s: Seq<char>)
    ensures
        text::split(s, '/').len() >= 1,
{
}

/// A directory inside a scope lies deeper than the scope.
proof fn lemma_inside_is_deeper(scope: Seq<char>, inner: Seq<char>)
    requires
        covers(scope, inner),
        scope != inner,
    ensures
        depth(scope) < depth(inner),
{
    if scope.len() == 0 {
        if inner.len() == 0 {
            assert(scope =~= inner);
        }
        lemma_split_len(inner);
    } else {
        let p = scope.push('/');
        let rest = inner.skip(p.len() as int);
        assert(inner =~= p + rest);
        lemma_split_add(scope, rest);
        lemma_split_len(rest);
    }
}

/// Of two scopes that cover a path, one covers the other.
proof fn lemma_covering_chain(a: Seq<char>, b: Seq<char>, path: Seq<char>)
    requires
        covers(a, path),
        covers(b, path),
        a.len() <= b.len(),
    ensures
        covers(a, b),
{
    if a.len() > 0 {
        let p = a.push('/');
        let q = b.push('/');
        if path == a {
            if path != b {
                assert(path.take(q.len() as int) == q);
                assert(false);
            }
        } else {
            assert(path.take(p.len() as int) == p);
            if path == b {
            } else {
                assert(path.take(q.len() as int) == q);
                if a.len() == b.len() {
                    assert(a =~= b) by {
                        assert forall|i: int| 0 <= i < a.len() implies a[i] == b[i] by {
                            assert(p[i] == path.take(p.len() as int)[i]);
                            assert(q[i] == path.take(q.len() as int)[i]);
                        }
                    }
                } else {
                    assert(b.take(p.len() as int) =~= p) by {
                        assert forall|i: int| 0 <= i < p.len() implies b[i] == p[i] by {
                            assert(p[i] == path.take(p.len() as int)[i]);
                            assert(q[i] == path.take(q.len() as int)[i]);
                        }
                    }
                }
            }
        }
    }
}

proof fn lemma_namespace_place(scopes: Seq<Seq<char>>, path: Seq<char>)
    ensures
        match last_covering(scopes, path) {
            Some(i) => {
                &&& 0 <= i < scopes.len()
                &&& covers(scopes[i], path)
                &&& forall|j: int| i < j < scopes.len() ==> !covers(#[trigger] scopes[j], path)
            },
            None => forall|j: int| 0 <= j < scopes.len() ==> !covers(#[trigger] scopes[j], path),
        },
    decreases scopes.len(),
{
    if scopes.len() > 0 && !covers(scopes.last(), path) {
        let t = scopes.drop_last();
        lemma_namespace_place(t, path);
        assert forall|j: int| 0 <= j < t.len() implies t[j] == #[trigger] scopes[j] by {}
    }
}

/// The namespace of a note is the deepest of the scopes above it: every scope
/// that covers the note covers the namespace too. A note has a namespace exactly
/// if some scope covers it.
pub proof fn law_namespace_is_deepest(scopes: Seq<Seq<char>>, path: Seq<char>)
    requires
        shallow_first(scopes),
    ensures
        namespace_of(scopes, path) is None <==> (forall|i: int|
            0 <= i < scopes.len() ==> !covers(#[trigger] scopes[i], path)),
        namespace_of(scopes, path) matches Some(ns) ==> scopes.contains(ns) && covers(ns, path)
            && forall|i: int|
            0 <= i < scopes.len() && covers(scopes[i], path) ==> covers(#[trigger] scopes[i], ns),
{
    lemma_namespace_place(scopes, path);
    if let Some(k) = last_covering(scopes, path) {
        let ns = scopes[k];
        assert forall|i: int| 0 <= i < scopes.len() && covers(scopes[i], path) implies covers(
            #[trigger] scopes[i],
            ns,
        ) by {
            if i < k {
                assert(depth(scopes[i]) <= depth(scopes[k]));
                if scopes[i].len() <= ns.len() {
                    lemma_covering_chain(scopes[i], ns, path);
                } else {
                    lemma_covering_chain(ns, scopes[i], path);
                    lemma_inside_is_deeper(ns, scopes[i]);
                }
            }
        }
    }
}

/// What [`load`] lists, [`find_namespace`] may search: the scopes are shallow
/// first.
pub proof fn law_loaded_scopes_shallow_first(scopes: Seq<Seq<char>>)
    requires
        in_order(scopes),
    ensures
        shallow_first(scopes),
{
    assert forall|i: int, j: int| 0 <= i < j < scopes.len() implies depth(#[trigger] scopes[i])
        <= depth(#[trigger] scopes[j]) by {
        assert(scope_before(scopes[i], scopes[j]));
    }
}

proof fn lemma_complete_configs(by_dir: Map<Seq<char>, RawModel>, scopes: Seq<Seq<char>>)
    requires
        shallow_first(scopes),
    ensures
        shallow_first(scopes_of(complete_configs(by_dir, scopes))),
        forall|i: int|
            0 <= i < complete_configs(by_dir, scopes).len() ==> scopes.contains(
                (#[trigger] complete_configs(by_dir, scopes)[i]).scope,
            ),
    decreases scopes.len(),
{
    if scopes.len() > 0 {
        let before = scopes.drop_last();
        assert forall|i: int, j: int| 0 <= i < j < before.len() implies depth(
            #[trigger] before[i],
        ) <= depth(#[trigger] before[j]) by {
            assert(before[i] == scopes[i] && before[j] == scopes[j]);
        }
        lemma_complete_configs(by_dir, before);
        let a = complete_configs(by_dir, before);
        let b = complete_configs(by_dir, scopes);
        lists::lemma_last_contains(scopes);
        assert forall|i: int| 0 <= i < b.len() implies scopes.contains((#[trigger] b[i]).scope) by {
            if i < a.len() {
                assert(a[i] == b[i]);
                assert(before.contains(a[i].scope));
            }
        }
        let s = scopes_of(b);
        assert forall|i: int, j: int| 0 <= i < j < s.len() implies depth(#[trigger] s[i]) <= depth(
            #[trigger] s[j],
        ) by {
            assert(s[i] == a[i].scope);
            if j < a.len() {
                assert(scopes_of(a)[i] == s[i] && scopes_of(a)[j] == s[j]);
            } else {
                let k = choose|k: int| 0 <= k < before.len() && before[k] == a[i].scope;
                assert(depth(scopes[k]) <= depth(scopes[scopes.len() - 1]));
            }
        }
    }
}

/// What [`load`] lists, [`versioning_for_namespace`] may search: the configs too
/// are shallow first.
pub proof fn law_loaded_configs_shallow_first(
    by_dir: Map<Seq<char>, RawModel>,
    scopes: Seq<Seq<char>>,
)
    requires
        in_order(scopes),
    ensures
        shallow_first(scopes_of(complete_configs(by_dir, scopes))),
{
    law_loaded_scopes_shallow_first(scopes);
    lemma_complete_configs(by_dir, scopes);
}

/// The config of a namespace is the deepest one that covers it: every config that
/// does has a scope that covers the scope of this one.
pub proof fn law_config_is_deepest(versioned: Seq<ScopedModel>, namespace: Seq<char>)
    requires
        shallow_first(scopes_of(versioned)),
    ensures
        config_of(versioned, namespace) is None <==> (forall|i: int|
            0 <= i < versioned.len() ==> !covers((#[trigger] versioned[i]).scope, namespace)),
        config_of(versioned, namespace) matches Some(c) ==> versioned.contains(c) && covers(
            c.scope,
            namespace,
        ) && forall|i: int|
            0 <= i < versioned.len() && covers(versioned[i].scope, namespace) ==> covers(
                (#[trigger] versioned[i]).scope,
                c.scope,
            ),
{
    let scopes = scopes_of(versioned);
    assert forall|i: int| 0 <= i < versioned.len() implies scopes[i] == (
    #[trigger] versioned[i]).scope by {}
    law_namespace_is_deepest(scopes, namespace);
    lemma_namespace_place(scopes, namespace);
    match last_covering(scopes, namespace) {
        Some(k) => {
            assert(versioned[k].scope == scopes[k]);
            assert(covers(versioned[k].scope, namespace));
            assert forall|i: int|
                0 <= i < versioned.len() && covers(versioned[i].scope, namespace) implies covers(
                (#[trigger] versioned[i]).scope,
                versioned[k].scope,
            ) by {
                assert(covers(scopes[i], scopes[k]));
            }
        },
        None => {
            assert forall|i: int| 0 <= i < versioned.len() implies !covers(
                (#[trigger] versioned[i]).scope,
                namespace,
            ) by {
                assert(!covers(scopes[i], namespace));
            }
        },
    }
}

/// A scope covers the paths that lead on from it behind a separator, and itself; the
/// vault root covers everything.
pub proof fn law_covers(scope: Seq<char>, path: Seq<char>)
    ensures
        covers(scope, path) <==> {
            ||| scope.len() == 0
            ||| path == scope
            ||| path.len() > scope.len() && path[scope.len() as int] == '/' && path.take(
                scope.len() as int,
            ) == scope
        },
{
    let p = scope.push('/');
    if path.len() > scope.len() {
        assert(path.take(p.len() as int) =~= path.take(scope.len() as int).push(
            path[scope.len() as int],
        ));
        if path.take(p.len() as int) == p {
            assert(path.take(scope.len() as int) =~= p.drop_last());
            assert(p.drop_last() =~= scope);
            assert(path.take(p.len() as int).last() == p.last());
        }
    }
}

/// A directory lies one deeper than the one it is in; those in the vault root lie at
/// depth 1.
pub proof fn law_depth(name: Seq<char>, dir: Seq<char>)
    requires
        name.len() > 0 && !name.contains('/'),
    ensures
        depth(Seq::<char>::empty()) == 0,
        depth(name) == 1,
        dir.len() > 0 ==> depth(dir + seq!['/'] + name) == depth(dir) + 1,
{
    text::law_split(name, seq![], '/');
    assert(dir.push('/') + name =~= dir + seq!['/'] + name);
    lemma_split_add(dir, name);
}

/// Texts are compared by the first character in which they differ; a text comes
/// before those that it is the start of.
pub proof fn law_text_before(p: Seq<char>, x: char, a: Seq<char>, y: char, b: Seq<char>)
    requires
        x != y,
    ensures
        text_before(p + seq![x] + a, p + seq![y] + b) <==> x < y,
        text_before(p, p + seq![y] + b),
        !text_before(p + seq![y] + b, p),
        !text_before(p, p),
    decreases p.len(),
{
    let s = p + seq![x] + a;
    let t = p + seq![y] + b;
    if p.len() > 0 {
        let q = p.drop_first();
        law_text_before(q, x, a, y, b);
        assert(s.drop_first() =~= q + seq![x] + a);
        assert(t.drop_first() =~= q + seq![y] + b);
        assert(s[0] == p[0] && t[0] == p[0]);
    } else {
        assert(s[0] == x && t[0] == y);
    }
}

/// A setting on top counts; where it is missing, the one below does.
pub proof fn law_overlay(base: RawModel, top: RawModel)
    ensures
        overlaid(base, top).resource_key == if top.resource_key is Some {
            top.resource_key
        } else {
            base.resource_key
        },
        overlaid(base, top).revision_key == if top.revision_key is Some {
            top.revision_key
        } else {
            base.revision_key
        },
        overlaid(base, top).revision_of_weight == if top.revision_of_weight is Some {
            top.revision_of_weight
        } else {
            base.revision_of_weight
        },
{
}

/// Settings are a config exactly if both keys are set; the weight is the one that is
/// set, or one half.
pub proof fn law_complete(raw: RawModel)
    ensures
        complete(raw) is Some <==> raw.resource_key is Some && raw.revision_key is Some,
        complete(raw) matches Some(c) ==> raw.resource_key == Some(c.resource_key)
            && raw.revision_key == Some(c.revision_key) && c.revision_of_weight
            == if raw.revision_of_weight is Some {
            raw.revision_of_weight->0
        } else {
            0x3f00_0000
        },
{
}

/// The settings of a directory are those of its file, the last one if there are
/// several.
pub proof fn law_settings_by_dir(files: Seq<ConfigFileModel>, f: ConfigFileModel, dir: Seq<char>)
    ensures
        !settings_by_dir(Seq::<ConfigFileModel>::empty()).contains_key(dir),
        settings_by_dir(files.push(f)).contains_key(f.dir),
        settings_by_dir(files.push(f))[f.dir] == f.raw,
        dir != f.dir ==> settings_by_dir(files.push(f)).contains_key(dir) == settings_by_dir(
            files,
        ).contains_key(dir),
        dir != f.dir && settings_by_dir(files).contains_key(dir) ==> settings_by_dir(
            files.push(f),
        )[dir] == settings_by_dir(files)[dir],
{
    assert(files.push(f).drop_last() =~= files);
}

proof fn lemma_dir_of(parts: Seq<Seq<char>>)
    requires
        parts.len() > 0,
        parts[0].len() > 0,
    ensures
        dir_of(parts) == text::join(parts, seq!['/']),
        dir_of(parts).len() > 0,
    decreases parts.len(),
{
    if parts.len() > 1 {
        lemma_dir_of(parts.drop_last());
        let above = dir_of(parts.drop_last());
        assert(above.push('/') =~= above + seq!['/']);
    } else {
        assert(parts.drop_last() =~= seq![]);
        assert(dir_of(parts.drop_last()) =~= seq![]);
    }
}

/// The settings in a directory: what its own file sets, and otherwise the settings
/// of the directory above. In the vault root only its own file counts.
pub proof fn law_settings_of(by_dir: Map<Seq<char>, RawModel>, above: Seq<char>, name: Seq<char>)
    requires
        name.len() > 0 && !name.contains('/'),
        above.len() > 0 ==> above[0] != '/',
    ensures
        ({
            let dir = if above.len() == 0 {
                name
            } else {
                above + seq!['/'] + name
            };
            let own = if by_dir.contains_key(dir) {
                by_dir[dir]
            } else {
                no_settings()
            };
            let a = settings_of(by_dir, above);
            let s = settings_of(by_dir, dir);
            &&& s.resource_key == if own.resource_key is Some {
                own.resource_key
            } else {
                a.resource_key
            }
            &&& s.revision_key == if own.revision_key is Some {
                own.revision_key
            } else {
                a.revision_key
            }
            &&& s.revision_of_weight == if own.revision_of_weight is Some {
                own.revision_of_weight
            } else {
                a.revision_of_weight
            }
        }),
        no_settings().resource_key is None && no_settings().revision_key is None
            && no_settings().revision_of_weight is None,
        settings_of(by_dir, Seq::<char>::empty()) == if by_dir.contains_key(seq![]) {
            by_dir[seq![]]
        } else {
            no_settings()
        },
{
    let none = Seq::<char>::empty();
    let no_parts = Seq::<Seq<char>>::empty();
    assert(dir_of(no_parts) =~= none);
    let dir = if above.len() == 0 {
        name
    } else {
        above + seq!['/'] + name
    };
    let parts = text::split(dir, '/');
    let up = if above.len() == 0 {
        no_parts
    } else {
        text::split(above, '/')
    };
    text::law_split(name, none, '/');
    if above.len() == 0 {
        assert(parts =~= up.push(name));
    } else {
        assert(above.push('/') + name =~= dir);
        lemma_split_add(above, name);
        assert(parts =~= up.push(name));
        assert(dir[0] == above[0]);
    }
    assert(parts.drop_last() =~= up);
    text::law_split_join(dir, '/');
    assert(parts[0].len() > 0) by {
        if parts[0].len() == 0 {
            if parts.len() == 1 {
                assert(text::join(parts, seq!['/']) == parts[0]);
            } else {
                text::lemma_join_first(parts, seq!['/']);
                assert(dir[0] == '/');
            }
        }
    }
    lemma_dir_of(parts);
    assert(dir_of(parts) == dir);
}

/// A scope has a config exactly if the settings that hold in it are complete, and
/// then it is that one; the configs come in the order of the scopes.
pub proof fn law_complete_configs(
    by_dir: Map<Seq<char>, RawModel>,
    scopes: Seq<Seq<char>>,
    scope: Seq<char>,
)
    ensures
        complete_configs(by_dir, Seq::<Seq<char>>::empty()).len() == 0,
        complete_configs(by_dir, scopes.push(scope)) == match complete(
            settings_of(by_dir, scope),
        ) {
            Some(versioning) => complete_configs(by_dir, scopes).push(
                ScopedModel { scope, versioning },
            ),
            None => complete_configs(by_dir, scopes),
        },
{
    assert(scopes.push(scope).drop_last() =~= scopes);
}

} // verus!
