//! Input rules from the `metadata.affected` table of a manifest.
//!
//! Coverage cannot link a change to an input that is no Rust source, such as a snapshot or a
//! document, to the tests that read it. A rule pairs globs with a nextest filterset: when a
//! changed path matches one of the globs, the tests of the filterset are selected.

use vstd::prelude::*;
use crate::db::{TestId, TestIdView};
use crate::json::{Json, JsonView};
use crate::listing::{Listing, ListingView};
use crate::ordered::{Key, OrdMap, OrdSet};
use crate::paths::{join_path, same_path};
use crate::text::{join_texts, same_text};

verus! {

/// One rule: globs and the filterset whose tests to run when a changed path matches one of them.
#[derive(Debug, PartialEq, Eq)]
pub struct InputRule {
    pub globs: Vec<String>,
    pub filterset: String,
}

/// The value of an [`InputRule`].
#[verifier::ext_equal]
pub struct InputRuleView {
    pub globs: Seq<Seq<char>>,
    pub filterset: Seq<char>,
}

impl View for InputRule {
    type V = InputRuleView;

    open spec fn view(&self) -> InputRuleView {
        InputRuleView { globs: self.globs.deep_view(), filterset: self.filterset@ }
    }
}

impl DeepView for InputRule {
    type V = InputRuleView;

    open spec fn deep_view(&self) -> InputRuleView {
        self@
    }
}

/// The rules of a project.
#[derive(Debug, PartialEq, Eq)]
pub struct AffectedConfig {
    pub rules: Vec<InputRule>,
}

/// Why the rules cannot be used.
#[derive(Debug, PartialEq, Eq)]
pub enum ConfigError {
    /// The table has an unknown key, or a value of the wrong kind.
    BadTable,
    /// A glob cannot be parsed: the glob and the parser's message.
    BadGlob(String, String),
    /// The globs of a rule cannot be compiled: the compiler's message.
    BadMatcher(String),
}

/// The value of a [`ConfigError`].
#[verifier::ext_equal]
pub enum ConfigErrorView {
    BadTable,
    BadGlob(Seq<char>, Seq<char>),
    BadMatcher(Seq<char>),
}

impl View for ConfigError {
    type V = ConfigErrorView;

    open spec fn view(&self) -> ConfigErrorView {
        match self {
            ConfigError::BadTable => ConfigErrorView::BadTable,
            ConfigError::BadGlob(glob, e) => ConfigErrorView::BadGlob(glob@, e@),
            ConfigError::BadMatcher(e) => ConfigErrorView::BadMatcher(e@),
        }
    }
}

/// A text in quotes, with escapes.
pub uninterp spec fn quoted_text(s: Seq<char>) -> Seq<char>;

/// The `Debug` form of `str` in std: the text in double quotes, with escapes. It depends on the
/// text alone.
#[verifier::external_body]
pub(crate) fn quote(s: &str) -> (r: String)
    ensures
        r@ == quoted_text(s@),
{
    format!("{s:?}")
}

/// The message of a [`ConfigError`].
pub open spec fn config_message(e: ConfigErrorView) -> Seq<char> {
    match e {
        ConfigErrorView::BadTable => "failed to parse [*.metadata.affected] in Cargo.toml"@,
        ConfigErrorView::BadGlob(glob, m) => "invalid glob "@ + quoted_text(glob) + " in [*.metadata.affected]: "@ + m,
        ConfigErrorView::BadMatcher(m) => "failed to build glob matcher for [*.metadata.affected]: "@ + m,
    }
}

impl ConfigError {
    /// The message for the user.
    pub fn message(&self) -> (r: String)
        ensures
            r@ == config_message(self@),
    {
        match self {
            ConfigError::BadTable => String::from_str("failed to parse [*.metadata.affected] in Cargo.toml"),
            ConfigError::BadGlob(glob, m) => String::from_str("invalid glob ").concat(
                quote(glob.as_str()).as_str(),
            ).concat(" in [*.metadata.affected]: ").concat(m.as_str()),
            ConfigError::BadMatcher(m) => String::from_str(
                "failed to build glob matcher for [*.metadata.affected]: ",
            ).concat(m.as_str()),
        }
    }
}

/// Whether every member of an object has one of two names. An array has no names.
pub open spec fn only_named(j: JsonView, a: Seq<char>, b: Seq<char>) -> bool {
    match j {
        JsonView::Object(o) => forall|i: int|
            0 <= i < o.len() ==> (#[trigger] o[i]).0 == a || o[i].0 == b,
        _ => true,
    }
}

/// A rule of the table: exactly its globs and its filterset.
pub open spec fn rule_of(j: JsonView) -> Option<InputRuleView> {
    if j.is_record(2) && only_named(j, "globs"@, "filterset"@) {
        match (j.field("globs"@, 0), j.field("filterset"@, 1)) {
            (Some(JsonView::Array(a)), Some(JsonView::Text(filterset))) => match crate::coverage::read_all(
                a,
                |g: JsonView| g.as_text(),
            ) {
                Some(globs) => Some(InputRuleView { globs, filterset }),
                None => None,
            },
            _ => None,
        }
    } else {
        None
    }
}

/// The rules of a table: it may hold a list of rules, and nothing else.
pub open spec fn rules_of(j: JsonView) -> Option<Seq<InputRuleView>> {
    if j.is_record(1) && only_named(j, "rule"@, "rule"@) {
        match crate::coverage::optional_array(j.field("rule"@, 0)) {
            Some(a) => crate::coverage::read_all(a, |r: JsonView| rule_of(r)),
            None => None,
        }
    } else {
        None
    }
}

/// Whether a package is the one at the workspace root.
pub open spec fn is_root_package(package: JsonView, workspace_root: Seq<char>) -> bool {
    match package.get_text("manifest_path"@) {
        Some(path) => crate::paths::same_path_text(path, crate::project::root_manifest_of(workspace_root)),
        None => false,
    }
}

/// The table of a document with a `metadata` member.
pub open spec fn metadata_table(j: JsonView) -> Option<JsonView> {
    match j.get("metadata"@) {
        Some(m) => m.get("affected"@),
        None => None,
    }
}

/// The table of the package at the workspace root.
pub open spec fn root_package_table(packages: Seq<JsonView>, workspace_root: Seq<char>) -> Option<JsonView>
    decreases packages.len(),
{
    if packages.len() == 0 {
        None
    } else if is_root_package(packages[0], workspace_root) && metadata_table(packages[0]) is Some {
        metadata_table(packages[0])
    } else {
        root_package_table(packages.drop_first(), workspace_root)
    }
}

/// The table of a project: the workspace's, or else that of the package at its root.
pub open spec fn affected_table(metadata: JsonView, workspace_root: Seq<char>) -> Option<JsonView> {
    match metadata_table(metadata) {
        Some(t) => Some(t),
        None => root_package_table(crate::project::listed(metadata, "packages"@), workspace_root),
    }
}

/// The rules of a project. An absent table holds none; a malformed one is an error.
pub open spec fn project_rules(metadata: JsonView, workspace_root: Seq<char>) -> Result<
    Seq<InputRuleView>,
    ConfigErrorView,
> {
    match affected_table(metadata, workspace_root) {
        Some(t) => match rules_of(t) {
            Some(rules) => Ok(rules),
            None => Err(ConfigErrorView::BadTable),
        },
        None => Ok(Seq::empty()),
    }
}

/// Whether every member of an object has one of two names.
fn names_are(j: &Json, a: &str, b: &str) -> (r: bool)
    ensures
        r == only_named(j@, a@, b@),
{
    match j.as_object() {
        Some(o) => {
            let ghost d = o.deep_view();
            let mut i: usize = 0;
            while i < o.len()
                invariant
                    i <= o.len(),
                    d == o.deep_view(),
                    j@ == JsonView::Object(d),
                    forall|k: int| 0 <= k < i ==> (#[trigger] d[k]).0 == a@ || d[k].0 == b@,
                decreases o.len() - i,
            {
                assert(d[i as int].0 == o@[i as int].0@);
                if !same_text(o[i].0.as_str(), a) && !same_text(o[i].0.as_str(), b) {
                    proof {
                        let members = j@->Object_0;
                        assert(members[i as int].0 != a@ && members[i as int].0 != b@);
                    }
                    return false;
                }
                i += 1;
            }
            true
        },
        None => true,
    }
}

/// Reads a rule.
fn read_rule(j: &Json) -> (r: Option<InputRule>)
    ensures
        r.deep_view() == rule_of(j@),
{
    if !j.is_record(2) || !names_are(j, "globs", "filterset") {
        return None;
    }
    match (j.field("globs", 0), j.field("filterset", 1)) {
        (Some(globs), Some(filterset)) => match (globs.as_array(), filterset.as_str()) {
            (Some(a), Some(f)) => match crate::coverage::read_texts(a) {
                Some(globs) => Some(InputRule { globs, filterset: f.to_owned() }),
                None => None,
            },
            _ => None,
        },
        _ => None,
    }
}

/// Reads the rules of a table.
fn read_rules(j: &Json) -> (r: Option<Vec<InputRule>>)
    ensures
        r.deep_view() == rules_of(j@),
{
    if !j.is_record(1) || !names_are(j, "rule", "rule") {
        return None;
    }
    let a = match j.field("rule", 0) {
        Some(v) => match v.as_array() {
            Some(a) => a,
            None => {
                return None;
            },
        },
        None => {
            let none: Vec<InputRule> = Vec::new();
            assert(none.deep_view() =~= Seq::<InputRuleView>::empty());
            return Some(none);
        },
    };
    let ghost d = a.deep_view();
    let ghost g = |r: JsonView| rule_of(r);
    let mut out: Vec<InputRule> = Vec::new();
    let mut i: usize = 0;
    assert(out.deep_view() =~= Seq::<InputRuleView>::empty());
    assert(d.take(0) =~= Seq::<JsonView>::empty());
    while i < a.len()
        invariant
            i <= a.len(),
            d == a.deep_view(),
            g == (|r: JsonView| rule_of(r)),
            rules_of(j@) == crate::coverage::read_all(d, g),
            crate::coverage::read_all(d.take(i as int), g) == Some(out.deep_view()),
        decreases a.len() - i,
    {
        assert(d[i as int] == a@[i as int]@);
        match read_rule(&a[i]) {
            Some(rule) => {
                let ghost before = out.deep_view();
                let ghost rv = rule@;
                out.push(rule);
                assert(out.deep_view() =~= before.push(rv));
                assert(d.take(i + 1).drop_last() =~= d.take(i as int));
            },
            None => {
                proof {
                    crate::coverage::lemma_read_all_none(d, g, i as int);
                }
                return None;
            },
        }
        i += 1;
    }
    assert(d.take(i as int) =~= d);
    Some(out)
}

/// The table of a document with a `metadata` member.
fn find_table(j: &Json) -> (r: Option<&Json>)
    ensures
        match r {
            Some(t) => metadata_table(j@) == Some(t@),
            None => metadata_table(j@) is None,
        },
{
    match j.get("metadata") {
        Some(m) => m.get("affected"),
        None => None,
    }
}

/// The table of the package at the workspace root.
fn root_package_metadata_affected<'a>(metadata: &'a Json, workspace_root: &str) -> (r: Option<&'a Json>)
    ensures
        match r {
            Some(t) => root_package_table(crate::project::listed(metadata@, "packages"@), workspace_root@) == Some(t@),
            None => root_package_table(crate::project::listed(metadata@, "packages"@), workspace_root@) is None,
        },
{
    let packages = match metadata.get_array("packages") {
        Some(p) => p,
        None => {
            return None;
        },
    };
    let root_manifest = join_path(workspace_root, "Cargo.toml");
    let ghost d = packages.deep_view();
    let mut i: usize = 0;
    assert(d.skip(0) =~= d);
    while i < packages.len()
        invariant
            i <= packages.len(),
            d == packages.deep_view(),
            d == crate::project::listed(metadata@, "packages"@),
            root_manifest@ == crate::project::root_manifest_of(workspace_root@),
            root_package_table(d, workspace_root@) == root_package_table(d.skip(i as int), workspace_root@),
        decreases packages.len() - i,
    {
        let package = &packages[i];
        assert(d[i as int] == package@);
        assert(d.skip(i as int)[0] == d[i as int]);
        assert(d.skip(i as int).drop_first() =~= d.skip(i + 1));
        let root = match package.get_str("manifest_path") {
            Some(path) => same_path(path, root_manifest.as_str()),
            None => false,
        };
        if root {
            match find_table(package) {
                Some(t) => {
                    return Some(t);
                },
                None => {},
            }
        }
        i += 1;
    }
    assert(d.skip(i as int).len() == 0);
    None
}

impl AffectedConfig {
    /// Reads the rules from the metadata of the project: from the workspace's table or, where the
    /// project has no workspace section, from the table of the package at its root. A malformed
    /// table is an error, since a dropped rule would leave its inputs untested.
    pub fn from_metadata(metadata: &Json, workspace_root: &str) -> (r: Result<Self, ConfigError>)
        ensures
            match r {
                Ok(c) => project_rules(metadata@, workspace_root@) == Ok::<Seq<InputRuleView>, ConfigErrorView>(
                    c.rules.deep_view(),
                ),
                Err(e) => project_rules(metadata@, workspace_root@) == Err::<Seq<InputRuleView>, ConfigErrorView>(e@),
            },
    {
        let table = match find_table(metadata) {
            Some(t) => Some(t),
            None => root_package_metadata_affected(metadata, workspace_root),
        };
        match table {
            Some(t) => match read_rules(t) {
                Some(rules) => Ok(AffectedConfig { rules }),
                None => Err(ConfigError::BadTable),
            },
            None => {
                let rules: Vec<InputRule> = Vec::new();
                assert(rules.deep_view() =~= Seq::<InputRuleView>::empty());
                Ok(AffectedConfig { rules })
            },
        }
    }
}

/// `globset::GlobSetBuilder`: the globs of a set that is being built.
#[verifier::external_type_specification]
#[verifier::external_body]
pub struct ExGlobSetBuilder(globset::GlobSetBuilder);

/// `globset::GlobSet`: a set of compiled globs.
#[verifier::external_type_specification]
#[verifier::external_body]
pub struct ExGlobSet(globset::GlobSet);

/// The globs that a builder holds, in the order in which they were added.
pub uninterp spec fn builder_globs(b: globset::GlobSetBuilder) -> Seq<Seq<char>>;

/// The globs that a set was built from.
pub uninterp spec fn set_globs(s: globset::GlobSet) -> Seq<Seq<char>>;

/// The message about a text that is no glob; nothing for a glob.
pub uninterp spec fn glob_error(glob: Seq<char>) -> Option<Seq<char>>;

/// Whether globs can be compiled together, where addresses have this many bits: the compiler limits
/// the size of what it makes, and measures it in memory.
pub uninterp spec fn glob_set_compiles(globs: Seq<Seq<char>>, pointer_bits: u32) -> bool;

/// Whether a glob matches a path.
pub uninterp spec fn glob_matches(glob: Seq<char>, path: Seq<char>) -> bool;

/// Whether a text means the same on every platform: a backslash separates components on some and
/// escapes the next character on others.
pub open spec fn is_portable(text: Seq<char>) -> bool {
    !text.contains('\\')
}

/// Whether all globs mean the same on every platform.
pub open spec fn all_portable(globs: Seq<Seq<char>>) -> bool {
    forall|i: int| 0 <= i < globs.len() ==> is_portable(#[trigger] globs[i])
}

/// Whether some glob matches a path.
pub open spec fn some_glob_matches(globs: Seq<Seq<char>>, path: Seq<char>) -> bool {
    exists|i: int| 0 <= i < globs.len() && glob_matches(#[trigger] globs[i], path)
}

/// Whether some glob that means the same on every platform matches a path.
pub open spec fn surely_matches(globs: Seq<Seq<char>>, path: Seq<char>) -> bool {
    exists|i: int| 0 <= i < globs.len() && is_portable(#[trigger] globs[i]) && glob_matches(globs[i], path)
}

/// Whether some glob matches a path, or depends on the platform.
pub open spec fn may_match(globs: Seq<Seq<char>>, path: Seq<char>) -> bool {
    exists|i: int| 0 <= i < globs.len() && (!is_portable(#[trigger] globs[i]) || glob_matches(globs[i], path))
}

/// Whether `matched` can be the answer to whether globs match a path. Where neither the path nor a
/// glob holds a backslash there is one answer, [`some_glob_matches`].
pub open spec fn is_answer(globs: Seq<Seq<char>>, path: Seq<char>, matched: bool) -> bool {
    is_portable(path) ==> (surely_matches(globs, path) ==> matched) && (matched ==> may_match(globs, path))
}

/// Without a backslash there is one answer.
proof fn lemma_portable_answer(globs: Seq<Seq<char>>, path: Seq<char>, matched: bool)
    requires
        is_answer(globs, path, matched),
        all_portable(globs),
        is_portable(path),
    ensures
        matched == some_glob_matches(globs, path),
{
    if some_glob_matches(globs, path) {
        let i = choose|i: int| 0 <= i < globs.len() && glob_matches(#[trigger] globs[i], path);
        assert(is_portable(globs[i]));
    }
    if may_match(globs, path) {
        let i = choose|i: int|
            0 <= i < globs.len() && (!is_portable(#[trigger] globs[i]) || glob_matches(globs[i], path));
        assert(glob_matches(globs[i], path));
    }
}

/// `globset::GlobSetBuilder::new`: a builder without globs.
#[verifier::external_body]
fn new_builder() -> (r: globset::GlobSetBuilder)
    ensures
        builder_globs(r) == Seq::<Seq<char>>::empty(),
{
    globset::GlobSetBuilder::new()
}

/// `globset::Glob::new` and `globset::GlobSetBuilder::add`: a text that is a glob joins the
/// builder, any other gives an error and leaves the builder alone. Whether a text with a backslash
/// is a glob depends on the platform, so nothing is said of its message, nor whether it is one.
#[verifier::external_body]
fn add_glob(builder: &mut globset::GlobSetBuilder, glob: &str) -> (r: Result<(), String>)
    ensures
        match r {
            Ok(()) => builder_globs(*final(builder)) == builder_globs(*old(builder)).push(glob@),
            Err(_) => builder_globs(*final(builder)) == builder_globs(*old(builder)),
        },
        is_portable(glob@) ==> match r {
            Ok(()) => glob_error(glob@) is None,
            Err(e) => glob_error(glob@) == Some(e@),
        },
{
    match globset::Glob::new(glob) {
        Ok(g) => {
            builder.add(g);
            Ok(())
        },
        Err(e) => Err(e.to_string()),
    }
}

/// `globset::GlobSetBuilder::build`: the set of the builder's globs, or the compiler's message.
/// Whether there is a set depends on the globs and on the size of an address, and, where a glob
/// holds a backslash, on the platform; without globs there always is one. Of the message nothing is
/// said: it names one of several globs that fail, whichever is met first.
#[verifier::external_body]
fn build_set(builder: &globset::GlobSetBuilder) -> (r: Result<globset::GlobSet, String>)
    ensures
        match r {
            Ok(s) => set_globs(s) == builder_globs(*builder),
            Err(_) => true,
        },
        all_portable(builder_globs(*builder)) ==> (r is Ok <==> glob_set_compiles(
            builder_globs(*builder),
            usize::BITS,
        )),
        builder_globs(*builder).len() == 0 ==> r is Ok,
{
    match builder.build() {
        Ok(s) => Ok(s),
        Err(e) => Err(e.to_string()),
    }
}

/// `globset::GlobSet::is_match`: whether any glob of the set matches the path, each glob by itself.
/// Whether a glob with a backslash matches, and what matches a path with one, depends on the
/// platform and is left open; the other globs decide all the same.
#[verifier::external_body]
fn set_matches(set: &globset::GlobSet, path: &str) -> (r: bool)
    ensures
        is_portable(path@) && (exists|i: int|
            0 <= i < set_globs(*set).len() && is_portable(#[trigger] set_globs(*set)[i]) && glob_matches(
                set_globs(*set)[i],
                path@,
            )) ==> r,
        is_portable(path@) && r ==> exists|i: int|
            0 <= i < set_globs(*set).len() && (!is_portable(#[trigger] set_globs(*set)[i]) || glob_matches(
                set_globs(*set)[i],
                path@,
            )),
{
    set.is_match(path)
}

/// A rule whose globs are compiled.
pub struct CompiledRule {
    pub matcher: globset::GlobSet,
    pub filterset: String,
}

impl CompiledRule {
    /// The rule that was compiled.
    pub open spec fn rule(self) -> InputRuleView {
        InputRuleView { globs: set_globs(self.matcher), filterset: self.filterset@ }
    }

    /// Whether a path matches one of the globs.
    pub fn matches(&self, path: &str) -> (r: bool)
        ensures
            is_answer(self.rule().globs, path@, r),
            all_portable(self.rule().globs) && is_portable(path@) ==> r == some_glob_matches(self.rule().globs, path@),
    {
        let r = set_matches(&self.matcher, path);
        proof {
            assert(is_answer(self.rule().globs, path@, r));
            if all_portable(self.rule().globs) && is_portable(path@) {
                lemma_portable_answer(self.rule().globs, path@, r);
            }
        }
        r
    }
}

/// Whether the globs before the `n`th that mean the same on every platform can be parsed.
pub open spec fn parses_up_to(globs: Seq<Seq<char>>, n: int) -> bool {
    forall|j: int| 0 <= j < n && is_portable(#[trigger] globs[j]) ==> glob_error(globs[j]) is None
}

/// Whether the `i`th glob can be the first that cannot be parsed, with this message.
pub open spec fn fails_at(globs: Seq<Seq<char>>, i: int, glob: Seq<char>, e: Seq<char>) -> bool {
    &&& 0 <= i < globs.len()
    &&& globs[i] == glob
    &&& parses_up_to(globs, i)
    &&& is_portable(glob) ==> glob_error(glob) == Some(e)
}

/// Whether a glob can be the first that cannot be parsed, with this message.
pub open spec fn some_glob_fails(globs: Seq<Seq<char>>, glob: Seq<char>, e: Seq<char>) -> bool {
    exists|i: int| #[trigger] fails_at(globs, i, glob, e)
}

/// Whether compiling globs can end this way: with an error, or without one. The first glob that
/// cannot be parsed decides, and after it whether the globs compile together. Where no glob holds a
/// backslash there is one way, but for the text of [`ConfigError::BadMatcher`].
pub open spec fn compiles_to(globs: Seq<Seq<char>>, end: Option<ConfigErrorView>) -> bool {
    match end {
        None => {
            &&& parses_up_to(globs, globs.len() as int)
            &&& all_portable(globs) ==> glob_set_compiles(globs, usize::BITS)
        },
        Some(ConfigErrorView::BadGlob(glob, e)) => some_glob_fails(globs, glob, e),
        Some(ConfigErrorView::BadMatcher(_)) => {
            &&& parses_up_to(globs, globs.len() as int)
            &&& globs.len() > 0
            &&& all_portable(globs) ==> !glob_set_compiles(globs, usize::BITS)
        },
        Some(ConfigErrorView::BadTable) => false,
    }
}

/// Where no glob holds a backslash compiling ends in one way: both times well, both times with the
/// same glob and message, or both times because the globs do not compile together.
pub proof fn law_portable_globs_compile_one_way(
    globs: Seq<Seq<char>>,
    a: Option<ConfigErrorView>,
    b: Option<ConfigErrorView>,
)
    requires
        all_portable(globs),
        compiles_to(globs, a),
        compiles_to(globs, b),
    ensures
        match (a, b) {
            (None, None) => true,
            (Some(ConfigErrorView::BadGlob(g, m)), Some(ConfigErrorView::BadGlob(h, n))) => g == h && m == n,
            (Some(ConfigErrorView::BadMatcher(_)), Some(ConfigErrorView::BadMatcher(_))) => true,
            _ => false,
        },
{
    if let Some(ConfigErrorView::BadGlob(g, m)) = a {
        let i = choose|i: int| #[trigger] fails_at(globs, i, g, m);
        assert(fails_at(globs, i, g, m) && is_portable(globs[i]));
    }
    if let Some(ConfigErrorView::BadGlob(h, n)) = b {
        let j = choose|j: int| #[trigger] fails_at(globs, j, h, n);
        assert(fails_at(globs, j, h, n) && is_portable(globs[j]));
    }
}

impl InputRule {
    /// Compiles the globs of a rule. A malformed one is an error that names it.
    pub fn compile(&self) -> (r: Result<CompiledRule, ConfigError>)
        ensures
            match r {
                Ok(c) => c.rule() == self@ && compiles_to(self@.globs, None),
                Err(e) => compiles_to(self@.globs, Some(e@)),
            },
    {
        let ghost d = self.globs.deep_view();
        let mut builder = new_builder();
        let mut i: usize = 0;
        assert(d.take(0) =~= Seq::<Seq<char>>::empty());
        while i < self.globs.len()
            invariant
                i <= self.globs.len(),
                d == self.globs.deep_view(),
                d == self@.globs,
                builder_globs(builder) == d.take(i as int),
                parses_up_to(d, i as int),
            decreases self.globs.len() - i,
        {
            assert(d[i as int] == self.globs@[i as int]@);
            assert(d.take(i + 1) =~= d.take(i as int).push(d[i as int]));
            match add_glob(&mut builder, self.globs[i].as_str()) {
                Ok(()) => {},
                Err(e) => {
                    proof {
                        assert(fails_at(d, i as int, d[i as int], e@));
                        assert(some_glob_fails(d, d[i as int], e@));
                    }
                    return Err(ConfigError::BadGlob(self.globs[i].clone(), e));
                },
            }
            i += 1;
        }
        assert(d.take(i as int) =~= d);
        match build_set(&builder) {
            Ok(matcher) => Ok(CompiledRule { matcher, filterset: self.filterset.clone() }),
            Err(e) => Err(ConfigError::BadMatcher(e)),
        }
    }
}

/// Whether all globs of all rules mean the same on every platform.
pub open spec fn portable_rules(rules: Seq<InputRuleView>) -> bool {
    forall|i: int| 0 <= i < rules.len() ==> all_portable((#[trigger] rules[i]).globs)
}

/// Whether compiling rules can end this way: with the error of the first rule that has one, or
/// without one.
pub open spec fn rules_compile_to(rules: Seq<InputRuleView>, end: Option<ConfigErrorView>) -> bool {
    match end {
        None => rules_compile(rules, rules.len() as int),
        Some(e) => exists|i: int| #[trigger] rule_fails_at(rules, i, e),
    }
}

/// Whether the rules before the `n`th can compile.
pub open spec fn rules_compile(rules: Seq<InputRuleView>, n: int) -> bool {
    forall|j: int| 0 <= j < n ==> compiles_to((#[trigger] rules[j]).globs, None)
}

/// Whether the `i`th rule can be the first that does not compile, with this error.
pub open spec fn rule_fails_at(rules: Seq<InputRuleView>, i: int, e: ConfigErrorView) -> bool {
    &&& 0 <= i < rules.len()
    &&& rules_compile(rules, i)
    &&& compiles_to(rules[i].globs, Some(e))
}

/// The rules that were compiled.
pub open spec fn compiled_rules(rules: Seq<CompiledRule>) -> Seq<InputRuleView> {
    rules.map_values(|r: CompiledRule| r.rule())
}

impl AffectedConfig {
    /// Compiles the globs of every rule.
    pub fn compile(&self) -> (r: Result<Vec<CompiledRule>, ConfigError>)
        ensures
            match r {
                Ok(v) => compiled_rules(v@) == self.rules.deep_view() && rules_compile_to(self.rules.deep_view(), None),
                Err(e) => rules_compile_to(self.rules.deep_view(), Some(e@)),
            },
    {
        let ghost d = self.rules.deep_view();
        let mut out: Vec<CompiledRule> = Vec::new();
        let mut i: usize = 0;
        assert(d.take(0) =~= Seq::<InputRuleView>::empty());
        assert(compiled_rules(out@) =~= d.take(0));
        while i < self.rules.len()
            invariant
                i <= self.rules.len(),
                d == self.rules.deep_view(),
                compiled_rules(out@) == d.take(i as int),
                rules_compile(d, i as int),
            decreases self.rules.len() - i,
        {
            let ghost before = out@;
            assert(d[i as int] == self.rules@[i as int]@);
            assert(d.take(i + 1).drop_last() =~= d.take(i as int));
            match self.rules[i].compile() {
                Ok(c) => {
                    out.push(c);
                    assert(compiled_rules(out@) =~= compiled_rules(before).push(d[i as int]));
                    assert(d.take(i + 1) =~= d.take(i as int).push(d[i as int]));
                },
                Err(e) => {
                    assert(rule_fails_at(d, i as int, e@));
                    return Err(e);
                },
            }
            i += 1;
        }
        assert(d.take(i as int) =~= d);
        Ok(out)
    }
}

/// The changed paths that a rule matches.
pub open spec fn matched_paths(rule: InputRuleView, paths: Set<Seq<char>>) -> Set<Seq<char>> {
    paths.filter(|p: Seq<char>| some_glob_matches(rule.globs, p))
}

/// Whether all paths mean the same on every platform.
pub open spec fn portable_paths(paths: Set<Seq<char>>) -> bool {
    forall|p: Seq<char>| #[trigger] paths.contains(p) ==> is_portable(p)
}

/// Whether `matched` can be the changed paths that a rule matches: each path is answered by itself.
pub open spec fn can_match(rule: InputRuleView, paths: Set<Seq<char>>, matched: Set<Seq<char>>) -> bool {
    &&& matched.subset_of(paths)
    &&& forall|p: Seq<char>| #[trigger] paths.contains(p) ==> is_answer(rule.globs, p, matched.contains(p))
}

/// Without a backslash a rule matches one set of paths.
proof fn lemma_portable_match(rule: InputRuleView, paths: Set<Seq<char>>, matched: Set<Seq<char>>)
    requires
        can_match(rule, paths, matched),
        all_portable(rule.globs),
        portable_paths(paths),
    ensures
        matched == matched_paths(rule, paths),
{
    assert forall|p: Seq<char>| matched.contains(p) <==> matched_paths(rule, paths).contains(p) by {
        if paths.contains(p) {
            lemma_portable_answer(rule.globs, p, matched.contains(p));
        }
    }
    assert(matched =~= matched_paths(rule, paths));
}

/// The changed paths that a rule matches.
pub fn matching_paths(rule: &CompiledRule, changed_paths: &OrdSet<String>) -> (r: OrdSet<String>)
    ensures
        can_match(rule.rule(), changed_paths@, r@),
        all_portable(rule.rule().globs) && portable_paths(changed_paths@) ==> r@ == matched_paths(
            rule.rule(),
            changed_paths@,
        ),
{
    let items = changed_paths.items();
    let ghost e = changed_paths.elems();
    let mut out: OrdSet<String> = OrdSet::new();
    let mut i: usize = 0;
    while i < items.len()
        invariant
            i <= items.len(),
            e == items.deep_view(),
            changed_paths@ == e.to_set(),
            crate::ordered::increasing::<String>(e),
            can_match(rule.rule(), e.take(i as int).to_set(), out@),
        decreases items.len() - i,
    {
        let ghost before = out@;
        let ghost seen = e.take(i as int).to_set();
        let ghost path = e[i as int];
        proof {
            assert(path == items@[i as int]@);
            assert(e.take(i + 1) =~= e.take(i as int).push(path));
            e.take(i as int).lemma_push_to_set_commute(path);
            if seen.contains(path) {
                let k = choose|k: int| 0 <= k < i && e.take(i as int)[k] == path;
                String::before_irreflexive(path);
                assert(String::before(e[k], e[i as int]));
            }
        }
        let matched = rule.matches(items[i].as_str());
        if matched {
            out.insert(items[i].clone());
        }
        proof {
            assert(!before.contains(path));
            assert forall|p: Seq<char>| #[trigger] e.take(i + 1).to_set().contains(p) implies is_answer(
                rule.rule().globs,
                p,
                out@.contains(p),
            ) by {
                if p != path {
                    assert(seen.contains(p));
                    assert(out@.contains(p) == before.contains(p));
                }
            }
            assert(out@.subset_of(e.take(i + 1).to_set()));
        }
        i += 1;
    }
    proof {
        assert(e.take(i as int) =~= e);
        if all_portable(rule.rule().globs) && portable_paths(changed_paths@) {
            lemma_portable_match(rule.rule(), changed_paths@, out@);
        }
    }
    out
}

/// The tests that the filterset of a rule matches, given the listing under that filterset. The
/// listing reports every test and marks those that do not match.
pub open spec fn filterset_tests(listing: ListingView) -> Set<TestIdView> {
    listing.tests.difference(listing.unmatched)
}

/// The tests that rules name, with those of one rule added to each path that it matches.
pub open spec fn with_rule_hits(
    hits: Map<Seq<char>, Set<TestIdView>>,
    matched: Set<Seq<char>>,
    tests: Set<TestIdView>,
) -> Map<Seq<char>, Set<TestIdView>> {
    if tests.len() == 0 {
        hits
    } else {
        Map::new(
            |p: Seq<char>| hits.contains_key(p) || matched.contains(p),
            |p: Seq<char>|
                if matched.contains(p) {
                    if hits.contains_key(p) {
                        hits[p].union(tests)
                    } else {
                        tests
                    }
                } else {
                    hits[p]
                },
        )
    }
}

/// The warning about a rule whose filterset matches no tests.
pub open spec fn rule_warning(matched: Set<Seq<char>>, filterset: Seq<char>) -> Seq<char> {
    "warning: [*.metadata.affected] rule matched "@ + crate::text::joined(
        crate::ordered::in_order::<String>(matched),
        ", "@,
    ) + " but its filterset ("@ + quoted_text(filterset)
        + ") matched no tests — those input changes may go untested"@
}

/// Adds the tests of a rule to each path that it matches, given the listing under its filterset.
/// A filterset that matches no tests is worth a warning: a misspelt one would leave its inputs
/// untested.
pub fn add_rule_hits(
    hits: &mut OrdMap<String, OrdSet<TestId>>,
    matched: &OrdSet<String>,
    filterset: &str,
    listing: &Listing,
) -> (r: Option<String>)
    ensures
        final(hits)@ == with_rule_hits(old(hits)@, matched@, filterset_tests(listing@)),
        match r {
            Some(w) => filterset_tests(listing@).len() == 0 && w@ == rule_warning(matched@, filterset@),
            None => filterset_tests(listing@).len() > 0,
        },
{
    let mut tests = listing.tests.duplicate();
    let admitted = |t: &TestId| -> (b: bool)
        ensures
            b == !listing@.unmatched.contains(t@),
        { !listing.unmatched.contains(t) };
    tests.retain(admitted, Ghost(|t: TestIdView| !listing@.unmatched.contains(t)));
    assert(tests@ =~= filterset_tests(listing@));
    let ghost tv = tests@;
    if tests.len() == 0 {
        let list = join_texts(matched.items(), ", ");
        proof {
            crate::ordered::lemma_in_order::<String>(matched.elems());
        }
        return Some(
            String::from_str("warning: [*.metadata.affected] rule matched ").concat(list.as_str()).concat(
                " but its filterset (",
            ).concat(quote(filterset).as_str()).concat(
                ") matched no tests — those input changes may go untested",
            ),
        );
    }
    let items = matched.items();
    let ghost e = matched.elems();
    let ghost h0 = hits@;
    let mut i: usize = 0;
    assert(hits@ =~= with_rule_hits(h0, e.take(0).to_set(), tv));
    while i < items.len()
        invariant
            i <= items.len(),
            e == items.deep_view(),
            tests@ == tv,
            tv.len() > 0,
            crate::ordered::increasing::<String>(e),
            hits@ == with_rule_hits(h0, e.take(i as int).to_set(), tv),
        decreases items.len() - i,
    {
        let ghost before = hits@;
        proof {
            assert(e[i as int] == items@[i as int]@);
            assert(e.take(i + 1) =~= e.take(i as int).push(e[i as int]));
            e.take(i as int).lemma_push_to_set_commute(e[i as int]);
            if e.take(i as int).contains(e[i as int]) {
                let k = choose|k: int| 0 <= k < i && e.take(i as int)[k] == e[i as int];
                String::before_irreflexive(e[i as int]);
                assert(String::before(e[k], e[i as int]));
            }
        }
        let mut set: OrdSet<TestId> = match hits.remove(&items[i]) {
            Some(s) => s,
            None => OrdSet::new(),
        };
        set.extend(&tests);
        assert(set@ =~= if h0.contains_key(e[i as int]) {
            h0[e[i as int]].union(tv)
        } else {
            tv
        });
        hits.insert(items[i].clone(), set);
        assert(hits@ =~= with_rule_hits(h0, e.take(i + 1).to_set(), tv));
        i += 1;
    }
    assert(e.take(i as int) =~= e);
    None
}

/// A filterset to resolve, because changed paths match its rule.
#[derive(Debug, PartialEq, Eq)]
pub struct RuleRequest {
    pub filterset: String,
    pub matched: OrdSet<String>,
}

impl View for RuleRequest {
    type V = (Seq<char>, Set<Seq<char>>);

    open spec fn view(&self) -> (Seq<char>, Set<Seq<char>>) {
        (self.filterset@, self.matched@)
    }
}

impl DeepView for RuleRequest {
    type V = (Seq<char>, Set<Seq<char>>);

    open spec fn deep_view(&self) -> (Seq<char>, Set<Seq<char>>) {
        self@
    }
}

/// The filtersets to resolve: those of the rules that match a changed path. The others cost
/// nothing.
pub open spec fn requests_of(rules: Seq<InputRuleView>, paths: Set<Seq<char>>) -> Seq<(Seq<char>, Set<Seq<char>>)>
    decreases rules.len(),
{
    if rules.len() == 0 {
        Seq::empty()
    } else {
        let before = requests_of(rules.drop_last(), paths);
        let matched = matched_paths(rules.last(), paths);
        if matched == Set::<Seq<char>>::empty() {
            before
        } else {
            before.push((rules.last().filterset, matched))
        }
    }
}

/// The filtersets to resolve where each rule matches the paths given for it.
pub open spec fn requests_with(rules: Seq<InputRuleView>, matched: Seq<Set<Seq<char>>>) -> Seq<
    (Seq<char>, Set<Seq<char>>),
>
    decreases rules.len(),
{
    if rules.len() == 0 || matched.len() != rules.len() {
        Seq::empty()
    } else {
        let before = requests_with(rules.drop_last(), matched.drop_last());
        if matched.last() == Set::<Seq<char>>::empty() {
            before
        } else {
            before.push((rules.last().filterset, matched.last()))
        }
    }
}

/// Whether each rule can match the paths given for it.
pub open spec fn all_can_match(
    rules: Seq<InputRuleView>,
    paths: Set<Seq<char>>,
    matched: Seq<Set<Seq<char>>>,
) -> bool {
    &&& matched.len() == rules.len()
    &&& forall|i: int| 0 <= i < rules.len() ==> can_match(#[trigger] rules[i], paths, matched[i])
}

/// Whether these can be the filtersets to resolve: one for each rule that matches a changed path,
/// in the order of the rules. Where there is no backslash there is one list, [`requests_of`].
pub open spec fn can_request(
    rules: Seq<InputRuleView>,
    paths: Set<Seq<char>>,
    requests: Seq<(Seq<char>, Set<Seq<char>>)>,
) -> bool {
    exists|matched: Seq<Set<Seq<char>>>| #[trigger]
        all_can_match(rules, paths, matched) && requests == requests_with(rules, matched)
}

/// Without a backslash there is one list of filtersets.
proof fn lemma_portable_requests(rules: Seq<InputRuleView>, paths: Set<Seq<char>>, matched: Seq<Set<Seq<char>>>)
    requires
        all_can_match(rules, paths, matched),
        portable_rules(rules),
        portable_paths(paths),
    ensures
        requests_with(rules, matched) == requests_of(rules, paths),
    decreases rules.len(),
{
    if rules.len() > 0 {
        let rs = rules.drop_last();
        let ms = matched.drop_last();
        assert forall|i: int| 0 <= i < rs.len() implies can_match(#[trigger] rs[i], paths, ms[i]) by {
            assert(rs[i] == rules[i] && ms[i] == matched[i]);
        }
        assert forall|i: int| 0 <= i < rs.len() implies all_portable((#[trigger] rs[i]).globs) by {
            assert(rs[i] == rules[i]);
        }
        lemma_portable_requests(rs, paths, ms);
        let n = rules.len() - 1;
        assert(can_match(rules[n], paths, matched[n]));
        lemma_portable_match(rules.last(), paths, matched.last());
    }
}

/// A rule with a set of paths that is not empty has its request.
proof fn lemma_requested(rules: Seq<InputRuleView>, matched: Seq<Set<Seq<char>>>, i: int)
    requires
        matched.len() == rules.len(),
        0 <= i < rules.len(),
        matched[i] != Set::<Seq<char>>::empty(),
    ensures
        requests_with(rules, matched).contains((rules[i].filterset, matched[i])),
    decreases rules.len(),
{
    let all = requests_with(rules, matched);
    let before = requests_with(rules.drop_last(), matched.drop_last());
    let request = (rules[i].filterset, matched[i]);
    if i < rules.len() - 1 {
        lemma_requested(rules.drop_last(), matched.drop_last(), i);
        let k = choose|k: int| 0 <= k < before.len() && before[k] == request;
        assert(all[k] == request);
    } else {
        assert(all[before.len() as int] == request);
    }
}

/// Every request is that of a rule.
proof fn lemma_request_of_rule(rules: Seq<InputRuleView>, matched: Seq<Set<Seq<char>>>, k: int) -> (i: int)
    requires
        matched.len() == rules.len(),
        0 <= k < requests_with(rules, matched).len(),
    ensures
        0 <= i < rules.len(),
        requests_with(rules, matched)[k] == (rules[i].filterset, matched[i]),
        matched[i] != Set::<Seq<char>>::empty(),
    decreases rules.len(),
{
    let before = requests_with(rules.drop_last(), matched.drop_last());
    if k < before.len() {
        lemma_request_of_rule(rules.drop_last(), matched.drop_last(), k)
    } else {
        rules.len() - 1
    }
}

/// A backslash in one path or glob takes nothing from the others: a changed path without one is
/// handed to every rule that has a glob without one that matches it, and only to rules with a glob
/// that matches it or holds a backslash.
pub proof fn law_paths_are_matched_one_by_one(
    rules: Seq<InputRuleView>,
    paths: Set<Seq<char>>,
    requests: Seq<(Seq<char>, Set<Seq<char>>)>,
    path: Seq<char>,
)
    requires
        can_request(rules, paths, requests),
        paths.contains(path),
        is_portable(path),
    ensures
        forall|i: int|
            0 <= i < rules.len() && surely_matches((#[trigger] rules[i]).globs, path) ==> exists|k: int|
                0 <= k < requests.len() && (#[trigger] requests[k]).0 == rules[i].filterset && requests[k].1.contains(
                    path,
                ),
        forall|k: int|
            0 <= k < requests.len() && (#[trigger] requests[k]).1.contains(path) ==> exists|i: int|
                0 <= i < rules.len() && (#[trigger] rules[i]).filterset == requests[k].0 && may_match(
                    rules[i].globs,
                    path,
                ),
{
    let matched = choose|matched: Seq<Set<Seq<char>>>| #[trigger]
        all_can_match(rules, paths, matched) && requests == requests_with(rules, matched);
    assert forall|i: int| 0 <= i < rules.len() && surely_matches((#[trigger] rules[i]).globs, path) implies exists|k: int|
        0 <= k < requests.len() && (#[trigger] requests[k]).0 == rules[i].filterset && requests[k].1.contains(path) by {
        assert(can_match(rules[i], paths, matched[i]));
        assert(matched[i].contains(path));
        lemma_requested(rules, matched, i);
        let k = choose|k: int| 0 <= k < requests.len() && requests[k] == (rules[i].filterset, matched[i]);
        assert(requests[k].1.contains(path));
    }
    assert forall|k: int| 0 <= k < requests.len() && (#[trigger] requests[k]).1.contains(path) implies exists|i: int|
        0 <= i < rules.len() && (#[trigger] rules[i]).filterset == requests[k].0 && may_match(rules[i].globs, path) by {
        let i = lemma_request_of_rule(rules, matched, k);
        assert(can_match(rules[i], paths, matched[i]));
        assert(may_match(rules[i].globs, path));
    }
}

/// The filtersets of compiled rules to resolve for changed paths.
pub fn rule_requests(rules: &Vec<CompiledRule>, changed_paths: &OrdSet<String>) -> (r: Vec<RuleRequest>)
    ensures
        can_request(compiled_rules(rules@), changed_paths@, r.deep_view()),
        portable_rules(compiled_rules(rules@)) && portable_paths(changed_paths@) ==> r.deep_view() == requests_of(
            compiled_rules(rules@),
            changed_paths@,
        ),
{
    let ghost d = compiled_rules(rules@);
    let ghost mut sets: Seq<Set<Seq<char>>> = Seq::empty();
    let mut out: Vec<RuleRequest> = Vec::new();
    let mut i: usize = 0;
    assert(out.deep_view() =~= Seq::<(Seq<char>, Set<Seq<char>>)>::empty());
    while i < rules.len()
        invariant
            i <= rules.len(),
            d == compiled_rules(rules@),
            all_can_match(d.take(i as int), changed_paths@, sets),
            out.deep_view() == requests_with(d.take(i as int), sets),
        decreases rules.len() - i,
    {
        let ghost before = out.deep_view();
        let ghost old_sets = sets;
        assert(d[i as int] == rules@[i as int].rule());
        assert(d.take(i + 1).drop_last() =~= d.take(i as int));
        let matched = matching_paths(&rules[i], changed_paths);
        proof {
            sets = sets.push(matched@);
            assert(sets.drop_last() =~= old_sets);
            assert forall|k: int| 0 <= k < d.take(i + 1).len() implies can_match(
                #[trigger] d.take(i + 1)[k],
                changed_paths@,
                sets[k],
            ) by {
                if k < i {
                    assert(d.take(i as int)[k] == d.take(i + 1)[k]);
                    assert(sets[k] == old_sets[k]);
                }
            }
        }
        if !matched.is_empty() {
            let request = RuleRequest { filterset: rules[i].filterset.clone(), matched };
            let ghost rv = request@;
            out.push(request);
            assert(out.deep_view() =~= before.push(rv));
        }
        i += 1;
    }
    proof {
        assert(d.take(i as int) =~= d);
        if portable_rules(d) && portable_paths(changed_paths@) {
            lemma_portable_requests(d, changed_paths@, sets);
        }
    }
    out
}

/// The filtersets to resolve for the rules of a project and its changed paths. Without rules there
/// are none, and no listing is needed.
pub fn config_rule_hits(metadata: &Json, workspace_root: &str, changed_paths: &OrdSet<String>) -> (r: Result<
    Vec<RuleRequest>,
    ConfigError,
>)
    ensures
        match project_rules(metadata@, workspace_root@) {
            Err(e) => r is Err && r->Err_0@ == e,
            Ok(rules) => {
                &&& rules.len() == 0 ==> r is Ok && r->Ok_0.len() == 0
                &&& match r {
                    Err(e) => rules_compile_to(rules, Some(e@)),
                    Ok(v) => rules_compile_to(rules, None) && can_request(rules, changed_paths@, v.deep_view()),
                }
                &&& match r {
                    Ok(v) => portable_rules(rules) && portable_paths(changed_paths@) ==> v.deep_view()
                        == requests_of(rules, changed_paths@),
                    Err(_) => true,
                }
            },
        },
{
    match AffectedConfig::from_metadata(metadata, workspace_root) {
        Err(e) => Err(e),
        Ok(config) => match config.compile() {
            Err(e) => {
                Err(e)
            },
            Ok(rules) => {
                let requests = rule_requests(&rules, changed_paths);
                proof {
                    let d = compiled_rules(rules@);
                    let matched = choose|matched: Seq<Set<Seq<char>>>| #[trigger]
                        all_can_match(d, changed_paths@, matched) && requests.deep_view() == requests_with(d, matched);
                    assert(requests.deep_view() == requests_with(d, matched));
                    assert(requests.deep_view().len() == requests.len());
                }
                Ok(requests)
            },
        },
    }
}

/// The tests that rules name, given the requests and the listing under each filterset.
pub open spec fn all_rule_hits(requests: Seq<(Seq<char>, Set<Seq<char>>)>, listings: Seq<ListingView>) -> Map<
    Seq<char>,
    Set<TestIdView>,
>
    decreases requests.len(),
{
    if requests.len() == 0 || listings.len() != requests.len() {
        Map::empty()
    } else {
        with_rule_hits(
            all_rule_hits(requests.drop_last(), listings.drop_last()),
            requests.last().1,
            filterset_tests(listings.last()),
        )
    }
}

/// The warnings about filtersets that match no tests.
pub open spec fn all_rule_warnings(requests: Seq<(Seq<char>, Set<Seq<char>>)>, listings: Seq<ListingView>) -> Seq<
    Seq<char>,
>
    decreases requests.len(),
{
    if requests.len() == 0 || listings.len() != requests.len() {
        Seq::empty()
    } else {
        let before = all_rule_warnings(requests.drop_last(), listings.drop_last());
        if filterset_tests(listings.last()).len() == 0 {
            before.push(rule_warning(requests.last().1, requests.last().0))
        } else {
            before
        }
    }
}

/// The value of listings.
pub open spec fn listings_view(listings: Seq<Listing>) -> Seq<ListingView> {
    listings.map_values(|l: Listing| l@)
}

/// The tests that rules name, by changed path, and the warnings about filtersets that match none.
pub fn resolve_config_hits(requests: &Vec<RuleRequest>, listings: &Vec<Listing>) -> (r: (
    OrdMap<String, OrdSet<TestId>>,
    Vec<String>,
))
    requires
        requests.len() == listings.len(),
    ensures
        r.0@ == all_rule_hits(requests.deep_view(), listings_view(listings@)),
        r.1.deep_view() == all_rule_warnings(requests.deep_view(), listings_view(listings@)),
{
    let ghost d = requests.deep_view();
    let ghost l = listings_view(listings@);
    let mut hits: OrdMap<String, OrdSet<TestId>> = OrdMap::new();
    let mut warnings: Vec<String> = Vec::new();
    let mut i: usize = 0;
    assert(warnings.deep_view() =~= Seq::<Seq<char>>::empty());
    while i < requests.len()
        invariant
            i <= requests.len(),
            requests.len() == listings.len(),
            d == requests.deep_view(),
            l == listings_view(listings@),
            hits@ == all_rule_hits(d.take(i as int), l.take(i as int)),
            warnings.deep_view() == all_rule_warnings(d.take(i as int), l.take(i as int)),
        decreases requests.len() - i,
    {
        let ghost before = warnings.deep_view();
        proof {
            assert(d[i as int] == requests@[i as int]@);
            assert(l[i as int] == listings@[i as int]@);
            assert(d.take(i + 1).drop_last() =~= d.take(i as int));
            assert(l.take(i + 1).drop_last() =~= l.take(i as int));
        }
        let warning = add_rule_hits(
            &mut hits,
            &requests[i].matched,
            requests[i].filterset.as_str(),
            &listings[i],
        );
        match warning {
            Some(w) => {
                let ghost wv = w@;
                warnings.push(w);
                assert(warnings.deep_view() =~= before.push(wv));
            },
            None => {},
        }
        i += 1;
    }
    assert(d.take(i as int) =~= d);
    assert(l.take(i as int) =~= l);
    (hits, warnings)
}

/// A rule names only tests that its filterset matches, each for every path that the rule matches,
/// and what other rules named stays.
pub proof fn law_rule_names_its_tests(
    hits: Map<Seq<char>, Set<TestIdView>>,
    matched: Set<Seq<char>>,
    tests: Set<TestIdView>,
    path: Seq<char>,
    t: TestIdView,
)
    requires
        tests.finite(),
    ensures
        with_rule_hits(hits, matched, tests).contains_key(path) && with_rule_hits(hits, matched, tests)[path].contains(t)
            <==> (hits.contains_key(path) && hits[path].contains(t)) || (matched.contains(path) && tests.contains(t)),
        hits.contains_key(path) ==> with_rule_hits(hits, matched, tests).contains_key(path),
{
    if tests.len() == 0 {
        assert(tests =~= Set::empty());
    }
}

/// Where no changed path matches a glob of a rule, nextest is asked nothing and no test is named:
/// the rules change nothing.
pub proof fn law_unmatched_paths_change_nothing(rules: Seq<InputRuleView>, paths: Set<Seq<char>>)
    requires
        forall|i: int, path: Seq<char>|
            0 <= i < rules.len() && paths.contains(path) ==> !#[trigger] some_glob_matches(rules[i].globs, path),
    ensures
        requests_of(rules, paths) == Seq::<(Seq<char>, Set<Seq<char>>)>::empty(),
        all_rule_hits(requests_of(rules, paths), Seq::empty()) == Map::<Seq<char>, Set<TestIdView>>::empty(),
        all_rule_warnings(requests_of(rules, paths), Seq::empty()) == Seq::<Seq<char>>::empty(),
    decreases rules.len(),
{
    if rules.len() > 0 {
        let before = rules.drop_last();
        assert forall|i: int, path: Seq<char>| 0 <= i < before.len() && paths.contains(path) implies !(
        #[trigger] some_glob_matches(before[i].globs, path)) by {
            assert(before[i] == rules[i]);
        }
        law_unmatched_paths_change_nothing(before, paths);
        assert(matched_paths(rules.last(), paths) =~= Set::empty());
    }
}

/// The tests that are named for a path are those that the filterset of some rule with a matching
/// glob resolves to, and a rule that resolves to none is warned about.
pub proof fn law_matching_rules_are_resolved(
    requests: Seq<(Seq<char>, Set<Seq<char>>)>,
    listings: Seq<ListingView>,
    path: Seq<char>,
    t: TestIdView,
)
    requires
        requests.len() == listings.len(),
        forall|i: int| 0 <= i < listings.len() ==> filterset_tests(#[trigger] listings[i]).finite(),
    ensures
        ({
            let hits = all_rule_hits(requests, listings);
            hits.contains_key(path) && hits[path].contains(t) <==> exists|i: int|
                0 <= i < requests.len() && (#[trigger] requests[i]).1.contains(path) && filterset_tests(
                    listings[i],
                ).contains(t)
        }),
        forall|i: int|
            0 <= i < requests.len() && filterset_tests(#[trigger] listings[i]).len() == 0 ==> all_rule_warnings(
                requests,
                listings,
            ).contains(rule_warning(requests[i].1, requests[i].0)),
    decreases requests.len(),
{
    if requests.len() > 0 {
        let rs = requests.drop_last();
        let ls = listings.drop_last();
        let n = requests.len() - 1;
        assert forall|i: int| 0 <= i < ls.len() implies filterset_tests(#[trigger] ls[i]).finite() by {
            assert(ls[i] == listings[i]);
        }
        law_matching_rules_are_resolved(rs, ls, path, t);
        assert(listings[n] == listings.last());
        law_rule_names_its_tests(
            all_rule_hits(rs, ls),
            requests.last().1,
            filterset_tests(listings.last()),
            path,
            t,
        );
        let hits = all_rule_hits(requests, listings);
        if hits.contains_key(path) && hits[path].contains(t) {
            if requests.last().1.contains(path) && filterset_tests(listings.last()).contains(t) {
                assert(requests[n].1.contains(path));
            } else {
                let i = choose|i: int|
                    0 <= i < rs.len() && (#[trigger] rs[i]).1.contains(path) && filterset_tests(ls[i]).contains(t);
                assert(requests[i].1.contains(path) && ls[i] == listings[i]);
            }
        }
        if exists|i: int|
            0 <= i < requests.len() && (#[trigger] requests[i]).1.contains(path) && filterset_tests(
                listings[i],
            ).contains(t) {
            let i = choose|i: int|
                0 <= i < requests.len() && (#[trigger] requests[i]).1.contains(path) && filterset_tests(
                    listings[i],
                ).contains(t);
            if i < n {
                assert(rs[i].1.contains(path) && ls[i] == listings[i]);
            }
        }
        let before = all_rule_warnings(rs, ls);
        let after = all_rule_warnings(requests, listings);
        assert forall|i: int| 0 <= i < requests.len() && filterset_tests(#[trigger] listings[i]).len()
            == 0 implies after.contains(rule_warning(requests[i].1, requests[i].0)) by {
            let w = rule_warning(requests[i].1, requests[i].0);
            if i < n {
                assert(ls[i] == listings[i] && rs[i] == requests[i]);
                assert(before.contains(w));
                let k = choose|k: int| 0 <= k < before.len() && before[k] == w;
                assert(after[k] == w);
            } else {
                assert(after == before.push(w));
                assert(after[before.len() as int] == w);
            }
        }
    }
}

} // verus!
