//! LLVM coverage data turned into the source-line ranges that a single test touched.

use vstd::prelude::*;
use crate::json::{Json, JsonView};
use crate::ordered::Key;
use crate::text::{
    chars_of, parse_u64, same_text, split_text, starts_with, text_is_before, trim_text, why_no_u64,
};

verus! {

/// `line_end` of a row that stands for a whole crate root: such a row overlaps every hunk in its
/// file that ends at line 1 or later.
pub const CRATE_ROOT_SENTINEL_END: i64 = 9223372036854775807;

/// One hit function range for some test, in source coordinates.
///
/// `line_start..=line_end` is the inclusive line span covered by the function's regions in
/// `file`. Sources are relative to the project root so they line up with `git diff` output.
#[derive(Debug, Clone, PartialEq, Eq, PartialOrd, Ord, Hash)]
pub struct HitRange {
    pub file: String,
    pub line_start: i64,
    pub line_end: i64,
}

/// The value of a [`HitRange`].
#[verifier::ext_equal]
pub struct HitRangeView {
    pub file: Seq<char>,
    pub line_start: i64,
    pub line_end: i64,
}

impl View for HitRange {
    type V = HitRangeView;

    open spec fn view(&self) -> HitRangeView {
        HitRangeView { file: self.file@, line_start: self.line_start, line_end: self.line_end }
    }
}

impl DeepView for HitRange {
    type V = HitRangeView;

    open spec fn deep_view(&self) -> HitRangeView {
        self@
    }
}

/// The parts of a range in the order in which they are compared.
pub open spec fn hit_range_key(r: HitRangeView) -> (Seq<char>, (i64, i64)) {
    (r.file, (r.line_start, r.line_end))
}

impl Key for HitRange {
    open spec fn before(a: HitRangeView, b: HitRangeView) -> bool {
        <(String, (i64, i64)) as Key>::before(hit_range_key(a), hit_range_key(b))
    }

    proof fn before_irreflexive(a: HitRangeView) {
        <(String, (i64, i64)) as Key>::before_irreflexive(hit_range_key(a));
    }

    proof fn before_transitive(a: HitRangeView, b: HitRangeView, c: HitRangeView) {
        <(String, (i64, i64)) as Key>::before_transitive(hit_range_key(a), hit_range_key(b), hit_range_key(c));
    }

    proof fn before_total(a: HitRangeView, b: HitRangeView) {
        <(String, (i64, i64)) as Key>::before_total(hit_range_key(a), hit_range_key(b));
        if hit_range_key(a) == hit_range_key(b) {
            assert(a =~= b);
        }
    }

    fn is_before(&self, other: &Self) -> (r: bool) {
        proof {
            <String as Key>::before_irreflexive(self.file@);
        }
        if !same_text(self.file.as_str(), other.file.as_str()) {
            return text_is_before(self.file.as_str(), other.file.as_str());
        }
        if self.line_start != other.line_start {
            return self.line_start < other.line_start;
        }
        self.line_end < other.line_end
    }

    fn duplicate(&self) -> (r: Self) {
        HitRange { file: self.file.clone(), line_start: self.line_start, line_end: self.line_end }
    }
}

impl HitRange {
    /// The sentinel range for `file`: line 1 through [`CRATE_ROOT_SENTINEL_END`]. Stored
    /// alongside real function ranges to model an implicit "any hunk in this file selects this
    /// test" link that function-level coverage cannot observe.
    pub fn sentinel(file: String) -> (r: Self)
        ensures
            r@ == sentinel_range(file@),
    {
        HitRange { file, line_start: 1, line_end: CRATE_ROOT_SENTINEL_END }
    }
}

/// The range that stands for the whole of a crate root.
pub open spec fn sentinel_range(file: Seq<char>) -> HitRangeView {
    HitRangeView { file, line_start: 1, line_end: CRATE_ROOT_SENTINEL_END }
}

/// A numeric field of a profile record.
#[derive(Debug, Clone, Copy, PartialEq, Eq, Structural)]
pub enum ProfileField {
    Hash,
    CounterCount,
    CounterValue,
}

/// How a field is called in messages.
pub open spec fn field_name(field: ProfileField) -> Seq<char> {
    match field {
        ProfileField::Hash => "hash"@,
        ProfileField::CounterCount => "counter count"@,
        ProfileField::CounterValue => "counter value"@,
    }
}

/// How a field is called in messages.
fn field_text(field: ProfileField) -> (r: &'static str)
    ensures
        r@ == field_name(field),
{
    match field {
        ProfileField::Hash => "hash",
        ProfileField::CounterCount => "counter count",
        ProfileField::CounterValue => "counter value",
    }
}

/// Why a profile could not be read.
#[derive(Debug, PartialEq, Eq)]
pub enum ProfileError {
    /// A record ended before one of its fields.
    Ended { name: String, field: ProfileField },
    /// A field of a record is not a number; the parser's message.
    NonNumeric { name: String, field: ProfileField, cause: String },
    /// The profile carries an MC/DC bitmap section, opened by this token.
    BitmapSection { token: String },
    /// No function of the profile was executed.
    NothingExecuted,
}

/// The value of a [`ProfileError`].
#[verifier::ext_equal]
pub enum ProfileErrorView {
    Ended { name: Seq<char>, field: ProfileField },
    NonNumeric { name: Seq<char>, field: ProfileField, cause: Seq<char> },
    BitmapSection { token: Seq<char> },
    NothingExecuted,
}

impl View for ProfileError {
    type V = ProfileErrorView;

    open spec fn view(&self) -> ProfileErrorView {
        match self {
            ProfileError::Ended { name, field } => ProfileErrorView::Ended { name: name@, field: *field },
            ProfileError::NonNumeric { name, field, cause } => {
                ProfileErrorView::NonNumeric { name: name@, field: *field, cause: cause@ }
            },
            ProfileError::BitmapSection { token } => ProfileErrorView::BitmapSection { token: token@ },
            ProfileError::NothingExecuted => ProfileErrorView::NothingExecuted,
        }
    }
}

/// The message of a [`ProfileError`].
pub open spec fn profile_message(e: ProfileErrorView) -> Seq<char> {
    match e {
        ProfileErrorView::Ended { name, field } => "profile record "@ + name + " ended before its "@ + field_name(field),
        ProfileErrorView::NonNumeric { name, field, cause } => "profile record "@ + name + " has a non-numeric "@
            + field_name(field) + ": "@ + cause,
        ProfileErrorView::BitmapSection { token } => "profile carries an MC/DC bitmap section (`"@ + token
            + "`), which this parser doesn't model; coverage instrumentation alone doesn't emit one"@,
        ProfileErrorView::NothingExecuted => "profile lists no executed functions"@,
    }
}

impl ProfileError {
    /// The message for the user.
    pub fn message(&self) -> (r: String)
        ensures
            r@ == profile_message(self@),
    {
        match self {
            ProfileError::Ended { name, field } => {
                String::from_str("profile record ").concat(name.as_str()).concat(" ended before its ").concat(
                    field_text(*field),
                )
            },
            ProfileError::NonNumeric { name, field, cause } => {
                String::from_str("profile record ").concat(name.as_str()).concat(" has a non-numeric ").concat(
                    field_text(*field),
                ).concat(": ").concat(cause.as_str())
            },
            ProfileError::BitmapSection { token } => {
                String::from_str("profile carries an MC/DC bitmap section (`").concat(token.as_str()).concat(
                    "`), which this parser doesn't model; coverage instrumentation alone doesn't emit one",
                )
            },
            ProfileError::NothingExecuted => String::from_str("profile lists no executed functions"),
        }
    }
}

/// A line of a text profile carries data: it is neither blank nor a `#` label.
pub open spec fn is_token(line: Seq<char>) -> bool {
    line.len() > 0 && line[0] != '#'
}

/// The data lines of a text profile, without surrounding white space.
pub open spec fn profile_tokens(text: Seq<char>) -> Seq<Seq<char>> {
    crate::text::pieces(text, '\n').map_values(|line: Seq<char>| crate::text::trimmed(line)).filter(
        |line: Seq<char>| is_token(line),
    )
}

/// The tokens behind the leading `:`-prefixed file flags.
pub open spec fn without_flags(tokens: Seq<Seq<char>>) -> Seq<Seq<char>>
    decreases tokens.len(),
{
    if tokens.len() > 0 && ":"@.is_prefix_of(tokens[0]) {
        without_flags(tokens.drop_first())
    } else {
        tokens
    }
}

/// The number at `tokens[i]`, as the named field of the record `name`.
pub open spec fn number_at(
    tokens: Seq<Seq<char>>,
    i: int,
    name: Seq<char>,
    field: ProfileField,
) -> Result<nat, ProfileErrorView> {
    if i >= tokens.len() {
        Err(ProfileErrorView::Ended { name, field })
    } else {
        match crate::text::unsigned_value(tokens[i]) {
            Some(n) => if n <= u64::MAX {
                Ok(n)
            } else {
                Err(ProfileErrorView::NonNumeric { name, field, cause: crate::text::u64_error(tokens[i]) })
            },
            None => Err(ProfileErrorView::NonNumeric { name, field, cause: crate::text::u64_error(tokens[i]) }),
        }
    }
}

/// Whether any of the `n` counter values from `tokens[i]` on is not zero.
pub open spec fn any_counter(tokens: Seq<Seq<char>>, i: int, n: nat, name: Seq<char>) -> Result<bool, ProfileErrorView>
    decreases n,
{
    if n == 0 {
        Ok(false)
    } else {
        match number_at(tokens, i, name, ProfileField::CounterValue) {
            Ok(v) => match any_counter(tokens, i + 1, (n - 1) as nat, name) {
                Ok(rest) => Ok(v > 0 || rest),
                Err(e) => Err(e),
            },
            Err(e) => Err(e),
        }
    }
}

/// The names of the executed functions among the records from `tokens[i]` on, behind `found`.
pub open spec fn executed_from(
    tokens: Seq<Seq<char>>,
    i: int,
    found: Seq<Seq<char>>,
) -> Result<Seq<Seq<char>>, ProfileErrorView>
    decreases (if i < tokens.len() { tokens.len() - i } else { 0 }),
{
    if i < 0 || i >= tokens.len() {
        Ok(found)
    } else {
        let name = tokens[i];
        if "$"@.is_prefix_of(name) {
            Err(ProfileErrorView::BitmapSection { token: name })
        } else {
            match (
                number_at(tokens, i + 1, name, ProfileField::Hash),
                number_at(tokens, i + 2, name, ProfileField::CounterCount),
            ) {
                (Err(e), _) => Err(e),
                (Ok(_), Err(e)) => Err(e),
                (Ok(_), Ok(n)) => match any_counter(tokens, i + 3, n, name) {
                    Ok(hit) => executed_from(
                        tokens,
                        i + 3 + n,
                        if hit {
                            found.push(name)
                        } else {
                            found
                        },
                    ),
                    Err(e) => Err(e),
                },
            }
        }
    }
}

/// The functions that a text profile lists as executed, or why it is refused.
pub open spec fn executed_in(text: Seq<char>) -> Result<Seq<Seq<char>>, ProfileErrorView> {
    match executed_from(without_flags(profile_tokens(text)), 0, Seq::empty()) {
        Ok(found) => if found.len() == 0 {
            Err(ProfileErrorView::NothingExecuted)
        } else {
            Ok(found)
        },
        Err(e) => Err(e),
    }
}

/// The data lines of a text profile.
fn read_tokens(text: &str) -> (r: Vec<String>)
    ensures
        r.deep_view() == profile_tokens(text@),
{
    let lines = split_text(text, '\n');
    let ghost l = lines.deep_view();
    let ghost f = |line: Seq<char>| crate::text::trimmed(line);
    let ghost p = |line: Seq<char>| is_token(line);
    let ghost m = l.map_values(f);
    let mut out: Vec<String> = Vec::new();
    let mut i: usize = 0;
    assert(out.deep_view() =~= m.take(0).filter(p)) by {
        reveal(Seq::filter);
    }
    while i < lines.len()
        invariant
            i <= lines.len(),
            l == lines.deep_view(),
            f == (|line: Seq<char>| crate::text::trimmed(line)),
            p == (|line: Seq<char>| is_token(line)),
            m == l.map_values(f),
            out.deep_view() == m.take(i as int).filter(p),
        decreases lines.len() - i,
    {
        let token = trim_text(lines[i].as_str());
        let ghost before = out.deep_view();
        proof {
            assert(l[i as int] == lines@[i as int]@);
            assert(m[i as int] == token@);
            assert(m.take(i + 1) =~= m.take(i as int).push(token@));
            m.take(i as int).lemma_filter_push(token@, p);
        }
        let v = chars_of(token.as_str());
        if v.len() > 0 && v[0] != '#' {
            let ghost tv = token@;
            out.push(token);
            assert(out.deep_view() =~= before.push(tv));
        }
        i += 1;
    }
    assert(m.take(i as int) =~= m);
    out
}

/// The number at `tokens[i]`.
fn read_number(tokens: &Vec<String>, i: usize, name: &String, field: ProfileField) -> (r: Result<u64, ProfileError>)
    ensures
        match r {
            Ok(n) => number_at(tokens.deep_view(), i as int, name@, field) == Ok::<nat, ProfileErrorView>(n as nat),
            Err(e) => number_at(tokens.deep_view(), i as int, name@, field) == Err::<nat, ProfileErrorView>(e@),
        },
{
    if i >= tokens.len() {
        return Err(ProfileError::Ended { name: name.clone(), field });
    }
    assert(tokens.deep_view()[i as int] == tokens@[i as int]@);
    match parse_u64(tokens[i].as_str()) {
        Some(n) => Ok(n),
        None => Err(ProfileError::NonNumeric { name: name.clone(), field, cause: why_no_u64(tokens[i].as_str()) }),
    }
}

/// Names of the functions a test executed, read from the text form of its merged profile
/// (`llvm-profdata merge --text`).
///
/// The grammar covers exactly the record shape `-C instrument-coverage` produces: a flat token
/// stream of function name, hash, counter count, then that many counter values, with
/// `#`-prefixed labels, blank separators and leading `:`-prefixed file flags carrying no data. A
/// function counts as executed when any of its counters is non-zero.
///
/// Parsing is strict throughout: a record whose fields do not come out as numbers is an error
/// rather than a skipped function, since a silently short parse would hand the test fewer ranges
/// than it earned.
pub fn executed_functions(proftext: &str) -> (r: Result<Vec<String>, ProfileError>)
    ensures
        match r {
            Ok(v) => executed_in(proftext@) == Ok::<Seq<Seq<char>>, ProfileErrorView>(v.deep_view()),
            Err(e) => executed_in(proftext@) == Err::<Seq<Seq<char>>, ProfileErrorView>(e@),
        },
{
    let all = read_tokens(proftext);
    let ghost t = all.deep_view();
    let mut first: usize = 0;
    assert(t.skip(0) =~= t);
    while first < all.len() && starts_with(all[first].as_str(), ":")
        invariant
            first <= all.len(),
            t == all.deep_view(),
            without_flags(t.skip(first as int)) == without_flags(t),
        decreases all.len() - first,
    {
        assert(t.skip(first as int)[0] == all@[first as int]@);
        assert(t.skip(first as int).drop_first() =~= t.skip(first + 1));
        first += 1;
    }
    let mut tokens: Vec<String> = Vec::new();
    let mut c: usize = first;
    while c < all.len()
        invariant
            first <= c <= all.len(),
            t == all.deep_view(),
            tokens.deep_view() == t.subrange(first as int, c as int),
        decreases all.len() - c,
    {
        let ghost before = tokens.deep_view();
        tokens.push(all[c].clone());
        assert(tokens.deep_view() =~= before.push(all@[c as int]@));
        assert(t.subrange(first as int, c + 1) =~= t.subrange(first as int, c as int).push(t[c as int]));
        c += 1;
    }
    let ghost k = tokens.deep_view();
    proof {
        assert(k =~= t.skip(first as int));
        if first < all.len() {
            assert(k[0] == all@[first as int]@);
        }
        assert(without_flags(k) == k);
    }
    let mut executed: Vec<String> = Vec::new();
    let mut i: usize = 0;
    assert(executed.deep_view() =~= Seq::<Seq<char>>::empty());
    while i < tokens.len()
        invariant
            i <= tokens.len(),
            k == tokens.deep_view(),
            k == without_flags(profile_tokens(proftext@)),
            executed_from(k, 0, Seq::empty()) == executed_from(k, i as int, executed.deep_view()),
        decreases tokens.len() - i,
    {
        let name = &tokens[i];
        assert(k[i as int] == name@);
        if starts_with(name.as_str(), "$") {
            return Err(ProfileError::BitmapSection { token: name.clone() });
        }
        if i + 1 >= tokens.len() {
            return Err(ProfileError::Ended { name: name.clone(), field: ProfileField::Hash });
        }
        match read_number(&tokens, i + 1, name, ProfileField::Hash) {
            Ok(_) => {},
            Err(e) => {
                return Err(e);
            },
        }
        if i + 2 >= tokens.len() {
            return Err(ProfileError::Ended { name: name.clone(), field: ProfileField::CounterCount });
        }
        let counters: u64 = match read_number(&tokens, i + 2, name, ProfileField::CounterCount) {
            Ok(n) => n,
            Err(e) => {
                return Err(e);
            },
        };
        let mut hit: bool = false;
        let mut done: u64 = 0;
        let mut at: usize = i + 3;
        let ghost whole = any_counter(k, i + 3, counters as nat, name@);
        while done < counters
            invariant
                done <= counters,
                at == i + 3 + done,
                at <= tokens.len(),
                k == tokens.deep_view(),
                k == without_flags(profile_tokens(proftext@)),
                i < tokens.len(),
                k[i as int] == name@,
                !"$"@.is_prefix_of(name@),
                number_at(k, i + 1, name@, ProfileField::Hash) is Ok,
                number_at(k, i + 2, name@, ProfileField::CounterCount) == Ok::<nat, ProfileErrorView>(
                    counters as nat,
                ),
                executed_from(k, 0, Seq::empty()) == executed_from(k, i as int, executed.deep_view()),
                whole == any_counter(k, i + 3, counters as nat, name@),
                whole == (match any_counter(k, at as int, (counters - done) as nat, name@) {
                    Ok(rest) => Ok::<bool, ProfileErrorView>(hit || rest),
                    Err(e) => Err(e),
                }),
            decreases counters - done,
        {
            if at >= tokens.len() {
                return Err(ProfileError::Ended { name: name.clone(), field: ProfileField::CounterValue });
            }
            match read_number(&tokens, at, name, ProfileField::CounterValue) {
                Ok(n) => {
                    hit = hit || n > 0;
                },
                Err(e) => {
                    return Err(e);
                },
            }
            at += 1;
            done += 1;
        }
        assert(whole == Ok::<bool, ProfileErrorView>(hit));
        if hit {
            let ghost before = executed.deep_view();
            executed.push(name.clone());
            assert(executed.deep_view() =~= before.push(name@));
        }
        i = at;
    }
    if executed.len() == 0 {
        return Err(ProfileError::NothingExecuted);
    }
    Ok(executed)
}

/// A region of a function as `llvm-cov export` emits it: only the source extent and the file it
/// belongs to are used.
#[derive(Debug, Clone, Copy, PartialEq, Eq, Structural)]
pub struct CoverageRegion {
    pub line_start: i64,
    pub line_end: i64,
    pub file_id: u64,
}

impl View for CoverageRegion {
    type V = CoverageRegion;

    open spec fn view(&self) -> CoverageRegion {
        *self
    }
}

impl DeepView for CoverageRegion {
    type V = CoverageRegion;

    open spec fn deep_view(&self) -> CoverageRegion {
        *self
    }
}

/// A function of a coverage export.
#[derive(Debug, PartialEq, Eq)]
pub struct CoverageFunction {
    pub name: String,
    pub filenames: Vec<String>,
    pub regions: Vec<CoverageRegion>,
}

/// The value of a [`CoverageFunction`].
#[verifier::ext_equal]
pub struct CoverageFunctionView {
    pub name: Seq<char>,
    pub filenames: Seq<Seq<char>>,
    pub regions: Seq<CoverageRegion>,
}

impl View for CoverageFunction {
    type V = CoverageFunctionView;

    open spec fn view(&self) -> CoverageFunctionView {
        CoverageFunctionView {
            name: self.name@,
            filenames: self.filenames.deep_view(),
            regions: self.regions.deep_view(),
        }
    }
}

impl DeepView for CoverageFunction {
    type V = CoverageFunctionView;

    open spec fn deep_view(&self) -> CoverageFunctionView {
        self@
    }
}

/// Every element read by `f`, if all of them can be.
pub open spec fn read_all<A, B>(s: Seq<A>, f: spec_fn(A) -> Option<B>) -> Option<Seq<B>>
    decreases s.len(),
{
    if s.len() == 0 {
        Some(Seq::empty())
    } else {
        match (read_all(s.drop_last(), f), f(s.last())) {
            (Some(before), Some(last)) => Some(before.push(last)),
            _ => None,
        }
    }
}

/// An element that cannot be read makes the whole unreadable.
pub proof fn lemma_read_all_none<A, B>(s: Seq<A>, f: spec_fn(A) -> Option<B>, i: int)
    requires
        0 <= i < s.len(),
        f(s[i]) is None,
    ensures
        read_all(s, f) is None,
    decreases s.len(),
{
    if i < s.len() - 1 {
        lemma_read_all_none(s.drop_last(), f, i);
    }
}

/// The elements of an optional array: an absent one is empty.
pub open spec fn optional_array(j: Option<JsonView>) -> Option<Seq<JsonView>> {
    match j {
        Some(v) => v.as_array(),
        None => Some(Seq::empty()),
    }
}

/// The text of a field, if it is present and a text.
pub open spec fn text_field(j: Option<JsonView>) -> Option<Seq<char>> {
    match j {
        Some(v) => v.as_text(),
        None => None,
    }
}

/// A region: an array with the start line, the end line and the file at places 0, 2 and 5.
pub open spec fn region_of(j: JsonView) -> Option<CoverageRegion> {
    match j {
        JsonView::Array(a) => if a.len() > 5 {
            match (a[0].as_u64(), a[2].as_u64(), a[5].as_u64()) {
                (Some(start), Some(end), Some(file_id)) => Some(
                    CoverageRegion { line_start: start as i64, line_end: end as i64, file_id },
                ),
                _ => None,
            }
        } else {
            None
        },
        _ => None,
    }
}

/// A function: a record of a name and, where they are present, file names and regions.
pub open spec fn function_of(j: JsonView) -> Option<CoverageFunctionView> {
    if j.is_record(3) {
        match (
            text_field(j.field("name"@, 0)),
            optional_array(j.field("filenames"@, 1)),
            optional_array(j.field("regions"@, 2)),
        ) {
            (Some(name), Some(files), Some(regions)) => match (
                read_all(files, |f: JsonView| f.as_text()),
                read_all(regions, |r: JsonView| region_of(r)),
            ) {
                (Some(filenames), Some(regions)) => Some(CoverageFunctionView { name, filenames, regions }),
                _ => None,
            },
            _ => None,
        }
    } else {
        None
    }
}

/// The functions of one data entry: a record whose `functions` may be absent.
pub open spec fn data_functions(j: JsonView) -> Option<Seq<CoverageFunctionView>> {
    if j.is_record(1) {
        match optional_array(j.field("functions"@, 0)) {
            Some(a) => read_all(a, |f: JsonView| function_of(f)),
            None => None,
        }
    } else {
        None
    }
}

/// The functions of all data entries of an export, in order.
pub open spec fn export_functions(j: JsonView) -> Option<Seq<CoverageFunctionView>> {
    match j.field("data"@, 0) {
        Some(JsonView::Array(a)) => match read_all(a, |d: JsonView| data_functions(d)) {
            Some(lists) if j.is_record(1) => Some(lists.flatten()),
            _ => None,
        },
        _ => None,
    }
}

/// Why a coverage export could not be read.
#[derive(Debug, PartialEq, Eq)]
pub enum ExportError {
    /// The text is not JSON; the parser's message.
    NotJson(String),
    /// The document does not have the shape of an export.
    WrongShape,
}

/// The value of an [`ExportError`].
#[verifier::ext_equal]
pub enum ExportErrorView {
    NotJson(Seq<char>),
    WrongShape,
}

impl View for ExportError {
    type V = ExportErrorView;

    open spec fn view(&self) -> ExportErrorView {
        match self {
            ExportError::NotJson(e) => ExportErrorView::NotJson(e@),
            ExportError::WrongShape => ExportErrorView::WrongShape,
        }
    }
}

/// The message of an [`ExportError`].
pub open spec fn export_message(e: ExportErrorView) -> Seq<char> {
    match e {
        ExportErrorView::NotJson(m) => "failed to parse llvm-cov export JSON: "@ + m,
        ExportErrorView::WrongShape => "failed to parse llvm-cov export JSON: unexpected shape"@,
    }
}

impl ExportError {
    /// The message for the user.
    pub fn message(&self) -> (r: String)
        ensures
            r@ == export_message(self@),
    {
        match self {
            ExportError::NotJson(e) => String::from_str("failed to parse llvm-cov export JSON: ").concat(e.as_str()),
            ExportError::WrongShape => String::from_str("failed to parse llvm-cov export JSON: unexpected shape"),
        }
    }
}

/// The elements of an optional array.
fn read_optional_array(j: Option<&Json>) -> (r: Option<Option<&Vec<Json>>>)
    ensures
        match r {
            Some(Some(v)) => optional_array(j.deep_view()) == Some(v.deep_view()),
            Some(None) => j is None,
            None => optional_array(j.deep_view()) is None,
        },
{
    match j {
        Some(v) => match v.as_array() {
            Some(a) => Some(Some(a)),
            None => None,
        },
        None => Some(None),
    }
}

/// Reads a region.
fn read_region(j: &Json) -> (r: Option<CoverageRegion>)
    ensures
        r == region_of(j@),
{
    match j.as_array() {
        Some(a) => {
            if a.len() <= 5 {
                return None;
            }
            assert(a.deep_view()[0] == a@[0]@ && a.deep_view()[2] == a@[2]@ && a.deep_view()[5] == a@[5]@);
            match (a[0].as_u64(), a[2].as_u64(), a[5].as_u64()) {
                (Some(start), Some(end), Some(file_id)) => Some(
                    CoverageRegion { line_start: start as i64, line_end: end as i64, file_id },
                ),
                _ => None,
            }
        },
        None => None,
    }
}

/// Reads a list of texts.
pub(crate) fn read_texts(a: &Vec<Json>) -> (r: Option<Vec<String>>)
    ensures
        r.deep_view() == read_all(a.deep_view(), |f: JsonView| f.as_text()),
{
    let ghost d = a.deep_view();
    let ghost g = |f: JsonView| f.as_text();
    let mut out: Vec<String> = Vec::new();
    let mut i: usize = 0;
    assert(out.deep_view() =~= Seq::<Seq<char>>::empty());
    assert(d.take(0) =~= Seq::<JsonView>::empty());
    while i < a.len()
        invariant
            i <= a.len(),
            d == a.deep_view(),
            g == (|f: JsonView| f.as_text()),
            read_all(d.take(i as int), g) == Some(out.deep_view()),
        decreases a.len() - i,
    {
        assert(d[i as int] == a@[i as int]@);
        match a[i].as_str() {
            Some(t) => {
                let ghost before = out.deep_view();
                out.push(t.to_owned());
                assert(out.deep_view() =~= before.push(t@));
                assert(d.take(i + 1).drop_last() =~= d.take(i as int));
            },
            None => {
                proof {
                    lemma_read_all_none(d, g, i as int);
                }
                return None;
            },
        }
        i += 1;
    }
    assert(d.take(i as int) =~= d);
    Some(out)
}

/// Reads a list of regions.
fn read_regions(a: &Vec<Json>) -> (r: Option<Vec<CoverageRegion>>)
    ensures
        r.deep_view() == read_all(a.deep_view(), |r: JsonView| region_of(r)),
{
    let ghost d = a.deep_view();
    let ghost g = |r: JsonView| region_of(r);
    let mut out: Vec<CoverageRegion> = Vec::new();
    let mut i: usize = 0;
    assert(out.deep_view() =~= Seq::<CoverageRegion>::empty());
    assert(d.take(0) =~= Seq::<JsonView>::empty());
    while i < a.len()
        invariant
            i <= a.len(),
            d == a.deep_view(),
            g == (|r: JsonView| region_of(r)),
            read_all(d.take(i as int), g) == Some(out.deep_view()),
        decreases a.len() - i,
    {
        assert(d[i as int] == a@[i as int]@);
        match read_region(&a[i]) {
            Some(t) => {
                let ghost before = out.deep_view();
                out.push(t);
                assert(out.deep_view() =~= before.push(t));
                assert(d.take(i + 1).drop_last() =~= d.take(i as int));
            },
            None => {
                proof {
                    lemma_read_all_none(d, g, i as int);
                }
                return None;
            },
        }
        i += 1;
    }
    assert(d.take(i as int) =~= d);
    Some(out)
}

/// Reads a function.
fn read_function(j: &Json) -> (r: Option<CoverageFunction>)
    ensures
        r.deep_view() == function_of(j@),
{
    if !j.is_record(3) {
        return None;
    }
    let name = match j.field("name", 0) {
        Some(n) => match n.as_str() {
            Some(t) => t.to_owned(),
            None => {
                return None;
            },
        },
        None => {
            return None;
        },
    };
    let filenames = match read_optional_array(j.field("filenames", 1)) {
        Some(Some(a)) => match read_texts(a) {
            Some(v) => v,
            None => {
                return None;
            },
        },
        Some(None) => {
            let v: Vec<String> = Vec::new();
            assert(v.deep_view() =~= Seq::<Seq<char>>::empty());
            v
        },
        None => {
            return None;
        },
    };
    let regions = match read_optional_array(j.field("regions", 2)) {
        Some(Some(a)) => match read_regions(a) {
            Some(v) => v,
            None => {
                return None;
            },
        },
        Some(None) => {
            let v: Vec<CoverageRegion> = Vec::new();
            assert(v.deep_view() =~= Seq::<CoverageRegion>::empty());
            v
        },
        None => {
            return None;
        },
    };
    Some(CoverageFunction { name, filenames, regions })
}

/// Appends the functions of one data entry; says whether it could be read.
fn push_functions(out: &mut Vec<CoverageFunction>, j: &Json) -> (r: bool)
    ensures
        r == data_functions(j@) is Some,
        r ==> final(out).deep_view() == old(out).deep_view() + data_functions(j@)->0,
{
    if !j.is_record(1) {
        return false;
    }
    match read_optional_array(j.field("functions", 0)) {
        Some(Some(a)) => {
            let ghost d = a.deep_view();
            let ghost g = |f: JsonView| function_of(f);
            let ghost start = out.deep_view();
            let mut i: usize = 0;
            assert(d.take(0) =~= Seq::<JsonView>::empty());
            assert(start + Seq::<CoverageFunctionView>::empty() =~= start);
            while i < a.len()
                invariant
                    i <= a.len(),
                    d == a.deep_view(),
                    g == (|f: JsonView| function_of(f)),
                    data_functions(j@) == read_all(d, g),
                    read_all(d.take(i as int), g) is Some,
                    out.deep_view() == start + read_all(d.take(i as int), g)->0,
                decreases a.len() - i,
            {
                assert(d[i as int] == a@[i as int]@);
                match read_function(&a[i]) {
                    Some(f) => {
                        let ghost before = out.deep_view();
                        let ghost fv = f@;
                        out.push(f);
                        assert(out.deep_view() =~= before.push(fv));
                        assert(d.take(i + 1).drop_last() =~= d.take(i as int));
                        assert(out.deep_view() =~= start + read_all(d.take(i + 1), g)->0);
                    },
                    None => {
                        proof {
                            lemma_read_all_none(d, g, i as int);
                        }
                        return false;
                    },
                }
                i += 1;
            }
            assert(d.take(i as int) =~= d);
            true
        },
        Some(None) => {
            assert(out.deep_view() + Seq::<CoverageFunctionView>::empty() =~= out.deep_view());
            true
        },
        None => false,
    }
}

/// Reads the functions of a coverage export.
pub fn read_export(j: &Json) -> (r: Option<Vec<CoverageFunction>>)
    ensures
        r.deep_view() == export_functions(j@),
{
    if !j.is_record(1) {
        return None;
    }
    let a = match j.field("data", 0) {
        Some(data) => match data.as_array() {
            Some(a) => a,
            None => {
                return None;
            },
        },
        None => {
            return None;
        },
    };
    let ghost d = a.deep_view();
    let ghost g = |x: JsonView| data_functions(x);
    let mut out: Vec<CoverageFunction> = Vec::new();
    let mut i: usize = 0;
    assert(d.take(0) =~= Seq::<JsonView>::empty());
    assert(out.deep_view() =~= Seq::<CoverageFunctionView>::empty());
    while i < a.len()
        invariant
            i <= a.len(),
            d == a.deep_view(),
            g == (|x: JsonView| data_functions(x)),
            export_functions(j@) == (match read_all(d, g) {
                Some(lists) => Some(lists.flatten()),
                None => None,
            }),
            read_all(d.take(i as int), g) is Some,
            out.deep_view() == (read_all(d.take(i as int), g)->0).flatten(),
        decreases a.len() - i,
    {
        assert(d[i as int] == a@[i as int]@);
        if !push_functions(&mut out, &a[i]) {
            proof {
                lemma_read_all_none(d, g, i as int);
            }
            return None;
        }
        proof {
            assert(d.take(i + 1).drop_last() =~= d.take(i as int));
            let lists = read_all(d.take(i as int), g)->0;
            lists.lemma_flatten_push(data_functions(a@[i as int]@)->0);
        }
        i += 1;
    }
    assert(d.take(i as int) =~= d);
    Some(out)
}

} // verus!
