//! Changed line ranges, read from `git diff -U0` output.
//!
//! Line numbers are on the OLD side of the diff: they are positions in the snapshot that the
//! diff is taken against, which is the coordinate system of the stored coverage rows.

use vstd::prelude::*;
use crate::ordered::OrdMap;
use crate::text::{
    chars_of, find_chars, parse_i64, same_text, split_bytes, split_once, split_text, split_words, starts_with,
    text_of,
};

verus! {

/// Inclusive line range `[start, end]` of a changed hunk in some file.
#[derive(Debug, Clone, Copy, PartialEq, Eq, PartialOrd, Ord, Structural)]
pub struct LineRange {
    pub start: i64,
    pub end: i64,
}

impl View for LineRange {
    type V = LineRange;

    open spec fn view(&self) -> LineRange {
        *self
    }
}

impl DeepView for LineRange {
    type V = LineRange;

    open spec fn deep_view(&self) -> LineRange {
        *self
    }
}

/// A parsed `@@` hunk header: the OLD-side range, and both sides' line counts (the number of
/// `-` and `+` content lines that follow the header).
#[derive(Debug, Clone, Copy, PartialEq, Eq, Structural)]
pub struct Hunk {
    pub old_range: LineRange,
    pub old_count: i64,
    pub new_count: i64,
}

/// Why a diff could not be read.
#[derive(Debug, PartialEq, Eq)]
pub enum DiffError {
    /// A line inside a hunk is neither a deletion, an addition nor an annotation.
    UnexpectedLine(String),
    /// A line that opens a hunk is not a readable header.
    MalformedHunkHeader(String),
}

/// What a [`DiffError`] says.
#[verifier::ext_equal]
pub enum DiffErrorView {
    UnexpectedLine(Seq<char>),
    MalformedHunkHeader(Seq<char>),
}

impl View for DiffError {
    type V = DiffErrorView;

    open spec fn view(&self) -> DiffErrorView {
        match self {
            DiffError::UnexpectedLine(s) => DiffErrorView::UnexpectedLine(s@),
            DiffError::MalformedHunkHeader(s) => DiffErrorView::MalformedHunkHeader(s@),
        }
    }
}

/// The message of a [`DiffError`].
pub open spec fn diff_message(e: DiffErrorView) -> Seq<char> {
    match e {
        DiffErrorView::UnexpectedLine(s) => "unexpected line in git diff hunk content: "@ + s,
        DiffErrorView::MalformedHunkHeader(s) => "malformed hunk header in git diff output: "@ + s,
    }
}

impl DiffError {
    /// The message for the user.
    pub fn message(&self) -> (r: String)
        ensures
            r@ == diff_message(self@),
    {
        match self {
            DiffError::UnexpectedLine(s) => {
                String::from_str("unexpected line in git diff hunk content: ").concat(s.as_str())
            },
            DiffError::MalformedHunkHeader(s) => {
                String::from_str("malformed hunk header in git diff output: ").concat(s.as_str())
            },
        }
    }
}

/// The text that bytes encode, if they are valid UTF-8.
pub open spec fn utf8_text(v: Seq<u8>) -> Option<Seq<char>> {
    if vstd::utf8::valid_utf8(v) {
        Some(vstd::utf8::decode_utf8(v))
    } else {
        None
    }
}

/// What [`decode_text`] says of bytes that are not UTF-8.
pub uninterp spec fn utf8_error(v: Seq<u8>) -> Seq<char>;

/// `std::str::from_utf8`: the decoded text where the bytes are valid UTF-8; elsewhere the text of
/// the error, which depends on the bytes alone.
#[verifier::external_body]
pub(crate) fn decode_text(v: &[u8]) -> (r: Result<String, String>)
    ensures
        match r {
            Ok(s) => utf8_text(v@) == Some(s@),
            Err(e) => utf8_text(v@) is None && e@ == utf8_error(v@),
        },
{
    match std::str::from_utf8(v) {
        Ok(s) => Ok(String::from(s)),
        Err(e) => Err(e.to_string()),
    }
}

/// The text that [`decode_lossily`] gives: bytes that are not UTF-8 are replaced.
pub uninterp spec fn utf8_lossy(v: Seq<u8>) -> Seq<char>;

/// `String::from_utf8_lossy`: the same bytes always decode to the same text, bytes that are valid
/// UTF-8 decode to exactly what they encode, and so does every start of the bytes that is valid,
/// whatever follows it. What stands for the bytes behind it is left open.
#[verifier::external_body]
fn decode_lossily(v: &[u8]) -> (r: String)
    ensures
        r@ == utf8_lossy(v@),
        vstd::utf8::valid_utf8(v@) ==> r@ == vstd::utf8::decode_utf8(v@),
        forall|n: int|
            0 <= n <= v@.len() && vstd::utf8::valid_utf8(#[trigger] v@.take(n)) ==> vstd::utf8::decode_utf8(
                v@.take(n),
            ).is_prefix_of(r@),
{
    String::from_utf8_lossy(v).into_owned()
}

/// The length of the longest start of `v` that is valid UTF-8 and has at most `n` bytes.
pub open spec fn valid_start(v: Seq<u8>, n: nat) -> nat
    decreases n,
{
    if n == 0 || vstd::utf8::valid_utf8(v.take(n as int)) {
        n
    } else {
        valid_start(v, (n - 1) as nat)
    }
}

/// The text of bytes: what they encode where they are UTF-8. Elsewhere what the longest start that
/// is UTF-8 encodes, and behind it a text with replacements.
pub open spec fn readable_text(v: Seq<u8>) -> Seq<char> {
    let head = vstd::utf8::decode_utf8(v.take(valid_start(v, v.len()) as int));
    if vstd::utf8::valid_utf8(v) {
        head
    } else {
        head + utf8_lossy(v).skip(head.len() as int)
    }
}

proof fn lemma_valid_start(v: Seq<u8>, n: nat)
    requires
        n <= v.len(),
    ensures
        valid_start(v, n) <= n,
        vstd::utf8::valid_utf8(v.take(valid_start(v, n) as int)),
        forall|k: int|
            0 <= k <= n && vstd::utf8::valid_utf8(#[trigger] v.take(k)) ==> k <= valid_start(v, n),
    decreases n,
{
    if n > 0 && !vstd::utf8::valid_utf8(v.take(n as int)) {
        lemma_valid_start(v, (n - 1) as nat);
    }
}

proof fn lemma_decodes_as_start(a: Seq<u8>, b: Seq<u8>)
    requires
        a.is_prefix_of(b),
        vstd::utf8::valid_utf8(a),
        vstd::utf8::valid_utf8(b),
    ensures
        vstd::utf8::decode_utf8(a).is_prefix_of(vstd::utf8::decode_utf8(b)),
    decreases a.len(),
{
    if a.len() > 0 {
        assert(forall|i: int| 0 <= i < a.len() ==> a[i] == b[i]);
        let c = vstd::utf8::pop_first_scalar(a);
        let d = vstd::utf8::pop_first_scalar(b);
        assert(c =~= d.take(c.len() as int));
        lemma_decodes_as_start(c, d);
        let x = vstd::utf8::decode_utf8(a);
        assert(x =~= vstd::utf8::decode_utf8(b).take(x.len() as int));
    }
}

/// The text of bytes begins with what any start of them that is UTF-8 encodes.
pub proof fn law_valid_start_is_kept(v: Seq<u8>, n: int)
    requires
        0 <= n <= v.len(),
        vstd::utf8::valid_utf8(v.take(n)),
    ensures
        vstd::utf8::decode_utf8(v.take(n)).is_prefix_of(readable_text(v)),
{
    lemma_valid_start(v, v.len());
    let longest = v.take(valid_start(v, v.len()) as int);
    assert(v.take(n) =~= longest.take(n));
    lemma_decodes_as_start(v.take(n), longest);
    let x = vstd::utf8::decode_utf8(v.take(n));
    assert(x =~= readable_text(v).take(x.len() as int));
}

/// Decodes bytes, with replacements for what is not UTF-8.
pub(crate) fn lossy_text(v: &[u8]) -> (r: String)
    ensures
        r@ == readable_text(v@),
{
    let r = decode_lossily(v);
    proof {
        lemma_valid_start(v@, v@.len());
        assert(v@.take(v@.len() as int) =~= v@);
        let head = vstd::utf8::decode_utf8(v@.take(valid_start(v@, v@.len()) as int));
        assert(head.is_prefix_of(r@));
        assert(head + r@.skip(head.len() as int) =~= r@);
    }
    r
}

/// The number that `s` writes, where it fits in 64 bits.
pub open spec fn line_number(s: Seq<char>) -> Option<int> {
    match crate::text::signed_value(s) {
        Some(n) => if i64::MIN <= n <= i64::MAX {
            Some(n)
        } else {
            None
        },
        None => None,
    }
}

/// One side of a hunk header: `<sign>START` or `<sign>START,COUNT`, as start and count.
pub open spec fn hunk_side(side: Seq<char>, sign: char) -> Option<(int, int)> {
    if side.len() > 0 && side[0] == sign {
        let body = side.drop_first();
        match crate::text::around_first(body, ',') {
            Some((s, c)) => match (line_number(s), line_number(c)) {
                (Some(start), Some(count)) => Some((start, count)),
                _ => None,
            },
            None => match line_number(body) {
                Some(start) => Some((start, 1)),
                None => None,
            },
        }
    } else {
        None
    }
}

/// The hunk that a header with these numbers opens: a pure insertion collapses to the line
/// before which content was inserted.
pub open spec fn hunk_of(start: int, old_count: int, new_count: int) -> Option<Hunk> {
    let end = if old_count == 0 {
        start
    } else {
        start + old_count - 1
    };
    if i64::MIN <= end <= i64::MAX {
        Some(
            Hunk {
                old_range: LineRange { start: start as i64, end: end as i64 },
                old_count: old_count as i64,
                new_count: new_count as i64,
            },
        )
    } else {
        None
    }
}

/// What `@@ -OLD_START[,OLD_COUNT] +NEW_START[,NEW_COUNT] @@ ...` says.
pub open spec fn hunk_header(line: Seq<char>) -> Option<Hunk> {
    if "@@ "@.is_prefix_of(line) {
        let inner = line.skip(3);
        match crate::text::first_place(inner, " @@"@) {
            Some(k) => {
                let parts = crate::text::words(inner.take(k));
                if parts.len() >= 2 {
                    match (hunk_side(parts[0], '-'), hunk_side(parts[1], '+')) {
                        (Some((start, old_count)), Some((_, new_count))) => hunk_of(start, old_count, new_count),
                        _ => None,
                    }
                } else {
                    None
                }
            },
            None => None,
        }
    } else {
        None
    }
}

/// What stands behind the closing `@@` of a hunk header does not count, whether it is UTF-8 or not.
pub proof fn law_hunk_ignores_what_follows(line: Seq<u8>, n: int)
    requires
        0 <= n <= line.len(),
        vstd::utf8::valid_utf8(line.take(n)),
        hunk_header(vstd::utf8::decode_utf8(line.take(n))) is Some,
    ensures
        hunk_header(readable_text(line)) == hunk_header(vstd::utf8::decode_utf8(line.take(n))),
{
    reveal_strlit("@@ ");
    law_valid_start_is_kept(line, n);
    let a = vstd::utf8::decode_utf8(line.take(n));
    let b = readable_text(line);
    assert("@@ "@ =~= b.take(3));
    let (x, y) = (a.skip(3), b.skip(3));
    assert(x =~= y.take(x.len() as int));
    let k = crate::text::first_place(x, " @@"@)->0;
    assert(crate::text::first_at(x, " @@"@, k));
    assert forall|i: int| 0 <= i <= k implies #[trigger] crate::text::occurs_at(y, " @@"@, i)
        == crate::text::occurs_at(x, " @@"@, i) by {
        reveal_strlit(" @@");
        if i + 3 <= x.len() {
            assert(x.subrange(i, i + 3) =~= y.subrange(i, i + 3));
        }
    }
    assert(crate::text::first_at(y, " @@"@, k));
    crate::text::lemma_first_place(y, " @@"@);
    assert(x.take(k) =~= y.take(k));
}

/// Reads one side of a hunk header.
fn parse_side(side: &str, sign: char) -> (r: Option<(i64, i64)>)
    ensures
        match r {
            Some(p) => hunk_side(side@, sign) == Some((p.0 as int, p.1 as int)),
            None => hunk_side(side@, sign) is None,
        },
{
    let v = chars_of(side);
    if v.len() == 0 || v[0] != sign {
        return None;
    }
    let body = text_of(&v, 1, v.len());
    assert(body@ =~= side@.drop_first());
    match split_once(body.as_str(), ',') {
        Some((s, c)) => match (parse_i64(s.as_str()), parse_i64(c.as_str())) {
            (Some(start), Some(count)) => Some((start, count)),
            _ => None,
        },
        None => match parse_i64(body.as_str()) {
            Some(start) => Some((start, 1)),
            None => None,
        },
    }
}

/// Parse `@@ -OLD_START[,OLD_COUNT] +NEW_START[,NEW_COUNT] @@ ...`. The OLD-side range is
/// inclusive; for pure insertions (`OLD_COUNT == 0`) it collapses to `[OLD_START, OLD_START]`,
/// so functions containing that line are still picked up. A range that leaves the 64-bit
/// numbers makes the header unreadable.
pub fn parse_hunk_header(line: &str) -> (r: Option<Hunk>)
    ensures
        r == hunk_header(line@),
{
    proof {
        reveal_strlit("@@ ");
        reveal_strlit(" @@");
    }
    if !starts_with(line, "@@ ") {
        return None;
    }
    let v = chars_of(line);
    assert("@@ "@.len() == 3);
    let inner = text_of(&v, 3, v.len());
    assert(inner@ =~= line@.skip(3));
    let w = chars_of(inner.as_str());
    let close = chars_of(" @@");
    let k = match find_chars(&w, &close) {
        Some(k) => k,
        None => {
            return None;
        },
    };
    let body = text_of(&w, 0, k);
    assert(body@ =~= inner@.take(k as int));
    let parts = split_words(body.as_str());
    if parts.len() < 2 {
        return None;
    }
    assert(parts.deep_view()[0] == parts@[0]@);
    assert(parts.deep_view()[1] == parts@[1]@);
    let (start, old_count) = match parse_side(parts[0].as_str(), '-') {
        Some(p) => p,
        None => {
            return None;
        },
    };
    let new_count: i64 = match parse_side(parts[1].as_str(), '+') {
        Some(p) => p.1,
        None => {
            return None;
        },
    };
    let end: i128 = if old_count == 0 {
        start as i128
    } else {
        start as i128 + old_count as i128 - 1
    };
    if end < i64::MIN as i128 || end > i64::MAX as i128 {
        return None;
    }
    Some(Hunk { old_range: LineRange { start, end: end as i64 }, old_count, new_count })
}

/// The file that a `--- ` line names: the part before a tab, without git's `a/` prefix.
pub open spec fn diff_path(rest: Seq<char>) -> Option<Seq<char>> {
    let path = crate::text::pieces(rest, '\t')[0];
    if path == "/dev/null"@ {
        Some("/dev/null"@)
    } else if "a/"@.is_prefix_of(path) {
        Some(path.skip(2))
    } else {
        None
    }
}

/// Strip the `a/` prefix git adds and trim the trailing tab and timestamp.
pub fn parse_diff_path(rest: &str) -> (r: Option<String>)
    ensures
        match r {
            Some(s) => diff_path(rest@) == Some(s@),
            None => diff_path(rest@) is None,
        },
{
    let parts = split_text(rest, '\t');
    proof {
        crate::text::lemma_pieces_nonempty(rest@, '\t');
        reveal_strlit("a/");
    }
    assert(parts.deep_view()[0] == parts@[0]@);
    let path = parts[0].as_str();
    if same_text(path, "/dev/null") {
        return Some(String::from_str("/dev/null"));
    }
    if starts_with(path, "a/") {
        let v = chars_of(path);
        let r = text_of(&v, 2, v.len());
        assert(r@ =~= path@.skip(2));
        Some(r)
    } else {
        None
    }
}

/// Order of ranges: by start, then by end.
pub open spec fn range_le(a: LineRange, b: LineRange) -> bool {
    a.start < b.start || (a.start == b.start && a.end <= b.end)
}

/// `s` with `r` put behind the last range that does not come after it.
pub open spec fn insert_range(s: Seq<LineRange>, r: LineRange) -> Seq<LineRange>
    decreases s.len(),
{
    if s.len() == 0 || range_le(s.last(), r) {
        s.push(r)
    } else {
        insert_range(s.drop_last(), r).push(s.last())
    }
}

/// The ranges of `s` in order.
pub open spec fn sorted_ranges(s: Seq<LineRange>) -> Seq<LineRange>
    decreases s.len(),
{
    if s.len() == 0 {
        s
    } else {
        insert_range(sorted_ranges(s.drop_last()), s.last())
    }
}

/// `r` joined to the last range where they overlap or touch, else added behind it.
pub open spec fn merge_range(acc: Seq<LineRange>, r: LineRange) -> Seq<LineRange> {
    if acc.len() > 0 && r.start <= acc.last().end + 1 {
        let end = if acc.last().end < r.end {
            r.end
        } else {
            acc.last().end
        };
        acc.drop_last().push(LineRange { start: acc.last().start, end })
    } else {
        acc.push(r)
    }
}

/// Ranges merged from left to right.
pub open spec fn merged_ranges(s: Seq<LineRange>) -> Seq<LineRange>
    decreases s.len(),
{
    if s.len() == 0 {
        s
    } else {
        merge_range(merged_ranges(s.drop_last()), s.last())
    }
}

/// The ranges sorted, with overlapping and adjacent ones coalesced.
pub open spec fn coalesced(s: Seq<LineRange>) -> Seq<LineRange> {
    merged_ranges(sorted_ranges(s))
}

/// Sorts ranges by start and end.
fn sort_ranges(s: &Vec<LineRange>) -> (r: Vec<LineRange>)
    ensures
        r@ == sorted_ranges(s@),
{
    let mut r: Vec<LineRange> = Vec::new();
    let mut i: usize = 0;
    while i < s.len()
        invariant
            i <= s.len(),
            r@ == sorted_ranges(s@.take(i as int)),
        decreases s.len() - i,
    {
        let x = s[i];
        let mut at: usize = r.len();
        let ghost full = r@;
        let ghost tail = Seq::<LineRange>::empty();
        assert(full =~= r@.take(at as int));
        assert(insert_range(full, x) =~= insert_range(full.take(at as int), x) + full.skip(at as int));
        while at > 0 && !(r[at - 1].start < x.start || (r[at - 1].start == x.start && r[at - 1].end <= x.end))
            invariant
                at <= r.len(),
                r@ == full,
                insert_range(full, x) == insert_range(full.take(at as int), x) + full.skip(at as int),
            decreases at,
        {
            proof {
                let t = full.take(at as int);
                assert(t.drop_last() =~= full.take(at - 1));
                assert(full.skip(at - 1) =~= seq![t.last()] + full.skip(at as int));
                assert(insert_range(full.take(at - 1), x).push(t.last()) + full.skip(at as int) =~= insert_range(
                    full.take(at - 1),
                    x,
                ) + full.skip(at - 1));
            }
            at -= 1;
        }
        r.insert(at, x);
        proof {
            assert(full.take(at as int).push(x) + full.skip(at as int) =~= r@);
            assert(s@.take(i + 1).drop_last() =~= s@.take(i as int));
        }
        i += 1;
    }
    assert(s@.take(i as int) =~= s@);
    r
}

/// Sorts the ranges and coalesces overlapping and adjacent ones, so that downstream queries do
/// not count a line twice.
pub fn coalesce_ranges(s: &Vec<LineRange>) -> (r: Vec<LineRange>)
    ensures
        r@ == coalesced(s@),
{
    let sorted = sort_ranges(s);
    let mut acc: Vec<LineRange> = Vec::new();
    let mut i: usize = 0;
    while i < sorted.len()
        invariant
            i <= sorted.len(),
            acc@ == merged_ranges(sorted@.take(i as int)),
        decreases sorted.len() - i,
    {
        let x = sorted[i];
        assert(sorted@.take(i + 1).drop_last() =~= sorted@.take(i as int));
        let n: usize = acc.len();
        if n > 0 && (x.start <= acc[n - 1].end || x.start as i128 == acc[n - 1].end as i128 + 1) {
            let last = acc[n - 1];
            let end: i64 = if last.end < x.end {
                x.end
            } else {
                last.end
            };
            let ghost before = acc@;
            acc.set(n - 1, LineRange { start: last.start, end });
            assert(acc@ =~= before.drop_last().push(LineRange { start: last.start, end }));
        } else {
            acc.push(x);
        }
        i += 1;
    }
    assert(sorted@.take(i as int) =~= sorted@);
    acc
}

/// Where the reading of a diff stands after some lines.
#[verifier::ext_equal]
pub struct DiffState {
    /// The OLD-side ranges of each file so far, in the order of their hunks.
    pub ranges: Map<Seq<char>, Seq<LineRange>>,
    /// The file that the current hunks belong to.
    pub file: Option<Seq<char>>,
    /// Content lines still owed by the current hunk, on the OLD side.
    pub rem_old: int,
    /// Content lines still owed by the current hunk, on the NEW side.
    pub rem_new: int,
}

/// The state before the first line.
pub open spec fn diff_start() -> DiffState {
    DiffState { ranges: Map::empty(), file: None, rem_old: 0, rem_new: 0 }
}

/// The bytes of `--- `.
pub open spec fn file_mark() -> Seq<u8> {
    seq![45u8, 45u8, 45u8, 32u8]
}

/// The bytes of `@@ `.
pub open spec fn hunk_mark() -> Seq<u8> {
    seq![64u8, 64u8, 32u8]
}

/// The ranges with one more for `file`.
pub open spec fn with_range(
    ranges: Map<Seq<char>, Seq<LineRange>>,
    file: Seq<char>,
    r: LineRange,
) -> Map<Seq<char>, Seq<LineRange>> {
    let before = if ranges.contains_key(file) {
        ranges[file]
    } else {
        Seq::empty()
    };
    ranges.insert(file, before.push(r))
}

/// One line read: while a hunk still owes content, the line is content; otherwise it may name a
/// file or open a hunk, and every other line is passed over.
pub open spec fn diff_step(st: DiffState, line: Seq<u8>) -> Result<DiffState, DiffErrorView> {
    if st.rem_old > 0 || st.rem_new > 0 {
        if line.len() > 0 && line[0] == 45u8 {
            Ok(DiffState { rem_old: st.rem_old - 1, ..st })
        } else if line.len() > 0 && line[0] == 43u8 {
            Ok(DiffState { rem_new: st.rem_new - 1, ..st })
        } else if line.len() > 0 && line[0] == 92u8 {
            Ok(st)
        } else {
            Err(DiffErrorView::UnexpectedLine(readable_text(line)))
        }
    } else if file_mark().is_prefix_of(line) {
        let file = match utf8_text(line.skip(4)) {
            Some(rest) => diff_path(rest),
            None => None,
        };
        Ok(DiffState { file, ..st })
    } else if hunk_mark().is_prefix_of(line) {
        match hunk_header(readable_text(line)) {
            Some(hunk) => {
                let ranges = match st.file {
                    Some(file) => if file == "/dev/null"@ {
                        st.ranges
                    } else {
                        with_range(st.ranges, file, hunk.old_range)
                    },
                    None => st.ranges,
                };
                Ok(
                    DiffState {
                        ranges,
                        rem_old: hunk.old_count as int,
                        rem_new: hunk.new_count as int,
                        ..st
                    },
                )
            },
            None => Err(DiffErrorView::MalformedHunkHeader(readable_text(line))),
        }
    } else {
        Ok(st)
    }
}

/// The state after `lines`, or the first error.
pub open spec fn diff_scan(lines: Seq<Seq<u8>>) -> Result<DiffState, DiffErrorView>
    decreases lines.len(),
{
    if lines.len() == 0 {
        Ok(diff_start())
    } else {
        match diff_scan(lines.drop_last()) {
            Ok(st) => diff_step(st, lines.last()),
            Err(e) => Err(e),
        }
    }
}

/// Every file's ranges coalesced.
pub open spec fn coalesced_files(ranges: Map<Seq<char>, Seq<LineRange>>) -> Map<Seq<char>, Seq<LineRange>> {
    Map::new(|k: Seq<char>| ranges.contains_key(k), |k: Seq<char>| coalesced(ranges[k]))
}

/// The changed ranges of each file of a diff, or why it cannot be read.
pub open spec fn unified_diff(diff: Seq<u8>) -> Result<Map<Seq<char>, Seq<LineRange>>, DiffErrorView> {
    match diff_scan(crate::text::pieces(diff, 10u8)) {
        Ok(st) => Ok(coalesced_files(st.ranges)),
        Err(e) => Err(e),
    }
}

/// An error in the first lines is the error of the whole.
proof fn lemma_scan_error(lines: Seq<Seq<u8>>, k: int)
    requires
        0 <= k <= lines.len(),
        diff_scan(lines.take(k)) is Err,
    ensures
        diff_scan(lines) == diff_scan(lines.take(k)),
    decreases lines.len(),
{
    if k == lines.len() {
        assert(lines.take(k) =~= lines);
    } else {
        assert(lines.drop_last().take(k) =~= lines.take(k));
        lemma_scan_error(lines.drop_last(), k);
    }
}

/// Whether `line` begins with `mark`.
fn bytes_start_with(line: &[u8], mark: &[u8]) -> (r: bool)
    ensures
        r == mark@.is_prefix_of(line@),
{
    if mark.len() > line.len() {
        return false;
    }
    let mut i: usize = 0;
    while i < mark.len()
        invariant
            i <= mark.len() <= line.len(),
            forall|j: int| 0 <= j < i ==> line@[j] == mark@[j],
        decreases mark.len() - i,
    {
        if line[i] != mark[i] {
            assert(line@.take(mark@.len() as int)[i as int] != mark@[i as int]);
            return false;
        }
        i += 1;
    }
    assert(mark@ =~= line@.take(mark@.len() as int));
    true
}

/// Adds `r` to the ranges of `file`.
fn add_range(ranges: &mut OrdMap<String, Vec<LineRange>>, file: &String, r: LineRange)
    ensures
        final(ranges)@ == with_range(old(ranges)@, file@, r),
{
    let mut list = match ranges.remove(file) {
        Some(list) => list,
        None => Vec::new(),
    };
    let ghost before = list.deep_view();
    proof {
        if !old(ranges)@.contains_key(file@) {
            assert(before =~= Seq::<LineRange>::empty());
        }
    }
    list.push(r);
    assert(list.deep_view() =~= before.push(r));
    ranges.insert(file.clone(), list);
    assert(ranges@ =~= with_range(old(ranges)@, file@, r));
}

/// Coalesces every file's ranges.
fn coalesce_files(ranges: &OrdMap<String, Vec<LineRange>>) -> (r: OrdMap<String, Vec<LineRange>>)
    ensures
        r@ == coalesced_files(ranges@),
{
    let entries = ranges.entries();
    let mut out: OrdMap<String, Vec<LineRange>> = OrdMap::new();
    let mut i: usize = 0;
    let ghost keys = ranges.keys();
    while i < entries.len()
        invariant
            i <= entries.len(),
            keys == ranges.keys(),
            keys.len() == entries.len(),
            ranges@.dom() == keys.to_set(),
            forall|j: int| 0 <= j < entries.len() ==> {
                &&& (#[trigger] entries@[j]).0.deep_view() == keys[j]
                &&& ranges@.contains_key(keys[j])
                &&& ranges@[keys[j]] == entries@[j].1.deep_view()
            },
            out@.dom() == keys.take(i as int).to_set(),
            forall|k: Seq<char>| #[trigger] out@.contains_key(k) ==> ranges@.contains_key(k) && out@[k] == coalesced(
                ranges@[k],
            ),
        decreases entries.len() - i,
    {
        let (name, list) = &entries[i];
        let c = coalesce_ranges(list);
        assert(list.deep_view() =~= list@);
        assert(c.deep_view() =~= c@);
        out.insert(name.clone(), c);
        proof {
            assert(keys.take(i + 1) =~= keys.take(i as int).push(keys[i as int]));
            keys.take(i as int).lemma_push_to_set_commute(keys[i as int]);
            assert(out@.dom() =~= keys.take(i + 1).to_set());
        }
        i += 1;
    }
    assert(keys.take(i as int) =~= keys);
    assert(out@ =~= coalesced_files(ranges@));
    out
}

/// Parses `git diff -U0` output into the changed OLD-side ranges of each file.
///
/// Operates on bytes because content lines can carry arbitrary non-UTF-8 data. Only the `--- `
/// and `@@ ` header lines are decoded; content lines are consumed by the counts of their hunk
/// header and never interpreted, so a deleted line that looks like a file header is not
/// mistaken for one. A file without an OLD side, and one whose name is not UTF-8, contributes no
/// ranges, with its content still consumed.
pub fn parse_unified_diff(diff: &[u8]) -> (r: Result<OrdMap<String, Vec<LineRange>>, DiffError>)
    ensures
        match r {
            Ok(m) => unified_diff(diff@) == Ok::<Map<Seq<char>, Seq<LineRange>>, DiffErrorView>(m@),
            Err(e) => unified_diff(diff@) == Err::<Map<Seq<char>, Seq<LineRange>>, DiffErrorView>(e@),
        },
{
    let lines = split_bytes(diff, 10u8);
    let ghost all = crate::text::pieces(diff@, 10u8);
    let mark_file: [u8; 4] = [45u8, 45u8, 45u8, 32u8];
    let mark_hunk: [u8; 3] = [64u8, 64u8, 32u8];
    assert(mark_file@ =~= file_mark());
    assert(mark_hunk@ =~= hunk_mark());
    let mut ranges: OrdMap<String, Vec<LineRange>> = OrdMap::new();
    let mut file: Option<String> = None;
    let mut rem_old: i128 = 0;
    let mut rem_new: i128 = 0;
    let mut i: usize = 0;
    assert(all.take(0) =~= Seq::<Seq<u8>>::empty());
    while i < lines.len()
        invariant
            i <= lines.len(),
            lines.deep_view() == all,
            all == crate::text::pieces(diff@, 10u8),
            mark_file@ == file_mark(),
            mark_hunk@ == hunk_mark(),
            i64::MIN - i <= rem_old <= i64::MAX,
            i64::MIN - i <= rem_new <= i64::MAX,
            diff_scan(all.take(i as int)) == Ok::<DiffState, DiffErrorView>(
                DiffState {
                    ranges: ranges@,
                    file: file.deep_view(),
                    rem_old: rem_old as int,
                    rem_new: rem_new as int,
                },
            ),
        decreases lines.len() - i,
    {
        let line = lines[i].as_slice();
        let ghost st = DiffState {
            ranges: ranges@,
            file: file.deep_view(),
            rem_old: rem_old as int,
            rem_new: rem_new as int,
        };
        proof {
            assert(all[i as int] =~= line@);
            assert(all.take(i + 1).drop_last() =~= all.take(i as int));
            assert(all.take(i + 1).last() == line@);
            assert(diff_scan(all.take(i + 1)) == diff_step(st, line@));
        }
        if rem_old > 0 || rem_new > 0 {
            if line.len() > 0 && line[0] == 45u8 {
                rem_old -= 1;
            } else if line.len() > 0 && line[0] == 43u8 {
                rem_new -= 1;
            } else if line.len() > 0 && line[0] == 92u8 {
            } else {
                let e = DiffError::UnexpectedLine(lossy_text(line));
                proof {
                    lemma_scan_error(all, i + 1);
                }
                return Err(e);
            }
        } else if bytes_start_with(line, &mark_file) {
            assert(file_mark().len() == 4);
            let rest = vstd::slice::slice_subrange(line, 4, line.len());
            assert(rest@ =~= line@.skip(4));
            file = match decode_text(rest) {
                Ok(text) => parse_diff_path(text.as_str()),
                Err(_) => None,
            };
        } else if bytes_start_with(line, &mark_hunk) {
            let text = lossy_text(line);
            match parse_hunk_header(text.as_str()) {
                Some(hunk) => {
                    rem_old = hunk.old_count as i128;
                    rem_new = hunk.new_count as i128;
                    match &file {
                        Some(name) => {
                            if !same_text(name.as_str(), "/dev/null") {
                                add_range(&mut ranges, name, hunk.old_range);
                            }
                        },
                        None => {},
                    }
                },
                None => {
                    proof {
                        lemma_scan_error(all, i + 1);
                    }
                    return Err(DiffError::MalformedHunkHeader(text));
                },
            }
        }
        i += 1;
    }
    assert(all.take(i as int) =~= all);
    Ok(coalesce_files(&ranges))
}

/// `line` lies in one of the ranges.
pub open spec fn covers(s: Seq<LineRange>, line: int) -> bool {
    exists|i: int| 0 <= i < s.len() && (#[trigger] s[i]).start <= line <= s[i].end
}

/// Every range holds at least one line.
pub open spec fn proper_ranges(s: Seq<LineRange>) -> bool {
    forall|i: int| 0 <= i < s.len() ==> (#[trigger] s[i]).start <= s[i].end
}

/// The ranges stand in order with at least one line between neighbours.
pub open spec fn separated(s: Seq<LineRange>) -> bool {
    forall|i: int, j: int| 0 <= i < j < s.len() ==> (#[trigger] s[i]).end + 1 < (#[trigger] s[j]).start
}

spec fn in_order(s: Seq<LineRange>) -> bool {
    forall|i: int, j: int| 0 <= i < j < s.len() ==> range_le(#[trigger] s[i], #[trigger] s[j])
}

proof fn lemma_insert_range(s: Seq<LineRange>, r: LineRange)
    requires
        in_order(s),
    ensures
        in_order(insert_range(s, r)),
        insert_range(s, r).to_multiset() == s.to_multiset().insert(r),
        insert_range(s, r).len() == s.len() + 1,
    decreases s.len(),
{
    broadcast use vstd::seq_lib::group_to_multiset_ensures;

    if s.len() == 0 || range_le(s.last(), r) {
    } else {
        let t = s.drop_last();
        assert(in_order(t));
        lemma_insert_range(t, r);
        let u = insert_range(t, r);
        assert(s =~= t.push(s.last()));
        assert forall|i: int| 0 <= i < u.len() implies range_le(#[trigger] u[i], s.last()) by {
            assert(u.to_multiset().count(u[i]) > 0);
            if u[i] != r {
                assert(t.to_multiset().count(u[i]) > 0);
                assert(t.contains(u[i]));
            }
        }
    }
}

proof fn lemma_sorted_ranges(s: Seq<LineRange>)
    ensures
        in_order(sorted_ranges(s)),
        sorted_ranges(s).to_multiset() == s.to_multiset(),
    decreases s.len(),
{
    broadcast use vstd::seq_lib::group_to_multiset_ensures;

    if s.len() > 0 {
        lemma_sorted_ranges(s.drop_last());
        lemma_insert_range(sorted_ranges(s.drop_last()), s.last());
        assert(s =~= s.drop_last().push(s.last()));
    }
}

proof fn lemma_merged_ranges(s: Seq<LineRange>)
    requires
        in_order(s),
        proper_ranges(s),
    ensures
        separated(merged_ranges(s)),
        proper_ranges(merged_ranges(s)),
        forall|line: int| covers(merged_ranges(s), line) <==> covers(s, line),
        s.len() > 0 ==> merged_ranges(s).len() > 0 && merged_ranges(s).last().start <= s.last().start,
    decreases s.len(),
{
    if s.len() > 0 {
        let t = s.drop_last();
        assert(proper_ranges(t)) by {
            assert forall|i: int| 0 <= i < t.len() implies (#[trigger] t[i]).start <= t[i].end by {
                assert(t[i] == s[i]);
            }
        }
        lemma_merged_ranges(t);
        let m = merged_ranges(t);
        let r = s.last();
        let n = merged_ranges(s);
        assert(s[s.len() - 1] == r);
        if t.len() > 0 {
            assert(range_le(s[s.len() - 2], s[s.len() - 1]));
            assert(t.last() == s[s.len() - 2]);
        }
        assert forall|line: int| covers(n, line) <==> covers(s, line) by {
            if covers(n, line) {
                let i = choose|i: int| 0 <= i < n.len() && (#[trigger] n[i]).start <= line <= n[i].end;
                if i < n.len() - 1 {
                    assert(m[i] == n[i]);
                    assert(covers(m, line));
                } else if m.len() > 0 && r.start <= m.last().end + 1 {
                    if line <= m.last().end {
                        assert(m[m.len() - 1].start <= line <= m[m.len() - 1].end);
                        assert(covers(m, line));
                    } else {
                        assert(s[s.len() - 1].start <= line <= s[s.len() - 1].end);
                    }
                } else {
                    assert(s[s.len() - 1].start <= line <= s[s.len() - 1].end);
                }
                if covers(m, line) {
                    assert(covers(t, line));
                    let j = choose|j: int| 0 <= j < t.len() && (#[trigger] t[j]).start <= line <= t[j].end;
                    assert(s[j].start <= line <= s[j].end);
                }
            }
            if covers(s, line) {
                let j = choose|j: int| 0 <= j < s.len() && (#[trigger] s[j]).start <= line <= s[j].end;
                if j < t.len() {
                    assert(t[j].start <= line <= t[j].end);
                    assert(covers(t, line));
                    assert(covers(m, line));
                    let i = choose|i: int| 0 <= i < m.len() && (#[trigger] m[i]).start <= line <= m[i].end;
                    assert(n[i].start <= line <= n[i].end);
                } else {
                    assert(n[n.len() - 1].start <= line <= n[n.len() - 1].end);
                }
            }
        }
    }
}

/// Coalescing keeps exactly the changed lines: where every range holds at least one line, the
/// result covers the same lines, in order, with a gap between any two ranges.
pub proof fn law_coalesced_keeps_lines(s: Seq<LineRange>)
    requires
        proper_ranges(s),
    ensures
        forall|line: int| covers(coalesced(s), line) <==> covers(s, line),
        separated(coalesced(s)),
        proper_ranges(coalesced(s)),
{
    broadcast use vstd::seq_lib::group_to_multiset_ensures;

    lemma_sorted_ranges(s);
    let t = sorted_ranges(s);
    assert forall|i: int| 0 <= i < t.len() implies (#[trigger] t[i]).start <= t[i].end by {
        assert(t.to_multiset().count(t[i]) > 0);
        assert(s.contains(t[i]));
    }
    lemma_merged_ranges(t);
    assert forall|line: int| covers(t, line) <==> covers(s, line) by {
        if covers(t, line) {
            let i = choose|i: int| 0 <= i < t.len() && (#[trigger] t[i]).start <= line <= t[i].end;
            assert(t.to_multiset().count(t[i]) > 0);
            assert(s.contains(t[i]));
            let j = choose|j: int| 0 <= j < s.len() && s[j] == t[i];
            assert(s[j].start <= line <= s[j].end);
        }
        if covers(s, line) {
            let i = choose|i: int| 0 <= i < s.len() && (#[trigger] s[i]).start <= line <= s[i].end;
            assert(s.to_multiset().count(s[i]) > 0);
            assert(t.contains(s[i]));
            let j = choose|j: int| 0 <= j < t.len() && t[j] == s[i];
            assert(t[j].start <= line <= t[j].end);
        }
    }
}

} // verus!
