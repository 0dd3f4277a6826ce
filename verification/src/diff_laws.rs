//! Laws of reading a diff: what a printed diff is read back as.

use vstd::prelude::*;
use crate::diff;
use crate::diff::{DiffErrorView, DiffState, LineRange};
use crate::text;

verus! {

/// One side of a hunk header as git prints it: the count is left out where it is one.
pub open spec fn printed_side(sign: char, start: nat, count: Option<nat>) -> Seq<char> {
    match count {
        Some(n) => seq![sign] + text::decimal(start) + seq![','] + text::decimal(n),
        None => seq![sign] + text::decimal(start),
    }
}

/// A hunk header as git prints it, with the context that follows the second `@@`.
pub open spec fn printed_header(
    old_start: nat,
    old_count: Option<nat>,
    new_start: nat,
    new_count: Option<nat>,
    context: Seq<char>,
) -> Seq<char> {
    seq!['@', '@', ' '] + printed_side('-', old_start, old_count) + seq![' '] + printed_side('+', new_start, new_count)
        + seq![' ', '@', '@'] + context
}

/// How many lines a printed count stands for.
pub open spec fn counted(count: Option<nat>) -> nat {
    match count {
        Some(n) => n,
        None => 1,
    }
}

proof fn lemma_digits(n: nat)
    ensures
        forall|i: int|
            0 <= i < text::decimal(n).len() ==> (#[trigger] text::decimal(n)[i]) != ' ' && text::decimal(n)[i] != ','
                && text::decimal(n)[i] != '@' && !text::is_white(text::decimal(n)[i]),
        !text::decimal(n).contains(','),
{
    crate::text_laws::law_decimal_writes_digits(n);
    assert forall|i: int|
        0 <= i < text::decimal(n).len() implies (#[trigger] text::decimal(n)[i]) != ' ' && text::decimal(n)[i] != ','
        && text::decimal(n)[i] != '@' && !text::is_white(text::decimal(n)[i]) by {
        assert('0' <= text::decimal(n)[i] <= '9');
    }
}

proof fn lemma_printed_side(sign: char, start: nat, count: Option<nat>)
    requires
        sign == '-' || sign == '+',
        start <= i64::MAX,
        counted(count) <= i64::MAX,
    ensures
        diff::hunk_side(printed_side(sign, start, count), sign) == Some((start as int, counted(count) as int)),
        forall|i: int|
            0 <= i < printed_side(sign, start, count).len() ==> {
                &&& (#[trigger] printed_side(sign, start, count)[i]) != ' '
                &&& printed_side(sign, start, count)[i] != '@'
                &&& !text::is_white(printed_side(sign, start, count)[i])
            },
{
    let side = printed_side(sign, start, count);
    let a = text::decimal(start);
    lemma_digits(start);
    crate::text_laws::law_decimal_is_read_back(start);
    match count {
        Some(n) => {
            let b = text::decimal(n);
            lemma_digits(n);
            crate::text_laws::law_decimal_is_read_back(n);
            assert(side.drop_first() =~= a + seq![','] + b);
            crate::text_laws::law_cut_at_first(a, b, ',');
            assert forall|i: int| 0 <= i < side.len() implies {
                &&& (#[trigger] side[i]) != ' '
                &&& side[i] != '@'
                &&& !text::is_white(side[i])
            } by {
                if 1 <= i <= a.len() {
                    assert(side[i] == a[i - 1]);
                } else if i > a.len() + 1 {
                    assert(side[i] == b[i - a.len() - 2]);
                }
            }
        },
        None => {
            assert(side.drop_first() =~= a);
            crate::text_laws::law_cut_at_first(a, Seq::empty(), ',');
            assert forall|i: int| 0 <= i < side.len() implies {
                &&& (#[trigger] side[i]) != ' '
                &&& side[i] != '@'
                &&& !text::is_white(side[i])
            } by {
                if 1 <= i {
                    assert(side[i] == a[i - 1]);
                }
            }
        },
    }
}

proof fn lemma_header_words(old_side: Seq<char>, new_side: Seq<char>)
    requires
        old_side.len() > 0,
        new_side.len() > 0,
        forall|i: int| 0 <= i < old_side.len() ==> !text::is_white(#[trigger] old_side[i]),
        forall|i: int| 0 <= i < new_side.len() ==> !text::is_white(#[trigger] new_side[i]),
    ensures
        text::words(old_side + seq![' '] + new_side) == seq![old_side, new_side],
{
    crate::text_laws::law_words_are_apart(old_side, ' ', new_side);
    crate::text_laws::law_words_are_apart(new_side, ' ', Seq::empty());
    assert(seq![old_side] + seq![new_side] =~= seq![old_side, new_side]);
}

proof fn lemma_header_end(old_side: Seq<char>, new_side: Seq<char>, context: Seq<char>)
    requires
        new_side.len() > 0,
        forall|i: int| 0 <= i < old_side.len() ==> (#[trigger] old_side[i]) != ' ',
        forall|i: int| 0 <= i < new_side.len() ==> (#[trigger] new_side[i]) != ' ',
        new_side[0] != '@',
    ensures
        text::first_place(old_side + seq![' '] + new_side + seq![' ', '@', '@'] + context, " @@"@) == Some(
            (old_side.len() + 1 + new_side.len()) as int,
        ),
{
    let inner = old_side + seq![' '] + new_side + seq![' ', '@', '@'] + context;
    let n = old_side.len() as int;
    let k = n + 1 + new_side.len();
    assert forall|i: int| 0 <= i < k && #[trigger] inner[i] == ' ' implies inner[i + 1] != '@' by {
        if i < n {
            assert(inner[i] == old_side[i]);
        } else if i == n {
            assert(inner[i + 1] == new_side[0]);
        } else {
            assert(inner[i] == new_side[i - n - 1]);
        }
    }
    lemma_close(inner, k);
}

proof fn lemma_close(inner: Seq<char>, k: int)
    requires
        0 <= k,
        k + 3 <= inner.len(),
        inner[k] == ' ',
        inner[k + 1] == '@',
        inner[k + 2] == '@',
        forall|i: int| 0 <= i < k && #[trigger] inner[i] == ' ' ==> inner[i + 1] != '@',
    ensures
        text::first_place(inner, " @@"@) == Some(k),
{
    reveal_strlit(" @@");
    let close = " @@"@;
    assert(inner.subrange(k, k + 3) =~= close);
    crate::text_laws::law_first_place_is_first(inner, close, k);
    let f = text::first_place(inner, close)->0;
    let cut = inner.subrange(f, f + 3);
    assert(cut[0] == inner[f] && cut[1] == inner[f + 1]);
    assert(cut[0] == close[0] && cut[1] == close[1]);
}

/// A printed hunk header is read back: the old side is exactly the lines that it counts from its
/// start on, whatever the new side is; where it counts none it is the line that it starts at.
pub proof fn law_printed_header_is_read_back(
    old_start: nat,
    old_count: Option<nat>,
    new_start: nat,
    new_count: Option<nat>,
    context: Seq<char>,
)
    requires
        new_start <= i64::MAX,
        counted(old_count) <= i64::MAX,
        counted(new_count) <= i64::MAX,
        old_start <= i64::MAX,
        old_start + counted(old_count) - 1 <= i64::MAX,
    ensures
        ({
            let h = diff::hunk_header(printed_header(old_start, old_count, new_start, new_count, context));
            &&& h is Some
            &&& h->0.old_count == counted(old_count)
            &&& h->0.new_count == counted(new_count)
            &&& forall|line: int|
                #[trigger] crate::db_laws::on_line(h->0.old_range.start, h->0.old_range.end, line) <==> if counted(
                    old_count,
                ) >= 1 {
                    old_start <= line < old_start + counted(old_count)
                } else {
                    line == old_start
                }
            &&& h->0.old_range.start == old_start
            &&& counted(old_count) >= 1 ==> h->0.old_range.end == old_start + counted(old_count) - 1
            &&& counted(old_count) == 0 ==> h->0.old_range.end == old_start
        }),
{
    lemma_header(old_start, old_count, new_start, new_count, context);
}

proof fn lemma_header(
    old_start: nat,
    old_count: Option<nat>,
    new_start: nat,
    new_count: Option<nat>,
    context: Seq<char>,
)
    requires
        new_start <= i64::MAX,
        counted(old_count) <= i64::MAX,
        counted(new_count) <= i64::MAX,
        old_start <= i64::MAX,
    ensures
        diff::hunk_header(printed_header(old_start, old_count, new_start, new_count, context)) == diff::hunk_of(
            old_start as int,
            counted(old_count) as int,
            counted(new_count) as int,
        ),
{
    let a = printed_side('-', old_start, old_count);
    let b = printed_side('+', new_start, new_count);
    lemma_printed_side('-', old_start, old_count);
    lemma_printed_side('+', new_start, new_count);
    lemma_header_of_sides(
        a,
        b,
        context,
        (old_start as int, counted(old_count) as int),
        (new_start as int, counted(new_count) as int),
    );
    let line = printed_header(old_start, old_count, new_start, new_count, context);
    assert(line =~= seq!['@', '@', ' '] + (a + seq![' '] + b + seq![' ', '@', '@'] + context));
}

proof fn lemma_header_of_sides(a: Seq<char>, b: Seq<char>, context: Seq<char>, x: (int, int), y: (int, int))
    requires
        diff::hunk_side(a, '-') == Some(x),
        diff::hunk_side(b, '+') == Some(y),
        forall|i: int| 0 <= i < a.len() ==> (#[trigger] a[i]) != ' ' && !text::is_white(a[i]),
        forall|i: int| 0 <= i < b.len() ==> (#[trigger] b[i]) != ' ' && b[i] != '@' && !text::is_white(b[i]),
    ensures
        diff::hunk_header(seq!['@', '@', ' '] + (a + seq![' '] + b + seq![' ', '@', '@'] + context)) == diff::hunk_of(
            x.0,
            x.1,
            y.1,
        ),
{
    reveal_strlit("@@ ");
    let inner = a + seq![' '] + b + seq![' ', '@', '@'] + context;
    let line = seq!['@', '@', ' '] + inner;
    assert(a.len() > 0 && b.len() > 0);
    assert("@@ "@ =~= line.take(3));
    assert(line.skip(3) =~= inner);
    lemma_header_end(a, b, context);
    lemma_header_words(a, b);
    let k = (a.len() + 1 + b.len()) as int;
    assert(inner.take(k) =~= a + seq![' '] + b);
    let parts = text::words(inner.take(k));
    assert(parts[0] == a && parts[1] == b && parts.len() == 2);
}

/// A hunk as git prints it without context lines: the header, the lines taken away, the lines put in
/// their place.
pub struct PrintedHunk {
    pub old_start: nat,
    pub old_count: Option<nat>,
    pub new_start: nat,
    pub new_count: Option<nat>,
    pub context: Seq<char>,
    pub removed: Seq<Seq<u8>>,
    pub added: Seq<Seq<u8>>,
}

impl PrintedHunk {
    /// The numbers fit, and there are as many lines as they say.
    pub open spec fn is_sound(self) -> bool {
        &&& self.old_start <= i64::MAX
        &&& self.new_start <= i64::MAX
        &&& counted(self.old_count) <= i64::MAX
        &&& counted(self.new_count) <= i64::MAX
        &&& self.old_start + counted(self.old_count) - 1 <= i64::MAX
        &&& self.removed.len() == counted(self.old_count)
        &&& self.added.len() == counted(self.new_count)
        &&& forall|i: int| 0 <= i < self.removed.len() ==> (#[trigger] self.removed[i]).len() > 0 && self.removed[i][0] == 45u8
        &&& forall|i: int| 0 <= i < self.added.len() ==> (#[trigger] self.added[i]).len() > 0 && self.added[i][0] == 43u8
    }

    /// The lines of the old file that the hunk takes away, or the one that it adds behind.
    pub open spec fn changes(self, line: int) -> bool {
        if counted(self.old_count) >= 1 {
            self.old_start <= line < self.old_start + counted(self.old_count)
        } else {
            line == self.old_start
        }
    }

    /// The header line.
    pub open spec fn header(self) -> Seq<u8> {
        vstd::utf8::encode_utf8(
            printed_header(self.old_start, self.old_count, self.new_start, self.new_count, self.context),
        )
    }

    /// The lines of the hunk.
    pub open spec fn lines(self) -> Seq<Seq<u8>> {
        seq![self.header()] + self.removed + self.added
    }
}

/// What git prints for one file: lines about it, the line that names the old file (none for a file
/// that is new), more lines, and the hunks.
pub struct PrintedFile {
    pub above: Seq<Seq<u8>>,
    pub path: Option<Seq<char>>,
    pub below: Seq<Seq<u8>>,
    pub hunks: Seq<PrintedHunk>,
}

/// The line says nothing of a file or a hunk.
pub open spec fn is_other_line(line: Seq<u8>) -> bool {
    !seq![45u8, 45u8, 45u8, 32u8].is_prefix_of(line) && !seq![64u8, 64u8, 32u8].is_prefix_of(line)
}

/// The lines of the hunks.
pub open spec fn hunk_lines(hunks: Seq<PrintedHunk>) -> Seq<Seq<u8>>
    decreases hunks.len(),
{
    if hunks.len() == 0 {
        Seq::empty()
    } else {
        hunk_lines(hunks.drop_last()) + hunks.last().lines()
    }
}

impl PrintedFile {
    /// The path can be printed, and the hunks are sound.
    pub open spec fn is_sound(self) -> bool {
        &&& forall|i: int| 0 <= i < self.above.len() ==> is_other_line(#[trigger] self.above[i])
        &&& forall|i: int| 0 <= i < self.below.len() ==> is_other_line(#[trigger] self.below[i])
        &&& forall|i: int| 0 <= i < self.hunks.len() ==> (#[trigger] self.hunks[i]).is_sound()
        &&& self.path matches Some(path) ==> !path.contains('\t') && path != "/dev/null"@
    }

    /// The line that names the old file.
    pub open spec fn name_line(self) -> Seq<u8> {
        vstd::utf8::encode_utf8(
            "--- "@ + match self.path {
                Some(path) => "a/"@ + path,
                None => "/dev/null"@,
            },
        )
    }

    /// The lines of the file.
    pub open spec fn lines(self) -> Seq<Seq<u8>> {
        self.above + seq![self.name_line()] + self.below + hunk_lines(self.hunks)
    }

    /// Some hunk changes this line of `file`.
    pub open spec fn changes(self, file: Seq<char>, line: int) -> bool {
        self.path == Some(file) && exists|j: int| 0 <= j < self.hunks.len() && (#[trigger] self.hunks[j]).changes(line)
    }
}

/// The lines of the files.
pub open spec fn file_lines(files: Seq<PrintedFile>) -> Seq<Seq<u8>>
    decreases files.len(),
{
    if files.len() == 0 {
        Seq::empty()
    } else {
        file_lines(files.drop_last()) + files.last().lines()
    }
}

/// The bytes of lines, each ended by a newline.
pub open spec fn printed(lines: Seq<Seq<u8>>) -> Seq<u8>
    decreases lines.len(),
{
    if lines.len() == 0 {
        Seq::empty()
    } else {
        printed(lines.drop_last()) + lines.last() + seq![10u8]
    }
}

/// Between hunks.
spec fn is_idle(st: DiffState) -> bool {
    st.rem_old <= 0 && st.rem_new <= 0
}

/// What a text is encoded as is read back as the text.
pub proof fn lemma_encoded_is_readable(s: Seq<char>)
    ensures
        diff::readable_text(vstd::utf8::encode_utf8(s)) == s,
        diff::utf8_text(vstd::utf8::encode_utf8(s)) == Some(s),
{
    let v = vstd::utf8::encode_utf8(s);
    vstd::utf8::encode_utf8_valid_utf8(s);
    vstd::utf8::encode_utf8_decode_utf8(s);
    assert(v.take(v.len() as int) =~= v);
}

proof fn lemma_scan_step(lines: Seq<Seq<u8>>, line: Seq<u8>)
    requires
        diff::diff_scan(lines) is Ok,
    ensures
        diff::diff_scan(lines.push(line)) == diff::diff_step(diff::diff_scan(lines)->Ok_0, line),
{
    assert(lines.push(line).drop_last() =~= lines);
}

proof fn lemma_pass_over(lines: Seq<Seq<u8>>, more: Seq<Seq<u8>>, st: DiffState)
    requires
        diff::diff_scan(lines) == Ok::<DiffState, DiffErrorView>(st),
        is_idle(st),
        forall|i: int| 0 <= i < more.len() ==> is_other_line(#[trigger] more[i]),
    ensures
        diff::diff_scan(lines + more) == Ok::<DiffState, DiffErrorView>(st),
    decreases more.len(),
{
    if more.len() == 0 {
        assert(lines + more =~= lines);
    } else {
        let m0 = more.drop_last();
        assert forall|i: int| 0 <= i < m0.len() implies is_other_line(#[trigger] m0[i]) by {
            assert(m0[i] == more[i]);
        }
        lemma_pass_over(lines, m0, st);
        assert(is_other_line(more[more.len() - 1]));
        assert(lines + more =~= (lines + m0).push(more.last()));
        lemma_scan_step(lines + m0, more.last());
    }
}

proof fn lemma_removed(lines: Seq<Seq<u8>>, removed: Seq<Seq<u8>>, st: DiffState)
    requires
        diff::diff_scan(lines) == Ok::<DiffState, DiffErrorView>(st),
        removed.len() <= st.rem_old || removed.len() == 0,
        forall|i: int| 0 <= i < removed.len() ==> (#[trigger] removed[i]).len() > 0 && removed[i][0] == 45u8,
    ensures
        diff::diff_scan(lines + removed) == Ok::<DiffState, DiffErrorView>(
            DiffState { rem_old: st.rem_old - removed.len(), ..st },
        ),
    decreases removed.len(),
{
    if removed.len() == 0 {
        assert(lines + removed =~= lines);
    } else {
        let r0 = removed.drop_last();
        assert forall|i: int| 0 <= i < r0.len() implies (#[trigger] r0[i]).len() > 0 && r0[i][0] == 45u8 by {
            assert(r0[i] == removed[i]);
        }
        lemma_removed(lines, r0, st);
        assert(removed[removed.len() - 1] == removed.last());
        assert(lines + removed =~= (lines + r0).push(removed.last()));
        lemma_scan_step(lines + r0, removed.last());
    }
}

proof fn lemma_added(lines: Seq<Seq<u8>>, added: Seq<Seq<u8>>, st: DiffState)
    requires
        diff::diff_scan(lines) == Ok::<DiffState, DiffErrorView>(st),
        added.len() <= st.rem_new || added.len() == 0,
        forall|i: int| 0 <= i < added.len() ==> (#[trigger] added[i]).len() > 0 && added[i][0] == 43u8,
    ensures
        diff::diff_scan(lines + added) == Ok::<DiffState, DiffErrorView>(
            DiffState { rem_new: st.rem_new - added.len(), ..st },
        ),
    decreases added.len(),
{
    if added.len() == 0 {
        assert(lines + added =~= lines);
    } else {
        let r0 = added.drop_last();
        assert forall|i: int| 0 <= i < r0.len() implies (#[trigger] r0[i]).len() > 0 && r0[i][0] == 43u8 by {
            assert(r0[i] == added[i]);
        }
        lemma_added(lines, r0, st);
        assert(added[added.len() - 1] == added.last());
        assert(lines + added =~= (lines + r0).push(added.last()));
        lemma_scan_step(lines + r0, added.last());
    }
}

proof fn lemma_header_mark(h: PrintedHunk)
    ensures
        diff::hunk_mark().is_prefix_of(h.header()),
        !diff::file_mark().is_prefix_of(h.header()),
{
    let text = printed_header(h.old_start, h.old_count, h.new_start, h.new_count, h.context);
    let c = text.skip(3);
    let b = seq![' '] + c;
    let a = seq!['@'] + b;
    assert(text =~= seq!['@'] + a);
    crate::text_laws::lemma_plain_head('@', a);
    crate::text_laws::lemma_plain_head('@', b);
    crate::text_laws::lemma_plain_head(' ', c);
    let v = h.header();
    assert(v[0] == 64u8 && v[1] == 64u8 && v[2] == 32u8);
    assert(diff::hunk_mark() =~= v.take(3));
    if diff::file_mark().is_prefix_of(v) {
        assert(v.take(4)[0] == diff::file_mark()[0]);
    }
}

/// The range of a hunk.
spec fn range_of(h: PrintedHunk) -> LineRange {
    LineRange {
        start: h.old_start as i64,
        end: if counted(h.old_count) >= 1 {
            (h.old_start + counted(h.old_count) - 1) as i64
        } else {
            h.old_start as i64
        },
    }
}

proof fn lemma_hunk(lines: Seq<Seq<u8>>, h: PrintedHunk, st: DiffState)
    requires
        diff::diff_scan(lines) == Ok::<DiffState, DiffErrorView>(st),
        is_idle(st),
        h.is_sound(),
    ensures
        ({
            let after = diff::diff_scan(lines + h.lines());
            &&& after is Ok
            &&& is_idle(after->Ok_0)
            &&& after->Ok_0.file == st.file
            &&& after->Ok_0.ranges == match st.file {
                Some(file) => if file == "/dev/null"@ {
                    st.ranges
                } else {
                    diff::with_range(st.ranges, file, range_of(h))
                },
                None => st.ranges,
            }
        }),
{
    let text = printed_header(h.old_start, h.old_count, h.new_start, h.new_count, h.context);
    lemma_header_mark(h);
    lemma_encoded_is_readable(text);
    law_printed_header_is_read_back(h.old_start, h.old_count, h.new_start, h.new_count, h.context);
    let opened = lines.push(h.header());
    lemma_scan_step(lines, h.header());
    let s1 = diff::diff_scan(opened)->Ok_0;
    assert(diff::hunk_header(text)->0.old_range == range_of(h));
    lemma_removed(opened, h.removed, s1);
    let s2 = diff::diff_scan(opened + h.removed)->Ok_0;
    lemma_added(opened + h.removed, h.added, s2);
    assert(lines + h.lines() =~= opened + h.removed + h.added);
}

proof fn lemma_named_file(lines: Seq<Seq<u8>>, f: PrintedFile, st: DiffState)
    requires
        diff::diff_scan(lines) == Ok::<DiffState, DiffErrorView>(st),
        is_idle(st),
        f.is_sound(),
    ensures
        diff::diff_scan(lines.push(f.name_line())) == Ok::<DiffState, DiffErrorView>(
            DiffState {
                file: Some(
                    match f.path {
                        Some(path) => path,
                        None => "/dev/null"@,
                    },
                ),
                ..st
            },
        ),
{
    reveal_strlit("--- ");
    reveal_strlit("a/");
    reveal_strlit("/dev/null");
    let named = match f.path {
        Some(path) => "a/"@ + path,
        None => "/dev/null"@,
    };
    let text = "--- "@ + named;
    let d = seq![' '] + named;
    let c = seq!['-'] + d;
    let b = seq!['-'] + c;
    assert(text =~= seq!['-'] + b);
    crate::text_laws::lemma_plain_head('-', b);
    crate::text_laws::lemma_plain_head('-', c);
    crate::text_laws::lemma_plain_head('-', d);
    crate::text_laws::lemma_plain_head(' ', named);
    let v = f.name_line();
    assert(v[0] == 45u8 && v[1] == 45u8 && v[2] == 45u8 && v[3] == 32u8);
    assert(diff::file_mark() =~= v.take(4));
    assert(v.skip(4) =~= vstd::utf8::encode_utf8(named));
    lemma_encoded_is_readable(named);
    assert(!named.contains('\t')) by {
        if named.contains('\t') {
            let i = choose|i: int| 0 <= i < named.len() && named[i] == '\t';
            match f.path {
                Some(path) => {
                    if i >= 2 {
                        assert(path[i - 2] == '\t');
                    }
                },
                None => {},
            }
        }
    }
    crate::text_laws::law_pieces_are_separated(named, Seq::empty(), '\t');
    match f.path {
        Some(path) => {
            assert(named[0] == 'a');
            assert("/dev/null"@[0] == '/');
            assert("a/"@ =~= named.take(2));
            assert(named.skip(2) =~= path);
        },
        None => {},
    }
    lemma_scan_step(lines, v);
}

proof fn lemma_hunks(lines: Seq<Seq<u8>>, hunks: Seq<PrintedHunk>, st: DiffState)
    requires
        diff::diff_scan(lines) == Ok::<DiffState, DiffErrorView>(st),
        is_idle(st),
        forall|i: int| 0 <= i < hunks.len() ==> (#[trigger] hunks[i]).is_sound(),
    ensures
        ({
            let after = diff::diff_scan(lines + hunk_lines(hunks));
            &&& after is Ok
            &&& is_idle(after->Ok_0)
            &&& after->Ok_0.file == st.file
            &&& st.file is None || st.file == Some("/dev/null"@) ==> after->Ok_0.ranges == st.ranges
            &&& st.file is Some && st.file != Some("/dev/null"@) ==> {
                let file = st.file->0;
                let old_list = if st.ranges.contains_key(file) {
                    st.ranges[file]
                } else {
                    Seq::empty()
                };
                &&& hunks.len() > 0 ==> after->Ok_0.ranges == st.ranges.insert(
                    file,
                    old_list + hunks.map_values(|h: PrintedHunk| range_of(h)),
                )
                &&& hunks.len() == 0 ==> after->Ok_0.ranges == st.ranges
            }
        }),
    decreases hunks.len(),
{
    if hunks.len() == 0 {
        assert(lines + hunk_lines(hunks) =~= lines);
    } else {
        let h0 = hunks.drop_last();
        assert forall|i: int| 0 <= i < h0.len() implies (#[trigger] h0[i]).is_sound() by {
            assert(h0[i] == hunks[i]);
        }
        lemma_hunks(lines, h0, st);
        let l0 = lines + hunk_lines(h0);
        let s0 = diff::diff_scan(l0)->Ok_0;
        assert(hunks[hunks.len() - 1] == hunks.last());
        lemma_hunk(l0, hunks.last(), s0);
        assert(lines + hunk_lines(hunks) =~= l0 + hunks.last().lines());
        let after = diff::diff_scan(lines + hunk_lines(hunks))->Ok_0;
        if st.file is Some && st.file != Some("/dev/null"@) {
            let file = st.file->0;
            let g = |h: PrintedHunk| range_of(h);
            let old_list = if st.ranges.contains_key(file) {
                st.ranges[file]
            } else {
                Seq::empty()
            };
            assert(old_list + hunks.map_values(g) =~= (old_list + h0.map_values(g)).push(range_of(hunks.last())));
            if h0.len() == 0 {
                assert(old_list + h0.map_values(g) =~= old_list);
            }
            assert(after.ranges =~= st.ranges.insert(file, old_list + hunks.map_values(g)));
        }
    }
}

/// Some file of the diff has a hunk that changes this line.
pub open spec fn some_file_changes(files: Seq<PrintedFile>, file: Seq<char>, line: int) -> bool {
    exists|i: int| 0 <= i < files.len() && (#[trigger] files[i]).changes(file, line)
}

/// The ranges found so far hold this line of `file`.
spec fn holds(ranges: Map<Seq<char>, Seq<LineRange>>, file: Seq<char>, line: int) -> bool {
    ranges.contains_key(file) && diff::covers(ranges[file], line)
}

spec fn all_proper(ranges: Map<Seq<char>, Seq<LineRange>>) -> bool {
    forall|f: Seq<char>| #[trigger] ranges.contains_key(f) ==> diff::proper_ranges(ranges[f])
}

proof fn lemma_range_of(h: PrintedHunk, line: int)
    requires
        h.is_sound(),
    ensures
        range_of(h).start <= line <= range_of(h).end <==> h.changes(line),
        range_of(h).start <= range_of(h).end,
{
}

proof fn lemma_more_ranges(old_list: Seq<LineRange>, hunks: Seq<PrintedHunk>, line: int)
    requires
        forall|i: int| 0 <= i < hunks.len() ==> (#[trigger] hunks[i]).is_sound(),
        diff::proper_ranges(old_list),
    ensures
        ({
            let all = old_list + hunks.map_values(|h: PrintedHunk| range_of(h));
            &&& diff::covers(all, line) <==> diff::covers(old_list, line) || exists|j: int|
                0 <= j < hunks.len() && (#[trigger] hunks[j]).changes(line)
            &&& diff::proper_ranges(all)
        }),
{
    let g = |h: PrintedHunk| range_of(h);
    let more = hunks.map_values(g);
    let all = old_list + more;
    let n = old_list.len() as int;
    if diff::covers(all, line) {
        let i = choose|i: int| 0 <= i < all.len() && (#[trigger] all[i]).start <= line <= all[i].end;
        if i < n {
            assert(old_list[i].start <= line <= old_list[i].end);
        } else {
            assert(all[i] == range_of(hunks[i - n]));
            lemma_range_of(hunks[i - n], line);
        }
    }
    if diff::covers(old_list, line) {
        let i = choose|i: int| 0 <= i < n && (#[trigger] old_list[i]).start <= line <= old_list[i].end;
        assert(all[i].start <= line <= all[i].end);
    }
    if exists|j: int| 0 <= j < hunks.len() && (#[trigger] hunks[j]).changes(line) {
        let j = choose|j: int| 0 <= j < hunks.len() && (#[trigger] hunks[j]).changes(line);
        lemma_range_of(hunks[j], line);
        assert(all[n + j] == range_of(hunks[j]));
        assert(all[n + j].start <= line <= all[n + j].end);
    }
    assert forall|i: int| 0 <= i < all.len() implies (#[trigger] all[i]).start <= all[i].end by {
        if i < n {
            assert(all[i] == old_list[i]);
        } else {
            assert(all[i] == range_of(hunks[i - n]));
            lemma_range_of(hunks[i - n], line);
        }
    }
}

proof fn lemma_files(files: Seq<PrintedFile>)
    requires
        forall|i: int| 0 <= i < files.len() ==> (#[trigger] files[i]).is_sound(),
    ensures
        ({
            let after = diff::diff_scan(file_lines(files));
            &&& after is Ok
            &&& is_idle(after->Ok_0)
            &&& all_proper(after->Ok_0.ranges)
            &&& forall|file: Seq<char>, line: int|
                #[trigger] holds(after->Ok_0.ranges, file, line) <==> some_file_changes(files, file, line)
        }),
    decreases files.len(),
{
    if files.len() > 0 {
        let f0 = files.drop_last();
        let f = files.last();
        assert forall|i: int| 0 <= i < f0.len() implies (#[trigger] f0[i]).is_sound() by {
            assert(f0[i] == files[i]);
        }
        assert(files[files.len() - 1] == f);
        lemma_files(f0);
        let l0 = file_lines(f0);
        let s0 = diff::diff_scan(l0)->Ok_0;
        let l1 = l0 + f.above;
        lemma_pass_over(l0, f.above, s0);
        let l2 = l1.push(f.name_line());
        lemma_named_file(l1, f, s0);
        let s2 = diff::diff_scan(l2)->Ok_0;
        let l3 = l2 + f.below;
        lemma_pass_over(l2, f.below, s2);
        lemma_hunks(l3, f.hunks, s2);
        assert(file_lines(files) =~= l3 + hunk_lines(f.hunks));
        let after = diff::diff_scan(file_lines(files))->Ok_0;
        let named = s2.file->0;
        let old_list = if s0.ranges.contains_key(named) {
            s0.ranges[named]
        } else {
            Seq::empty()
        };
        assert(diff::proper_ranges(old_list));
        assert forall|file: Seq<char>, line: int|
            #[trigger] holds(after.ranges, file, line) <==> some_file_changes(files, file, line) by {
            lemma_more_ranges(old_list, f.hunks, line);
            assert(some_file_changes(files, file, line) <==> some_file_changes(f0, file, line) || f.changes(file, line)) by {
                if some_file_changes(files, file, line) {
                    let i = choose|i: int| 0 <= i < files.len() && (#[trigger] files[i]).changes(file, line);
                    if i < f0.len() {
                        assert(f0[i] == files[i]);
                    }
                }
                if some_file_changes(f0, file, line) {
                    let i = choose|i: int| 0 <= i < f0.len() && (#[trigger] f0[i]).changes(file, line);
                    assert(files[i] == f0[i]);
                }
            }
            assert(holds(s0.ranges, file, line) <==> some_file_changes(f0, file, line));
        }
        assert forall|k: Seq<char>| #[trigger] after.ranges.contains_key(k) implies diff::proper_ranges(
            after.ranges[k],
        ) by {
            lemma_more_ranges(old_list, f.hunks, 0);
        }
    }
}

proof fn lemma_printed_pieces(lines: Seq<Seq<u8>>)
    requires
        forall|i: int| 0 <= i < lines.len() ==> !(#[trigger] lines[i]).contains(10u8),
    ensures
        text::pieces(printed(lines), 10u8) == lines.push(Seq::empty()),
    decreases lines.len(),
{
    if lines.len() == 0 {
        assert(text::pieces(printed(lines), 10u8) =~= lines.push(Seq::<u8>::empty()));
    } else {
        let l0 = lines.drop_last();
        let last = lines.last();
        assert forall|i: int| 0 <= i < l0.len() implies !(#[trigger] l0[i]).contains(10u8) by {
            assert(l0[i] == lines[i]);
        }
        assert(lines[lines.len() - 1] == last);
        lemma_printed_pieces(l0);
        let a = printed(l0);
        let none = Seq::<u8>::empty();
        assert(printed(lines) =~= (a + last) + seq![10u8] + none);
        crate::text_laws::law_pieces_are_separated(a + last, none, 10u8);
        crate::text_laws::law_pieces_are_separated(last, none, 10u8);
        lemma_line_under_way(a, last, l0);
        assert(text::pieces(none, 10u8) =~= seq![none]);
        assert(l0.push(last) =~= lines);
        assert(lines + seq![none] =~= lines.push(none));
    }
}

proof fn lemma_line_under_way(a: Seq<u8>, last: Seq<u8>, l0: Seq<Seq<u8>>)
    requires
        text::pieces(a, 10u8) == l0.push(Seq::<u8>::empty()),
        !last.contains(10u8),
    ensures
        text::pieces(a + last, 10u8) == l0.push(last),
    decreases last.len(),
{
    if last.len() == 0 {
        assert(a + last =~= a);
        assert(last =~= Seq::<u8>::empty());
    } else {
        let t = last.drop_last();
        assert(!t.contains(10u8)) by {
            if t.contains(10u8) {
                let i = choose|i: int| 0 <= i < t.len() && t[i] == 10u8;
                assert(last[i] == 10u8);
            }
        }
        assert(last[last.len() - 1] == last.last());
        lemma_line_under_way(a, t, l0);
        assert((a + last).drop_last() =~= a + t);
        assert(t.push(last.last()) =~= last);
        assert(text::pieces(a + last, 10u8) =~= l0.push(last));
    }
}

/// A printed diff is read back: a line of a file is in the ranges of the file exactly where some hunk
/// of the file changes it, and the ranges of each file stand in order with a gap between any two.
/// Lines taken away or put in are content whatever they hold, and a new file has no lines that could
/// have changed.
pub proof fn law_printed_diff_is_read_back(files: Seq<PrintedFile>)
    requires
        forall|i: int| 0 <= i < files.len() ==> (#[trigger] files[i]).is_sound(),
        forall|i: int| 0 <= i < file_lines(files).len() ==> !(#[trigger] file_lines(files)[i]).contains(10u8),
    ensures
        ({
            let read = diff::unified_diff(printed(file_lines(files)));
            &&& read is Ok
            &&& forall|file: Seq<char>, line: int|
                #![trigger some_file_changes(files, file, line)]
                some_file_changes(files, file, line) <==> read->Ok_0.contains_key(file) && exists|k: int|
                    0 <= k < read->Ok_0[file].len() && (#[trigger] read->Ok_0[file][k]).start <= line
                        <= read->Ok_0[file][k].end
            &&& forall|file: Seq<char>, j: int, k: int|
                #![trigger read->Ok_0[file][j], read->Ok_0[file][k]]
                read->Ok_0.contains_key(file) && 0 <= j < k < read->Ok_0[file].len() ==> read->Ok_0[file][j].end + 1
                    < read->Ok_0[file][k].start
        }),
{
    let lines = file_lines(files);
    lemma_files(files);
    lemma_printed_pieces(lines);
    let st = diff::diff_scan(lines)->Ok_0;
    lemma_scan_step(lines, Seq::empty());
    let none = Seq::<u8>::empty();
    assert(!diff::file_mark().is_prefix_of(none) && !diff::hunk_mark().is_prefix_of(none));
    let read = diff::unified_diff(printed(lines));
    assert(read == Ok::<Map<Seq<char>, Seq<LineRange>>, DiffErrorView>(diff::coalesced_files(st.ranges)));
    let m = read->Ok_0;
    assert forall|file: Seq<char>, line: int|
        #![trigger some_file_changes(files, file, line)]
        some_file_changes(files, file, line) <==> m.contains_key(file) && exists|k: int|
            0 <= k < m[file].len() && (#[trigger] m[file][k]).start <= line <= m[file][k].end by {
        assert(holds(st.ranges, file, line) <==> some_file_changes(files, file, line));
        if st.ranges.contains_key(file) {
            diff::law_coalesced_keeps_lines(st.ranges[file]);
            assert(diff::covers(m[file], line) <==> diff::covers(st.ranges[file], line));
        }
    }
    assert forall|file: Seq<char>, j: int, k: int|
        #![trigger m[file][j], m[file][k]]
        m.contains_key(file) && 0 <= j < k < m[file].len() implies m[file][j].end + 1 < m[file][k].start by {
        diff::law_coalesced_keeps_lines(st.ranges[file]);
    }
}

/// A line that says that the file does not end in a newline counts neither as taken away nor as put
/// in, and a hunk that owes lines takes no other line for content.
pub proof fn law_content_lines(st: DiffState, line: Seq<u8>)
    requires
        st.rem_old > 0 || st.rem_new > 0,
    ensures
        line.len() > 0 && line[0] == 92u8 ==> diff::diff_step(st, line) == Ok::<DiffState, DiffErrorView>(st),
        diff::diff_step(st, line) is Err <==> line.len() == 0 || (line[0] != 45u8 && line[0] != 43u8 && line[0]
            != 92u8),
{
}

} // verus!
