//! Environment fingerprinting.
//!
//! A fingerprint is a hash of every input that would globally invalidate stored coverage:
//! `Cargo.lock`, all manifests of the workspace, the compiler version and the build flags of the
//! environment. It is stored beside every row, so a query under another fingerprint finds nothing.
//!
//! The `metadata` tables of a manifest are left out: cargo never reads them for the build, and one
//! of them holds the input rules of this tool, which must be editable without losing coverage.

use vstd::prelude::*;
use crate::diff::decode_text;
use crate::paths::{strip_base, to_db_relative};

verus! {

/// A single named input contributing to the composite fingerprint.
#[derive(Debug, Clone, PartialEq, Eq)]
pub struct FingerprintComponent {
    /// Stable label (`cargo_lock`, `manifest:Cargo.toml`, `rustc`, `RUSTFLAGS`,
    /// `CARGO_BUILD_TARGET`).
    pub label: String,
    /// SHA-256 hex digest of this component's bytes alone.
    pub hash: String,
}

impl View for FingerprintComponent {
    type V = (Seq<char>, Seq<char>);

    open spec fn view(&self) -> (Seq<char>, Seq<char>) {
        (self.label@, self.hash@)
    }
}

impl DeepView for FingerprintComponent {
    type V = (Seq<char>, Seq<char>);

    open spec fn deep_view(&self) -> (Seq<char>, Seq<char>) {
        self@
    }
}

/// A copy of components.
pub fn copy_components(components: &Vec<FingerprintComponent>) -> (r: Vec<FingerprintComponent>)
    ensures
        r.deep_view() == components.deep_view(),
{
    let ghost d = components.deep_view();
    let mut out: Vec<FingerprintComponent> = Vec::new();
    let mut i: usize = 0;
    assert(out.deep_view() =~= d.take(0));
    while i < components.len()
        invariant
            i <= components.len(),
            d == components.deep_view(),
            out.deep_view() == d.take(i as int),
        decreases components.len() - i,
    {
        let ghost before = out.deep_view();
        assert(d[i as int] == components@[i as int]@);
        out.push(FingerprintComponent { label: components[i].label.clone(), hash: components[i].hash.clone() });
        assert(out.deep_view() =~= before.push(d[i as int]));
        assert(d.take(i + 1) =~= d.take(i as int).push(d[i as int]));
        i += 1;
    }
    assert(d.take(i as int) =~= d);
    out
}

/// Composite fingerprint plus the per-component hashes that produced it.
#[derive(Debug, Clone, PartialEq, Eq)]
pub struct Fingerprint {
    /// Composite SHA-256 hex digest.
    pub hex: String,
    /// Per-component hashes, in the order in which they went into `hex`.
    pub components: Vec<FingerprintComponent>,
}

/// The SHA-256 digest of bytes.
pub uninterp spec fn sha256_of(bytes: Seq<u8>) -> Seq<u8>;

/// `sha2::Sha256::digest`: the SHA-256 digest of the bytes, which is 32 bytes long.
#[verifier::external_body]
fn sha256(bytes: &[u8]) -> (r: Vec<u8>)
    ensures
        r@ == sha256_of(bytes@),
        r@.len() == 32,
{
    <sha2::Sha256 as sha2::Digest>::digest(bytes).to_vec()
}

/// A lower-case hexadecimal digit.
pub open spec fn hex_digit_of(d: int) -> char {
    if d < 10 {
        (48 + d) as char
    } else {
        (87 + d) as char
    }
}

/// Bytes in lower-case hexadecimal, two digits each.
pub open spec fn hex_of(bytes: Seq<u8>) -> Seq<char>
    decreases bytes.len(),
{
    if bytes.len() == 0 {
        Seq::empty()
    } else {
        hex_of(bytes.drop_last()).push(hex_digit_of(bytes.last() as int / 16)).push(
            hex_digit_of(bytes.last() as int % 16),
        )
    }
}

/// A lower-case hexadecimal digit.
fn hex_digit(d: u8) -> (r: char)
    requires
        d < 16,
    ensures
        r == hex_digit_of(d as int),
{
    if d < 10 {
        (48 + d) as char
    } else {
        (87 + d) as char
    }
}

/// Writes bytes in lower-case hexadecimal.
pub fn hex(bytes: &[u8]) -> (r: String)
    ensures
        r@ == hex_of(bytes@),
{
    let mut s = String::new();
    let mut i: usize = 0;
    assert(bytes@.take(0) =~= Seq::<u8>::empty());
    while i < bytes.len()
        invariant
            i <= bytes.len(),
            s@ == hex_of(bytes@.take(i as int)),
        decreases bytes.len() - i,
    {
        assert(bytes@.take(i + 1).drop_last() =~= bytes@.take(i as int));
        let b = bytes[i];
        s.push(hex_digit(b / 16));
        s.push(hex_digit(b % 16));
        i += 1;
    }
    assert(bytes@.take(i as int) =~= bytes@);
    s
}

/// The hexadecimal form of bytes is twice as long and tells any two byte strings apart.
pub proof fn law_hex_is_faithful(a: Seq<u8>, b: Seq<u8>)
    ensures
        hex_of(a).len() == 2 * a.len(),
        hex_of(a) == hex_of(b) ==> a == b,
    decreases a.len(),
{
    if a.len() > 0 {
        law_hex_is_faithful(a.drop_last(), if b.len() > 0 {
            b.drop_last()
        } else {
            b
        });
    }
    lemma_hex_len(b);
    lemma_hex_len(a);
    if hex_of(a) == hex_of(b) {
        assert(a.len() == b.len());
        if a.len() > 0 {
            let x = hex_of(a);
            let y = hex_of(b);
            let x0 = hex_of(a.drop_last());
            let y0 = hex_of(b.drop_last());
            lemma_hex_len(a.drop_last());
            lemma_hex_len(b.drop_last());
            assert(x.take(x0.len() as int) =~= x0);
            assert(y.take(y0.len() as int) =~= y0);
            assert(x[x0.len() as int] == y[y0.len() as int]);
            assert(x[x0.len() as int + 1] == y[y0.len() as int + 1]);
            assert(a.last() as int / 16 == b.last() as int / 16);
            assert(a.last() as int % 16 == b.last() as int % 16);
            assert(a.last() == b.last());
            assert(a =~= a.drop_last().push(a.last()));
            assert(b =~= b.drop_last().push(b.last()));
        } else {
            assert(a =~= b);
        }
    }
}

proof fn lemma_hex_len(a: Seq<u8>)
    ensures
        hex_of(a).len() == 2 * a.len(),
    decreases a.len(),
{
    if a.len() > 0 {
        lemma_hex_len(a.drop_last());
    }
}

/// The SHA-256 hex digest of bytes.
pub open spec fn hash_of(bytes: Seq<u8>) -> Seq<char> {
    hex_of(sha256_of(bytes))
}

/// The SHA-256 hex digest of one component, without its label.
pub fn hash_one(bytes: &[u8]) -> (r: String)
    ensures
        r@ == hash_of(bytes@),
        r@.len() == 64,
{
    let digest = sha256(bytes);
    proof {
        lemma_hex_len(digest@);
    }
    hex(digest.as_slice())
}

/// The value of labelled inputs.
pub open spec fn inputs_view(inputs: Seq<(String, Vec<u8>)>) -> Seq<(Seq<char>, Seq<u8>)> {
    inputs.map_values(|e: (String, Vec<u8>)| (e.0@, e.1@))
}

/// The inputs in one byte string: each one as its label, a colon, its bytes and a NUL.
pub open spec fn framed(inputs: Seq<(Seq<char>, Seq<u8>)>) -> Seq<u8>
    decreases inputs.len(),
{
    if inputs.len() == 0 {
        Seq::empty()
    } else {
        framed(inputs.drop_last()) + vstd::utf8::encode_utf8(inputs.last().0) + seq![58u8] + inputs.last().1
            + seq![0u8]
    }
}

/// The label and the hash of each input.
pub open spec fn components_of(inputs: Seq<(Seq<char>, Seq<u8>)>) -> Seq<(Seq<char>, Seq<char>)> {
    inputs.map_values(|e: (Seq<char>, Seq<u8>)| (e.0, hash_of(e.1)))
}

/// Appends bytes.
fn append_bytes(out: &mut Vec<u8>, bytes: &[u8])
    ensures
        final(out)@ == old(out)@ + bytes@,
{
    let ghost start = out@;
    let mut i: usize = 0;
    assert(start + bytes@.take(0) =~= start);
    while i < bytes.len()
        invariant
            i <= bytes.len(),
            out@ == start + bytes@.take(i as int),
        decreases bytes.len() - i,
    {
        out.push(bytes[i]);
        assert(out@ =~= start + bytes@.take(i + 1));
        i += 1;
    }
    assert(bytes@.take(i as int) =~= bytes@);
}

/// The fingerprint of labelled inputs. The composite and the components are derived from the same
/// bytes, so they cannot diverge.
pub fn compute(inputs: &Vec<(String, Vec<u8>)>) -> (r: Fingerprint)
    ensures
        r.hex@ == hash_of(framed(inputs_view(inputs@))),
        r.components.deep_view() == components_of(inputs_view(inputs@)),
        r.hex@.len() == 64,
{
    let ghost d = inputs_view(inputs@);
    let mut all: Vec<u8> = Vec::new();
    let mut components: Vec<FingerprintComponent> = Vec::new();
    let mut i: usize = 0;
    assert(d.take(0) =~= Seq::<(Seq<char>, Seq<u8>)>::empty());
    assert(components.deep_view() =~= components_of(d.take(0)));
    while i < inputs.len()
        invariant
            i <= inputs.len(),
            d == inputs_view(inputs@),
            all@ == framed(d.take(i as int)),
            components.deep_view() == components_of(d.take(i as int)),
        decreases inputs.len() - i,
    {
        let ghost before = components.deep_view();
        assert(d[i as int] == (inputs@[i as int].0@, inputs@[i as int].1@));
        assert(d.take(i + 1).drop_last() =~= d.take(i as int));
        append_bytes(&mut all, inputs[i].0.as_str().as_bytes());
        all.push(58);
        append_bytes(&mut all, inputs[i].1.as_slice());
        all.push(0);
        assert(all@ =~= framed(d.take(i + 1)));
        let hash = hash_one(inputs[i].1.as_slice());
        components.push(FingerprintComponent { label: inputs[i].0.clone(), hash });
        assert(components.deep_view() =~= before.push((d[i as int].0, hash_of(d[i as int].1))));
        assert(components.deep_view() =~= components_of(d.take(i + 1)));
        i += 1;
    }
    assert(d.take(i as int) =~= d);
    Fingerprint { hex: hash_one(all.as_slice()), components }
}

/// Whether two lists of inputs carry the same labels.
pub open spec fn same_labels(a: Seq<(Seq<char>, Seq<u8>)>, b: Seq<(Seq<char>, Seq<u8>)>) -> bool {
    a.len() == b.len() && forall|i: int| 0 <= i < a.len() ==> (#[trigger] a[i]).0 == b[i].0
}

/// Whether the bytes of no input contain a NUL.
pub open spec fn without_nul(inputs: Seq<(Seq<char>, Seq<u8>)>) -> bool {
    forall|i: int| 0 <= i < inputs.len() ==> !(#[trigger] inputs[i]).1.contains(0u8)
}

/// The frame of the last input ends where its bytes end.
proof fn lemma_frames_align(a: Seq<u8>, x: Seq<u8>, b: Seq<u8>, y: Seq<u8>, label: Seq<u8>)
    requires
        a + label + seq![58u8] + x + seq![0u8] == b + label + seq![58u8] + y + seq![0u8],
        !x.contains(0u8),
        !y.contains(0u8),
        x.len() <= y.len(),
        a.len() > 0 ==> a.last() == 0u8,
        b.len() > 0 ==> b.last() == 0u8,
        !label.contains(0u8),
    ensures
        x.len() == y.len(),
{
    let p = a + label + seq![58u8] + x + seq![0u8];
    let q = b + label + seq![58u8] + y + seq![0u8];
    assert(p.len() == a.len() + label.len() + 1 + x.len() + 1);
    assert(q.len() == b.len() + label.len() + 1 + y.len() + 1);
    if x.len() < y.len() {
        // The NUL before the frame of `x` falls inside the frame of `y`.
        assert(a.len() > b.len());
        let i = a.len() - 1;
        assert(p[i] == a[i]);
        assert(a[i] == 0u8);
        let k = i - b.len();
        assert(0 <= k < label.len() + 1 + y.len());
        if k < label.len() {
            assert(q[i] == label[k]);
            assert(label.contains(label[k]));
        } else if k == label.len() {
            assert(q[i] == 58u8);
        } else {
            assert(q[i] == y[k - label.len() - 1]);
            assert(y.contains(y[k - label.len() - 1]));
        }
    }
}

/// Inputs under the same labels are told apart by their frames: two environments whose framed
/// inputs agree agree in every input. Bytes or labels with a NUL in them are left out, since a NUL
/// ends a frame.
pub proof fn law_frames_tell_inputs_apart(a: Seq<(Seq<char>, Seq<u8>)>, b: Seq<(Seq<char>, Seq<u8>)>)
    requires
        same_labels(a, b),
        without_nul(a),
        without_nul(b),
        forall|i: int| 0 <= i < a.len() ==> !vstd::utf8::encode_utf8((#[trigger] a[i]).0).contains(0u8),
        framed(a) == framed(b),
    ensures
        a == b,
    decreases a.len(),
{
    if a.len() == 0 {
        assert(a =~= b);
    } else {
        let a0 = a.drop_last();
        let b0 = b.drop_last();
        let label = vstd::utf8::encode_utf8(a.last().0);
        assert(a[a.len() - 1].0 == b[a.len() - 1].0);
        assert(a[a.len() - 1] == a.last() && b[b.len() - 1] == b.last());
        let x = a.last().1;
        let y = b.last().1;
        lemma_framed_ends(a0);
        lemma_framed_ends(b0);
        if x.len() <= y.len() {
            lemma_frames_align(framed(a0), x, framed(b0), y, label);
        } else {
            lemma_frames_align(framed(b0), y, framed(a0), x, label);
        }
        let p = framed(a);
        let q = framed(b);
        let n = framed(a0).len() as int;
        assert(p.len() == n + label.len() + 1 + x.len() + 1);
        assert(q.len() == framed(b0).len() + label.len() + 1 + y.len() + 1);
        assert(n == framed(b0).len());
        assert(p.take(n) =~= framed(a0));
        assert(q.take(n) =~= framed(b0));
        let m = n + label.len() + 1;
        assert(p.subrange(m, m + x.len()) =~= x);
        assert(q.subrange(m, m + y.len()) =~= y);
        assert forall|i: int| 0 <= i < a0.len() implies (#[trigger] a0[i]).0 == b0[i].0 by {
            assert(a[i].0 == b[i].0);
        }
        assert(without_nul(a0)) by {
            assert forall|i: int| 0 <= i < a0.len() implies !(#[trigger] a0[i]).1.contains(0u8) by {
                assert(a[i] == a0[i]);
            }
        }
        assert(without_nul(b0)) by {
            assert forall|i: int| 0 <= i < b0.len() implies !(#[trigger] b0[i]).1.contains(0u8) by {
                assert(b[i] == b0[i]);
            }
        }
        assert forall|i: int| 0 <= i < a0.len() implies !vstd::utf8::encode_utf8((#[trigger] a0[i]).0).contains(0u8) by {
            assert(a[i] == a0[i]);
        }
        law_frames_tell_inputs_apart(a0, b0);
        assert(a =~= a0.push(a.last()));
        assert(b =~= b0.push(b.last()));
    }
}

proof fn lemma_framed_ends(a: Seq<(Seq<char>, Seq<u8>)>)
    ensures
        framed(a).len() > 0 ==> framed(a).last() == 0u8,
{
}

/// What `toml_edit` makes of a document without a key in two sections: nothing where the text is no
/// document, else whether the key was in the first section and in the second, and the text of the
/// document without it.
pub uninterp spec fn toml_without(
    text: Seq<char>,
    first: Seq<char>,
    second: Seq<char>,
    key: Seq<char>,
) -> Option<(bool, bool, Seq<char>)>;

/// `toml_edit`: parses the text (`str::parse` into a `DocumentMut`), removes the key from both
/// sections (`TableLike::remove`) and prints the document (`to_string`). What comes out depends on
/// the text, the sections and the key alone; a text that does not parse gives nothing. How the rest
/// of a document is printed is left unsaid: a comment at the end of a removed table belongs to what
/// follows it, so it is printed although it stood in the table.
#[verifier::external_body]
fn remove_key(text: &str, first: &str, second: &str, key: &str) -> (r: Option<(bool, bool, String)>)
    ensures
        match r {
            Some((a, b, rest)) => toml_without(text@, first@, second@, key@) == Some((a, b, rest@)),
            None => toml_without(text@, first@, second@, key@) is None,
        },
{
    match text.parse::<toml_edit::DocumentMut>() {
        Ok(mut doc) => {
            let table = doc.get_mut(first).and_then(|item| item.as_table_like_mut());
            let in_first = table.and_then(|table| table.remove(key)).is_some();
            let table = doc.get_mut(second).and_then(|item| item.as_table_like_mut());
            let in_second = table.and_then(|table| table.remove(key)).is_some();
            Some((in_first, in_second, doc.to_string()))
        },
        Err(_) => None,
    }
}

/// The text of a manifest without its metadata; nothing where it has none.
pub open spec fn stripped_manifest(text: Seq<char>) -> Option<Seq<char>> {
    match toml_without(text, "package"@, "workspace"@, "metadata"@) {
        Some((in_package, in_workspace, rest)) => if in_package || in_workspace {
            Some(rest)
        } else {
            None
        },
        None => None,
    }
}

/// The bytes of a manifest that count: those of the text without metadata, or, where there is no
/// metadata or the bytes are no manifest, the bytes themselves.
pub open spec fn manifest_bytes_of(raw: Seq<u8>) -> Seq<u8> {
    match crate::diff::utf8_text(raw) {
        Some(text) => match stripped_manifest(text) {
            Some(rest) => vstd::utf8::encode_utf8(rest),
            None => raw,
        },
        None => raw,
    }
}

/// The bytes of a manifest that go into the fingerprint: without any metadata table of the
/// package or the workspace. A manifest without metadata counts byte by byte.
pub fn read_manifest_for_fingerprint(raw: Vec<u8>) -> (r: Vec<u8>)
    ensures
        r@ == manifest_bytes_of(raw@),
{
    let stripped = match decode_text(raw.as_slice()) {
        Ok(text) => match remove_key(text.as_str(), "package", "workspace", "metadata") {
            Some((in_package, in_workspace, rest)) => if in_package || in_workspace {
                Some(rest)
            } else {
                None
            },
            None => None,
        },
        Err(_) => None,
    };
    match stripped {
        Some(text) => text.as_str().as_bytes_vec(),
        None => raw,
    }
}

/// The label of a manifest: its path below the workspace root, or the path itself where it lies
/// elsewhere.
pub open spec fn manifest_label(path: Seq<char>, workspace_root: Seq<char>, windows: bool) -> Seq<char> {
    let path = crate::paths::db_relative(path, windows);
    "manifest:"@ + match crate::paths::path_below(path, crate::paths::db_relative(workspace_root, windows)) {
        Some(rel) => rel,
        None => path,
    }
}

/// The manifests as labelled inputs.
pub open spec fn manifest_inputs(manifests: Seq<(Seq<char>, Seq<u8>)>, workspace_root: Seq<char>, windows: bool) -> Seq<
    (Seq<char>, Seq<u8>),
> {
    manifests.map_values(
        |m: (Seq<char>, Seq<u8>)| (manifest_label(m.0, workspace_root, windows), manifest_bytes_of(m.1)),
    )
}

/// All inputs in their canonical order.
pub open spec fn all_inputs(
    workspace_root: Seq<char>,
    windows: bool,
    cargo_lock: Seq<u8>,
    manifests: Seq<(Seq<char>, Seq<u8>)>,
    rustc: Seq<u8>,
    rustflags: Seq<char>,
    build_target: Seq<char>,
) -> Seq<(Seq<char>, Seq<u8>)> {
    seq![("cargo_lock"@, cargo_lock)] + manifest_inputs(manifests, workspace_root, windows) + seq![
        ("rustc"@, rustc),
        ("RUSTFLAGS"@, vstd::utf8::encode_utf8(rustflags)),
        ("CARGO_BUILD_TARGET"@, vstd::utf8::encode_utf8(build_target)),
    ]
}

/// Adds a labelled input.
fn push_input(inputs: &mut Vec<(String, Vec<u8>)>, label: String, bytes: Vec<u8>)
    ensures
        inputs_view(final(inputs)@) == inputs_view(old(inputs)@).push((label@, bytes@)),
{
    let ghost before = inputs_view(inputs@);
    let ghost e = (label@, bytes@);
    inputs.push((label, bytes));
    assert(inputs_view(inputs@) =~= before.push(e));
}

/// Labels the inputs of the fingerprint, in the canonical order. Absent files count as empty.
pub fn collect_inputs(
    workspace_root: &str,
    windows: bool,
    cargo_lock: Vec<u8>,
    manifests: Vec<(String, Vec<u8>)>,
    rustc: Vec<u8>,
    rustflags: &str,
    build_target: &str,
) -> (r: Vec<(String, Vec<u8>)>)
    ensures
        inputs_view(r@) == all_inputs(
            workspace_root@,
            windows,
            cargo_lock@,
            inputs_view(manifests@),
            rustc@,
            rustflags@,
            build_target@,
        ),
{
    let ghost lock = cargo_lock@;
    let ghost compiler = rustc@;
    let ghost m = inputs_view(manifests@);
    let ghost first = seq![("cargo_lock"@, lock)];
    let mut inputs: Vec<(String, Vec<u8>)> = Vec::new();
    assert(inputs_view(inputs@) =~= Seq::<(Seq<char>, Seq<u8>)>::empty());
    push_input(&mut inputs, String::from_str("cargo_lock"), cargo_lock);
    let mut i: usize = 0;
    assert(inputs_view(inputs@) =~= first + manifest_inputs(m.take(0), workspace_root@, windows));
    while i < manifests.len()
        invariant
            i <= manifests.len(),
            m == inputs_view(manifests@),
            inputs_view(inputs@) == first + manifest_inputs(m.take(i as int), workspace_root@, windows),
        decreases manifests.len() - i,
    {
        assert(m[i as int] == (manifests@[i as int].0@, manifests@[i as int].1@));
        let path = to_db_relative(manifests[i].0.as_str(), windows);
        let rel = match strip_base(path.as_str(), to_db_relative(workspace_root, windows).as_str()) {
            Some(rel) => rel,
            None => path,
        };
        let label = String::from_str("manifest:").concat(rel.as_str());
        let mut raw: Vec<u8> = Vec::new();
        append_bytes(&mut raw, manifests[i].1.as_slice());
        assert(raw@ =~= manifests@[i as int].1@);
        push_input(&mut inputs, label, read_manifest_for_fingerprint(raw));
        assert(inputs_view(inputs@) =~= first + manifest_inputs(m.take(i + 1), workspace_root@, windows));
        i += 1;
    }
    assert(m.take(i as int) =~= m);
    push_input(&mut inputs, String::from_str("rustc"), rustc);
    push_input(&mut inputs, String::from_str("RUSTFLAGS"), rustflags.as_bytes_vec());
    push_input(&mut inputs, String::from_str("CARGO_BUILD_TARGET"), build_target.as_bytes_vec());
    assert(inputs_view(inputs@) =~= all_inputs(
        workspace_root@,
        windows,
        lock,
        m,
        compiler,
        rustflags@,
        build_target@,
    ));
    inputs
}

/// Whether two manifests count the same: they are equal but for their metadata.
pub open spec fn same_but_metadata(a: Seq<u8>, b: Seq<u8>) -> bool {
    match (crate::diff::utf8_text(a), crate::diff::utf8_text(b)) {
        (Some(x), Some(y)) => stripped_manifest(x) is Some && stripped_manifest(x) == stripped_manifest(y),
        _ => false,
    }
}

/// A manifest without metadata counts byte by byte, and so does what is no manifest; of two that
/// have metadata, those count as the same that are printed alike without it.
pub proof fn law_manifests_count_without_metadata(a: Seq<u8>, b: Seq<u8>)
    ensures
        (crate::diff::utf8_text(a) matches Some(text) ==> stripped_manifest(text) is None) ==> manifest_bytes_of(a)
            == a,
        same_but_metadata(a, b) ==> manifest_bytes_of(a) == manifest_bytes_of(b),
        crate::diff::utf8_text(a) matches Some(x) && crate::diff::utf8_text(b) matches Some(y) && stripped_manifest(x)
            is Some && stripped_manifest(y) is Some && stripped_manifest(x) != stripped_manifest(y)
            ==> manifest_bytes_of(a) != manifest_bytes_of(b),
{
    if let (Some(x), Some(y)) = (crate::diff::utf8_text(a), crate::diff::utf8_text(b)) {
        if let (Some(s), Some(t)) = (stripped_manifest(x), stripped_manifest(y)) {
            vstd::utf8::encode_utf8_decode_utf8(s);
            vstd::utf8::encode_utf8_decode_utf8(t);
        }
    }
}

/// Editing the metadata of manifests leaves the inputs, and so the fingerprint, as they are.
pub proof fn law_metadata_does_not_count(
    workspace_root: Seq<char>,
    windows: bool,
    cargo_lock: Seq<u8>,
    before: Seq<(Seq<char>, Seq<u8>)>,
    after: Seq<(Seq<char>, Seq<u8>)>,
    rustc: Seq<u8>,
    rustflags: Seq<char>,
    build_target: Seq<char>,
)
    requires
        same_labels(before, after),
        forall|i: int|
            0 <= i < before.len() ==> (#[trigger] before[i]).1 == after[i].1 || same_but_metadata(
                before[i].1,
                after[i].1,
            ),
    ensures
        all_inputs(workspace_root, windows, cargo_lock, before, rustc, rustflags, build_target) == all_inputs(
            workspace_root,
            windows,
            cargo_lock,
            after,
            rustc,
            rustflags,
            build_target,
        ),
{
    assert(manifest_inputs(before, workspace_root, windows) =~= manifest_inputs(after, workspace_root, windows));
}

/// The components name every input, in the canonical order.
pub proof fn law_components_name_every_input(inputs: Seq<(Seq<char>, Seq<u8>)>)
    ensures
        components_of(inputs).len() == inputs.len(),
        forall|i: int| 0 <= i < inputs.len() ==> (#[trigger] components_of(inputs)[i]).0 == inputs[i].0,
        forall|i: int| 0 <= i < inputs.len() ==> (#[trigger] components_of(inputs)[i]).1 == hash_of(inputs[i].1),
{
}

} // verus!
