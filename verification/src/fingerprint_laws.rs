//! Laws of the environment fingerprint: every input counts, and each under its label.

use vstd::prelude::*;
use crate::fingerprint;

verus! {

/// Two environments with the same inputs agree in the lock file, in the compiler, in its flags and in
/// the build target, and in what counts of each manifest.
pub proof fn law_inputs_tell_environments_apart(
    root: Seq<char>,
    windows: bool,
    lock: Seq<u8>,
    manifests: Seq<(Seq<char>, Seq<u8>)>,
    rustc: Seq<u8>,
    flags: Seq<char>,
    target: Seq<char>,
    other_lock: Seq<u8>,
    other_manifests: Seq<(Seq<char>, Seq<u8>)>,
    other_rustc: Seq<u8>,
    other_flags: Seq<char>,
    other_target: Seq<char>,
)
    requires
        fingerprint::all_inputs(root, windows, lock, manifests, rustc, flags, target) == fingerprint::all_inputs(
            root,
            windows,
            other_lock,
            other_manifests,
            other_rustc,
            other_flags,
            other_target,
        ),
    ensures
        lock == other_lock,
        rustc == other_rustc,
        flags == other_flags,
        target == other_target,
        manifests.len() == other_manifests.len(),
        forall|i: int|
            0 <= i < manifests.len() ==> fingerprint::manifest_bytes_of((#[trigger] manifests[i]).1)
                == fingerprint::manifest_bytes_of(other_manifests[i].1),
        forall|i: int|
            0 <= i < manifests.len() ==> fingerprint::manifest_label((#[trigger] manifests[i]).0, root, windows)
                == fingerprint::manifest_label(other_manifests[i].0, root, windows),
{
    let a = fingerprint::all_inputs(root, windows, lock, manifests, rustc, flags, target);
    let b = fingerprint::all_inputs(
        root,
        windows,
        other_lock,
        other_manifests,
        other_rustc,
        other_flags,
        other_target,
    );
    law_each_input_has_its_label(root, windows, lock, manifests, rustc, flags, target);
    law_each_input_has_its_label(
        root,
        windows,
        other_lock,
        other_manifests,
        other_rustc,
        other_flags,
        other_target,
    );
    let n = manifests.len() as int;
    assert(a[n + 1] == b[n + 1] && a[n + 2] == b[n + 2] && a[n + 3] == b[n + 3] && a[0] == b[0]);
    vstd::utf8::encode_utf8_decode_utf8(flags);
    vstd::utf8::encode_utf8_decode_utf8(other_flags);
    vstd::utf8::encode_utf8_decode_utf8(target);
    vstd::utf8::encode_utf8_decode_utf8(other_target);
    assert forall|i: int| 0 <= i < n implies fingerprint::manifest_bytes_of((#[trigger] manifests[i]).1)
        == fingerprint::manifest_bytes_of(other_manifests[i].1) && fingerprint::manifest_label(
        manifests[i].0,
        root,
        windows,
    ) == fingerprint::manifest_label(other_manifests[i].0, root, windows) by {
        assert(a[i + 1] == b[i + 1]);
        assert(other_manifests[i] == other_manifests[i]);
    }
}

/// The inputs are the lock file, the manifests, the compiler, its flags and the build target, in this
/// order and each under its label.
pub proof fn law_each_input_has_its_label(
    root: Seq<char>,
    windows: bool,
    lock: Seq<u8>,
    manifests: Seq<(Seq<char>, Seq<u8>)>,
    rustc: Seq<u8>,
    flags: Seq<char>,
    target: Seq<char>,
)
    ensures
        ({
            let inputs = fingerprint::all_inputs(root, windows, lock, manifests, rustc, flags, target);
            let n = manifests.len() as int;
            &&& inputs.len() == n + 4
            &&& inputs[0] == ("cargo_lock"@, lock)
            &&& forall|i: int|
                0 <= i < n ==> #[trigger] inputs[i + 1] == (
                    fingerprint::manifest_label(manifests[i].0, root, windows),
                    fingerprint::manifest_bytes_of(manifests[i].1),
                )
            &&& inputs[n + 1] == ("rustc"@, rustc)
            &&& inputs[n + 2] == ("RUSTFLAGS"@, vstd::utf8::encode_utf8(flags))
            &&& inputs[n + 3] == ("CARGO_BUILD_TARGET"@, vstd::utf8::encode_utf8(target))
        }),
{
    let inputs = fingerprint::all_inputs(root, windows, lock, manifests, rustc, flags, target);
    let m = fingerprint::manifest_inputs(manifests, root, windows);
    assert forall|i: int| 0 <= i < manifests.len() implies #[trigger] inputs[i + 1] == (
        fingerprint::manifest_label(manifests[i].0, root, windows),
        fingerprint::manifest_bytes_of(manifests[i].1),
    ) by {
        assert(inputs[i + 1] == m[i]);
    }
}

/// A manifest of the workspace is labelled with its path below the root.
pub proof fn law_manifest_is_labelled_with_its_path(root: Seq<char>, names: Seq<Seq<char>>)
    requires
        crate::path_laws::are_names(names),
        names.len() > 0,
    ensures
        fingerprint::manifest_label(crate::paths::joined_path(root, crate::path_laws::path_of(names)), root, false)
            == "manifest:"@ + crate::path_laws::path_of(names),
{
    crate::path_laws::law_joined_path_is_below(root, names);
}

/// Of a manifest with metadata in its package or in its workspace table, what is left without them
/// counts; of one without, and of bytes that are no manifest, every byte.
pub proof fn law_metadata_is_taken_out(text: Seq<char>, raw: Seq<u8>)
    ensures
        fingerprint::toml_without(text, "package"@, "workspace"@, "metadata"@) matches Some((in_package, in_workspace, rest))
            ==> fingerprint::manifest_bytes_of(vstd::utf8::encode_utf8(text)) == if in_package || in_workspace {
            vstd::utf8::encode_utf8(rest)
        } else {
            vstd::utf8::encode_utf8(text)
        },
        fingerprint::toml_without(text, "package"@, "workspace"@, "metadata"@) is None
            ==> fingerprint::manifest_bytes_of(vstd::utf8::encode_utf8(text)) == vstd::utf8::encode_utf8(text),
        !vstd::utf8::valid_utf8(raw) ==> fingerprint::manifest_bytes_of(raw) == raw,
{
    vstd::utf8::encode_utf8_valid_utf8(text);
    vstd::utf8::encode_utf8_decode_utf8(text);
}

/// What is hashed is each input in turn: its label, a colon, its bytes and a NUL.
pub proof fn law_inputs_are_framed_in_turn(a: Seq<(Seq<char>, Seq<u8>)>, b: Seq<(Seq<char>, Seq<u8>)>, label: Seq<char>, bytes: Seq<u8>)
    ensures
        fingerprint::framed(a + b) == fingerprint::framed(a) + fingerprint::framed(b),
        fingerprint::framed(seq![(label, bytes)]) == vstd::utf8::encode_utf8(label) + seq![58u8] + bytes + seq![0u8],
        fingerprint::framed(Seq::<(Seq<char>, Seq<u8>)>::empty()) == Seq::<u8>::empty(),
    decreases b.len(),
{
    reveal_with_fuel(fingerprint::framed, 2);
    let one = seq![(label, bytes)];
    assert(one.drop_last() =~= Seq::<(Seq<char>, Seq<u8>)>::empty());
    assert(fingerprint::framed(one) =~= vstd::utf8::encode_utf8(label) + seq![58u8] + bytes + seq![0u8]);
    if b.len() == 0 {
        assert(a + b =~= a);
        assert(fingerprint::framed(a) + fingerprint::framed(b) =~= fingerprint::framed(a));
    } else {
        let c = a + b;
        assert(c.drop_last() =~= a + b.drop_last());
        assert(c.last() == b.last());
        law_inputs_are_framed_in_turn(a, b.drop_last(), label, bytes);
        assert(fingerprint::framed(c) =~= fingerprint::framed(a) + fingerprint::framed(b));
    }
}

/// The value of a hexadecimal digit.
pub open spec fn digit_value(c: char) -> int {
    if '0' <= c <= '9' {
        c as int - '0' as int
    } else {
        c as int - 'a' as int + 10
    }
}

/// Each byte is written as two lower-case digits, the higher one first.
pub proof fn law_bytes_are_written_in_hex(bytes: Seq<u8>, i: int)
    requires
        0 <= i < bytes.len(),
    ensures
        fingerprint::hex_of(bytes).len() == 2 * bytes.len(),
        ({
            let high = fingerprint::hex_of(bytes)[2 * i];
            let low = fingerprint::hex_of(bytes)[2 * i + 1];
            &&& '0' <= high <= '9' || 'a' <= high <= 'f'
            &&& '0' <= low <= '9' || 'a' <= low <= 'f'
            &&& 16 * digit_value(high) + digit_value(low) == bytes[i]
        }),
    decreases bytes.len(),
{
    fingerprint::law_hex_is_faithful(bytes, bytes);
    fingerprint::law_hex_is_faithful(bytes.drop_last(), bytes);
    if i < bytes.len() - 1 {
        law_bytes_are_written_in_hex(bytes.drop_last(), i);
    } else {
        let b = bytes.last() as int;
        assert(0 <= b / 16 < 16 && 0 <= b % 16 < 16 && 16 * (b / 16) + b % 16 == b);
    }
}

} // verus!
