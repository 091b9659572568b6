//! Codecs for the asset containers of an online action-game client: the ECD
//! stream cipher, the JPK compression family, the Simple and MHA archives, and
//! the driver that peels or applies these layers.

use ecd::{decrypt_ecd, ecd_decrypt, is_buf_ecd, is_ecd, EcdError};
use jpk::{decode_jpk, is_buf_jpk, is_jpk, jpk_decode, JpkError};
use magic::{extension_of_buf, find_buf_extension};
use mha::{
    decode_mha_archive, entry_views, is_buf_mha, is_mha, lemma_mha_names_valid, mha_decode, Entry,
};
use path::{
    file_name, find_name_start, has_file_name, join, names_file, push_component, set_extension,
    with_extension, DOT,
};
use simple_archive::{
    decode_simple_archive, is_buf_simple_archive, is_simple_archive, simple_decode, views,
    ArchiveError,
};
use text::{
    decimal4, lemma_decimal_valid, lemma_join_valid, lemma_with_extension_valid, push_decimal4,
    string_from_utf8,
};
use vstd::prelude::*;
use vstd::string::StringSliceAdditionalSpecFns;
use vstd::utf8::{encode_utf8, encode_utf8_valid_utf8, valid_utf8};

pub mod ecd;
pub mod endian;
pub mod fifo;
pub mod jpk;
pub mod magic;
pub mod mha;
pub mod pack;
pub mod path;
pub mod simple_archive;
pub mod text;

pub use pack::{pack_buffer, pack_folder, recursive_pack, PackEntry, PackError};

verus! {

/// A file that came out of a container.
pub struct UnpackedFile {
    /// The name of the file, without its extension.
    pub name: String,
    /// The extension that the content suggests.
    pub ext: String,
    /// The content.
    pub buffer: Vec<u8>,
}

/// The files that came out of an archive, each under its key.
pub struct UnpackFolder {
    /// The files with their keys.
    pub files: Vec<(String, UnpackedFile)>,
}

/// What unpacking one buffer gives: a single file, or the files of an archive.
pub enum UnpackResult {
    /// The buffer held one file.
    File(UnpackedFile),
    /// The buffer held an archive.
    Folder(Vec<(String, UnpackedFile)>),
}

/// How a single buffer is packed.
pub enum PackType {
    /// Encrypted with the ECD cipher.
    Ecd,
    /// Compressed into a JPK buffer with the given code.
    Jpk(u16),
}

/// How the entries of a directory are packed.
pub enum FolderPackType {
    /// A Simple Archive of the bodies.
    Simple,
    /// An MHA archive with the first file id and the capacity.
    MHA(u16, u16),
    /// The bodies one after another, with no archive around them.
    Monster,
}

/// Why a buffer could not be unpacked.
#[derive(Debug, Clone, Copy, PartialEq, Eq, Structural)]
pub enum UnpackError {
    /// An ECD layer could not be decrypted.
    Ecd(EcdError),
    /// A JPK layer could not be decoded.
    Jpk(JpkError),
    /// An archive could not be taken apart.
    Archive(ArchiveError),
    /// The layers are nested deeper than `MAX_DEPTH`.
    TooDeep,
}

/// The number of layers that are peeled off one inside the other before unpacking
/// gives up.
pub const MAX_DEPTH: usize = 64;

/// A file at the end of unpacking: its path and its content.
pub type Leaf = (Seq<u8>, Seq<u8>);

/// The path under which a leaf is filed: the extension that its content suggests is
/// set, or any extension taken away where the file name begins with a dot. A path
/// that names no file stays as it is.
pub open spec fn leaf_path(path: Seq<u8>, buf: Seq<u8>) -> Seq<u8> {
    if !has_file_name(path) {
        path
    } else if file_name(path)[0] == DOT {
        with_extension(path, Seq::empty())
    } else {
        with_extension(path, encode_utf8(extension_of_buf(buf)))
    }
}

/// What unpacking `buf` under `path` gives when `depth` more layers may be peeled
/// off: the layers are tried in the order ECD, JPK, Simple Archive, MHA; a buffer
/// that is none of them is a leaf.
pub open spec fn unpack_spec(path: Seq<u8>, buf: Seq<u8>, depth: nat) -> Result<
    Seq<Leaf>,
    UnpackError,
>
    decreases depth, 0nat,
{
    if is_ecd(buf) {
        if depth == 0 {
            Err(UnpackError::TooDeep)
        } else {
            match ecd_decrypt(buf) {
                Err(e) => Err(UnpackError::Ecd(e)),
                Ok(plain) => unpack_spec(path, plain, (depth - 1) as nat),
            }
        }
    } else if is_jpk(buf) {
        if depth == 0 {
            Err(UnpackError::TooDeep)
        } else {
            match jpk_decode(buf) {
                Err(e) => Err(UnpackError::Jpk(e)),
                Ok(content) => unpack_spec(path, content, (depth - 1) as nat),
            }
        }
    } else if is_simple_archive(buf) {
        if depth == 0 {
            Err(UnpackError::TooDeep)
        } else {
            match simple_decode(buf) {
                Err(e) => Err(UnpackError::Archive(e)),
                Ok(files) => unpack_files(path, files, files.len(), (depth - 1) as nat),
            }
        }
    } else if is_mha(buf) {
        if depth == 0 {
            Err(UnpackError::TooDeep)
        } else {
            match mha_decode(buf) {
                Err(e) => Err(UnpackError::Archive(e)),
                Ok(entries) => unpack_entries(path, entries, entries.len(), (depth - 1) as nat),
            }
        }
    } else {
        Ok(seq![(leaf_path(path, buf), buf)])
    }
}

/// What unpacking the first `k` files of a Simple Archive gives: file `i` is
/// unpacked under the path with its number, in four digits, as the last component.
pub open spec fn unpack_files(path: Seq<u8>, files: Seq<Seq<u8>>, k: nat, depth: nat) -> Result<
    Seq<Leaf>,
    UnpackError,
>
    decreases depth, k + 1,
{
    if k == 0 {
        Ok(Seq::empty())
    } else {
        match unpack_files(path, files, (k - 1) as nat, depth) {
            Err(e) => Err(e),
            Ok(done) => match unpack_spec(
                join(path, decimal4((k - 1) as nat)),
                files[k - 1],
                depth,
            ) {
                Err(e) => Err(e),
                Ok(more) => Ok(done + more),
            },
        }
    }
}

/// What unpacking the first `k` entries of an MHA archive gives: an entry is
/// unpacked under the path with its name, less its extension, as the last
/// component.
pub open spec fn unpack_entries(path: Seq<u8>, entries: Seq<Entry>, k: nat, depth: nat) -> Result<
    Seq<Leaf>,
    UnpackError,
>
    decreases depth, k + 1,
{
    if k == 0 {
        Ok(Seq::empty())
    } else {
        match unpack_entries(path, entries, (k - 1) as nat, depth) {
            Err(e) => Err(e),
            Ok(done) => match unpack_spec(
                with_extension(join(path, entries[k - 1].0), Seq::empty()),
                entries[k - 1].1,
                depth,
            ) {
                Err(e) => Err(e),
                Ok(more) => Ok(done + more),
            },
        }
    }
}

/// A buffer that no layer is recognised in.
pub open spec fn is_plain(buf: Seq<u8>) -> bool {
    !is_ecd(buf) && !is_jpk(buf) && !is_simple_archive(buf) && !is_mha(buf)
}

/// Every buffer that unpacking gives is plain: no layer is recognised in it.
pub proof fn lemma_unpack_leaves_plain(path: Seq<u8>, buf: Seq<u8>, depth: nat)
    ensures
        unpack_spec(path, buf, depth) matches Ok(leaves) ==> forall|i: int|
            0 <= i < leaves.len() ==> is_plain(#[trigger] leaves[i].1),
    decreases depth, 0nat,
{
    if is_ecd(buf) {
        if depth > 0 {
            match ecd_decrypt(buf) {
                Err(e) => {},
                Ok(plain) => {
                    lemma_unpack_leaves_plain(path, plain, (depth - 1) as nat);
                },
            }
        }
    } else if is_jpk(buf) {
        if depth > 0 {
            match jpk_decode(buf) {
                Err(e) => {},
                Ok(content) => {
                    lemma_unpack_leaves_plain(path, content, (depth - 1) as nat);
                },
            }
        }
    } else if is_simple_archive(buf) {
        if depth > 0 {
            match simple_decode(buf) {
                Err(e) => {},
                Ok(files) => {
                    lemma_unpack_files_plain(path, files, files.len(), (depth - 1) as nat);
                },
            }
        }
    } else if is_mha(buf) {
        if depth > 0 {
            match mha_decode(buf) {
                Err(e) => {},
                Ok(entries) => {
                    lemma_unpack_entries_plain(path, entries, entries.len(), (depth - 1) as nat);
                },
            }
        }
    } else {
    }
}

proof fn lemma_unpack_files_plain(path: Seq<u8>, files: Seq<Seq<u8>>, k: nat, depth: nat)
    ensures
        unpack_files(path, files, k, depth) matches Ok(leaves) ==> forall|i: int|
            0 <= i < leaves.len() ==> is_plain(#[trigger] leaves[i].1),
    decreases depth, k + 1,
{
    if k > 0 {
        lemma_unpack_files_plain(path, files, (k - 1) as nat, depth);
        lemma_unpack_leaves_plain(join(path, decimal4((k - 1) as nat)), files[k - 1], depth);
    }
}

proof fn lemma_unpack_entries_plain(path: Seq<u8>, entries: Seq<Entry>, k: nat, depth: nat)
    ensures
        unpack_entries(path, entries, k, depth) matches Ok(leaves) ==> forall|i: int|
            0 <= i < leaves.len() ==> is_plain(#[trigger] leaves[i].1),
    decreases depth, k + 1,
{
    if k > 0 {
        lemma_unpack_entries_plain(path, entries, (k - 1) as nat, depth);
        lemma_unpack_leaves_plain(
            with_extension(join(path, entries[k - 1].0), Seq::empty()),
            entries[k - 1].1,
            depth,
        );
    }
}

/// The paths and contents of a list of leaves.
pub open spec fn leaf_views(leaves: Seq<(Vec<u8>, Vec<u8>)>) -> Seq<Leaf> {
    Seq::new(leaves.len(), |i: int| (leaves[i].0@, leaves[i].1@))
}

/// An error among the first files is the error of them all.
proof fn lemma_unpack_files_error(path: Seq<u8>, files: Seq<Seq<u8>>, i: nat, k: nat, depth: nat)
    requires
        i <= k,
    ensures
        unpack_files(path, files, i, depth) is Err ==> unpack_files(path, files, k, depth)
            == unpack_files(path, files, i, depth),
    decreases k - i,
{
    if i < k {
        lemma_unpack_files_error(path, files, i, (k - 1) as nat, depth);
    }
}

/// An error among the first entries is the error of them all.
proof fn lemma_unpack_entries_error(
    path: Seq<u8>,
    entries: Seq<Entry>,
    i: nat,
    k: nat,
    depth: nat,
)
    requires
        i <= k,
    ensures
        unpack_entries(path, entries, i, depth) is Err ==> unpack_entries(path, entries, k, depth)
            == unpack_entries(path, entries, i, depth),
    decreases k - i,
{
    if i < k {
        lemma_unpack_entries_error(path, entries, i, (k - 1) as nat, depth);
    }
}

/// Files a leaf under the path that its content suggests.
fn emit_leaf(buffer: &[u8], path: Vec<u8>, out: &mut Vec<(Vec<u8>, Vec<u8>)>)
    ensures
        leaf_views(final(out)@) == leaf_views(old(out)@).push(
            (leaf_path(path@, buffer@), buffer@),
        ),
{
    let mut final_path: Vec<u8> = path;
    if names_file(final_path.as_slice()) {
        let start: usize = find_name_start(final_path.as_slice());
        if final_path[start] == DOT {
            let none: [u8; 0] = [];
            assert(none@ =~= Seq::<u8>::empty());
            set_extension(&mut final_path, none.as_slice());
        } else {
            let ext = find_buf_extension(buffer);
            set_extension(&mut final_path, ext.as_bytes());
        }
    }
    let ghost before = leaf_views(out@);
    out.push((final_path, vstd::slice::slice_to_vec(buffer)));
    assert(leaf_views(out@) =~= before.push((leaf_path(path@, buffer@), buffer@)));
}

/// Unpacks `current_buffer` under `current_path` and files the leaves in `out`.
fn recursive_unpack(
    current_buffer: &[u8],
    current_path: Vec<u8>,
    out: &mut Vec<(Vec<u8>, Vec<u8>)>,
    depth: usize,
) -> (r: Result<(), UnpackError>)
    ensures
        match unpack_spec(current_path@, current_buffer@, depth as nat) {
            Err(e) => r == Err::<(), UnpackError>(e),
            Ok(leaves) => r is Ok && leaf_views(final(out)@) == leaf_views(old(out)@) + leaves,
        },
    decreases depth,
{
    let ghost base = leaf_views(out@);
    if is_buf_ecd(current_buffer) {
        if depth == 0 {
            return Err(UnpackError::TooDeep);
        }
        return match decrypt_ecd(current_buffer) {
            Err(e) => Err(UnpackError::Ecd(e)),
            Ok(plain) => recursive_unpack(plain.as_slice(), current_path, out, depth - 1),
        };
    }
    if is_buf_jpk(current_buffer) {
        if depth == 0 {
            return Err(UnpackError::TooDeep);
        }
        return match decode_jpk(current_buffer) {
            Err(e) => Err(UnpackError::Jpk(e)),
            Ok(content) => recursive_unpack(content.as_slice(), current_path, out, depth - 1),
        };
    }
    if is_buf_simple_archive(current_buffer) {
        if depth == 0 {
            return Err(UnpackError::TooDeep);
        }
        let in_buffers = match decode_simple_archive(current_buffer) {
            Err(e) => {
                return Err(UnpackError::Archive(e));
            },
            Ok(files) => files,
        };
        let ghost files = views(in_buffers@);
        let ghost mut done: Seq<Leaf> = Seq::empty();
        let mut i: usize = 0;
        assert(leaf_views(out@) =~= base + done);
        while i < in_buffers.len()
            invariant
                i <= in_buffers.len(),
                in_buffers.len() <= u32::MAX,
                depth > 0,
                files == views(in_buffers@),
                unpack_spec(current_path@, current_buffer@, depth as nat) == unpack_files(
                    current_path@,
                    files,
                    files.len(),
                    (depth - 1) as nat,
                ),
                unpack_files(current_path@, files, i as nat, (depth - 1) as nat) == Ok::<
                    Seq<Leaf>,
                    UnpackError,
                >(done),
                leaf_views(out@) == base + done,
            decreases in_buffers.len() - i,
        {
            proof {
                lemma_unpack_files_error(
                    current_path@,
                    files,
                    (i + 1) as nat,
                    files.len(),
                    (depth - 1) as nat,
                );
            }
            let mut new_path: Vec<u8> = vstd::slice::slice_to_vec(current_path.as_slice());
            let mut folder_name: Vec<u8> = Vec::new();
            push_decimal4(&mut folder_name, i as u32);
            assert(folder_name@ =~= decimal4(i as nat));
            push_component(&mut new_path, folder_name.as_slice());
            match recursive_unpack(in_buffers[i].as_slice(), new_path, out, depth - 1) {
                Err(e) => {
                    return Err(e);
                },
                Ok(()) => {
                    proof {
                        let more = unpack_spec(
                            join(current_path@, decimal4(i as nat)),
                            files[i as int],
                            (depth - 1) as nat,
                        ).unwrap();
                        assert(leaf_views(out@) =~= base + (done + more));
                        done = done + more;
                    }
                },
            }
            i = i + 1;
        }
        return Ok(());
    }
    if is_buf_mha(current_buffer) {
        if depth == 0 {
            return Err(UnpackError::TooDeep);
        }
        let in_buffers = match decode_mha_archive(current_buffer) {
            Err(e) => {
                return Err(UnpackError::Archive(e));
            },
            Ok(entries) => entries,
        };
        let ghost entries = entry_views(in_buffers@);
        let ghost mut done: Seq<Leaf> = Seq::empty();
        let mut i: usize = 0;
        assert(leaf_views(out@) =~= base + done);
        while i < in_buffers.len()
            invariant
                i <= in_buffers.len(),
                depth > 0,
                entries == entry_views(in_buffers@),
                unpack_spec(current_path@, current_buffer@, depth as nat) == unpack_entries(
                    current_path@,
                    entries,
                    entries.len(),
                    (depth - 1) as nat,
                ),
                unpack_entries(current_path@, entries, i as nat, (depth - 1) as nat) == Ok::<
                    Seq<Leaf>,
                    UnpackError,
                >(done),
                leaf_views(out@) == base + done,
            decreases in_buffers.len() - i,
        {
            proof {
                lemma_unpack_entries_error(
                    current_path@,
                    entries,
                    (i + 1) as nat,
                    entries.len(),
                    (depth - 1) as nat,
                );
            }
            let mut new_path: Vec<u8> = vstd::slice::slice_to_vec(current_path.as_slice());
            push_component(&mut new_path, in_buffers[i].0.as_str().as_bytes());
            let none: [u8; 0] = [];
            assert(none@ =~= Seq::<u8>::empty());
            set_extension(&mut new_path, none.as_slice());
            match recursive_unpack(in_buffers[i].1.as_slice(), new_path, out, depth - 1) {
                Err(e) => {
                    return Err(e);
                },
                Ok(()) => {
                    proof {
                        let more = unpack_spec(
                            with_extension(join(current_path@, entries[i as int].0), Seq::empty()),
                            entries[i as int].1,
                            (depth - 1) as nat,
                        ).unwrap();
                        assert(leaf_views(out@) =~= base + (done + more));
                        done = done + more;
                    }
                },
            }
            i = i + 1;
        }
        return Ok(());
    }
    emit_leaf(current_buffer, current_path, out);
    assert(base.push((leaf_path(current_path@, current_buffer@), current_buffer@)) =~= base
        + seq![(leaf_path(current_path@, current_buffer@), current_buffer@)]);
    Ok(())
}

/// The paths, as strings, and the contents of a list of leaves.
pub open spec fn named_views(leaves: Seq<(String, Vec<u8>)>) -> Seq<Leaf> {
    Seq::new(leaves.len(), |i: int| (encode_utf8(leaves[i].0@), leaves[i].1@))
}

/// Every path of the list is valid UTF-8.
pub open spec fn paths_valid(leaves: Seq<Leaf>) -> bool {
    forall|i: int| 0 <= i < leaves.len() ==> valid_utf8(#[trigger] leaves[i].0)
}

/// Below a path that is valid UTF-8 every leaf has a path that is valid UTF-8.
pub proof fn lemma_unpack_paths_valid(path: Seq<u8>, buf: Seq<u8>, depth: nat)
    requires
        valid_utf8(path),
    ensures
        unpack_spec(path, buf, depth) matches Ok(leaves) ==> paths_valid(leaves),
    decreases depth, 0nat,
{
    if is_ecd(buf) {
        if depth > 0 {
            match ecd_decrypt(buf) {
                Err(e) => {},
                Ok(plain) => {
                    lemma_unpack_paths_valid(path, plain, (depth - 1) as nat);
                },
            }
        }
    } else if is_jpk(buf) {
        if depth > 0 {
            match jpk_decode(buf) {
                Err(e) => {},
                Ok(content) => {
                    lemma_unpack_paths_valid(path, content, (depth - 1) as nat);
                },
            }
        }
    } else if is_simple_archive(buf) {
        if depth > 0 {
            match simple_decode(buf) {
                Err(e) => {},
                Ok(files) => {
                    lemma_unpack_files_valid(path, files, files.len(), (depth - 1) as nat);
                },
            }
        }
    } else if is_mha(buf) {
        if depth > 0 {
            match mha_decode(buf) {
                Err(e) => {},
                Ok(entries) => {
                    lemma_mha_names_valid(buf);
                    lemma_unpack_entries_valid(path, entries, entries.len(), (depth - 1) as nat);
                },
            }
        }
    } else {
        encode_utf8_valid_utf8(extension_of_buf(buf));
        lemma_with_extension_valid(path, encode_utf8(extension_of_buf(buf)));
        assert(valid_utf8(Seq::<u8>::empty())) by {
            encode_utf8_valid_utf8(Seq::<char>::empty());
            assert(encode_utf8(Seq::<char>::empty()) =~= Seq::<u8>::empty());
        }
        lemma_with_extension_valid(path, Seq::empty());
    }
}

proof fn lemma_unpack_files_valid(path: Seq<u8>, files: Seq<Seq<u8>>, k: nat, depth: nat)
    requires
        valid_utf8(path),
    ensures
        unpack_files(path, files, k, depth) matches Ok(leaves) ==> paths_valid(leaves),
    decreases depth, k + 1,
{
    if k > 0 {
        lemma_unpack_files_valid(path, files, (k - 1) as nat, depth);
        lemma_decimal_valid((k - 1) as nat);
        lemma_join_valid(path, decimal4((k - 1) as nat));
        lemma_unpack_paths_valid(join(path, decimal4((k - 1) as nat)), files[k - 1], depth);
    }
}

proof fn lemma_unpack_entries_valid(path: Seq<u8>, entries: Seq<Entry>, k: nat, depth: nat)
    requires
        valid_utf8(path),
        forall|i: int| 0 <= i < entries.len() ==> valid_utf8(#[trigger] entries[i].0),
        k <= entries.len(),
    ensures
        unpack_entries(path, entries, k, depth) matches Ok(leaves) ==> paths_valid(leaves),
    decreases depth, k + 1,
{
    if k > 0 {
        lemma_unpack_entries_valid(path, entries, (k - 1) as nat, depth);
        lemma_join_valid(path, entries[k - 1].0);
        assert(valid_utf8(Seq::<u8>::empty())) by {
            encode_utf8_valid_utf8(Seq::<char>::empty());
            assert(encode_utf8(Seq::<char>::empty()) =~= Seq::<u8>::empty());
        }
        lemma_with_extension_valid(join(path, entries[k - 1].0), Seq::empty());
        lemma_unpack_paths_valid(
            with_extension(join(path, entries[k - 1].0), Seq::empty()),
            entries[k - 1].1,
            depth,
        );
    }
}

/// Unpacks `buf`: layers of encryption and compression are taken off and archives
/// are taken apart, one inside the other, until only plain files are left. Each is
/// returned with its path below `prefix_path` and an extension that its content
/// suggests.
pub fn unpack_buffer(prefix_path: &str, buf: &[u8]) -> (r: Result<
    Vec<(String, Vec<u8>)>,
    UnpackError,
>)
    ensures
        match unpack_spec(prefix_path.spec_bytes(), buf@, MAX_DEPTH as nat) {
            Err(e) => r == Err::<Vec<(String, Vec<u8>)>, UnpackError>(e),
            Ok(leaves) => r is Ok && named_views(r.unwrap()@) == leaves && forall|i: int|
                0 <= i < r.unwrap()@.len() ==> is_plain(#[trigger] r.unwrap()@[i].1@),
        },
{
    let mut found: Vec<(Vec<u8>, Vec<u8>)> = Vec::new();
    let base_path: Vec<u8> = vstd::slice::slice_to_vec(prefix_path.as_bytes());
    match recursive_unpack(buf, base_path, &mut found, MAX_DEPTH) {
        Err(e) => {
            return Err(e);
        },
        Ok(()) => {},
    }
    let ghost leaves = leaf_views(found@);
    proof {
        lemma_unpack_leaves_plain(prefix_path.spec_bytes(), buf@, MAX_DEPTH as nat);
        encode_utf8_valid_utf8(prefix_path@);
        lemma_unpack_paths_valid(prefix_path.spec_bytes(), buf@, MAX_DEPTH as nat);
        assert(leaves =~= unpack_spec(prefix_path.spec_bytes(), buf@, MAX_DEPTH as nat).unwrap());
    }
    let mut out: Vec<(String, Vec<u8>)> = Vec::new();
    let mut i: usize = 0;
    while i < found.len()
        invariant
            i <= found.len(),
            leaves == leaf_views(found@),
            paths_valid(leaves),
            out.len() == i,
            forall|k: int|
                0 <= k < i ==> encode_utf8((#[trigger] out@[k]).0@) == leaves[k].0 && out@[k].1@
                    == leaves[k].1,
        decreases found.len() - i,
    {
        assert(valid_utf8(leaves[i as int].0));
        let name = match string_from_utf8(found[i].0.as_slice()) {
            None => String::new(),
            Some(s) => s,
        };
        let body: Vec<u8> = vstd::slice::slice_to_vec(found[i].1.as_slice());
        out.push((name, body));
        i = i + 1;
    }
    assert(named_views(out@) =~= leaves);
    Ok(out)
}

} // verus!
