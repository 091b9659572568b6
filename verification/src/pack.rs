//! Packing: single buffers, and the entries of a directory into an archive.

use crate::ecd::{crc32_checksum, ecd_decrypt, ecd_encrypt, encrypt_ecd, is_ecd, EcdError};
use crate::fifo::{queue_add, queue_items, queue_new, queue_remove, queue_size};
use crate::jpk::{create_jpk, is_jpk_of, jpk_max_len, should_jpk_compress, wants_jpk, JpkType};
use crate::magic::{extension_of_buf, find_buf_extension, lemma_extension_len};
use crate::mha::{
    bodies_of, encode_mha_archive, entry_views, mha_archive_fits, mha_encode, names_of, Entry,
};
use crate::path::{
    file_name, find_name_start, has_file_name, name_start, names_file, set_extension,
    with_extension, DOT, SEPARATOR,
};
use crate::simple_archive::{
    concat, encode_simple_archive, lemma_simple_len, simple_archive_fits, simple_decode,
    simple_encode, simple_len, total_len, views,
};
use crate::text::{lemma_with_extension_valid, string_from_utf8};
use crate::{named_views, FolderPackType, PackType};
use queues::Queue;
use vstd::prelude::*;
use vstd::string::StringSliceAdditionalSpecFns;
use vstd::utf8::{encode_utf8, encode_utf8_valid_utf8, valid_utf8};

verus! {

/// Why something could not be packed.
#[derive(Debug, Clone, Copy, PartialEq, Eq, Structural)]
pub enum PackError {
    /// A length does not fit into the 32 bits that the formats have for it.
    TooLarge,
    /// The code stands for no JPK coding.
    InvalidType(u16),
}

/// What packing a single buffer gives.
pub open spec fn packed_buffer(buf: Seq<u8>, pack_type: PackType, r: Result<Seq<u8>, PackError>) -> bool {
    if buf.len() > u32::MAX {
        r == Err::<Seq<u8>, PackError>(PackError::TooLarge)
    } else {
        match pack_type {
            PackType::Ecd => r == Ok::<Seq<u8>, PackError>(
                ecd_encrypt(buf, crc32_checksum(buf)),
            ),
            PackType::Jpk(code) => match JpkType::of_code(code) {
                None => r == Err::<Seq<u8>, PackError>(PackError::InvalidType(code)),
                Some(t) => r is Ok && is_jpk_of(r.unwrap(), buf, t),
            },
        }
    }
}

/// Packs a single buffer: encrypts it, or compresses it into a JPK buffer.
pub fn pack_buffer(buf: &[u8], pack_type: PackType) -> (r: Result<Vec<u8>, PackError>)
    ensures
        packed_buffer(
            buf@,
            pack_type,
            match r {
                Ok(v) => Ok(v@),
                Err(e) => Err(e),
            },
        ),
        pack_type is Ecd && r is Ok ==> is_ecd(r.unwrap()@) && ecd_decrypt(r.unwrap()@) == Ok::<
            Seq<u8>,
            EcdError,
        >(buf@),
{
    if buf.len() > u32::MAX as usize {
        return Err(PackError::TooLarge);
    }
    match pack_type {
        PackType::Ecd => Ok(encrypt_ecd(buf)),
        PackType::Jpk(jpk_type) => match create_jpk(buf, jpk_type) {
            Ok(v) => Ok(v),
            Err(_) => Err(PackError::InvalidType(jpk_type)),
        },
    }
}

/// An entry of a directory, as it was read: a file with its content, or a
/// directory with its entries. Each carries its path.
pub enum PackEntry {
    /// A file.
    File { path: String, data: Vec<u8> },
    /// A directory.
    Dir { path: String, entries: Vec<PackEntry> },
}

impl PackEntry {
    /// The bytes of the entry's path.
    pub open spec fn path_bytes(self) -> Seq<u8> {
        match self {
            PackEntry::File { path, .. } => encode_utf8(path@),
            PackEntry::Dir { path, .. } => encode_utf8(path@),
        }
    }

    /// The entry is left out of archives: its name begins with a dot.
    pub open spec fn hidden(self) -> bool {
        file_name(self.path_bytes()).len() > 0 && file_name(self.path_bytes())[0] == DOT
    }
}

/// The bodies of a list of packed entries.
pub open spec fn bodies(items: Seq<Entry>) -> Seq<Seq<u8>> {
    Seq::new(items.len(), |i: int| items[i].1)
}

/// `body` is what `entry` is packed to. A file whose extension asks for it is
/// compressed into a JPK buffer with the Huffman-and-LZ coding, any other file is
/// taken as it is; a directory becomes the Simple Archive of what its entries are
/// packed to.
pub open spec fn packed_body(entry: PackEntry, body: Seq<u8>) -> bool
    decreases entry, 0nat,
{
    match entry {
        PackEntry::File { path, data } => if wants_jpk(encode_utf8(path@)) {
            is_jpk_of(body, data@, JpkType::Huffman)
        } else {
            body == data@
        },
        PackEntry::Dir { path, entries } => packed_dir(entries@, body),
    }
}

/// `body` is the Simple Archive of what the entries of a directory are packed to.
pub open spec fn packed_dir(entries: Seq<PackEntry>, body: Seq<u8>) -> bool
    decreases entries, entries.len() + 1,
{
    match simple_decode(body) {
        Err(_) => false,
        Ok(children) => body == simple_encode(children) && packed_bodies(
            entries,
            entries.len(),
            children,
        ),
    }
}

/// `children` is what the first `k` entries are packed to: one body for each entry
/// that is not hidden, in the order of the entries.
pub open spec fn packed_bodies(entries: Seq<PackEntry>, k: nat, children: Seq<Seq<u8>>) -> bool
    decreases entries, k,
{
    if k == 0 || k > entries.len() {
        children.len() == 0
    } else if entries[k - 1].hidden() {
        packed_bodies(entries, (k - 1) as nat, children)
    } else {
        children.len() > 0 && packed_bodies(entries, (k - 1) as nat, children.drop_last())
            && packed_body(entries[k - 1], children.last())
    }
}

/// `item` is what `entry` is packed to: the packed body, and the path with the
/// extension that the packed body suggests.
pub open spec fn packed_entry(entry: PackEntry, item: Entry) -> bool {
    item.0 == with_extension(entry.path_bytes(), encode_utf8(extension_of_buf(item.1)))
        && packed_body(entry, item.1)
}

/// `items` is what the first `k` entries are packed to: one item for each entry
/// that is not hidden, in the order of the entries.
pub open spec fn packed_entries(entries: Seq<PackEntry>, k: nat, items: Seq<Entry>) -> bool
    decreases k,
{
    if k == 0 || k > entries.len() {
        items.len() == 0
    } else if entries[k - 1].hidden() {
        packed_entries(entries, (k - 1) as nat, items)
    } else {
        items.len() > 0 && packed_entries(entries, (k - 1) as nat, items.drop_last())
            && packed_entry(entries[k - 1], items.last())
    }
}

/// A length that what `entry` is packed to does not exceed.
pub open spec fn body_bound(entry: PackEntry) -> int
    decreases entry, 0nat,
{
    match entry {
        PackEntry::File { path, data } => if wants_jpk(encode_utf8(path@)) {
            jpk_max_len(data@.len())
        } else {
            data@.len() as int
        },
        PackEntry::Dir { path, entries } => dir_bound(entries@),
    }
}

/// A length that the Simple Archive of what the entries are packed to does not
/// exceed.
pub open spec fn dir_bound(entries: Seq<PackEntry>) -> int
    decreases entries, entries.len() + 1,
{
    4 + list_bound(entries, entries.len())
}

/// A length that the table records and the bodies of the first `k` entries do not
/// exceed.
pub open spec fn list_bound(entries: Seq<PackEntry>, k: nat) -> int
    decreases entries, k,
{
    if k == 0 || k > entries.len() {
        0
    } else if entries[k - 1].hidden() {
        list_bound(entries, (k - 1) as nat)
    } else {
        list_bound(entries, (k - 1) as nat) + 8 + body_bound(entries[k - 1])
    }
}

/// The bounds are not negative.
pub proof fn lemma_bounds_nonneg(entries: Seq<PackEntry>, k: nat)
    ensures
        list_bound(entries, k) >= 0,
        dir_bound(entries) >= 4,
        forall|i: int| 0 <= i < entries.len() ==> body_bound(#[trigger] entries[i]) >= 0,
    decreases entries, k + entries.len() + 1,
{
    assert forall|i: int| 0 <= i < entries.len() implies body_bound(#[trigger] entries[i])
        >= 0 by {
        match entries[i] {
            PackEntry::File { .. } => {},
            PackEntry::Dir { path, entries: sub } => {
                lemma_bounds_nonneg(sub@, sub@.len());
            },
        }
    }
    if k == 0 || k > entries.len() {
    } else {
        lemma_list_bound_nonneg(entries, k);
    }
    lemma_list_bound_nonneg(entries, entries.len());
}

proof fn lemma_list_bound_nonneg(entries: Seq<PackEntry>, k: nat)
    requires
        forall|i: int| 0 <= i < entries.len() ==> body_bound(#[trigger] entries[i]) >= 0,
    ensures
        list_bound(entries, k) >= 0,
    decreases k,
{
    if k == 0 || k > entries.len() {
    } else {
        lemma_list_bound_nonneg(entries, (k - 1) as nat);
    }
}

/// The first entries need no more than all of them.
pub proof fn lemma_list_bound_grows(entries: Seq<PackEntry>, i: nat, k: nat)
    requires
        i <= k <= entries.len(),
    ensures
        0 <= list_bound(entries, i) <= list_bound(entries, k),
    decreases k - i,
{
    lemma_bounds_nonneg(entries, i);
    if i < k {
        lemma_list_bound_grows(entries, i, (k - 1) as nat);
    }
}

/// What an entry is packed to is no longer than its bound.
pub proof fn lemma_packed_body_len(entry: PackEntry, body: Seq<u8>)
    requires
        packed_body(entry, body),
    ensures
        body.len() <= body_bound(entry),
    decreases entry, 0nat,
{
    match entry {
        PackEntry::File { path, data } => {
            if wants_jpk(encode_utf8(path@)) {
                lemma_jpk_len(body, data@);
            }
        },
        PackEntry::Dir { path, entries } => {
            assert(packed_dir(entries@, body));
            lemma_packed_dir_len(entries@, body);
        },
    }
}

proof fn lemma_jpk_len(body: Seq<u8>, data: Seq<u8>)
    requires
        is_jpk_of(body, data, JpkType::Huffman),
    ensures
        body.len() <= jpk_max_len(data.len()),
{
    reveal(is_jpk_of);
}

proof fn lemma_packed_dir_len(entries: Seq<PackEntry>, body: Seq<u8>)
    requires
        packed_dir(entries, body),
    ensures
        body.len() <= dir_bound(entries),
    decreases entries, entries.len() + 1,
{
    let children = simple_decode(body).unwrap();
    assert(packed_bodies(entries, entries.len(), children));
    assert(body == simple_encode(children));
    lemma_packed_bodies_len(entries, entries.len(), children);
    lemma_simple_len(children);
}

/// What the first `k` entries are packed to needs no more than their bound.
pub proof fn lemma_packed_bodies_len(entries: Seq<PackEntry>, k: nat, children: Seq<Seq<u8>>)
    requires
        packed_bodies(entries, k, children),
    ensures
        8 * children.len() + total_len(children) <= list_bound(entries, k),
    decreases entries, k,
{
    if k == 0 || k > entries.len() {
        assert(total_len(children) == 0);
    } else if entries[k - 1].hidden() {
        lemma_packed_bodies_len(entries, (k - 1) as nat, children);
    } else {
        lemma_packed_bodies_len(entries, (k - 1) as nat, children.drop_last());
        lemma_packed_body_len(entries[k - 1], children.last());
    }
}

/// The bodies of packed entries are packed bodies.
pub proof fn lemma_packed_bodies(entries: Seq<PackEntry>, k: nat, items: Seq<Entry>)
    requires
        packed_entries(entries, k, items),
    ensures
        packed_bodies(entries, k, bodies(items)),
    decreases k,
{
    if k == 0 || k > entries.len() {
    } else if entries[k - 1].hidden() {
        lemma_packed_bodies(entries, (k - 1) as nat, items);
    } else {
        lemma_packed_bodies(entries, (k - 1) as nat, items.drop_last());
        assert(bodies(items).drop_last() =~= bodies(items.drop_last()));
    }
}

/// Gives `path` the extension that `body` suggests.
fn sniffed_path(path: &str, body: &[u8]) -> (r: String)
    ensures
        encode_utf8(r@) == with_extension(
            path.spec_bytes(),
            encode_utf8(extension_of_buf(body@)),
        ),
{
    let mut bytes: Vec<u8> = vstd::slice::slice_to_vec(path.as_bytes());
    let ext = find_buf_extension(body);
    set_extension(&mut bytes, ext.as_bytes());
    proof {
        encode_utf8_valid_utf8(path@);
        encode_utf8_valid_utf8(ext@);
        lemma_with_extension_valid(path.spec_bytes(), ext.spec_bytes());
    }
    match string_from_utf8(bytes.as_slice()) {
        Some(s) => s,
        None => String::new(),
    }
}

/// Whether the last component of `path` begins with a dot.
fn is_hidden(path: &str) -> (r: bool)
    ensures
        r == (file_name(path.spec_bytes()).len() > 0 && file_name(path.spec_bytes())[0] == DOT),
{
    let bytes = path.as_bytes();
    let start: usize = find_name_start(bytes);
    start < bytes.len() && bytes[start] == DOT
}

/// Takes the entries out of the queue and gives their bodies, in order.
fn drain_bodies(queue: &mut Queue<(String, Vec<u8>)>) -> (r: Vec<Vec<u8>>)
    ensures
        views(r@) == bodies(named_views(queue_items(*old(queue)))),
{
    let ghost all = named_views(queue_items(*queue));
    let mut out: Vec<Vec<u8>> = Vec::new();
    assert(views(out@) =~= bodies(all).take(0));
    assert(all.skip(0) =~= all);
    while queue_size(queue) > 0
        invariant
            out.len() + queue_items(*queue).len() == all.len(),
            views(out@) == bodies(all).take(out.len() as int),
            named_views(queue_items(*queue)) == all.skip(out.len() as int),
        decreases queue_items(*queue).len(),
    {
        let ghost before = queue_items(*queue);
        let ghost n = out.len() as int;
        match queue_remove(queue) {
            None => {},
            Some(file) => {
                proof {
                    assert(named_views(before)[0] == all.skip(n)[0]);
                    assert forall|j: int| 0 <= j < before.len() - 1 implies named_views(
                        before.skip(1),
                    )[j] == all.skip(n + 1)[j] by {
                        assert(named_views(before)[j + 1] == all.skip(n)[j + 1]);
                    }
                    assert(named_views(before.skip(1)) =~= all.skip(n + 1));
                }
                out.push(file.1);
                assert(views(out@) =~= bodies(all).take(n + 1));
            },
        }
    }
    assert(bodies(all).take(all.len() as int) =~= bodies(all));
    out
}

/// The Simple Archive of the bodies in the queue, or nothing where they do not fit
/// into one.
fn archive_of_queue(queue: &mut Queue<(String, Vec<u8>)>) -> (r: Option<Vec<u8>>)
    ensures
        r matches Some(buf) ==> buf@ == simple_encode(
            bodies(named_views(queue_items(*old(queue)))),
        ) && simple_decode(buf@) == Ok::<Seq<Seq<u8>>, crate::simple_archive::ArchiveError>(
            bodies(named_views(queue_items(*old(queue)))),
        ),
        r is None ==> simple_len(bodies(named_views(queue_items(*old(queue))))) > u32::MAX,
{
    let simple_archive_vec = drain_bodies(queue);
    if !simple_archive_fits(simple_archive_vec.as_slice()) {
        return None;
    }
    Some(encode_simple_archive(simple_archive_vec.as_slice()))
}

/// Packs a file: compressed where its extension asks for it, else as it is.
fn pack_file(path: &String, data: &Vec<u8>) -> (r: Result<(String, Vec<u8>), PackError>)
    ensures
        r matches Ok(item) ==> packed_entry(
            PackEntry::File { path: *path, data: *data },
            (encode_utf8(item.0@), item.1@),
        ),
        r matches Err(e) ==> e == PackError::TooLarge,
        body_bound(PackEntry::File { path: *path, data: *data }) <= u32::MAX ==> r is Ok,
{
    if should_jpk_compress(path.as_str()) {
        if data.len() > u32::MAX as usize {
            return Err(PackError::TooLarge);
        }
        let comp_buf = match create_jpk(data.as_slice(), 4) {
            Ok(v) => v,
            Err(_) => {
                return Err(PackError::TooLarge);
            },
        };
        let file_path = sniffed_path(path.as_str(), comp_buf.as_slice());
        Ok((file_path, comp_buf))
    } else {
        let file_buf: Vec<u8> = vstd::slice::slice_to_vec(data.as_slice());
        let file_path = sniffed_path(path.as_str(), file_buf.as_slice());
        Ok((file_path, file_buf))
    }
}

/// Packs a directory: the Simple Archive of what its entries are packed to.
fn pack_dir(path: &String, sub: &Vec<PackEntry>) -> (r: Result<(String, Vec<u8>), PackError>)
    ensures
        r matches Ok(item) ==> packed_entry(
            PackEntry::Dir { path: *path, entries: *sub },
            (encode_utf8(item.0@), item.1@),
        ),
        r matches Err(e) ==> e == PackError::TooLarge,
        dir_bound(sub@) <= u32::MAX ==> r is Ok,
    decreases sub, 1nat,
{
    proof {
        lemma_bounds_nonneg(sub@, sub@.len());
    }
    let mut sub_folder_queue = match recursive_pack(sub) {
        Ok(q) => q,
        Err(e) => {
            return Err(e);
        },
    };
    let ghost items = named_views(queue_items(sub_folder_queue));
    proof {
            lemma_packed_bodies(sub@, sub@.len(), items);
        lemma_packed_bodies_len(sub@, sub@.len(), bodies(items));
        lemma_simple_len(bodies(items));
    }
    let simple_archive_buf = match archive_of_queue(&mut sub_folder_queue) {
        Some(buf) => buf,
        None => {
            return Err(PackError::TooLarge);
        },
    };
    let file_path = sniffed_path(path.as_str(), simple_archive_buf.as_slice());
    proof {
        lemma_packed_bodies(sub@, sub@.len(), items);
        assert(packed_dir(sub@, simple_archive_buf@));
    }
    Ok((file_path, simple_archive_buf))
}

/// Packs the entries of a directory: each entry that is not hidden is packed and
/// put into the queue, in the order of the entries.
pub fn recursive_pack(entries: &Vec<PackEntry>) -> (r: Result<
    Queue<(String, Vec<u8>)>,
    PackError,
>)
    ensures
        r matches Ok(queue) ==> packed_entries(
            entries@,
            entries@.len(),
            named_views(queue_items(queue)),
        ),
        r matches Err(e) ==> e == PackError::TooLarge,
        list_bound(entries@, entries@.len()) <= u32::MAX ==> r is Ok,
    decreases entries, 0nat,
{
    let mut folder_queue: Queue<(String, Vec<u8>)> = queue_new();
    let mut i: usize = 0;
    assert(named_views(queue_items(folder_queue)) =~= Seq::<Entry>::empty());
    while i < entries.len()
        invariant
            i <= entries.len(),
            packed_entries(entries@, i as nat, named_views(queue_items(folder_queue))),
        decreases entries.len() - i,
    {
        let ghost before = named_views(queue_items(folder_queue));
        proof {
            lemma_list_bound_grows(entries@, (i + 1) as nat, entries@.len());
            lemma_list_bound_grows(entries@, i as nat, (i + 1) as nat);
            lemma_bounds_nonneg(entries@, i as nat);
        }
        let hidden: bool = match &entries[i] {
            PackEntry::File { path, .. } => is_hidden(path.as_str()),
            PackEntry::Dir { path, .. } => is_hidden(path.as_str()),
        };
        if !hidden {
            let packed = match &entries[i] {
                PackEntry::File { path, data } => pack_file(path, data),
                PackEntry::Dir { path, entries: sub } => pack_dir(path, sub),
            };
            match packed {
                Err(e) => {
                    return Err(e);
                },
                Ok(item) => {
                    let ghost view = (encode_utf8(item.0@), item.1@);
                    assert(packed_entry(entries@[i as int], view));
                    queue_add(&mut folder_queue, item.0, item.1);
                    proof {
                        let after = named_views(queue_items(folder_queue));
                        assert(after.drop_last() =~= before);
                        assert(after.last() == view);
                    }
                },
            }
        }
        i = i + 1;
    }
    Ok(folder_queue)
}

/// The names and bodies of the entries of a queue whose paths name a file.
pub open spec fn named_items(items: Seq<Entry>, k: nat) -> Seq<Entry>
    decreases k,
{
    if k == 0 || k > items.len() {
        Seq::empty()
    } else if has_file_name(items[k - 1].0) {
        named_items(items, (k - 1) as nat).push((file_name(items[k - 1].0), items[k - 1].1))
    } else {
        named_items(items, (k - 1) as nat)
    }
}

/// What packing the entries of a directory gives, for each way of packing: the
/// Simple Archive of the packed bodies, the MHA archive of the packed bodies under
/// their file names, or the packed bodies one after another.
pub open spec fn packed_folder(
    entries: Seq<PackEntry>,
    pack_type: FolderPackType,
    out: Seq<u8>,
) -> bool {
    match pack_type {
        FolderPackType::Simple => packed_dir(entries, out),
        FolderPackType::MHA(base_id, capacity) => exists|items: Seq<Entry>| #[trigger]
            packed_entries(entries, entries.len(), items) && out == mha_encode(
                named_items(items, items.len()),
                base_id,
                capacity,
            ),
        FolderPackType::Monster => exists|items: Seq<Entry>| #[trigger]
            packed_entries(entries, entries.len(), items) && out == concat(bodies(items)),
    }
}

/// A length that the MHA record, the name and the body of each of the first `k`
/// entries do not exceed together.
pub open spec fn named_bound(entries: Seq<PackEntry>, k: nat) -> int
    decreases k,
{
    if k == 0 || k > entries.len() {
        0
    } else if entries[k - 1].hidden() {
        named_bound(entries, (k - 1) as nat)
    } else {
        named_bound(entries, (k - 1) as nat) + 26 + entries[k - 1].path_bytes().len()
            + body_bound(entries[k - 1])
    }
}

/// A length that the result of packing the entries in the given way does not
/// exceed where it is below 2^32; packing succeeds where this bound is.
pub open spec fn folder_bound(entries: Seq<PackEntry>, pack_type: FolderPackType) -> int {
    match pack_type {
        FolderPackType::Simple => dir_bound(entries),
        FolderPackType::MHA(_, _) => if list_bound(entries, entries.len()) >= 24 + named_bound(
            entries,
            entries.len(),
        ) {
            list_bound(entries, entries.len())
        } else {
            24 + named_bound(entries, entries.len())
        },
        FolderPackType::Monster => list_bound(entries, entries.len()),
    }
}

/// The named items among the first `k` do not depend on the items after them.
proof fn lemma_named_items_prefix(items: Seq<Entry>, k: nat)
    requires
        k < items.len(),
    ensures
        named_items(items, k) == named_items(items.drop_last(), k),
    decreases k,
{
    if k > 0 {
        lemma_named_items_prefix(items, (k - 1) as nat);
    }
}

/// The length that the named items need in an MHA archive, less its header.
pub open spec fn named_len(files: Seq<Entry>) -> int {
    total_len(bodies_of(files)) + total_len(names_of(files)) + 20 * files.len()
}

proof fn lemma_named_len_push(files: Seq<Entry>, e: Entry)
    ensures
        named_len(files.push(e)) == named_len(files) + e.1.len() + e.0.len() + 1 + 20,
        named_len(Seq::<Entry>::empty()) == 0,
{
    let more = files.push(e);
    assert(bodies_of(more).drop_last() =~= bodies_of(files));
    assert(names_of(more).drop_last() =~= names_of(files));
    assert(bodies_of(more).last() == e.1);
    assert(names_of(more).last() == e.0 + seq![0u8]);
    assert(bodies_of(Seq::<Entry>::empty()) =~= Seq::<Seq<u8>>::empty());
    assert(names_of(Seq::<Entry>::empty()) =~= Seq::<Seq<u8>>::empty());
}

/// The named items of packed entries need no more than the bound of the entries.
proof fn lemma_named_len(entries: Seq<PackEntry>, k: nat, items: Seq<Entry>)
    requires
        packed_entries(entries, k, items),
    ensures
        0 <= named_len(named_items(items, items.len())) <= named_bound(entries, k),
    decreases k,
{
    lemma_named_len_push(Seq::empty(), (Seq::empty(), Seq::empty()));
    if k == 0 || k > entries.len() {
    } else if entries[k - 1].hidden() {
        lemma_named_len(entries, (k - 1) as nat, items);
    } else {
        let front = items.drop_last();
        let last = items.last();
        let entry = entries[k - 1];
        lemma_named_len(entries, (k - 1) as nat, front);
        lemma_named_items_prefix(items, front.len());
        lemma_packed_body_len(entry, last.1);
        lemma_extension_len(last.1);
        crate::path::lemma_last_index_of(last.0, SEPARATOR);
        crate::path::lemma_last_index_of(entry.path_bytes(), SEPARATOR);
        crate::path::lemma_last_index_of(file_name(entry.path_bytes()), DOT);
        let before = named_items(items, front.len());
        if has_file_name(last.0) {
            lemma_named_len_push(before, (file_name(last.0), last.1));
        }
        lemma_bounds_nonneg(entries, k);
    }
}

/// The last component of a path that is valid UTF-8 is valid UTF-8.
proof fn lemma_file_name_valid(p: Seq<u8>)
    requires
        valid_utf8(p),
    ensures
        valid_utf8(file_name(p)),
{
    let k = name_start(p);
    crate::path::lemma_last_index_of(p, SEPARATOR);
    if k == 0 {
        assert(p.skip(0) =~= p);
    } else {
        vstd::utf8::is_char_boundary_iff_not_is_continuation_byte(p, k - 1);
        vstd::utf8::valid_utf8_split(p, k - 1);
        let q = p.subrange(k - 1, p.len() as int);
        assert(q[0] == SEPARATOR);
        assert(vstd::utf8::is_leading_byte_width_1(q[0])) by {
            let b: u8 = q[0];
            assert(b == 0x2f ==> b & 0x80 == 0) by (bit_vector);
        }
        assert(vstd::utf8::pop_first_scalar(q) =~= p.skip(k));
    }
}

/// Takes the entries out of the queue and gives those whose path names a file,
/// each under its file name.
fn drain_named(queue: &mut Queue<(String, Vec<u8>)>) -> (r: Vec<(String, Vec<u8>)>)
    ensures
        entry_views(r@) == named_items(
            named_views(queue_items(*old(queue))),
            queue_items(*old(queue)).len(),
        ),
{
    let ghost items = named_views(queue_items(*queue));
    let mut mha_vec: Vec<(String, Vec<u8>)> = Vec::new();
    let ghost mut taken: nat = 0;
    assert(entry_views(mha_vec@) =~= named_items(items, 0));
    assert(items.skip(0) =~= items);
    while queue_size(queue) > 0
        invariant
            taken + queue_items(*queue).len() == items.len(),
            named_views(queue_items(*queue)) == items.skip(taken as int),
            entry_views(mha_vec@) == named_items(items, taken),
        decreases queue_items(*queue).len(),
    {
        let ghost before = queue_items(*queue);
        let ghost names_before = entry_views(mha_vec@);
        match queue_remove(queue) {
            None => {},
            Some(file) => {
                proof {
                    assert(named_views(before)[0] == items.skip(taken as int)[0]);
                    assert forall|j: int| 0 <= j < before.len() - 1 implies named_views(
                        before.skip(1),
                    )[j] == items.skip(taken as int + 1)[j] by {
                        assert(named_views(before)[j + 1] == items.skip(taken as int)[j + 1]);
                    }
                    assert(named_views(before.skip(1)) =~= items.skip(taken as int + 1));
                    encode_utf8_valid_utf8(file.0@);
                    lemma_file_name_valid(encode_utf8(file.0@));
                }
                let path_bytes = file.0.as_str().as_bytes();
                if names_file(path_bytes) {
                    let start: usize = find_name_start(path_bytes);
                    let name_bytes = vstd::slice::slice_subrange(
                        path_bytes,
                        start,
                        path_bytes.len(),
                    );
                    assert(name_bytes@ =~= file_name(path_bytes@));
                    let name = match string_from_utf8(name_bytes) {
                        Some(s) => s,
                        None => String::new(),
                    };
                    let body: Vec<u8> = vstd::slice::slice_to_vec(file.1.as_slice());
                    mha_vec.push((name, body));
                    assert(entry_views(mha_vec@) =~= names_before.push(
                        (file_name(path_bytes@), file.1@),
                    ));
                }
                proof {
                    taken = taken + 1;
                }
            },
        }
    }
    mha_vec
}

/// The MHA archive of the entries in the queue whose paths name a file, or nothing
/// where they do not fit into one.
fn mha_of_queue(queue: &mut Queue<(String, Vec<u8>)>, base_file_id: u16, capacity: u16) -> (r:
    Option<Vec<u8>>)
    ensures
        r matches Some(buf) ==> buf@ == mha_encode(
            named_items(
                named_views(queue_items(*old(queue))),
                queue_items(*old(queue)).len(),
            ),
            base_file_id,
            capacity,
        ),
        r is None ==> 24 + named_len(
            named_items(
                named_views(queue_items(*old(queue))),
                queue_items(*old(queue)).len(),
            ),
        ) > u32::MAX,
{
    let mha_vec = drain_named(queue);
    if !mha_archive_fits(&mha_vec) {
        return None;
    }
    Some(encode_mha_archive(mha_vec, base_file_id, capacity))
}

/// The bodies of the entries in the queue, one after another.
fn bodies_of_queue(queue: &mut Queue<(String, Vec<u8>)>) -> (out: Vec<u8>)
    ensures
        out@ == concat(bodies(named_views(queue_items(*old(queue))))),
{
    let bodies_vec = drain_bodies(queue);
    let mut out: Vec<u8> = Vec::new();
    let ghost parts = views(bodies_vec@);
    let mut i: usize = 0;
    assert(parts.take(0) =~= Seq::<Seq<u8>>::empty());
    while i < bodies_vec.len()
        invariant
            i <= bodies_vec.len(),
            parts == views(bodies_vec@),
            out@ == concat(parts.take(i as int)),
        decreases bodies_vec.len() - i,
    {
        crate::path::append_bytes(&mut out, bodies_vec[i].as_slice());
        proof {
            assert(parts.take(i + 1).drop_last() =~= parts.take(i as int));
            assert(parts.take(i + 1).last() == bodies_vec@[i as int]@);
        }
        i = i + 1;
    }
    assert(parts.take(bodies_vec.len() as int) =~= parts);
    out
}

/// Packs the entries of a directory into one buffer: a Simple Archive of the
/// bodies, an MHA archive of the bodies under their file names, or the bodies one
/// after another.
pub fn pack_folder(entries: &Vec<PackEntry>, pack_type: FolderPackType) -> (r: Result<
    Vec<u8>,
    PackError,
>)
    ensures
        r matches Ok(out) ==> packed_folder(entries@, pack_type, out@),
        r matches Err(e) ==> e == PackError::TooLarge,
        folder_bound(entries@, pack_type) <= u32::MAX ==> r is Ok,
{
    proof {
        lemma_bounds_nonneg(entries@, entries@.len());
    }
    let mut folder_queue = match recursive_pack(entries) {
        Ok(q) => q,
        Err(e) => {
            return Err(e);
        },
    };
    let ghost items = named_views(queue_items(folder_queue));
    match pack_type {
        FolderPackType::Simple => {
            proof {
                            lemma_packed_bodies(entries@, entries@.len(), items);
                lemma_packed_bodies_len(entries@, entries@.len(), bodies(items));
                lemma_simple_len(bodies(items));
            }
            match archive_of_queue(&mut folder_queue) {
                Some(out) => Ok(out),
                None => Err(PackError::TooLarge),
            }
        },
        FolderPackType::MHA(base_file_id, capacity) => {
            proof {
                lemma_named_len(entries@, entries@.len(), items);
            }
            match mha_of_queue(&mut folder_queue, base_file_id, capacity) {
                Some(out) => Ok(out),
                None => Err(PackError::TooLarge),
            }
        },
        FolderPackType::Monster => Ok(bodies_of_queue(&mut folder_queue)),
    }
}

} // verus!
