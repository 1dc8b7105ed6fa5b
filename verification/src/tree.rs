//! Git trees: their entries, and the bytes that store them.
use vstd::prelude::*;

use crate::backend;
use crate::backend::ObjectId;

verus! {

/// Mode of an entry that is a directory.
pub const MODE_TREE: u16 = 0o040000;

/// Mode of an entry that is a file.
pub const MODE_BLOB: u16 = 0o100644;

/// Mode of an entry that is an executable file.
pub const MODE_BLOB_EXECUTABLE: u16 = 0o100755;

/// Mode of an entry that is a symbolic link.
pub const MODE_LINK: u16 = 0o120000;

/// Mode of an entry that is the commit of a submodule.
pub const MODE_COMMIT: u16 = 0o160000;

/// An entry of a tree.
#[derive(Debug, PartialEq, Eq)]
pub struct TreeEntry {
    pub mode: u16,
    pub filename: Vec<u8>,
    pub oid: ObjectId,
}

impl View for TreeEntry {
    type V = (u16, Seq<u8>, Seq<u8>);

    /// The mode, the file name and the id.
    open spec fn view(&self) -> (u16, Seq<u8>, Seq<u8>) {
        (self.mode, self.filename@, self.oid@)
    }
}

impl Clone for TreeEntry {
    fn clone(&self) -> (copy: Self)
        ensures
            copy@ == self@,
    {
        let filename = self.filename.clone();
        assert(filename@ =~= self.filename@);
        TreeEntry { mode: self.mode, filename, oid: self.oid.clone() }
    }
}

/// The octal digits that stand for `mode` in the bytes of a tree.
pub open spec fn mode_text(mode: u16) -> Seq<u8> {
    if mode == MODE_TREE {
        seq![0x34u8, 0x30u8, 0x30u8, 0x30u8, 0x30u8]
    } else if mode == MODE_BLOB {
        seq![0x31u8, 0x30u8, 0x30u8, 0x36u8, 0x34u8, 0x34u8]
    } else if mode == MODE_BLOB_EXECUTABLE {
        seq![0x31u8, 0x30u8, 0x30u8, 0x37u8, 0x35u8, 0x35u8]
    } else if mode == MODE_LINK {
        seq![0x31u8, 0x32u8, 0x30u8, 0x30u8, 0x30u8, 0x30u8]
    } else {
        seq![0x31u8, 0x36u8, 0x30u8, 0x30u8, 0x30u8, 0x30u8]
    }
}

/// Whether `entry` can stand in a tree: its mode is one of the five above, its
/// file name holds no zero byte, and its id is whole.
pub open spec fn valid_entry(entry: (u16, Seq<u8>, Seq<u8>)) -> bool {
    &&& entry.0 == MODE_TREE || entry.0 == MODE_BLOB || entry.0 == MODE_BLOB_EXECUTABLE || entry.0
        == MODE_LINK || entry.0 == MODE_COMMIT
    &&& forall|i: int| 0 <= i < entry.1.len() ==> #[trigger] entry.1[i] != 0
    &&& entry.2.len() == backend::oid_len()
}

/// Whether each of `entries` can stand in a tree.
pub open spec fn valid_tree(entries: Seq<(u16, Seq<u8>, Seq<u8>)>) -> bool {
    forall|i: int| 0 <= i < entries.len() ==> valid_entry(#[trigger] entries[i])
}

/// `entry` as Git stores it: mode, space, file name, zero byte, id.
pub open spec fn entry_bytes(entry: (u16, Seq<u8>, Seq<u8>)) -> Seq<u8> {
    mode_text(entry.0) + seq![0x20u8] + entry.1 + seq![0u8] + entry.2
}

/// A tree with the given entries as Git stores it: one entry after the other.
pub open spec fn tree_bytes(entries: Seq<(u16, Seq<u8>, Seq<u8>)>) -> Seq<u8>
    decreases entries.len(),
{
    if entries.len() == 0 {
        seq![]
    } else {
        entry_bytes(entries[0]) + tree_bytes(entries.skip(1))
    }
}

/// Where `byte` first occurs in `data`; the length of `data` where it does not.
pub open spec fn first_at(data: Seq<u8>, byte: u8) -> nat
    decreases data.len(),
{
    if data.len() == 0 || data[0] == byte {
        0
    } else {
        1 + first_at(data.skip(1), byte)
    }
}

/// The number that the octal digits `digits` write.
pub open spec fn octal_value(digits: Seq<u8>) -> int
    decreases digits.len(),
{
    if digits.len() == 0 {
        0
    } else {
        8 * octal_value(digits.drop_last()) + (digits.last() - 0x30)
    }
}

/// Where the mode ends in the data of a tree: at the seventh byte if that is a space and
/// the byte before it is none, and else at the first space.
pub open spec fn mode_end(data: Seq<u8>) -> nat {
    if data.len() > 6 && data[6] == 0x20 && data[5] != 0x20 {
        6
    } else {
        first_at(data, 0x20)
    }
}

/// The mode that `digits` write. Sixteen bits of it count, and if its first octal
/// digits are 14 it is taken for a directory.
pub open spec fn mode_value(digits: Seq<u8>) -> u16 {
    let mode = octal_value(digits) % 65_536;
    if mode / 4_096 == 12 {
        MODE_TREE
    } else {
        mode as u16
    }
}

/// The entry at the start of the data of a tree, and what follows it. An entry is a mode
/// of at most seven octal digits, a space, a file name, a zero byte, an id. `None` where
/// the data starts with no such thing.
pub open spec fn first_entry(data: Seq<u8>) -> Option<((u16, Seq<u8>, Seq<u8>), Seq<u8>)> {
    let digits_len = mode_end(data);
    let digits = data.take(digits_len as int);
    let rest = data.skip(digits_len + 1int);
    let name_len = first_at(rest, 0);
    if digits_len >= data.len() || digits_len > 7 || (exists|i: int|
        0 <= i < digits_len && !(0x30 <= #[trigger] digits[i] <= 0x37)) || rest.len() < name_len + 1
        + backend::oid_len() {
        None
    } else {
        Some(
            (
                (
                    mode_value(digits),
                    rest.take(name_len as int),
                    rest.subrange(name_len + 1int, name_len + 1int + backend::oid_len()),
                ),
                rest.skip(name_len + 1int + backend::oid_len()),
            ),
        )
    }
}

/// The entries in the data of a tree: for each its mode, file name and id. The first
/// bytes that are no entry end it, and `None` stands in their place.
pub open spec fn tree_entries(data: Seq<u8>) -> Seq<Option<(u16, Seq<u8>, Seq<u8>)>>
    decreases data.len(),
{
    if data.len() == 0 {
        seq![]
    } else {
        match first_entry(data) {
            None => seq![None],
            Some((entry, rest)) => seq![Some(entry)] + tree_entries(rest),
        }
    }
}

/// `entries`, each of them decoded.
pub open spec fn all_decoded(entries: Seq<(u16, Seq<u8>, Seq<u8>)>) -> Seq<
    Option<(u16, Seq<u8>, Seq<u8>)>,
> {
    entries.map_values(|entry: (u16, Seq<u8>, Seq<u8>)| Some(entry))
}

/// `entries` with each byte vector taken as a sequence.
pub open spec fn raw_entry_views(entries: Seq<Option<(u16, Vec<u8>, Vec<u8>)>>) -> Seq<
    Option<(u16, Seq<u8>, Seq<u8>)>,
> {
    entries.map_values(
        |entry: Option<(u16, Vec<u8>, Vec<u8>)>|
            match entry {
                Some(entry) => Some((entry.0, entry.1@, entry.2@)),
                None => None,
            },
    )
}

/// `TreeRefIter::from_bytes` of `gix::objs`, with ids of the SHA-1 kind, run to
/// its end: it gives the entries that the data holds.
#[verifier::external_body]
fn decode_raw(data: &[u8]) -> (entries: Vec<Option<(u16, Vec<u8>, Vec<u8>)>>)
    ensures
        raw_entry_views(entries@) == tree_entries(data@),
{
    gix::objs::TreeRefIter::from_bytes(data, gix::hash::Kind::Sha1)
        .map(|entry| entry.ok())
        .map(|entry| entry.map(|e| (e.mode.value(), e.filename.to_vec(), e.oid.as_bytes().to_vec())))
        .collect()
}

/// Every entry in the data of a tree has a whole id, and only the last of what is
/// found there can be no entry.
pub proof fn entries_whole_until_end(data: Seq<u8>, i: int)
    requires
        0 <= i < tree_entries(data).len(),
    ensures
        tree_entries(data)[i] matches Some(entry) ==> entry.2.len() == backend::oid_len(),
        tree_entries(data)[i] is None ==> i == tree_entries(data).len() - 1,
    decreases data.len(),
{
    if let Some((entry, rest)) = first_entry(data) {
        if i > 0 {
            entries_whole_until_end(rest, i - 1);
        }
    }
}

/// `entries` with each entry taken by its value.
pub open spec fn entry_views(entries: Seq<Option<TreeEntry>>) -> Seq<
    Option<(u16, Seq<u8>, Seq<u8>)>,
> {
    entries.map_values(
        |entry: Option<TreeEntry>|
            match entry {
                Some(entry) => Some(entry@),
                None => None,
            },
    )
}

/// The entries in the data of a tree, with `None` in place of bytes that are no
/// entry.
pub fn decode_tree(data: &[u8]) -> (entries: Vec<Option<TreeEntry>>)
    ensures
        entry_views(entries@) == tree_entries(data@),
{
    let raw = decode_raw(data);
    let ghost decoded = raw@;
    proof {
        assert forall|j: int| 0 <= j < decoded.len() implies (#[trigger] decoded[j] matches Some(
            entry,
        ) ==> entry.2@.len() == backend::oid_len()) by {
            entries_whole_until_end(data@, j);
            assert(raw_entry_views(decoded)[j] == tree_entries(data@)[j]);
        }
    }
    let mut entries: Vec<Option<TreeEntry>> = Vec::new();
    let mut i: usize = 0;
    while i < raw.len()
        invariant
            i <= raw@.len(),
            raw@ == decoded,
            entry_views(entries@) == raw_entry_views(decoded).take(i as int),
            forall|j: int|
                0 <= j < decoded.len() ==> (#[trigger] decoded[j] matches Some(entry)
                    ==> entry.2@.len() == backend::oid_len()),
        decreases raw@.len() - i,
    {
        let ghost before = entries@;
        match &raw[i] {
            Some(entry) => {
                assert(decoded[i as int] is Some);
                match ObjectId::from_bytes(entry.2.as_slice()) {
                    Some(oid) => {
                        let filename = vstd::slice::slice_to_vec(entry.1.as_slice());
                        entries.push(Some(TreeEntry { mode: entry.0, filename, oid }));
                    },
                    None => {
                        assert(false);
                    },
                }
            },
            None => {
                entries.push(None);
            },
        }
        i += 1;
        assert(entry_views(entries@) =~= raw_entry_views(decoded).take(i as int)) by {
            assert(entry_views(entries@) =~= entry_views(before).push(
                raw_entry_views(decoded)[i - 1],
            ));
        }
    }
    assert(raw_entry_views(decoded).take(i as int) =~= raw_entry_views(decoded));
    entries
}

proof fn lemma_first_at_after(prefix: Seq<u8>, byte: u8, rest: Seq<u8>)
    requires
        forall|i: int| 0 <= i < prefix.len() ==> #[trigger] prefix[i] != byte,
    ensures
        first_at(prefix + seq![byte] + rest, byte) == prefix.len(),
    decreases prefix.len(),
{
    let data = prefix + seq![byte] + rest;
    if prefix.len() > 0 {
        assert(prefix[0] != byte);
        assert forall|i: int| 0 <= i < prefix.skip(1).len() implies #[trigger] prefix.skip(1)[i]
            != byte by {
            assert(prefix.skip(1)[i] == prefix[i + 1]);
        }
        lemma_first_at_after(prefix.skip(1), byte, rest);
        assert(data.skip(1) =~= prefix.skip(1) + seq![byte] + rest);
    }
}

proof fn lemma_octal_push(digits: Seq<u8>, digit: u8)
    ensures
        octal_value(digits.push(digit)) == 8 * octal_value(digits) + (digit - 0x30),
{
    assert(digits.push(digit).drop_last() =~= digits);
}

proof fn lemma_octal_six(a: u8, b: u8, c: u8, d: u8, e: u8, f: u8)
    ensures
        octal_value(seq![a, b, c, d, e]) == 4_096 * (a - 0x30) + 512 * (b - 0x30) + 64 * (c - 0x30)
            + 8 * (d - 0x30) + (e - 0x30),
        octal_value(seq![a, b, c, d, e, f]) == 32_768 * (a - 0x30) + 4_096 * (b - 0x30) + 512 * (c
            - 0x30) + 64 * (d - 0x30) + 8 * (e - 0x30) + (f - 0x30),
{
    let none = Seq::<u8>::empty();
    assert(octal_value(none) == 0);
    lemma_octal_push(none, a);
    lemma_octal_push(none.push(a), b);
    lemma_octal_push(none.push(a).push(b), c);
    lemma_octal_push(none.push(a).push(b).push(c), d);
    lemma_octal_push(none.push(a).push(b).push(c).push(d), e);
    lemma_octal_push(none.push(a).push(b).push(c).push(d).push(e), f);
    assert(seq![a, b, c, d, e] =~= none.push(a).push(b).push(c).push(d).push(e));
    assert(seq![a, b, c, d, e, f] =~= none.push(a).push(b).push(c).push(d).push(e).push(f));
}

proof fn lemma_mode_text(mode: u16, rest: Seq<u8>)
    requires
        mode == MODE_TREE || mode == MODE_BLOB || mode == MODE_BLOB_EXECUTABLE || mode == MODE_LINK
            || mode == MODE_COMMIT,
    ensures
        mode_end(mode_text(mode) + seq![0x20u8] + rest) == mode_text(mode).len(),
        mode_text(mode).len() <= 7,
        forall|i: int|
            0 <= i < mode_text(mode).len() ==> 0x30 <= #[trigger] mode_text(mode)[i] <= 0x37,
        mode_value(mode_text(mode)) == mode,
{
    let digits = mode_text(mode);
    let data = digits + seq![0x20u8] + rest;
    lemma_first_at_after(digits, 0x20, rest);
    assert(data[digits.len() as int] == 0x20);
    assert(forall|i: int| 0 <= i < digits.len() ==> data[i] == digits[i]);
    lemma_octal_six(0x34, 0x30, 0x30, 0x30, 0x30, 0x30);
    lemma_octal_six(0x31, 0x30, 0x30, 0x36, 0x34, 0x34);
    lemma_octal_six(0x31, 0x30, 0x30, 0x37, 0x35, 0x35);
    lemma_octal_six(0x31, 0x32, 0x30, 0x30, 0x30, 0x30);
    lemma_octal_six(0x31, 0x36, 0x30, 0x30, 0x30, 0x30);
}

proof fn lemma_first_entry_decodes(entry: (u16, Seq<u8>, Seq<u8>), more: Seq<u8>)
    requires
        valid_entry(entry),
    ensures
        first_entry(entry_bytes(entry) + more) == Some((entry, more)),
{
    let digits = mode_text(entry.0);
    let rest = entry.1 + seq![0u8] + (entry.2 + more);
    let data = entry_bytes(entry) + more;
    assert(data =~= digits + seq![0x20u8] + rest);
    lemma_mode_text(entry.0, rest);
    assert(data.take(digits.len() as int) =~= digits);
    assert(data.skip(digits.len() + 1int) =~= rest);
    lemma_first_at_after(entry.1, 0, entry.2 + more);
    assert(rest.take(entry.1.len() as int) =~= entry.1);
    assert(rest.subrange(entry.1.len() + 1int, entry.1.len() + 1int + backend::oid_len())
        =~= entry.2);
    assert(rest.skip(entry.1.len() + 1int + backend::oid_len()) =~= more);
}

/// The data of a tree decodes to the entries that were stored.
pub proof fn stored_tree_decodes(tree: Seq<(u16, Seq<u8>, Seq<u8>)>)
    requires
        valid_tree(tree),
    ensures
        tree_entries(tree_bytes(tree)) == all_decoded(tree),
    decreases tree.len(),
{
    if tree.len() > 0 {
        let rest = tree.skip(1);
        assert(valid_entry(tree[0]));
        assert forall|i: int| 0 <= i < rest.len() implies valid_entry(#[trigger] rest[i]) by {
            assert(valid_entry(tree[i + 1]));
        }
        stored_tree_decodes(rest);
        lemma_first_entry_decodes(tree[0], tree_bytes(rest));
        assert(entry_bytes(tree[0]).len() > 0);
        assert(all_decoded(tree) =~= seq![Some(tree[0])] + all_decoded(rest));
    } else {
        assert(all_decoded(tree) =~= Seq::<Option<(u16, Seq<u8>, Seq<u8>)>>::empty());
    }
}

/// Decoded entries are taken one by one, each by all of its parts.
pub proof fn raw_entries_by_value(entries: Seq<Option<(u16, Vec<u8>, Vec<u8>)>>, i: int)
    requires
        0 <= i < entries.len(),
    ensures
        raw_entry_views(entries).len() == entries.len(),
        entries[i] is None <==> raw_entry_views(entries)[i] is None,
        entries[i] matches Some(entry) ==> raw_entry_views(entries)[i] == Some(
            (entry.0, entry.1@, entry.2@),
        ),
{
}

/// An entry is taken by all of its parts, and entries are taken one by one.
pub proof fn entries_by_value(entry: TreeEntry, entries: Seq<Option<TreeEntry>>, i: int)
    requires
        0 <= i < entries.len(),
    ensures
        entry@.0 == entry.mode,
        entry@.1 == entry.filename@,
        entry@.2 == entry.oid@,
        entry_views(entries).len() == entries.len(),
        entries[i] is None <==> entry_views(entries)[i] is None,
        entries[i] matches Some(entry) ==> entry_views(entries)[i] == Some(entry@),
{
}

} // verus!
