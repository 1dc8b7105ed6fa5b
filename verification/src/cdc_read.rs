//! Reading a file that is stored in chunks, and telling such a file from an
//! ordinary directory.
//!
//! [`read_cdc_file`] starts reading. The caller then looks up the object that
//! [`CdcRead::wanted`] names and hands the outcome to [`CdcRead::supply`], until
//! that gives the contents of the file, an error, or nothing, which means that
//! the file is not stored in chunks.
use vstd::prelude::*;

use crate::backend;
use crate::backend::{
    BackendError, BackendErrorView, FileId, Object, ObjectId, ObjectKind, ObjectView, Source,
};
use crate::bytes;
use crate::chunk_name;
use crate::tree;
use crate::tree::TreeEntry;

verus! {

/// A file that is being read, by value.
pub enum ReadState {
    /// The object that stores the file is to be looked up.
    Root { id: Seq<u8> },
    /// The chunk `oid` of the file `id` is to be looked up. The chunks before it
    /// hold `data`; `rest` is what the tree lists after it.
    Chunk { id: Seq<u8>, data: Seq<u8>, oid: Seq<u8>, rest: Seq<Option<(u16, Seq<u8>, Seq<u8>)>> },
}

/// The value of a [`ReadStep`].
pub enum ReadStepView<E> {
    More(ReadState),
    Done(Result<Option<Seq<u8>>, BackendErrorView<E>>),
}

/// The error for a file `id` that is stored in a tree that cannot be read as a
/// file in chunks.
pub open spec fn unreadable_file<E>(id: Seq<u8>, source: Source<E>) -> BackendErrorView<E> {
    BackendErrorView::ReadObject { object_type: "file"@, hash: bytes::hex(id), source }
}

/// Goes on to the next of the entries `rest`, the chunks so far holding `data`:
/// at the end the file is complete, and bytes that are no entry are an error.
pub open spec fn next_chunk<E>(
    id: Seq<u8>,
    data: Seq<u8>,
    rest: Seq<Option<(u16, Seq<u8>, Seq<u8>)>>,
) -> ReadStepView<E> {
    if rest.len() == 0 {
        ReadStepView::Done(Ok(Some(data)))
    } else {
        match rest[0] {
            None => ReadStepView::Done(Err(unreadable_file(id, Source::MalformedTree))),
            Some(entry) => ReadStepView::More(
                ReadState::Chunk { id, data, oid: entry.2, rest: rest.skip(1) },
            ),
        }
    }
}

/// Whether the first of `entries` is the marker of a file in chunks; `None` where
/// it is bytes that are no entry. A tree without entries has no marker.
pub open spec fn starts_with_marker(entries: Seq<Option<(u16, Seq<u8>, Seq<u8>)>>) -> Option<bool> {
    if entries.len() == 0 {
        Some(false)
    } else {
        match entries[0] {
            None => None,
            Some(entry) => Some(entry.1 == chunk_name::marker_name()),
        }
    }
}

/// Starts on the chunks of the file `id`, which is stored in a tree with the
/// given entries. The marker must come first.
pub open spec fn first_chunk<E>(
    id: Seq<u8>,
    entries: Seq<Option<(u16, Seq<u8>, Seq<u8>)>>,
) -> ReadStepView<E> {
    match starts_with_marker(entries) {
        None => ReadStepView::Done(Err(unreadable_file(id, Source::MalformedTree))),
        Some(false) => ReadStepView::Done(Err(unreadable_file(id, Source::NotCdcTree))),
        Some(true) => next_chunk(id, seq![], entries.skip(1)),
    }
}

impl ReadState {
    /// The id of the object to look up.
    pub open spec fn wanted(self) -> Seq<u8> {
        match self {
            ReadState::Root { id } => id,
            ReadState::Chunk { oid, .. } => oid,
        }
    }

    /// What follows once the object has been looked up. What stores the file is a
    /// tree, or else the file is not stored in chunks; what stores a chunk is a
    /// blob, or else the file cannot be read.
    pub open spec fn supply<E>(self, found: Result<ObjectView, E>) -> ReadStepView<E> {
        match self {
            ReadState::Root { id } => match found {
                Err(error) => ReadStepView::Done(
                    Err(
                        BackendErrorView::ObjectNotFound {
                            object_type: "file"@,
                            hash: bytes::hex(id),
                            source: Source::Store(error),
                        },
                    ),
                ),
                Ok(object) => if object.kind != ObjectKind::Tree {
                    ReadStepView::Done(Ok(None))
                } else {
                    first_chunk(id, tree::tree_entries(object.data))
                },
            },
            ReadState::Chunk { id, data, oid, rest } => match found {
                Err(error) => ReadStepView::Done(
                    Err(
                        BackendErrorView::ObjectNotFound {
                            object_type: "cdc chunk"@,
                            hash: bytes::hex(oid),
                            source: Source::Store(error),
                        },
                    ),
                ),
                Ok(object) => if object.kind != ObjectKind::Blob {
                    ReadStepView::Done(
                        Err(
                            BackendErrorView::ReadObject {
                                object_type: "cdc chunk"@,
                                hash: bytes::hex(oid),
                                source: Source::UnexpectedKind {
                                    expected: ObjectKind::Blob,
                                    actual: object.kind,
                                },
                            },
                        ),
                    )
                } else {
                    next_chunk(id, data + object.data, rest)
                },
            },
        }
    }
}

/// What follows the lookup of an object.
#[derive(Debug)]
pub enum ReadStep<E> {
    /// There is more to look up.
    More(CdcRead),
    /// The contents of the file, `None` if it is not stored in chunks, or an error.
    Done(Result<Option<Vec<u8>>, BackendError<E>>),
}

impl<E> View for ReadStep<E> {
    type V = ReadStepView<E>;

    open spec fn view(&self) -> ReadStepView<E> {
        match *self {
            ReadStep::More(read) => ReadStepView::More(read@),
            ReadStep::Done(Ok(Some(data))) => ReadStepView::Done(Ok(Some(data@))),
            ReadStep::Done(Ok(None)) => ReadStepView::Done(Ok(None)),
            ReadStep::Done(Err(error)) => ReadStepView::Done(Err(error@)),
        }
    }
}

/// A file that is being read.
#[derive(Debug)]
pub struct CdcRead {
    id: FileId,
    oid: ObjectId,
    chunks: Option<Chunks>,
}

/// How far the chunks of a file have been read: what they hold so far, and which
/// of the tree's entries comes next.
#[derive(Debug)]
struct Chunks {
    data: Vec<u8>,
    entries: Vec<Option<TreeEntry>>,
    next: usize,
}

impl View for CdcRead {
    type V = ReadState;

    closed spec fn view(&self) -> ReadState {
        match self.chunks {
            None => ReadState::Root { id: self.id@ },
            Some(chunks) => ReadState::Chunk {
                id: self.id@,
                data: chunks.data@,
                oid: self.oid@,
                rest: tree::entry_views(chunks.entries@).skip(chunks.next as int),
            },
        }
    }
}

/// What a lookup gave, with the object taken by its value.
pub open spec fn found_view<E>(found: Result<Object, E>) -> Result<ObjectView, E> {
    match found {
        Ok(object) => Ok(object@),
        Err(error) => Err(error),
    }
}

/// What starting to read the file `id` gives.
pub open spec fn read_start<E>(id: Seq<u8>) -> Result<ReadState, BackendErrorView<E>> {
    if id.len() == backend::oid_len() {
        Ok(ReadState::Root { id })
    } else {
        Err(backend::invalid_file_id(id))
    }
}

/// Starts reading the file `id`. The id must be as long as that of a Git object.
pub fn read_cdc_file<E>(id: &FileId) -> (read: Result<CdcRead, BackendError<E>>)
    ensures
        match read {
            Ok(read) => read_start::<E>(id@) == Ok::<_, BackendErrorView<E>>(read@),
            Err(error) => read_start::<E>(id@) == Err::<ReadState, _>(error@),
        },
{
    match backend::git_oid_from_file_id(id) {
        Ok(oid) => Ok(CdcRead { id: id.clone(), oid, chunks: None }),
        Err(error) => Err(error),
    }
}

/// Starts on the chunks of the file `id`, which is stored in a tree with the
/// given entries.
pub fn read_cdc_entries<E>(id: FileId, entries: Vec<Option<TreeEntry>>) -> (step: ReadStep<E>)
    ensures
        step@ == first_chunk::<E>(id@, tree::entry_views(entries@)),
{
    let source = match entries_marked(&entries) {
        Some(true) => {
            let step = advance(id, Chunks { data: Vec::new(), entries, next: 1 });
            return step;
        },
        Some(false) => Source::NotCdcTree,
        None => Source::MalformedTree,
    };
    ReadStep::Done(
        Err(BackendError::ReadObject { object_type: "file".to_owned(), hash: id.hex(), source }),
    )
}

/// Whether the first of `entries` is the marker of a file in chunks; `None` where
/// it is bytes that are no entry.
pub fn entries_marked(entries: &Vec<Option<TreeEntry>>) -> (marked: Option<bool>)
    ensures
        marked == starts_with_marker(tree::entry_views(entries@)),
        entries@.len() == 0 ==> marked == Some(false),
        entries@.len() > 0 ==> match entries@[0] {
            None => marked is None,
            Some(entry) => marked == Some(
                entry.filename@ == seq![0x2eu8, 0x63u8, 0x64u8, 0x63u8],
            ),
        },
{
    if entries.len() == 0 {
        return Some(false);
    }
    match &entries[0] {
        None => None,
        Some(entry) => {
            let marker = chunk_name::marker_filename();
            Some(bytes::bytes_equal(entry.filename.as_slice(), marker.as_slice()))
        },
    }
}

fn advance<E>(id: FileId, mut chunks: Chunks) -> (step: ReadStep<E>)
    requires
        chunks.next <= chunks.entries@.len(),
    ensures
        step@ == next_chunk::<E>(
            id@,
            chunks.data@,
            tree::entry_views(chunks.entries@).skip(chunks.next as int),
        ),
{
    let ghost rest = tree::entry_views(chunks.entries@).skip(chunks.next as int);
    if chunks.next == chunks.entries.len() {
        return ReadStep::Done(Ok(Some(chunks.data)));
    }
    let oid = match &chunks.entries[chunks.next] {
        Some(entry) => entry.oid.clone(),
        None => {
            return ReadStep::Done(
                Err(
                    BackendError::ReadObject {
                        object_type: "file".to_owned(),
                        hash: id.hex(),
                        source: Source::MalformedTree,
                    },
                ),
            );
        },
    };
    chunks.next = chunks.next + 1;
    assert(tree::entry_views(chunks.entries@).skip(chunks.next as int) =~= rest.skip(1));
    ReadStep::More(CdcRead { id, oid, chunks: Some(chunks) })
}

impl CdcRead {
    #[verifier::type_invariant]
    spec fn in_step(self) -> bool {
        match self.chunks {
            None => self.oid@ == self.id@,
            Some(chunks) => chunks.next <= chunks.entries@.len(),
        }
    }

    /// The id of the object to look up.
    pub fn wanted(&self) -> (oid: &ObjectId)
        ensures
            oid@ == self@.wanted(),
    {
        proof {
            use_type_invariant(self);
        }
        &self.oid
    }

    /// Takes the outcome of looking up the object that [`CdcRead::wanted`] names:
    /// the object, or the store's error.
    pub fn supply<E>(self, found: Result<Object, E>) -> (step: ReadStep<E>)
        ensures
            step@ == self@.supply(found_view(found)),
    {
        proof {
            use_type_invariant(&self);
        }
        let CdcRead { id, oid, chunks } = self;
        match chunks {
            None => match found {
                Err(error) => ReadStep::Done(
                    Err(
                        BackendError::ObjectNotFound {
                            object_type: "file".to_owned(),
                            hash: id.hex(),
                            source: Source::Store(error),
                        },
                    ),
                ),
                Ok(object) => {
                    if object.kind != ObjectKind::Tree {
                        return ReadStep::Done(Ok(None));
                    }
                    read_cdc_entries(id, tree::decode_tree(object.data.as_slice()))
                },
            },
            Some(mut chunks) => match found {
                Err(error) => ReadStep::Done(
                    Err(
                        BackendError::ObjectNotFound {
                            object_type: "cdc chunk".to_owned(),
                            hash: oid.to_hex(),
                            source: Source::Store(error),
                        },
                    ),
                ),
                Ok(object) => {
                    if object.kind != ObjectKind::Blob {
                        return ReadStep::Done(
                            Err(
                                BackendError::ReadObject {
                                    object_type: "cdc chunk".to_owned(),
                                    hash: oid.to_hex(),
                                    source: Source::UnexpectedKind {
                                        expected: ObjectKind::Blob,
                                        actual: object.kind,
                                    },
                                },
                            ),
                        );
                    }
                    let ghost before = chunks.data@;
                    chunks.data.extend_from_slice(object.data.as_slice());
                    assert(chunks.data@ =~= before + object.data@);
                    advance(id, chunks)
                },
            },
        }
    }
}

/// What [`is_cdc_tree`] asks of the caller.
#[derive(Debug)]
pub enum TreeCheck<E> {
    /// To look up the object itself and to hand it to [`is_cdc_tree_object`].
    FindObject,
    /// Nothing: this is the answer.
    Done(Result<bool, BackendError<E>>),
}

/// The value of a [`TreeCheck`].
pub enum TreeCheckView<E> {
    FindObject,
    Done(Result<bool, BackendErrorView<E>>),
}

impl<E> View for TreeCheck<E> {
    type V = TreeCheckView<E>;

    open spec fn view(&self) -> TreeCheckView<E> {
        match *self {
            TreeCheck::FindObject => TreeCheckView::FindObject,
            TreeCheck::Done(Ok(answer)) => TreeCheckView::Done(Ok(answer)),
            TreeCheck::Done(Err(error)) => TreeCheckView::Done(Err(error@)),
        }
    }
}

/// What the header of the object `oid` tells of it: only a tree can hold a file
/// in chunks.
pub open spec fn check_header<E>(oid: Seq<u8>, header: Result<ObjectKind, E>) -> TreeCheckView<E> {
    match header {
        Err(error) => TreeCheckView::Done(
            Err(
                BackendErrorView::ObjectNotFound {
                    object_type: "object"@,
                    hash: bytes::hex(oid),
                    source: Source::Store(error),
                },
            ),
        ),
        Ok(kind) => if kind != ObjectKind::Tree {
            TreeCheckView::Done(Ok(false))
        } else {
            TreeCheckView::FindObject
        },
    }
}

/// The error for a tree `oid` that cannot be read.
pub open spec fn unreadable_tree<E>(oid: Seq<u8>, source: Source<E>) -> BackendErrorView<E> {
    BackendErrorView::ReadObject { object_type: "tree"@, hash: bytes::hex(oid), source }
}

/// Whether a tree `oid` with the given entries holds a file in chunks.
pub open spec fn check_entries<E>(
    oid: Seq<u8>,
    entries: Seq<Option<(u16, Seq<u8>, Seq<u8>)>>,
) -> Result<bool, BackendErrorView<E>> {
    match starts_with_marker(entries) {
        Some(marked) => Ok(marked),
        None => Err(unreadable_tree(oid, Source::MalformedTree)),
    }
}

/// Whether the object `oid`, whose header says that it is a tree, holds a file in
/// chunks.
pub open spec fn check_object<E>(oid: Seq<u8>, found: Result<ObjectView, E>) -> Result<
    bool,
    BackendErrorView<E>,
> {
    match found {
        Err(error) => Err(
            BackendErrorView::ObjectNotFound {
                object_type: "tree"@,
                hash: bytes::hex(oid),
                source: Source::Store(error),
            },
        ),
        Ok(object) => if object.kind != ObjectKind::Tree {
            Err(
                unreadable_tree(
                    oid,
                    Source::UnexpectedKind { expected: ObjectKind::Tree, actual: object.kind },
                ),
            )
        } else {
            check_entries(oid, tree::tree_entries(object.data))
        },
    }
}

/// What an answer amounts to, with an error taken by its value.
pub open spec fn answer_view<E>(answer: Result<bool, BackendError<E>>) -> Result<
    bool,
    BackendErrorView<E>,
> {
    match answer {
        Ok(answer) => Ok(answer),
        Err(error) => Err(error@),
    }
}

/// Starts telling whether `oid` is a tree that holds a file in chunks, given what
/// looking up the kind of the object gave.
pub fn is_cdc_tree<E>(oid: &ObjectId, header: Result<ObjectKind, E>) -> (check: TreeCheck<E>)
    ensures
        check@ == check_header(oid@, header),
        match header {
            Ok(kind) => if kind == ObjectKind::Tree {
                check is FindObject
            } else {
                check matches TreeCheck::Done(Ok(answer)) && !answer
            },
            Err(error) => check matches TreeCheck::Done(
                Err(BackendError::ObjectNotFound { object_type, hash, source }),
            ) && object_type@ == "object"@ && hash@ == bytes::hex(oid@) && source
                == Source::Store(error),
        },
{
    match header {
        Err(error) => TreeCheck::Done(
            Err(
                BackendError::ObjectNotFound {
                    object_type: "object".to_owned(),
                    hash: oid.to_hex(),
                    source: Source::Store(error),
                },
            ),
        ),
        Ok(kind) => {
            if kind != ObjectKind::Tree {
                TreeCheck::Done(Ok(false))
            } else {
                TreeCheck::FindObject
            }
        },
    }
}

/// Finishes telling whether `oid` is a tree that holds a file in chunks, given
/// what looking up the object gave.
pub fn is_cdc_tree_object<E>(oid: &ObjectId, found: Result<Object, E>) -> (answer: Result<
    bool,
    BackendError<E>,
>)
    ensures
        answer_view(answer) == check_object(oid@, found_view(found)),
        match found {
            Ok(object) => if object.kind == ObjectKind::Tree {
                answer matches Ok(marked) ==> marked == (tree::tree_entries(object.data@).len() > 0
                    && (tree::tree_entries(object.data@)[0] matches Some(entry) && entry.1 == seq![
                    0x2eu8,
                    0x63u8,
                    0x64u8,
                    0x63u8,
                ]))
            } else {
                answer matches Err(BackendError::ReadObject { object_type, hash, source })
                    && object_type@ == "tree"@ && hash@ == bytes::hex(oid@) && source
                    == Source::<E>::UnexpectedKind {
                    expected: ObjectKind::Tree,
                    actual: object.kind,
                }
            },
            Err(error) => answer matches Err(
                BackendError::ObjectNotFound { object_type, hash, source },
            ) && object_type@ == "tree"@ && hash@ == bytes::hex(oid@) && source
                == Source::Store(error),
        },
{
    let object = match found {
        Ok(object) => object,
        Err(error) => {
            return Err(
                BackendError::ObjectNotFound {
                    object_type: "tree".to_owned(),
                    hash: oid.to_hex(),
                    source: Source::Store(error),
                },
            );
        },
    };
    if object.kind != ObjectKind::Tree {
        return Err(
            BackendError::ReadObject {
                object_type: "tree".to_owned(),
                hash: oid.to_hex(),
                source: Source::UnexpectedKind { expected: ObjectKind::Tree, actual: object.kind },
            },
        );
    }
    is_cdc_tree_entries(oid, &tree::decode_tree(object.data.as_slice()))
}

/// Whether a tree `oid` with the given entries holds a file in chunks.
pub fn is_cdc_tree_entries<E>(oid: &ObjectId, entries: &Vec<Option<TreeEntry>>) -> (answer: Result<
    bool,
    BackendError<E>,
>)
    ensures
        answer_view(answer) == check_entries::<E>(oid@, tree::entry_views(entries@)),
{
    match entries_marked(entries) {
        Some(marked) => Ok(marked),
        None => Err(
            BackendError::ReadObject {
                object_type: "tree".to_owned(),
                hash: oid.to_hex(),
                source: Source::MalformedTree,
            },
        ),
    }
}

/// What a lookup gave is taken as it stands, and so is what follows it.
pub proof fn steps_by_value<E>(
    data: Vec<u8>,
    error: BackendError<E>,
    object: Object,
    failure: E,
    answer: bool,
)
    ensures
        ReadStep::<E>::Done(Ok(Some(data)))@ == ReadStepView::<E>::Done(Ok(Some(data@))),
        ReadStep::<E>::Done(Ok(None))@ == ReadStepView::<E>::Done(Ok(None)),
        ReadStep::<E>::Done(Err(error))@ == ReadStepView::<E>::Done(Err(error@)),
        TreeCheck::<E>::FindObject@ == TreeCheckView::<E>::FindObject,
        TreeCheck::<E>::Done(Ok(answer))@ == TreeCheckView::<E>::Done(Ok(answer)),
        TreeCheck::<E>::Done(Err(error))@ == TreeCheckView::<E>::Done(Err(error@)),
        found_view(Ok::<Object, E>(object)) == Ok::<ObjectView, E>(object@),
        found_view(Err::<Object, E>(failure)) == Err::<ObjectView, E>(failure),
        answer_view(Ok::<bool, BackendError<E>>(answer)) == Ok::<bool, BackendErrorView<E>>(answer),
        answer_view(Err::<bool, BackendError<E>>(error)) == Err::<bool, BackendErrorView<E>>(
            error@,
        ),
{
}

} // verus!
