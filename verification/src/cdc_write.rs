//! Storing a file in chunks.
//!
//! A file becomes a tree: an empty blob as the marker, then one blob per chunk.
//! [`write_cdc_file`] starts the work. The caller then stores what
//! [`CdcWrite::wanted`] names and hands the outcome to [`CdcWrite::supply`],
//! until that gives the id of the file or an error.
use vstd::prelude::*;

use crate::backend::{BackendError, BackendErrorView, FileId, ObjectId, Source};
use crate::chunk_name;
use crate::chunker;
use crate::tree::{MODE_BLOB, TreeEntry};

verus! {

/// What the caller is to store.
#[derive(Debug)]
pub enum WriteRequest<'a> {
    /// A blob with these contents.
    Blob(&'a [u8]),
    /// A tree with these entries.
    Tree(&'a [TreeEntry]),
}

/// The value of a [`WriteRequest`].
pub enum WriteRequestView {
    Blob(Seq<u8>),
    Tree(Seq<(u16, Seq<u8>, Seq<u8>)>),
}

/// `entries`, each taken by its value.
pub open spec fn tree_view(entries: Seq<TreeEntry>) -> Seq<(u16, Seq<u8>, Seq<u8>)> {
    entries.map_values(|entry: TreeEntry| entry@)
}

impl<'a> View for WriteRequest<'a> {
    type V = WriteRequestView;

    open spec fn view(&self) -> WriteRequestView {
        match *self {
            WriteRequest::Blob(bytes) => WriteRequestView::Blob(bytes@),
            WriteRequest::Tree(entries) => WriteRequestView::Tree(tree_view(entries@)),
        }
    }
}

/// A file that is being stored, by value: its contents, where they are cut, and
/// the ids of what is stored so far, the marker first.
pub struct WriteState {
    pub bytes: Seq<u8>,
    pub chunks: Seq<(usize, usize)>,
    pub oids: Seq<Seq<u8>>,
}

/// The entry at position `i` of a tree that holds a file in chunks, for an
/// object stored under `oid`: the marker, or the chunk before position `i`.
pub open spec fn cdc_entry(i: int, oid: Seq<u8>) -> (u16, Seq<u8>, Seq<u8>) {
    (
        MODE_BLOB,
        if i == 0 {
            chunk_name::marker_name()
        } else {
            chunk_name::chunk_name((i - 1) as nat)
        },
        oid,
    )
}

/// The entries of a tree that holds a file in chunks, given the ids of the marker
/// and of the chunks.
pub open spec fn cdc_entries(oids: Seq<Seq<u8>>) -> Seq<(u16, Seq<u8>, Seq<u8>)> {
    oids.map(|i: int, oid: Seq<u8>| cdc_entry(i, oid))
}

impl WriteState {
    /// Whether the chunks cover the contents and no more is stored than there is
    /// to store.
    pub open spec fn valid(self) -> bool {
        &&& chunker::covers(self.chunks, self.bytes.len())
        &&& self.oids.len() <= self.chunks.len() + 1
    }

    /// What is to be stored next: the empty marker, then each chunk in turn, then
    /// the tree of all of them.
    pub open spec fn wanted(self) -> WriteRequestView {
        let stored = self.oids.len();
        if stored == 0 {
            WriteRequestView::Blob(seq![])
        } else if stored <= self.chunks.len() {
            WriteRequestView::Blob(chunker::chunk_bytes(self.bytes, self.chunks, stored - 1))
        } else {
            WriteRequestView::Tree(cdc_entries(self.oids))
        }
    }

    /// What an error calls that which is to be stored next.
    pub open spec fn wanted_type(self) -> Seq<char> {
        let stored = self.oids.len();
        if stored == 0 {
            "cdc marker"@
        } else if stored <= self.chunks.len() {
            "cdc chunk"@
        } else {
            "cdc tree"@
        }
    }

    /// What follows once the store has answered: a failure ends the work, the id
    /// of the tree is the id of the file, and any other id is kept.
    pub open spec fn supply<E>(self, written: Result<Seq<u8>, E>) -> WriteStepView<E> {
        match written {
            Err(error) => WriteStepView::Done(
                Err(
                    BackendErrorView::WriteObject {
                        object_type: self.wanted_type(),
                        source: Source::Store(error),
                    },
                ),
            ),
            Ok(oid) => if self.oids.len() > self.chunks.len() {
                WriteStepView::Done(Ok(oid))
            } else {
                WriteStepView::More(WriteState { oids: self.oids.push(oid), ..self })
            },
        }
    }
}

/// The value of a [`WriteStep`].
pub enum WriteStepView<E> {
    More(WriteState),
    Done(Result<Seq<u8>, BackendErrorView<E>>),
}

/// What follows an answer of the store.
#[derive(Debug)]
pub enum WriteStep<'a, E> {
    /// There is more to store.
    More(CdcWrite<'a>),
    /// The work is done, or has failed.
    Done(Result<FileId, BackendError<E>>),
}

impl<'a, E> View for WriteStep<'a, E> {
    type V = WriteStepView<E>;

    open spec fn view(&self) -> WriteStepView<E> {
        match *self {
            WriteStep::More(write) => WriteStepView::More(write@),
            WriteStep::Done(Ok(id)) => WriteStepView::Done(Ok(id@)),
            WriteStep::Done(Err(error)) => WriteStepView::Done(Err(error@)),
        }
    }
}

/// A file that is being stored.
#[derive(Debug)]
pub struct CdcWrite<'a> {
    bytes: &'a [u8],
    chunks: Vec<(usize, usize)>,
    entries: Vec<TreeEntry>,
}

impl<'a> View for CdcWrite<'a> {
    type V = WriteState;

    closed spec fn view(&self) -> WriteState {
        WriteState {
            bytes: self.bytes@,
            chunks: self.chunks@,
            oids: self.entries@.map_values(|entry: TreeEntry| entry.oid@),
        }
    }
}

impl<'a> CdcWrite<'a> {
    #[verifier::type_invariant]
    spec fn in_step(self) -> bool {
        &&& self@.valid()
        &&& tree_view(self.entries@) == cdc_entries(self@.oids)
    }

    /// Starts storing a file that is cut at `chunks`, pairs of an offset and a
    /// length.
    pub fn new(bytes: &'a [u8], chunks: Vec<(usize, usize)>) -> (write: CdcWrite<'a>)
        requires
            chunker::covers(chunks@, bytes@.len()),
        ensures
            write@ == (WriteState { bytes: bytes@, chunks: chunks@, oids: seq![] }),
    {
        let entries: Vec<TreeEntry> = Vec::new();
        proof {
            let oids = entries@.map_values(|entry: TreeEntry| entry.oid@);
            assert(oids =~= Seq::<Seq<u8>>::empty());
            assert(tree_view(entries@) =~= cdc_entries(oids));
        }
        CdcWrite { bytes, chunks, entries }
    }

    /// What is to be stored next.
    pub fn wanted(&self) -> (request: WriteRequest<'_>)
        ensures
            request@ == self@.wanted(),
            self@.valid(),
            self@.oids.len() == 0 ==> (request matches WriteRequest::Blob(data) && data@.len()
                == 0),
            0 < self@.oids.len() <= self@.chunks.len() ==> (request matches WriteRequest::Blob(data)
                && data@ == self@.bytes.subrange(
                self@.chunks[self@.oids.len() - 1].0 as int,
                self@.chunks[self@.oids.len() - 1].0 + self@.chunks[self@.oids.len() - 1].1,
            )),
            self@.oids.len() > self@.chunks.len() ==> (request matches WriteRequest::Tree(entries)
                && entries@.len() == self@.oids.len() && entries@[0].filename@ == seq![
                0x2eu8,
                0x63u8,
                0x64u8,
                0x63u8,
            ] && (forall|i: int|
                0 <= i < entries@.len() ==> (#[trigger] entries@[i]).mode == 0o100644
                    && entries@[i].oid@ == self@.oids[i]) && (forall|i: int|
                0 < i < entries@.len() ==> (#[trigger] entries@[i]).filename@
                    == chunk_name::chunk_name((i - 1) as nat))),
    {
        proof {
            use_type_invariant(self);
        }
        let stored: usize = self.entries.len();
        if stored == 0 {
            let empty = vstd::slice::slice_subrange(self.bytes, 0, 0);
            assert(empty@ =~= Seq::<u8>::empty());
            WriteRequest::Blob(empty)
        } else if stored <= self.chunks.len() {
            let (offset, length) = self.chunks[stored - 1];
            let size: usize = self.bytes.len();
            proof {
                chunker::chunks_in_bounds(self.chunks@, size as nat, stored - 1);
            }
            WriteRequest::Blob(vstd::slice::slice_subrange(self.bytes, offset, offset + length))
        } else {
            proof {
                assert forall|i: int| 0 <= i < self.entries@.len() implies (
                #[trigger] self.entries@[i])@ == cdc_entry(i, self@.oids[i]) by {
                    assert(tree_view(self.entries@)[i] == cdc_entries(self@.oids)[i]);
                }
                assert(self.entries@[0]@ == cdc_entry(0, self@.oids[0]));
            }
            WriteRequest::Tree(self.entries.as_slice())
        }
    }

    /// Takes the answer of the store to what [`CdcWrite::wanted`] named: the id
    /// under which it is stored, or the store's error.
    pub fn supply<E>(self, written: Result<ObjectId, E>) -> (step: WriteStep<'a, E>)
        ensures
            step@ == self@.supply(
                match written {
                    Ok(oid) => Ok::<Seq<u8>, E>(oid@),
                    Err(error) => Err(error),
                },
            ),
            written matches Ok(oid) ==> if self@.oids.len() > self@.chunks.len() {
                step matches WriteStep::Done(Ok(id)) && id@ == oid@
            } else {
                step matches WriteStep::More(next) && next@ == (WriteState {
                    bytes: self@.bytes,
                    chunks: self@.chunks,
                    oids: self@.oids.push(oid@),
                })
            },
            written matches Err(error) ==> (step matches WriteStep::Done(
                Err(BackendError::WriteObject { object_type, source }),
            ) && source == Source::Store(error) && object_type@ == if self@.oids.len() == 0 {
                "cdc marker"@
            } else if self@.oids.len() <= self@.chunks.len() {
                "cdc chunk"@
            } else {
                "cdc tree"@
            }),
    {
        proof {
            use_type_invariant(&self);
        }
        let stored: usize = self.entries.len();
        let oid = match written {
            Ok(oid) => oid,
            Err(error) => {
                let object_type = if stored == 0 {
                    "cdc marker"
                } else if stored <= self.chunks.len() {
                    "cdc chunk"
                } else {
                    "cdc tree"
                };
                return WriteStep::Done(
                    Err(BackendError::WriteObject { object_type, source: Source::Store(error) }),
                );
            },
        };
        if stored > self.chunks.len() {
            return WriteStep::Done(Ok(FileId::from_bytes(oid.as_bytes())));
        }
        let filename = if stored == 0 {
            chunk_name::marker_filename()
        } else {
            chunk_name::chunk_filename(stored - 1)
        };
        let ghost before = self@;
        let CdcWrite { bytes, chunks, mut entries } = self;
        let ghost old_entries = entries@;
        let ghost oid_value = oid@;
        entries.push(TreeEntry { mode: MODE_BLOB, filename, oid });
        proof {
            let oids = entries@.map_values(|entry: TreeEntry| entry.oid@);
            assert(oids =~= before.oids.push(oid_value));
            assert(tree_view(entries@) =~= tree_view(old_entries).push(
                cdc_entry(stored as int, oid_value),
            ));
            assert(cdc_entries(oids) =~= cdc_entries(before.oids).push(
                cdc_entry(stored as int, oid_value),
            ));
        }
        WriteStep::More(CdcWrite { bytes, chunks, entries })
    }
}

/// Starts storing a file with the contents `bytes`, cut into chunks by FastCDC.
pub fn write_cdc_file(bytes: &[u8]) -> (write: CdcWrite<'_>)
    ensures
        write@ == (WriteState {
            bytes: bytes@,
            chunks: chunker::file_chunks(bytes@),
            oids: seq![],
        }),
        write@.valid(),
        write@.chunks == chunker::fastcdc_chunks(
            bytes@,
            chunker::chunk_sizes(bytes@.len()).0 as usize,
            chunker::chunk_sizes(bytes@.len()).1 as usize,
            chunker::chunk_sizes(bytes@.len()).2 as usize,
        ),
        chunker::sized(
            write@.chunks,
            chunker::chunk_sizes(bytes@.len()).0 as nat,
            chunker::chunk_sizes(bytes@.len()).2 as nat,
        ),
{
    CdcWrite::new(bytes, chunker::chunk_file(bytes))
}

/// Every entry of the tree of a file in chunks, that of the marker as well as that of each
/// chunk, has the mode of a plain file, so that Git takes it for a blob and keeps it as
/// long as the tree.
pub proof fn entries_are_plain_files(oids: Seq<Seq<u8>>, i: int)
    requires
        0 <= i < oids.len(),
    ensures
        cdc_entries(oids).len() == oids.len(),
        cdc_entries(oids)[i].0 == 0o100644,
        cdc_entries(oids)[i].2 == oids[i],
{
}

/// What is to be stored is taken as it stands, and so is what follows an answer.
pub proof fn requests_by_value<'a, E>(
    data: &'a [u8],
    entries: &'a [TreeEntry],
    i: int,
    id: FileId,
    error: BackendError<E>,
)
    ensures
        WriteRequest::Blob(data)@ == WriteRequestView::Blob(data@),
        WriteRequest::Tree(entries)@ matches WriteRequestView::Tree(views) && views.len()
            == entries@.len() && (0 <= i < entries@.len() ==> views[i].0 == entries@[i].mode
            && views[i].1 == entries@[i].filename@ && views[i].2 == entries@[i].oid@),
        WriteStep::<'a, E>::Done(Ok(id))@ == WriteStepView::<E>::Done(Ok(id@)),
        WriteStep::<'a, E>::Done(Err(error))@ == WriteStepView::<E>::Done(Err(error@)),
{
}

} // verus!
