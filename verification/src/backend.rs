//! What passes between the library and the object store: ids, objects, errors.
use vstd::prelude::*;

use crate::bytes;

verus! {

/// Length in bytes of the id of a Git object.
pub open spec fn oid_len() -> nat {
    20
}

/// `Kind::len_in_bytes` of `gix::hash`, on `Kind::Sha1`: twenty bytes.
#[verifier::external_body]
fn sha1_len() -> (len: usize)
    ensures
        len == oid_len(),
{
    gix::hash::Kind::Sha1.len_in_bytes()
}

/// `ObjectId::try_from` of `gix`, on a byte slice: it takes bytes as they are if there
/// are as many as a SHA-1 id has. What it does with another number of bytes depends on
/// the kinds of hash that `gix` is built with, and is not said.
#[verifier::external_body]
fn object_id_bytes(bytes: &[u8]) -> (oid: Option<Vec<u8>>)
    ensures
        bytes@.len() == oid_len() ==> (oid matches Some(oid) && oid@ == bytes@),
{
    gix::ObjectId::try_from(bytes).ok().map(|oid| oid.as_slice().to_vec())
}

/// The id of a Git object.
#[derive(Debug, PartialEq, Eq, Hash)]
pub struct ObjectId {
    bytes: Vec<u8>,
}

impl View for ObjectId {
    type V = Seq<u8>;

    closed spec fn view(&self) -> Seq<u8> {
        self.bytes@
    }
}

impl ObjectId {
    #[verifier::type_invariant]
    spec fn whole(self) -> bool {
        self.bytes@.len() == oid_len()
    }

    /// The id made of `bytes`, or `None` unless there are as many as an id has.
    pub fn from_bytes(bytes: &[u8]) -> (oid: Option<ObjectId>)
        ensures
            oid is Some <==> bytes@.len() == oid_len(),
            oid matches Some(oid) ==> oid@ == bytes@,
    {
        if bytes.len() != sha1_len() {
            return None;
        }
        match object_id_bytes(bytes) {
            Some(bytes) => Some(ObjectId { bytes }),
            None => None,
        }
    }

    pub fn as_bytes(&self) -> (bytes: &[u8])
        ensures
            bytes@ == self@,
            self@.len() == oid_len(),
    {
        proof {
            use_type_invariant(self);
        }
        self.bytes.as_slice()
    }

    /// The id in lower-case hexadecimal.
    pub fn to_hex(&self) -> (text: String)
        ensures
            text@ == bytes::hex(self@),
    {
        bytes::to_hex(self.bytes.as_slice())
    }
}

impl Clone for ObjectId {
    fn clone(&self) -> (copy: Self)
        ensures
            copy@ == self@,
    {
        proof {
            use_type_invariant(self);
        }
        let bytes = self.bytes.clone();
        assert(bytes@ =~= self.bytes@);
        ObjectId { bytes }
    }
}

/// The id of a file: that of the blob, or of the tree, that stores it.
#[derive(Debug, PartialEq, Eq, Hash)]
pub struct FileId {
    bytes: Vec<u8>,
}

impl View for FileId {
    type V = Seq<u8>;

    closed spec fn view(&self) -> Seq<u8> {
        self.bytes@
    }
}

impl FileId {
    pub fn from_bytes(bytes: &[u8]) -> (id: FileId)
        ensures
            id@ == bytes@,
    {
        FileId { bytes: vstd::slice::slice_to_vec(bytes) }
    }

    pub fn as_bytes(&self) -> (bytes: &[u8])
        ensures
            bytes@ == self@,
    {
        self.bytes.as_slice()
    }

    /// The id in lower-case hexadecimal.
    pub fn hex(&self) -> (text: String)
        ensures
            text@ == bytes::hex(self@),
    {
        bytes::to_hex(self.bytes.as_slice())
    }
}

impl Clone for FileId {
    fn clone(&self) -> (copy: Self)
        ensures
            copy@ == self@,
    {
        let bytes = self.bytes.clone();
        assert(bytes@ =~= self.bytes@);
        FileId { bytes }
    }
}

/// The kinds of Git objects.
#[derive(Debug, Clone, Copy, PartialEq, Eq, Structural)]
pub enum ObjectKind {
    Tree,
    Blob,
    Commit,
    Tag,
}

/// An object as the store gives it.
#[derive(Debug)]
pub struct Object {
    pub kind: ObjectKind,
    pub data: Vec<u8>,
}

/// The value of an [`Object`].
pub struct ObjectView {
    pub kind: ObjectKind,
    pub data: Seq<u8>,
}

impl View for Object {
    type V = ObjectView;

    open spec fn view(&self) -> ObjectView {
        ObjectView { kind: self.kind, data: self.data@ }
    }
}

/// What lies behind a [`BackendError`]. `E` is the error of the object store.
#[derive(Debug)]
pub enum Source<E> {
    /// The store failed.
    Store(E),
    /// The data of a tree does not decode.
    MalformedTree,
    /// An object is not of the kind that was called for.
    UnexpectedKind { expected: ObjectKind, actual: ObjectKind },
    /// A tree does not hold a file in chunks.
    NotCdcTree,
}

/// Text of [`Source::NotCdcTree`].
pub const NOT_CDC_TREE: &'static str = "expected a CDC tree";

/// Why an operation on the object store failed. `object_type` names the part
/// that the object plays, and `hash` is its id in hexadecimal.
#[allow(inconsistent_fields)]
#[derive(Debug)]
pub enum BackendError<E> {
    InvalidHashLength { expected: usize, actual: usize, object_type: String, hash: String },
    ObjectNotFound { object_type: String, hash: String, source: Source<E> },
    ReadObject { object_type: String, hash: String, source: Source<E> },
    WriteObject { object_type: &'static str, source: Source<E> },
}

/// The value of a [`BackendError`].
pub enum BackendErrorView<E> {
    InvalidHashLength { expected: nat, actual: nat, object_type: Seq<char>, hash: Seq<char> },
    ObjectNotFound { object_type: Seq<char>, hash: Seq<char>, source: Source<E> },
    ReadObject { object_type: Seq<char>, hash: Seq<char>, source: Source<E> },
    WriteObject { object_type: Seq<char>, source: Source<E> },
}

impl<E> View for BackendError<E> {
    type V = BackendErrorView<E>;

    open spec fn view(&self) -> BackendErrorView<E> {
        match *self {
            BackendError::InvalidHashLength { expected, actual, object_type, hash } =>
                BackendErrorView::InvalidHashLength {
                expected: expected as nat,
                actual: actual as nat,
                object_type: object_type@,
                hash: hash@,
            },
            BackendError::ObjectNotFound { object_type, hash, source } =>
                BackendErrorView::ObjectNotFound {
                object_type: object_type@,
                hash: hash@,
                source,
            },
            BackendError::ReadObject { object_type, hash, source } =>
                BackendErrorView::ReadObject { object_type: object_type@, hash: hash@, source },
            BackendError::WriteObject { object_type, source } => BackendErrorView::WriteObject {
                object_type: object_type@,
                source,
            },
        }
    }
}

/// The error for a file id `id` that is not as long as the id of a Git object.
pub open spec fn invalid_file_id<E>(id: Seq<u8>) -> BackendErrorView<E> {
    BackendErrorView::InvalidHashLength {
        expected: oid_len(),
        actual: id.len(),
        object_type: "file"@,
        hash: bytes::hex(id),
    }
}

/// The Git object that the file id `id` names.
pub fn git_oid_from_file_id<E>(id: &FileId) -> (oid: Result<ObjectId, BackendError<E>>)
    ensures
        match oid {
            Ok(oid) => id@.len() == oid_len() && oid@ == id@,
            Err(error) => id@.len() != oid_len() && error@ == invalid_file_id::<E>(id@),
        },
        oid is Ok <==> id@.len() == 20,
        oid matches Err(error) ==> (error matches BackendError::InvalidHashLength {
            expected,
            actual,
            object_type,
            hash,
        } && expected == 20 && actual == id@.len() && object_type@ == "file"@ && hash@
            == bytes::hex(id@)),
{
    match ObjectId::from_bytes(id.as_bytes()) {
        Some(oid) => Ok(oid),
        None => Err(
            BackendError::InvalidHashLength {
                expected: sha1_len(),
                actual: id.as_bytes().len(),
                object_type: "file".to_owned(),
                hash: id.hex(),
            },
        ),
    }
}

/// An object, and an error, is taken as it stands: every part of it counts.
pub proof fn values_by_part<E>(object: Object, error: BackendError<E>)
    ensures
        object@.kind == object.kind,
        object@.data == object.data@,
        match error {
            BackendError::InvalidHashLength { expected, actual, object_type, hash } => error@
                == BackendErrorView::<E>::InvalidHashLength {
                expected: expected as nat,
                actual: actual as nat,
                object_type: object_type@,
                hash: hash@,
            },
            BackendError::ObjectNotFound { object_type, hash, source } => error@
                == BackendErrorView::ObjectNotFound {
                object_type: object_type@,
                hash: hash@,
                source,
            },
            BackendError::ReadObject { object_type, hash, source } => error@
                == BackendErrorView::ReadObject { object_type: object_type@, hash: hash@, source },
            BackendError::WriteObject { object_type, source } => error@
                == BackendErrorView::WriteObject { object_type: object_type@, source },
        },
{
}

} // verus!
