//! What storing and reading a file amount to together.
//!
//! A store is taken as two functions: `put` gives the id under which a blob or a
//! tree is stored, and `get` gives the object stored under an id. Either may
//! fail. The functions below run the steps of [`crate::cdc_write`] and of
//! [`crate::cdc_read`] against such a store, and the laws say how they relate.
use vstd::prelude::*;

use crate::backend;
use crate::backend::{BackendErrorView, ObjectKind, ObjectView, Source};
use crate::chunk_name;
use crate::chunker;
use crate::bytes;
use crate::cdc_read;
use crate::cdc_read::{ReadState, ReadStepView, TreeCheckView};
use crate::tree;
use crate::cdc_write;
use crate::cdc_write::{WriteRequestView, WriteState, WriteStepView};

verus! {

/// What comes of storing a file, from `state` on.
pub open spec fn run_write<E>(
    put: spec_fn(WriteRequestView) -> Result<Seq<u8>, E>,
    state: WriteState,
) -> Result<Seq<u8>, BackendErrorView<E>>
    decreases state.chunks.len() + 2 - state.oids.len(),
{
    match state.supply(put(state.wanted())) {
        WriteStepView::Done(result) => result,
        WriteStepView::More(next) => run_write(put, next),
    }
}

/// What comes of storing a file that is cut at `chunks`.
pub open spec fn write_file<E>(
    put: spec_fn(WriteRequestView) -> Result<Seq<u8>, E>,
    bytes: Seq<u8>,
    chunks: Seq<(usize, usize)>,
) -> Result<Seq<u8>, BackendErrorView<E>> {
    run_write(put, WriteState { bytes, chunks, oids: seq![] })
}

/// What comes of reading a file, from `state` on.
pub open spec fn run_read<E>(
    get: spec_fn(Seq<u8>) -> Result<ObjectView, E>,
    state: ReadState,
) -> Result<Option<Seq<u8>>, BackendErrorView<E>>
    decreases
            (if state is Root {
                1int
            } else {
                0int
            }),
            (if state is Root {
                0nat
            } else {
                state->rest.len()
            }),
{
    match state.supply(get(state.wanted())) {
        ReadStepView::Done(result) => result,
        ReadStepView::More(next) => run_read(get, next),
    }
}

/// What comes of reading the file `id`.
pub open spec fn read_file<E>(
    get: spec_fn(Seq<u8>) -> Result<ObjectView, E>,
    id: Seq<u8>,
) -> Result<Option<Seq<u8>>, BackendErrorView<E>> {
    match cdc_read::read_start(id) {
        Ok(state) => run_read(get, state),
        Err(error) => Err(error),
    }
}

/// What comes of telling whether the object `oid` is a tree that holds a file in
/// chunks, where the header of an object gives the object's kind.
pub open spec fn check_tree<E>(
    get: spec_fn(Seq<u8>) -> Result<ObjectView, E>,
    oid: Seq<u8>,
) -> Result<bool, BackendErrorView<E>> {
    let header = match get(oid) {
        Ok(object) => Ok(object.kind),
        Err(error) => Err(error),
    };
    match cdc_read::check_header(oid, header) {
        TreeCheckView::Done(result) => result,
        TreeCheckView::FindObject => cdc_read::check_object(oid, get(oid)),
    }
}

/// The object that storing `request` makes.
pub open spec fn stored_object(request: WriteRequestView) -> ObjectView {
    match request {
        WriteRequestView::Blob(data) => ObjectView { kind: ObjectKind::Blob, data },
        WriteRequestView::Tree(entries) => ObjectView {
            kind: ObjectKind::Tree,
            data: tree::tree_bytes(entries),
        },
    }
}

/// Whether the store, if it accepts `request`, gives it a whole id and gives the
/// object back under that id.
pub open spec fn kept<E>(
    put: spec_fn(WriteRequestView) -> Result<Seq<u8>, E>,
    get: spec_fn(Seq<u8>) -> Result<ObjectView, E>,
    request: WriteRequestView,
) -> bool {
    put(request) matches Ok(oid) ==> oid.len() == backend::oid_len() && get(oid) == Ok::<_, E>(
        stored_object(request),
    )
}

/// The ids of the first `count` objects of a file that is cut at `chunks`: those
/// of the marker and of the chunks.
pub open spec fn stored_oids<E>(
    put: spec_fn(WriteRequestView) -> Result<Seq<u8>, E>,
    bytes: Seq<u8>,
    chunks: Seq<(usize, usize)>,
    count: nat,
) -> Seq<Seq<u8>> {
    Seq::new(count, |i: int| put(blob_request(bytes, chunks, i))->Ok_0)
}

/// The blob that is stored at position `i`: the empty marker, or a chunk.
pub open spec fn blob_request(
    bytes: Seq<u8>,
    chunks: Seq<(usize, usize)>,
    i: int,
) -> WriteRequestView {
    if i == 0 {
        WriteRequestView::Blob(seq![])
    } else {
        WriteRequestView::Blob(chunker::chunk_bytes(bytes, chunks, i - 1))
    }
}

/// The tree that is stored last.
pub open spec fn tree_request<E>(
    put: spec_fn(WriteRequestView) -> Result<Seq<u8>, E>,
    bytes: Seq<u8>,
    chunks: Seq<(usize, usize)>,
) -> WriteRequestView {
    WriteRequestView::Tree(
        cdc_write::cdc_entries(stored_oids(put, bytes, chunks, chunks.len() + 1)),
    )
}

/// Whether the store keeps every object of a file that is cut at `chunks`.
pub open spec fn file_kept<E>(
    put: spec_fn(WriteRequestView) -> Result<Seq<u8>, E>,
    get: spec_fn(Seq<u8>) -> Result<ObjectView, E>,
    bytes: Seq<u8>,
    chunks: Seq<(usize, usize)>,
) -> bool {
    &&& forall|i: int|
        0 <= i <= chunks.len() ==> kept(put, get, #[trigger] blob_request(bytes, chunks, i))
    &&& kept(put, get, tree_request(put, bytes, chunks))
}

/// Whether the store accepts every object of a file that is cut at `chunks`.
pub open spec fn file_accepted<E>(
    put: spec_fn(WriteRequestView) -> Result<Seq<u8>, E>,
    bytes: Seq<u8>,
    chunks: Seq<(usize, usize)>,
) -> bool {
    &&& forall|i: int|
        0 <= i <= chunks.len() ==> put(#[trigger] blob_request(bytes, chunks, i)) is Ok
    &&& put(tree_request(put, bytes, chunks)) is Ok
}

proof fn lemma_run_write<E>(
    put: spec_fn(WriteRequestView) -> Result<Seq<u8>, E>,
    bytes: Seq<u8>,
    chunks: Seq<(usize, usize)>,
    count: nat,
)
    requires
        count <= chunks.len() + 1,
        forall|i: int| 0 <= i < count ==> put(#[trigger] blob_request(bytes, chunks, i)) is Ok,
    ensures
        ({
            let result = run_write(
                put,
                WriteState { bytes, chunks, oids: stored_oids(put, bytes, chunks, count) },
            );
            &&& result is Ok <==> file_accepted(put, bytes, chunks)
            &&& result matches Ok(id) ==> put(tree_request(put, bytes, chunks)) == Ok::<_, E>(id)
        }),
    decreases chunks.len() + 1 - count,
{
    let oids = stored_oids(put, bytes, chunks, count);
    let state = WriteState { bytes, chunks, oids };
    if count <= chunks.len() {
        let request = blob_request(bytes, chunks, count as int);
        assert(state.wanted() == request);
        if put(request) is Ok {
            let next = stored_oids(put, bytes, chunks, count + 1);
            assert(next =~= oids.push(put(request)->Ok_0));
            lemma_run_write(put, bytes, chunks, count + 1);
        }
    } else {
        assert(state.wanted() == tree_request(put, bytes, chunks));
    }
}

/// Storing a file succeeds if and only if the store accepts each of its objects.
/// The id of the file is then that of the tree.
pub proof fn write_succeeds<E>(
    put: spec_fn(WriteRequestView) -> Result<Seq<u8>, E>,
    bytes: Seq<u8>,
    chunks: Seq<(usize, usize)>,
)
    ensures
        write_file(put, bytes, chunks) is Ok <==> file_accepted(put, bytes, chunks),
        write_file(put, bytes, chunks) matches Ok(id) ==> put(tree_request(put, bytes, chunks))
            == Ok::<_, E>(id),
{
    assert(stored_oids(put, bytes, chunks, 0) =~= Seq::<Seq<u8>>::empty());
    lemma_run_write(put, bytes, chunks, 0);
}

/// What an error calls the object at position `i` of a file with `count` chunks.
pub open spec fn object_type(count: nat, i: int) -> Seq<char> {
    if i == 0 {
        "cdc marker"@
    } else if i <= count {
        "cdc chunk"@
    } else {
        "cdc tree"@
    }
}

/// The object at position `i` of a file that is cut at `chunks`: the marker, the
/// chunks, the tree.
pub open spec fn request_at<E>(
    put: spec_fn(WriteRequestView) -> Result<Seq<u8>, E>,
    bytes: Seq<u8>,
    chunks: Seq<(usize, usize)>,
    i: int,
) -> WriteRequestView {
    if i <= chunks.len() {
        blob_request(bytes, chunks, i)
    } else {
        tree_request(put, bytes, chunks)
    }
}

proof fn lemma_run_write_fails<E>(
    put: spec_fn(WriteRequestView) -> Result<Seq<u8>, E>,
    bytes: Seq<u8>,
    chunks: Seq<(usize, usize)>,
    count: nat,
    i: int,
    error: E,
)
    requires
        count <= i <= chunks.len() + 1,
        forall|j: int| 0 <= j < i ==> put(#[trigger] blob_request(bytes, chunks, j)) is Ok,
        put(request_at(put, bytes, chunks, i)) == Err::<Seq<u8>, E>(error),
    ensures
        run_write(
            put,
            WriteState { bytes, chunks, oids: stored_oids(put, bytes, chunks, count) },
        ) == Err::<Seq<u8>, _>(
            BackendErrorView::WriteObject {
                object_type: object_type(chunks.len(), i),
                source: Source::Store(error),
            },
        ),
    decreases i - count,
{
    let oids = stored_oids(put, bytes, chunks, count);
    let state = WriteState { bytes, chunks, oids };
    assert(state.wanted() == request_at(put, bytes, chunks, count as int));
    if count < i {
        let request = blob_request(bytes, chunks, count as int);
        assert(put(request) is Ok);
        assert(stored_oids(put, bytes, chunks, count + 1) =~= oids.push(put(request)->Ok_0));
        lemma_run_write_fails(put, bytes, chunks, count + 1, i, error);
    }
}

/// Where the store refuses an object of a file, storing the file ends with the
/// first refusal, and the error says whether it was the marker, a chunk or the
/// tree.
pub proof fn write_reports_first_refusal<E>(
    put: spec_fn(WriteRequestView) -> Result<Seq<u8>, E>,
    bytes: Seq<u8>,
    chunks: Seq<(usize, usize)>,
    i: int,
    error: E,
)
    requires
        0 <= i <= chunks.len() + 1,
        forall|j: int| 0 <= j < i ==> put(#[trigger] blob_request(bytes, chunks, j)) is Ok,
        put(request_at(put, bytes, chunks, i)) == Err::<Seq<u8>, E>(error),
    ensures
        write_file(put, bytes, chunks) == Err::<Seq<u8>, _>(
            BackendErrorView::WriteObject {
                object_type: object_type(chunks.len(), i),
                source: Source::Store(error),
            },
        ),
{
    assert(stored_oids(put, bytes, chunks, 0) =~= Seq::<Seq<u8>>::empty());
    lemma_run_write_fails(put, bytes, chunks, 0, i, error);
}

/// The same contents, cut at the same places, get the same id from any two stores
/// that give the same ids to the same objects.
pub proof fn same_contents_same_id<E>(
    put: spec_fn(WriteRequestView) -> Result<Seq<u8>, E>,
    other: spec_fn(WriteRequestView) -> Result<Seq<u8>, E>,
    bytes: Seq<u8>,
    chunks: Seq<(usize, usize)>,
)
    requires
        forall|request: WriteRequestView| #[trigger] put(request) == other(request),
    ensures
        write_file(put, bytes, chunks) == write_file(other, bytes, chunks),
{
    assert(put =~= other);
}

/// Whether the store gives two requests the same id only where they store the same
/// object.
pub open spec fn told_apart<E>(
    put: spec_fn(WriteRequestView) -> Result<Seq<u8>, E>,
    request: WriteRequestView,
    other: WriteRequestView,
) -> bool {
    put(request) is Ok && put(request) == put(other) ==> stored_object(request) == stored_object(
        other,
    )
}

proof fn lemma_stored_oids_whole<E>(
    put: spec_fn(WriteRequestView) -> Result<Seq<u8>, E>,
    bytes: Seq<u8>,
    chunks: Seq<(usize, usize)>,
)
    requires
        forall|request: WriteRequestView|
            #[trigger] put(request) matches Ok(oid) ==> oid.len() == backend::oid_len(),
        file_accepted(put, bytes, chunks),
    ensures
        tree::valid_tree(
            cdc_write::cdc_entries(stored_oids(put, bytes, chunks, chunks.len() + 1)),
        ),
{
    let oids = stored_oids(put, bytes, chunks, chunks.len() + 1);
    assert forall|i: int| 0 <= i < oids.len() implies (#[trigger] oids[i]).len()
        == backend::oid_len() by {
        let request = blob_request(bytes, chunks, i);
        assert(put(request) is Ok);
        assert(oids[i] == put(request)->Ok_0);
    }
    lemma_cdc_tree_valid(oids);
}

proof fn lemma_same_tree_same_oids(oids: Seq<Seq<u8>>, other: Seq<Seq<u8>>)
    requires
        tree::valid_tree(cdc_write::cdc_entries(oids)),
        tree::valid_tree(cdc_write::cdc_entries(other)),
        tree::tree_bytes(cdc_write::cdc_entries(oids)) == tree::tree_bytes(
            cdc_write::cdc_entries(other),
        ),
    ensures
        oids == other,
{
    let entries = cdc_write::cdc_entries(oids);
    let other_entries = cdc_write::cdc_entries(other);
    tree::stored_tree_decodes(entries);
    tree::stored_tree_decodes(other_entries);
    assert(tree::all_decoded(entries) == tree::all_decoded(other_entries));
    assert(tree::all_decoded(entries).len() == oids.len());
    assert(tree::all_decoded(other_entries).len() == other.len());
    assert forall|i: int| 0 <= i < oids.len() implies oids[i] == other[i] by {
        assert(tree::all_decoded(entries)[i] == Some(entries[i]));
        assert(tree::all_decoded(other_entries)[i] == Some(other_entries[i]));
        assert(entries[i].2 == oids[i]);
        assert(other_entries[i].2 == other[i]);
    }
    assert(oids =~= other);
}

proof fn lemma_same_chunks_same_joined(
    bytes: Seq<u8>,
    chunks: Seq<(usize, usize)>,
    other_bytes: Seq<u8>,
    other_chunks: Seq<(usize, usize)>,
    i: int,
)
    requires
        0 <= i <= chunks.len(),
        chunks.len() == other_chunks.len(),
        forall|j: int|
            0 <= j < chunks.len() ==> #[trigger] chunker::chunk_bytes(bytes, chunks, j)
                == chunker::chunk_bytes(other_bytes, other_chunks, j),
    ensures
        chunker::joined(bytes, chunks, i) == chunker::joined(other_bytes, other_chunks, i),
    decreases chunks.len() - i,
{
    if i < chunks.len() {
        lemma_same_chunks_same_joined(bytes, chunks, other_bytes, other_chunks, i + 1);
    }
}

/// Files with different contents get different ids, wherever they are cut, as long as
/// ids are whole and the store gives different ids to the different objects that the
/// two files are made of.
pub proof fn different_contents_different_ids<E>(
    put: spec_fn(WriteRequestView) -> Result<Seq<u8>, E>,
    bytes: Seq<u8>,
    chunks: Seq<(usize, usize)>,
    other_bytes: Seq<u8>,
    other_chunks: Seq<(usize, usize)>,
)
    requires
        chunker::covers(chunks, bytes.len()),
        chunker::covers(other_chunks, other_bytes.len()),
        forall|request: WriteRequestView|
            #[trigger] put(request) matches Ok(oid) ==> oid.len() == backend::oid_len(),
        forall|i: int|
            0 <= i <= chunks.len() && i <= other_chunks.len() ==> told_apart(
                put,
                #[trigger] blob_request(bytes, chunks, i),
                blob_request(other_bytes, other_chunks, i),
            ),
        told_apart(
            put,
            tree_request(put, bytes, chunks),
            tree_request(put, other_bytes, other_chunks),
        ),
        bytes != other_bytes,
    ensures
        write_file(put, bytes, chunks) matches Ok(id) ==> write_file(put, other_bytes, other_chunks)
            != Ok::<_, BackendErrorView<E>>(id),
{
    write_succeeds(put, bytes, chunks);
    write_succeeds(put, other_bytes, other_chunks);
    if write_file(put, bytes, chunks) is Ok && write_file(put, bytes, chunks) == write_file(
        put,
        other_bytes,
        other_chunks,
    ) {
        let oids = stored_oids(put, bytes, chunks, chunks.len() + 1);
        let other_oids = stored_oids(put, other_bytes, other_chunks, other_chunks.len() + 1);
        lemma_stored_oids_whole(put, bytes, chunks);
        lemma_stored_oids_whole(put, other_bytes, other_chunks);
        lemma_same_tree_same_oids(oids, other_oids);
        assert forall|j: int| 0 <= j < chunks.len() implies #[trigger] chunker::chunk_bytes(
            bytes,
            chunks,
            j,
        ) == chunker::chunk_bytes(other_bytes, other_chunks, j) by {
            let request = blob_request(bytes, chunks, j + 1);
            let other = blob_request(other_bytes, other_chunks, j + 1);
            assert(put(request) is Ok);
            assert(put(other) is Ok);
            assert(oids[j + 1] == other_oids[j + 1]);
            assert(told_apart(put, request, other));
        }
        lemma_same_chunks_same_joined(bytes, chunks, other_bytes, other_chunks, 0);
        chunker::chunks_rejoin(bytes, chunks);
        chunker::chunks_rejoin(other_bytes, other_chunks);
    }
}

/// What a store that holds `held`, by id, holds once it has answered `request`. An
/// object that is there already is not stored again.
pub open spec fn held_after<E>(
    put: spec_fn(WriteRequestView) -> Result<Seq<u8>, E>,
    held: Map<Seq<u8>, ObjectView>,
    request: WriteRequestView,
) -> Map<Seq<u8>, ObjectView> {
    match put(request) {
        Ok(oid) => if held.contains_key(oid) {
            held
        } else {
            held.insert(oid, stored_object(request))
        },
        Err(_) => held,
    }
}

/// What a store that holds `held` holds after storing a file, from `state` on.
pub open spec fn held_after_run<E>(
    put: spec_fn(WriteRequestView) -> Result<Seq<u8>, E>,
    held: Map<Seq<u8>, ObjectView>,
    state: WriteState,
) -> Map<Seq<u8>, ObjectView>
    decreases state.chunks.len() + 2 - state.oids.len(),
{
    let after = held_after(put, held, state.wanted());
    match state.supply(put(state.wanted())) {
        WriteStepView::Done(_) => after,
        WriteStepView::More(next) => held_after_run(put, after, next),
    }
}

/// What a store that holds `held` holds after storing a file that is cut at `chunks`.
pub open spec fn held_after_file<E>(
    put: spec_fn(WriteRequestView) -> Result<Seq<u8>, E>,
    held: Map<Seq<u8>, ObjectView>,
    bytes: Seq<u8>,
    chunks: Seq<(usize, usize)>,
) -> Map<Seq<u8>, ObjectView> {
    held_after_run(put, held, WriteState { bytes, chunks, oids: seq![] })
}

proof fn lemma_run_keeps_held<E>(
    put: spec_fn(WriteRequestView) -> Result<Seq<u8>, E>,
    held: Map<Seq<u8>, ObjectView>,
    state: WriteState,
)
    ensures
        held.submap_of(held_after_run(put, held, state)),
    decreases state.chunks.len() + 2 - state.oids.len(),
{
    let after = held_after(put, held, state.wanted());
    let end = held_after_run(put, held, state);
    assert(after.submap_of(end)) by {
        if let WriteStepView::More(next) = state.supply(put(state.wanted())) {
            lemma_run_keeps_held(put, after, next);
        }
    }
    assert forall|oid: Seq<u8>| #[trigger] held.dom().contains(oid) implies end.dom().contains(oid)
        && held[oid] == end[oid] by {
        assert(after.dom().contains(oid));
    }
}

proof fn lemma_run_adds_nothing<E>(
    put: spec_fn(WriteRequestView) -> Result<Seq<u8>, E>,
    held: Map<Seq<u8>, ObjectView>,
    full: Map<Seq<u8>, ObjectView>,
    state: WriteState,
)
    requires
        held_after_run(put, held, state).submap_of(full),
    ensures
        held_after_run(put, full, state) == full,
    decreases state.chunks.len() + 2 - state.oids.len(),
{
    let request = state.wanted();
    let after = held_after(put, held, request);
    if let WriteStepView::More(next) = state.supply(put(request)) {
        lemma_run_keeps_held(put, after, next);
        lemma_run_adds_nothing(put, after, full, next);
    }
    if let Ok(oid) = put(request) {
        let end = held_after_run(put, held, state);
        assert(after.dom().contains(oid));
        assert(end.dom().contains(oid));
        assert(full.dom().contains(oid));
    }
}

/// Storing a file takes nothing away from what the store holds.
pub proof fn storing_keeps_other_objects<E>(
    put: spec_fn(WriteRequestView) -> Result<Seq<u8>, E>,
    held: Map<Seq<u8>, ObjectView>,
    bytes: Seq<u8>,
    chunks: Seq<(usize, usize)>,
)
    ensures
        held.submap_of(held_after_file(put, held, bytes, chunks)),
{
    lemma_run_keeps_held(put, held, WriteState { bytes, chunks, oids: seq![] });
}

/// Storing a file a second time adds no object, whatever else was stored in between.
pub proof fn second_write_adds_nothing<E>(
    put: spec_fn(WriteRequestView) -> Result<Seq<u8>, E>,
    held: Map<Seq<u8>, ObjectView>,
    later: Map<Seq<u8>, ObjectView>,
    bytes: Seq<u8>,
    chunks: Seq<(usize, usize)>,
)
    requires
        held_after_file(put, held, bytes, chunks).submap_of(later),
    ensures
        held_after_file(put, later, bytes, chunks) == later,
{
    lemma_run_adds_nothing(put, held, later, WriteState { bytes, chunks, oids: seq![] });
}

/// Chunks that hold the same bytes share one object, also across files.
pub proof fn equal_chunks_share_an_object<E>(
    put: spec_fn(WriteRequestView) -> Result<Seq<u8>, E>,
    bytes: Seq<u8>,
    chunks: Seq<(usize, usize)>,
    i: int,
    other_bytes: Seq<u8>,
    other_chunks: Seq<(usize, usize)>,
    j: int,
)
    requires
        0 <= i < chunks.len(),
        0 <= j < other_chunks.len(),
        chunker::chunk_bytes(bytes, chunks, i) == chunker::chunk_bytes(
            other_bytes,
            other_chunks,
            j,
        ),
    ensures
        stored_oids(put, bytes, chunks, chunks.len() + 1)[i + 1] == stored_oids(
            put,
            other_bytes,
            other_chunks,
            other_chunks.len() + 1,
        )[j + 1],
{
}

/// Every file in chunks has the same marker.
pub proof fn marker_is_shared<E>(
    put: spec_fn(WriteRequestView) -> Result<Seq<u8>, E>,
    bytes: Seq<u8>,
    chunks: Seq<(usize, usize)>,
    other_bytes: Seq<u8>,
    other_chunks: Seq<(usize, usize)>,
)
    ensures
        stored_oids(put, bytes, chunks, chunks.len() + 1)[0] == stored_oids(
            put,
            other_bytes,
            other_chunks,
            other_chunks.len() + 1,
        )[0],
{
}

/// What the blobs that `entries` point at hold, one after the other.
pub open spec fn joined_blobs<E>(
    get: spec_fn(Seq<u8>) -> Result<ObjectView, E>,
    entries: Seq<(u16, Seq<u8>, Seq<u8>)>,
) -> Seq<u8>
    decreases entries.len(),
{
    if entries.len() == 0 {
        seq![]
    } else {
        get(entries[0].2)->Ok_0.data + joined_blobs(get, entries.skip(1))
    }
}

/// Whether each of `entries` points at a blob in the store.
pub open spec fn all_blobs<E>(
    get: spec_fn(Seq<u8>) -> Result<ObjectView, E>,
    entries: Seq<(u16, Seq<u8>, Seq<u8>)>,
) -> bool {
    forall|i: int|
        0 <= i < entries.len() ==> (get((#[trigger] entries[i]).2) matches Ok(object) && object.kind
            == ObjectKind::Blob)
}

/// What comes of reading on after `step`.
pub open spec fn follow<E>(
    get: spec_fn(Seq<u8>) -> Result<ObjectView, E>,
    step: ReadStepView<E>,
) -> Result<Option<Seq<u8>>, BackendErrorView<E>> {
    match step {
        ReadStepView::Done(result) => result,
        ReadStepView::More(next) => run_read(get, next),
    }
}

proof fn lemma_follow_chunks<E>(
    get: spec_fn(Seq<u8>) -> Result<ObjectView, E>,
    id: Seq<u8>,
    data: Seq<u8>,
    entries: Seq<(u16, Seq<u8>, Seq<u8>)>,
)
    requires
        all_blobs(get, entries),
    ensures
        follow(get, cdc_read::next_chunk(id, data, tree::all_decoded(entries))) == Ok::<
            _,
            BackendErrorView<E>,
        >(Some(data + joined_blobs(get, entries))),
    decreases entries.len(),
{
    let rest = tree::all_decoded(entries);
    if entries.len() == 0 {
        assert(data + joined_blobs(get, entries) =~= data);
    } else {
        let blob = get(entries[0].2)->Ok_0;
        let tail = entries.skip(1);
        assert(get(entries[0].2) is Ok);
        assert(rest.skip(1) =~= tree::all_decoded(tail));
        assert(all_blobs(get, tail)) by {
            assert forall|i: int| 0 <= i < tail.len() implies (get((#[trigger] tail[i]).2) matches Ok(
                object,
            ) && object.kind == ObjectKind::Blob) by {
                assert(tail[i] == entries[i + 1]);
            }
        }
        lemma_follow_chunks(get, id, data + blob.data, tail);
        assert(data + blob.data + joined_blobs(get, tail) =~= data + joined_blobs(get, entries));
        let state = ReadState::Chunk { id, data, oid: entries[0].2, rest: rest.skip(1) };
        assert(cdc_read::next_chunk::<E>(id, data, rest) == ReadStepView::<E>::More(state));
        assert(state.supply(get(state.wanted())) == cdc_read::next_chunk::<E>(
            id,
            data + blob.data,
            rest.skip(1),
        ));
    }
}

/// A file whose tree starts with the marker and lists blobs after it reads as
/// what the blobs hold, in the order of the tree.
pub proof fn read_joins_chunks<E>(
    get: spec_fn(Seq<u8>) -> Result<ObjectView, E>,
    id: Seq<u8>,
    entries: Seq<(u16, Seq<u8>, Seq<u8>)>,
)
    requires
        id.len() == backend::oid_len(),
        tree::valid_tree(entries),
        get(id) == Ok::<_, E>(stored_object(WriteRequestView::Tree(entries))),
        entries.len() > 0,
        entries[0].1 == chunk_name::marker_name(),
        all_blobs(get, entries.skip(1)),
    ensures
        read_file(get, id) == Ok::<_, BackendErrorView<E>>(
            Some(joined_blobs(get, entries.skip(1))),
        ),
{
    tree::stored_tree_decodes(entries);
    let decoded = tree::all_decoded(entries);
    assert(decoded[0] == Some(entries[0]));
    assert(decoded.skip(1) =~= tree::all_decoded(entries.skip(1)));
    lemma_follow_chunks(get, id, seq![], entries.skip(1));
    let joined = joined_blobs(get, entries.skip(1));
    assert(Seq::<u8>::empty() + joined =~= joined);
    let state = ReadState::Root { id };
    assert(state.supply(get(state.wanted())) == cdc_read::next_chunk::<E>(
        id,
        seq![],
        decoded.skip(1),
    ));
}

proof fn lemma_follow_broken<E>(
    get: spec_fn(Seq<u8>) -> Result<ObjectView, E>,
    id: Seq<u8>,
    data: Seq<u8>,
    entries: Seq<(u16, Seq<u8>, Seq<u8>)>,
    k: int,
)
    requires
        0 <= k < entries.len(),
        all_blobs(get, entries.take(k)),
        chunk_error(get, entries[k].2) is Some,
    ensures
        follow(get, cdc_read::next_chunk(id, data, tree::all_decoded(entries))) == Err::<
            Option<Seq<u8>>,
            _,
        >(chunk_error(get, entries[k].2)->0),
    decreases k,
{
    let rest = tree::all_decoded(entries);
    let tail = entries.skip(1);
    assert(rest.skip(1) =~= tree::all_decoded(tail));
    let state = ReadState::Chunk { id, data, oid: entries[0].2, rest: rest.skip(1) };
    assert(cdc_read::next_chunk::<E>(id, data, rest) == ReadStepView::<E>::More(state));
    if k > 0 {
        assert(entries.take(k)[0] == entries[0]);
        let blob = get(entries[0].2)->Ok_0;
        assert(all_blobs(get, tail.take(k - 1))) by {
            let before = tail.take(k - 1);
            assert forall|i: int| 0 <= i < before.len() implies (get((#[trigger] before[i]).2) matches Ok(
                object,
            ) && object.kind == ObjectKind::Blob) by {
                assert(before[i] == entries.take(k)[i + 1]);
            }
        }
        assert(tail[k - 1] == entries[k]);
        lemma_follow_broken(get, id, data + blob.data, tail, k - 1);
        assert(state.supply(get(state.wanted())) == cdc_read::next_chunk::<E>(
            id,
            data + blob.data,
            rest.skip(1),
        ));
    }
}

/// What is wrong with the chunk `oid`, if anything: the store cannot give it, or
/// it is no blob.
pub open spec fn chunk_error<E>(
    get: spec_fn(Seq<u8>) -> Result<ObjectView, E>,
    oid: Seq<u8>,
) -> Option<BackendErrorView<E>> {
    match get(oid) {
        Err(error) => Some(
            BackendErrorView::ObjectNotFound {
                object_type: "cdc chunk"@,
                hash: bytes::hex(oid),
                source: Source::Store(error),
            },
        ),
        Ok(object) => if object.kind != ObjectKind::Blob {
            Some(
                BackendErrorView::ReadObject {
                    object_type: "cdc chunk"@,
                    hash: bytes::hex(oid),
                    source: Source::UnexpectedKind {
                        expected: ObjectKind::Blob,
                        actual: object.kind,
                    },
                },
            )
        } else {
            None
        },
    }
}

/// A file with a missing or wrong chunk does not read as something shorter: the
/// first such chunk, in the order of the tree, is reported.
pub proof fn read_reports_first_bad_chunk<E>(
    get: spec_fn(Seq<u8>) -> Result<ObjectView, E>,
    id: Seq<u8>,
    entries: Seq<(u16, Seq<u8>, Seq<u8>)>,
    k: int,
)
    requires
        id.len() == backend::oid_len(),
        tree::valid_tree(entries),
        get(id) == Ok::<_, E>(stored_object(WriteRequestView::Tree(entries))),
        entries.len() > 0,
        entries[0].1 == chunk_name::marker_name(),
        1 <= k < entries.len(),
        all_blobs(get, entries.subrange(1, k)),
        chunk_error(get, entries[k].2) is Some,
    ensures
        read_file(get, id) == Err::<Option<Seq<u8>>, _>(chunk_error(get, entries[k].2)->0),
{
    tree::stored_tree_decodes(entries);
    let decoded = tree::all_decoded(entries);
    assert(decoded[0] == Some(entries[0]));
    assert(decoded.skip(1) =~= tree::all_decoded(entries.skip(1)));
    assert(entries.skip(1).take(k - 1) =~= entries.subrange(1, k));
    assert(entries.skip(1)[k - 1] == entries[k]);
    lemma_follow_broken(get, id, seq![], entries.skip(1), k - 1);
    let state = ReadState::Root { id };
    assert(state.supply(get(state.wanted())) == cdc_read::next_chunk::<E>(
        id,
        seq![],
        decoded.skip(1),
    ));
}

proof fn lemma_cdc_tree_valid(oids: Seq<Seq<u8>>)
    requires
        forall|i: int| 0 <= i < oids.len() ==> (#[trigger] oids[i]).len() == backend::oid_len(),
    ensures
        tree::valid_tree(cdc_write::cdc_entries(oids)),
{
    let entries = cdc_write::cdc_entries(oids);
    assert forall|i: int| 0 <= i < entries.len() implies tree::valid_entry(#[trigger] entries[i]) by {
        assert(entries[i] == cdc_write::cdc_entry(i, oids[i]));
        if i > 0 {
            chunk_name::chunk_name_digits((i - 1) as nat);
        }
    }
}

proof fn lemma_joined_file<E>(
    put: spec_fn(WriteRequestView) -> Result<Seq<u8>, E>,
    get: spec_fn(Seq<u8>) -> Result<ObjectView, E>,
    bytes: Seq<u8>,
    chunks: Seq<(usize, usize)>,
    i: int,
)
    requires
        file_kept(put, get, bytes, chunks),
        file_accepted(put, bytes, chunks),
        0 <= i <= chunks.len(),
    ensures
        joined_blobs(
            get,
            cdc_write::cdc_entries(stored_oids(put, bytes, chunks, chunks.len() + 1)).skip(i + 1),
        ) == chunker::joined(bytes, chunks, i),
    decreases chunks.len() - i,
{
    let entries = cdc_write::cdc_entries(stored_oids(put, bytes, chunks, chunks.len() + 1));
    if i < chunks.len() {
        let request = blob_request(bytes, chunks, i + 1);
        assert(kept(put, get, request));
        assert(put(request) is Ok);
        assert(entries.skip(i + 1)[0] == entries[i + 1]);
        assert(entries[i + 1].2 == put(request)->Ok_0);
        assert(entries.skip(i + 1).skip(1) =~= entries.skip(i + 2));
        lemma_joined_file(put, get, bytes, chunks, i + 1);
    }
}

/// What is wrong with an entry after the marker in the tree of the file `id`, if anything:
/// it is no entry at all, or there is something wrong with the chunk that it points at.
pub open spec fn entry_error<E>(
    get: spec_fn(Seq<u8>) -> Result<ObjectView, E>,
    id: Seq<u8>,
    entry: Option<(u16, Seq<u8>, Seq<u8>)>,
) -> Option<BackendErrorView<E>> {
    match entry {
        None => Some(
            BackendErrorView::ReadObject {
                object_type: "file"@,
                hash: bytes::hex(id),
                source: Source::MalformedTree,
            },
        ),
        Some(entry) => chunk_error(get, entry.2),
    }
}

/// What the blobs that `entries` point at hold, one after the other.
pub open spec fn joined_entries<E>(
    get: spec_fn(Seq<u8>) -> Result<ObjectView, E>,
    entries: Seq<Option<(u16, Seq<u8>, Seq<u8>)>>,
) -> Seq<u8>
    decreases entries.len(),
{
    if entries.len() == 0 {
        seq![]
    } else {
        get((entries[0]->0).2)->Ok_0.data + joined_entries(get, entries.skip(1))
    }
}

proof fn lemma_follow_entries<E>(
    get: spec_fn(Seq<u8>) -> Result<ObjectView, E>,
    id: Seq<u8>,
    data: Seq<u8>,
    entries: Seq<Option<(u16, Seq<u8>, Seq<u8>)>>,
    k: int,
)
    requires
        0 <= k <= entries.len(),
        forall|i: int| 0 <= i < k ==> entry_error(get, id, #[trigger] entries[i]) is None,
        k < entries.len() ==> entry_error(get, id, entries[k]) is Some,
    ensures
        follow(get, cdc_read::next_chunk(id, data, entries)) == if k == entries.len() {
            Ok(Some(data + joined_entries(get, entries)))
        } else {
            Err(entry_error(get, id, entries[k])->0)
        },
    decreases entries.len(),
{
    if entries.len() == 0 {
        assert(data + joined_entries(get, entries) =~= data);
    } else if let Some(entry) = entries[0] {
        let tail = entries.skip(1);
        let state = ReadState::Chunk { id, data, oid: entry.2, rest: tail };
        assert(cdc_read::next_chunk::<E>(id, data, entries) == ReadStepView::<E>::More(state));
        if k > 0 {
            assert(entry_error(get, id, entries[0]) is None);
            let blob = get(entry.2)->Ok_0;
            assert forall|i: int| 0 <= i < k - 1 implies entry_error(
                get,
                id,
                #[trigger] tail[i],
            ) is None by {
                assert(tail[i] == entries[i + 1]);
            }
            if k < entries.len() {
                assert(tail[k - 1] == entries[k]);
            }
            lemma_follow_entries(get, id, data + blob.data, tail, k - 1);
            assert(data + blob.data + joined_entries(get, tail) =~= data + joined_entries(
                get,
                entries,
            ));
            assert(state.supply(get(state.wanted())) == cdc_read::next_chunk::<E>(
                id,
                data + blob.data,
                tail,
            ));
        }
    } else {
        assert(k == 0);
    }
}

/// Whatever a tree lists after the marker is read in its order, whatever the modes and
/// the names: the file is what the blobs hold, one after the other, if there is nothing
/// wrong with any entry, and otherwise the error of the first entry with which there is.
/// `k` is the position of that entry, or the number of entries if there is none.
pub proof fn entries_are_read_in_order<E>(
    get: spec_fn(Seq<u8>) -> Result<ObjectView, E>,
    id: Seq<u8>,
    entries: Seq<Option<(u16, Seq<u8>, Seq<u8>)>>,
    k: int,
)
    requires
        1 <= k <= entries.len(),
        entries[0] matches Some(first) && first.1 == vstd::utf8::encode_utf8(".cdc"@),
        forall|i: int| 1 <= i < k ==> entry_error(get, id, #[trigger] entries[i]) is None,
        k < entries.len() ==> entry_error(get, id, entries[k]) is Some,
    ensures
        follow(get, cdc_read::first_chunk(id, entries)) == if k == entries.len() {
            Ok(Some(joined_entries(get, entries.skip(1))))
        } else {
            Err(entry_error(get, id, entries[k])->0)
        },
{
    chunk_name::marker_is_called_cdc();
    let tail = entries.skip(1);
    assert forall|i: int| 0 <= i < k - 1 implies entry_error(get, id, #[trigger] tail[i]) is None by {
        assert(tail[i] == entries[i + 1]);
    }
    lemma_follow_entries(get, id, seq![], tail, k - 1);
    assert(Seq::<u8>::empty() + joined_entries(get, tail) =~= joined_entries(get, tail));
    assert(cdc_read::first_chunk::<E>(id, entries) == cdc_read::next_chunk::<E>(id, seq![], tail));
}

/// Whether `entry` is one that points at a blob in the store.
pub open spec fn points_at_blob<E>(
    get: spec_fn(Seq<u8>) -> Result<ObjectView, E>,
    entry: Option<(u16, Seq<u8>, Seq<u8>)>,
) -> bool {
    entry matches Some(entry) && (get(entry.2) matches Ok(object) && object.kind
        == ObjectKind::Blob)
}

proof fn lemma_first_bad<E>(
    get: spec_fn(Seq<u8>) -> Result<ObjectView, E>,
    id: Seq<u8>,
    entries: Seq<Option<(u16, Seq<u8>, Seq<u8>)>>,
    from: int,
) -> (k: int)
    requires
        0 <= from <= entries.len(),
    ensures
        from <= k <= entries.len(),
        forall|i: int| from <= i < k ==> entry_error(get, id, #[trigger] entries[i]) is None,
        k < entries.len() ==> entry_error(get, id, entries[k]) is Some,
    decreases entries.len() - from,
{
    if from < entries.len() && entry_error(get, id, entries[from]) is None {
        lemma_first_bad(get, id, entries, from + 1)
    } else {
        from
    }
}

/// A file with nothing after the marker reads as empty, and one more entry that points at
/// a blob adds what the blob holds to the end of the file, whatever the mode and the name
/// of the entry. The marker's own object is not looked at.
pub proof fn each_entry_adds_its_blob<E>(
    get: spec_fn(Seq<u8>) -> Result<ObjectView, E>,
    id: Seq<u8>,
    entries: Seq<Option<(u16, Seq<u8>, Seq<u8>)>>,
    data: Seq<u8>,
    entry: (u16, Seq<u8>, Seq<u8>),
    blob: ObjectView,
)
    requires
        entries.len() > 0,
        entries[0] matches Some(first) && first.1 == vstd::utf8::encode_utf8(".cdc"@),
        get(entry.2) == Ok::<_, E>(blob),
        blob.kind == ObjectKind::Blob,
    ensures
        entries.len() == 1 ==> follow(get, cdc_read::first_chunk(id, entries)) == Ok::<
            _,
            BackendErrorView<E>,
        >(Some(Seq::<u8>::empty())),
        follow(get, cdc_read::first_chunk(id, entries)) == Ok::<_, BackendErrorView<E>>(Some(data))
            ==> follow(get, cdc_read::first_chunk(id, entries.push(Some(entry)))) == Ok::<
            _,
            BackendErrorView<E>,
        >(Some(data + blob.data)),
{
    let k = lemma_first_bad(get, id, entries, 1);
    entries_are_read_in_order(get, id, entries, k);
    if k == entries.len() {
        let longer = entries.push(Some(entry));
        assert(entry_error(get, id, Some(entry)) is None);
        assert forall|i: int| 1 <= i < longer.len() implies entry_error(
            get,
            id,
            #[trigger] longer[i],
        ) is None by {
            if i < entries.len() {
                assert(longer[i] == entries[i]);
            }
        }
        entries_are_read_in_order(get, id, longer, longer.len() as int);
        lemma_joined_push(get, entries.skip(1), entry);
        assert(longer.skip(1) =~= entries.skip(1).push(Some(entry)));
        if entries.len() == 1 {
            assert(entries.skip(1) =~= Seq::<Option<(u16, Seq<u8>, Seq<u8>)>>::empty());
        }
    }
}

proof fn lemma_joined_push<E>(
    get: spec_fn(Seq<u8>) -> Result<ObjectView, E>,
    entries: Seq<Option<(u16, Seq<u8>, Seq<u8>)>>,
    entry: (u16, Seq<u8>, Seq<u8>),
)
    ensures
        joined_entries(get, entries.push(Some(entry))) == joined_entries(get, entries) + get(
            entry.2,
        )->Ok_0.data,
    decreases entries.len(),
{
    let longer = entries.push(Some(entry));
    let blob = get(entry.2)->Ok_0.data;
    if entries.len() == 0 {
        assert(longer.skip(1) =~= entries);
        assert(joined_entries(get, longer) =~= joined_entries(get, entries) + blob);
    } else {
        let tail = entries.skip(1);
        lemma_joined_push(get, tail, entry);
        assert(longer.skip(1) =~= tail.push(Some(entry)));
        assert(joined_entries(get, longer) =~= joined_entries(get, entries) + blob);
    }
}

/// A file is read if and only if its tree starts with the marker and every entry after
/// that points at a blob in the store: nothing is passed over, and nothing else will do.
pub proof fn every_entry_must_be_a_blob<E>(
    get: spec_fn(Seq<u8>) -> Result<ObjectView, E>,
    id: Seq<u8>,
    entries: Seq<Option<(u16, Seq<u8>, Seq<u8>)>>,
)
    ensures
        (follow(get, cdc_read::first_chunk(id, entries)) matches Ok(Some(_))) <==> entries.len() > 0
            && (entries[0] matches Some(first) && first.1 == vstd::utf8::encode_utf8(".cdc"@)) && (
        forall|i: int| 1 <= i < entries.len() ==> points_at_blob(get, #[trigger] entries[i])),
        !(follow(get, cdc_read::first_chunk(id, entries)) matches Ok(None)),
{
    if entries.len() > 0 && (entries[0] matches Some(first) && first.1 == vstd::utf8::encode_utf8(
        ".cdc"@,
    )) {
        let k = lemma_first_bad(get, id, entries, 1);
        entries_are_read_in_order(get, id, entries, k);
        assert forall|i: int| 1 <= i < k implies points_at_blob(get, #[trigger] entries[i]) by {
            assert(entry_error(get, id, entries[i]) is None);
        }
        if k < entries.len() {
            assert(!points_at_blob(get, entries[k]));
        }
    } else {
        unmarked_trees_are_refused(get, id, entries);
    }
}

/// The error of a file that cannot be read tells what is wrong with the first entry that
/// does not point at a blob.
pub proof fn first_bad_entry_is_named<E>(
    get: spec_fn(Seq<u8>) -> Result<ObjectView, E>,
    id: Seq<u8>,
    entries: Seq<Option<(u16, Seq<u8>, Seq<u8>)>>,
    k: int,
)
    requires
        1 <= k < entries.len(),
        entries[0] matches Some(first) && first.1 == vstd::utf8::encode_utf8(".cdc"@),
        forall|i: int| 1 <= i < k ==> points_at_blob(get, #[trigger] entries[i]),
        !points_at_blob(get, entries[k]),
    ensures
        follow(get, cdc_read::first_chunk(id, entries)) == Err::<Option<Seq<u8>>, _>(
            match entries[k] {
                None => BackendErrorView::ReadObject {
                    object_type: "file"@,
                    hash: bytes::hex(id),
                    source: Source::MalformedTree,
                },
                Some(entry) => match get(entry.2) {
                    Err(error) => BackendErrorView::ObjectNotFound {
                        object_type: "cdc chunk"@,
                        hash: bytes::hex(entry.2),
                        source: Source::Store(error),
                    },
                    Ok(object) => BackendErrorView::ReadObject {
                        object_type: "cdc chunk"@,
                        hash: bytes::hex(entry.2),
                        source: Source::<E>::UnexpectedKind {
                            expected: ObjectKind::Blob,
                            actual: object.kind,
                        },
                    },
                },
            },
        ),
{
    assert forall|i: int| 1 <= i < k implies entry_error(get, id, #[trigger] entries[i]) is None by {
        assert(points_at_blob(get, entries[i]));
    }
    entries_are_read_in_order(get, id, entries, k);
}

/// A tree that does not start with the marker is not read as a file. The error tells a
/// tree that starts with no entry from one that starts with another entry, or has none.
pub proof fn unmarked_trees_are_refused<E>(
    get: spec_fn(Seq<u8>) -> Result<ObjectView, E>,
    id: Seq<u8>,
    entries: Seq<Option<(u16, Seq<u8>, Seq<u8>)>>,
)
    requires
        entries.len() > 0 ==> (entries[0] matches Some(first) ==> first.1
            != vstd::utf8::encode_utf8(".cdc"@)),
    ensures
        follow(get, cdc_read::first_chunk(id, entries)) == Err::<Option<Seq<u8>>, _>(
            BackendErrorView::ReadObject {
                object_type: "file"@,
                hash: bytes::hex(id),
                source: if entries.len() > 0 && entries[0] is None {
                    Source::<E>::MalformedTree
                } else {
                    Source::<E>::NotCdcTree
                },
            },
        ),
{
    chunk_name::marker_is_called_cdc();
}

/// What is read under an id: nothing where the id has not twenty bytes, where the store
/// fails, or where the object is no tree, and otherwise what the tree lists.
pub proof fn read_starts_with_the_object<E>(
    get: spec_fn(Seq<u8>) -> Result<ObjectView, E>,
    id: Seq<u8>,
)
    ensures
        id.len() != 20 ==> read_file(get, id) == Err::<Option<Seq<u8>>, _>(
            BackendErrorView::<E>::InvalidHashLength {
                expected: 20,
                actual: id.len(),
                object_type: "file"@,
                hash: bytes::hex(id),
            },
        ),
        id.len() == 20 ==> match get(id) {
            Err(error) => read_file(get, id) == Err::<Option<Seq<u8>>, _>(
                BackendErrorView::ObjectNotFound {
                    object_type: "file"@,
                    hash: bytes::hex(id),
                    source: Source::Store(error),
                },
            ),
            Ok(object) => if object.kind == ObjectKind::Tree {
                read_file(get, id) == follow(
                    get,
                    cdc_read::first_chunk(id, tree::tree_entries(object.data)),
                )
            } else {
                read_file(get, id) == Ok::<_, BackendErrorView<E>>(None::<Seq<u8>>)
            },
        },
{
    let state = ReadState::Root { id };
    assert(state.wanted() == id);
}

/// Reading a file gives back what was stored, whatever its contents, wherever it
/// is cut, as long as the store gives back the objects that it accepted.
pub proof fn write_then_read<E>(
    put: spec_fn(WriteRequestView) -> Result<Seq<u8>, E>,
    get: spec_fn(Seq<u8>) -> Result<ObjectView, E>,
    bytes: Seq<u8>,
    chunks: Seq<(usize, usize)>,
)
    requires
        chunker::covers(chunks, bytes.len()),
        file_kept(put, get, bytes, chunks),
    ensures
        write_file(put, bytes, chunks) matches Ok(id) ==> read_file(get, id) == Ok::<
            _,
            BackendErrorView<E>,
        >(Some(bytes)),
{
    write_succeeds(put, bytes, chunks);
    if let Ok(id) = write_file(put, bytes, chunks) {
        lemma_stored_tree(put, get, bytes, chunks);
        let entries = cdc_write::cdc_entries(stored_oids(put, bytes, chunks, chunks.len() + 1));
        assert(all_blobs(get, entries.skip(1))) by {
            let tail = entries.skip(1);
            assert forall|i: int| 0 <= i < tail.len() implies (get((#[trigger] tail[i]).2) matches Ok(
                object,
            ) && object.kind == ObjectKind::Blob) by {
                let request = blob_request(bytes, chunks, i + 1);
                assert(kept(put, get, request));
                assert(put(request) is Ok);
                assert(tail[i].2 == put(request)->Ok_0);
            }
        }
        read_joins_chunks(get, id, entries);
        lemma_joined_file(put, get, bytes, chunks, 0);
        chunker::chunks_rejoin(bytes, chunks);
    }
}

proof fn lemma_stored_tree<E>(
    put: spec_fn(WriteRequestView) -> Result<Seq<u8>, E>,
    get: spec_fn(Seq<u8>) -> Result<ObjectView, E>,
    bytes: Seq<u8>,
    chunks: Seq<(usize, usize)>,
)
    requires
        file_kept(put, get, bytes, chunks),
        file_accepted(put, bytes, chunks),
    ensures
        ({
            let entries = cdc_write::cdc_entries(stored_oids(put, bytes, chunks, chunks.len() + 1));
            &&& tree::valid_tree(entries)
            &&& entries.len() > 0
            &&& entries[0].1 == chunk_name::marker_name()
        }),
{
    let oids = stored_oids(put, bytes, chunks, chunks.len() + 1);
    assert forall|i: int| 0 <= i < oids.len() implies (#[trigger] oids[i]).len()
        == backend::oid_len() by {
        let request = blob_request(bytes, chunks, i);
        assert(kept(put, get, request));
        assert(put(request) is Ok);
        assert(oids[i] == put(request)->Ok_0);
    }
    lemma_cdc_tree_valid(oids);
    assert(cdc_write::cdc_entries(oids)[0] == cdc_write::cdc_entry(0, oids[0]));
}

/// The tree under whose id a file is stored: an entry `.cdc` for the empty blob, then one
/// entry for each chunk, in the order of the file, named by its position and pointing at
/// the blob with its bytes. Each entry has the mode of a plain file, and if the store
/// gives back what it accepted, each points at a blob: Git reaches all of them from the
/// tree.
pub proof fn stored_tree_reaches_every_chunk<E>(
    put: spec_fn(WriteRequestView) -> Result<Seq<u8>, E>,
    get: spec_fn(Seq<u8>) -> Result<ObjectView, E>,
    bytes: Seq<u8>,
    chunks: Seq<(usize, usize)>,
    id: Seq<u8>,
) -> (entries: Seq<(u16, Seq<u8>, Seq<u8>)>)
    requires
        write_file(put, bytes, chunks) == Ok::<_, BackendErrorView<E>>(id),
    ensures
        put(WriteRequestView::Tree(entries)) == Ok::<_, E>(id),
        entries.len() == chunks.len() + 1,
        entries[0].1 == vstd::utf8::encode_utf8(".cdc"@),
        put(WriteRequestView::Blob(seq![])) == Ok::<_, E>(entries[0].2),
        forall|i: int| 0 <= i < entries.len() ==> (#[trigger] entries[i]).0 == 0o100644,
        forall|i: int|
            0 < i < entries.len() ==> chunk_name::number((#[trigger] entries[i]).1) == i - 1 && put(
                WriteRequestView::Blob(
                    bytes.subrange(
                        chunks[i - 1].0 as int,
                        chunks[i - 1].0 + chunks[i - 1].1,
                    ),
                ),
            ) == Ok::<_, E>(entries[i].2),
        file_kept(put, get, bytes, chunks) ==> forall|i: int|
            0 <= i < entries.len() ==> (get((#[trigger] entries[i]).2) matches Ok(object)
                && object.kind == ObjectKind::Blob),
{
    write_succeeds(put, bytes, chunks);
    chunk_name::marker_is_called_cdc();
    let oids = stored_oids(put, bytes, chunks, chunks.len() + 1);
    let entries = cdc_write::cdc_entries(oids);
    assert(put(blob_request(bytes, chunks, 0)) is Ok);
    assert(entries[0] == cdc_write::cdc_entry(0, oids[0]));
    assert forall|i: int| 0 <= i < entries.len() implies (#[trigger] entries[i]).0 == 0o100644 by {
        cdc_write::entries_are_plain_files(oids, i);
    }
    assert forall|i: int| 0 < i < entries.len() implies chunk_name::number((#[trigger] entries[i]).1)
        == i - 1 && put(
        WriteRequestView::Blob(
            bytes.subrange(chunks[i - 1].0 as int, chunks[i - 1].0 + chunks[i - 1].1),
        ),
    ) == Ok::<_, E>(entries[i].2) by {
        assert(put(blob_request(bytes, chunks, i)) is Ok);
        assert(entries[i] == cdc_write::cdc_entry(i, oids[i]));
        chunk_name::chunk_name_tells_position((i - 1) as nat);
    }
    if file_kept(put, get, bytes, chunks) {
        assert forall|i: int| 0 <= i < entries.len() implies (get(
            (#[trigger] entries[i]).2,
        ) matches Ok(object) && object.kind == ObjectKind::Blob) by {
            let request = blob_request(bytes, chunks, i);
            assert(put(request) is Ok);
            assert(kept(put, get, request));
            assert(entries[i].2 == oids[i]);
        }
    }
    entries
}

/// A file that was stored in chunks is recognized as one.
pub proof fn written_file_is_recognized<E>(
    put: spec_fn(WriteRequestView) -> Result<Seq<u8>, E>,
    get: spec_fn(Seq<u8>) -> Result<ObjectView, E>,
    bytes: Seq<u8>,
    chunks: Seq<(usize, usize)>,
)
    requires
        file_kept(put, get, bytes, chunks),
    ensures
        write_file(put, bytes, chunks) matches Ok(id) ==> check_tree(get, id) == Ok::<
            _,
            BackendErrorView<E>,
        >(true),
{
    write_succeeds(put, bytes, chunks);
    if let Ok(id) = write_file(put, bytes, chunks) {
        lemma_stored_tree(put, get, bytes, chunks);
        let entries = cdc_write::cdc_entries(stored_oids(put, bytes, chunks, chunks.len() + 1));
        tree::stored_tree_decodes(entries);
        assert(tree::all_decoded(entries)[0] == Some(entries[0]));
    }
}

/// An object that is no tree is never taken for a file in chunks, whatever its id and
/// whatever it holds.
pub proof fn only_trees_are_recognized<E>(
    get: spec_fn(Seq<u8>) -> Result<ObjectView, E>,
    oid: Seq<u8>,
)
    requires
        get(oid) matches Ok(object) && object.kind != ObjectKind::Tree,
    ensures
        check_tree(get, oid) == Ok::<_, BackendErrorView<E>>(false),
{
}

/// What is recognized as a file in chunks: a tree whose first entry is called `.cdc`, and
/// nothing else. A tree that starts with no entry is an error, and so is an object that
/// the store cannot give.
pub proof fn recognized_by_first_entry<E>(
    get: spec_fn(Seq<u8>) -> Result<ObjectView, E>,
    oid: Seq<u8>,
)
    ensures
        check_tree(get, oid) == Ok::<_, BackendErrorView<E>>(true) <==> (get(oid) matches Ok(object)
            && object.kind == ObjectKind::Tree && tree::tree_entries(object.data).len() > 0
            && (tree::tree_entries(object.data)[0] matches Some(first) && first.1
            == vstd::utf8::encode_utf8(".cdc"@))),
        check_tree(get, oid) is Err <==> match get(oid) {
            Ok(object) => object.kind == ObjectKind::Tree && tree::tree_entries(object.data).len()
                > 0 && tree::tree_entries(object.data)[0] is None,
            Err(_) => true,
        },
        check_tree(get, oid) matches Err(error) ==> error == match get(oid) {
            Ok(_) => BackendErrorView::ReadObject {
                object_type: "tree"@,
                hash: bytes::hex(oid),
                source: Source::<E>::MalformedTree,
            },
            Err(failure) => BackendErrorView::ObjectNotFound {
                object_type: "object"@,
                hash: bytes::hex(oid),
                source: Source::Store(failure),
            },
        },
{
    chunk_name::marker_is_called_cdc();
}

/// An object whose header says that it is a tree is looked up again. Where the store then
/// fails, or gives something other than a tree, that is an error; the object alone
/// decides, not its id.
pub proof fn object_decides_after_header<E>(oid: Seq<u8>, found: Result<ObjectView, E>)
    ensures
        match found {
            Err(error) => cdc_read::check_object(oid, found) == Err::<bool, _>(
                BackendErrorView::ObjectNotFound {
                    object_type: "tree"@,
                    hash: bytes::hex(oid),
                    source: Source::Store(error),
                },
            ),
            Ok(object) => if object.kind != ObjectKind::Tree {
                cdc_read::check_object(oid, found) == Err::<bool, _>(
                    BackendErrorView::ReadObject {
                        object_type: "tree"@,
                        hash: bytes::hex(oid),
                        source: Source::<E>::UnexpectedKind {
                            expected: ObjectKind::Tree,
                            actual: object.kind,
                        },
                    },
                )
            } else {
                cdc_read::check_object(oid, found) == cdc_read::check_entries::<E>(
                    oid,
                    tree::tree_entries(object.data),
                )
            },
        },
{
}

/// Entries alone tell a file in chunks, whatever stands after the first of them.
pub proof fn first_entry_decides<E>(
    oid: Seq<u8>,
    entries: Seq<Option<(u16, Seq<u8>, Seq<u8>)>>,
)
    ensures
        entries.len() == 0 ==> cdc_read::check_entries::<E>(oid, entries) == Ok::<
            _,
            BackendErrorView<E>,
        >(false),
        entries.len() > 0 ==> cdc_read::check_entries::<E>(oid, entries) == match entries[0] {
            None => Err::<bool, _>(
                BackendErrorView::ReadObject {
                    object_type: "tree"@,
                    hash: bytes::hex(oid),
                    source: Source::<E>::MalformedTree,
                },
            ),
            Some(first) => Ok(first.1 == vstd::utf8::encode_utf8(".cdc"@)),
        },
{
    chunk_name::marker_is_called_cdc();
}

/// A directory is taken for a file in chunks if and only if its first entry has
/// the name of the marker.
pub proof fn directory_recognized_by_marker<E>(
    get: spec_fn(Seq<u8>) -> Result<ObjectView, E>,
    oid: Seq<u8>,
    entries: Seq<(u16, Seq<u8>, Seq<u8>)>,
)
    requires
        tree::valid_tree(entries),
        get(oid) == Ok::<_, E>(stored_object(WriteRequestView::Tree(entries))),
    ensures
        check_tree(get, oid) == Ok::<_, BackendErrorView<E>>(
            entries.len() > 0 && entries[0].1 == chunk_name::marker_name(),
        ),
{
    tree::stored_tree_decodes(entries);
    if entries.len() > 0 {
        assert(tree::all_decoded(entries)[0] == Some(entries[0]));
    }
}

/// Reading falls back to an ordinary blob if and only if the file is stored in
/// something other than a tree.
pub proof fn read_falls_back<E>(get: spec_fn(Seq<u8>) -> Result<ObjectView, E>, id: Seq<u8>)
    requires
        id.len() == backend::oid_len(),
    ensures
        (read_file(get, id) matches Ok(None)) <==> (get(id) matches Ok(object) && object.kind
            != ObjectKind::Tree),
{
    let state = ReadState::Root { id };
    if let ReadStepView::More(next) = state.supply(get(id)) {
        lemma_chunks_never_fall_back(get, next);
    }
}

proof fn lemma_chunks_never_fall_back<E>(
    get: spec_fn(Seq<u8>) -> Result<ObjectView, E>,
    state: ReadState,
)
    requires
        state is Chunk,
    ensures
        !(run_read(get, state) matches Ok(None)),
    decreases state->rest.len(),
{
    if let ReadStepView::More(next) = state.supply(get(state.wanted())) {
        lemma_chunks_never_fall_back(get, next);
    }
}

/// Only what is recognized as a file in chunks is ever read as one; any other
/// tree is refused.
pub proof fn only_recognized_files_are_read<E>(
    get: spec_fn(Seq<u8>) -> Result<ObjectView, E>,
    id: Seq<u8>,
)
    requires
        id.len() == backend::oid_len(),
    ensures
        read_file(get, id) matches Ok(Some(_)) ==> check_tree(get, id) == Ok::<
            _,
            BackendErrorView<E>,
        >(true),
        get(id) matches Ok(object) && object.kind == ObjectKind::Tree && check_tree(get, id)
            == Ok::<_, BackendErrorView<E>>(false) ==> read_file(get, id) == Err::<
            Option<Seq<u8>>,
            _,
        >(cdc_read::unreadable_file(id, Source::<E>::NotCdcTree)),
{
    let state = ReadState::Root { id };
    assert(state.wanted() == id);
}

/// A file in chunks never has the id of a plain blob, provided that the store
/// gives no tree the id of a blob.
pub proof fn chunked_and_plain_ids_differ<E>(
    put: spec_fn(WriteRequestView) -> Result<Seq<u8>, E>,
    bytes: Seq<u8>,
    chunks: Seq<(usize, usize)>,
    plain: Seq<u8>,
)
    requires
        forall|entries: Seq<(u16, Seq<u8>, Seq<u8>)>|
            put(WriteRequestView::Blob(plain)) is Ok ==> #[trigger] put(
                WriteRequestView::Tree(entries),
            ) != put(WriteRequestView::Blob(plain)),
    ensures
        write_file(put, bytes, chunks) matches Ok(id) ==> put(WriteRequestView::Blob(plain))
            != Ok::<Seq<u8>, E>(id),
{
    write_succeeds(put, bytes, chunks);
}

/// The entries of a file in chunks stand in the order in which Git sorts them,
/// as long as there are no more than a hundred million chunks.
pub proof fn cdc_entries_sorted(oids: Seq<Seq<u8>>, i: int, j: int)
    requires
        oids.len() <= 100_000_001,
        0 <= i < j < oids.len(),
    ensures
        chunk_name::sorts_before(
            cdc_write::cdc_entries(oids)[i].1,
            cdc_write::cdc_entries(oids)[j].1,
        ),
{
    assert(cdc_write::cdc_entries(oids)[i] == cdc_write::cdc_entry(i, oids[i]));
    assert(cdc_write::cdc_entries(oids)[j] == cdc_write::cdc_entry(j, oids[j]));
    if i == 0 {
        chunk_name::marker_sorts_first((j - 1) as nat);
    } else {
        chunk_name::chunk_names_sort((i - 1) as nat, (j - 1) as nat);
    }
}

/// A file of up to fifty terabytes has few enough chunks for its entries to stand
/// in the order in which Git sorts them.
pub proof fn chunks_stay_sortable(size: nat, chunks: Seq<(usize, usize)>)
    requires
        chunker::covers(chunks, size),
        chunker::sized(
            chunks,
            chunker::chunk_sizes(size).0 as nat,
            chunker::chunk_sizes(size).2 as nat,
        ),
        size <= 50_000_000_000_000,
    ensures
        chunks.len() <= 100_000_000,
{
    let min_size = chunker::chunk_sizes(size).0 as nat;
    if chunks.len() > 0 {
        chunker::chunk_count_bounded(chunks, size, min_size, chunker::chunk_sizes(size).2 as nat);
        let count = chunks.len() - 1;
        if size <= 131_072 {
            assert(count * 8_192 < size);
        } else if size <= 16_777_216 {
            assert(count * 32_768 < size);
        } else if size <= 1_073_741_824 {
            assert(count * 65_536 < size);
        } else {
            assert(count * 524_288 < size);
        }
    }
}

/// No two entries of a file in chunks have the same name.
pub proof fn cdc_entries_distinct(oids: Seq<Seq<u8>>, i: int, j: int)
    requires
        0 <= i < j < oids.len(),
    ensures
        cdc_write::cdc_entries(oids)[i].1 != cdc_write::cdc_entries(oids)[j].1,
{
    assert(cdc_write::cdc_entries(oids)[i] == cdc_write::cdc_entry(i, oids[i]));
    assert(cdc_write::cdc_entries(oids)[j] == cdc_write::cdc_entry(j, oids[j]));
    chunk_name::chunk_name_digits((j - 1) as nat);
    if i > 0 {
        chunk_name::chunk_names_distinct((i - 1) as nat, (j - 1) as nat);
    }
}

} // verus!
