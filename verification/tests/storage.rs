use std::cell::RefCell;
use std::collections::HashMap;
use std::path::PathBuf;

use cdc_store::attributes::WorkspaceAttributes;
use cdc_store::backend::{
    git_oid_from_file_id, BackendError, FileId, Object, ObjectId, ObjectKind, Source, NOT_CDC_TREE,
};
use cdc_store::bytes::{bytes_equal, to_hex};
use cdc_store::cdc_read::{
    entries_marked, is_cdc_tree, is_cdc_tree_entries, is_cdc_tree_object, read_cdc_entries,
    read_cdc_file, ReadStep, TreeCheck,
};
use cdc_store::cdc_write::{write_cdc_file, CdcWrite, WriteRequest, WriteStep};
use cdc_store::chunk_name::{chunk_filename, marker_filename};
use cdc_store::chunker::{cdc_parameters, chunk_file};
use cdc_store::repo_path::RepoPath;
use cdc_store::tree::{decode_tree, TreeEntry, MODE_BLOB, MODE_COMMIT, MODE_TREE};
use cdc_store::workspace::{
    attributes_from_read, clear_current_workspace_root, load_workspace_attributes,
    set_current_workspace_root, CurrentWorkspaceRoot, FileRead, LoadStep,
};
use gix::objs::WriteTo;

/// What the store says when it fails.
type Failure = String;

/// Git objects in memory, under the ids that Git gives them.
struct Objects {
    by_id: RefCell<HashMap<Vec<u8>, (ObjectKind, Vec<u8>)>>,
    /// How many more objects are accepted.
    room: RefCell<usize>,
}

impl Objects {
    fn new() -> Objects {
        Objects { by_id: RefCell::new(HashMap::new()), room: RefCell::new(usize::MAX) }
    }

    fn count(&self) -> usize {
        self.by_id.borrow().len()
    }

    fn put(&self, kind: ObjectKind, data: &[u8]) -> Result<ObjectId, Failure> {
        if *self.room.borrow() == 0 {
            return Err("full".to_owned());
        }
        *self.room.borrow_mut() -= 1;
        let git_kind = match kind {
            ObjectKind::Tree => gix::objs::Kind::Tree,
            ObjectKind::Blob => gix::objs::Kind::Blob,
            ObjectKind::Commit => gix::objs::Kind::Commit,
            ObjectKind::Tag => gix::objs::Kind::Tag,
        };
        let oid = gix::objs::compute_hash(gix::hash::Kind::Sha1, git_kind, data).unwrap();
        self.by_id.borrow_mut().insert(oid.as_slice().to_vec(), (kind, data.to_vec()));
        Ok(ObjectId::from_bytes(oid.as_slice()).unwrap())
    }

    fn put_tree(&self, entries: &[TreeEntry]) -> Result<ObjectId, Failure> {
        let entries = entries
            .iter()
            .map(|entry| gix::objs::tree::Entry {
                mode: gix::objs::tree::EntryMode::try_from(u32::from(entry.mode)).unwrap(),
                filename: entry.filename.clone().into(),
                oid: gix::ObjectId::try_from(entry.oid.as_bytes()).unwrap(),
            })
            .collect();
        let mut data = Vec::new();
        gix::objs::Tree { entries }.write_to(&mut data).unwrap();
        self.put(ObjectKind::Tree, &data)
    }

    fn get(&self, oid: &ObjectId) -> Result<Object, Failure> {
        match self.by_id.borrow().get(oid.as_bytes()) {
            Some((kind, data)) => Ok(Object { kind: *kind, data: data.clone() }),
            None => Err("missing".to_owned()),
        }
    }

    fn write(&self, mut write: CdcWrite<'_>) -> Result<FileId, BackendError<Failure>> {
        loop {
            let written = match write.wanted() {
                WriteRequest::Blob(bytes) => self.put(ObjectKind::Blob, bytes),
                WriteRequest::Tree(entries) => self.put_tree(entries),
            };
            match write.supply(written) {
                WriteStep::More(next) => write = next,
                WriteStep::Done(result) => return result,
            }
        }
    }

    fn read(&self, id: &FileId) -> Result<Option<Vec<u8>>, BackendError<Failure>> {
        let mut read = read_cdc_file(id)?;
        loop {
            let found = self.get(read.wanted());
            match read.supply(found) {
                ReadStep::More(next) => read = next,
                ReadStep::Done(result) => return result,
            }
        }
    }

    fn is_cdc_tree(&self, oid: &ObjectId) -> Result<bool, BackendError<Failure>> {
        match is_cdc_tree(oid, self.get(oid).map(|object| object.kind)) {
            TreeCheck::Done(answer) => answer,
            TreeCheck::FindObject => is_cdc_tree_object(oid, self.get(oid)),
        }
    }
}

/// A store together with the attributes that were in force when it was loaded.
struct Backend<'a> {
    objects: &'a Objects,
    attributes: WorkspaceAttributes,
}

fn load_backend<'a>(
    objects: &'a Objects,
    current: &CurrentWorkspaceRoot,
    attributes_file: Option<&str>,
) -> Backend<'a> {
    let attributes = match load_workspace_attributes(current) {
        LoadStep::Loaded(attributes) => attributes,
        LoadStep::ReadFile { .. } => attributes_from_read(match attributes_file {
            Some(contents) => FileRead::Contents(contents.as_bytes().to_vec()),
            None => FileRead::NotFound,
        })
        .unwrap(),
    };
    Backend { objects, attributes }
}

fn some_root() -> CurrentWorkspaceRoot {
    let mut current = CurrentWorkspaceRoot::unset();
    set_current_workspace_root(&mut current, PathBuf::from("workspace"));
    current
}

fn repo_path(s: &str) -> RepoPath {
    RepoPath::from_internal_string(s).unwrap()
}

fn write_file(backend: &Backend<'_>, path: &RepoPath, bytes: &[u8]) -> FileId {
    if backend.attributes.applies_to(path) {
        backend.objects.write(write_cdc_file(bytes)).unwrap()
    } else {
        FileId::from_bytes(backend.objects.put(ObjectKind::Blob, bytes).unwrap().as_bytes())
    }
}

fn read_file(backend: &Backend<'_>, _path: &RepoPath, id: &FileId) -> Vec<u8> {
    match backend.objects.read(id).unwrap() {
        Some(data) => data,
        None => {
            let oid = git_oid_from_file_id::<Failure>(id).unwrap();
            let object = backend.objects.get(&oid).unwrap();
            assert_eq!(object.kind, ObjectKind::Blob);
            object.data
        }
    }
}

fn small_payload() -> Vec<u8> {
    b"hello world".to_vec()
}

/// Deterministic pseudo-random bytes.
fn pseudo_random_payload(target_size: usize) -> Vec<u8> {
    let mut state: u64 = 0x9E3779B97F4A7C15;
    let mut bytes: Vec<u8> = Vec::with_capacity(target_size);
    while bytes.len() < target_size {
        state = state.wrapping_mul(6364136223846793005).wrapping_add(1442695040888963407);
        bytes.extend_from_slice(&state.to_le_bytes());
    }
    bytes.truncate(target_size);
    bytes
}

/// Large enough for well above ten chunks, where names without leading zeros
/// would sort in another order.
fn large_payload() -> Vec<u8> {
    pseudo_random_payload(1024 * 1024)
}

#[test]
fn load_succeeds_when_thread_local_unset() {
    let mut current = some_root();
    clear_current_workspace_root(&mut current);
    let objects = Objects::new();
    // No attributes file is looked for, so that its contents do not matter.
    let backend = load_backend(&objects, &current, Some("** storage=cdc\n"));
    let path = repo_path("any/file.bin");
    let id = write_file(&backend, &path, b"hi");
    assert_eq!(read_file(&backend, &path, &id), b"hi");
    assert_eq!(objects.read(&id).unwrap(), None);
}

#[test]
fn load_succeeds_when_file_missing() {
    let objects = Objects::new();
    let backend = load_backend(&objects, &some_root(), None);
    let path = repo_path("any/file.bin");
    let id = write_file(&backend, &path, b"hi");
    assert_eq!(read_file(&backend, &path, &id), b"hi");
    assert_eq!(objects.read(&id).unwrap(), None);
}

#[test]
fn load_accepts_empty_file() {
    let objects = Objects::new();
    let backend = load_backend(&objects, &some_root(), Some(""));
    assert!(!backend.attributes.applies_to(&repo_path("data/x.bin")));
}

#[test]
fn load_tolerates_malformed_lines() {
    let objects = Objects::new();
    let contents = "??? invalid garbage\ndata/** storage=cdc\n";
    let backend = load_backend(&objects, &some_root(), Some(contents));
    let payload = small_payload();
    let matching = write_file(&backend, &repo_path("data/x.bin"), &payload);
    let non_matching = write_file(&backend, &repo_path("src/x.bin"), &payload);
    assert_ne!(matching, non_matching);
}

#[test]
fn round_trip_matching_path() {
    let objects = Objects::new();
    let backend = load_backend(&objects, &some_root(), Some("data/** storage=cdc\n"));
    let path = repo_path("data/blob.bin");
    let payload = small_payload();
    let id = write_file(&backend, &path, &payload);
    assert_eq!(read_file(&backend, &path, &id), payload);
    assert_eq!(objects.read(&id).unwrap(), Some(payload));
}

#[test]
fn round_trip_non_matching_path() {
    let objects = Objects::new();
    let backend = load_backend(&objects, &some_root(), Some("data/** storage=cdc\n"));
    let path = repo_path("src/main.rs");
    let payload = small_payload();
    let id = write_file(&backend, &path, &payload);
    assert_eq!(read_file(&backend, &path, &id), payload);
    assert_eq!(objects.read(&id).unwrap(), None);
}

#[test]
fn matching_and_non_matching_paths_produce_different_ids() {
    let objects = Objects::new();
    let backend = load_backend(&objects, &some_root(), Some("data/** storage=cdc\n"));
    let payload = small_payload();
    let matching = write_file(&backend, &repo_path("data/x.bin"), &payload);
    let non_matching = write_file(&backend, &repo_path("src/x.rs"), &payload);
    assert_ne!(matching, non_matching);
}

#[test]
fn empty_file_round_trips_through_cdc() {
    let objects = Objects::new();
    let backend = load_backend(&objects, &some_root(), Some("data/** storage=cdc\n"));
    let path = repo_path("data/empty.bin");
    let id = write_file(&backend, &path, b"");
    assert_eq!(read_file(&backend, &path, &id), Vec::<u8>::new());
    // The marker and the tree.
    assert_eq!(objects.count(), 2);
}

#[test]
fn large_file_round_trips_through_cdc() {
    let objects = Objects::new();
    let backend = load_backend(&objects, &some_root(), Some("data/** storage=cdc\n"));
    let path = repo_path("data/big.bin");
    let payload = large_payload();
    let id = write_file(&backend, &path, &payload);
    assert_eq!(read_file(&backend, &path, &id), payload);
    assert!(objects.count() > 12);
}

#[test]
fn incremental_edits_share_chunks_across_versions() {
    let attributes = Some("data/** storage=cdc\n");
    let objects_a = Objects::new();
    let backend_a = load_backend(&objects_a, &some_root(), attributes);

    let v1 = pseudo_random_payload(1024 * 1024);
    let mut v2 = v1.clone();
    let insert_at = v2.len() / 2;
    v2.splice(insert_at..insert_at, b"PATCH".iter().copied());

    let path = repo_path("data/big.bin");
    write_file(&backend_a, &path, &v1);
    let after_v1 = objects_a.count();
    write_file(&backend_a, &path, &v2);
    let after_v2 = objects_a.count();
    let incremental = after_v2 - after_v1;

    let objects_b = Objects::new();
    let backend_b = load_backend(&objects_b, &some_root(), attributes);
    write_file(&backend_b, &path, &v2);
    let fresh = objects_b.count();

    assert!(
        incremental * 2 < fresh,
        "expected CDC dedup; incremental={incremental}, fresh={fresh}",
    );
}

#[test]
fn fresh_load_reads_existing_cdc_content_via_tree_traversal() {
    let objects = Objects::new();
    let mut current = some_root();
    let payload = pseudo_random_payload(256 * 1024);
    let file_path = repo_path("data/big.bin");
    let tree_id = {
        let writer = load_backend(&objects, &current, Some("data/** storage=cdc\n"));
        let file_id = write_file(&writer, &file_path, &payload);
        // A file in chunks stands in its directory as a tree.
        let oid = git_oid_from_file_id::<Failure>(&file_id).unwrap();
        assert!(objects.is_cdc_tree(&oid).unwrap());
        let entry = TreeEntry { mode: MODE_TREE, filename: b"big.bin".to_vec(), oid };
        objects.put_tree(&[entry]).unwrap()
    };
    // The directory itself is an ordinary one.
    assert!(!objects.is_cdc_tree(&tree_id).unwrap());

    clear_current_workspace_root(&mut current);
    let reader = load_backend(&objects, &current, None);
    let entries = decode_tree(&objects.get(&tree_id).unwrap().data);
    let entry = entries[0].clone().unwrap();
    assert_eq!(entry.filename, b"big.bin");
    assert_eq!(entry.mode, MODE_TREE);
    if !objects.is_cdc_tree(&entry.oid).unwrap() {
        panic!("expected file entry in tree");
    }
    let discovered_id = FileId::from_bytes(entry.oid.as_bytes());
    assert_eq!(read_file(&reader, &file_path, &discovered_id), payload);
}

#[test]
fn identical_payload_at_different_matching_paths_yields_same_id() {
    let objects = Objects::new();
    let backend = load_backend(&objects, &some_root(), Some("data/** storage=cdc\n"));
    let payload = small_payload();
    let a = write_file(&backend, &repo_path("data/a.bin"), &payload);
    let b = write_file(&backend, &repo_path("data/b.bin"), &payload);
    assert_eq!(a, b);
}

#[test]
fn marker_comes_first_and_chunks_follow_in_order() {
    let objects = Objects::new();
    let payload = large_payload();
    let id = objects.write(write_cdc_file(&payload)).unwrap();
    let tree = objects.get(&git_oid_from_file_id::<Failure>(&id).unwrap()).unwrap();
    let entries: Vec<TreeEntry> =
        decode_tree(&tree.data).into_iter().map(|entry| entry.unwrap()).collect();
    assert_eq!(entries[0].filename, b".cdc");
    assert_eq!(entries[0].mode, MODE_BLOB);
    assert!(objects.get(&entries[0].oid).unwrap().data.is_empty());
    assert_eq!(entries[0].oid.to_hex(), "e69de29bb2d1d6434b8b29ae775ad8c2e48c5391");
    assert_eq!(entries[1].filename, b"00000000");
    assert_eq!(entries[11].filename, b"00000010");
    assert!(entries.windows(2).all(|pair| pair[0].filename < pair[1].filename));
}

#[test]
fn a_file_may_be_cut_anywhere() {
    let objects = Objects::new();
    let bytes = b"abcdef";
    let id = objects.write(CdcWrite::new(bytes, vec![(0, 1), (1, 3), (4, 2)])).unwrap();
    assert_eq!(objects.read(&id).unwrap(), Some(b"abcdef".to_vec()));
    // The marker, three chunks and the tree.
    assert_eq!(objects.count(), 5);
}

#[test]
fn equal_chunks_are_stored_once() {
    let objects = Objects::new();
    let bytes = b"xyxyxy";
    let id = objects.write(CdcWrite::new(bytes, vec![(0, 2), (2, 2), (4, 2)])).unwrap();
    assert_eq!(objects.read(&id).unwrap(), Some(b"xyxyxy".to_vec()));
    assert_eq!(objects.count(), 3);
}

#[test]
fn refused_writes_name_what_was_refused() {
    for (room, expected) in [(0, "cdc marker"), (1, "cdc chunk"), (2, "cdc tree")] {
        let objects = Objects::new();
        *objects.room.borrow_mut() = room;
        match objects.write(write_cdc_file(b"hello")).unwrap_err() {
            BackendError::WriteObject { object_type, source: Source::Store(failure) } => {
                assert_eq!(object_type, expected);
                assert_eq!(failure, "full");
            }
            other => panic!("{other:?}"),
        }
    }
}

#[test]
fn ids_of_the_wrong_length_are_refused() {
    let objects = Objects::new();
    for length in [0, 19, 21, 32] {
        let id = FileId::from_bytes(&vec![0xab; length]);
        match objects.read(&id).unwrap_err() {
            BackendError::InvalidHashLength { expected, actual, object_type, hash } => {
                assert_eq!(expected, 20);
                assert_eq!(actual, length);
                assert_eq!(object_type, "file");
                assert_eq!(hash, "ab".repeat(length));
            }
            other => panic!("{other:?}"),
        }
        assert!(ObjectId::from_bytes(&vec![0xab; length]).is_none());
    }
    let bytes: Vec<u8> = (1..21).collect();
    assert_eq!(ObjectId::from_bytes(&bytes).unwrap().as_bytes(), &bytes[..]);
}

#[test]
fn missing_files_are_reported() {
    let objects = Objects::new();
    match objects.read(&FileId::from_bytes(&[0x0f; 20])).unwrap_err() {
        BackendError::ObjectNotFound { object_type, hash, source: Source::Store(failure) } => {
            assert_eq!(object_type, "file");
            assert_eq!(hash, "0f".repeat(20));
            assert_eq!(failure, "missing");
        }
        other => panic!("{other:?}"),
    }
}

#[test]
fn ordinary_directories_are_not_read_as_files() {
    let objects = Objects::new();
    let oid = objects.put(ObjectKind::Blob, b"x").unwrap();
    let entry = TreeEntry { mode: MODE_BLOB, filename: b"name".to_vec(), oid };
    for tree in [objects.put_tree(&[entry]).unwrap(), objects.put_tree(&[]).unwrap()] {
        assert!(!objects.is_cdc_tree(&tree).unwrap());
        match objects.read(&FileId::from_bytes(tree.as_bytes())).unwrap_err() {
            BackendError::ReadObject { object_type, hash, source: Source::NotCdcTree } => {
                assert_eq!(object_type, "file");
                assert_eq!(hash, tree.to_hex());
            }
            other => panic!("{other:?}"),
        }
    }
    assert_eq!(NOT_CDC_TREE, "expected a CDC tree");
}

#[test]
fn malformed_trees_are_reported() {
    let objects = Objects::new();
    let tree = objects.put(ObjectKind::Tree, b"100644 .cdc").unwrap();
    match objects.read(&FileId::from_bytes(tree.as_bytes())).unwrap_err() {
        BackendError::ReadObject { object_type, hash, source: Source::MalformedTree } => {
            assert_eq!(object_type, "file");
            assert_eq!(hash, tree.to_hex());
        }
        other => panic!("{other:?}"),
    }
    match objects.is_cdc_tree(&tree).unwrap_err() {
        BackendError::ReadObject { object_type, hash, source: Source::MalformedTree } => {
            assert_eq!(object_type, "tree");
            assert_eq!(hash, tree.to_hex());
        }
        other => panic!("{other:?}"),
    }
}

#[test]
fn trees_that_break_off_after_the_marker_are_reported() {
    let objects = Objects::new();
    let mut data = b"100644 .cdc\0".to_vec();
    data.extend_from_slice(&[7; 20]);
    data.extend_from_slice(b"100644 00000000\0short");
    let tree = objects.put(ObjectKind::Tree, &data).unwrap();
    assert!(objects.is_cdc_tree(&tree).unwrap());
    assert!(matches!(
        objects.read(&FileId::from_bytes(tree.as_bytes())).unwrap_err(),
        BackendError::ReadObject { source: Source::MalformedTree, .. }
    ));
}

fn cdc_tree_of(objects: &Objects, chunk: ObjectId) -> FileId {
    let marker = objects.put(ObjectKind::Blob, b"").unwrap();
    let entries = [
        TreeEntry { mode: MODE_BLOB, filename: marker_filename(), oid: marker },
        TreeEntry { mode: MODE_BLOB, filename: chunk_filename(0), oid: chunk },
    ];
    FileId::from_bytes(objects.put_tree(&entries).unwrap().as_bytes())
}

#[test]
fn missing_chunks_are_reported() {
    let objects = Objects::new();
    let id = cdc_tree_of(&objects, ObjectId::from_bytes(&[9; 20]).unwrap());
    match objects.read(&id).unwrap_err() {
        BackendError::ObjectNotFound { object_type, hash, source: Source::Store(_) } => {
            assert_eq!(object_type, "cdc chunk");
            assert_eq!(hash, "09".repeat(20));
        }
        other => panic!("{other:?}"),
    }
}

#[test]
fn chunks_that_are_no_blobs_are_reported() {
    let objects = Objects::new();
    let tree = objects.put_tree(&[]).unwrap();
    let id = cdc_tree_of(&objects, tree.clone());
    match objects.read(&id).unwrap_err() {
        BackendError::ReadObject {
            object_type,
            hash,
            source: Source::UnexpectedKind { expected, actual },
        } => {
            assert_eq!(object_type, "cdc chunk");
            assert_eq!(hash, tree.to_hex());
            assert_eq!(expected, ObjectKind::Blob);
            assert_eq!(actual, ObjectKind::Tree);
        }
        other => panic!("{other:?}"),
    }
}

#[test]
fn only_trees_are_checked_for_the_marker() {
    let objects = Objects::new();
    for kind in [ObjectKind::Blob, ObjectKind::Commit, ObjectKind::Tag] {
        let oid = objects.put(kind, b"data").unwrap();
        assert!(!objects.is_cdc_tree(&oid).unwrap());
        assert_eq!(objects.read(&FileId::from_bytes(oid.as_bytes())).unwrap(), None);
    }
    match objects.is_cdc_tree(&ObjectId::from_bytes(&[1; 20]).unwrap()).unwrap_err() {
        BackendError::ObjectNotFound { object_type, hash, .. } => {
            assert_eq!(object_type, "object");
            assert_eq!(hash, "01".repeat(20));
        }
        other => panic!("{other:?}"),
    }
}

#[test]
fn trees_that_vanish_or_change_kind_are_reported() {
    let oid = ObjectId::from_bytes(&[2; 20]).unwrap();
    assert!(matches!(is_cdc_tree(&oid, Ok::<_, Failure>(ObjectKind::Tree)), TreeCheck::FindObject));
    match is_cdc_tree_object(&oid, Err("gone".to_owned())).unwrap_err() {
        BackendError::ObjectNotFound { object_type, source: Source::Store(failure), .. } => {
            assert_eq!(object_type, "tree");
            assert_eq!(failure, "gone");
        }
        other => panic!("{other:?}"),
    }
    let blob = Object { kind: ObjectKind::Blob, data: vec![] };
    match is_cdc_tree_object(&oid, Ok::<_, Failure>(blob)).unwrap_err() {
        BackendError::ReadObject {
            object_type,
            source: Source::UnexpectedKind { expected, actual },
            ..
        } => {
            assert_eq!(object_type, "tree");
            assert_eq!(expected, ObjectKind::Tree);
            assert_eq!(actual, ObjectKind::Blob);
        }
        other => panic!("{other:?}"),
    }
}

#[test]
fn entries_decide_on_their_own() {
    let oid = ObjectId::from_bytes(&[3; 20]).unwrap();
    let marker = TreeEntry { mode: MODE_BLOB, filename: b".cdc".to_vec(), oid: oid.clone() };
    assert_eq!(entries_marked(&vec![]), Some(false));
    assert_eq!(entries_marked(&vec![None]), None);
    assert_eq!(entries_marked(&vec![Some(marker.clone()), None]), Some(true));
    assert!(is_cdc_tree_entries::<Failure>(&oid, &vec![Some(marker.clone())]).unwrap());
    assert!(is_cdc_tree_entries::<Failure>(&oid, &vec![None]).is_err());
    let id = FileId::from_bytes(oid.as_bytes());
    match read_cdc_entries::<Failure>(id.clone(), vec![Some(marker.clone())]) {
        ReadStep::Done(Ok(Some(data))) => assert!(data.is_empty()),
        other => panic!("{other:?}"),
    }
    match read_cdc_entries::<Failure>(id, vec![Some(marker.clone()), Some(marker)]) {
        ReadStep::More(read) => assert_eq!(read.wanted(), &oid),
        other => panic!("{other:?}"),
    }
}

#[test]
fn trees_decode_to_what_was_stored() {
    let objects = Objects::new();
    let oid = ObjectId::from_bytes(&[0x20; 20]).unwrap();
    let entry = |mode: u16, name: &[u8]| TreeEntry {
        mode,
        filename: name.to_vec(),
        oid: oid.clone(),
    };
    let entries = [
        entry(MODE_TREE, b" leading space"),
        entry(0o100644, b"a"),
        entry(0o100755, b"b"),
        entry(0o120000, b"c"),
        entry(MODE_COMMIT, b"d"),
    ];
    let tree = objects.put_tree(&entries).unwrap();
    let decoded = decode_tree(&objects.get(&tree).unwrap().data);
    assert_eq!(decoded.len(), 5);
    for (left, right) in decoded.iter().zip(entries.iter()) {
        assert_eq!(left.as_ref(), Some(right));
    }
    assert!(decode_tree(b"").is_empty());
    assert_eq!(decode_tree(b"garbage"), vec![None]);
}

/// `head`, a zero byte and an id.
fn raw_entry(head: &[u8]) -> Vec<u8> {
    [head, b"\0".as_slice(), [9; 20].as_slice()].concat()
}

#[test]
fn modes_decode_from_up_to_seven_octal_digits() {
    for (head, mode, name) in [
        (b"100644 a".as_slice(), 0o100644, b"a".as_slice()),
        (b"40000 a", 0o040000, b"a"),
        (b"040000 a", 0o040000, b"a"),
        (b"0040000 a", 0o040000, b"a"),
        (b"140000 a", 0o040000, b"a"),
        (b"147777 a", 0o040000, b"a"),
        (b"0100644 a", 0o100644, b"a"),
        (b"7100644 a", 0o100644, b"a"),
        (b"777777 a", 0o177777, b"a"),
        (b"644 a", 0o644, b"a"),
        (b"1 a b c d", 1, b"a b c d"),
        (b" a", 0, b"a"),
        (b"40000  a", 0o040000, b" a"),
        (b"100644  a", 0o100644, b" a"),
        (b"100644 ", 0o100644, b""),
    ] {
        let decoded = decode_tree(&raw_entry(head));
        let expected = TreeEntry {
            mode,
            filename: name.to_vec(),
            oid: ObjectId::from_bytes(&[9; 20]).unwrap(),
        };
        assert_eq!(decoded, vec![Some(expected)], "{head:?}");
    }
}

#[test]
fn what_is_no_entry_ends_a_tree() {
    for head in [
        b"".as_slice(),
        b"100644",
        b"1006440",
        b"10064400 a",
        b"100648 a",
        b"10064a a",
        b"100/44 a",
        b"1 abcd ef",
        b"\xb0 a",
    ] {
        let mut data = raw_entry(b"100644 a");
        data.extend_from_slice(&raw_entry(head));
        data.extend_from_slice(&raw_entry(b"100644 b"));
        let decoded = decode_tree(&data);
        assert_eq!(decoded.len(), 2, "{head:?}");
        assert!(decoded[0].is_some(), "{head:?}");
        assert!(decoded[1].is_none(), "{head:?}");
    }
    let whole = raw_entry(b"100644 a");
    for len in 1..whole.len() {
        assert_eq!(decode_tree(&whole[..len]), vec![None]);
    }
}

#[test]
fn different_contents_get_different_ids() {
    let objects = Objects::new();
    let mut ids = Vec::new();
    for (bytes, chunks) in [
        (b"".as_slice(), vec![]),
        (b"abc", vec![(0, 3)]),
        (b"abd", vec![(0, 3)]),
        (b"ab", vec![(0, 2)]),
        (b"ba", vec![(0, 1), (1, 1)]),
        (b"aba", vec![(0, 1), (1, 1), (2, 1)]),
    ] {
        let id = objects.write(CdcWrite::new(bytes, chunks)).unwrap();
        assert_eq!(objects.read(&id).unwrap().as_deref(), Some(bytes));
        ids.push(id);
    }
    for i in 0..ids.len() {
        for j in 0..i {
            assert_ne!(ids[i].as_bytes(), ids[j].as_bytes());
        }
    }
}

#[test]
fn storing_a_file_again_adds_no_object() {
    let objects = Objects::new();
    let payload = large_payload();
    let id = objects.write(write_cdc_file(&payload)).unwrap();
    let other = objects.write(write_cdc_file(&small_payload())).unwrap();
    let before = objects.by_id.borrow().clone();
    let again = objects.write(write_cdc_file(&payload)).unwrap();
    assert_eq!(again.as_bytes(), id.as_bytes());
    assert_eq!(*objects.by_id.borrow(), before);
    assert_eq!(objects.read(&other).unwrap(), Some(small_payload()));
}

#[test]
fn chunk_parameters_follow_the_size() {
    assert_eq!(cdc_parameters(0), (8192, 16384, 65536));
    assert_eq!(cdc_parameters(131_072), (8192, 16384, 65536));
    assert_eq!(cdc_parameters(131_073), (32768, 65536, 262144));
    assert_eq!(cdc_parameters(16_777_216), (32768, 65536, 262144));
    assert_eq!(cdc_parameters(16_777_217), (65536, 262144, 1048576));
    assert_eq!(cdc_parameters(1_073_741_824), (65536, 262144, 1048576));
    assert_eq!(cdc_parameters(1_073_741_825), (524288, 1048576, 4194304));
}

#[test]
fn chunks_cover_the_file_and_keep_to_the_sizes() {
    for size in [0, 1, 8192, 8193, 131_072, 131_073, 1_000_001] {
        let bytes = pseudo_random_payload(size);
        let (min_size, _, max_size) = cdc_parameters(size);
        let chunks = chunk_file(&bytes);
        let mut end = 0;
        for (i, (offset, length)) in chunks.iter().enumerate() {
            assert_eq!(*offset, end);
            assert!(*length > 0 && *length <= max_size as usize);
            assert!(i + 1 == chunks.len() || *length >= min_size as usize);
            end = offset + length;
        }
        assert_eq!(end, size);
    }
    // Without any candidate to cut at, chunks are as large as may be.
    assert_eq!(chunk_file(&vec![0; 100_000]), vec![(0, 65536), (65536, 34464)]);
}

#[test]
fn chunk_names_are_padded() {
    assert_eq!(marker_filename(), b".cdc");
    assert_eq!(chunk_filename(0), b"00000000");
    assert_eq!(chunk_filename(9), b"00000009");
    assert_eq!(chunk_filename(10), b"00000010");
    assert_eq!(chunk_filename(1_234_567), b"01234567");
    assert_eq!(chunk_filename(99_999_999), b"99999999");
    assert_eq!(chunk_filename(100_000_000), b"100000000");
    assert_eq!(chunk_filename(usize::MAX), format!("{:08}", usize::MAX).as_bytes());
}

#[test]
fn bytes_compare_and_print() {
    assert_eq!(to_hex(&[]), "");
    assert_eq!(to_hex(&[0x00, 0x9a, 0xff, 0x1b]), "009aff1b");
    assert_eq!(FileId::from_bytes(&[0xde, 0xad]).hex(), "dead");
    assert!(bytes_equal(b"", b""));
    assert!(bytes_equal(b"ab", b"ab"));
    assert!(!bytes_equal(b"ab", b"abc"));
    assert!(!bytes_equal(b"ab", b"ac"));
}
