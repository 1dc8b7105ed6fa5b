//! The current workspace, and loading its attributes.
//!
//! The caller keeps one [`CurrentWorkspaceRoot`] per thread and reads files;
//! which file is read, and what each outcome of reading it means, is decided here.
use vstd::prelude::*;

use crate::attributes;
use crate::attributes::{ATTRIBUTES_FILE, WorkspaceAttributes};

verus! {

/// `std::path::PathBuf`, carried through unread.
#[verifier::external_type_specification]
#[verifier::external_body]
pub struct ExPathBuf(std::path::PathBuf);

/// `std::io::Error`, carried through unread.
#[verifier::external_type_specification]
#[verifier::external_body]
pub struct ExIoError(std::io::Error);

/// The workspace root recorded for whatever loads a repository next. It may be
/// that of a secondary workspace, distinct from the primary one that owns the
/// shared store.
#[derive(Debug)]
pub struct CurrentWorkspaceRoot {
    root: Option<std::path::PathBuf>,
}

impl View for CurrentWorkspaceRoot {
    type V = Option<std::path::PathBuf>;

    closed spec fn view(&self) -> Option<std::path::PathBuf> {
        self.root
    }
}

impl CurrentWorkspaceRoot {
    /// No workspace root is recorded at first.
    pub fn unset() -> (current: Self)
        ensures
            current@ == None::<std::path::PathBuf>,
    {
        CurrentWorkspaceRoot { root: None }
    }
}

/// Records the workspace root. Intended to be called once the workspace path is
/// known and before the workspace is loaded.
pub fn set_current_workspace_root(current: &mut CurrentWorkspaceRoot, path: std::path::PathBuf)
    ensures
        final(current)@ == Some(path),
{
    current.root = Some(path);
}

/// Forgets the workspace root.
pub fn clear_current_workspace_root(current: &mut CurrentWorkspaceRoot)
    ensures
        final(current)@ == None::<std::path::PathBuf>,
{
    current.root = None;
}

/// The recorded workspace root.
pub fn current_workspace_root(current: &CurrentWorkspaceRoot) -> (root: Option<&std::path::PathBuf>)
    ensures
        current@ is None ==> root is None,
        current@ matches Some(path) ==> root == Some(&path),
{
    current.root.as_ref()
}

/// Why the attributes of a workspace could not be loaded.
#[derive(Debug)]
pub enum WorkspaceAttributesError {
    /// The attributes file is there but could not be read.
    Io(std::io::Error),
}

impl WorkspaceAttributesError {
    /// The error in words.
    pub fn message(&self) -> (text: &'static str)
        ensures
            text@ == "Failed to read `.jjattributes`"@,
    {
        "Failed to read `.jjattributes`"
    }
}

/// What loading the attributes asks of the caller.
#[derive(Debug)]
pub enum LoadStep<'a> {
    /// Nothing: these are the attributes.
    Loaded(WorkspaceAttributes),
    /// To read the file called `file_name` in the directory `root`, and to hand
    /// the outcome to [`attributes_from_read`].
    ReadFile { root: &'a std::path::PathBuf, file_name: &'static str },
}

/// The value of a [`LoadStep`]; attributes are taken as their pattern lists.
pub enum LoadStepView {
    Loaded(Seq<(Seq<u8>, Seq<char>, bool)>),
    ReadFile { root: std::path::PathBuf, file_name: Seq<char> },
}

impl<'a> View for LoadStep<'a> {
    type V = LoadStepView;

    open spec fn view(&self) -> LoadStepView {
        match *self {
            LoadStep::Loaded(attributes) => LoadStepView::Loaded(attributes@),
            LoadStep::ReadFile { root, file_name } => LoadStepView::ReadFile {
                root: *root,
                file_name: file_name@,
            },
        }
    }
}

/// What came of reading the attributes file.
#[derive(Debug)]
pub enum FileRead {
    /// Its contents.
    Contents(Vec<u8>),
    /// There is no such file.
    NotFound,
    /// The file could not be read. See [`failed_read`].
    Failed(std::io::Error),
}

/// The value of a [`FileRead`].
pub enum FileReadView {
    Contents(Seq<u8>),
    NotFound,
    Failed(std::io::Error),
}

impl View for FileRead {
    type V = FileReadView;

    open spec fn view(&self) -> FileReadView {
        match *self {
            FileRead::Contents(bytes) => FileReadView::Contents(bytes@),
            FileRead::NotFound => FileReadView::NotFound,
            FileRead::Failed(error) => FileReadView::Failed(error),
        }
    }
}

/// Why reading the attributes file failed, as far as loading tells failures apart.
#[derive(Debug, Clone, Copy, PartialEq, Eq, Structural)]
pub enum ReadFailure {
    /// There is no entry of that name.
    NotFound,
    /// The recorded root is no directory, so it holds no file.
    NotADirectory,
    /// Anything else.
    Other,
}

/// What a failure to read the attributes file amounts to: where the file is known
/// not to exist it is missing, and otherwise it could not be read.
pub fn failed_read(kind: ReadFailure, error: std::io::Error) -> (read: FileRead)
    ensures
        read@ == (match kind {
            ReadFailure::NotFound => FileReadView::NotFound,
            ReadFailure::NotADirectory => FileReadView::NotFound,
            ReadFailure::Other => FileReadView::Failed(error),
        }),
{
    match kind {
        ReadFailure::NotFound => FileRead::NotFound,
        ReadFailure::NotADirectory => FileRead::NotFound,
        ReadFailure::Other => FileRead::Failed(error),
    }
}

/// The first step of loading, given the recorded root: without one no file is
/// looked for, and the attributes are the default ones.
pub open spec fn load_start(current: Option<std::path::PathBuf>) -> LoadStepView {
    match current {
        None => LoadStepView::Loaded(seq![]),
        Some(root) => LoadStepView::ReadFile { root, file_name: ATTRIBUTES_FILE@ },
    }
}

/// The pattern lists that reading the attributes file gives: a missing file
/// counts as none, and only a file that is there but cannot be read is an error.
pub open spec fn load_finish(read: FileReadView) -> Result<
    Seq<(Seq<u8>, Seq<char>, bool)>,
    WorkspaceAttributesError,
> {
    match read {
        FileReadView::Contents(bytes) => Ok(attributes::parsed(bytes)),
        FileReadView::NotFound => Ok(seq![]),
        FileReadView::Failed(error) => Err(WorkspaceAttributesError::Io(error)),
    }
}

/// `loaded`, with attributes taken as their pattern lists.
pub open spec fn loaded_view(
    loaded: Result<WorkspaceAttributes, WorkspaceAttributesError>,
) -> Result<Seq<(Seq<u8>, Seq<char>, bool)>, WorkspaceAttributesError> {
    match loaded {
        Ok(attributes) => Ok(attributes@),
        Err(error) => Err(error),
    }
}

/// Starts loading the attributes of the recorded workspace.
pub fn load_workspace_attributes(current: &CurrentWorkspaceRoot) -> (step: LoadStep<'_>)
    ensures
        step@ == load_start(current@),
        current@ is None ==> (step matches LoadStep::Loaded(attributes) && attributes@.len() == 0),
        current@ matches Some(path) ==> (step matches LoadStep::ReadFile { root, file_name }
            && *root == path && file_name@ == ".jjattributes"@),
{
    match current_workspace_root(current) {
        None => LoadStep::Loaded(WorkspaceAttributes::default()),
        Some(root) => LoadStep::ReadFile { root, file_name: ATTRIBUTES_FILE },
    }
}

/// Finishes loading, given what came of reading the attributes file.
pub fn attributes_from_read(read: FileRead) -> (loaded: Result<
    WorkspaceAttributes,
    WorkspaceAttributesError,
>)
    ensures
        loaded_view(loaded) == load_finish(read@),
        match read {
            FileRead::Contents(bytes) => loaded matches Ok(attributes) && attributes@.len() == 1
                && attributes@[0].0 == bytes@,
            FileRead::NotFound => loaded matches Ok(attributes) && attributes@.len() == 0,
            FileRead::Failed(error) => loaded == Err::<WorkspaceAttributes, _>(
                WorkspaceAttributesError::Io(error),
            ),
        },
{
    match read {
        FileRead::Contents(bytes) => Ok(WorkspaceAttributes::parse(bytes.as_slice())),
        FileRead::NotFound => Ok(WorkspaceAttributes::default()),
        FileRead::Failed(error) => Err(WorkspaceAttributesError::Io(error)),
    }
}

/// What comes of loading the attributes, where `files` tells what reading a file
/// in a directory gives.
pub open spec fn load(
    current: Option<std::path::PathBuf>,
    files: spec_fn(std::path::PathBuf, Seq<char>) -> FileReadView,
) -> Result<Seq<(Seq<u8>, Seq<char>, bool)>, WorkspaceAttributesError> {
    match load_start(current) {
        LoadStepView::Loaded(lists) => Ok(lists),
        LoadStepView::ReadFile { root, file_name } => load_finish(files(root, file_name)),
    }
}

/// Loading fails if and only if a root is recorded whose attributes file is there
/// but cannot be read.
pub proof fn load_fails_only_when_unreadable(
    current: Option<std::path::PathBuf>,
    files: spec_fn(std::path::PathBuf, Seq<char>) -> FileReadView,
)
    ensures
        load(current, files) is Err <==> (current matches Some(root) && files(
            root,
            ATTRIBUTES_FILE@,
        ) is Failed),
{
}

/// Without a recorded root, or without an attributes file there, no path is opted
/// into chunked storage.
pub proof fn nothing_opted_in_without_file(
    current: Option<std::path::PathBuf>,
    files: spec_fn(std::path::PathBuf, Seq<char>) -> FileReadView,
    path: Seq<u8>,
)
    requires
        current matches Some(root) ==> files(root, ATTRIBUTES_FILE@) is NotFound,
    ensures
        load(current, files) matches Ok(lists) && !attributes::applies(lists, path),
{
}

/// Where a root is recorded and the file `.jjattributes` in it can be read, loading gives
/// one pattern list, made of the whole contents of the file, and every path is decided
/// as parsing those contents decides it.
pub proof fn whole_file_is_loaded(
    root: std::path::PathBuf,
    files: spec_fn(std::path::PathBuf, Seq<char>) -> FileReadView,
    contents: Seq<u8>,
    path: Seq<u8>,
)
    requires
        files(root, ".jjattributes"@) == FileReadView::Contents(contents),
    ensures
        load(Some(root), files) matches Ok(lists) && lists.len() == 1 && lists[0].0 == contents
            && attributes::applies(lists, path) == attributes::applies(
            attributes::parsed(contents),
            path,
        ),
{
}

/// The error of a failed read is the one that loading gives.
pub proof fn read_error_is_passed_on(
    root: std::path::PathBuf,
    files: spec_fn(std::path::PathBuf, Seq<char>) -> FileReadView,
    error: std::io::Error,
)
    requires
        files(root, ".jjattributes"@) == FileReadView::Failed(error),
    ensures
        load(Some(root), files) == Err::<Seq<(Seq<u8>, Seq<char>, bool)>, _>(
            WorkspaceAttributesError::Io(error),
        ),
{
}

/// Only the file `.jjattributes` in the recorded root matters: where it reads the same,
/// the same is loaded, whatever other files there are.
pub proof fn only_the_attributes_file_matters(
    root: std::path::PathBuf,
    files: spec_fn(std::path::PathBuf, Seq<char>) -> FileReadView,
    other_root: std::path::PathBuf,
    other_files: spec_fn(std::path::PathBuf, Seq<char>) -> FileReadView,
)
    requires
        files(root, ".jjattributes"@) == other_files(other_root, ".jjattributes"@),
    ensures
        load(Some(root), files) == load(Some(other_root), other_files),
{
}

/// What came of reading a file is taken as it stands.
pub proof fn reads_by_value(bytes: Vec<u8>, error: std::io::Error)
    ensures
        FileRead::Contents(bytes)@ == FileReadView::Contents(bytes@),
        FileRead::NotFound@ == FileReadView::NotFound,
        FileRead::Failed(error)@ == FileReadView::Failed(error),
{
}

} // verus!
