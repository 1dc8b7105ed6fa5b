use std::path::PathBuf;

use cdc_store::attributes::{any_opts_in, WorkspaceAttributes, ATTRIBUTES_FILE};
use cdc_store::repo_path::RepoPath;
use cdc_store::workspace::{
    attributes_from_read, clear_current_workspace_root, current_workspace_root, failed_read,
    load_workspace_attributes, set_current_workspace_root, CurrentWorkspaceRoot, FileRead,
    LoadStep, ReadFailure, WorkspaceAttributesError,
};

fn repo_path(s: &str) -> RepoPath {
    RepoPath::from_internal_string(s).unwrap()
}

#[test]
fn applies_to_default_matches_nothing() {
    let settings = WorkspaceAttributes::default();
    assert!(!settings.applies_to(&repo_path("foo")));
    assert!(!settings.applies_to(&repo_path("data/file.bin")));
}

#[test]
fn applies_to_matches_configured_patterns() {
    let settings = WorkspaceAttributes::parse(
        b"data/**         storage=cdc\n\
          media/large/**  storage=cdc\n",
    );
    assert!(settings.applies_to(&repo_path("data/file.bin")));
    assert!(settings.applies_to(&repo_path("data/nested/file.bin")));
    assert!(settings.applies_to(&repo_path("media/large/img.png")));
    assert!(!settings.applies_to(&repo_path("src/main.rs")));
    assert!(!settings.applies_to(&repo_path("media/small.png")));
    // `dataset` shares a literal prefix but is not under the `data` directory.
    assert!(!settings.applies_to(&repo_path("dataset/foo")));
}

#[test]
fn applies_to_ignores_non_cdc_storage_values() {
    let settings = WorkspaceAttributes::parse(b"data/** storage=other\n");
    assert!(!settings.applies_to(&repo_path("data/file.bin")));
}

#[test]
fn applies_to_respects_attribute_overrides() {
    // Later patterns override earlier ones for overlapping paths.
    let settings = WorkspaceAttributes::parse(
        b"data/**     storage=cdc\n\
          data/skip/* -storage\n",
    );
    assert!(settings.applies_to(&repo_path("data/file.bin")));
    assert!(!settings.applies_to(&repo_path("data/skip/file.bin")));
}

#[test]
fn only_the_storage_attribute_counts() {
    let settings = WorkspaceAttributes::parse(b"data/** text=cdc\n*.raw storage\n");
    assert!(!settings.applies_to(&repo_path("data/file.bin")));
    assert!(!settings.applies_to(&repo_path("file.raw")));
}

#[test]
fn matching_respects_case() {
    let settings = WorkspaceAttributes::parse(b"data/** storage=cdc\n*.bin storage=CDC\n");
    assert!(settings.applies_to(&repo_path("data/x")));
    assert!(!settings.applies_to(&repo_path("DATA/x")));
    assert!(!settings.applies_to(&repo_path("x.bin")));
}

#[test]
fn macros_are_expanded() {
    let settings = WorkspaceAttributes::parse(b"[attr]big storage=cdc\ndata/** big\n");
    assert!(settings.applies_to(&repo_path("data/x.bin")));
    assert!(!settings.applies_to(&repo_path("src/x.bin")));
}

#[test]
fn malformed_lines_are_skipped() {
    let settings = WorkspaceAttributes::parse(b"!neg storage=cdc\nx b\xffd=1\ndata/** storage=cdc\n");
    assert!(settings.applies_to(&repo_path("data/x.bin")));
    assert!(!settings.applies_to(&repo_path("neg")));
}

#[test]
fn empty_contents_match_nothing() {
    let settings = WorkspaceAttributes::parse(b"");
    assert!(!settings.applies_to(&repo_path("data/x.bin")));
    assert!(!settings.applies_to(&repo_path("")));
}

#[test]
fn clones_decide_alike() {
    let settings = WorkspaceAttributes::parse(b"data/** storage=cdc\n").clone();
    assert!(settings.applies_to(&repo_path("data/x.bin")));
    assert!(!settings.applies_to(&repo_path("src/x.bin")));
}

#[test]
fn values_opt_in_only_when_equal() {
    assert!(!any_opts_in(&vec![]));
    assert!(!any_opts_in(&vec![None]));
    assert!(!any_opts_in(&vec![Some(b"cd".to_vec()), Some(b"cdcc".to_vec()), Some(b"Cdc".to_vec())]));
    assert!(any_opts_in(&vec![Some(b"cdc".to_vec())]));
    assert!(any_opts_in(&vec![None, Some(b"cdc".to_vec())]));
}

#[test]
fn repo_paths_are_relative() {
    assert!(RepoPath::from_internal_string("/a").is_none());
    assert!(RepoPath::from_internal_string("a/").is_none());
    assert!(RepoPath::from_internal_string("a//b").is_none());
    assert!(RepoPath::from_internal_string("/").is_none());
    assert_eq!(repo_path("").as_internal_bytes(), b"");
    assert_eq!(repo_path("a/b").as_internal_bytes(), b"a/b");
    assert_eq!(repo_path("\u{e4}").as_internal_bytes(), b"\xc3\xa4");
}

#[test]
fn root_is_recorded_and_forgotten() {
    let mut current = CurrentWorkspaceRoot::unset();
    assert!(current_workspace_root(&current).is_none());
    set_current_workspace_root(&mut current, PathBuf::from("one"));
    set_current_workspace_root(&mut current, PathBuf::from("two"));
    assert_eq!(current_workspace_root(&current), Some(&PathBuf::from("two")));
    clear_current_workspace_root(&mut current);
    assert!(current_workspace_root(&current).is_none());
}

#[test]
fn loading_names_the_file_in_the_recorded_root() {
    let mut current = CurrentWorkspaceRoot::unset();
    assert!(matches!(load_workspace_attributes(&current), LoadStep::Loaded(_)));
    set_current_workspace_root(&mut current, PathBuf::from("work"));
    match load_workspace_attributes(&current) {
        LoadStep::ReadFile { root, file_name } => {
            assert_eq!(root, &PathBuf::from("work"));
            assert_eq!(file_name, ".jjattributes");
            assert_eq!(file_name, ATTRIBUTES_FILE);
        }
        LoadStep::Loaded(_) => panic!("a file is to be read"),
    }
}

#[test]
fn loading_fails_only_when_the_file_cannot_be_read() {
    let contents = FileRead::Contents(b"data/** storage=cdc\n".to_vec());
    let settings = attributes_from_read(contents).unwrap();
    assert!(settings.applies_to(&repo_path("data/x.bin")));

    let settings = attributes_from_read(FileRead::NotFound).unwrap();
    assert!(!settings.applies_to(&repo_path("data/x.bin")));

    let denied = std::io::Error::from(std::io::ErrorKind::PermissionDenied);
    let error = attributes_from_read(FileRead::Failed(denied)).unwrap_err();
    assert_eq!(error.message(), "Failed to read `.jjattributes`");
    let WorkspaceAttributesError::Io(source) = error;
    assert_eq!(source.kind(), std::io::ErrorKind::PermissionDenied);
}

#[test]
fn a_root_without_the_file_is_no_failure() {
    for (kind, failure) in [
        (std::io::ErrorKind::NotFound, ReadFailure::NotFound),
        (std::io::ErrorKind::NotADirectory, ReadFailure::NotADirectory),
    ] {
        let read = failed_read(failure, std::io::Error::from(kind));
        assert!(matches!(read, FileRead::NotFound));
        let settings = attributes_from_read(read).unwrap();
        assert!(!settings.applies_to(&repo_path("data/x.bin")));
    }
    let denied = std::io::Error::from(std::io::ErrorKind::PermissionDenied);
    match failed_read(ReadFailure::Other, denied) {
        FileRead::Failed(error) => {
            assert_eq!(error.kind(), std::io::ErrorKind::PermissionDenied);
            assert!(attributes_from_read(FileRead::Failed(error)).is_err());
        }
        other => panic!("{other:?}"),
    }
}

const PROBES: [&str; 7] =
    ["data/a.bin", "data/skip/b.bin", "data/notes.txt", "src/a.bin", "notes.txt", "DATA/a.bin", ""];

fn decisions(text: &[u8]) -> Vec<bool> {
    let settings = WorkspaceAttributes::parse(text);
    PROBES.iter().map(|path| settings.applies_to(&repo_path(path))).collect()
}

#[test]
fn appended_lines_override_where_they_match_and_only_there() {
    let matches_txt = [false, false, true, false, true, false, false];
    for before in [
        "",
        "data/** storage=cdc\n",
        "*.txt storage=other\n*.bin storage=cdc\n",
        "[attr]big storage=cdc\n* big\n",
        "* -storage\n# last\n",
        "* text storage=cdc\r\n",
    ] {
        let old = decisions(before.as_bytes());
        let on = decisions(format!("{before}*.txt storage=cdc\n").as_bytes());
        let off = decisions(format!("{before}*.txt -storage\n").as_bytes());
        let unspecified = decisions(format!("{before}*.txt !storage\n").as_bytes());
        let other = decisions(format!("{before}*.txt text=cdc\n").as_bytes());
        for i in 0..PROBES.len() {
            assert_eq!(on[i], matches_txt[i] || old[i], "{before:?} {:?}", PROBES[i]);
            assert_eq!(off[i], !matches_txt[i] && old[i], "{before:?} {:?}", PROBES[i]);
            assert_eq!(unspecified[i], off[i], "{before:?} {:?}", PROBES[i]);
            assert_eq!(other[i], old[i], "{before:?} {:?}", PROBES[i]);
        }
    }
}

#[test]
fn skipped_lines_decide_nothing_wherever_they_stand() {
    let skipped: [&[u8]; 13] = [
        b"",
        b" \t ",
        b"\r",
        b"# * -storage",
        b"  # * storage=cdc",
        b"!* -storage",
        b"!*.txt storage=cdc",
        b"* -storage b!d",
        b"* storage=cdc b\xffd=1",
        b"*.txt -storage --x",
        b"\"*\\q\" -storage",
        b"\"\" storage=cdc",
        b"[attr]-big storage=cdc",
    ];
    let lines: [&[u8]; 3] = [b"data/** storage=cdc\n", b"data/skip/* -storage\n", b"*.txt storage=cdc\n"];
    let expected = decisions(&lines.concat());
    assert_eq!(expected, vec![true, false, true, false, true, false, false]);
    for line in skipped {
        for at in 0..=lines.len() {
            let text = [lines[..at].concat(), line.to_vec(), b"\n".to_vec(), lines[at..].concat()];
            assert_eq!(decisions(&text.concat()), expected, "{line:?} before line {at}");
        }
    }
}

#[test]
fn lines_are_read_in_all_their_forms() {
    let quoted = WorkspaceAttributes::parse(b"\"da\\164a/a b\" storage=cdc\n");
    assert!(quoted.applies_to(&repo_path("data/a b")));
    assert!(!quoted.applies_to(&repo_path("data/a")));

    let unclosed = WorkspaceAttributes::parse(b"data/** storage=cdc\n\"data/** -storage\n");
    assert!(unclosed.applies_to(&repo_path("data/x")));

    let marked = WorkspaceAttributes::parse(b"\xef\xbb\xbfdata/** storage=cdc");
    assert!(marked.applies_to(&repo_path("data/x")));

    let returns = WorkspaceAttributes::parse(b"data/**\tstorage=cdc\r\nsrc/** \t storage=cdc\r\n");
    assert!(returns.applies_to(&repo_path("data/x")));
    assert!(returns.applies_to(&repo_path("src/x")));

    let spaced = WorkspaceAttributes::parse("data/** text\u{a0}storage=cdc\n".as_bytes());
    assert!(spaced.applies_to(&repo_path("data/x")));

    let last = WorkspaceAttributes::parse(b"data/** -storage storage=cdc\n");
    assert!(last.applies_to(&repo_path("data/x")));
    let first = WorkspaceAttributes::parse(b"data/** storage=cdc storage=other\n");
    assert!(!first.applies_to(&repo_path("data/x")));
}

#[test]
fn macros_without_a_matching_pattern_opt_nothing_in() {
    let settings = WorkspaceAttributes::parse(b"[attr]storage storage=cdc\n[attr]big storage=cdc\nsrc/** big\n");
    assert!(!settings.applies_to(&repo_path("data/x")));
    assert!(!settings.applies_to(&repo_path("big")));
    assert!(!settings.applies_to(&repo_path("storage")));
}
