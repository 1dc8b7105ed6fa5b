//! Per-workspace attributes: which paths are stored in chunks.
//!
//! The attributes file has the syntax of `.gitattributes`. The crate `gix`
//! parses it and matches paths against its patterns; the rule on top of that,
//! which value of which attribute opts a path in, stands here.
use vstd::prelude::*;

use crate::attribute_lines;
use crate::bytes::bytes_equal;
use crate::repo_path::{RepoPath, SLASH};

verus! {

/// Name of the attributes file at the root of a workspace.
pub const ATTRIBUTES_FILE: &'static str = ".jjattributes";

/// Name of the attribute whose value selects how a file is stored.
pub const STORAGE_ATTR: &'static str = "storage";

/// Value of [`STORAGE_ATTR`] that opts a path into chunked storage.
pub const CDC_VALUE: &'static str = "cdc";

/// `gix::attrs::Search`: an ordered list of parsed pattern lists.
#[verifier::external_type_specification]
#[verifier::external_body]
pub struct ExSearch(gix::attrs::Search);

/// `gix::attrs::search::MetadataCollection`: the attribute names that parsed
/// pattern lists mention.
#[verifier::external_type_specification]
#[verifier::external_body]
pub struct ExMetadataCollection(gix::attrs::search::MetadataCollection);

/// The pattern lists in `search`, oldest first. Of each: the bytes that it was
/// parsed from, the name of the file that it came from, and whether its macro
/// definitions count.
pub uninterp spec fn pattern_lists(search: gix::attrs::Search) -> Seq<(Seq<u8>, Seq<char>, bool)>;

/// The pattern lists whose attribute names `collection` has registered, oldest
/// first, described as in [`pattern_lists`].
pub uninterp spec fn registered_lists(
    collection: gix::attrs::search::MetadataCollection,
) -> Seq<(Seq<u8>, Seq<char>, bool)>;

/// How letters are compared when a pattern is matched.
#[derive(Debug, Clone, Copy, PartialEq, Eq, Structural)]
pub enum Case {
    /// Upper and lower case differ.
    Sensitive,
    /// Upper and lower case of ASCII letters are the same.
    Fold,
}

/// Whether the pattern that `pattern` writes matches `path`, letters being compared
/// as `case` says. `is_dir` tells whether the path is that of a directory, as far as
/// that is known.
pub uninterp spec fn pattern_matches(
    pattern: Seq<u8>,
    path: Seq<u8>,
    case: Case,
    is_dir: Option<bool>,
) -> bool;

/// The value that pattern lists give to `attribute` for the file at `path`, if they
/// give one. Of each list: its lines that count, the name of the file that it came
/// from, and whether its macro definitions count. It is `None` where the attribute is
/// set without a value, unset or left unspecified.
pub uninterp spec fn selected_value(
    lists: Seq<(Seq<Seq<u8>>, Seq<char>, bool)>,
    attribute: Seq<char>,
    path: Seq<u8>,
    case: Case,
    is_dir: Option<bool>,
) -> Option<Seq<u8>>;

/// Whether no line of the pattern lists `lists`, each taken as its lines that count, has
/// a pattern that matches `path`. The definition of a macro has no pattern.
pub open spec fn none_matches(
    lists: Seq<(Seq<Seq<u8>>, Seq<char>, bool)>,
    path: Seq<u8>,
    case: Case,
    is_dir: Option<bool>,
) -> bool {
    forall|i: int, line: Seq<u8>|
        0 <= i < lists.len() && #[trigger] lists[i].0.contains(line) ==> (
        attribute_lines::pattern_line(line) matches Some((pattern, _)) ==> !pattern_matches(
            pattern,
            path,
            case,
            is_dir,
        ))
}

/// What [`selected_value`] is, as far as the last lines decide. A line whose pattern
/// does not match has no part in it, and neither has a list without lines. A line
/// whose pattern matches, and which assigns the attribute and nothing else, decides
/// alone. Where no pattern matches there is no value, whatever macros are defined.
pub open spec fn resolved_value(
    lists: Seq<(Seq<Seq<u8>>, Seq<char>, bool)>,
    attribute: Seq<char>,
    path: Seq<u8>,
    case: Case,
    is_dir: Option<bool>,
) -> Option<Seq<u8>>
    decreases lists.len(), lists.last().0.len(),
{
    if lists.len() == 0 {
        None
    } else {
        let (lines, source, allow_macros) = lists.last();
        let earlier = lists.drop_last();
        if lines.len() == 0 {
            resolved_value(earlier, attribute, path, case, is_dir)
        } else {
            match attribute_lines::pattern_line(lines.last()) {
                Some((pattern, fields)) => if !pattern_matches(pattern, path, case, is_dir) {
                    resolved_value(
                        earlier.push((lines.drop_last(), source, allow_macros)),
                        attribute,
                        path,
                        case,
                        is_dir,
                    )
                } else if fields.len() == 1 && attribute_lines::assigned_name(fields[0])
                    == vstd::utf8::encode_utf8(attribute) {
                    attribute_lines::assigned_value(fields[0])
                } else {
                    selected_value(lists, attribute, path, case, is_dir)
                },
                None => if none_matches(lists, path, case, is_dir) {
                    None
                } else {
                    selected_value(lists, attribute, path, case, is_dir)
                },
            }
        }
    }
}

/// `lists`, described as in [`pattern_lists`], with each text taken as its lines that
/// count.
pub open spec fn lists_as_lines(lists: Seq<(Seq<u8>, Seq<char>, bool)>) -> Seq<
    (Seq<Seq<u8>>, Seq<char>, bool),
> {
    lists.map_values(
        |list: (Seq<u8>, Seq<char>, bool)|
            (attribute_lines::kept_lines(list.0), list.1, list.2),
    )
}

/// Whether `line` is one of the lines that count in one of the pattern lists `lists`,
/// described as in [`pattern_lists`].
pub open spec fn has_line(lists: Seq<(Seq<u8>, Seq<char>, bool)>, line: Seq<u8>) -> bool {
    exists|i: int|
        0 <= i < lists.len() && attribute_lines::kept_lines((#[trigger] lists[i]).0).contains(line)
}

/// The value that the pattern lists `lists`, described as in [`pattern_lists`], give to
/// `attribute` for the file at `path`, if they give one.
pub open spec fn attribute_value(
    lists: Seq<(Seq<u8>, Seq<char>, bool)>,
    attribute: Seq<char>,
    path: Seq<u8>,
    case: Case,
    is_dir: Option<bool>,
) -> Option<Seq<u8>> {
    resolved_value(lists_as_lines(lists), attribute, path, case, is_dir)
}

/// `Search::default` of `gix::attrs`: a search without pattern lists.
#[verifier::external_body]
fn new_search() -> (search: gix::attrs::Search)
    ensures
        pattern_lists(search) == Seq::<(Seq<u8>, Seq<char>, bool)>::empty(),
{
    gix::attrs::Search::default()
}

/// `MetadataCollection::default` of `gix::attrs::search`: nothing registered.
#[verifier::external_body]
fn new_collection() -> (collection: gix::attrs::search::MetadataCollection)
    ensures
        registered_lists(collection) == Seq::<(Seq<u8>, Seq<char>, bool)>::empty(),
{
    gix::attrs::search::MetadataCollection::default()
}

/// `Search::add_patterns_buffer` of `gix::attrs`, without a root to which the
/// source would be relative: parses `bytes`, appends the resulting pattern list
/// to `search` and registers its attribute names in `collection`. Malformed
/// lines are skipped, so a list is added whatever the bytes are.
///
/// The list in `search` keeps the numbers that `collection` has given to its
/// attribute names. They depend on what the collection has registered before, so
/// the two must be in step: then the numbers follow from the lists alone.
#[verifier::external_body]
fn add_patterns_buffer(
    search: &mut gix::attrs::Search,
    bytes: &[u8],
    source: &str,
    collection: &mut gix::attrs::search::MetadataCollection,
    allow_macros: bool,
)
    requires
        registered_lists(*old(collection)) == pattern_lists(*old(search)),
    ensures
        pattern_lists(*final(search)) == pattern_lists(*old(search)).push(
            (bytes@, source@, allow_macros),
        ),
        registered_lists(*final(collection)) == registered_lists(*old(collection)).push(
            (bytes@, source@, allow_macros),
        ),
{
    search.add_patterns_buffer(bytes, source.into(), None, collection, allow_macros);
}

/// `Search::num_pattern_lists` of `gix::attrs`: how many pattern lists there are.
pub assume_specification[ gix::attrs::Search::num_pattern_lists ](
    search: &gix::attrs::Search,
) -> (count: usize)
    ensures
        count == pattern_lists(*search).len(),
;

/// `Search::clone` of `gix::attrs`: a search with the same pattern lists.
#[verifier::external_body]
fn clone_search(search: &gix::attrs::Search) -> (copy: gix::attrs::Search)
    ensures
        pattern_lists(copy) == pattern_lists(*search),
{
    search.clone()
}

/// `MetadataCollection::clone` of `gix::attrs::search`: a collection that has
/// registered the same lists.
#[verifier::external_body]
fn clone_collection(collection: &gix::attrs::search::MetadataCollection) -> (copy:
    gix::attrs::search::MetadataCollection)
    ensures
        registered_lists(copy) == registered_lists(*collection),
{
    collection.clone()
}

/// `values` with each byte vector taken as a sequence.
pub open spec fn value_views(values: Seq<Option<Vec<u8>>>) -> Seq<Option<Seq<u8>>> {
    values.map_values(
        |value: Option<Vec<u8>>|
            match value {
                Some(bytes) => Some(bytes@),
                None => None,
            },
    )
}

/// `Search::pattern_matching_relative_path` of `gix::attrs`, on an `Outcome`
/// that `initialize_with_selection` has limited to `attribute`, read out by
/// `Outcome::iter_selected`.
///
/// What it gives is [`selected_value`], once, because one attribute is selected. That
/// claims of `gix` that its result depends on a list only by the lines that count,
/// which are those that [`attribute_lines`] says. Of the lines that count, it looks at
/// the last one first, passes over those whose pattern does not match, and lets the
/// first assignment to the attribute stand: so the result is also [`attribute_value`],
/// and there is none where no pattern matches, macros or not.
///
/// The path must be relative, and the collection must have registered the lists in
/// the search, in their order, so that it knows each attribute by the number that the
/// search holds for it: the call may panic otherwise. That the lists are the same is
/// enough because [`add_patterns_buffer`] adds to a search and a collection only while
/// they are in step, so that equal lists always carry equal numbers.
#[verifier::external_body]
fn match_selected(
    search: &gix::attrs::Search,
    collection: &gix::attrs::search::MetadataCollection,
    attribute: &str,
    path: &[u8],
    case: Case,
    is_dir: Option<bool>,
) -> (values: Vec<Option<Vec<u8>>>)
    requires
        registered_lists(*collection) == pattern_lists(*search),
        path@.len() > 0 ==> path@[0] != SLASH,
    ensures
        value_views(values@) == seq![
            selected_value(
                lists_as_lines(pattern_lists(*search)),
                attribute@,
                path@,
                case,
                is_dir,
            ),
        ],
        value_views(values@) == seq![
            attribute_value(pattern_lists(*search), attribute@, path@, case, is_dir),
        ],
        (forall|line: Seq<u8>| #[trigger]
            has_line(pattern_lists(*search), line) ==> (attribute_lines::pattern_line(
                line,
            ) matches Some((pattern, _)) ==> !pattern_matches(pattern, path@, case, is_dir)))
            ==> value_views(values@) == seq![None::<Seq<u8>>],
{
    let mut outcome = gix::attrs::search::Outcome::default();
    outcome.initialize_with_selection(collection, [attribute]);
    let case = match case {
        Case::Sensitive => gix::glob::pattern::Case::Sensitive,
        Case::Fold => gix::glob::pattern::Case::Fold,
    };
    search.pattern_matching_relative_path(bstr::BStr::new(path), case, is_dir, &mut outcome);
    outcome.iter_selected().map(|m| m.assignment.state.as_bstr().map(|v| v.to_vec())).collect()
}

/// Whether no pattern list holds any text.
pub open spec fn no_patterns(lists: Seq<(Seq<u8>, Seq<char>, bool)>) -> bool {
    forall|i: int| 0 <= i < lists.len() ==> (#[trigger] lists[i]).0.len() == 0
}

proof fn lemma_no_lines(
    lists: Seq<(Seq<Seq<u8>>, Seq<char>, bool)>,
    attribute: Seq<char>,
    path: Seq<u8>,
    case: Case,
    is_dir: Option<bool>,
)
    requires
        forall|i: int| 0 <= i < lists.len() ==> (#[trigger] lists[i]).0.len() == 0,
    ensures
        resolved_value(lists, attribute, path, case, is_dir) is None,
    decreases lists.len(),
{
    if lists.len() > 0 {
        assert(lists[lists.len() - 1].0.len() == 0);
        lemma_no_lines(lists.drop_last(), attribute, path, case, is_dir);
    }
}

proof fn lemma_no_patterns(
    lists: Seq<(Seq<u8>, Seq<char>, bool)>,
    attribute: Seq<char>,
    path: Seq<u8>,
    case: Case,
    is_dir: Option<bool>,
)
    requires
        no_patterns(lists),
    ensures
        attribute_value(lists, attribute, path, case, is_dir) is None,
{
    let read = lists_as_lines(lists);
    assert forall|i: int| 0 <= i < read.len() implies (#[trigger] read[i]).0.len() == 0 by {
        assert(lists[i].0 =~= Seq::<u8>::empty());
        attribute_lines::empty_text_has_no_lines();
    }
    lemma_no_lines(read, attribute, path, case, is_dir);
}

/// The bytes of [`CDC_VALUE`].
pub open spec fn cdc_value() -> Seq<u8> {
    seq![0x63u8, 0x64u8, 0x63u8]
}

/// Whether one of the attribute values `values` opts a path into chunked storage.
pub open spec fn opts_in(values: Seq<Option<Seq<u8>>>) -> bool {
    values.contains(Some(cdc_value()))
}

proof fn lemma_cdc_value_bytes()
    ensures
        vstd::utf8::encode_utf8(CDC_VALUE@) == cdc_value(),
{
    reveal_strlit("cdc");
    vstd::string::is_ascii_spec_bytes("cdc");
    assert(vstd::utf8::encode_utf8("cdc"@) =~= cdc_value());
}

/// Whether one of the attribute values `values` opts a path into chunked storage.
pub fn any_opts_in(values: &Vec<Option<Vec<u8>>>) -> (any: bool)
    ensures
        any == opts_in(value_views(values@)),
        any <==> exists|i: int|
            0 <= i < values@.len() && (#[trigger] values@[i] matches Some(value) && value@
                == seq![0x63u8, 0x64u8, 0x63u8]),
{
    proof {
        lemma_cdc_value_bytes();
    }
    let wanted = CDC_VALUE.as_bytes();
    let mut i: usize = 0;
    while i < values.len()
        invariant
            i <= values@.len(),
            wanted@ == cdc_value(),
            forall|j: int| 0 <= j < i ==> value_views(values@)[j] != Some(cdc_value()),
        decreases values@.len() - i,
    {
        if let Some(value) = &values[i] {
            if bytes_equal(value.as_slice(), wanted) {
                assert(value_views(values@)[i as int] == Some(cdc_value()));
                return true;
            }
        }
        i += 1;
    }
    proof {
        assert forall|j: int| 0 <= j < values@.len() implies !(#[trigger] values@[j] matches Some(
            value,
        ) && value@ == cdc_value()) by {
            assert(value_views(values@)[j] != Some(cdc_value()));
        }
    }
    false
}

/// The parsed attributes of a workspace.
#[derive(Debug)]
pub struct WorkspaceAttributes {
    search: gix::attrs::Search,
    collection: gix::attrs::search::MetadataCollection,
}

impl View for WorkspaceAttributes {
    type V = Seq<(Seq<u8>, Seq<char>, bool)>;

    /// The pattern lists that decide, described as in [`pattern_lists`].
    closed spec fn view(&self) -> Seq<(Seq<u8>, Seq<char>, bool)> {
        pattern_lists(self.search)
    }
}

/// Whether attributes made of `lists` opt the file at `path` into chunked
/// storage. Patterns are matched with regard to case, and it is left open whether the
/// path is that of a directory.
pub open spec fn applies(lists: Seq<(Seq<u8>, Seq<char>, bool)>, path: Seq<u8>) -> bool {
    lists.len() > 0 && opts_in(
        seq![attribute_value(lists, STORAGE_ATTR@, path, Case::Sensitive, None)],
    )
}

impl WorkspaceAttributes {
    #[verifier::type_invariant]
    spec fn registered(self) -> bool {
        registered_lists(self.collection) == pattern_lists(self.search)
    }

    /// Returns `true` when `path` is assigned `storage=cdc`. Empty attributes
    /// (no file, or no matching pattern) return `false`.
    pub fn applies_to(&self, path: &RepoPath) -> (applied: bool)
        ensures
            applied == applies(self@, path@),
            applied <==> self@.len() > 0 && attribute_value(
                self@,
                "storage"@,
                path@,
                Case::Sensitive,
                None,
            ) == Some(seq![0x63u8, 0x64u8, 0x63u8]),
            applied <==> self@.len() > 0 && selected_value(
                lists_as_lines(self@),
                "storage"@,
                path@,
                Case::Sensitive,
                None,
            ) == Some(seq![0x63u8, 0x64u8, 0x63u8]),
            no_patterns(self@) ==> !applied,
            (forall|line: Seq<u8>| #[trigger]
                has_line(self@, line) ==> (attribute_lines::pattern_line(line) matches Some(
                    (pattern, _),
                ) ==> !pattern_matches(pattern, path@, Case::Sensitive, None))) ==> !applied,
    {
        proof {
            use_type_invariant(self);
        }
        if self.search.num_pattern_lists() == 0 {
            return false;
        }
        let path_bytes = path.as_internal_bytes();
        let values = match_selected(
            &self.search,
            &self.collection,
            STORAGE_ATTR,
            path_bytes,
            Case::Sensitive,
            None,
        );
        proof {
            if no_patterns(self@) {
                lemma_no_patterns(self@, STORAGE_ATTR@, path@, Case::Sensitive, None);
            }
            lemma_opts_in_one(None);
            lemma_opts_in_one(
                attribute_value(self@, STORAGE_ATTR@, path@, Case::Sensitive, None),
            );
            lemma_opts_in_one(
                selected_value(
                    lists_as_lines(self@),
                    STORAGE_ATTR@,
                    path@,
                    Case::Sensitive,
                    None,
                ),
            );
        }
        any_opts_in(&values)
    }

    /// Parses the contents of an attributes file. Malformed lines are skipped
    /// rather than reported.
    pub fn parse(bytes: &[u8]) -> (attributes: Self)
        ensures
            attributes@ == parsed(bytes@),
            attributes@.len() == 1,
            attributes@[0] == (bytes@, ".jjattributes"@, true),
    {
        let mut search = new_search();
        let mut collection = new_collection();
        add_patterns_buffer(&mut search, bytes, ATTRIBUTES_FILE, &mut collection, true);
        WorkspaceAttributes { search, collection }
    }
}

impl Default for WorkspaceAttributes {
    /// Attributes that opt nothing in.
    fn default() -> (attributes: Self)
        ensures
            attributes@ == Seq::<(Seq<u8>, Seq<char>, bool)>::empty(),
    {
        WorkspaceAttributes { search: new_search(), collection: new_collection() }
    }
}

impl Clone for WorkspaceAttributes {
    fn clone(&self) -> (copy: Self)
        ensures
            copy@ == self@,
    {
        proof {
            use_type_invariant(self);
        }
        WorkspaceAttributes {
            search: clone_search(&self.search),
            collection: clone_collection(&self.collection),
        }
    }
}

/// Attributes without pattern lists apply to no path.
pub proof fn default_applies_to_nothing(path: Seq<u8>)
    ensures
        !applies(Seq::<(Seq<u8>, Seq<char>, bool)>::empty(), path),
{
}

/// Attributes opt in exactly the paths for which the value of the attribute `storage` is
/// `cdc`, with regard to case: another value does not count, nor does the attribute being
/// set without one.
pub proof fn opted_in_by_value(lists: Seq<(Seq<u8>, Seq<char>, bool)>, path: Seq<u8>)
    ensures
        applies(lists, path) <==> lists.len() > 0 && attribute_value(
            lists,
            "storage"@,
            path,
            Case::Sensitive,
            None,
        ) == Some(vstd::utf8::encode_utf8("cdc"@)),
{
    lemma_cdc_value_bytes();
    lemma_opts_in_one(attribute_value(lists, STORAGE_ATTR@, path, Case::Sensitive, None));
}

proof fn lemma_none_matches(
    lists: Seq<(Seq<Seq<u8>>, Seq<char>, bool)>,
    attribute: Seq<char>,
    path: Seq<u8>,
    case: Case,
    is_dir: Option<bool>,
)
    requires
        none_matches(lists, path, case, is_dir),
    ensures
        resolved_value(lists, attribute, path, case, is_dir) is None,
    decreases lists.len(), lists.last().0.len(),
{
    if lists.len() > 0 {
        let (lines, source, allow_macros) = lists.last();
        let earlier = lists.drop_last();
        let last = lists.len() - 1;
        if lines.len() == 0 {
            assert(none_matches(earlier, path, case, is_dir)) by {
                assert forall|i: int, line: Seq<u8>|
                    0 <= i < earlier.len() && #[trigger] earlier[i].0.contains(line) implies (
                attribute_lines::pattern_line(line) matches Some((pattern, _)) ==> !pattern_matches(
                    pattern,
                    path,
                    case,
                    is_dir,
                )) by {
                    assert(lists[i].0.contains(line));
                }
            }
            lemma_none_matches(earlier, attribute, path, case, is_dir);
        } else {
            assert(lists[last].0.contains(lines.last()));
            let shorter = earlier.push((lines.drop_last(), source, allow_macros));
            assert(none_matches(shorter, path, case, is_dir)) by {
                assert forall|i: int, line: Seq<u8>|
                    0 <= i < shorter.len() && #[trigger] shorter[i].0.contains(line) implies (
                attribute_lines::pattern_line(line) matches Some((pattern, _)) ==> !pattern_matches(
                    pattern,
                    path,
                    case,
                    is_dir,
                )) by {
                    if i == last {
                        let j = choose|j: int|
                            0 <= j < lines.drop_last().len() && lines.drop_last()[j] == line;
                        assert(lines[j] == line);
                    }
                    assert(lists[i].0.contains(line));
                }
            }
            if attribute_lines::pattern_line(lines.last()) is Some {
                lemma_none_matches(shorter, attribute, path, case, is_dir);
            }
        }
    }
}

/// A path is opted in only by a line of the text that was parsed: where no line that
/// counts has a pattern that matches the path, the path is not opted in.
pub proof fn opted_in_only_by_a_matching_line(text: Seq<u8>, path: Seq<u8>)
    requires
        forall|line: Seq<u8>| #[trigger]
            attribute_lines::kept_lines(text).contains(line) ==> (attribute_lines::pattern_line(
                line,
            ) matches Some((pattern, _)) ==> !pattern_matches(
                pattern,
                path,
                Case::Sensitive,
                None,
            )),
    ensures
        !applies(parsed(text), path),
{
    let lists = lists_as_lines(parsed(text));
    assert(none_matches(lists, path, Case::Sensitive, None));
    lemma_none_matches(lists, STORAGE_ATTR@, path, Case::Sensitive, None);
    lemma_opts_in_one(None);
}

/// Two texts with the same lines that count opt in the same paths: nothing else of a
/// text matters.
pub proof fn only_kept_lines_count(text: Seq<u8>, other: Seq<u8>, path: Seq<u8>)
    requires
        attribute_lines::kept_lines(text) == attribute_lines::kept_lines(other),
    ensures
        applies(parsed(text), path) == applies(parsed(other), path),
{
    assert(lists_as_lines(parsed(text)) =~= lists_as_lines(parsed(other)));
}

/// The pattern lists that parsing `text` gives.
pub open spec fn parsed(text: Seq<u8>) -> Seq<(Seq<u8>, Seq<char>, bool)> {
    seq![(text, ATTRIBUTES_FILE@, true)]
}

/// A line that is skipped (a comment, a blank line or a malformed one) decides
/// nothing, wherever it stands: the attributes apply to the same paths without it.
/// Where it is the first line, the text after it must have no byte-order mark, which
/// would start to count.
pub proof fn skipped_line_decides_nothing(
    before: Seq<u8>,
    line: Seq<u8>,
    after: Seq<u8>,
    path: Seq<u8>,
)
    requires
        attribute_lines::whole_lines(before),
        forall|i: int| 0 <= i < line.len() ==> line[i] != 0x0a,
        attribute_lines::is_skipped(attribute_lines::line_as_read(before, line)),
        before.len() == 0 ==> attribute_lines::mark_len(after) == 0,
    ensures
        applies(parsed(before + line.push(0x0a) + after), path) == applies(
            parsed(before + after),
            path,
        ),
{
    attribute_lines::skipped_line_can_be_left_out(before, line, after);
    assert(lists_as_lines(parsed(before + line.push(0x0a) + after)) =~= lists_as_lines(
        parsed(before + after),
    ));
}

/// A last line that assigns the storage attribute, and nothing else, decides for the
/// paths that its pattern matches, and for no others.
pub proof fn last_line_decides(before: Seq<u8>, line: Seq<u8>, path: Seq<u8>)
    requires
        attribute_lines::whole_lines(before),
        forall|i: int| 0 <= i < line.len() ==> line[i] != 0x0a,
        attribute_lines::pattern_line(attribute_lines::line_as_read(before, line)) matches Some(
            (pattern, fields),
        ) && fields.len() == 1 && attribute_lines::assigned_name(fields[0]) == storage_name(),
    ensures
        attribute_lines::pattern_line(attribute_lines::line_as_read(before, line)) matches Some(
            (pattern, fields),
        ) && applies(parsed(before + line.push(0x0a)), path) == if pattern_matches(
            pattern,
            path,
            Case::Sensitive,
            None,
        ) {
            attribute_lines::assigned_value(fields[0]) == Some(cdc_value())
        } else {
            applies(parsed(before), path)
        },
{
    lemma_storage_name_bytes();
    attribute_lines::kept_lines_grow(before, line);
    let read = attribute_lines::line_as_read(before, line);
    let grown = lists_as_lines(parsed(before + line.push(0x0a)));
    let lines = attribute_lines::kept_lines(before);
    assert(attribute_lines::kept_line(read) =~= seq![read]);
    assert(grown[0].0 =~= lines.push(read));
    assert(lines.push(read).drop_last() =~= lines);
    assert(grown.drop_last().push((lines, ATTRIBUTES_FILE@, true)) =~= lists_as_lines(
        parsed(before),
    ));
    let value = attribute_value(
        parsed(before + line.push(0x0a)),
        STORAGE_ATTR@,
        path,
        Case::Sensitive,
        None,
    );
    lemma_opts_in_one(value);
    lemma_opts_in_one(
        attribute_value(parsed(before), STORAGE_ATTR@, path, Case::Sensitive, None),
    );
}

proof fn lemma_opts_in_one(value: Option<Seq<u8>>)
    ensures
        opts_in(seq![value]) == (value == Some(cdc_value())),
{
    assert(seq![value][0] == value);
}

/// The bytes of [`STORAGE_ATTR`].
pub open spec fn storage_name() -> Seq<u8> {
    seq![0x73u8, 0x74u8, 0x6fu8, 0x72u8, 0x61u8, 0x67u8, 0x65u8]
}

proof fn lemma_storage_name_bytes()
    ensures
        vstd::utf8::encode_utf8(STORAGE_ATTR@) == storage_name(),
{
    reveal_strlit("storage");
    vstd::string::is_ascii_spec_bytes("storage");
    assert(vstd::utf8::encode_utf8("storage"@) =~= storage_name());
}

/// Appending `pattern -storage` opts out the paths that the pattern matches, and
/// appending `pattern storage=cdc` opts them in; other paths are decided as before.
pub proof fn later_lines_override(before: Seq<u8>, pattern: Seq<u8>, path: Seq<u8>)
    requires
        attribute_lines::whole_lines(before),
        before.len() == 0 ==> attribute_lines::mark_len(pattern) == 0,
        attribute_lines::is_plain_pattern(pattern),
    ensures
        ({
            let unset = pattern + seq![0x20u8] + (seq![0x2du8] + storage_name());
            let given = pattern + seq![0x20u8] + (storage_name() + seq![0x3du8] + cdc_value());
            if pattern_matches(pattern, path, Case::Sensitive, None) {
                &&& !applies(parsed(before + unset.push(0x0a)), path)
                &&& applies(parsed(before + given.push(0x0a)), path)
            } else {
                &&& applies(parsed(before + unset.push(0x0a)), path) == applies(
                    parsed(before),
                    path,
                )
                &&& applies(parsed(before + given.push(0x0a)), path) == applies(
                    parsed(before),
                    path,
                )
            }
        }),
{
    attribute_lines::assignment_forms(storage_name(), cdc_value());
    let off = seq![0x2du8] + storage_name();
    let on = storage_name() + seq![0x3du8] + cdc_value();
    lemma_plain_line_decides(before, pattern, off, path);
    lemma_plain_line_decides(before, pattern, on, path);
}

proof fn lemma_plain_line_decides(
    before: Seq<u8>,
    pattern: Seq<u8>,
    assignment: Seq<u8>,
    path: Seq<u8>,
)
    requires
        attribute_lines::whole_lines(before),
        before.len() == 0 ==> attribute_lines::mark_len(pattern) == 0,
        attribute_lines::is_plain_pattern(pattern),
        assignment.len() > 0,
        attribute_lines::is_visible_ascii(assignment),
        attribute_lines::assigned_name(assignment) == storage_name(),
    ensures
        applies(parsed(before + (pattern + seq![0x20u8] + assignment).push(0x0a)), path)
            == if pattern_matches(pattern, path, Case::Sensitive, None) {
            attribute_lines::assigned_value(assignment) == Some(cdc_value())
        } else {
            applies(parsed(before), path)
        },
{
    let line = pattern + seq![0x20u8] + assignment;
    attribute_lines::plain_line_fields(pattern, assignment);
    assert(line.last() == assignment.last());
    assert(0x21 <= assignment[assignment.len() - 1]);
    assert(attribute_lines::line_as_read(before, line) == line) by {
        if before.len() == 0 {
            attribute_lines::mark_ends_before_blank(pattern, seq![0x20u8] + assignment);
            assert(line =~= pattern + (seq![0x20u8] + assignment));
            assert(attribute_lines::without_mark(line) =~= line);
        }
    }
    assert forall|i: int| 0 <= i < line.len() implies line[i] != 0x0a by {
        if i < pattern.len() {
            assert(line[i] == pattern[i]);
        } else if i > pattern.len() {
            assert(line[i] == assignment[i - pattern.len() - 1]);
        }
    }
    last_line_decides(before, line, path);
}

/// Attribute values are taken one by one, as they stand.
pub proof fn values_by_value(values: Seq<Option<Vec<u8>>>, i: int)
    requires
        0 <= i < values.len(),
    ensures
        value_views(values).len() == values.len(),
        values[i] is None <==> value_views(values)[i] is None,
        values[i] matches Some(value) ==> value_views(values)[i] == Some(value@),
{
}

} // verus!
