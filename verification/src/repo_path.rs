//! Paths of files inside a repository.
use vstd::prelude::*;

verus! {

/// The byte between two components of a path.
pub const SLASH: u8 = 0x2f;

/// Whether `path` is the text of a path relative to the root of a repository:
/// components joined by single slashes, with none at either end. The root
/// itself is the empty text.
pub open spec fn is_repo_path(path: Seq<u8>) -> bool {
    &&& path.len() > 0 ==> path[0] != SLASH && path.last() != SLASH
    &&& forall|i: int| 0 <= i < path.len() - 1 ==> !(#[trigger] path[i] == SLASH && path[i + 1] == SLASH)
}

/// A path relative to the root of a repository.
#[derive(Debug, PartialEq, Eq, Hash)]
pub struct RepoPath {
    value: String,
}

impl View for RepoPath {
    type V = Seq<u8>;

    /// The UTF-8 bytes of the path.
    closed spec fn view(&self) -> Seq<u8> {
        vstd::utf8::encode_utf8(self.value@)
    }
}

impl RepoPath {
    #[verifier::type_invariant]
    spec fn relative(self) -> bool {
        is_repo_path(vstd::utf8::encode_utf8(self.value@))
    }

    /// The path that `value` writes, or `None` when it writes none.
    pub fn from_internal_string(value: &str) -> (path: Option<RepoPath>)
        ensures
            path is Some <==> is_repo_path(vstd::utf8::encode_utf8(value@)),
            path matches Some(path) ==> path@ == vstd::utf8::encode_utf8(value@),
    {
        let bytes = value.as_bytes();
        let n: usize = bytes.len();
        if n > 0 && (bytes[0] == SLASH || bytes[n - 1] == SLASH) {
            return None;
        }
        let mut i: usize = 1;
        while i < n
            invariant
                n == bytes@.len(),
                1 <= i,
                bytes@ == vstd::utf8::encode_utf8(value@),
                forall|j: int|
                    0 <= j < i - 1 && j < n - 1 ==> !(#[trigger] bytes@[j] == SLASH && bytes@[j + 1] == SLASH),
            decreases n - i,
        {
            if bytes[i - 1] == SLASH && bytes[i] == SLASH {
                assert(bytes@[i - 1] == SLASH);
                return None;
            }
            i += 1;
        }
        Some(RepoPath { value: value.to_owned() })
    }

    /// The bytes of the path, as the root of the repository sees it.
    pub fn as_internal_bytes(&self) -> (bytes: &[u8])
        ensures
            bytes@ == self@,
            is_repo_path(self@),
    {
        proof {
            use_type_invariant(self);
        }
        self.value.as_str().as_bytes()
    }
}

/// Any text without a slash is a path: that of something at the root, or of the root.
pub proof fn names_are_paths(name: Seq<u8>)
    requires
        !name.contains(SLASH),
    ensures
        is_repo_path(name),
{
    if name.len() > 0 {
        assert(name.contains(name[0]));
        assert(name.contains(name.last()));
    }
    assert forall|i: int| 0 <= i < name.len() - 1 implies !(#[trigger] name[i] == SLASH && name[i
        + 1] == SLASH) by {
        assert(name.contains(name[i]));
    }
}

/// Two texts joined by a slash are a path if and only if each of them is one and
/// neither is empty.
pub proof fn paths_join(a: Seq<u8>, b: Seq<u8>)
    ensures
        is_repo_path(a + seq![0x2fu8] + b) <==> a.len() > 0 && b.len() > 0 && is_repo_path(a)
            && is_repo_path(b),
{
    let whole = a + seq![0x2fu8] + b;
    let at = a.len() as int;
    assert(whole[at] == SLASH);
    if is_repo_path(whole) {
        assert(a.len() > 0) by {
            assert(whole[0] != SLASH);
        }
        assert(b.len() > 0) by {
            assert(whole.last() != SLASH);
        }
        assert(whole[at - 1] == a.last());
        assert(whole[at - 1] != SLASH);
        assert(whole[at + 1] == b[0]);
        assert(b[0] != SLASH);
        assert(whole.last() == b.last());
        assert(whole[0] == a[0]);
        assert forall|i: int| 0 <= i < a.len() - 1 implies !(#[trigger] a[i] == SLASH && a[i + 1]
            == SLASH) by {
            assert(whole[i] == a[i] && whole[i + 1] == a[i + 1]);
        }
        assert forall|i: int| 0 <= i < b.len() - 1 implies !(#[trigger] b[i] == SLASH && b[i + 1]
            == SLASH) by {
            assert(whole[at + 1 + i] == b[i] && whole[at + 2 + i] == b[i + 1]);
        }
    }
    if a.len() > 0 && b.len() > 0 && is_repo_path(a) && is_repo_path(b) {
        assert(whole[0] == a[0]);
        assert(whole.last() == b.last());
        assert forall|i: int| 0 <= i < whole.len() - 1 implies !(#[trigger] whole[i] == SLASH
            && whole[i + 1] == SLASH) by {
            if i < at {
                assert(whole[i] == a[i]);
                if i + 1 < at {
                    assert(whole[i + 1] == a[i + 1]);
                } else {
                    assert(a[i] == a.last());
                }
            } else if i == at {
                assert(whole[i + 1] == b[0]);
            } else {
                assert(whole[i] == b[i - at - 1] && whole[i + 1] == b[i - at]);
            }
        }
    }
}

} // verus!
