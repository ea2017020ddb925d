//! Persisted application state and the layout of the data directory.
use crate::manifest::ModManifest;
use crate::profile::Profile;
use crate::text::{has_prefix, has_suffix, join, strings_view};
use vstd::prelude::*;

verus! {

/// An imported mod: its manifest, where its package lives, and when it was
/// imported (nanoseconds since the Unix epoch).
#[derive(Debug, Clone, PartialEq, Eq)]
pub struct LibraryItem {
    pub manifest: ModManifest,
    pub package_path: String,
    pub imported_at: i128,
}

/// Where the application keeps its files.
#[derive(Debug, Clone, PartialEq, Eq)]
pub struct AppPaths {
    pub root: String,
    pub packages: String,
    pub cache: String,
    pub logs: String,
    pub database: String,
    pub state_file: String,
}

/// `root.join(child)` with `std::path::Path::join`, as text. For a plain
/// relative `child` (no separator, no drive or root, not `.` or `..`) the join
/// extends `root` with `child`: the result is `root` and `child`, either
/// directly or with one path separator between them, which is the platform's
/// `std::path::MAIN_SEPARATOR` (`/` on Unix, `\` on Windows). A Windows
/// verbatim root (`\\?\...`) is normalized by the join, so there only the
/// suffix `child` and the length are stated. Which of the two separators the
/// platform uses, and when the separator is left out (an empty root, a root
/// that ends in a separator, a bare drive such as `C:`), is not stated.
#[verifier::external_body]
pub(crate) fn path_join(root: &str, child: &str) -> (r: String)
    requires
        plain_name(child@),
    ensures
        joined(r@, root@, child@),
{
    std::path::Path::new(root).join(child).to_string_lossy().into_owned()
}

/// A single relative path component: not empty, not `.` or `..`, no `/`,
/// `\\` or `:`.
pub open spec fn plain_name(s: Seq<char>) -> bool {
    &&& s.len() > 0
    &&& s != seq!['.']
    &&& s != seq!['.', '.']
    &&& forall|i: int| 0 <= i < s.len() ==> s[i] != '/' && s[i] != '\\' && s[i] != ':'
}

/// A name of three or more characters without separators or colons is plain.
pub(crate) proof fn lemma_long_name_is_plain(s: Seq<char>)
    requires
        s.len() > 2,
        forall|i: int| 0 <= i < s.len() ==> s[i] != '/' && s[i] != '\\' && s[i] != ':',
    ensures
        plain_name(s),
{
    assert(s.len() != seq!['.'].len());
    assert(s.len() != seq!['.', '.'].len());
}

/// Whether `root` begins like a Windows verbatim path (`\\?\`, with either
/// kind of slash), which a join normalizes.
pub open spec fn verbatim_like(root: Seq<char>) -> bool {
    &&& root.len() >= 4
    &&& (root[0] == '/' || root[0] == '\\')
    &&& (root[1] == '/' || root[1] == '\\')
    &&& root[2] == '?'
    &&& (root[3] == '/' || root[3] == '\\')
}

/// `path` is `child` joined onto `root`: it ends with `child`, is at most one
/// separator longer than the two, and, unless `root` is a Windows verbatim
/// path, is `root` followed by `child`, with nothing or one path separator
/// (`/` or `\`) between them.
pub open spec fn joined(path: Seq<char>, root: Seq<char>, child: Seq<char>) -> bool {
    &&& !verbatim_like(root) ==> (path == root + child || path == root + seq!['/'] + child
        || path == root + seq!['\\'] + child)
    &&& has_suffix(path, child)
    &&& path.len() <= root.len() + 1 + child.len()
}

impl AppPaths {
    /// The standard layout under an explicit data root: `packages`, `cache`,
    /// `logs`, `manager.sqlite` and `state.json` joined onto the root.
    pub fn from_root(root: String) -> (p: Self)
        ensures
            p.root@ == root@,
            joined(p.packages@, root@, "packages"@),
            joined(p.cache@, root@, "cache"@),
            joined(p.logs@, root@, "logs"@),
            joined(p.database@, root@, "manager.sqlite"@),
            joined(p.state_file@, root@, "state.json"@),
    {
        proof {
            reveal_strlit("packages");
            reveal_strlit("cache");
            reveal_strlit("logs");
            reveal_strlit("manager.sqlite");
            reveal_strlit("state.json");
            lemma_long_name_is_plain("packages"@);
            lemma_long_name_is_plain("cache"@);
            lemma_long_name_is_plain("logs"@);
            lemma_long_name_is_plain("manager.sqlite"@);
            lemma_long_name_is_plain("state.json"@);
        }
        AppPaths {
            packages: path_join(root.as_str(), "packages"),
            cache: path_join(root.as_str(), "cache"),
            logs: path_join(root.as_str(), "logs"),
            database: path_join(root.as_str(), "manager.sqlite"),
            state_file: path_join(root.as_str(), "state.json"),
            root,
        }
    }
}

/// Persisted application state: the imported library and saved profiles.
#[derive(Debug, Clone, PartialEq, Eq)]
pub struct PersistedState {
    pub library: Vec<LibraryItem>,
    pub profiles: Vec<Profile>,
}

impl Default for PersistedState {
    fn default() -> (s: Self)
        ensures
            s.library@.len() == 0,
            s.profiles@.len() == 0,
    {
        PersistedState { library: Vec::new(), profiles: Vec::new() }
    }
}

/// What an import refuses: the manifest's validation errors, joined with `; `,
/// when there are any.
pub fn import_refusal(errors: &Vec<String>) -> (r: Option<String>)
    ensures
        match r {
            Some(m) => errors@.len() > 0 && m@ == crate::text::join_spec(
                strings_view(errors@),
                "; "@,
            ),
            None => errors@.len() == 0,
        },
{
    if errors.len() == 0 {
        None
    } else {
        Some(join(errors, "; "))
    }
}

/// The manifest check an import makes before it copies anything: a manifest with
/// validation errors is refused with those errors.
pub fn check_importable(manifest: &ModManifest) -> (r: Result<(), String>)
    ensures
        match r {
            Ok(_) => crate::manifest::validation_errors(*manifest).len() == 0,
            Err(m) => crate::manifest::validation_errors(*manifest).len() > 0 && m@
                == crate::text::join_spec(crate::manifest::validation_errors(*manifest), "; "@),
        },
        r is Ok <==> crate::manifest::complete(*manifest),
{
    proof {
        crate::manifest::law_every_asset_is_checked(*manifest);
    }
    let report = manifest.validate();
    match import_refusal(&report.errors) {
        Some(m) => Err(m),
        None => Ok(()),
    }
}

} // verus!
