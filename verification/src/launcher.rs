//! The launchers: copies of one small program that look up the real program
//! under their own name, in a file that setup writes next to them.
use vstd::prelude::*;
use crate::paths;
use crate::string_map;
use crate::text;
use crate::text::{copied, same_text};

verus! {

/// The file, next to the launchers, that maps their names to programs.
pub const PATHS_FILENAME: &'static str = "launcher_paths.json";

/// What `serde_json` makes of a text that should hold a map of strings to
/// strings: the entries in the order of their keys, or the description of what
/// is wrong.
pub uninterp spec fn parsed_paths(raw: Seq<char>) -> Result<
    Seq<(Seq<char>, Seq<char>)>,
    Seq<char>,
>;

/// The text that `serde_json` writes for a map of strings to strings.
pub uninterp spec fn printed_paths(entries: Seq<(Seq<char>, Seq<char>)>) -> Seq<char>;

/// The contents of what parsing gives.
pub open spec fn outcome(r: Result<Vec<(String, String)>, String>) -> Result<
    Seq<(Seq<char>, Seq<char>)>,
    Seq<char>,
> {
    match r {
        Ok(list) => Ok(string_map::pair_views(list@)),
        Err(e) => Err(e@),
    }
}

/// Whether reading `written`, with a line break after it, gives back the map
/// of `entries`.
pub open spec fn reads_back(written: Seq<char>, entries: Seq<(Seq<char>, Seq<char>)>) -> bool {
    parsed_paths(written.push('\n')) matches Ok(read) && read == string_map::gathered(entries)
}

/// Whether the launcher called `logical` finds `target` in the text `raw`.
pub open spec fn finds(raw: Seq<char>, logical: Seq<char>, target: Seq<char>) -> bool {
    parsed_paths(raw) matches Ok(entries) && string_map::lookup(entries, logical) == Some(target)
}

/// `serde_json::from_str` into a map of strings to strings: the entries in the
/// order of their keys, or the description of the error. The result is named,
/// not described.
#[verifier::external_body]
pub(crate) fn parse_paths(raw: &str) -> (r: Result<Vec<(String, String)>, String>)
    ensures
        outcome(r) == parsed_paths(raw@),
{
    serde_json::from_str::<std::collections::BTreeMap<String, String>>(raw)
        .map(|m| m.into_iter().collect())
        .map_err(|e| e.to_string())
}

/// `serde_json::to_string_pretty` of a map of strings to strings, which cannot
/// fail. What `serde_json` escapes when it writes a string it turns back when
/// it reads it, so that every map is read back as it was; white space after it
/// does not matter.
#[verifier::external_body]
pub(crate) fn print_paths(entries: &Vec<(String, String)>) -> (r: String)
    ensures
        r@ == printed_paths(string_map::pair_views(entries@)),
        reads_back(r@, string_map::pair_views(entries@)),
{
    let map: std::collections::BTreeMap<&str, &str> =
        entries.iter().map(|(k, v)| (k.as_str(), v.as_str())).collect();
    serde_json::to_string_pretty(&map).unwrap_or_default()
}

/// The name of the launcher at `exe`: that of the file, without the suffix
/// that some platforms need.
pub fn logical_name(exe: &str) -> (r: Option<String>)
    ensures
        text::opt_view(r) == paths::stem_of(exe@),
{
    paths::file_stem(exe)
}

/// Why a launcher does not know its program.
#[derive(Debug, PartialEq, Eq)]
pub enum LauncherError {
    /// The file is not what it should be; holds its path and what is wrong.
    Unparsable(String, String),
    /// The file has no entry with the name; holds the name and the path.
    NoEntry(String, String),
}

impl LauncherError {
    /// The text of the error.
    pub open spec fn text(self) -> Seq<char> {
        match self {
            LauncherError::Unparsable(path, reason) => "parsing "@ + path@ + ": "@ + reason@,
            LauncherError::NoEntry(name, path) => "no entry for `"@ + name@ + "` in "@ + path@,
        }
    }

    /// Describes the error.
    pub fn message(&self) -> (r: String)
        ensures
            r@ == self.text(),
    {
        match self {
            LauncherError::Unparsable(path, reason) => {
                let mut r = "parsing ".to_owned();
                r.append(path.as_str());
                r.append(": ");
                r.append(reason.as_str());
                r
            },
            LauncherError::NoEntry(name, path) => {
                let mut r = "no entry for `".to_owned();
                r.append(name.as_str());
                r.append("` in ");
                r.append(path.as_str());
                r
            },
        }
    }
}

/// The program of the launcher called `logical`, among the entries of the file
/// at `paths_path`.
pub fn find_target(
    entries: &Vec<(String, String)>,
    paths_path: &str,
    logical: &str,
) -> (r: Result<String, LauncherError>)
    ensures
        match (r, string_map::lookup(string_map::pair_views(entries@), logical@)) {
            (Ok(t), Some(u)) => t@ == u,
            (Err(LauncherError::NoEntry(name, path)), None) => name@ == logical@ && path@
                == paths_path@,
            _ => false,
        },
{
    let ghost all = string_map::pair_views(entries@);
    let mut i: usize = 0;
    while i < entries.len()
        invariant
            i <= entries@.len(),
            all == string_map::pair_views(entries@),
            forall|k: int| 0 <= k < i ==> (#[trigger] all[k]).0 != logical@,
        decreases entries@.len() - i,
    {
        if same_text(entries[i].0.as_str(), logical) {
            proof {
                string_map::lemma_first_key(all, logical@, i as int);
            }
            return Ok(copied(&entries[i].1));
        }
        i += 1;
    }
    proof {
        string_map::lemma_first_key(all, logical@, i as int);
    }
    Err(LauncherError::NoEntry(logical.to_owned(), paths_path.to_owned()))
}

/// The program of the launcher called `logical`, where `raw` is the text of the
/// file at `paths_path`.
pub fn resolve_target(paths_path: &str, raw: &str, logical: &str) -> (r: Result<
    String,
    LauncherError,
>)
    ensures
        match parsed_paths(raw@) {
            Ok(entries) => match string_map::lookup(entries, logical@) {
                Some(u) => r matches Ok(t) && t@ == u && finds(raw@, logical@, t@),
                None => r matches Err(LauncherError::NoEntry(name, path)) && name@ == logical@
                    && path@ == paths_path@,
            },
            Err(reason) => r matches Err(LauncherError::Unparsable(path, e)) && path@
                == paths_path@ && e@ == reason,
        },
{
    match parse_paths(raw) {
        Ok(entries) => find_target(&entries, paths_path, logical),
        Err(reason) => Err(LauncherError::Unparsable(paths_path.to_owned(), reason)),
    }
}

/// Errors tell which file, which launcher and what is wrong.
pub proof fn lemma_error_texts(name: String, path: String, reason: String)
    ensures
        LauncherError::Unparsable(path, reason).text() == "parsing "@ + path@ + ": "@ + reason@,
        LauncherError::NoEntry(name, path).text() == "no entry for `"@ + name@ + "` in "@ + path@,
{
}

/// A launcher finds the program that was written for it: what is read back of
/// entries gives the target of the last of them with its name.
pub proof fn lemma_written_target_found(
    written: Seq<char>,
    before: Seq<(Seq<char>, Seq<char>)>,
    logical: Seq<char>,
    target: Seq<char>,
    after: Seq<(Seq<char>, Seq<char>)>,
)
    requires
        reads_back(written, before + seq![(logical, target)] + after),
        forall|i: int| 0 <= i < after.len() ==> (#[trigger] after[i]).0 != logical,
    ensures
        finds(written.push('\n'), logical, target),
{
    let entries = before + seq![(logical, target)] + after;
    let k = before.len() as int;
    assert(entries[k] == (logical, target));
    assert forall|j: int| k < j < entries.len() implies (#[trigger] entries[j]).0 != logical by {
        assert(entries[j] == after[j - k - 1]);
    }
    string_map::lemma_gathered_lookup(entries, logical);
}

/// A launcher runs the program under its name, the first one of that name, and
/// without one it fails.
pub proof fn lemma_target_answer(
    entries: &Vec<(String, String)>,
    paths_path: &str,
    logical: &str,
    r: Result<String, LauncherError>,
    n: int,
)
    requires
        call_ensures(find_target, (entries, paths_path, logical), r),
        0 <= n <= entries@.len(),
        forall|j: int| 0 <= j < n ==> (#[trigger] entries@[j]).0@ != logical@,
        n < entries@.len() ==> entries@[n].0@ == logical@,
    ensures
        n < entries@.len() ==> (r matches Ok(t) && t@ == entries@[n].1@),
        n == entries@.len() ==> (r matches Err(LauncherError::NoEntry(name, path)) && name@
            == logical@ && path@ == paths_path@),
{
    let all = string_map::pair_views(entries@);
    assert(all.len() == entries@.len());
    assert forall|j: int| 0 <= j < n implies (#[trigger] all[j]).0 != logical@ by {
        assert(entries@[j].0@ != logical@);
    }
    if n < entries@.len() {
        assert(all[n] == (entries@[n].0@, entries@[n].1@));
    }
    string_map::lemma_first_key(all, logical@, n);
}

} // verus!
