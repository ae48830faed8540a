//! Path resolution and the steps by which the library changes the file
//! system.
//!
//! Paths are texts with `/` as separator. The library never touches a file:
//! it returns [`FsStep`]s for its caller to perform, in order, stopping at the
//! first that fails.

use crate::error::{AppError, AppResult};
use crate::utils::text::has_prefix;
use vstd::prelude::*;
use vstd::string::*;

verus! {

/// The directories and files that the program works on.
#[derive(Debug, Clone)]
pub struct ConfigPaths {
    pub base_dir: String,
    pub config_json: String,
    pub separated_dir: String,
}

/// One entry of a directory listing.
#[derive(Debug, Clone)]
pub struct DirEntry {
    /// The name of the entry, without the directory.
    pub file_name: String,
    /// Whether the entry is a regular file.
    pub is_file: bool,
}

/// One change to the file system.
#[derive(Debug)]
pub enum FsStep {
    /// Create the directory and the directories above it that are missing.
    CreateDirAll { dir: String },
    /// Create the file, or empty it, and write the bytes to it.
    WriteFile { path: String, data: Vec<u8> },
    /// Flush the file to the disk.
    SyncFile { path: String },
    /// Give the file another path, replacing what is there.
    Rename { from: String, to: String },
    /// Delete the file.
    RemoveFile { path: String },
}

/// A step as the contracts see it: texts and bytes in place of strings and
/// vectors.
pub enum Step {
    CreateDirAll { dir: Seq<char> },
    WriteFile { path: Seq<char>, data: Seq<u8> },
    SyncFile { path: Seq<char> },
    Rename { from: Seq<char>, to: Seq<char> },
    RemoveFile { path: Seq<char> },
}

impl View for FsStep {
    type V = Step;

    open spec fn view(&self) -> Step {
        match self {
            FsStep::CreateDirAll { dir } => Step::CreateDirAll { dir: dir@ },
            FsStep::WriteFile { path, data } => Step::WriteFile { path: path@, data: data@ },
            FsStep::SyncFile { path } => Step::SyncFile { path: path@ },
            FsStep::Rename { from, to } => Step::Rename { from: from@, to: to@ },
            FsStep::RemoveFile { path } => Step::RemoveFile { path: path@ },
        }
    }
}

impl Step {
    /// The files after the step, given the files before it, each file as its
    /// path and content. Directories are not part of the picture.
    pub open spec fn effect(self, files: Map<Seq<char>, Seq<u8>>) -> Map<Seq<char>, Seq<u8>> {
        match self {
            Step::CreateDirAll { dir } => files,
            Step::WriteFile { path, data } => files.insert(path, data),
            Step::SyncFile { path } => files,
            Step::Rename { from, to } => if files.dom().contains(from) {
                files.remove(from).insert(to, files[from])
            } else {
                files
            },
            Step::RemoveFile { path } => files.remove(path),
        }
    }
}

/// The steps of a list, as the contracts see them.
pub open spec fn plan_of(steps: Seq<FsStep>) -> Seq<Step> {
    steps.map_values(|s: FsStep| s@)
}

/// The files after a list of steps, performed in order.
pub open spec fn after_steps(files: Map<Seq<char>, Seq<u8>>, steps: Seq<Step>) -> Map<
    Seq<char>,
    Seq<u8>,
>
    decreases steps.len(),
{
    if steps.len() == 0 {
        files
    } else {
        steps.last().effect(after_steps(files, steps.drop_last()))
    }
}

/// The path `rel` seen from the directory `dir`: `rel` itself where it starts
/// at the root, else `dir`, a separator unless `dir` is empty or ends in one,
/// and `rel`.
pub open spec fn joined(dir: Seq<char>, rel: Seq<char>) -> Seq<char> {
    if rel.len() > 0 && rel[0] == '/' {
        rel
    } else if dir.len() == 0 || dir.last() == '/' {
        dir + rel
    } else {
        dir + seq!['/'] + rel
    }
}

/// Whether a path is written from the home directory: `~` alone, or `~/` and
/// more. `~name` is not.
pub open spec fn names_home(path: Seq<char>) -> bool {
    path == seq!['~'] || seq!['~', '/'].is_prefix_of(path)
}

/// A path with the home directory in place of a leading `~`, or nothing
/// where the path needs a home directory and there is none.
pub open spec fn expansion(path: Seq<char>, home: Option<Seq<char>>) -> Option<Seq<char>> {
    if !names_home(path) {
        Some(path)
    } else if home is None {
        None
    } else if path == seq!['~'] {
        home
    } else {
        Some(joined(home->0, path.skip(2)))
    }
}

/// Whether `r` reports `expected`: the path, or that no home directory is
/// known.
pub open spec fn reports_path(r: AppResult<String>, expected: Option<Seq<char>>) -> bool {
    match r {
        Ok(path) => expected == Some(path@),
        Err(e) => expected is None && e is HomeDirUnavailable,
    }
}

/// The three paths under a base directory.
pub open spec fn paths_under(base: Seq<char>, paths: ConfigPaths) -> bool {
    &&& paths.base_dir@ == base
    &&& paths.config_json@ == joined(base, "config.json"@)
    &&& paths.separated_dir@ == joined(base, "separated"@)
}

/// The paths of the program for a home directory, or nothing where there is
/// none.
pub open spec fn reports_paths(r: AppResult<ConfigPaths>, home: Option<Seq<char>>) -> bool {
    match r {
        Ok(paths) => home is Some && paths_under(joined(home->0, ".cc-switch"@), paths),
        Err(e) => home is None && e is HomeDirUnavailable,
    }
}

/// What the platform says of the user's home directory.
pub enum HomeDir {
    /// Its path.
    Known(String),
    /// It has a path, which is not text.
    NotText,
    /// The platform names none.
    Unknown,
}

/// Whether `r` reports that the path of the home directory is not text.
pub open spec fn fails_on_home<T>(r: AppResult<T>) -> bool {
    r is Err && r->Err_0 is HomeDirNotText
}

/// `dirs::home_dir`: the home directory of the user, where the platform
/// names one. It differs from user to user, so nothing is said of it.
#[verifier::external_body]
pub(crate) fn home_dir() -> HomeDir {
    match dirs::home_dir() {
        Some(path) => match path.into_os_string().into_string() {
            Ok(text) => HomeDir::Known(text),
            Err(_) => HomeDir::NotText,
        },
        None => HomeDir::Unknown,
    }
}

/// The home directory of the user as text, or none where the platform names
/// none. A home directory whose path is not text is an error of its own.
pub(crate) fn home_text() -> (r: AppResult<Option<String>>)
    ensures
        r is Err ==> fails_on_home(r),
{
    match home_dir() {
        HomeDir::Known(text) => Ok(Some(text)),
        HomeDir::Unknown => Ok(None),
        HomeDir::NotText => Err(AppError::HomeDirNotText),
    }
}

/// The home directory as a borrowed text.
pub(crate) fn borrowed(home: &Option<String>) -> (r: Option<&str>)
    ensures
        r is Some == home is Some,
        r matches Some(text) ==> text@ == home->0@,
{
    match home {
        Some(text) => Some(text.as_str()),
        None => None,
    }
}

/// Joins a path to a directory.
pub fn join_path(dir: &str, rel: &str) -> (path: String)
    ensures
        path@ == joined(dir@, rel@),
{
    if rel.unicode_len() > 0 && rel.get_char(0) == '/' {
        return rel.to_owned();
    }
    let n = dir.unicode_len();
    let mut path = dir.to_owned();
    if n > 0 && dir.get_char(n - 1) != '/' {
        proof {
            reveal_strlit("/");
            assert("/"@ =~= seq!['/']);
        }
        path.append("/");
    }
    path.append(rel);
    path
}

/// Expands a leading `~` to the given home directory.
///
/// A path that does not start with `~` alone or `~/` is returned as it is,
/// also where no home directory is known.
pub fn expand_tilde_in(path: &str, home: Option<&str>) -> (r: AppResult<String>)
    ensures
        reports_path(
            r,
            expansion(
                path@,
                match home {
                    Some(h) => Some(h@),
                    None => None,
                },
            ),
        ),
{
    proof {
        reveal_strlit("~/");
        reveal_strlit("~");
        assert("~/"@ =~= seq!['~', '/']);
        assert("~"@ =~= seq!['~']);
    }
    let n = path.unicode_len();
    let slash = has_prefix(path, "~/");
    let alone = n == 1 && has_prefix(path, "~");
    assert(alone == (path@ == seq!['~'])) by {
        if alone {
            assert(path@ =~= path@.subrange(0, 1));
        }
    }
    if !slash && !alone {
        return Ok(path.to_owned());
    }
    match home {
        None => Err(AppError::HomeDirUnavailable),
        Some(h) => {
            if slash {
                let rest = path.substring_char(2, n);
                assert(rest@ == path@.skip(2));
                Ok(join_path(h, rest))
            } else {
                Ok(h.to_owned())
            }
        },
    }
}

/// Expands a leading `~` to the home directory of the user.
///
/// The home directory is asked for only where the path needs it.
pub fn expand_tilde(path: &str) -> (r: AppResult<String>)
    ensures
        fails_on_home(r) || exists|home: Option<Seq<char>>| reports_path(r, expansion(path@, home)),
        !names_home(path@) ==> reports_path(r, Some(path@)),
{
    proof {
        reveal_strlit("~/");
        reveal_strlit("~");
        assert("~/"@ =~= seq!['~', '/']);
        assert("~"@ =~= seq!['~']);
    }
    let n = path.unicode_len();
    let alone = n == 1 && has_prefix(path, "~");
    assert(alone == (path@ == seq!['~'])) by {
        if alone {
            assert(path@ =~= path@.subrange(0, 1));
        }
    }
    if !has_prefix(path, "~/") && !alone {
        let r = expand_tilde_in(path, None);
        assert(reports_path(r, expansion(path@, None)));
        return r;
    }
    let home = match home_text() {
        Ok(home) => home,
        Err(e) => {
            return Err(e);
        },
    };
    let r = expand_tilde_in(path, borrowed(&home));
    proof {
        let h: Option<Seq<char>> = match home {
            Some(text) => Some(text@),
            None => None,
        };
        assert(reports_path(r, expansion(path@, h)));
    }
    r
}

impl ConfigPaths {
    /// The paths under a base directory.
    pub fn under(base: String) -> (paths: ConfigPaths)
        ensures
            paths_under(base@, paths),
    {
        let config_json = join_path(base.as_str(), "config.json");
        let separated_dir = join_path(base.as_str(), "separated");
        ConfigPaths { base_dir: base, config_json, separated_dir }
    }
}

/// The paths of the program for the given home directory: the base directory
/// `.cc-switch` in it, the provider document and the directory of
/// materialised files.
pub fn config_paths_in(home: Option<&str>) -> (r: AppResult<ConfigPaths>)
    ensures
        reports_paths(
            r,
            match home {
                Some(h) => Some(h@),
                None => None,
            },
        ),
{
    match home {
        None => Err(AppError::HomeDirUnavailable),
        Some(h) => Ok(ConfigPaths::under(join_path(h, ".cc-switch"))),
    }
}

/// The paths of the program for the user's home directory.
pub fn get_config_paths() -> (r: AppResult<ConfigPaths>)
    ensures
        fails_on_home(r) || exists|home: Option<Seq<char>>| reports_paths(r, home),
{
    let home = match home_text() {
        Ok(home) => home,
        Err(e) => {
            return Err(e);
        },
    };
    let r = config_paths_in(borrowed(&home));
    proof {
        let h: Option<Seq<char>> = match home {
            Some(text) => Some(text@),
            None => None,
        };
        assert(reports_paths(r, h));
    }
    r
}

/// The steps that make sure a directory exists: none where it is present,
/// else its creation.
pub open spec fn creation_steps(dir: Seq<char>, present: bool) -> Seq<Step> {
    if present {
        Seq::empty()
    } else {
        seq![(Step::CreateDirAll { dir })]
    }
}

/// The steps that make sure a directory exists, given whether it does.
pub fn ensure_dir_exists(dir: &str, present: bool) -> (steps: Vec<FsStep>)
    ensures
        plan_of(steps@) == creation_steps(dir@, present),
{
    let mut steps: Vec<FsStep> = Vec::new();
    if !present {
        steps.push(FsStep::CreateDirAll { dir: dir.to_owned() });
    }
    assert(plan_of(steps@) =~= creation_steps(dir@, present));
    steps
}

} // verus!
