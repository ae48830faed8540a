//! The cache of materialised settings files: one file for each provider,
//! rewritten only when its content changes, and removed when its provider is
//! gone.

use crate::db::Provider;
use crate::error::{AppError, AppResult};
use crate::utils::encoding::{
    decode_config_name, decoded_name, encode_config_name, encoded_name,
};
use crate::utils::fs::{
    after_steps, borrowed, home_text, join_path, joined, plan_of, DirEntry, FsStep, Step,
};
use crate::utils::json::{json_writable, pretty_json, to_pretty_bytes};
use crate::utils::sorting::{
    arranged, is_stable_order, sorted_copy, sorted_names, stable_order, views,
};
use crate::utils::text::{has_prefix, has_suffix};
use sha2::Digest;
use vstd::prelude::*;
use vstd::slice::slice_to_vec;
use vstd::string::*;

verus! {

/// The directory of materialised files.
pub struct CacheManager {
    cache_dir: String,
}

/// A settings file to hand on, and the steps that bring it up to date.
pub struct CachePlan {
    /// The path of the settings file.
    pub path: String,
    /// The steps to perform before the file is used; none where the file is
    /// up to date.
    pub steps: Vec<FsStep>,
}

/// The lower-case hexadecimal SHA-256 digest of the bytes, as the `sha2`
/// crate computes it.
pub uninterp spec fn sha256_hex(data: Seq<u8>) -> Seq<char>;

/// The name of the settings file for a token: `config-<token>.json`.
pub open spec fn file_name_for(token: Seq<char>) -> Seq<char> {
    "config-"@ + token + ".json"@
}

/// The path of the settings file for a token.
pub open spec fn token_path(dir: Seq<char>, token: Seq<char>) -> Seq<char> {
    joined(dir, file_name_for(token))
}

/// The path of the file that holds the settings of a provider.
pub open spec fn cache_path(dir: Seq<char>, name: Seq<char>) -> Seq<char> {
    token_path(dir, encoded_name(name))
}

/// The directory of materialised files for a home directory.
pub open spec fn cache_dir_in(home: Seq<char>) -> Seq<char> {
    joined(home, ".cc-switch/separated"@)
}

/// The temporary file beside a target, to which new content is written
/// before it takes the target's place.
pub open spec fn temp_path(target: Seq<char>) -> Seq<char> {
    target + ".tmp"@
}

/// The steps that put `data` at `target` so that the file there is never
/// seen half written: make sure of the directory, write a temporary file
/// beside the target, flush it, and rename it over the target.
pub open spec fn atomic_write_steps(dir: Seq<char>, target: Seq<char>, data: Seq<u8>) -> Seq<
    Step,
> {
    seq![
        (Step::CreateDirAll { dir }),
        (Step::WriteFile { path: temp_path(target), data }),
        (Step::SyncFile { path: temp_path(target) }),
        (Step::Rename { from: temp_path(target), to: target }),
    ]
}

/// The steps that replace the file at `target` by one that holds `data`, in
/// a directory that exists.
pub open spec fn replace_steps(target: Seq<char>, data: Seq<u8>) -> Seq<Step> {
    seq![
        (Step::WriteFile { path: temp_path(target), data }),
        (Step::SyncFile { path: temp_path(target) }),
        (Step::Rename { from: temp_path(target), to: target }),
    ]
}

/// Whether a file must be written: it is missing, or the digest of what it
/// holds differs from that of the new content.
pub open spec fn needs_write(content: Seq<u8>, existing: Option<Seq<u8>>) -> bool {
    match existing {
        None => true,
        Some(held) => sha256_hex(held) != sha256_hex(content),
    }
}

/// The steps that bring the file of a provider up to date.
pub open spec fn cache_steps(
    dir: Seq<char>,
    name: Seq<char>,
    content: Seq<u8>,
    existing: Option<Seq<u8>>,
) -> Seq<Step> {
    if needs_write(content, existing) {
        atomic_write_steps(dir, cache_path(dir, name), content)
    } else {
        Seq::empty()
    }
}

/// The steps that remove the file of a provider: none where there is no
/// file.
pub open spec fn removal_steps(dir: Seq<char>, name: Seq<char>, present: bool) -> Seq<Step> {
    if present {
        seq![(Step::RemoveFile { path: cache_path(dir, name) })]
    } else {
        Seq::empty()
    }
}

/// The token in a file name of the form `config-<token>.json`.
pub open spec fn token_of_file_name(file: Seq<char>) -> Option<Seq<char>> {
    let rest = file.skip("config-"@.len() as int);
    if "config-"@.is_prefix_of(file) && ".json"@.is_suffix_of(rest) {
        Some(rest.take(rest.len() - ".json"@.len()))
    } else {
        None
    }
}

/// The provider name that a directory entry stands for: that of a regular
/// file whose name has the form `config-<token>.json` with a token that
/// decodes. Other entries stand for none.
pub open spec fn managed_name(entry: DirEntry) -> Option<Seq<char>> {
    if !entry.is_file {
        None
    } else {
        match token_of_file_name(entry.file_name@) {
            None => None,
            Some(token) => match decoded_name(token) {
                Ok(name) => Some(name),
                Err(_) => None,
            },
        }
    }
}

/// The provider names that the entries of a directory stand for, in the
/// order of the entries.
pub open spec fn managed_names(entries: Seq<DirEntry>) -> Seq<Seq<char>> {
    entries.filter_map(|entry: DirEntry| managed_name(entry))
}

/// Whether an entry is a settings file of a provider that is not among the
/// valid names.
pub open spec fn is_stale(entry: DirEntry, valid: Seq<Seq<char>>) -> bool {
    managed_name(entry) is Some && !valid.contains(managed_name(entry)->0)
}

/// The entries that are settings files of providers not among the valid
/// names, in the order of the entries.
pub open spec fn stale_entries(entries: Seq<DirEntry>, valid: Seq<Seq<char>>) -> Seq<DirEntry> {
    entries.filter(|entry: DirEntry| is_stale(entry, valid))
}

/// The provider names of settings files, file by file.
pub open spec fn names_of_entries(entries: Seq<DirEntry>) -> Seq<Seq<char>> {
    Seq::new(entries.len(), |i: int| managed_name(entries[i])->0)
}

/// The provider names to report as removed: those of the stale entries, in
/// ascending order.
pub open spec fn stale_names(entries: Seq<DirEntry>, valid: Seq<Seq<char>>) -> Seq<Seq<char>> {
    sorted_names(names_of_entries(stale_entries(entries, valid)))
}

/// Whether `plan` removes the stale entries taken in the order `order`: each
/// pair holds the provider name of its entry and the removal of the file
/// that the entry stands for, under the entry's own file name.
pub open spec fn is_cleanup_plan(
    plan: Seq<(String, FsStep)>,
    dir: Seq<char>,
    stale: Seq<DirEntry>,
    order: Seq<usize>,
) -> bool {
    &&& is_stable_order(names_of_entries(stale), order)
    &&& plan.len() == stale.len()
    &&& forall|k: int|
        0 <= k < plan.len() ==> {
            &&& (#[trigger] plan[k]).0@ == managed_name(stale[order[k] as int])->0
            &&& plan[k].1@ == (Step::RemoveFile {
                path: joined(dir, stale[order[k] as int].file_name@),
            })
        }
}

/// The provider names of a plan, pair by pair.
pub open spec fn plan_names(plan: Seq<(String, FsStep)>) -> Seq<Seq<char>> {
    Seq::new(plan.len(), |k: int| plan[k].0@)
}

/// The steps of a plan, pair by pair.
pub open spec fn plan_steps(plan: Seq<(String, FsStep)>) -> Seq<Step> {
    Seq::new(plan.len(), |k: int| plan[k].1@)
}

/// Whether one of the steps removes the file at `path`.
pub open spec fn removes(steps: Seq<Step>, path: Seq<char>) -> bool {
    steps.contains(Step::RemoveFile { path })
}

/// The entries of a directory that are left when the removals among the
/// steps have been performed.
pub open spec fn entries_left(entries: Seq<DirEntry>, dir: Seq<char>, steps: Seq<Step>) -> Seq<
    DirEntry,
> {
    entries.filter(|entry: DirEntry| !removes(steps, joined(dir, entry.file_name@)))
}

/// The names whose removal did not fail, in order.
pub open spec fn removed_names(outcomes: Seq<(String, bool)>) -> Seq<Seq<char>> {
    outcomes.filter(|o: (String, bool)| !o.1).map_values(|o: (String, bool)| o.0@)
}

/// Whether the removal at a position failed.
pub open spec fn failures(outcomes: Seq<(String, bool)>) -> Seq<bool> {
    outcomes.map_values(|o: (String, bool)| o.1)
}

/// What a file system holds at a path.
pub open spec fn content_at(files: Map<Seq<char>, Seq<u8>>, path: Seq<char>) -> Option<Seq<u8>> {
    if files.dom().contains(path) {
        Some(files[path])
    } else {
        None
    }
}

/// `sha2::Sha256::digest`, written in lower-case hexadecimal.
#[verifier::external_body]
pub(crate) fn hash_content(data: &[u8]) -> (digest: String)
    ensures
        digest@ == sha256_hex(data@),
{
    format!("{:x}", sha2::Sha256::digest(data))
}

/// The provider name that a file name stands for.
pub fn name_of_file(file: &str) -> (name: Option<String>)
    ensures
        match token_of_file_name(file@) {
            None => name is None,
            Some(token) => match decoded_name(token) {
                Ok(decoded) => name matches Some(text) && text@ == decoded,
                Err(_) => name is None,
            },
        },
{
    if !has_prefix(file, "config-") {
        return None;
    }
    let rest = file.substring_char("config-".unicode_len(), file.unicode_len());
    assert(rest@ == file@.skip("config-"@.len() as int));
    if !has_suffix(rest, ".json") {
        return None;
    }
    let token = rest.substring_char(0, rest.unicode_len() - ".json".unicode_len());
    assert(token@ == rest@.take(rest@.len() - ".json"@.len()));
    match decode_config_name(token) {
        Ok(name) => Some(name),
        Err(_) => None,
    }
}

/// The provider names that the entries of a directory stand for, in
/// ascending order.
pub fn list_managed_names(entries: &Vec<DirEntry>) -> (names: Vec<String>)
    ensures
        views(names@) == sorted_names(managed_names(entries@)),
{
    let n = entries.len();
    let mut found: Vec<String> = Vec::new();
    let mut i: usize = 0;
    assert(entries@.take(0) =~= Seq::<DirEntry>::empty());
    while i < n
        invariant
            i <= n,
            n == entries.len(),
            views(found@) == managed_names(entries@.take(i as int)),
        decreases n - i,
    {
        proof {
            let upto = entries@.take(i + 1);
            assert(upto.drop_last() =~= entries@.take(i as int));
            assert(upto.last() == entries@[i as int]);
        }
        let ghost before = found@;
        if entries[i].is_file {
            match name_of_file(entries[i].file_name.as_str()) {
                Some(name) => {
                    found.push(name);
                    assert(views(found@) =~= views(before) + seq![name@]);
                },
                None => {},
            }
        }
        i += 1;
    }
    assert(entries@.take(n as int) =~= entries@);
    sorted_copy(&found)
}

/// The path of the settings file for a token in a directory.
pub fn path_of_token(dir: &str, token: &str) -> (path: String)
    ensures
        path@ == token_path(dir@, token@),
{
    let mut file = "config-".to_owned();
    file.append(token);
    file.append(".json");
    join_path(dir, file.as_str())
}

/// Appends to `steps` those that replace the file at `target` by one that
/// holds `data`.
pub fn push_replace_steps(steps: &mut Vec<FsStep>, target: &str, data: &[u8])
    ensures
        plan_of(final(steps)@) == plan_of(old(steps)@) + replace_steps(target@, data@),
{
    let mut temp = target.to_owned();
    temp.append(".tmp");
    steps.push(FsStep::WriteFile { path: temp.clone(), data: slice_to_vec(data) });
    steps.push(FsStep::SyncFile { path: temp.clone() });
    steps.push(FsStep::Rename { from: temp, to: target.to_owned() });
    assert(plan_of(steps@) =~= plan_of(old(steps)@) + replace_steps(target@, data@));
}

/// Whether `name` is one of `names`.
pub fn contains_name(names: &[String], name: &String) -> (r: bool)
    ensures
        r == views(names@).contains(name@),
{
    let n = names.len();
    let mut i: usize = 0;
    while i < n
        invariant
            i <= n,
            n == names.len(),
            forall|j: int| 0 <= j < i ==> views(names@)[j] != name@,
        decreases n - i,
    {
        assert(views(names@)[i as int] == names@[i as int]@);
        if names[i] == *name {
            return true;
        }
        i += 1;
    }
    false
}

/// Whether two file systems hold the same at a path.
pub open spec fn same_at(
    a: Map<Seq<char>, Seq<u8>>,
    b: Map<Seq<char>, Seq<u8>>,
    path: Seq<char>,
) -> bool {
    content_at(a, path) == content_at(b, path)
}

/// One more step has its effect on what the steps before it have left.
pub proof fn lemma_after_one_more(files: Map<Seq<char>, Seq<u8>>, steps: Seq<Step>, step: Step)
    ensures
        after_steps(files, steps.push(step)) == step.effect(after_steps(files, steps)),
{
    assert(steps.push(step).drop_last() =~= steps);
}

proof fn lemma_temp_is_another_path(target: Seq<char>)
    ensures
        temp_path(target) != target,
{
    reveal_strlit(".tmp");
    assert(temp_path(target).len() == target.len() + 4);
}

/// However far an atomic write gets, the target holds what it held before,
/// or all of the new content; once the write is through, it holds the new
/// content. No other file but the temporary one changes.
pub proof fn lemma_atomic_write_never_partial(
    files: Map<Seq<char>, Seq<u8>>,
    dir: Seq<char>,
    target: Seq<char>,
    data: Seq<u8>,
    done: int,
)
    requires
        0 <= done <= atomic_write_steps(dir, target, data).len(),
    ensures
        ({
            let steps = atomic_write_steps(dir, target, data);
            let reached = after_steps(files, steps.take(done));
            &&& same_at(reached, files, target) || content_at(reached, target) == Some(data)
            &&& done == steps.len() ==> content_at(reached, target) == Some(data)
            &&& done < steps.len() ==> same_at(reached, files, target)
            &&& forall|other: Seq<char>|
                other != target && other != temp_path(target) ==> same_at(reached, files, other)
        }),
{
    let steps = atomic_write_steps(dir, target, data);
    let temp = temp_path(target);
    lemma_temp_is_another_path(target);
    let s0 = Seq::<Step>::empty();
    let s1 = s0.push(steps[0]);
    let s2 = s1.push(steps[1]);
    let s3 = s2.push(steps[2]);
    let s4 = s3.push(steps[3]);
    assert(steps.take(0) =~= s0);
    assert(steps.take(1) =~= s1);
    assert(steps.take(2) =~= s2);
    assert(steps.take(3) =~= s3);
    assert(steps.take(4) =~= s4);
    lemma_after_one_more(files, s0, steps[0]);
    lemma_after_one_more(files, s1, steps[1]);
    lemma_after_one_more(files, s2, steps[2]);
    lemma_after_one_more(files, s3, steps[3]);
    let f0 = after_steps(files, s0);
    let f1 = after_steps(files, s1);
    let f2 = after_steps(files, s2);
    let f3 = after_steps(files, s3);
    let f4 = after_steps(files, s4);
    assert(f0 == files);
    assert(f1 == files);
    assert(f2 == files.insert(temp, data));
    assert(f3 == f2);
    assert(f4 == f3.remove(temp).insert(target, data));
}

/// After the steps of `ensure_cached` are performed, `ensure_cached` with the
/// same content asks for no step: unchanged content is written at most once.
pub proof fn lemma_ensure_cached_is_idempotent(
    files: Map<Seq<char>, Seq<u8>>,
    dir: Seq<char>,
    name: Seq<char>,
    content: Seq<u8>,
)
    ensures
        ({
            let path = cache_path(dir, name);
            let first = cache_steps(dir, name, content, content_at(files, path));
            let then = after_steps(files, first);
            let second = cache_steps(dir, name, content, content_at(then, path));
            &&& second == Seq::<Step>::empty()
            &&& after_steps(then, second) == then
        }),
{
    let path = cache_path(dir, name);
    if needs_write(content, content_at(files, path)) {
        let steps = atomic_write_steps(dir, path, content);
        assert(steps.take(steps.len() as int) =~= steps);
        lemma_atomic_write_never_partial(files, dir, path, content, steps.len() as int);
    }
}

/// Where the digest of a provider's settings differs from that of its file,
/// or the file is missing, the steps of `ensure_cached` leave the file with
/// the new settings, and so with another digest than before.
pub proof fn lemma_ensure_cached_writes_changes(
    files: Map<Seq<char>, Seq<u8>>,
    dir: Seq<char>,
    name: Seq<char>,
    content: Seq<u8>,
)
    requires
        needs_write(content, content_at(files, cache_path(dir, name))),
    ensures
        ({
            let path = cache_path(dir, name);
            let steps = cache_steps(dir, name, content, content_at(files, path));
            let then = after_steps(files, steps);
            &&& content_at(then, path) == Some(content)
            &&& content_at(files, path) matches Some(held) ==> sha256_hex(then[path])
                != sha256_hex(held)
        }),
{
    let path = cache_path(dir, name);
    let steps = atomic_write_steps(dir, path, content);
    assert(steps.take(steps.len() as int) =~= steps);
    lemma_atomic_write_never_partial(files, dir, path, content, steps.len() as int);
}

/// The settings file for a token lies in the directory, under its file
/// name.
pub proof fn lemma_token_path_is_in_dir(dir: Seq<char>, token: Seq<char>)
    ensures
        token_path(dir, token) == if dir.len() == 0 || dir.last() == '/' {
            dir + file_name_for(token)
        } else {
            dir + seq!['/'] + file_name_for(token)
        },
{
    reveal_strlit("config-");
    assert(file_name_for(token)[0] == 'c');
}

/// The settings file of a provider lies in the cache directory, under its
/// file name.
pub proof fn lemma_cache_path_is_in_dir(dir: Seq<char>, name: Seq<char>)
    ensures
        cache_path(dir, name) == if dir.len() == 0 || dir.last() == '/' {
            dir + file_name_for(encoded_name(name))
        } else {
            dir + seq!['/'] + file_name_for(encoded_name(name))
        },
{
    lemma_token_path_is_in_dir(dir, encoded_name(name));
}

/// Two tokens have different settings files.
pub proof fn lemma_tokens_have_files_of_their_own(dir: Seq<char>, s: Seq<char>, t: Seq<char>)
    requires
        token_path(dir, s) == token_path(dir, t),
    ensures
        s == t,
{
    let (f, g) = (file_name_for(s), file_name_for(t));
    lemma_token_path_is_in_dir(dir, s);
    lemma_token_path_is_in_dir(dir, t);
    let before = token_path(dir, s).len() - f.len();
    assert(before == token_path(dir, t).len() - g.len());
    assert(f =~= token_path(dir, s).subrange(before, token_path(dir, s).len() as int));
    assert(g =~= token_path(dir, t).subrange(before, token_path(dir, t).len() as int));
    let lead = "config-"@.len() as int;
    assert(s =~= f.subrange(lead, lead + s.len()));
    assert(t =~= g.subrange(lead, lead + t.len()));
}

/// No settings file is the temporary file of a write.
pub proof fn lemma_settings_file_is_no_temp(dir: Seq<char>, token: Seq<char>, target: Seq<char>)
    ensures
        token_path(dir, token) != temp_path(target),
{
    reveal_strlit(".tmp");
    reveal_strlit(".json");
    lemma_token_path_is_in_dir(dir, token);
    let path = token_path(dir, token);
    let file = file_name_for(token);
    assert(file.last() == ".json"@[4]);
    assert(path.last() == file.last());
    assert(temp_path(target).last() == ".tmp"@[3]);
}

/// Steps performed one list after another have the effect of the second
/// list on what the first has left.
pub proof fn lemma_after_appended(files: Map<Seq<char>, Seq<u8>>, first: Seq<Step>, second: Seq<Step>)
    ensures
        after_steps(files, first + second) == after_steps(after_steps(files, first), second),
    decreases second.len(),
{
    if second.len() == 0 {
        assert(first + second =~= first);
    } else {
        lemma_after_appended(files, first, second.drop_last());
        assert((first + second).drop_last() =~= first + second.drop_last());
        assert((first + second).last() == second.last());
    }
}

/// What the first `done` steps of a replacement leave: the files as they
/// were; then with the temporary file written; at the end with the new
/// content at the target and no temporary file.
pub proof fn lemma_replace_reaches(
    files: Map<Seq<char>, Seq<u8>>,
    target: Seq<char>,
    data: Seq<u8>,
    done: int,
)
    requires
        0 <= done <= 3,
    ensures
        after_steps(files, replace_steps(target, data).take(done)) == if done == 0 {
            files
        } else if done < 3 {
            files.insert(temp_path(target), data)
        } else {
            files.insert(temp_path(target), data).remove(temp_path(target)).insert(target, data)
        },
{
    let steps = replace_steps(target, data);
    let s0 = Seq::<Step>::empty();
    let s1 = s0.push(steps[0]);
    let s2 = s1.push(steps[1]);
    let s3 = s2.push(steps[2]);
    assert(steps.take(0) =~= s0);
    assert(steps.take(1) =~= s1);
    assert(steps.take(2) =~= s2);
    assert(steps.take(3) =~= s3);
    lemma_after_one_more(files, s0, steps[0]);
    lemma_after_one_more(files, s1, steps[1]);
    lemma_after_one_more(files, s2, steps[2]);
    assert(after_steps(files, s0) == files);
}

/// Two providers with different names have different settings files.
pub proof fn lemma_names_have_files_of_their_own(dir: Seq<char>, a: Seq<char>, b: Seq<char>)
    requires
        cache_path(dir, a) == cache_path(dir, b),
    ensures
        a == b,
{
    lemma_tokens_have_files_of_their_own(dir, encoded_name(a), encoded_name(b));
    crate::utils::encoding::lemma_encode_is_injective(a, b);
}

/// The settings file of a provider is listed under the provider's name.
pub proof fn lemma_settings_file_is_listed(name: Seq<char>, entry: DirEntry)
    requires
        entry.is_file,
        entry.file_name@ == file_name_for(encoded_name(name)),
    ensures
        managed_name(entry) == Some(name),
{
    let token = encoded_name(name);
    let file = file_name_for(token);
    let rest = file.skip("config-"@.len() as int);
    assert(file.subrange(0, "config-"@.len() as int) =~= "config-"@);
    assert(rest =~= token + ".json"@);
    assert(rest.subrange(rest.len() - ".json"@.len(), rest.len() as int) =~= ".json"@);
    assert(rest.take(rest.len() - ".json"@.len()) =~= token);
    crate::utils::encoding::lemma_decode_inverts_encode(name);
}

/// The temporary file of a write is never listed as a settings file.
pub proof fn lemma_temp_file_is_not_listed(target: Seq<char>, entry: DirEntry)
    requires
        entry.file_name@ == temp_path(target),
    ensures
        managed_name(entry) is None,
{
    reveal_strlit(".tmp");
    reveal_strlit(".json");
    reveal_strlit("config-");
    let file = temp_path(target);
    let rest = file.skip("config-"@.len() as int);
    if "config-"@.is_prefix_of(file) && ".json"@.is_suffix_of(rest) {
        let tail = rest.subrange(rest.len() - 5, rest.len() as int);
        assert(tail[4] == rest[rest.len() - 1]);
        assert(rest[rest.len() - 1] == file[file.len() - 1]);
        assert(file[file.len() - 1] == ".tmp"@[3]);
        assert(".json"@[4] == 'n');
    }
}

/// Removing the settings file of one provider leaves no file at its path and
/// leaves the settings file of every other provider as it was.
pub proof fn lemma_removal_spares_other_names(
    files: Map<Seq<char>, Seq<u8>>,
    dir: Seq<char>,
    stale: Seq<char>,
    kept: Seq<char>,
    present: bool,
)
    requires
        stale != kept,
        present == files.dom().contains(cache_path(dir, stale)),
    ensures
        ({
            let then = after_steps(files, removal_steps(dir, stale, present));
            &&& content_at(then, cache_path(dir, stale)) is None
            &&& same_at(then, files, cache_path(dir, kept))
        }),
{
    if cache_path(dir, stale) == cache_path(dir, kept) {
        lemma_names_have_files_of_their_own(dir, stale, kept);
    }
    if present {
        let step = Step::RemoveFile { path: cache_path(dir, stale) };
        lemma_after_one_more(files, Seq::empty(), step);
        assert(removal_steps(dir, stale, present) =~= Seq::<Step>::empty().push(step));
    }
}

proof fn lemma_names_of_settings_files(entries: Seq<DirEntry>, name: Seq<char>)
    ensures
        managed_names(entries).contains(name) <==> exists|i: int|
            0 <= i < entries.len() && managed_name(#[trigger] entries[i]) == Some(name),
    decreases entries.len(),
{
    let f = |entry: DirEntry| managed_name(entry);
    if entries.len() > 0 {
        let rest = entries.drop_last();
        let last = entries.last();
        lemma_names_of_settings_files(rest, name);
        let found = rest.filter_map(f);
        assert(managed_names(entries) == match f(last) {
            Some(n) => found + seq![n],
            None => found,
        });
        if managed_names(entries).contains(name) {
            let k = choose|k: int|
                0 <= k < managed_names(entries).len() && managed_names(entries)[k] == name;
            if k < found.len() {
                assert(found[k] == name);
                assert(found.contains(name));
                let i = choose|i: int|
                    0 <= i < rest.len() && managed_name(#[trigger] rest[i]) == Some(name);
                assert(entries[i] == rest[i]);
            } else {
                assert(managed_name(entries[entries.len() - 1]) == Some(name));
            }
        }
        if exists|i: int| 0 <= i < entries.len() && managed_name(#[trigger] entries[i]) == Some(name) {
            let i = choose|i: int|
                0 <= i < entries.len() && managed_name(#[trigger] entries[i]) == Some(name);
            if i < rest.len() {
                assert(rest[i] == entries[i]);
                assert(found.contains(name));
                let k = choose|k: int| 0 <= k < found.len() && found[k] == name;
                assert(managed_names(entries)[k] == name);
            } else {
                assert(managed_names(entries)[found.len() as int] == name);
            }
        }
    }
}

/// A name is reported by `cleanup_stale` exactly when it has a settings file
/// and is not among the valid names.
pub proof fn lemma_cleanup_removes_exactly_the_stale(
    entries: Seq<DirEntry>,
    valid: Seq<Seq<char>>,
    name: Seq<char>,
)
    ensures
        stale_names(entries, valid).contains(name) <==> (managed_names(entries).contains(name)
            && !valid.contains(name)),
{
    let pred = |entry: DirEntry| is_stale(entry, valid);
    let stale = stale_entries(entries, valid);
    let names = names_of_entries(stale);
    crate::utils::sorting::lemma_name_order_total();
    names.lemma_sort_by_ensures(crate::utils::sorting::name_order());
    broadcast use vstd::seq_lib::group_to_multiset_ensures;

    assert(stale_names(entries, valid).contains(name) <==> names.contains(name)) by {
        assert(stale_names(entries, valid).to_multiset().count(name) == names.to_multiset().count(
            name,
        ));
    }
    lemma_names_of_settings_files(entries, name);
    if names.contains(name) {
        let k = choose|k: int| 0 <= k < names.len() && names[k] == name;
        entries.lemma_filter_pred(pred, k);
        entries.lemma_filter_contains_rev(pred, stale[k]);
        let i = choose|i: int| 0 <= i < entries.len() && entries[i] == stale[k];
        assert(managed_name(entries[i]) == Some(name));
    }
    if managed_names(entries).contains(name) && !valid.contains(name) {
        let i = choose|i: int|
            0 <= i < entries.len() && managed_name(#[trigger] entries[i]) == Some(name);
        entries.lemma_filter_contains(pred, i);
        let k = choose|k: int| 0 <= k < stale.len() && stale[k] == entries[i];
        assert(names[k] == name);
    }
}

/// When the steps of a cleanup plan have been performed, no entry that is
/// left is stale: a second cleanup finds nothing to remove, and every
/// settings file that is listed belongs to a valid name.
pub proof fn lemma_cleanup_leaves_nothing_stale(
    entries: Seq<DirEntry>,
    valid: Seq<Seq<char>>,
    dir: Seq<char>,
    plan: Seq<(String, FsStep)>,
    order: Seq<usize>,
)
    requires
        is_cleanup_plan(plan, dir, stale_entries(entries, valid), order),
    ensures
        ({
            let left = entries_left(entries, dir, plan_steps(plan));
            &&& stale_entries(left, valid) == Seq::<DirEntry>::empty()
            &&& stale_names(left, valid) == Seq::<Seq<char>>::empty()
            &&& forall|name: Seq<char>| #[trigger]
                managed_names(left).contains(name) ==> valid.contains(name)
        }),
{
    let pred = |entry: DirEntry| is_stale(entry, valid);
    let steps = plan_steps(plan);
    let stays = |entry: DirEntry| !removes(steps, joined(dir, entry.file_name@));
    let stale = stale_entries(entries, valid);
    let left = entries_left(entries, dir, steps);
    assert forall|i: int| 0 <= i < left.len() implies !is_stale(#[trigger] left[i], valid) by {
        let entry = left[i];
        entries.lemma_filter_pred(stays, i);
        entries.lemma_filter_contains_rev(stays, entry);
        if is_stale(entry, valid) {
            let at = choose|at: int| 0 <= at < entries.len() && entries[at] == entry;
            entries.lemma_filter_contains(pred, at);
            let j = choose|j: int| 0 <= j < stale.len() && stale[j] == entry;
            assert(crate::utils::sorting::lists_position(order, j));
            let k = choose|k: int| 0 <= k < order.len() && #[trigger] order[k] == j;
            assert(steps[k] == plan[k].1@);
            assert(steps.contains(Step::RemoveFile { path: joined(dir, entry.file_name@) }));
        }
    }
    if left.filter(pred).len() > 0 {
        left.lemma_filter_pred(pred, 0);
        left.lemma_filter_contains_rev(pred, left.filter(pred)[0]);
    }
    assert(stale_entries(left, valid) =~= Seq::<DirEntry>::empty());
    assert(names_of_entries(Seq::<DirEntry>::empty()) =~= Seq::<Seq<char>>::empty());
    crate::utils::sorting::lemma_name_order_total();
    Seq::<Seq<char>>::empty().lemma_sort_by_ensures(crate::utils::sorting::name_order());
    broadcast use vstd::seq_lib::group_to_multiset_ensures;

    vstd::seq_lib::to_multiset_len(stale_names(left, valid));
    vstd::seq_lib::to_multiset_len(Seq::<Seq<char>>::empty());
    assert(stale_names(left, valid) =~= Seq::<Seq<char>>::empty());
    assert forall|name: Seq<char>| #[trigger] managed_names(left).contains(name) implies valid.contains(
        name,
    ) by {
        lemma_names_of_settings_files(left, name);
        let i = choose|i: int| 0 <= i < left.len() && managed_name(#[trigger] left[i]) == Some(name);
        assert(!is_stale(left[i], valid));
    }
}

impl CacheManager {
    /// The directory of materialised files.
    pub closed spec fn dir(&self) -> Seq<char> {
        self.cache_dir@
    }

    /// The cache in a given directory.
    pub fn in_dir(cache_dir: String) -> (cache: Self)
        ensures
            cache.dir() == cache_dir@,
    {
        CacheManager { cache_dir }
    }

    /// The cache of the given home directory.
    pub fn in_home(home: Option<&str>) -> (r: AppResult<Self>)
        ensures
            match r {
                Ok(cache) => home matches Some(h) && cache.dir() == cache_dir_in(h@),
                Err(e) => home is None && e is HomeDirUnavailable,
            },
    {
        match home {
            Some(h) => Ok(CacheManager { cache_dir: join_path(h, ".cc-switch/separated") }),
            None => Err(AppError::HomeDirUnavailable),
        }
    }

    /// The cache of the user's home directory.
    pub fn new() -> (r: AppResult<Self>)
        ensures
            match r {
                Ok(cache) => exists|home: Seq<char>| cache.dir() == cache_dir_in(home),
                Err(e) => e is HomeDirUnavailable || e is HomeDirNotText,
            },
    {
        let home = match home_text() {
            Ok(home) => home,
            Err(e) => {
                return Err(e);
            },
        };
        let r = Self::in_home(borrowed(&home));
        proof {
            if r is Ok {
                assert(r->Ok_0.dir() == cache_dir_in(home->0@));
            }
        }
        r
    }

    /// The directory of materialised files.
    pub fn cache_dir(&self) -> (dir: &str)
        ensures
            dir@ == self.dir(),
    {
        self.cache_dir.as_str()
    }

    /// The path of the settings file for a provider name.
    pub fn get_cache_path(&self, name: &str) -> (path: String)
        ensures
            path@ == cache_path(self.dir(), name@),
    {
        path_of_token(self.cache_dir.as_str(), encode_config_name(name).as_str())
    }

    /// The steps that put `data` at `target`, a file of this cache, without
    /// its ever being seen half written.
    pub fn write_atomic(&self, target: &str, data: &[u8]) -> (steps: Vec<FsStep>)
        ensures
            plan_of(steps@) == atomic_write_steps(self.dir(), target@, data@),
    {
        let mut steps: Vec<FsStep> = Vec::with_capacity(4);
        steps.push(FsStep::CreateDirAll { dir: self.cache_dir.clone() });
        push_replace_steps(&mut steps, target, data);
        assert(plan_of(steps@) =~= atomic_write_steps(self.dir(), target@, data@));
        steps
    }

    /// The plan that brings the file of a provider up to date, given the
    /// content to hold and what the file holds now, if it exists.
    pub fn ensure_cached_content(
        &self,
        name: &str,
        content: &[u8],
        existing: Option<&[u8]>,
    ) -> (plan: CachePlan)
        ensures
            plan.path@ == cache_path(self.dir(), name@),
            plan_of(plan.steps@) == cache_steps(
                self.dir(),
                name@,
                content@,
                match existing {
                    Some(held) => Some(held@),
                    None => None,
                },
            ),
    {
        let path = self.get_cache_path(name);
        let write = match existing {
            None => true,
            Some(held) => hash_content(held) != hash_content(content),
        };
        let steps = if write {
            self.write_atomic(path.as_str(), content)
        } else {
            Vec::new()
        };
        assert(!write ==> plan_of(steps@) =~= Seq::<Step>::empty());
        CachePlan { path, steps }
    }

    /// The plan that writes the file of a provider, whatever it holds now.
    pub fn force_write_content(&self, name: &str, content: &[u8]) -> (plan: CachePlan)
        ensures
            plan.path@ == cache_path(self.dir(), name@),
            plan_of(plan.steps@) == atomic_write_steps(
                self.dir(),
                cache_path(self.dir(), name@),
                content@,
            ),
    {
        let path = self.get_cache_path(name);
        let steps = self.write_atomic(path.as_str(), content);
        CachePlan { path, steps }
    }

    /// The plan that makes sure the settings file of a provider exists and is
    /// up to date, given what the file holds now, if it exists.
    ///
    /// The file is written only where it is missing or its digest differs
    /// from that of the provider's settings; the path is returned either way.
    /// Fails exactly where the settings cannot be written as JSON.
    pub fn ensure_cached(&self, provider: &Provider, existing: Option<&[u8]>) -> (r: AppResult<
        CachePlan,
    >)
        ensures
            r is Ok <==> json_writable(provider.settings_config),
            match r {
                Ok(plan) => {
                    &&& plan.path@ == cache_path(self.dir(), provider.name@)
                    &&& plan_of(plan.steps@) == cache_steps(
                        self.dir(),
                        provider.name@,
                        pretty_json(provider.settings_config),
                        match existing {
                            Some(held) => Some(held@),
                            None => None,
                        },
                    )
                },
                Err(e) => e is Serialization,
            },
    {
        match to_pretty_bytes(&provider.settings_config) {
            Ok(content) => Ok(
                self.ensure_cached_content(provider.name.as_str(), content.as_slice(), existing),
            ),
            Err(_) => Err(AppError::Serialization),
        }
    }

    /// The plan that writes the settings file of a provider, whatever it
    /// holds now. Fails exactly where the settings cannot be written as JSON.
    pub fn force_write(&self, provider: &Provider) -> (r: AppResult<CachePlan>)
        ensures
            r is Ok <==> json_writable(provider.settings_config),
            match r {
                Ok(plan) => {
                    &&& plan.path@ == cache_path(self.dir(), provider.name@)
                    &&& plan_of(plan.steps@) == atomic_write_steps(
                        self.dir(),
                        cache_path(self.dir(), provider.name@),
                        pretty_json(provider.settings_config),
                    )
                },
                Err(e) => e is Serialization,
            },
    {
        match to_pretty_bytes(&provider.settings_config) {
            Ok(content) => Ok(self.force_write_content(provider.name.as_str(), content.as_slice())),
            Err(_) => Err(AppError::Serialization),
        }
    }

    /// The steps that remove the settings file of a provider, given whether
    /// the file exists.
    pub fn remove_cache(&self, name: &str, present: bool) -> (steps: Vec<FsStep>)
        ensures
            plan_of(steps@) == removal_steps(self.dir(), name@, present),
    {
        let mut steps: Vec<FsStep> = Vec::new();
        if present {
            steps.push(FsStep::RemoveFile { path: self.get_cache_path(name) });
        }
        assert(plan_of(steps@) =~= removal_steps(self.dir(), name@, present));
        steps
    }

    /// The provider names that have a settings file, in ascending order,
    /// given the entries of the cache directory (none where it is missing).
    /// Entries that are no settings files are passed over.
    pub fn list_cached_names(&self, entries: &Vec<DirEntry>) -> (names: Vec<String>)
        ensures
            views(names@) == sorted_names(managed_names(entries@)),
    {
        list_managed_names(entries)
    }

    /// The removals that bring the cache directory in line with the valid
    /// names: one pair for each entry that is a settings file of a provider
    /// not among them, by ascending name and, for one name, in the order of
    /// the entries. Each pair holds the provider name and the removal of that
    /// entry's own file.
    pub fn cleanup_plan(&self, entries: &Vec<DirEntry>, valid_names: &[String]) -> (plan: Vec<
        (String, FsStep),
    >)
        ensures
            exists|order: Seq<usize>|
                is_cleanup_plan(plan@, self.dir(), stale_entries(entries@, views(valid_names@)), order),
            plan_names(plan@) == stale_names(entries@, views(valid_names@)),
    {
        let n = entries.len();
        let ghost valid = views(valid_names@);
        let ghost pred = |entry: DirEntry| is_stale(entry, valid);
        let mut names: Vec<String> = Vec::new();
        let mut files: Vec<String> = Vec::new();
        let ghost mut stale: Seq<DirEntry> = Seq::empty();
        let mut i: usize = 0;
        proof {
            reveal(Seq::filter);
            assert(entries@.take(0) =~= Seq::<DirEntry>::empty());
        }
        while i < n
            invariant
                i <= n,
                n == entries.len(),
                valid == views(valid_names@),
                pred == (|entry: DirEntry| is_stale(entry, valid)),
                stale == entries@.take(i as int).filter(pred),
                names.len() == stale.len(),
                files.len() == stale.len(),
                forall|j: int|
                    0 <= j < stale.len() ==> {
                        &&& managed_name(#[trigger] stale[j]) == Some(names@[j]@)
                        &&& files@[j]@ == stale[j].file_name@
                    },
            decreases n - i,
        {
            proof {
                reveal(Seq::filter);
                let upto = entries@.take(i + 1);
                assert(upto.drop_last() =~= entries@.take(i as int));
                assert(upto.last() == entries@[i as int]);
            }
            if entries[i].is_file {
                match name_of_file(entries[i].file_name.as_str()) {
                    Some(name) => {
                        if !contains_name(valid_names, &name) {
                            names.push(name);
                            files.push(entries[i].file_name.clone());
                            proof {
                                stale = stale.push(entries@[i as int]);
                            }
                        }
                    },
                    None => {},
                }
            }
            i += 1;
        }
        proof {
            assert(entries@.take(n as int) =~= entries@);
            assert(stale == stale_entries(entries@, valid));
            assert(views(names@) =~= names_of_entries(stale));
        }
        let order = stable_order(&names);
        let m = names.len();
        let mut plan: Vec<(String, FsStep)> = Vec::with_capacity(m);
        let mut k: usize = 0;
        while k < m
            invariant
                k <= m,
                m == names.len(),
                m == files.len(),
                m == stale.len(),
                stale == stale_entries(entries@, views(valid_names@)),
                views(names@) == names_of_entries(stale),
                is_stable_order(names_of_entries(stale), order@),
                arranged(names_of_entries(stale), order@) == sorted_names(names_of_entries(stale)),
                forall|j: int| 0 <= j < m ==> (#[trigger] files@[j])@ == stale[j].file_name@,
                plan.len() == k,
                forall|j: int|
                    0 <= j < k ==> {
                        &&& (#[trigger] plan@[j]).0@ == managed_name(stale[order@[j] as int])->0
                        &&& plan@[j].1@ == (Step::RemoveFile {
                            path: joined(self.dir(), stale[order@[j] as int].file_name@),
                        })
                    },
            decreases m - k,
        {
            let at = order[k];
            assert(at < m);
            assert(views(names@)[at as int] == names@[at as int]@);
            let path = join_path(self.cache_dir.as_str(), files[at].as_str());
            plan.push((names[at].clone(), FsStep::RemoveFile { path }));
            k += 1;
        }
        proof {
            assert(is_cleanup_plan(plan@, self.dir(), stale, order@));
            assert(plan_names(plan@) =~= arranged(names_of_entries(stale), order@));
        }
        plan
    }

    /// The provider names whose settings files are to be removed: those of
    /// the entries that are settings files of providers not among the valid
    /// names, in ascending order. They are the names of
    /// [`Self::cleanup_plan`], which also says which file to remove for each.
    pub fn cleanup_stale(&self, entries: &Vec<DirEntry>, valid_names: &[String]) -> (removed: Vec<
        String,
    >)
        ensures
            views(removed@) == stale_names(entries@, views(valid_names@)),
    {
        let plan = self.cleanup_plan(entries, valid_names);
        let n = plan.len();
        let mut removed: Vec<String> = Vec::with_capacity(n);
        let mut i: usize = 0;
        while i < n
            invariant
                i <= n,
                n == plan.len(),
                removed.len() == i,
                forall|j: int| 0 <= j < i ==> (#[trigger] removed@[j])@ == plan@[j].0@,
            decreases n - i,
        {
            removed.push(plan[i].0.clone());
            i += 1;
        }
        assert(views(removed@) =~= plan_names(plan@));
        removed
    }

    /// What a cleanup comes to when every removal was tried, whether or not
    /// an earlier one failed: the names whose removal did not fail, in order,
    /// and the position of the first removal that failed, if one did.
    pub fn cleanup_outcome(outcomes: &Vec<(String, bool)>) -> (r: (Vec<String>, Option<usize>))
        ensures
            views(r.0@) == removed_names(outcomes@),
            match failures(outcomes@).index_of_first(true) {
                Some(at) => r.1 == Some(at as usize),
                None => r.1 is None,
            },
    {
        let n = outcomes.len();
        let ghost ok = |o: (String, bool)| !o.1;
        let ghost failed = failures(outcomes@);
        let mut removed: Vec<String> = Vec::new();
        let mut first: Option<usize> = None;
        let mut i: usize = 0;
        proof {
            reveal(Seq::filter);
            assert(outcomes@.take(0) =~= Seq::<(String, bool)>::empty());
            failed.index_of_first_ensures(true);
        }
        while i < n
            invariant
                i <= n,
                n == outcomes.len(),
                ok == (|o: (String, bool)| !o.1),
                failed == failures(outcomes@),
                views(removed@) == removed_names(outcomes@.take(i as int)),
                match first {
                    Some(at) => at < i && failed[at as int] && forall|j: int|
                        0 <= j < at ==> !failed[j],
                    None => forall|j: int| 0 <= j < i ==> !failed[j],
                },
            decreases n - i,
        {
            proof {
                reveal(Seq::filter);
                let upto = outcomes@.take(i + 1);
                assert(upto.drop_last() =~= outcomes@.take(i as int));
                assert(upto.last() == outcomes@[i as int]);
                assert(failed[i as int] == outcomes@[i as int].1);
            }
            let ghost before = views(removed@);
            if outcomes[i].1 {
                if first.is_none() {
                    first = Some(i);
                }
            } else {
                removed.push(outcomes[i].0.clone());
                assert(views(removed@) =~= before.push(outcomes@[i as int].0@));
                assert(removed_names(outcomes@.take(i + 1)) =~= removed_names(
                    outcomes@.take(i as int),
                ).push(outcomes@[i as int].0@));
            }
            i += 1;
        }
        proof {
            assert(outcomes@.take(n as int) =~= outcomes@);
            failed.index_of_first_ensures(true);
            match first {
                Some(at) => {
                    assert(failed.contains(true));
                },
                None => {
                    assert(!failed.contains(true));
                },
            }
        }
        (removed, first)
    }
}

} // verus!
