use ccstart::config::cache::{list_managed_names, name_of_file, CacheManager, CachePlan};
use ccstart::config::manager::ConfigManager;
use ccstart::db::Provider;
use ccstart::error::AppError;
use ccstart::utils::fs::{ConfigPaths, DirEntry, FsStep};
use std::collections::BTreeMap;

type Files = BTreeMap<String, Vec<u8>>;

fn perform(files: &mut Files, steps: &[FsStep]) {
    for step in steps {
        match step {
            FsStep::CreateDirAll { .. } | FsStep::SyncFile { .. } => {}
            FsStep::WriteFile { path, data } => {
                files.insert(path.clone(), data.clone());
            }
            FsStep::Rename { from, to } => {
                if let Some(data) = files.remove(from) {
                    files.insert(to.clone(), data);
                }
            }
            FsStep::RemoveFile { path } => {
                files.remove(path);
            }
        }
    }
}

fn provider(name: &str, settings: &str) -> Provider {
    Provider {
        id: format!("id-{name}"),
        name: name.to_string(),
        settings_config: serde_json::from_str(settings).unwrap(),
    }
}

fn cache() -> CacheManager {
    CacheManager::in_dir("/home/u/.cc-switch/separated".to_string())
}

fn ensure(cache: &CacheManager, files: &mut Files, p: &Provider) -> CachePlan {
    let path = cache.get_cache_path(&p.name);
    let existing = files.get(&path).cloned();
    let plan = cache.ensure_cached(p, existing.as_deref()).unwrap();
    perform(files, &plan.steps);
    plan
}

fn listing(files: &Files, dir: &str) -> Vec<DirEntry> {
    files
        .keys()
        .filter_map(|p| p.strip_prefix(&format!("{dir}/")))
        .map(|n| DirEntry { file_name: n.to_string(), is_file: true })
        .collect()
}

fn entry(name: &str) -> DirEntry {
    DirEntry { file_name: name.to_string(), is_file: true }
}

#[test]
fn cache_paths_are_built_from_the_token() {
    let c = cache();
    assert_eq!(c.cache_dir(), "/home/u/.cc-switch/separated");
    assert_eq!(c.get_cache_path("packycode"), "/home/u/.cc-switch/separated/config-packycode.json");
    assert_eq!(c.get_cache_path("Zhipu GLM"), "/home/u/.cc-switch/separated/config-Zhipu GLM.json");
    assert_eq!(c.get_cache_path("a/b"), "/home/u/.cc-switch/separated/config-a%2Fb.json");
    assert_eq!(c.get_cache_path(""), "/home/u/.cc-switch/separated/config-.json");
}

#[test]
fn the_cache_lies_in_the_home_directory() {
    let c = CacheManager::in_home(Some("/home/alice")).unwrap();
    assert_eq!(c.cache_dir(), "/home/alice/.cc-switch/separated");
    assert!(matches!(CacheManager::in_home(None), Err(AppError::HomeDirUnavailable)));
}

#[test]
fn the_cache_of_the_user_follows_the_platform() {
    let home = dirs::home_dir().and_then(|p| p.into_os_string().into_string().ok());
    match (CacheManager::new(), home) {
        (Ok(c), Some(h)) => {
            assert_eq!(c.cache_dir(), CacheManager::in_home(Some(&h)).unwrap().cache_dir())
        }
        (Err(AppError::HomeDirUnavailable), None) => {}
        _ => panic!("the cache and the platform disagree on the home directory"),
    }
}

#[test]
fn a_missing_file_is_written_through_a_temporary_file() {
    let c = cache();
    let p = provider("one", "{\"env\":{\"KEY\":\"v\"},\"n\":[1,2]}");
    let plan = c.ensure_cached(&p, None).unwrap();
    let target = "/home/u/.cc-switch/separated/config-one.json";
    assert_eq!(plan.path, target);
    let text = "{\n  \"env\": {\n    \"KEY\": \"v\"\n  },\n  \"n\": [\n    1,\n    2\n  ]\n}";
    assert_eq!(plan.steps.len(), 4);
    assert!(matches!(&plan.steps[0], FsStep::CreateDirAll { dir } if dir == c.cache_dir()));
    assert!(matches!(&plan.steps[1], FsStep::WriteFile { path, data }
        if path == &format!("{target}.tmp") && data == text.as_bytes()));
    assert!(matches!(&plan.steps[2], FsStep::SyncFile { path } if path == &format!("{target}.tmp")));
    assert!(matches!(&plan.steps[3], FsStep::Rename { from, to }
        if from == &format!("{target}.tmp") && to == target));
}

#[test]
fn settings_keep_the_order_of_their_members() {
    let c = cache();
    let plan = c.force_write(&provider("p", "{\"z\":1,\"a\":2,\"m\":3}")).unwrap();
    let FsStep::WriteFile { data, .. } = &plan.steps[1] else { panic!("no write") };
    assert_eq!(String::from_utf8_lossy(data), "{\n  \"z\": 1,\n  \"a\": 2,\n  \"m\": 3\n}");
}

#[test]
fn unchanged_content_is_written_once() {
    let c = cache();
    let mut files = Files::new();
    let p = provider("one", "{\"a\":1}");
    let first = ensure(&c, &mut files, &p);
    assert_eq!(first.steps.len(), 4);
    let held = files.clone();
    let second = ensure(&c, &mut files, &p);
    assert!(second.steps.is_empty());
    assert_eq!(second.path, first.path);
    assert_eq!(files, held);
    assert_eq!(files.len(), 1);
    assert_eq!(files[&first.path], b"{\n  \"a\": 1\n}");
}

#[test]
fn changed_content_is_written_again() {
    let c = cache();
    let mut files = Files::new();
    let plan = ensure(&c, &mut files, &provider("one", "{\"a\":1}"));
    let before = files[&plan.path].clone();
    let again = ensure(&c, &mut files, &provider("one", "{\"a\":2}"));
    assert_eq!(again.steps.len(), 4);
    assert_ne!(files[&plan.path], before);
    assert_eq!(files[&plan.path], b"{\n  \"a\": 2\n}");
    assert!(ensure(&c, &mut files, &provider("one", "{\"a\":2}")).steps.is_empty());
}

#[test]
fn a_file_with_other_bytes_is_replaced() {
    let c = cache();
    let content = b"{\n  \"a\": 1\n}";
    let same = c.ensure_cached_content("one", content, Some(content));
    assert!(same.steps.is_empty());
    let compact = c.ensure_cached_content("one", content, Some(b"{\"a\":1}"));
    assert_eq!(compact.steps.len(), 4);
    let empty = c.ensure_cached_content("one", content, Some(b""));
    assert_eq!(empty.steps.len(), 4);
    let missing = c.ensure_cached_content("one", content, None);
    assert_eq!(missing.steps.len(), 4);
}

#[test]
fn a_forced_write_does_not_look_at_the_file() {
    let c = cache();
    let mut files = Files::new();
    let p = provider("one", "[1]");
    ensure(&c, &mut files, &p);
    let plan = c.force_write(&p).unwrap();
    assert_eq!(plan.steps.len(), 4);
    assert_eq!(plan.path, c.get_cache_path("one"));
    let forced = c.force_write_content("one", b"x");
    assert!(matches!(&forced.steps[1], FsStep::WriteFile { data, .. } if data == b"x"));
}

#[test]
fn a_write_that_stops_early_leaves_the_file_whole() {
    let c = cache();
    let old = provider("one", "{\"a\":1}");
    let new = provider("one", "{\"a\":2,\"b\":[1,2,3]}");
    let mut start = Files::new();
    let path = ensure(&c, &mut start, &old).path;
    let steps = c.force_write(&new).unwrap().steps;
    for done in 0..=steps.len() {
        let mut files = start.clone();
        perform(&mut files, &steps[..done]);
        let held = &files[&path];
        if done < steps.len() {
            assert_eq!(held, &start[&path]);
        } else {
            assert_eq!(held, b"{\n  \"a\": 2,\n  \"b\": [\n    1,\n    2,\n    3\n  ]\n}");
        }
    }
    for done in 0..steps.len() {
        let mut files = Files::new();
        perform(&mut files, &steps[..done]);
        assert!(!files.contains_key(&path));
    }
}

#[test]
fn a_left_over_temporary_file_is_written_over() {
    let c = cache();
    let p = provider("one", "{\"a\":1}");
    let steps = c.force_write(&p).unwrap().steps;
    let mut files = Files::new();
    perform(&mut files, &steps[..2]);
    assert_eq!(files.len(), 1);
    assert!(c.list_cached_names(&listing(&files, c.cache_dir())).is_empty());
    let plan = ensure(&c, &mut files, &p);
    assert_eq!(files.keys().collect::<Vec<_>>(), [&plan.path]);
}

#[test]
fn removal_depends_on_the_file_being_there() {
    let c = cache();
    assert!(c.remove_cache("one", false).is_empty());
    let steps = c.remove_cache("a/b", true);
    assert_eq!(steps.len(), 1);
    assert!(matches!(&steps[0], FsStep::RemoveFile { path } if path == &c.get_cache_path("a/b")));
}

#[test]
fn written_files_are_listed_by_name() {
    let c = cache();
    let mut files = Files::new();
    for name in ["pear", "Zhipu GLM", "a/b", "配置", "50%", "apple"] {
        ensure(&c, &mut files, &provider(name, "{}"));
    }
    let names = c.list_cached_names(&listing(&files, c.cache_dir()));
    assert_eq!(names, ["50%", "Zhipu GLM", "a/b", "apple", "pear", "配置"]);
}

#[test]
fn entries_that_are_no_settings_files_are_passed_over() {
    let entries = vec![
        entry("config-b.json"),
        entry("config-a.json.tmp"),
        entry("config-%zz.json"),
        entry("config-%FF.json"),
        entry("config-100%.json"),
        entry("Config-x.json"),
        entry("config-x.JSON"),
        entry("config.json"),
        entry("config-json"),
        entry("readme.txt"),
        DirEntry { file_name: "config-dir.json".to_string(), is_file: false },
        entry("config-.json"),
        entry("config-a%20b.json"),
        entry("config-a.json"),
    ];
    assert_eq!(list_managed_names(&entries), ["", "a", "a b", "b"]);
    assert_eq!(ConfigManager::list_configs(&entries), ["", "a", "a b", "b"]);
    assert!(list_managed_names(&Vec::new()).is_empty());
}

#[test]
fn file_names_give_their_names() {
    assert_eq!(name_of_file("config-a%2Fb.json"), Some("a/b".to_string()));
    assert_eq!(name_of_file("config-.json"), Some(String::new()));
    assert_eq!(name_of_file("config-x.json.json"), Some("x.json".to_string()));
    assert_eq!(name_of_file("config-.jso"), None);
    assert_eq!(name_of_file("config-%.json"), None);
    assert_eq!(name_of_file("xconfig-a.json"), None);
    assert_eq!(name_of_file(""), None);
}

#[test]
fn cleanup_removes_what_is_not_valid() {
    let c = cache();
    let mut files = Files::new();
    for name in ["A", "B", "C"] {
        ensure(&c, &mut files, &provider(name, "{}"));
    }
    let valid = vec!["A".to_string(), "C".to_string()];
    let removed = c.cleanup_stale(&listing(&files, c.cache_dir()), &valid);
    assert_eq!(removed, ["B"]);
    for name in &removed {
        let present = files.contains_key(&c.get_cache_path(name));
        perform(&mut files, &c.remove_cache(name, present));
    }
    assert_eq!(c.list_cached_names(&listing(&files, c.cache_dir())), ["A", "C"]);
    assert!(c.cleanup_stale(&listing(&files, c.cache_dir()), &valid).is_empty());
}

#[test]
fn cleanup_keeps_everything_that_is_valid() {
    let c = cache();
    let entries = vec![entry("config-b.json"), entry("config-a.json"), entry("other")];
    let all = vec!["a".to_string(), "b".to_string(), "c".to_string()];
    assert!(c.cleanup_stale(&entries, &all).is_empty());
    assert_eq!(c.cleanup_stale(&entries, &[]), ["a", "b"]);
    assert!(c.cleanup_stale(&Vec::new(), &all).is_empty());
}

#[test]
fn separated_files_are_written_in_order() {
    let paths = ConfigPaths::under("/base".to_string());
    let items = vec![
        ("a".to_string(), "a".to_string(), "a".to_string(), serde_json::from_str("1").unwrap()),
        ("a".to_string(), "a-2".to_string(), "a-2".to_string(), serde_json::from_str("[]").unwrap()),
    ];
    let plan = ConfigManager::write_separated_configs(&paths, &items, false).unwrap();
    assert_eq!(plan.written, ["/base/separated/config-a.json", "/base/separated/config-a-2.json"]);
    assert_eq!(plan.steps.len(), 7);
    assert!(matches!(&plan.steps[0], FsStep::CreateDirAll { dir } if dir == "/base/separated"));
    let mut files = Files::new();
    perform(&mut files, &plan.steps);
    assert_eq!(files.len(), 2);
    assert_eq!(files["/base/separated/config-a.json"], b"1");
    assert_eq!(files["/base/separated/config-a-2.json"], b"[]");
    let there = ConfigManager::write_separated_configs(&paths, &items, true).unwrap();
    assert_eq!(there.steps.len(), 6);
    assert!(matches!(&there.steps[0], FsStep::WriteFile { path, .. }
        if path == "/base/separated/config-a.json.tmp"));
    let none = ConfigManager::write_separated_configs(&paths, &[], true).unwrap();
    assert!(none.steps.is_empty() && none.written.is_empty());
}

#[test]
fn a_settings_file_is_found_when_it_is_there() {
    let paths = ConfigPaths::under("/base".to_string());
    assert_eq!(
        ConfigManager::find_config_file(&paths, "a/b", true).unwrap(),
        "/base/separated/config-a%2Fb.json"
    );
    match ConfigManager::find_config_file(&paths, "gone", false) {
        Err(AppError::NotFound { name, path }) => {
            assert_eq!(name, "gone");
            assert_eq!(path, "/base/separated/config-gone.json");
        }
        _ => panic!("a missing file was found"),
    }
}

#[test]
fn different_names_have_different_files() {
    let c = cache();
    let names = ["a", "A", "a ", "a/b", "a%2Fb", "a\\b", "%", "%25", "a-2", "配置", "配"];
    let mut paths: Vec<String> = names.iter().map(|n| c.get_cache_path(n)).collect();
    for path in &paths {
        let file = path.strip_prefix("/home/u/.cc-switch/separated/").unwrap();
        assert!(!file.contains('/') && !file.contains('\\'));
    }
    paths.sort();
    paths.dedup();
    assert_eq!(paths.len(), names.len());
}

fn remove_listed(entries: &mut Vec<DirEntry>, dir: &str, steps: &[FsStep]) {
    for step in steps {
        if let FsStep::RemoveFile { path } = step {
            entries.retain(|e| &format!("{dir}/{}", e.file_name) != path);
        }
    }
}

#[test]
fn cleanup_removes_the_file_that_was_listed() {
    let c = cache();
    let mut entries = vec![entry("config-%41.json")];
    assert_eq!(c.list_cached_names(&entries), ["A"]);
    let plan = c.cleanup_plan(&entries, &[]);
    assert_eq!(plan.len(), 1);
    assert_eq!(plan[0].0, "A");
    assert!(matches!(&plan[0].1, FsStep::RemoveFile { path }
        if path == "/home/u/.cc-switch/separated/config-%41.json"));
    assert_ne!(c.get_cache_path("A"), "/home/u/.cc-switch/separated/config-%41.json");
    let steps: Vec<FsStep> = plan.into_iter().map(|(_, step)| step).collect();
    remove_listed(&mut entries, c.cache_dir(), &steps);
    assert!(entries.is_empty());
    assert!(c.cleanup_stale(&entries, &[]).is_empty());
    assert!(c.cleanup_plan(&entries, &[]).is_empty());
}

#[test]
fn a_second_cleanup_finds_nothing() {
    let c = cache();
    let mut entries = vec![
        entry("config-b.json"),
        entry("config-%61.json"),
        entry("config-a.json"),
        entry("config-c%2Fd.json"),
        entry("config-keep.json"),
        entry("config-%6Beep.json"),
        entry("notes.txt"),
        entry("config-broken%.json"),
        DirEntry { file_name: "config-dir.json".to_string(), is_file: false },
    ];
    let valid = vec!["keep".to_string(), "dir".to_string()];
    assert_eq!(c.cleanup_stale(&entries, &valid), ["a", "a", "b", "c/d"]);
    let plan = c.cleanup_plan(&entries, &valid);
    let removals: Vec<(String, String)> = plan
        .iter()
        .map(|(name, step)| match step {
            FsStep::RemoveFile { path } => (name.clone(), path.clone()),
            _ => panic!("a cleanup only removes"),
        })
        .collect();
    let dir = "/home/u/.cc-switch/separated";
    assert_eq!(
        removals,
        [
            ("a".to_string(), format!("{dir}/config-%61.json")),
            ("a".to_string(), format!("{dir}/config-a.json")),
            ("b".to_string(), format!("{dir}/config-b.json")),
            ("c/d".to_string(), format!("{dir}/config-c%2Fd.json")),
        ]
    );
    let steps: Vec<FsStep> = plan.into_iter().map(|(_, step)| step).collect();
    remove_listed(&mut entries, dir, &steps);
    assert_eq!(entries.len(), 5);
    assert!(c.cleanup_stale(&entries, &valid).is_empty());
    assert!(c.cleanup_plan(&entries, &valid).is_empty());
    for name in c.list_cached_names(&entries) {
        assert!(valid.contains(&name));
    }
}

#[test]
fn a_failed_removal_does_not_stop_the_others() {
    let outcomes = vec![
        ("a".to_string(), false),
        ("b".to_string(), true),
        ("c".to_string(), false),
        ("d".to_string(), true),
    ];
    assert_eq!(
        CacheManager::cleanup_outcome(&outcomes),
        (vec!["a".to_string(), "c".to_string()], Some(1))
    );
    let fine = vec![("a".to_string(), false), ("b".to_string(), false)];
    assert_eq!(
        CacheManager::cleanup_outcome(&fine),
        (vec!["a".to_string(), "b".to_string()], None)
    );
    assert_eq!(CacheManager::cleanup_outcome(&Vec::new()), (Vec::new(), None));
    let bad = vec![("a".to_string(), true)];
    assert_eq!(CacheManager::cleanup_outcome(&bad), (Vec::new(), Some(0)));
}

#[test]
fn separated_files_are_never_half_written() {
    let paths = ConfigPaths::under("/base".to_string());
    let items = vec![
        ("a".to_string(), "a".to_string(), "a".to_string(), serde_json::from_str("{\"n\":1}").unwrap()),
        ("b".to_string(), "b".to_string(), "b".to_string(), serde_json::from_str("[1,2]").unwrap()),
        ("c".to_string(), "c".to_string(), "c".to_string(), serde_json::from_str("\"x\"").unwrap()),
    ];
    let plan = ConfigManager::write_separated_configs(&paths, &items, false).unwrap();
    let new: [&[u8]; 3] = [b"{\n  \"n\": 1\n}", b"[\n  1,\n  2\n]", b"\"x\""];
    let mut start = Files::new();
    start.insert(plan.written[0].clone(), b"old a".to_vec());
    start.insert("/base/separated/other.txt".to_string(), b"other".to_vec());
    for done in 0..=plan.steps.len() {
        let mut files = start.clone();
        perform(&mut files, &plan.steps[..done]);
        for (i, path) in plan.written.iter().enumerate() {
            let held = files.get(path).map(|d| d.as_slice());
            let prior = start.get(path).map(|d| d.as_slice());
            assert!(held == prior || held == Some(new[i]), "step {done}, file {i}");
            if done == plan.steps.len() {
                assert_eq!(held, Some(new[i]));
            }
        }
        assert_eq!(files["/base/separated/other.txt"], b"other");
    }
}
