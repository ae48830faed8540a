use ccstart::commands::completions::config_name_completer;
use ccstart::commands::list::{list_configs, needs_quoting};
use ccstart::commands::run::{arguments, not_found, NOT_FOUND_EXIT};
use ccstart::config::cache::CacheManager;
use ccstart::db::provider::provider_of_row;
use ccstart::db::{Database, ProviderDao, ProviderRow};
use ccstart::error::{ConfigError, IoError, JsonError};
use ccstart::utils::fs::FsStep;

fn row(id: &str, name: &str, settings: &str) -> ProviderRow {
    ProviderRow { id: id.to_string(), name: name.to_string(), settings_config: settings.to_string() }
}

fn strings(names: &[&str]) -> Vec<String> {
    names.iter().map(|n| n.to_string()).collect()
}

fn database() -> Database {
    Database::open("/x/cc-switch.db".to_string(), true).unwrap()
}

#[test]
fn a_row_becomes_a_provider() {
    let p = provider_of_row(&row("id-1", "one", "{\"env\": {\"A\": \"b\"}}"));
    assert_eq!(p.id, "id-1");
    assert_eq!(p.name, "one");
    assert_eq!(p.settings_config.to_string(), "{\"env\":{\"A\":\"b\"}}");
}

#[test]
fn settings_that_are_not_json_become_null() {
    for text in ["", "{", "not json", "{\"a\":}", "[1,", "{} trailing"] {
        let p = provider_of_row(&row("id", "bad", text));
        assert!(p.settings_config.is_null(), "{text:?}");
        assert_eq!(p.name, "bad");
    }
    let cache = CacheManager::in_dir("/d".to_string());
    let plan = cache.force_write(&provider_of_row(&row("id", "bad", "{"))).unwrap();
    assert!(matches!(&plan.steps[1], FsStep::WriteFile { data, .. } if data == b"null"));
}

#[test]
fn one_bad_row_does_not_hide_the_others() {
    let db = database();
    let rows = vec![row("1", "a", "{\"n\":1}"), row("2", "b", "oops"), row("3", "c", "[3]")];
    let all = db.providers().list_all(&rows);
    let seen: Vec<(&str, &str, String)> =
        all.iter().map(|p| (p.id.as_str(), p.name.as_str(), p.settings_config.to_string())).collect();
    assert_eq!(
        seen,
        [
            ("1", "a", "{\"n\":1}".to_string()),
            ("2", "b", "null".to_string()),
            ("3", "c", "[3]".to_string())
        ]
    );
    assert!(db.providers().list_all(&Vec::new()).is_empty());
}

#[test]
fn a_name_without_a_row_is_not_found() {
    let db = database();
    let dao = ProviderDao::new(&db);
    assert!(dao.get_by_name("one", &Vec::new()).is_none());
    let rows = vec![row("0", "zero", "0"), row("1", "one", "{}"), row("2", "one", "[]")];
    assert!(dao.get_by_name("two", &rows).is_none());
    assert!(dao.get_by_name("On", &rows).is_none());
    assert!(dao.get_by_name("ONE", &rows).is_none());
    assert!(dao.get_by_name("", &rows).is_none());
}

#[test]
fn a_name_is_found_in_its_first_row() {
    let db = database();
    let dao = db.providers();
    let rows = vec![row("0", "zero", "0"), row("1", "one", "{}"), row("2", "one", "[]")];
    let found = dao.get_by_name("one", &rows).unwrap();
    assert_eq!((found.id.as_str(), found.name.as_str()), ("1", "one"));
    assert_eq!(found.settings_config.to_string(), "{}");
    let bad = dao.get_by_name("x", &vec![row("9", "x", "{oops")]).unwrap();
    assert!(bad.settings_config.is_null());
}

#[test]
fn names_are_listed_in_the_order_of_the_rows() {
    let db = database();
    let rows = vec![row("1", "b", ""), row("2", "a", ""), row("3", "b", "")];
    assert_eq!(db.providers().list_names(&rows), ["b", "a", "b"]);
    assert!(db.providers().list_names(&Vec::new()).is_empty());
}

#[test]
fn the_queries_filter_and_order() {
    assert!(ProviderDao::LIST_ALL.contains("WHERE app_type = ?1"));
    assert!(ProviderDao::LIST_ALL.ends_with("ORDER BY sort_index, name"));
    assert!(ProviderDao::GET_BY_NAME.contains("app_type = ?1 AND name = ?2"));
}

#[test]
fn a_missing_name_is_reported_with_the_names_there_are() {
    let names = strings(&["packycode", "Zhipu GLM"]);
    let end = not_found("nope", Some(&names));
    assert_eq!(
        end.lines,
        ["错误: 未找到配置 'nope'", "提示: 可用配置如下：", "  - packycode", "  - Zhipu GLM"]
    );
    assert_eq!(end.exit_code, 1);
    assert_eq!(NOT_FOUND_EXIT, 1);
}

#[test]
fn a_missing_name_is_reported_without_names() {
    let none = not_found("x", Some(&Vec::new()));
    assert_eq!(
        none.lines,
        ["错误: 未找到配置 'x'", "提示: 数据库中没有配置，请先在 cc-switch 中添加。"]
    );
    assert_eq!(none.exit_code, 1);
    let unread = not_found("x", None);
    assert_eq!(unread.lines, ["错误: 未找到配置 'x'"]);
    assert_eq!(unread.exit_code, 1);
}

#[test]
fn the_settings_file_comes_before_the_arguments() {
    let args = strings(&["help me", "--verbose"]);
    assert_eq!(
        arguments("/d/config-a.json", &args),
        ["--settings", "/d/config-a.json", "help me", "--verbose"]
    );
    assert_eq!(arguments("p", &[]), ["--settings", "p"]);
}

#[test]
fn names_with_shell_characters_want_quotes() {
    for name in [
        "a b", "a\tb", "a\nb", "a\"b", "a'b", "a\\b", "a*", "a?", "[a", "a]", "(a", "a)", "{a",
        "a}", "$a", "a&b", "a|b", "a;b", "<a", "a>", " ",
    ] {
        assert!(needs_quoting(name), "{name:?}");
    }
    for name in ["", "packycode", "a-b_c.d", "配置", "a/b", "a:b", "a%b", "a#b", "a~b", "a=b,c"] {
        assert!(!needs_quoting(name), "{name:?}");
    }
}

#[test]
fn names_are_listed_one_on_a_line() {
    let names = strings(&["packycode", "Zhipu GLM", "a\"b", "配置"]);
    assert_eq!(
        list_configs(&names).unwrap(),
        ["packycode", "\"Zhipu GLM\"", "\"a\"b\"", "配置"]
    );
    assert!(list_configs(&Vec::new()).is_none());
}

#[test]
fn completion_ignores_case() {
    let names = strings(&["packycode", "Zhipu GLM", "zeta", "PACKY 2", "配置"]);
    assert_eq!(config_name_completer("", &names), names);
    assert_eq!(config_name_completer("z", &names), ["Zhipu GLM", "zeta"]);
    assert_eq!(config_name_completer("ZH", &names), ["Zhipu GLM"]);
    assert_eq!(config_name_completer("Packy", &names), ["packycode", "PACKY 2"]);
    assert_eq!(config_name_completer("配", &names), ["配置"]);
    assert!(config_name_completer("x", &names).is_empty());
    assert!(config_name_completer("packycode2", &names).is_empty());
}

#[test]
fn errors_say_what_went_wrong() {
    assert_eq!(ConfigError::InvalidStructure("x".to_string()).message(), "无效的配置结构: x");
    assert_eq!(ConfigError::MissingField("name".to_string()).message(), "缺少必要字段: name");
    assert_eq!(ConfigError::DuplicateName("a".to_string()).message(), "重复的配置名称: a");
    assert_eq!(IoError::PathNotFound("/p".to_string()).message(), "路径不存在: /p");
    assert_eq!(IoError::PermissionDenied("/p".to_string()).message(), "权限不足: /p");
    assert_eq!(JsonError::ParseError("eof".to_string()).message(), "JSON 解析错误: eof");
}
