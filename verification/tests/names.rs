use ccstart::config::manager::{decimal_string, ConfigManager};
use ccstart::config::parser::{ClaudeConfig, ConfigCollection, Provider};
use ccstart::utils::sorting::{sorted_copy, stable_order, str_le};

fn strings(names: &[&str]) -> Vec<String> {
    names.iter().map(|n| n.to_string()).collect()
}

fn provider(id: &str, name: &str, settings: &str) -> Provider {
    Provider {
        id: id.to_string(),
        name: name.to_string(),
        settings_config: serde_json::from_str(settings).unwrap(),
    }
}

fn collection(providers: Vec<Provider>) -> ConfigCollection {
    let mut claude = ClaudeConfig::new();
    for (i, p) in providers.into_iter().enumerate() {
        claude.insert(format!("key-{i}"), p);
    }
    ConfigCollection { claude }
}

#[test]
fn later_occurrences_get_a_number() {
    let names = strings(&["a", "b", "a", "a"]);
    assert_eq!(ConfigManager::handle_duplicate_names(&names), strings(&["a", "b", "a-2", "a-3"]));
}

#[test]
fn no_names_give_no_names() {
    assert_eq!(ConfigManager::handle_duplicate_names(&[]), Vec::<String>::new());
}

#[test]
fn distinct_names_stay_as_they_are() {
    let names = strings(&["a", "b", "a-2", "a-3", "", "配置"]);
    assert_eq!(ConfigManager::handle_duplicate_names(&names), names);
    let again = ConfigManager::handle_duplicate_names(&names);
    assert_eq!(ConfigManager::handle_duplicate_names(&again), again);
}

#[test]
fn numbers_have_as_many_digits_as_they_need() {
    let names = strings(&["x"; 12]);
    let unique = ConfigManager::handle_duplicate_names(&names);
    assert_eq!(unique[0], "x");
    assert_eq!(unique[1], "x-2");
    assert_eq!(unique[8], "x-9");
    assert_eq!(unique[9], "x-10");
    assert_eq!(unique[11], "x-12");
}

#[test]
fn each_name_is_counted_by_itself() {
    let names = strings(&["a", "A", "a", "b", "A", "b"]);
    assert_eq!(
        ConfigManager::handle_duplicate_names(&names),
        strings(&["a", "A", "a-2", "b", "A-2", "b-2"])
    );
}

#[test]
fn a_number_may_meet_a_name() {
    let names = strings(&["a", "a", "a-2"]);
    assert_eq!(ConfigManager::handle_duplicate_names(&names), strings(&["a", "a-2", "a-2"]));
}

#[test]
fn names_are_ordered_by_their_bytes() {
    assert!(str_le("", "a"));
    assert!(str_le("a", "a"));
    assert!(str_le("a", "ab"));
    assert!(!str_le("ab", "a"));
    assert!(str_le("B", "a"));
    assert!(!str_le("a", "B"));
    assert!(str_le("z", "é"));
    assert!(str_le("é", "配"));
    for (a, b) in [("x", "y"), ("abc", "abd"), ("", ""), ("配", "置"), ("a b", "a-b")] {
        assert_eq!(str_le(a, b), a <= b);
        assert_eq!(str_le(b, a), b <= a);
    }
}

#[test]
fn sorting_agrees_with_the_standard_order() {
    let names = strings(&["pear", "Apple", "apple", "", "配置", "pear", "a b", "a-b", "é"]);
    let mut expected = names.clone();
    expected.sort();
    assert_eq!(sorted_copy(&names), expected);
}

#[test]
fn equal_names_keep_their_order() {
    let names = strings(&["b", "a", "b", "a", "c", "a"]);
    assert_eq!(stable_order(&names), vec![1, 3, 5, 0, 2, 4]);
    assert_eq!(stable_order(&Vec::new()), Vec::<usize>::new());
}

#[test]
fn display_name_is_the_trimmed_name() {
    let p = provider("id-1", "  Zhipu GLM \n", "{}");
    assert_eq!(ConfigManager::display_name(&p), "Zhipu GLM");
}

#[test]
fn display_name_falls_back_to_the_trimmed_id() {
    assert_eq!(ConfigManager::display_name(&provider("  id-1\t", "", "{}")), "id-1");
    assert_eq!(ConfigManager::display_name(&provider("id-2", " \u{3000}\n", "{}")), "id-2");
}

#[test]
fn display_name_falls_back_to_default() {
    assert_eq!(ConfigManager::display_name(&provider("", "", "{}")), "default");
    assert_eq!(ConfigManager::display_name(&provider(" \t", "\n", "{}")), "default");
}

#[test]
fn extraction_orders_names_and_numbers_duplicates() {
    let c = collection(vec![
        provider("1", "beta", "{\"n\":1}"),
        provider("2", "alpha", "{\"n\":2}"),
        provider("3", "beta", "{\"n\":3}"),
        provider("4", "a/b", "{\"n\":4}"),
    ]);
    let items = ConfigManager::extract_providers(&c);
    let rows: Vec<(&str, &str, &str, String)> = items
        .iter()
        .map(|(o, u, t, v)| (o.as_str(), u.as_str(), t.as_str(), v.to_string()))
        .collect();
    assert_eq!(
        rows,
        vec![
            ("a/b", "a/b", "a%2Fb", "{\"n\":4}".to_string()),
            ("alpha", "alpha", "alpha", "{\"n\":2}".to_string()),
            ("beta", "beta", "beta", "{\"n\":1}".to_string()),
            ("beta", "beta-2", "beta-2", "{\"n\":3}".to_string()),
        ]
    );
}

#[test]
fn extraction_does_not_depend_on_the_order_read() {
    let make = |order: &[usize]| {
        let all = [("1", "gamma"), ("2", "alpha"), ("3", "beta"), ("4", "alpha"), ("", "")];
        collection(order.iter().map(|&i| provider(all[i].0, all[i].1, "null")).collect())
    };
    let names = |c: &ConfigCollection| -> Vec<(String, String, String)> {
        ConfigManager::extract_providers(c).into_iter().map(|(o, u, t, _)| (o, u, t)).collect()
    };
    let first = names(&make(&[0, 1, 2, 3, 4]));
    assert_eq!(first, names(&make(&[4, 3, 2, 1, 0])));
    assert_eq!(first, names(&make(&[2, 4, 0, 3, 1])));
    assert_eq!(first, names(&make(&[0, 1, 2, 3, 4])));
    let unique: Vec<&str> = first.iter().map(|(_, u, _)| u.as_str()).collect();
    assert_eq!(unique, ["alpha", "alpha-2", "beta", "default", "gamma"]);
}

#[test]
fn extraction_uses_the_fallback_names() {
    let c = collection(vec![provider(" only-id ", "", "1"), provider("", "  ", "2")]);
    let items = ConfigManager::extract_providers(&c);
    assert_eq!(items.len(), 2);
    assert_eq!((items[0].0.as_str(), items[0].3.to_string()), ("default", "2".to_string()));
    assert_eq!((items[1].0.as_str(), items[1].3.to_string()), ("only-id", "1".to_string()));
}

#[test]
fn extraction_of_nothing_is_nothing() {
    assert!(ConfigManager::extract_providers(&collection(Vec::new())).is_empty());
}

#[test]
fn a_key_is_held_once() {
    let mut claude = ClaudeConfig::new();
    claude.insert("k".to_string(), provider("1", "one", "1"));
    claude.insert("l".to_string(), provider("2", "two", "2"));
    claude.insert("k".to_string(), provider("3", "three", "3"));
    let keys: Vec<(&str, &str)> =
        claude.providers.iter().map(|(k, p)| (k.as_str(), p.name.as_str())).collect();
    assert_eq!(keys, [("k", "three"), ("l", "two")]);
}

#[test]
fn unique_names_are_distinct_without_numbered_names() {
    let names = strings(&["a", "b", "a", "c", "b", "a", "a b", "a-b", "a", "a-1", "a-1"]);
    let unique = ConfigManager::handle_duplicate_names(&names);
    assert_eq!(
        unique,
        strings(&["a", "b", "a-2", "c", "b-2", "a-3", "a b", "a-b", "a-4", "a-1", "a-1-2"])
    );
    let mut seen = unique.clone();
    seen.sort();
    seen.dedup();
    assert_eq!(seen.len(), unique.len());
}

#[test]
fn numbers_are_written_in_decimal() {
    assert_eq!(decimal_string(0), "0");
    assert_eq!(decimal_string(7), "7");
    assert_eq!(decimal_string(10), "10");
    assert_eq!(decimal_string(109), "109");
    assert_eq!(decimal_string(9_007_000), "9007000");
    assert_eq!(decimal_string(usize::MAX), usize::MAX.to_string());
    for n in [1usize, 9, 11, 99, 100, 101, 999, 1000, 12345, 4_294_967_295] {
        assert_eq!(decimal_string(n), n.to_string());
    }
}
