use core::cmp::Ordering;

use rust_sql_organizer::sorter::{apply_strategy, lookup_strategy, sort_files, Key};

#[test]
fn test_first_number() {
    let first_number_strat = lookup_strategy("first_number").unwrap();
    assert_eq!(
        apply_strategy(first_number_strat, "folder/100_deploy_20.sql"),
        Key::Num(100)
    );
}

#[test]
fn test_last_number() {
    let strat = lookup_strategy("last_number").unwrap();
    assert_eq!(
        apply_strategy(strat, "folder/100_deploy_20.sql"),
        Key::Num(20)
    );
}

#[test]
fn test_folder() {
    let strat = lookup_strategy("folder").unwrap();
    assert_eq!(
        apply_strategy(strat, "folder/100_deploy_20.sql"),
        Key::Text("folder".to_string())
    )
}

#[test]
fn test_folder_no_folder() {
    let strat = lookup_strategy("folder").unwrap();
    assert_eq!(apply_strategy(strat, "/100_deploy_20.sql"), Key::Num(0))
}

#[test]
fn test_first_number_no_digits() {
    let strat = lookup_strategy("first_number").unwrap();
    assert_eq!(apply_strategy(strat, "folder/deploy.sql"), Key::Num(0));
}

#[test]
fn test_number_too_large_is_pinned() {
    let strat = lookup_strategy("first_number").unwrap();
    assert_eq!(
        apply_strategy(strat, "99999999999999999999.sql"),
        Key::Num(i32::MAX)
    );
}

#[test]
fn test_folder_nested() {
    let strat = lookup_strategy("folder").unwrap();
    assert_eq!(
        apply_strategy(strat, "a/b/c.sql"),
        Key::Text("b".to_string())
    );
}

#[test]
fn test_lookup_unknown_strategy() {
    assert!(lookup_strategy("size").is_none());
}

#[test]
fn test_numeric_always_below_textual() {
    let num = Key::Num(9999);
    let text = Key::Text("a".to_string());
    assert_eq!(num.cmp(&text), Ordering::Less);
    assert_eq!(text.cmp(&num), Ordering::Greater);
    assert_eq!(num.partial_cmp(&text), Some(Ordering::Less));
}

#[test]
fn test_key_ordering_within_variants() {
    assert_eq!(Key::Num(2).cmp(&Key::Num(10)), Ordering::Less);
    assert_eq!(Key::Num(3).cmp(&Key::Num(3)), Ordering::Equal);
    assert_eq!(
        Key::Text("a".to_string()).cmp(&Key::Text("b".to_string())),
        Ordering::Less
    );
    assert_eq!(
        Key::Text("ab".to_string()).cmp(&Key::Text("a".to_string())),
        Ordering::Greater
    );
}

#[test]
fn test_multi_key_sort() {
    let paths = vec![
        "b/2.sql".to_string(),
        "a/1.sql".to_string(),
        "a/3.sql".to_string(),
    ];
    let strategies = vec!["folder".to_string(), "first_number".to_string()];
    let sorted = sort_files(&paths, &strategies).unwrap();
    assert_eq!(
        sorted,
        vec![
            "a/1.sql".to_string(),
            "a/3.sql".to_string(),
            "b/2.sql".to_string(),
        ]
    );
}

#[test]
fn test_sort_is_stable_on_equal_keys() {
    let paths = vec![
        "a/2.sql".to_string(),
        "a/1.sql".to_string(),
        "b/1.sql".to_string(),
    ];
    let strategies = vec!["folder".to_string()];
    let sorted = sort_files(&paths, &strategies).unwrap();
    assert_eq!(
        sorted,
        vec![
            "a/2.sql".to_string(),
            "a/1.sql".to_string(),
            "b/1.sql".to_string(),
        ]
    );
}

#[test]
fn test_empty_strategy_list_keeps_order() {
    let paths = vec![
        "b/2.sql".to_string(),
        "a/1.sql".to_string(),
        "a/3.sql".to_string(),
    ];
    let sorted = sort_files(&paths, &Vec::new()).unwrap();
    assert_eq!(sorted, paths);
}

#[test]
fn test_unknown_strategy_aborts_sort() {
    let paths = vec!["b/2.sql".to_string(), "a/1.sql".to_string()];
    let strategies = vec!["folder".to_string(), "size".to_string()];
    let result = sort_files(&paths, &strategies);
    assert!(result.is_err());
    assert_eq!(result.unwrap_err().name, "size");
}

#[test]
fn test_multi_key_sort_keeps_fully_tied_paths_in_order() {
    let paths = vec![
        "a/1_second.sql".to_string(),
        "a/1_first.sql".to_string(),
    ];
    let strategies = vec!["folder".to_string(), "first_number".to_string()];
    let sorted = sort_files(&paths, &strategies).unwrap();
    assert_eq!(sorted, paths);
}
