use rust_sql_organizer::file_combiner::combine_sql_text;
use rust_sql_organizer::file_formatter::{FileFormatters, Fragment};
use rust_sql_organizer::sql_file::{file_stem, SqlFile};

#[test]
fn test_combine_two_files_name_only() {
    let files = vec![
        SqlFile::test_new("test_1", "SELECT 1;"),
        SqlFile::test_new("test_2", "SELECT 1;"),
    ];
    let formatter = FileFormatters::test_new(vec![Fragment::Name]);
    assert_eq!(combine_sql_text(&files, &formatter), "-- test_1-- test_2");
}

#[test]
fn test_combine_no_files() {
    let files: Vec<SqlFile> = Vec::new();
    let formatter = FileFormatters::standard();
    assert_eq!(combine_sql_text(&files, &formatter), "");
}

#[test]
fn test_combine_keeps_given_order() {
    let files = vec![
        SqlFile::test_new("b", "2"),
        SqlFile::test_new("a", "1"),
    ];
    let formatter = FileFormatters::test_new(vec![Fragment::Name]);
    assert_eq!(combine_sql_text(&files, &formatter), "-- b-- a");
}

#[test]
fn test_file_stem_of_path() {
    assert_eq!(file_stem("folder/test.sql"), Some("test".to_string()));
    assert_eq!(file_stem("a/b/archive.tar.gz"), Some("archive.tar".to_string()));
    assert_eq!(file_stem(".gitignore"), Some(".gitignore".to_string()));
    assert_eq!(file_stem("plain"), Some("plain".to_string()));
}

#[test]
fn test_file_stem_missing() {
    assert_eq!(file_stem(""), None);
    assert_eq!(file_stem("dir/"), None);
}

#[test]
fn test_sql_file_accessors() {
    let file = SqlFile::test_new("test", "SELECT 1;");
    assert_eq!(file.get_file_name(), "test");
    assert_eq!(file.get_sql_text(), "SELECT 1;");
}
