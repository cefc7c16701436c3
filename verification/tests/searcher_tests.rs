use rust_sql_organizer::searcher::FileExtension;

#[test]
fn test_file_extension() {
    let result = FileExtension::new("sql");
    assert!(result.is_ok());
    assert_eq!(result.unwrap().extension, "sql")
}

#[test]
fn test_file_extension_error() {
    let result = FileExtension::new("");
    assert!(result.is_err());
}

#[test]
fn test_file_extension_get_glob() {
    let file_extension = FileExtension {
        extension: "sql".to_string(),
    };
    let glob = file_extension.get_glob();
    assert_eq!(glob, "**/*.sql")
}

#[test]
fn test_file_extension_trims_whitespace() {
    let result = FileExtension::new("  sql\t\n");
    assert!(result.is_ok());
    assert_eq!(result.unwrap().extension, "sql");
}

#[test]
fn test_file_extension_blank_after_trim() {
    let result = FileExtension::new(" \t \n ");
    assert!(result.is_err());
}
