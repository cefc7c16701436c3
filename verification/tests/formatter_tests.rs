use rust_sql_organizer::file_formatter::{
    format_endln, format_name, format_no_comments, format_plain_text, format_split,
    FileFormatters, Fragment,
};
use rust_sql_organizer::sql_file::SqlFile;

#[test]
fn test_format_name() {
    assert_eq!(
        format_name(&SqlFile::test_new("test", "SELECT 1;")),
        "-- test"
    )
}

#[test]
fn test_format_split() {
    assert_eq!(format_split(&SqlFile::test_new("test", "SELECT 1;")), "\n")
}

#[test]
fn test_format_plain_text() {
    assert_eq!(
        format_plain_text(&SqlFile::test_new("test", "SELECT 1;")),
        "SELECT 1;"
    )
}

#[test]
fn test_format_no_comments() {
    assert_eq!(
        format_no_comments(&SqlFile::test_new(
            "test",
            "-- use ROLE ACCOUNTADMIN;\nSELECT 1;"
        )),
        "USE ROLE ACCOUNTADMIN;\nSELECT 1;"
    )
}

#[test]
fn test_format_endln() {
    assert_eq!(
        format_endln(&SqlFile::test_new("test", "SELECT 1;")),
        "--____________________ End of test ____________________--"
    )
}

#[test]
fn test_format_no_comments_every_occurrence() {
    assert_eq!(
        format_no_comments(&SqlFile::test_new(
            "test",
            "--  USE ROLE A;\nSELECT 1;\n-- use WAREHOUSE B;"
        )),
        "USE ROLE A;\nSELECT 1;\nUSE WAREHOUSE B;"
    )
}

#[test]
fn test_format_no_comments_leaves_other_lines() {
    assert_eq!(
        format_no_comments(&SqlFile::test_new("test", "--x use ROLE A;\n--use B;")),
        "--x use ROLE A;\n--use B;"
    )
}

#[test]
fn test_format_standard_chain() {
    let formatter = FileFormatters::standard();
    let file = SqlFile::test_new("test", "SELECT 1;");
    assert_eq!(
        formatter.format(&file),
        "-- test\n\n\n\n\nSELECT 1;\n\n\n\n\n--____________________ End of test ____________________--\n\n"
    );
}

#[test]
fn test_format_no_comments_chain() {
    let formatter = FileFormatters::no_comments();
    let file = SqlFile::test_new("test", "-- use ROLE A;");
    assert_eq!(
        formatter.format(&file),
        "-- test\n\n\n\n\nUSE ROLE A;\n\n\n\n\n--____________________ End of test ____________________--\n\n"
    );
}

#[test]
fn test_format_twice_identical() {
    let formatter = FileFormatters::no_comments();
    let file = SqlFile::test_new("twice", "-- use ROLE A;\nSELECT 2;");
    let first = formatter.format(&file);
    let second = formatter.format(&file);
    assert_eq!(first, second);
}

#[test]
fn test_format_empty_chain() {
    let formatter = FileFormatters::test_new(Vec::new());
    let file = SqlFile::test_new("test", "SELECT 1;");
    assert_eq!(formatter.format(&file), "");
}

#[test]
fn test_format_single_fragment_chain() {
    let formatter = FileFormatters::test_new(vec![Fragment::Name]);
    let file = SqlFile::test_new("only", "SELECT 1;");
    assert_eq!(formatter.format(&file), "-- only");
}
