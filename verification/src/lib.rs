mod text;
pub mod file_combiner;
pub mod file_formatter;
pub mod searcher;
pub mod sorter;
pub mod sql_file;
