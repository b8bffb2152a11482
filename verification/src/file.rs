pub mod file_content;
pub mod file_reader;
pub mod size;
