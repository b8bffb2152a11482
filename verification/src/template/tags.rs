pub mod all_file_paths;
pub mod header_footer;
pub mod total_file_size;
pub mod tree;
