pub mod file_sizes;
pub mod info;
pub mod show_paths;
pub mod size;
