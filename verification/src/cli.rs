//! The command-line options, as plain values: argument parsing lives with the
//! binary; the library only reads the chosen settings.

use vstd::prelude::*;

verus! {

/// Options for combining text files into a single prompt.
#[derive(Debug)]
pub struct Cli {
    /// Keep only file paths matching these glob patterns.
    pub include_patterns: Vec<String>,
    /// Drop file paths that match these glob patterns.
    pub exclude_patterns: Vec<String>,
    /// Keep only files that contain one of these texts.
    pub contain: Vec<String>,
    /// Descend only this many directories deep.
    pub max_depth: Option<usize>,
    /// Output is split into parts of this size when it exceeds this limit.
    pub max_part_size: u64,
    /// Ignore files above this size.
    pub max_filesize: u64,
    /// Report an error when the total size of the files is over this size.
    pub max_total_size: u64,
    /// Do not honour gitignore files.
    pub no_gitignore: bool,
    /// Do not honour the project and home ignore files.
    pub no_quagga_ignore: bool,
    /// Keep binary files.
    pub binary: bool,
    /// Keep hidden files.
    pub hidden: bool,
    /// Follow symbolic links.
    pub follow_links: bool,
    /// Path to a custom template file.
    pub template: Option<String>,
    /// Copy the default template into the current directory.
    pub copy_template: bool,
    /// Do not use the project or home template file.
    pub no_quagga_template: bool,
    /// Write the output to this file instead of standard output.
    pub output: Option<String>,
    /// Copy the output to the clipboard instead of standard output.
    pub clipboard: bool,
    /// Show the paths to the files without combining them.
    pub paths: bool,
    /// Show the sizes of the files without combining them.
    pub file_sizes: bool,
    /// Show the paths to the files as a tree without combining them.
    pub tree: bool,
    /// Show the total size of the files without combining them.
    pub size: bool,
    /// Drop comment lines from the output.
    pub no_comments: bool,
    /// The root directory searched for files.
    pub root: String,
}

impl Default for Cli {
    /// The options as they stand when nothing is passed on the command line.
    fn default() -> (r: Self)
        ensures
            r.include_patterns@.len() == 0,
            r.exclude_patterns@.len() == 0,
            r.contain@.len() == 0,
            r.max_depth is None,
            r.max_part_size == 100000,
            r.max_filesize == 307200,
            r.max_total_size == 512000,
            !r.no_gitignore,
            !r.no_quagga_ignore,
            !r.binary,
            !r.hidden,
            !r.follow_links,
            r.template is None,
            !r.copy_template,
            !r.no_quagga_template,
            r.output is None,
            !r.clipboard,
            !r.paths,
            !r.file_sizes,
            !r.tree,
            !r.size,
            !r.no_comments,
            r.root@ == "."@,
    {
        Cli {
            include_patterns: Vec::new(),
            exclude_patterns: Vec::new(),
            contain: Vec::new(),
            max_depth: None,
            max_part_size: 100000,
            max_filesize: 307200,
            max_total_size: 512000,
            no_gitignore: false,
            no_quagga_ignore: false,
            binary: false,
            hidden: false,
            follow_links: false,
            template: None,
            copy_template: false,
            no_quagga_template: false,
            output: None,
            clipboard: false,
            paths: false,
            file_sizes: false,
            tree: false,
            size: false,
            no_comments: false,
            root: ".".to_owned(),
        }
    }
}

} // verus!
