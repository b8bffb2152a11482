//! Output for the options that show file paths or the file tree without
//! combining the files.

use crate::cli::Cli;
use crate::info::show_paths::{format_file_paths, spec_sort};
use crate::text::{joined_lines, string_views};
use vstd::prelude::*;

verus! {

/// Builds the output for the path-listing and tree options: the tree when
/// asked for (the tree option taking precedence), otherwise the sorted path
/// listing; `None` when neither option is set. Walking the directory for the
/// files is the caller's work.
pub fn non_template_output(cli: &Cli, files: Vec<String>) -> (r: Option<String>)
    ensures
        r is None <==> (!cli.paths && !cli.tree),
        cli.tree ==> r is Some && r->0@ == crate::tree::spec_render_from(
            crate::tree::spec_build(string_views(files@), Some(cli.root@)),
            0,
            Seq::empty(),
            true,
        ),
        (cli.paths && !cli.tree) ==> r is Some && r->0@ == joined_lines(
            spec_sort(string_views(files@)),
        ),
{
    if !cli.paths && !cli.tree {
        return None;
    }
    if cli.tree {
        let t = crate::tree::file_paths_to_tree(files, Some(cli.root.clone()));
        return Some(t);
    }
    Some(format_file_paths(files))
}

} // verus!
