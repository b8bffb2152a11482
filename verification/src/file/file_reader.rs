//! Combines already-read files into the output prompt: filters their lines
//! and concatenates them under the template.

use crate::cli::Cli;
use crate::file::file_content::FileContent;
use crate::filter::filter::filter_lines_in_files;
use crate::template::concatenate::{concat_post, concatenate_files, fc_paths};
use crate::template::template::Template;
use crate::text::string_views;
use vstd::prelude::*;

verus! {

/// Concatenates the files using the template: an empty file list is refused;
/// otherwise the line filters run and the combined output is split into
/// parts. Reading files from disk, and checking their total size beforehand,
/// are the caller's work.
pub fn read_and_concatenate_files(
    files: Vec<FileContent>,
    template: Template,
    cli: &Cli,
    total_size: Option<u64>,
) -> (r: Result<Vec<String>, String>)
    ensures
        r is Err <==> files@.len() == 0,
        (match r {
            Err(e) => e@ == "No files to process"@,
            Ok(v) => concat_post(
                string_views(v@),
                template,
                files@,
                cli.root@,
                total_size,
                (cli.max_part_size as usize) as nat,
            ),
        }),
{
    if files.len() == 0 {
        return Err("No files to process".to_owned());
    }
    let filtered = filter_lines_in_files(&files, cli);
    let ghost template0 = template;
    let out = concatenate_files(template, filtered, cli, total_size);
    proof {
        let max = (cli.max_part_size as usize) as nat;
        assert(fc_paths(filtered@) =~= fc_paths(files@));
        assert(crate::template::concatenate::applied_blocks(template0.prompt.file@, filtered@)
            =~= crate::template::concatenate::applied_blocks(template0.prompt.file@, files@));
        assert(concat_post(string_views(out@), template0, files@, cli.root@, total_size, max));
    }
    Ok(out)
}

} // verus!
