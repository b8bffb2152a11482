//! Builds the informational output for the options that show file paths, the
//! file tree, per-file sizes or the total size without combining any files.

use crate::cli::Cli;
use crate::file::size::{human_size_spec, total_of};
use crate::info::file_sizes::{
    entry_texts, get_formatted_file_sizes, spec_sort_desc, FileWithSize,
};
use crate::info::show_paths::{format_file_paths, spec_sort};
use crate::text::{append_chars, chars_string, joined_lines, str_chars, string_views};
use vstd::prelude::*;

verus! {

/// The pieces joined by blank lines: a double newline between sections.
pub open spec fn joined_sections(parts: Seq<Seq<char>>) -> Seq<char>
    decreases parts.len(),
{
    if parts.len() == 0 {
        Seq::empty()
    } else if parts.len() == 1 {
        parts[0]
    } else {
        parts[0] + seq!['\n', '\n'] + joined_sections(parts.skip(1))
    }
}

/// The sizes of the files, in order.
pub open spec fn sizes_of(files: Seq<FileWithSize>) -> Seq<u64> {
    files.map(|i: int, f: FileWithSize| f.size)
}

/// The paths of the files, in order.
pub open spec fn paths_of(files: Seq<FileWithSize>) -> Seq<Seq<char>> {
    files.map(|i: int, f: FileWithSize| f.path@)
}

/// The sections the informational output holds, in their fixed order: the
/// rendered tree, the sorted path listing, the per-file size listing and the
/// human-readable total size, each present exactly when its option is set.
pub open spec fn info_sections(cli: Cli, files: Seq<FileWithSize>) -> Seq<Seq<char>> {
    (if cli.tree {
        seq![
            crate::tree::spec_render_from(
                crate::tree::spec_build(paths_of(files), Some(cli.root@)),
                0,
                Seq::empty(),
                true,
            ),
        ]
    } else {
        Seq::empty()
    }) + (if cli.paths {
        seq![joined_lines(spec_sort(paths_of(files)))]
    } else {
        Seq::empty()
    }) + (if cli.file_sizes {
        seq![joined_lines(entry_texts(spec_sort_desc(files)))]
    } else {
        Seq::empty()
    }) + (if cli.size {
        seq![human_size_spec(total_of(sizes_of(files)))]
    } else {
        Seq::empty()
    })
}

/// Appending a section appends its text after a blank line.
proof fn lemma_sections_snoc(parts: Seq<Seq<char>>, x: Seq<char>)
    ensures
        joined_sections(parts.push(x)) == if parts.len() == 0 {
            x
        } else {
            joined_sections(parts) + seq!['\n', '\n'] + x
        },
    decreases parts.len(),
{
    if parts.len() == 0 {
        assert(parts.push(x)[0] == x);
        assert(joined_sections(parts.push(x)) == x);
    } else if parts.len() == 1 {
        assert(parts.push(x)[0] == parts[0]);
        assert(parts.push(x).skip(1) =~= seq![x]);
        assert(joined_sections(seq![x]) == x);
    } else {
        assert(parts.push(x).skip(1) =~= parts.skip(1).push(x));
        lemma_sections_snoc(parts.skip(1), x);
        assert(parts.push(x)[0] == parts[0]);
        assert(parts[0] + seq!['\n', '\n'] + (joined_sections(parts.skip(1)) + seq!['\n', '\n']
            + x) =~= (parts[0] + seq!['\n', '\n'] + joined_sections(parts.skip(1))) + seq![
            '\n',
            '\n',
        ] + x);
    }
}

/// Joins the given section texts with one blank line between them.
fn join_sections(items: &Vec<String>) -> (r: String)
    ensures
        r@ == joined_sections(string_views(items@)),
{
    let ghost iv = string_views(items@);
    let mut out: Vec<char> = Vec::new();
    let mut t: usize = 0;
    proof {
        assert(iv.take(0) =~= Seq::<Seq<char>>::empty());
        assert(out@ =~= joined_sections(iv.take(0)));
    }
    while t < items.len()
        invariant
            t <= items@.len(),
            iv == string_views(items@),
            iv.len() == items@.len(),
            out@ == joined_sections(iv.take(t as int)),
        decreases items@.len() - t,
    {
        proof {
            lemma_sections_snoc(iv.take(t as int), iv[t as int]);
            assert(iv.take(t as int).push(iv[t as int]) =~= iv.take(t + 1));
            assert(iv[t as int] == items@[t as int]@);
        }
        if t > 0 {
            out.push('\n');
            out.push('\n');
        }
        let c = str_chars(items[t].as_str());
        append_chars(&mut out, &c);
        t = t + 1;
    }
    proof {
        assert(iv.take(t as int) =~= iv);
    }
    chars_string(&out)
}

/// A copy of the files' paths, in order.
fn collect_paths(files: &Vec<FileWithSize>) -> (r: Vec<String>)
    ensures
        string_views(r@) == paths_of(files@),
{
    let mut r: Vec<String> = Vec::new();
    let mut i: usize = 0;
    proof {
        assert(string_views(r@) =~= paths_of(files@).take(0));
    }
    while i < files.len()
        invariant
            i <= files@.len(),
            string_views(r@) == paths_of(files@).take(i as int),
        decreases files@.len() - i,
    {
        proof {
            assert(paths_of(files@)[i as int] == files@[i as int].path@);
            assert(paths_of(files@).take(i as int).push(paths_of(files@)[i as int]) =~= paths_of(
                files@,
            ).take(i + 1));
        }
        let p = files[i].path.clone();
        let ghost pw = p@;
        let ghost pre = r@;
        r.push(p);
        i = i + 1;
        proof {
            assert(string_views(r@) =~= string_views(pre).push(pw));
        }
    }
    proof {
        assert(paths_of(files@).take(i as int) =~= paths_of(files@));
    }
    r
}

/// The files' sizes, in order.
fn collect_sizes(files: &Vec<FileWithSize>) -> (r: Vec<u64>)
    ensures
        r@ == sizes_of(files@),
{
    let mut r: Vec<u64> = Vec::new();
    let mut i: usize = 0;
    proof {
        assert(r@ =~= sizes_of(files@).take(0));
    }
    while i < files.len()
        invariant
            i <= files@.len(),
            r@ == sizes_of(files@).take(i as int),
        decreases files@.len() - i,
    {
        proof {
            assert(sizes_of(files@)[i as int] == files@[i as int].size);
            assert(sizes_of(files@).take(i as int).push(sizes_of(files@)[i as int]) =~= sizes_of(
                files@,
            ).take(i + 1));
        }
        r.push(files[i].size);
        i = i + 1;
    }
    proof {
        assert(sizes_of(files@).take(i as int) =~= sizes_of(files@));
    }
    r
}

/// A copy of the files, in order.
fn dup_files(files: &Vec<FileWithSize>) -> (r: Vec<FileWithSize>)
    ensures
        r@ == files@,
{
    let mut r: Vec<FileWithSize> = Vec::new();
    let mut i: usize = 0;
    while i < files.len()
        invariant
            i <= files@.len(),
            r@ == files@.take(i as int),
        decreases files@.len() - i,
    {
        let e = FileWithSize { path: files[i].path.clone(), size: files[i].size };
        proof {
            assert(e == files@[i as int]);
        }
        r.push(e);
        i = i + 1;
        proof {
            assert(r@ =~= files@.take(i as int));
        }
    }
    proof {
        assert(r@ =~= files@);
    }
    r
}

/// Builds the informational output for the tree, path, file-size and
/// total-size options, joined by blank lines in that order; `None` when none
/// of them is set. Copying the default template out, and gathering the files
/// and their sizes, are the caller's work.
pub fn info_output(cli: &Cli, files: Vec<FileWithSize>) -> (r: Option<String>)
    requires
        total_of(sizes_of(files@)) <= u64::MAX,
    ensures
        r is None <==> (!cli.tree && !cli.paths && !cli.file_sizes && !cli.size),
        r is Some ==> r->0@ == joined_sections(info_sections(*cli, files@)),
{
    if !cli.tree && !cli.paths && !cli.file_sizes && !cli.size {
        return None;
    }
    let mut output: Vec<String> = Vec::new();
    if cli.tree {
        let paths = collect_paths(&files);
        let t = crate::tree::file_paths_to_tree(paths, Some(cli.root.clone()));
        output.push(t);
    }
    if cli.paths {
        let paths = collect_paths(&files);
        let p = format_file_paths(paths);
        output.push(p);
    }
    if cli.file_sizes {
        let copy = dup_files(&files);
        let fs = get_formatted_file_sizes(copy);
        output.push(fs);
    }
    if cli.size {
        let sizes = collect_sizes(&files);
        let ts = crate::info::size::get_total_size(sizes);
        output.push(ts);
    }
    proof {
        assert(string_views(output@) =~= info_sections(*cli, files@));
    }
    let joined = join_sections(&output);
    Some(joined)
}

} // verus!
