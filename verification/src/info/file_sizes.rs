//! Lists files with their sizes, largest first.

use crate::file::size::{human_readable_size, human_size_spec};
use crate::info::show_paths::join_lines;
use crate::text::{append_chars, chars_string, str_chars, string_views};
use vstd::prelude::*;

verus! {

/// A file path together with its size in bytes.
pub struct FileWithSize {
    /// The file path, as text.
    pub path: String,
    /// The file's size in bytes.
    pub size: u64,
}

/// One listing line: the size in human-readable form, bracketed, then the
/// path.
pub open spec fn entry_text(f: FileWithSize) -> Seq<char> {
    "["@ + human_size_spec(f.size as nat) + "] "@ + f.path@
}

/// `x` inserted into `s` after every file at least as large.
pub open spec fn spec_insert_desc(x: FileWithSize, s: Seq<FileWithSize>) -> Seq<FileWithSize>
    decreases s.len(),
{
    if s.len() > 0 && s[0].size >= x.size {
        seq![s[0]] + spec_insert_desc(x, s.skip(1))
    } else {
        seq![x] + s
    }
}

/// The files sorted by size, largest first, files of equal size keeping their
/// input order.
pub open spec fn spec_sort_desc(s: Seq<FileWithSize>) -> Seq<FileWithSize>
    decreases s.len(),
{
    if s.len() == 0 {
        Seq::empty()
    } else {
        spec_insert_desc(s.last(), spec_sort_desc(s.drop_last()))
    }
}

/// The texts of the given files' listing lines, in order.
pub open spec fn entry_texts(s: Seq<FileWithSize>) -> Seq<Seq<char>> {
    s.map(|i: int, f: FileWithSize| entry_text(f))
}

/// A copy of one file-with-size record.
fn dup_entry(f: &FileWithSize) -> (r: FileWithSize)
    ensures
        r.path@ == f.path@,
        r.size == f.size,
        r == *f,
{
    let r = FileWithSize { path: f.path.clone(), size: f.size };
    proof {
        assert(r.path@ == f.path@);
    }
    r
}

/// `x` inserted into an already size-sorted list, after every file at least
/// as large.
fn insert_desc(x: FileWithSize, sorted: Vec<FileWithSize>) -> (r: Vec<FileWithSize>)
    ensures
        r@ == spec_insert_desc(x, sorted@),
{
    let sv = sorted;
    let mut out: Vec<FileWithSize> = Vec::new();
    let mut j: usize = 0;
    proof {
        assert(sv@.skip(0) =~= sv@);
        assert(out@ =~= sv@.take(0));
    }
    while j < sv.len() && sv[j].size >= x.size
        invariant
            j <= sv@.len(),
            out@ == sv@.take(j as int),
            spec_insert_desc(x, sv@) == sv@.take(j as int) + spec_insert_desc(
                x,
                sv@.skip(j as int),
            ),
        decreases sv@.len() - j,
    {
        proof {
            assert(sv@.skip(j as int)[0] == sv@[j as int]);
            assert(sv@.skip(j as int).skip(1) =~= sv@.skip(j + 1));
            assert(sv@.take(j + 1) =~= sv@.take(j as int).push(sv@[j as int]));
            assert(sv@.take(j as int) + (seq![sv@[j as int]] + spec_insert_desc(
                x,
                sv@.skip(j + 1),
            )) =~= sv@.take(j + 1) + spec_insert_desc(x, sv@.skip(j + 1)));
        }
        let copy = dup_entry(&sv[j]);
        out.push(copy);
        j = j + 1;
        proof {
            assert(out@ =~= sv@.take(j as int));
        }
    }
    proof {
        if j < sv@.len() {
            assert(sv@.skip(j as int)[0] == sv@[j as int]);
        }
        assert(spec_insert_desc(x, sv@.skip(j as int)) == seq![x] + sv@.skip(j as int));
    }
    let ghost j0 = j as int;
    out.push(x);
    while j < sv.len()
        invariant
            0 <= j0 <= j as int <= sv@.len(),
            out@ == sv@.take(j0).push(x) + sv@.subrange(j0, j as int),
        decreases sv@.len() - j,
    {
        let copy = dup_entry(&sv[j]);
        out.push(copy);
        j = j + 1;
        proof {
            assert(out@ =~= sv@.take(j0).push(x) + sv@.subrange(j0, j as int));
        }
    }
    proof {
        assert(sv@.subrange(j0, sv@.len() as int) =~= sv@.skip(j0));
        assert(out@ =~= sv@.take(j0) + (seq![x] + sv@.skip(j0)));
    }
    out
}

/// The files sorted by size, largest first; files of equal size keep their
/// input order.
pub fn sort_files_by_size(files: Vec<FileWithSize>) -> (r: Vec<FileWithSize>)
    ensures
        r@ == spec_sort_desc(files@),
{
    let n: usize = files.len();
    let mut sorted: Vec<FileWithSize> = Vec::new();
    let mut i: usize = 0;
    proof {
        assert(files@.take(0) =~= Seq::<FileWithSize>::empty());
        assert(sorted@ =~= spec_sort_desc(files@.take(0)));
    }
    while i < n
        invariant
            i <= n,
            n == files@.len(),
            sorted@ == spec_sort_desc(files@.take(i as int)),
        decreases n - i,
    {
        proof {
            assert(files@.take(i + 1).drop_last() =~= files@.take(i as int));
            assert(files@.take(i + 1).last() == files@[i as int]);
        }
        let x = dup_entry(&files[i]);
        proof {
            assert(x == files@[i as int]);
        }
        sorted = insert_desc(x, sorted);
        i = i + 1;
    }
    proof {
        assert(files@.take(i as int) =~= files@);
    }
    sorted
}

/// One listing line for a file: its size, bracketed, then its path.
fn format_one(f: &FileWithSize) -> (r: String)
    ensures
        r@ == entry_text(*f),
{
    let mut out = str_chars("[");
    let h = human_readable_size(f.size);
    let hc = str_chars(h.as_str());
    append_chars(&mut out, &hc);
    let mid = str_chars("] ");
    append_chars(&mut out, &mid);
    let pc = str_chars(f.path.as_str());
    append_chars(&mut out, &pc);
    proof {
        assert(out@ =~= entry_text(*f));
    }
    chars_string(&out)
}

/// The files rendered one per line, each with its size, in the given order.
pub fn format_files_with_sizes(files: Vec<FileWithSize>) -> (r: String)
    ensures
        r@ == crate::text::joined_lines(entry_texts(files@)),
{
    let n: usize = files.len();
    let mut lines: Vec<String> = Vec::new();
    let mut i: usize = 0;
    proof {
        assert(entry_texts(files@).take(0) =~= Seq::<Seq<char>>::empty());
        assert(string_views(lines@) =~= entry_texts(files@).take(0));
    }
    while i < n
        invariant
            i <= n,
            n == files@.len(),
            string_views(lines@) == entry_texts(files@).take(i as int),
        decreases n - i,
    {
        proof {
            assert(entry_texts(files@)[i as int] == entry_text(files@[i as int]));
            assert(entry_texts(files@).take(i as int).push(entry_texts(files@)[i as int])
                =~= entry_texts(files@).take(i + 1));
        }
        let s = format_one(&files[i]);
        let ghost svw = s@;
        let ghost pre = lines@;
        lines.push(s);
        i = i + 1;
        proof {
            assert(string_views(lines@) =~= string_views(pre).push(svw));
        }
    }
    proof {
        assert(entry_texts(files@).take(n as int) =~= entry_texts(files@));
        assert(string_views(lines@) == entry_texts(files@));
    }
    join_lines(&lines)
}

/// Lists the files with their sizes, largest first, one per line.
pub fn get_formatted_file_sizes(files: Vec<FileWithSize>) -> (r: String)
    ensures
        r@ == crate::text::joined_lines(entry_texts(spec_sort_desc(files@))),
{
    let sorted = sort_files_by_size(files);
    format_files_with_sizes(sorted)
}

} // verus!
