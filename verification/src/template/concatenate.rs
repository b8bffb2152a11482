//! Renders each file through the item template and splits the combined
//! output into parts.

use crate::cli::Cli;
use crate::file::file_content::FileContent;
use crate::template::split::{
    assemble_single_part, plan_weight, spec_single_part, spec_split_into_parts, split_into_parts,
};
use crate::template::tags::header_footer::{process_header_footer, spec_processed};
use crate::template::template::{PartTemplate, Template};
use crate::text::{replace_chars, replaced, str_chars, string_views};
use vstd::prelude::*;

verus! {

/// The item template with the file-path and file-content tags replaced by one
/// file's path and content, in that order.
pub open spec fn applied(t: Seq<char>, path: Seq<char>, content: Seq<char>) -> Seq<char> {
    replaced(replaced(t, "<file-path>"@, path), "<file-content>"@, content)
}

/// The paths of the files, as texts.
pub open spec fn fc_paths(files: Seq<FileContent>) -> Seq<Seq<char>> {
    files.map(|i: int, f: FileContent| f.path@)
}

/// The blocks the files render to under the item template.
pub open spec fn applied_blocks(t: Seq<char>, files: Seq<FileContent>) -> Seq<Seq<char>> {
    files.map(|i: int, f: FileContent| applied(t, f.path@, f.content@))
}

/// What concatenation returns: the partitioned output of the processed
/// header, the rendered blocks and the processed footer — or, for inputs
/// whose combined weight no machine word can measure, the single unsplit
/// part.
pub open spec fn concat_post(
    r: Seq<Seq<char>>,
    template: Template,
    files: Seq<FileContent>,
    root: Seq<char>,
    total: Option<u64>,
    max: nat,
) -> bool {
    let header = spec_processed(template.prompt.header@, fc_paths(files), root, total);
    let footer = spec_processed(template.prompt.footer@, fc_paths(files), root, total);
    let blocks = applied_blocks(template.prompt.file@, files);
    r == (if plan_weight(header, blocks, footer, template.part) <= usize::MAX / 2 {
        spec_split_into_parts(header, blocks, footer, template.part, max)
    } else {
        seq![spec_single_part(header, blocks, footer)]
    })
}

/// Applies the item template to each file, replacing the file-path and
/// file-content tags.
pub fn apply_file_template(item_template: &str, files: &Vec<FileContent>) -> (r: Vec<String>)
    ensures
        string_views(r@) == applied_blocks(item_template@, files@),
{
    proof {
        reveal_strlit("<file-path>");
        reveal_strlit("<file-content>");
    }
    let tv = str_chars(item_template);
    let path_tag = str_chars("<file-path>");
    let content_tag = str_chars("<file-content>");
    let ghost target = applied_blocks(item_template@, files@);
    let mut out: Vec<String> = Vec::new();
    let mut i: usize = 0;
    proof {
        assert(target.take(0) =~= Seq::<Seq<char>>::empty());
        assert(string_views(out@) =~= target.take(0));
    }
    while i < files.len()
        invariant
            i <= files@.len(),
            tv@ == item_template@,
            path_tag@ == "<file-path>"@,
            content_tag@ == "<file-content>"@,
            path_tag@.len() > 0,
            content_tag@.len() > 0,
            target == applied_blocks(item_template@, files@),
            target.len() == files@.len(),
            string_views(out@) == target.take(i as int),
        decreases files@.len() - i,
    {
        proof {
            assert(target[i as int] == applied(
                item_template@,
                files@[i as int].path@,
                files@[i as int].content@,
            ));
            assert(target.take(i as int).push(target[i as int]) =~= target.take(i + 1));
        }
        let pv = str_chars(files[i].path.as_str());
        let cv = str_chars(files[i].content.as_str());
        let s1 = replace_chars(&tv, &path_tag, &pv);
        let s2 = replace_chars(&s1, &content_tag, &cv);
        let s = crate::text::chars_string(&s2);
        let ghost svw = s@;
        let ghost pre = out@;
        out.push(s);
        i = i + 1;
        proof {
            assert(string_views(out@) =~= string_views(pre).push(svw));
        }
    }
    proof {
        assert(target.take(i as int) =~= target);
    }
    out
}

/// Whether the combined weight of the header, blocks, footer and wrapper
/// template stays within half the machine word, the bound under which the
/// planner's arithmetic cannot overflow.
pub fn within_budget(
    header: &str,
    files: &Vec<String>,
    footer: &str,
    pt: &PartTemplate,
) -> (r: bool)
    ensures
        r == (plan_weight(header@, string_views(files@), footer@, *pt) <= usize::MAX / 2),
{
    let thresh: u128 = (usize::MAX / 2) as u128;
    let ghost fv = string_views(files@);
    let mut w: u128 = header.unicode_len() as u128 + footer.unicode_len() as u128
        + pt.header.as_str().unicode_len() as u128 + pt.footer.as_str().unicode_len() as u128
        + pt.pending.as_str().unicode_len() as u128 + 8;
    if w > thresh {
        proof {
            crate::template::split::lemma_weight_split(fv, 0);
        }
        return false;
    }
    let ghost fixed = header@.len() + footer@.len() + pt.header@.len() + pt.footer@.len()
        + pt.pending@.len() + 8;
    let mut i: usize = 0;
    proof {
        assert(fv.take(0) =~= Seq::<Seq<char>>::empty());
    }
    while i < files.len()
        invariant
            i <= files@.len(),
            fv == string_views(files@),
            fv.len() == files@.len(),
            fixed == header@.len() + footer@.len() + pt.header@.len() + pt.footer@.len()
                + pt.pending@.len() + 8,
            thresh == (usize::MAX / 2) as u128,
            w as nat == fixed + crate::template::split::files_weight(fv.take(i as int)),
            w <= thresh,
        decreases files@.len() - i,
    {
        proof {
            crate::template::split::lemma_weight_take_succ(fv, i as int);
            assert(fv[i as int] == files@[i as int]@);
        }
        let n = files[i].as_str().unicode_len();
        w = w + n as u128 + 1;
        i = i + 1;
        if w > thresh {
            proof {
                crate::template::split::lemma_weight_split(fv, i as int);
            }
            return false;
        }
    }
    proof {
        assert(fv.take(i as int) =~= fv);
    }
    true
}

/// Concatenates the contents of the files using the template: the prompt
/// header and footer have their tags resolved, each file is rendered through
/// the item template, and the result is split into parts under the size
/// budget.
pub fn concatenate_files(
    template: Template,
    files: Vec<FileContent>,
    cli: &Cli,
    total_size: Option<u64>,
) -> (r: Vec<String>)
    ensures
        concat_post(
            string_views(r@),
            template,
            files@,
            cli.root@,
            total_size,
            (cli.max_part_size as usize) as nat,
        ),
{
    let ghost pv = fc_paths(files@);
    let mut file_paths: Vec<String> = Vec::new();
    let mut i: usize = 0;
    proof {
        assert(string_views(file_paths@) =~= pv.take(0));
    }
    while i < files.len()
        invariant
            i <= files@.len(),
            pv == fc_paths(files@),
            pv.len() == files@.len(),
            string_views(file_paths@) == pv.take(i as int),
        decreases files@.len() - i,
    {
        proof {
            assert(pv[i as int] == files@[i as int].path@);
            assert(pv.take(i as int).push(pv[i as int]) =~= pv.take(i + 1));
        }
        let p = files[i].path.clone();
        let ghost pvw = p@;
        let ghost pre = file_paths@;
        file_paths.push(p);
        i = i + 1;
        proof {
            assert(string_views(file_paths@) =~= string_views(pre).push(pvw));
        }
    }
    proof {
        assert(pv.take(i as int) =~= pv);
    }
    let header = process_header_footer(
        template.prompt.header.as_str(),
        &file_paths,
        &cli.root,
        total_size,
    );
    let blocks = apply_file_template(template.prompt.file.as_str(), &files);
    let footer = process_header_footer(
        template.prompt.footer.as_str(),
        &file_paths,
        &cli.root,
        total_size,
    );
    let max_part_chars = cli.max_part_size as usize;
    let part = PartTemplate {
        header: template.part.header.clone(),
        footer: template.part.footer.clone(),
        pending: template.part.pending.clone(),
    };
    proof {
        assert(part == template.part);
    }
    if within_budget(header.as_str(), &blocks, footer.as_str(), &part) {
        let r = split_into_parts(header, blocks, footer, part, max_part_chars);
        proof {
            assert(concat_post(
                string_views(r@),
                template,
                files@,
                cli.root@,
                total_size,
                (cli.max_part_size as usize) as nat,
            ));
        }
        r
    } else {
        let r = assemble_single_part(header.as_str(), &blocks, footer.as_str());
        proof {
            assert(concat_post(
                string_views(r@),
                template,
                files@,
                cli.root@,
                total_size,
                (cli.max_part_size as usize) as nat,
            ));
        }
        r
    }
}

} // verus!
