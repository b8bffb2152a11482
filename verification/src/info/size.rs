//! The total size of the files, in human-readable form.

use crate::file::size::{calculate_total, human_readable_size, human_size_spec, total_of};
use vstd::prelude::*;

verus! {

/// The total of the given file sizes, rendered in a human-readable unit.
pub fn get_total_size(file_sizes: Vec<u64>) -> (r: String)
    requires
        total_of(file_sizes@) <= u64::MAX,
    ensures
        r@ == human_size_spec(total_of(file_sizes@)),
{
    let total_size = calculate_total(&file_sizes);
    human_readable_size(total_size)
}

} // verus!
