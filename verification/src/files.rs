use vstd::prelude::*;
use vstd::string::{StrSliceExecFns, StringExecFns};

verus! {

/// Whether a file name ends in `.png`, in any mix of upper and lower case.
pub open spec fn ends_in_png(name: Seq<char>) -> bool {
    let n = name.len() as int;
    &&& n >= 4
    &&& name[n - 4] == '.'
    &&& (name[n - 3] == 'p' || name[n - 3] == 'P')
    &&& (name[n - 2] == 'n' || name[n - 2] == 'N')
    &&& (name[n - 1] == 'g' || name[n - 1] == 'G')
}

/// Whether the file of this name is taken for the image of a level.
pub fn is_map_png(file_name: &str) -> (png: bool)
    ensures
        png == ends_in_png(file_name@),
{
    let n: usize = file_name.unicode_len();
    if n < 4 {
        return false;
    }
    let dot: char = file_name.get_char(n - 4);
    let p: char = file_name.get_char(n - 3);
    let n_: char = file_name.get_char(n - 2);
    let g: char = file_name.get_char(n - 1);
    dot == '.' && (p == 'p' || p == 'P') && (n_ == 'n' || n_ == 'N') && (g == 'g' || g == 'G')
}

/// The name of the file that the level of the image `<stem>.png` is written
/// to.
pub fn output_file_name(stem: &str) -> (name: String)
    ensures
        name@ == stem@ + ".rust.map.json"@,
{
    String::from_str(stem).concat(".rust.map.json")
}

} // verus!
