//! The entry filter: which entries a tree leaves out.

use vstd::prelude::*;
use vstd::string::*;

verus! {

/// A name is hidden when it starts with a dot.
pub open spec fn hidden(name: Seq<char>) -> bool {
    name.len() > 0 && name[0] == '.'
}

/// Whether an entry of this name is left out of the tree, and, if it is a
/// directory, not walked into.
pub fn is_hidden(name: &str) -> (b: bool)
    ensures
        b == hidden(name@),
{
    if name.is_empty() {
        false
    } else {
        name.get_char(0) == '.'
    }
}

/// Whether a walk from `root` passes over the entry at `path` with the name
/// `name`: it does if the name is hidden, except that the root itself is never
/// passed over, whatever its name.
pub open spec fn passed_over(root: Seq<char>, path: Seq<char>, name: Seq<char>) -> bool {
    path != root && hidden(name)
}

/// Whether a walk from `root` passes over the entry at `path` with the name
/// `name`, and, if the entry is a directory, stays out of it.
pub fn is_passed_over(root: &str, path: &str, name: &str) -> (b: bool)
    ensures
        b == passed_over(root@, path@, name@),
{
    is_hidden(name) && !same_text(root, path)
}

/// Whether two strings hold the same characters.
pub fn same_text(a: &str, b: &str) -> (same: bool)
    ensures
        same == (a@ == b@),
{
    let x = String::from_str(a);
    let y = String::from_str(b);
    x == y
}

} // verus!
