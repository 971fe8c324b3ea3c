//! One file or directory met on a walk.

use vstd::prelude::*;

verus! {

/// A file or a directory as the walk reported it. It does not change once it
/// has been met.
#[derive(Debug)]
pub struct Entry {
    /// The absolute path of the entry.
    pub path: String,
    /// The last component of the path.
    pub file_name: String,
    /// The absolute path of the directory that holds the entry.
    pub parent: String,
    /// Whether the entry is a directory.
    pub is_dir: bool,
}

/// What an `Entry` holds, as mathematical values.
pub struct EntryView {
    pub path: Seq<char>,
    pub file_name: Seq<char>,
    pub parent: Seq<char>,
    pub is_dir: bool,
}

impl View for Entry {
    type V = EntryView;

    open spec fn view(&self) -> EntryView {
        EntryView {
            path: self.path@,
            file_name: self.file_name@,
            parent: self.parent@,
            is_dir: self.is_dir,
        }
    }
}

impl Clone for Entry {
    fn clone(&self) -> (r: Entry)
        ensures
            r == *self,
    {
        Entry {
            path: self.path.clone(),
            file_name: self.file_name.clone(),
            parent: self.parent.clone(),
            is_dir: self.is_dir,
        }
    }
}

/// The views of a sequence of entries, in the same order.
pub open spec fn views(s: Seq<Entry>) -> Seq<EntryView> {
    s.map_values(|e: Entry| e@)
}

} // verus!
