//! The tree collector: the entries of a walk, grouped by the directory that holds
//! them, each group in the order in which it is shown. The root and every
//! directory that the walk met have a group, though nothing may lie in them.

use crate::entry::{views, Entry, EntryView};
use crate::filter::{hidden, is_hidden};
use crate::order::{
    lemma_sorted_entries_ordered, lemma_sorted_entries_same, lemma_sorted_entries_unique,
    sort_entries, sorted_entries,
};
use crate::text::{lex_le, lowercase};
use vstd::hash_map::StringHashMap;
use vstd::prelude::*;
use vstd::seq_lib::*;
use vstd::set_lib::*;
use vstd::string::*;

verus! {

/// An entry is shown unless its name is hidden.
pub open spec fn shown(e: EntryView) -> bool {
    !hidden(e.file_name)
}

/// An entry of a walk from `root` is taken into the tree if it is shown and is
/// not the root itself: the root is where the tree starts, and no child of any
/// directory of it.
pub open spec fn taken(root: Seq<char>, e: EntryView) -> bool {
    shown(e) && e.path != root
}

/// The taken entries of a walk that lie directly in `dir`, in the order of the
/// walk.
pub open spec fn children_of(root: Seq<char>, walked: Seq<EntryView>, dir: Seq<char>) -> Seq<
    EntryView,
> {
    walked.filter(|e: EntryView| taken(root, e) && e.parent == dir)
}

/// The taken directories of a walk whose path is `dir`, in the order of the
/// walk.
pub open spec fn directories_at(
    root: Seq<char>,
    walked: Seq<EntryView>,
    dir: Seq<char>,
) -> Seq<EntryView> {
    walked.filter(|e: EntryView| taken(root, e) && e.is_dir && e.path == dir)
}

/// Whether the tree of a walk has a group for `dir`: the root has one, every
/// directory that the walk met and took has one, though nothing may lie in it,
/// and so has every directory in which a taken entry lies.
pub open spec fn has_group(root: Seq<char>, walked: Seq<EntryView>, dir: Seq<char>) -> bool {
    ||| dir == root
    ||| directories_at(root, walked, dir).len() > 0
    ||| children_of(root, walked, dir).len() > 0
}

/// The taken entries of a walk, grouped by their directory and not yet sorted.
pub open spec fn gathered(root: Seq<char>, walked: Seq<EntryView>) -> Map<
    Seq<char>,
    Seq<EntryView>,
> {
    Map::new(
        |d: Seq<char>| has_group(root, walked, d),
        |d: Seq<char>| children_of(root, walked, d),
    )
}

/// `tree` is what a walk from `root` collects: the groups of `gathered`, each
/// sorted without disturbing ties.
pub open spec fn collects(
    root: Seq<char>,
    walked: Seq<EntryView>,
    tree: Map<Seq<char>, Seq<EntryView>>,
) -> bool {
    &&& tree.dom() == gathered(root, walked).dom()
    &&& forall|d: Seq<char>| #[trigger]
        tree.contains_key(d) ==> sorted_entries(tree[d], children_of(root, walked, d))
}

/// The children of `dir` in `tree`: none if the tree does not hold `dir`.
pub open spec fn children(tree: Map<Seq<char>, Seq<EntryView>>, dir: Seq<char>) -> Seq<
    EntryView,
> {
    if tree.contains_key(dir) {
        tree[dir]
    } else {
        Seq::empty()
    }
}

/// `tree` with `e` put at the end of the children of its directory.
pub open spec fn with_child(
    tree: Map<Seq<char>, Seq<EntryView>>,
    e: EntryView,
) -> Map<Seq<char>, Seq<EntryView>> {
    tree.insert(e.parent, children(tree, e.parent).push(e))
}

/// `tree` with a group for `e` itself, if `e` is a directory and has none.
pub open spec fn with_directory(
    tree: Map<Seq<char>, Seq<EntryView>>,
    e: EntryView,
) -> Map<Seq<char>, Seq<EntryView>> {
    if e.is_dir && !tree.contains_key(e.path) {
        tree.insert(e.path, Seq::empty())
    } else {
        tree
    }
}

/// The children of one directory.
struct Group {
    dir: String,
    children: Vec<Entry>,
}

/// For each directory of a tree, its children in order. The view is the map from
/// a directory's path to them; a directory in which nothing lies is mapped to
/// the empty sequence.
pub struct DirectoryChildren {
    /// One group for each directory, in the order in which the walk brought them up.
    groups: Vec<Group>,
    /// Where in `groups` each directory stands.
    index: StringHashMap<usize>,
}

impl View for DirectoryChildren {
    type V = Map<Seq<char>, Seq<EntryView>>;

    closed spec fn view(&self) -> Self::V {
        Map::new(
            |d: Seq<char>| self.index@.contains_key(d),
            |d: Seq<char>| views(self.groups[self.index@[d] as int].children@),
        )
    }
}

impl DirectoryChildren {
    /// The index and the groups agree: each directory has one group, and the
    /// index leads to it.
    pub closed spec fn wf(&self) -> bool {
        &&& forall|i: int|
            #![trigger self.groups[i]]
            0 <= i < self.groups.len() ==> self.index@.contains_key(self.groups[i].dir@)
                && self.index@[self.groups[i].dir@] == i
        &&& forall|d: Seq<char>| #[trigger]
            self.index@.contains_key(d) ==> self.index@[d] < self.groups.len()
                && self.groups[self.index@[d] as int].dir@ == d
    }

    /// A tree holds finitely many directories.
    pub proof fn lemma_finite(&self)
        requires
            self.wf(),
        ensures
            self@.dom().finite(),
    {
        let dirs = Seq::new(self.groups.len() as nat, |i: int| self.groups[i].dir@);
        assert(self@.dom() =~= dirs.to_set()) by {
            assert forall|d: Seq<char>| self@.dom().contains(d) implies dirs.to_set().contains(
                d,
            ) by {
                assert(dirs[self.index@[d] as int] == d);
            }
            assert forall|d: Seq<char>| dirs.to_set().contains(d) implies self@.dom().contains(
                d,
            ) by {
                let i = choose|i: int| 0 <= i < dirs.len() && dirs[i] == d;
                assert(self.groups[i].dir@ == d);
            }
        }
        seq_to_set_is_finite(dirs);
    }

    /// A tree that holds the root and nothing in it.
    pub fn new(root: &str) -> (tree: Self)
        ensures
            tree.wf(),
            tree@ == gathered(root@, Seq::<EntryView>::empty()),
    {
        let mut index: StringHashMap<usize> = StringHashMap::new();
        index.insert(String::from_str(root), 0);
        let mut groups: Vec<Group> = Vec::new();
        groups.push(Group { dir: String::from_str(root), children: Vec::new() });
        let tree = DirectoryChildren { groups, index };
        proof {
            lemma_nothing_gathered(root@);
            assert(views(Seq::<Entry>::empty()) =~= Seq::<EntryView>::empty());
            assert(tree@ =~= gathered(root@, Seq::<EntryView>::empty()));
        }
        tree
    }

    /// The children of the directory at `path`, if the tree holds that directory.
    pub fn get(&self, path: &str) -> (found: Option<&Vec<Entry>>)
        requires
            self.wf(),
        ensures
            match found {
                Some(children) => self@.contains_key(path@) && views(children@) == self@[path@],
                None => !self@.contains_key(path@),
            },
    {
        match self.index.get(path) {
            Some(i) => Some(&self.groups[*i].children),
            None => None,
        }
    }

    /// Puts `entry` at the end of its directory's children, and gives the
    /// directory a group if it has none.
    fn record(&mut self, entry: Entry)
        requires
            old(self).wf(),
        ensures
            final(self).wf(),
            final(self)@ == with_child(old(self)@, entry@),
    {
        let ghost before = *self;
        let ghost e = entry@;
        match self.index.get(entry.parent.as_str()) {
            Some(at) => {
                let i = *at;
                self.groups[i].children.push(entry);
                proof {
                    assert(views(before.groups[i as int].children@.push(entry)) =~= views(
                        before.groups[i as int].children@,
                    ).push(e));
                    assert(self@ =~= with_child(before@, e));
                }
            },
            None => {
                let i = self.groups.len();
                let dir = entry.parent.clone();
                self.index.insert(entry.parent.clone(), i);
                let mut children: Vec<Entry> = Vec::new();
                children.push(entry);
                self.groups.push(Group { dir, children });
                proof {
                    assert(views(Seq::<Entry>::empty().push(entry)) =~= Seq::<
                        EntryView,
                    >::empty().push(e));
                    assert(self@ =~= with_child(before@, e));
                }
            },
        }
    }

    /// Gives the directory at `dir` a group, if it has none.
    fn open(&mut self, dir: String)
        requires
            old(self).wf(),
        ensures
            final(self).wf(),
            final(self)@ == if old(self)@.contains_key(dir@) {
                old(self)@
            } else {
                old(self)@.insert(dir@, Seq::<EntryView>::empty())
            },
    {
        let ghost before = *self;
        if !self.index.contains_key(dir.as_str()) {
            let i = self.groups.len();
            self.index.insert(dir.clone(), i);
            self.groups.push(Group { dir, children: Vec::new() });
            proof {
                assert(views(Seq::<Entry>::empty()) =~= Seq::<EntryView>::empty());
                assert(self@ =~= before@.insert(dir@, Seq::<EntryView>::empty()));
            }
        } else {
            assert(self@ =~= before@);
        }
    }

    /// Meets one entry of the walk from `root`. A hidden entry and the root
    /// itself are passed over; any other entry is put at the end of its
    /// directory's children, and a directory gets a group of its own.
    fn visit(&mut self, root: &String, entry: Entry)
        requires
            old(self).wf(),
        ensures
            final(self).wf(),
            final(self)@ == if taken(root@, entry@) {
                with_directory(with_child(old(self)@, entry@), entry@)
            } else {
                old(self)@
            },
    {
        if entry.path == *root || is_hidden(entry.file_name.as_str()) {
            return ;
        }
        if entry.is_dir {
            let own = entry.path.clone();
            self.record(entry);
            self.open(own);
        } else {
            self.record(entry);
        }
    }

    /// Sorts the children of every directory.
    fn sort(&mut self)
        requires
            old(self).wf(),
        ensures
            final(self).wf(),
            final(self)@.dom() == old(self)@.dom(),
            forall|d: Seq<char>| #[trigger]
                final(self)@.contains_key(d) ==> sorted_entries(final(self)@[d], old(self)@[d]),
    {
        let ghost before = *self;
        let n = self.groups.len();
        let mut i: usize = 0;
        while i < n
            invariant
                i <= n,
                n == self.groups.len(),
                n == before.groups.len(),
                self.index == before.index,
                forall|j: int| 0 <= j < n ==> #[trigger] self.groups[j].dir == before.groups[j].dir,
                forall|j: int|
                    0 <= j < i ==> sorted_entries(
                        views(#[trigger] self.groups[j].children@),
                        views(before.groups[j].children@),
                    ),
                forall|j: int|
                    i <= j < n ==> #[trigger] self.groups[j].children == before.groups[j].children,
            decreases n - i,
        {
            sort_entries(&mut self.groups[i].children);
            i += 1;
        }
        proof {
            assert(self@.dom() =~= before@.dom());
        }
    }
}

/// Collects the tree of a walk from `root`. Hidden entries are passed over, and
/// so is the root itself where the walk reports it. Every other entry is put
/// among the children of the directory that holds it, every directory gets a
/// group of its own, and each group is sorted, directories first and then by
/// lowercase name.
pub fn collect_entries(root: &str, walked: Vec<Entry>) -> (tree: DirectoryChildren)
    ensures
        tree.wf(),
        collects(root@, views(walked@), tree@),
{
    let mut tree = DirectoryChildren::new(root);
    let start = String::from_str(root);
    let ghost all = views(walked@);
    proof {
        assert(all.take(0) =~= Seq::<EntryView>::empty());
        lemma_nothing_gathered(root@);
    }
    for entry in it: walked
        invariant
            it.seq() == walked@,
            all == views(walked@),
            start@ == root@,
            tree.wf(),
            tree@ == gathered(root@, all.take(it.index() as int)),
    {
        let ghost e = entry@;
        let ghost sofar = all.take(it.index() as int);
        tree.visit(&start, entry);
        proof {
            assert(all.take(it.index() + 1) =~= sofar.push(e));
            lemma_gathered_push(root@, sofar, e);
        }
    }
    proof {
        assert(all.take(walked@.len() as int) =~= all);
    }
    tree.sort();
    tree
}

/// A walk that met nothing gathers the root alone, with nothing in it.
proof fn lemma_nothing_gathered(root: Seq<char>)
    ensures
        gathered(root, Seq::<EntryView>::empty()) == Map::<Seq<char>, Seq<EntryView>>::empty().insert(
            root,
            Seq::<EntryView>::empty(),
        ),
{
    let none = Seq::<EntryView>::empty();
    assert forall|d: Seq<char>|
        children_of(root, none, d) == none && directories_at(root, none, d) == none by {
        reveal(Seq::filter);
    }
    assert(gathered(root, none) =~= Map::<Seq<char>, Seq<EntryView>>::empty().insert(root, none));
}

/// What one more entry adds to what a walk gathers: nothing if the entry is not
/// taken, else the entry among the children of its directory and, for a
/// directory, a group of its own.
proof fn lemma_gathered_push(root: Seq<char>, sofar: Seq<EntryView>, e: EntryView)
    ensures
        gathered(root, sofar.push(e)) == if taken(root, e) {
            with_directory(with_child(gathered(root, sofar), e), e)
        } else {
            gathered(root, sofar)
        },
{
    let next = sofar.push(e);
    assert forall|d: Seq<char>| #[trigger]
        children_of(root, next, d) == (if taken(root, e) && e.parent == d {
            children_of(root, sofar, d).push(e)
        } else {
            children_of(root, sofar, d)
        }) by {
        sofar.lemma_filter_push(e, |x: EntryView| taken(root, x) && x.parent == d);
    }
    assert forall|d: Seq<char>| #[trigger]
        directories_at(root, next, d) == (if taken(root, e) && e.is_dir && e.path == d {
            directories_at(root, sofar, d).push(e)
        } else {
            directories_at(root, sofar, d)
        }) by {
        sofar.lemma_filter_push(e, |x: EntryView| taken(root, x) && x.is_dir && x.path == d);
    }
    let old_tree = gathered(root, sofar);
    if taken(root, e) {
        let grown = with_directory(with_child(old_tree, e), e);
        if !old_tree.contains_key(e.parent) {
            assert(children_of(root, sofar, e.parent) =~= Seq::<EntryView>::empty());
        }
        if e.is_dir && !with_child(old_tree, e).contains_key(e.path) {
            assert(children_of(root, sofar, e.path) =~= Seq::<EntryView>::empty());
            assert(children_of(root, next, e.path) =~= Seq::<EntryView>::empty());
        }
        assert forall|d: Seq<char>| grown.contains_key(d) <==> has_group(root, next, d) by {
            assert(children_of(root, next, d).len() >= children_of(root, sofar, d).len());
            assert(directories_at(root, next, d).len() >= directories_at(root, sofar, d).len());
        }
        assert forall|d: Seq<char>| grown.contains_key(d) implies grown[d] == children_of(
            root,
            next,
            d,
        ) by {}
        assert(gathered(root, next) =~= grown);
    } else {
        assert(gathered(root, next) =~= old_tree);
    }
}

/// A walk fills finitely many directories.
pub proof fn lemma_gathered_finite(root: Seq<char>, walked: Seq<EntryView>)
    ensures
        gathered(root, walked).dom().finite(),
{
    let parents = walked.map_values(|e: EntryView| e.parent);
    let paths = walked.map_values(|e: EntryView| e.path);
    let all = parents.to_set().union(paths.to_set()).insert(root);
    seq_to_set_is_finite(parents);
    seq_to_set_is_finite(paths);
    assert forall|d: Seq<char>| gathered(root, walked).dom().contains(d) implies all.contains(
        d,
    ) by {
        if d != root {
            let kids = children_of(root, walked, d);
            let dirs = directories_at(root, walked, d);
            if kids.len() > 0 {
                assert(kids.contains(kids[0]));
                walked.lemma_filter_contains_rev(
                    |e: EntryView| taken(root, e) && e.parent == d,
                    kids[0],
                );
                let i = choose|i: int| 0 <= i < walked.len() && walked[i] == kids[0];
                assert(parents[i] == d);
            } else {
                assert(dirs.contains(dirs[0]));
                walked.lemma_filter_contains_rev(
                    |e: EntryView| taken(root, e) && e.is_dir && e.path == d,
                    dirs[0],
                );
                let i = choose|i: int| 0 <= i < walked.len() && walked[i] == dirs[0];
                assert(paths[i] == d);
            }
        }
    }
    lemma_set_subset_finite(all, gathered(root, walked).dom());
}

/// Every directory met has its group: a collected tree holds the root, and it
/// holds every directory that the walk met and took, though nothing may lie in
/// it.
pub proof fn lemma_directories_have_groups(
    root: Seq<char>,
    walked: Seq<EntryView>,
    tree: Map<Seq<char>, Seq<EntryView>>,
    i: int,
)
    requires
        collects(root, walked, tree),
        0 <= i < walked.len(),
        taken(root, walked[i]),
        walked[i].is_dir,
    ensures
        tree.contains_key(root),
        tree.contains_key(walked[i].path),
        children_of(root, walked, walked[i].path).len() == 0 ==> tree[walked[i].path].len() == 0,
{
    let d = walked[i].path;
    let here = |e: EntryView| taken(root, e) && e.is_dir && e.path == d;
    walked.lemma_filter_contains(here, i);
    assert(directories_at(root, walked, d).len() > 0);
    assert(gathered(root, walked).dom().contains(d));
    assert(gathered(root, walked).dom().contains(root));
    assert(tree.contains_key(d));
    lemma_sorted_entries_same(tree[d], children_of(root, walked, d));
    to_multiset_len(tree[d]);
    to_multiset_len(children_of(root, walked, d));
}

/// Whether a walk from `root` brings nothing from elsewhere: every entry that
/// is taken lies in the root or in a directory that the walk met and took.
pub open spec fn stays_below(root: Seq<char>, walked: Seq<EntryView>) -> bool {
    forall|i: int|
        0 <= i < walked.len() && taken(root, #[trigger] walked[i]) ==> walked[i].parent == root
            || directories_at(root, walked, walked[i].parent).len() > 0
}

/// The groups are those of the root and of the directories below it: where a
/// walk brings nothing from elsewhere, a collected tree holds, besides the
/// root, only directories that the walk met and took, and so no hidden one and
/// none above the root.
pub proof fn lemma_groups_stay_below(
    root: Seq<char>,
    walked: Seq<EntryView>,
    tree: Map<Seq<char>, Seq<EntryView>>,
    dir: Seq<char>,
)
    requires
        collects(root, walked, tree),
        stays_below(root, walked),
        tree.contains_key(dir),
        dir != root,
    ensures
        exists|i: int|
            0 <= i < walked.len() && taken(root, #[trigger] walked[i]) && walked[i].is_dir
                && walked[i].path == dir,
{
    assert(gathered(root, walked).dom().contains(dir));
    if directories_at(root, walked, dir).len() == 0 {
        let kids = children_of(root, walked, dir);
        assert(kids.contains(kids[0]));
        walked.lemma_filter_contains_rev(|e: EntryView| taken(root, e) && e.parent == dir, kids[0]);
        let i = choose|i: int| 0 <= i < walked.len() && walked[i] == kids[0];
        assert(taken(root, walked[i]) && walked[i].parent == dir);
    }
    let dirs = directories_at(root, walked, dir);
    assert(dirs.contains(dirs[0]));
    walked.lemma_filter_contains_rev(
        |e: EntryView| taken(root, e) && e.is_dir && e.path == dir,
        dirs[0],
    );
    let j = choose|j: int| 0 <= j < walked.len() && walked[j] == dirs[0];
    assert(taken(root, walked[j]) && walked[j].is_dir && walked[j].path == dir);
}

/// What a collected tree holds: every child of a directory is shown, is not the
/// root, lies in that directory, and was met on the walk; and the directory
/// holds each taken entry that the walk met in it as often as the walk met it.
pub proof fn lemma_collected_children(
    root: Seq<char>,
    walked: Seq<EntryView>,
    tree: Map<Seq<char>, Seq<EntryView>>,
    dir: Seq<char>,
)
    requires
        collects(root, walked, tree),
        tree.contains_key(dir),
    ensures
        tree[dir].to_multiset() == children_of(root, walked, dir).to_multiset(),
        forall|k: int|
            0 <= k < tree[dir].len() ==> taken(root, #[trigger] tree[dir][k])
                && tree[dir][k].parent == dir && walked.contains(tree[dir][k]),
{
    let kids = children_of(root, walked, dir);
    lemma_sorted_entries_same(tree[dir], kids);
    assert forall|k: int| 0 <= k < tree[dir].len() implies taken(root, #[trigger] tree[dir][k])
        && tree[dir][k].parent == dir && walked.contains(tree[dir][k]) by {
        let e = tree[dir][k];
        assert(tree[dir].contains(e));
        to_multiset_contains(tree[dir], e);
        to_multiset_contains(kids, e);
        walked.lemma_filter_contains_rev(|x: EntryView| taken(root, x) && x.parent == dir, e);
    }
}

/// The children of a directory stand in order: in a collected tree no file
/// stands before a directory of the same parent, and of two children of one
/// kind the one whose lowercase name is the lesser, or no greater, stands first.
pub proof fn lemma_siblings_ordered(
    root: Seq<char>,
    walked: Seq<EntryView>,
    tree: Map<Seq<char>, Seq<EntryView>>,
    dir: Seq<char>,
    i: int,
    j: int,
)
    requires
        collects(root, walked, tree),
        tree.contains_key(dir),
        0 <= i < j < tree[dir].len(),
    ensures
        tree[dir][j].is_dir ==> tree[dir][i].is_dir,
        tree[dir][i].is_dir == tree[dir][j].is_dir ==> lex_le(
            lowercase(tree[dir][i].file_name),
            lowercase(tree[dir][j].file_name),
        ),
{
    lemma_sorted_entries_ordered(tree[dir], children_of(root, walked, dir), i, j);
}

/// Collecting has one outcome: two trees that the same walk from the same root
/// collects are the same tree.
pub proof fn lemma_collect_unique(
    root: Seq<char>,
    walked: Seq<EntryView>,
    a: Map<Seq<char>, Seq<EntryView>>,
    b: Map<Seq<char>, Seq<EntryView>>,
)
    requires
        collects(root, walked, a),
        collects(root, walked, b),
    ensures
        a == b,
{
    assert forall|d: Seq<char>| a.contains_key(d) implies a[d] == b[d] by {
        assert(b.contains_key(d));
        lemma_sorted_entries_unique(a[d], b[d], children_of(root, walked, d));
    }
    assert(a =~= b);
}

} // verus!
