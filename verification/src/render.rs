//! The tree renderer: the lines of a tree, from a directory downwards, each with
//! the box-drawing prefix that shows where it hangs.

use crate::collect::{
    children, children_of, collects, directories_at, gathered, lemma_collect_unique,
    lemma_collected_children, lemma_gathered_finite, shown, stays_below, taken, DirectoryChildren,
};
use crate::entry::{views, Entry, EntryView};
use vstd::prelude::*;
use vstd::seq_lib::*;
use vstd::set_lib::*;
use vstd::string::*;

verus! {

/// One line of a rendered tree: the prefix that draws the branches, and the
/// entry that stands on the line.
#[derive(Debug)]
pub struct TreeLine {
    pub prefix: String,
    pub entry: Entry,
}

/// What a `TreeLine` holds, as mathematical values.
pub struct TreeLineView {
    pub prefix: Seq<char>,
    pub entry: EntryView,
}

impl View for TreeLine {
    type V = TreeLineView;

    open spec fn view(&self) -> TreeLineView {
        TreeLineView { prefix: self.prefix@, entry: self.entry@ }
    }
}

/// The views of a sequence of lines, in the same order.
pub open spec fn line_views(s: Seq<TreeLine>) -> Seq<TreeLineView> {
    s.map_values(|l: TreeLine| l@)
}

/// What one ancestor contributes to a prefix: blanks below an ancestor that was
/// the last child of its parent, a vertical bar below any other.
pub open spec fn indent_unit(was_last: bool) -> Seq<char> {
    if was_last {
        "    "@
    } else {
        "│   "@
    }
}

/// The connector in front of a name: an elbow for the last child, a tee for any
/// other.
pub open spec fn branch(is_last: bool) -> Seq<char> {
    if is_last {
        "└── "@
    } else {
        "├── "@
    }
}

/// The units of all ancestors, the outermost first.
pub open spec fn indent(stack: Seq<bool>) -> Seq<char>
    decreases stack.len(),
{
    if stack.len() == 0 {
        Seq::empty()
    } else {
        indent(stack.drop_last()) + indent_unit(stack.last())
    }
}

/// The prefix of the line of a child whose ancestors are recorded in `stack`.
pub open spec fn line_prefix(stack: Seq<bool>, is_last: bool) -> Seq<char> {
    indent(stack) + branch(is_last)
}

/// The text of a line: prefix and name, and for a file the separator and the
/// file's responsibility.
pub open spec fn line_text(line: TreeLineView, responsibility: Seq<char>) -> Seq<char> {
    if line.entry.is_dir {
        line.prefix + line.entry.file_name
    } else {
        line.prefix + line.entry.file_name + " - "@ + responsibility
    }
}

/// The directories of `tree` whose paths are at least as long as `dir`. The
/// renderer walks from a directory only into longer paths, so this set shrinks
/// with every step down.
pub open spec fn reach(tree: Map<Seq<char>, Seq<EntryView>>, dir: Seq<char>) -> Set<Seq<char>> {
    tree.dom().filter(|d: Seq<char>| d.len() >= dir.len())
}

/// Whether the renderer walks from `dir` into `child`: the child is a directory
/// and its path is longer than that of `dir`, as the path of everything that
/// lies in a directory is.
pub open spec fn enters(dir: Seq<char>, child: EntryView) -> bool {
    child.is_dir && dir.len() < child.path.len()
}

/// A step down makes the reach smaller.
pub proof fn lemma_reach_shrinks(
    tree: Map<Seq<char>, Seq<EntryView>>,
    dir: Seq<char>,
    below: Seq<char>,
)
    requires
        tree.dom().finite(),
        tree.contains_key(dir),
        dir.len() < below.len(),
    ensures
        reach(tree, below).len() < reach(tree, dir).len(),
{
    let big = reach(tree, dir);
    let small = reach(tree, below);
    tree.dom().lemma_len_filter(|d: Seq<char>| d.len() >= dir.len());
    lemma_set_subset_finite(tree.dom(), big);
    assert(small.subset_of(big));
    assert(big.contains(dir));
    assert(!small.contains(dir));
    small.lemma_subset_not_in_lt(big, dir);
}

/// The lines of the children of `dir` from the one at `i` on: for each child its
/// own line and then, if it is a directory, the lines of its subtree, one level
/// deeper.
pub open spec fn lines_from(
    tree: Map<Seq<char>, Seq<EntryView>>,
    dir: Seq<char>,
    stack: Seq<bool>,
    i: int,
) -> Seq<TreeLineView>
    decreases reach(tree, dir).len(), children(tree, dir).len() - i,
{
    let kids = children(tree, dir);
    if tree.dom().finite() && 0 <= i < kids.len() {
        let child = kids[i];
        let is_last = i == kids.len() - 1;
        let own = seq![TreeLineView { prefix: line_prefix(stack, is_last), entry: child }];
        let below = if enters(dir, child) {
            proof {
                lemma_reach_shrinks(tree, dir, child.path);
            }
            lines_from(tree, child.path, stack.push(is_last), 0)
        } else {
            Seq::empty()
        };
        own + below + lines_from(tree, dir, stack, i + 1)
    } else {
        Seq::empty()
    }
}

/// The lines of the subtree below `dir`, depth first: the lines of all its
/// children, and nothing if the tree does not hold `dir`.
pub open spec fn lines_at(
    tree: Map<Seq<char>, Seq<EntryView>>,
    dir: Seq<char>,
    stack: Seq<bool>,
) -> Seq<TreeLineView> {
    lines_from(tree, dir, stack, 0)
}

/// The prefix of the line of a child, from the record of its ancestors.
pub fn make_prefix(stack: &Vec<bool>, is_last: bool) -> (text: String)
    ensures
        text@ == line_prefix(stack@, is_last),
{
    let mut text = String::new();
    let mut i: usize = 0;
    assert(stack@.take(0) =~= Seq::<bool>::empty());
    while i < stack.len()
        invariant
            i <= stack.len(),
            text@ == indent(stack@.take(i as int)),
        decreases stack.len() - i,
    {
        if stack[i] {
            text.append("    ");
        } else {
            text.append("│   ");
        }
        proof {
            let next = stack@.take(i + 1);
            assert(next.drop_last() =~= stack@.take(i as int));
            assert(next.last() == stack@[i as int]);
        }
        i += 1;
    }
    assert(stack@.take(stack.len() as int) =~= stack@);
    if is_last {
        text.append("└── ");
    } else {
        text.append("├── ");
    }
    text
}

impl TreeLine {
    /// The text of the line. A file's line ends in its responsibility; a
    /// directory's line does not, and `responsibility` is not looked at.
    pub fn text(&self, responsibility: &str) -> (text: String)
        ensures
            text@ == line_text(self@, responsibility@),
    {
        let mut text = self.prefix.clone();
        text.append(self.entry.file_name.as_str());
        if !self.entry.is_dir {
            text.append(" - ");
            text.append(responsibility);
        }
        text
    }
}

/// Appends to `out` the lines of the subtree below `path`, depth first, each
/// child's line followed by the lines of what lies in it. `prefix` records, for
/// each ancestor of the lines written, whether it was the last child of its
/// parent; it is the same after the call as before.
pub fn print_tree(
    entries: &DirectoryChildren,
    path: &str,
    prefix: &mut Vec<bool>,
    out: &mut Vec<TreeLine>,
)
    requires
        entries.wf(),
    ensures
        final(prefix)@ == old(prefix)@,
        line_views(final(out)@) == line_views(old(out)@) + lines_at(
            entries@,
            path@,
            old(prefix)@,
        ),
    decreases reach(entries@, path@).len(),
{
    proof {
        entries.lemma_finite();
    }
    let ghost tree = entries@;
    let ghost stack = prefix@;
    let ghost start = line_views(out@);
    match entries.get(path) {
        None => {
            assert(line_views(out@) =~= start + Seq::<TreeLineView>::empty());
        },
        Some(children) => {
            let count = children.len();
            let depth = path.unicode_len();
            let mut i: usize = 0;
            assert(start =~= start + Seq::<TreeLineView>::empty());
            while i < count
                invariant
                    i <= count,
                    count == children.len(),
                    entries.wf(),
                    tree == entries@,
                    tree.dom().finite(),
                    tree.contains_key(path@),
                    views(children@) == tree[path@],
                    depth == path@.len(),
                    prefix@ == stack,
                    line_views(out@) + lines_from(tree, path@, stack, i as int) == start
                        + lines_from(tree, path@, stack, 0),
                decreases count - i,
            {
                let child = &children[i];
                let is_last = i == count - 1;
                let ghost lines_before = line_views(out@);
                let ghost own = TreeLineView { prefix: line_prefix(stack, is_last), entry: child@ };
                assert(tree[path@][i as int] == child@);
                out.push(TreeLine { prefix: make_prefix(prefix, is_last), entry: child.clone() });
                assert(line_views(out@) =~= lines_before + seq![own]);
                let ghost below = if enters(path@, child@) {
                    lines_at(tree, child@.path, stack.push(is_last))
                } else {
                    Seq::empty()
                };
                if child.is_dir && depth < child.path.as_str().unicode_len() {
                    proof {
                        lemma_reach_shrinks(tree, path@, child@.path);
                    }
                    prefix.push(is_last);
                    print_tree(entries, child.path.as_str(), prefix, out);
                    prefix.pop();
                    assert(prefix@ =~= stack);
                }
                proof {
                    assert(line_views(out@) =~= lines_before + seq![own] + below);
                    assert(lines_from(tree, path@, stack, i as int) =~= seq![own] + below
                        + lines_from(tree, path@, stack, i + 1));
                    assert(line_views(out@) + lines_from(tree, path@, stack, i + 1)
                        =~= lines_before + lines_from(tree, path@, stack, i as int));
                }
                i += 1;
            }
            assert(line_views(out@) =~= line_views(out@) + lines_from(
                tree,
                path@,
                stack,
                count as int,
            ));
        },
    }
}

/// A prefix is made of units of four characters: one for each ancestor, and one
/// for the connector.
pub proof fn lemma_prefix_len(stack: Seq<bool>, is_last: bool)
    ensures
        line_prefix(stack, is_last).len() == 4 * (stack.len() + 1),
    decreases stack.len(),
{
    reveal_strlit("    ");
    reveal_strlit("│   ");
    reveal_strlit("└── ");
    reveal_strlit("├── ");
    if stack.len() > 0 {
        lemma_prefix_len(stack.drop_last(), is_last);
    }
}

/// Whether `e` is a child of a directory of `tree` whose path has at least
/// `least` characters.
pub open spec fn holds(tree: Map<Seq<char>, Seq<EntryView>>, e: EntryView, least: nat) -> bool {
    exists|d: Seq<char>, k: int|
        tree.contains_key(d) && d.len() >= least && 0 <= k < tree[d].len() && tree[d][k] == e
}

/// Those of `lines` that stand directly below a directory whose ancestors
/// are recorded in `stack`: those whose prefix has one unit more than `stack`
/// has ancestors.
pub open spec fn child_lines(lines: Seq<TreeLineView>, stack: Seq<bool>) -> Seq<TreeLineView> {
    lines.filter(|l: TreeLineView| l.prefix.len() == 4 * (stack.len() + 1))
}

/// The entries that stand on `lines`, in the same order.
pub open spec fn entries_of(lines: Seq<TreeLineView>) -> Seq<EntryView> {
    lines.map_values(|l: TreeLineView| l.entry)
}

/// The entries of `s` that lie directly in `dir`, in the same order.
pub open spec fn lying_in(s: Seq<EntryView>, dir: Seq<char>) -> Seq<EntryView> {
    s.filter(|e: EntryView| e.parent == dir)
}

/// Every line below a directory shows a child of a directory whose path is no
/// shorter, and its prefix has at least one unit more than the directory has
/// ancestors.
proof fn lemma_lines_lie_below(
    tree: Map<Seq<char>, Seq<EntryView>>,
    dir: Seq<char>,
    stack: Seq<bool>,
    i: int,
)
    ensures
        forall|k: int|
            0 <= k < lines_from(tree, dir, stack, i).len() ==> holds(
                tree,
                (#[trigger] lines_from(tree, dir, stack, i)[k]).entry,
                dir.len(),
            ) && lines_from(tree, dir, stack, i)[k].prefix.len() >= 4 * (stack.len() + 1),
    decreases reach(tree, dir).len(), children(tree, dir).len() - i,
{
    let kids = children(tree, dir);
    if tree.dom().finite() && 0 <= i < kids.len() {
        let child = kids[i];
        let is_last = i == kids.len() - 1;
        let own = seq![TreeLineView { prefix: line_prefix(stack, is_last), entry: child }];
        let below = if enters(dir, child) {
            lines_from(tree, child.path, stack.push(is_last), 0)
        } else {
            Seq::empty()
        };
        let rest = lines_from(tree, dir, stack, i + 1);
        let rows = lines_from(tree, dir, stack, i);
        assert(rows == own + below + rest);
        lemma_prefix_len(stack, is_last);
        if enters(dir, child) {
            lemma_reach_shrinks(tree, dir, child.path);
            lemma_lines_lie_below(tree, child.path, stack.push(is_last), 0);
        }
        lemma_lines_lie_below(tree, dir, stack, i + 1);
        assert forall|k: int| 0 <= k < rows.len() implies holds(
            tree,
            (#[trigger] rows[k]).entry,
            dir.len(),
        ) && rows[k].prefix.len() >= 4 * (stack.len() + 1) by {
            if k < 1 {
                assert(rows[k] == own[0]);
                assert(tree.contains_key(dir) && tree[dir][i] == child);
            } else if k < 1 + below.len() {
                assert(rows[k] == below[k - 1]);
                let e = below[k - 1].entry;
                assert(holds(tree, e, child.path.len()));
                let (d, j) = choose|d: Seq<char>, j: int|
                    tree.contains_key(d) && d.len() >= child.path.len() && 0 <= j < tree[d].len()
                        && tree[d][j] == e;
                assert(tree.contains_key(d) && d.len() >= dir.len() && tree[d][j] == e);
            } else {
                assert(rows[k] == rest[k - 1 - below.len()]);
            }
        }
    }
}

/// One item is kept by a filter that it passes.
proof fn lemma_filter_one<A>(item: A, pred: spec_fn(A) -> bool)
    requires
        pred(item),
    ensures
        seq![item].filter(pred) == seq![item],
{
    let none = Seq::<A>::empty();
    assert(none.filter(pred) =~= none) by {
        reveal(Seq::filter);
    }
    none.lemma_filter_push(item, pred);
    assert(seq![item] =~= none.push(item));
}

/// A filter that no item of `s` passes keeps nothing.
proof fn lemma_filter_none<A>(s: Seq<A>, pred: spec_fn(A) -> bool)
    requires
        forall|k: int| 0 <= k < s.len() ==> !pred(#[trigger] s[k]),
    ensures
        s.filter(pred) == Seq::<A>::empty(),
{
    assert(s.all(|x: A| !pred(x)));
    s.lemma_all_neg_filter_empty(pred);
    assert(s.filter(pred) =~= Seq::<A>::empty());
}

/// Among the lines below a directory, those that stand directly below it show
/// the directory's children from the one at `i` on, each once and in order.
proof fn lemma_child_lines_from(
    tree: Map<Seq<char>, Seq<EntryView>>,
    dir: Seq<char>,
    stack: Seq<bool>,
    i: int,
)
    requires
        tree.dom().finite(),
        0 <= i <= children(tree, dir).len(),
    ensures
        entries_of(child_lines(lines_from(tree, dir, stack, i), stack)) == children(tree, dir).skip(
            i,
        ),
    decreases children(tree, dir).len() - i,
{
    let direct = |l: TreeLineView| l.prefix.len() == 4 * (stack.len() + 1);
    let kids = children(tree, dir);
    if i == kids.len() {
        lemma_filter_none(Seq::<TreeLineView>::empty(), direct);
        assert(entries_of(Seq::<TreeLineView>::empty()) =~= kids.skip(i));
    } else {
        let child = kids[i];
        let is_last = i == kids.len() - 1;
        let line = TreeLineView { prefix: line_prefix(stack, is_last), entry: child };
        let own = seq![line];
        let below = if enters(dir, child) {
            lines_from(tree, child.path, stack.push(is_last), 0)
        } else {
            Seq::empty()
        };
        let rest = lines_from(tree, dir, stack, i + 1);
        assert(lines_from(tree, dir, stack, i) == own + below + rest);
        assert(own.filter(direct) == own) by {
            lemma_prefix_len(stack, is_last);
            lemma_filter_one(line, direct);
        }
        assert(below.filter(direct) == Seq::<TreeLineView>::empty()) by {
            lemma_lines_lie_below(tree, child.path, stack.push(is_last), 0);
            assert forall|k: int| 0 <= k < below.len() implies !direct(#[trigger] below[k]) by {
                assert(below[k].prefix.len() >= 4 * (stack.push(is_last).len() + 1));
            }
            lemma_filter_none(below, direct);
        }
        lemma_child_lines_from(tree, dir, stack, i + 1);
        let kept = rest.filter(direct);
        assert(entries_of(kept) == kids.skip(i + 1));
        assert((own + below + rest).filter(direct) == own + kept) by {
            Seq::filter_distributes_over_add(own + below, rest, direct);
            Seq::filter_distributes_over_add(own, below, direct);
            assert(own + Seq::<TreeLineView>::empty() =~= own);
        }
        assert(entries_of(own + kept) =~= seq![child] + entries_of(kept));
        assert(kids.skip(i) =~= seq![child] + kids.skip(i + 1));
    }
}

/// In a collected tree, the lines below a directory that show an entry lying
/// in that directory show the directory's children from the one at `i` on, each
/// once and in order: no line further down shows an entry of the directory.
proof fn lemma_own_entries_from(
    root: Seq<char>,
    walked: Seq<EntryView>,
    tree: Map<Seq<char>, Seq<EntryView>>,
    dir: Seq<char>,
    stack: Seq<bool>,
    i: int,
)
    requires
        collects(root, walked, tree),
        0 <= i <= children(tree, dir).len(),
    ensures
        lying_in(entries_of(lines_from(tree, dir, stack, i)), dir) == children(tree, dir).skip(i),
    decreases children(tree, dir).len() - i,
{
    let here = |e: EntryView| e.parent == dir;
    let kids = children(tree, dir);
    lemma_gathered_finite(root, walked);
    if i == kids.len() {
        assert(entries_of(Seq::<TreeLineView>::empty()) =~= Seq::<EntryView>::empty());
        lemma_filter_none(Seq::<EntryView>::empty(), here);
        assert(kids.skip(i) =~= Seq::<EntryView>::empty());
    } else {
        let child = kids[i];
        let is_last = i == kids.len() - 1;
        let line = TreeLineView { prefix: line_prefix(stack, is_last), entry: child };
        let own = seq![line];
        let below = if enters(dir, child) {
            lines_from(tree, child.path, stack.push(is_last), 0)
        } else {
            Seq::empty()
        };
        let rest = lines_from(tree, dir, stack, i + 1);
        assert(lines_from(tree, dir, stack, i) == own + below + rest);
        let deeper = entries_of(below);
        let later = entries_of(rest);
        assert(entries_of(own + below + rest) =~= seq![child] + deeper + later);
        assert(seq![child].filter(here) == seq![child]) by {
            lemma_collected_children(root, walked, tree, dir);
            lemma_filter_one(child, here);
        }
        assert(deeper.filter(here) == Seq::<EntryView>::empty()) by {
            lemma_lines_lie_below(tree, child.path, stack.push(is_last), 0);
            assert forall|k: int| 0 <= k < deeper.len() implies !here(#[trigger] deeper[k]) by {
                let e = below[k].entry;
                assert(holds(tree, e, child.path.len()));
                let (d, j) = choose|d: Seq<char>, j: int|
                    tree.contains_key(d) && d.len() >= child.path.len() && 0 <= j < tree[d].len()
                        && tree[d][j] == e;
                lemma_collected_children(root, walked, tree, d);
            }
            lemma_filter_none(deeper, here);
        }
        lemma_own_entries_from(root, walked, tree, dir, stack, i + 1);
        assert((seq![child] + deeper + later).filter(here) == seq![child] + later.filter(here)) by {
            Seq::filter_distributes_over_add(seq![child] + deeper, later, here);
            Seq::filter_distributes_over_add(seq![child], deeper, here);
            assert(seq![child] + Seq::<EntryView>::empty() =~= seq![child]);
        }
        assert(kids.skip(i) =~= seq![child] + kids.skip(i + 1));
    }
}

/// Every shown entry of a directory has its line, and no hidden entry has one.
///
/// For a tree collected by a walk, any directory, and the lines below that
/// directory: the lines that stand directly below the directory show its
/// children, each once and in order; no line further down shows an entry that
/// lies in the directory; the children are the shown entries that the walk met
/// in the directory, each as often as the walk met it; and every line, at
/// whatever depth, shows an entry that the walk met and that is not hidden.
pub proof fn lemma_children_listed_once(
    root: Seq<char>,
    walked: Seq<EntryView>,
    tree: Map<Seq<char>, Seq<EntryView>>,
    dir: Seq<char>,
    stack: Seq<bool>,
)
    requires
        collects(root, walked, tree),
    ensures
        entries_of(child_lines(lines_at(tree, dir, stack), stack)) == children(tree, dir),
        lying_in(entries_of(lines_at(tree, dir, stack)), dir) == children(tree, dir),
        children(tree, dir).to_multiset() == children_of(root, walked, dir).to_multiset(),
        forall|k: int|
            0 <= k < lines_at(tree, dir, stack).len() ==> shown(
                (#[trigger] lines_at(tree, dir, stack)[k]).entry,
            ) && walked.contains(lines_at(tree, dir, stack)[k].entry),
{
    lemma_gathered_finite(root, walked);
    if tree.contains_key(dir) {
        lemma_collected_children(root, walked, tree, dir);
    } else {
        assert(!gathered(root, walked).dom().contains(dir));
        assert(children_of(root, walked, dir) =~= Seq::<EntryView>::empty());
    }
    lemma_child_lines_from(tree, dir, stack, 0);
    lemma_own_entries_from(root, walked, tree, dir, stack, 0);
    assert(children(tree, dir).skip(0) =~= children(tree, dir));
    lemma_lines_show_taken(root, walked, tree, dir, stack, 0);
}

/// Every line below a directory of a collected tree shows an entry that was
/// taken from the walk and that lies in a directory of the tree.
proof fn lemma_lines_show_taken(
    root: Seq<char>,
    walked: Seq<EntryView>,
    tree: Map<Seq<char>, Seq<EntryView>>,
    dir: Seq<char>,
    stack: Seq<bool>,
    i: int,
)
    requires
        collects(root, walked, tree),
    ensures
        forall|k: int|
            0 <= k < lines_from(tree, dir, stack, i).len() ==> {
                let e = (#[trigger] lines_from(tree, dir, stack, i)[k]).entry;
                &&& taken(root, e)
                &&& walked.contains(e)
                &&& tree.contains_key(e.parent)
                &&& e.parent.len() >= dir.len()
            },
{
    lemma_lines_lie_below(tree, dir, stack, i);
    let lines = lines_from(tree, dir, stack, i);
    assert forall|k: int| 0 <= k < lines.len() implies {
        let e = (#[trigger] lines[k]).entry;
        &&& taken(root, e)
        &&& walked.contains(e)
        &&& tree.contains_key(e.parent)
        &&& e.parent.len() >= dir.len()
    } by {
        let e = lines[k].entry;
        assert(holds(tree, e, dir.len()));
        let (d, j) = choose|d: Seq<char>, j: int|
            tree.contains_key(d) && d.len() >= dir.len() && 0 <= j < tree[d].len() && tree[d][j]
                == e;
        lemma_collected_children(root, walked, tree, d);
    }
}

/// Two runs give the same lines: trees that the same walk from the same root
/// collects are rendered alike.
pub proof fn lemma_same_walk_same_lines(
    root: Seq<char>,
    walked: Seq<EntryView>,
    a: Map<Seq<char>, Seq<EntryView>>,
    b: Map<Seq<char>, Seq<EntryView>>,
    dir: Seq<char>,
    stack: Seq<bool>,
)
    requires
        collects(root, walked, a),
        collects(root, walked, b),
    ensures
        lines_at(a, dir, stack) == lines_at(b, dir, stack),
{
    lemma_collect_unique(root, walked, a, b);
}

/// How many of `lines` show `x`.
pub open spec fn lines_showing(lines: Seq<TreeLineView>, x: EntryView) -> nat {
    lines.filter(|l: TreeLineView| l.entry == x).len()
}

/// How many of `lines` show a directory at `dir` that the renderer walks into.
pub open spec fn steps_into(lines: Seq<TreeLineView>, dir: Seq<char>) -> nat {
    lines.filter(|l: TreeLineView| l.entry.path == dir && enters(l.entry.parent, l.entry)).len()
}

/// Whether `e` is the entry `x`.
pub open spec fn is_entry(e: EntryView, x: EntryView) -> bool {
    e == x
}

/// How often `s` holds `x`.
pub open spec fn times(s: Seq<EntryView>, x: EntryView) -> nat {
    s.filter(|e: EntryView| is_entry(e, x)).len()
}

/// Whether every entry taken from a walk lies deeper than the directory that
/// holds it: its path is longer than that of its parent.
pub open spec fn descends(root: Seq<char>, walked: Seq<EntryView>) -> bool {
    forall|i: int|
        0 <= i < walked.len() && taken(root, #[trigger] walked[i]) ==> walked[i].parent.len()
            < walked[i].path.len()
}

/// Whether a walk met no path twice among the entries that are taken.
pub open spec fn meets_once(root: Seq<char>, walked: Seq<EntryView>) -> bool {
    forall|i: int, j: int|
        0 <= i < walked.len() && 0 <= j < walked.len() && taken(root, #[trigger] walked[i])
            && walked[i].path == (#[trigger] walked[j]).path ==> i == j
}

/// Filters that agree on every item of `s` keep the same.
proof fn lemma_filter_alike<A>(s: Seq<A>, p: spec_fn(A) -> bool, q: spec_fn(A) -> bool)
    requires
        forall|k: int| 0 <= k < s.len() ==> p(#[trigger] s[k]) == q(s[k]),
    ensures
        s.filter(p) == s.filter(q),
    decreases s.len(),
{
    if s.len() == 0 {
        lemma_filter_none(s, p);
        lemma_filter_none(s, q);
    } else {
        let s0 = s.drop_last();
        assert(s =~= s0.push(s.last()));
        assert forall|k: int| 0 <= k < s0.len() implies p(#[trigger] s0[k]) == q(s0[k]) by {
            assert(s0[k] == s[k]);
        }
        lemma_filter_alike(s0, p, q);
        s0.lemma_filter_push(s.last(), p);
        s0.lemma_filter_push(s.last(), q);
        assert(p(s[s.len() - 1]) == q(s[s.len() - 1]));
    }
}

/// What a filter keeps of three sequences in a row is as much as it keeps of
/// each.
proof fn lemma_filter_three<A>(a: Seq<A>, b: Seq<A>, c: Seq<A>, p: spec_fn(A) -> bool)
    ensures
        (a + b + c).filter(p).len() == a.filter(p).len() + b.filter(p).len() + c.filter(p).len(),
{
    Seq::filter_distributes_over_add(a + b, c, p);
    Seq::filter_distributes_over_add(a, b, p);
}

/// A sequence holds `x` as often as its multiset counts it.
proof fn lemma_times_is_count(s: Seq<EntryView>, x: EntryView)
    ensures
        times(s, x) == s.to_multiset().count(x),
    decreases s.len(),
{
    let same = |e: EntryView| is_entry(e, x);
    if s.len() == 0 {
        lemma_filter_none(s, same);
        to_multiset_contains(s, x);
    } else {
        let s0 = s.drop_last();
        let last = s.last();
        assert(s =~= s0.push(last));
        lemma_times_is_count(s0, x);
        s0.lemma_filter_push(last, same);
        to_multiset_build(s0, last);
        assert(times(s0, x) == s0.filter(same).len());
        assert(times(s, x) == s0.push(last).filter(same).len());
        assert(s.to_multiset().count(x) == s0.to_multiset().insert(last).count(x));
        assert(s0.to_multiset().insert(last).count(x) == s0.to_multiset().count(x) + (if last
            == x {
            1nat
        } else {
            0nat
        }));
    }
}

/// A filter that `x` passes keeps `x` as often as it was there.
proof fn lemma_times_kept(s: Seq<EntryView>, p: spec_fn(EntryView) -> bool, x: EntryView)
    requires
        p(x),
    ensures
        times(s.filter(p), x) == times(s, x),
    decreases s.len(),
{
    let same = |e: EntryView| is_entry(e, x);
    if s.len() == 0 {
        lemma_filter_none(s, p);
        assert(s.filter(p) =~= s);
    } else {
        let s0 = s.drop_last();
        let last = s.last();
        assert(s =~= s0.push(last));
        lemma_times_kept(s0, p, x);
        s0.lemma_filter_push(last, p);
        s0.lemma_filter_push(last, same);
        s0.filter(p).lemma_filter_push(last, same);
        assert(times(s0, x) == s0.filter(same).len());
        assert(times(s0.filter(p), x) == s0.filter(p).filter(same).len());
        assert(times(s, x) == s0.push(last).filter(same).len());
        assert(times(s.filter(p), x) == s0.push(last).filter(p).filter(same).len());
        if last == x {
            assert(p(last));
        }
    }
}

/// A sequence that holds `x` at one place and nowhere else holds it once.
proof fn lemma_times_once(s: Seq<EntryView>, x: EntryView, i: int)
    requires
        0 <= i < s.len(),
        s[i] == x,
        forall|j: int| 0 <= j < s.len() && j != i ==> #[trigger] s[j] != x,
    ensures
        times(s, x) == 1,
    decreases s.len(),
{
    let same = |e: EntryView| is_entry(e, x);
    let s0 = s.drop_last();
    assert(s =~= s0.push(s.last()));
    s0.lemma_filter_push(s.last(), same);
    assert(times(s, x) == s0.push(s.last()).filter(same).len());
    assert(times(s0, x) == s0.filter(same).len());
    if i == s.len() - 1 {
        assert forall|k: int| 0 <= k < s0.len() implies !same(#[trigger] s0[k]) by {
            assert(s0[k] == s[k]);
        }
        lemma_filter_none(s0, same);
    } else {
        assert(s[s.len() - 1] != x);
        assert forall|j: int| 0 <= j < s0.len() && j != i implies #[trigger] s0[j] != x by {
            assert(s0[j] == s[j]);
        }
        lemma_times_once(s0, x, i);
    }
}

/// The lines below a directory show `x` as often as the directory holds it
/// itself, and beyond that as often as the directory of `x` holds it, each time
/// that the lines step into that directory.
proof fn lemma_showing_from(
    root: Seq<char>,
    walked: Seq<EntryView>,
    tree: Map<Seq<char>, Seq<EntryView>>,
    dir: Seq<char>,
    stack: Seq<bool>,
    i: int,
    x: EntryView,
)
    requires
        collects(root, walked, tree),
        0 <= i <= children(tree, dir).len(),
    ensures
        lines_showing(lines_from(tree, dir, stack, i), x) == (if x.parent == dir {
            times(children(tree, dir).skip(i), x)
        } else {
            0
        }) + times(children(tree, x.parent), x) * steps_into(
            lines_from(tree, dir, stack, i),
            x.parent,
        ),
    decreases reach(tree, dir).len(), children(tree, dir).len() - i,
{
    let shows = |l: TreeLineView| l.entry == x;
    let steps = |l: TreeLineView| l.entry.path == x.parent && enters(l.entry.parent, l.entry);
    let same = |e: EntryView| is_entry(e, x);
    let kids = children(tree, dir);
    let m = times(children(tree, x.parent), x);
    lemma_gathered_finite(root, walked);
    if i == kids.len() {
        lemma_filter_none(Seq::<TreeLineView>::empty(), shows);
        lemma_filter_none(Seq::<TreeLineView>::empty(), steps);
        assert(kids.skip(i) =~= Seq::<EntryView>::empty());
        lemma_filter_none(Seq::<EntryView>::empty(), same);
        assert(m * 0 == 0) by (nonlinear_arith);
    } else {
        let child = kids[i];
        let is_last = i == kids.len() - 1;
        let line = TreeLineView { prefix: line_prefix(stack, is_last), entry: child };
        let own = seq![line];
        let below = if enters(dir, child) {
            lines_from(tree, child.path, stack.push(is_last), 0)
        } else {
            Seq::empty()
        };
        let rest = lines_from(tree, dir, stack, i + 1);
        assert(lines_from(tree, dir, stack, i) == own + below + rest);
        lemma_collected_children(root, walked, tree, dir);
        assert(child.parent == dir);
        lemma_filter_three(own, below, rest, shows);
        lemma_filter_three(own, below, rest, steps);
        // the line of the child itself
        let own_shows: nat = if child == x { 1 } else { 0 };
        let own_steps: nat = if child.path == x.parent && enters(dir, child) { 1 } else { 0 };
        assert(own.filter(shows).len() == own_shows) by {
            if child == x {
                lemma_filter_one(line, shows);
            } else {
                lemma_filter_none(own, shows);
            }
        }
        assert(own.filter(steps).len() == own_steps) by {
            if child.path == x.parent && enters(dir, child) {
                lemma_filter_one(line, steps);
            } else {
                lemma_filter_none(own, steps);
            }
        }
        // the lines below the child
        let below_shows = below.filter(shows).len();
        let below_steps = below.filter(steps).len();
        if enters(dir, child) {
            lemma_reach_shrinks(tree, dir, child.path);
            lemma_showing_from(root, walked, tree, child.path, stack.push(is_last), 0, x);
            assert(children(tree, child.path).skip(0) =~= children(tree, child.path));
        } else {
            lemma_filter_none(below, shows);
            lemma_filter_none(below, steps);
        }
        assert(below_shows == (if enters(dir, child) && x.parent == child.path {
            m
        } else {
            0
        }) + m * below_steps) by {
            assert(m * 0 == 0) by (nonlinear_arith);
        }
        // the lines of the later children
        lemma_showing_from(root, walked, tree, dir, stack, i + 1, x);
        let rest_steps = rest.filter(steps).len();
        let later: nat = if x.parent == dir { times(kids.skip(i + 1), x) } else { 0 };
        assert(rest.filter(shows).len() == later + m * rest_steps);
        // what the directory holds from `i` on
        assert((if x.parent == dir { times(kids.skip(i), x) } else { 0 }) == own_shows + later)
            by {
            assert(kids.skip(i) =~= seq![child] + kids.skip(i + 1));
            Seq::filter_distributes_over_add(seq![child], kids.skip(i + 1), same);
            assert(times(kids.skip(i), x) == (seq![child] + kids.skip(i + 1)).filter(same).len());
            assert(times(kids.skip(i + 1), x) == kids.skip(i + 1).filter(same).len());
            if child == x {
                lemma_filter_one(child, same);
            } else {
                lemma_filter_none(seq![child], same);
            }
        }
        assert(m * (own_steps + below_steps + rest_steps) == m * own_steps + m * below_steps + m
            * rest_steps) by (nonlinear_arith);
        assert(m * own_steps == (if enters(dir, child) && x.parent == child.path { m } else { 0 }))
            by {
            assert(m * 1 == m) by (nonlinear_arith);
            assert(m * 0 == 0) by (nonlinear_arith);
        }
    }
}

/// Every entry of a walk has one line in the whole tree, and only one.
///
/// Take a walk that brings nothing from elsewhere, in which every entry lies
/// deeper than its directory and no path is met twice. Then among the lines
/// below the root there is, for every entry that is taken, exactly one that
/// shows it.
pub proof fn lemma_every_entry_has_one_line(
    root: Seq<char>,
    walked: Seq<EntryView>,
    tree: Map<Seq<char>, Seq<EntryView>>,
    stack: Seq<bool>,
    i: int,
)
    requires
        collects(root, walked, tree),
        stays_below(root, walked),
        descends(root, walked),
        meets_once(root, walked),
        0 <= i < walked.len(),
        taken(root, walked[i]),
    ensures
        lines_showing(lines_at(tree, root, stack), walked[i]) == 1,
    decreases walked[i].path.len(),
{
    let x = walked[i];
    let q = x.parent;
    let lines = lines_at(tree, root, stack);
    let in_q = |e: EntryView| taken(root, e) && e.parent == q;
    // the directory of `x` holds it once
    walked.lemma_filter_contains(in_q, i);
    assert(children_of(root, walked, q).len() > 0);
    assert(gathered(root, walked).dom().contains(q));
    assert(tree.contains_key(q));
    assert(times(tree[q], x) == 1) by {
        lemma_collected_children(root, walked, tree, q);
        lemma_times_is_count(tree[q], x);
        lemma_times_is_count(children_of(root, walked, q), x);
        lemma_times_kept(walked, in_q, x);
        assert forall|j: int| 0 <= j < walked.len() && j != i implies #[trigger] walked[j]
            != x by {
            if walked[j] == x {
                assert(walked[i].path == walked[j].path);
            }
        }
        lemma_times_once(walked, x, i);
    }
    lemma_showing_from(root, walked, tree, root, stack, 0, x);
    lemma_lines_show_taken(root, walked, tree, root, stack, 0);
    assert(children(tree, root).skip(0) =~= children(tree, root));
    let steps = |l: TreeLineView| l.entry.path == q && enters(l.entry.parent, l.entry);
    if q == root {
        assert forall|k: int| 0 <= k < lines.len() implies !steps(#[trigger] lines[k]) by {}
        lemma_filter_none(lines, steps);
        assert(1 * 0 == 0) by (nonlinear_arith);
    } else {
        let dirs = directories_at(root, walked, q);
        assert(dirs.len() > 0);
        assert(dirs.contains(dirs[0]));
        walked.lemma_filter_contains_rev(
            |e: EntryView| taken(root, e) && e.is_dir && e.path == q,
            dirs[0],
        );
        let j = choose|j: int| 0 <= j < walked.len() && walked[j] == dirs[0];
        let y = walked[j];
        assert(taken(root, y) && y.is_dir && y.path == q);
        let shows_y = |l: TreeLineView| l.entry == y;
        assert forall|k: int| 0 <= k < lines.len() implies steps(#[trigger] lines[k]) == shows_y(
            lines[k],
        ) by {
            let e = lines[k].entry;
            if e.path == q {
                let n = choose|n: int| 0 <= n < walked.len() && walked[n] == e;
                assert(walked[n].path == walked[j].path);
            }
        }
        lemma_filter_alike(lines, steps, shows_y);
        lemma_every_entry_has_one_line(root, walked, tree, stack, j);
        assert(1 * 1 == 1) by (nonlinear_arith);
    }
}

/// The directory that a walk met at `dir`: a taken directory with that path,
/// if the walk met one.
pub open spec fn directory_at(root: Seq<char>, walked: Seq<EntryView>, dir: Seq<char>) -> EntryView {
    choose|y: EntryView| walked.contains(y) && taken(root, y) && y.is_dir && y.path == dir
}

/// How many directories deep below the root `dir` lies: the root itself not at
/// all, a directory that the walk met one deeper than the directory that holds
/// it.
pub open spec fn level(root: Seq<char>, walked: Seq<EntryView>, dir: Seq<char>) -> nat
    decreases dir.len(),
{
    let met = directory_at(root, walked, dir);
    if dir != root && walked.contains(met) && taken(root, met) && met.is_dir && met.path == dir
        && met.parent.len() < dir.len() {
        1 + level(root, walked, met.parent)
    } else {
        0
    }
}

/// Below a directory every line has a prefix of one unit, one more for each
/// ancestor on record, and one more for each directory that lies between.
proof fn lemma_prefix_by_level_from(
    root: Seq<char>,
    walked: Seq<EntryView>,
    tree: Map<Seq<char>, Seq<EntryView>>,
    dir: Seq<char>,
    stack: Seq<bool>,
    i: int,
)
    requires
        collects(root, walked, tree),
        descends(root, walked),
        meets_once(root, walked),
    ensures
        forall|k: int|
            0 <= k < lines_from(tree, dir, stack, i).len() ==> (#[trigger] lines_from(
                tree,
                dir,
                stack,
                i,
            )[k]).prefix.len() + 4 * level(root, walked, dir) == 4 * (stack.len() + 1 + level(
                root,
                walked,
                lines_from(tree, dir, stack, i)[k].entry.parent,
            )),
    decreases reach(tree, dir).len(), children(tree, dir).len() - i,
{
    let kids = children(tree, dir);
    lemma_gathered_finite(root, walked);
    if 0 <= i < kids.len() {
        let child = kids[i];
        let is_last = i == kids.len() - 1;
        let own = seq![TreeLineView { prefix: line_prefix(stack, is_last), entry: child }];
        let below = if enters(dir, child) {
            lines_from(tree, child.path, stack.push(is_last), 0)
        } else {
            Seq::empty()
        };
        let rest = lines_from(tree, dir, stack, i + 1);
        let lines = lines_from(tree, dir, stack, i);
        assert(lines == own + below + rest);
        lemma_prefix_len(stack, is_last);
        lemma_collected_children(root, walked, tree, dir);
        assert(child.parent == dir && taken(root, child) && walked.contains(child));
        if enters(dir, child) {
            lemma_reach_shrinks(tree, dir, child.path);
            lemma_prefix_by_level_from(root, walked, tree, child.path, stack.push(is_last), 0);
            let met = directory_at(root, walked, child.path);
            assert(walked.contains(met) && taken(root, met) && met.is_dir && met.path
                == child.path);
            let a = choose|a: int| 0 <= a < walked.len() && walked[a] == child;
            let b = choose|b: int| 0 <= b < walked.len() && walked[b] == met;
            assert(walked[a].path == walked[b].path);
            assert(met == child);
            assert(level(root, walked, child.path) == 1 + level(root, walked, dir));
        }
        lemma_prefix_by_level_from(root, walked, tree, dir, stack, i + 1);
        assert forall|k: int| 0 <= k < lines.len() implies (#[trigger] lines[k]).prefix.len() + 4
            * level(root, walked, dir) == 4 * (stack.len() + 1 + level(
            root,
            walked,
            lines[k].entry.parent,
        )) by {
            if k < 1 {
                assert(lines[k] == own[0]);
            } else if k < 1 + below.len() {
                assert(lines[k] == below[k - 1]);
            } else {
                assert(lines[k] == rest[k - 1 - below.len()]);
            }
        }
    }
}

/// The prefix of a line tells how deep its entry lies.
///
/// Take a walk in which every entry lies deeper than its directory and no path
/// is met twice. Then the prefix of every line below the root has one unit, one
/// more for each ancestor on record at the start, and one more for each
/// directory that lies between the root and the entry that the line shows.
pub proof fn lemma_prefix_by_level(
    root: Seq<char>,
    walked: Seq<EntryView>,
    tree: Map<Seq<char>, Seq<EntryView>>,
    stack: Seq<bool>,
)
    requires
        collects(root, walked, tree),
        descends(root, walked),
        meets_once(root, walked),
    ensures
        forall|k: int|
            0 <= k < lines_at(tree, root, stack).len() ==> (#[trigger] lines_at(
                tree,
                root,
                stack,
            )[k]).prefix.len() == 4 * (stack.len() + 1 + level(
                root,
                walked,
                lines_at(tree, root, stack)[k].entry.parent,
            )),
{
    lemma_prefix_by_level_from(root, walked, tree, root, stack, 0);
    assert(level(root, walked, root) == 0);
}

} // verus!
