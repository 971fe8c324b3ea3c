//! The order of a directory's children: directories before files, and among
//! entries of one kind the names ascending without regard to case.
//!
//! Entries are ordered by keys. The sort works on entries that carry their keys
//! with them, whatever the keys are; the children of a directory get their names
//! in lowercase for keys.

use crate::entry::{views, Entry, EntryView};
use crate::text::{
    chars_of, lemma_lex_le_total, lemma_lex_le_transitive, lex_le, lex_le_chars, lowercase,
    to_lowercase,
};
use vstd::prelude::*;
use vstd::seq_lib::*;

verus! {

/// An entry with the key that stands for its name where entries are ordered.
#[derive(Debug)]
pub struct Keyed {
    pub entry: Entry,
    pub key: Vec<char>,
}

/// What a `Keyed` holds, as mathematical values.
pub struct KeyedView {
    pub entry: EntryView,
    pub key: Seq<char>,
}

impl View for Keyed {
    type V = KeyedView;

    open spec fn view(&self) -> KeyedView {
        KeyedView { entry: self.entry@, key: self.key@ }
    }
}

/// The views of a sequence of keyed entries, in the same order.
pub open spec fn key_views(s: Seq<Keyed>) -> Seq<KeyedView> {
    s.map_values(|k: Keyed| k@)
}

/// Whether `a` may stand before `b`: a directory before a file; among entries of
/// one kind the one whose key is not the greater.
pub open spec fn precedes(a: KeyedView, b: KeyedView) -> bool {
    if a.entry.is_dir == b.entry.is_dir {
        lex_le(a.key, b.key)
    } else {
        a.entry.is_dir
    }
}

/// Entries that the order does not tell apart: each may stand before the other.
pub open spec fn ties(a: KeyedView, b: KeyedView) -> bool {
    precedes(a, b) && precedes(b, a)
}

/// Every entry of `s` may stand before every later one.
pub open spec fn ordered(s: Seq<KeyedView>) -> bool {
    forall|i: int, j: int| 0 <= i < j < s.len() ==> precedes(s[i], s[j])
}

/// The entries of `s` that tie with `x`, in the order in which `s` holds them.
pub open spec fn tied_with(s: Seq<KeyedView>, x: KeyedView) -> Seq<KeyedView> {
    s.filter(|e: KeyedView| ties(e, x))
}

/// `out` is `inp` sorted without disturbing ties: it is ordered, it holds the
/// same entries as often, and entries that tie follow each other as in `inp`.
pub open spec fn stably_sorted(out: Seq<KeyedView>, inp: Seq<KeyedView>) -> bool {
    &&& ordered(out)
    &&& out.to_multiset() == inp.to_multiset()
    &&& forall|x: KeyedView| #[trigger] tied_with(out, x) == tied_with(inp, x)
}

/// Of two entries, one may stand before the other.
pub proof fn lemma_precedes_total(a: KeyedView, b: KeyedView)
    ensures
        precedes(a, b) || precedes(b, a),
{
    lemma_lex_le_total(a.key, b.key);
}

/// If `a` may stand before `b` and `b` before `c`, then `a` may stand before `c`.
pub proof fn lemma_precedes_transitive(a: KeyedView, b: KeyedView, c: KeyedView)
    requires
        precedes(a, b),
        precedes(b, c),
    ensures
        precedes(a, c),
{
    if a.entry.is_dir == b.entry.is_dir && b.entry.is_dir == c.entry.is_dir {
        lemma_lex_le_transitive(a.key, b.key, c.key);
    }
}

/// Two ordered sequences that hold the same entries as often, and hold tying
/// entries in the same succession, are the same sequence.
proof fn lemma_same_arrangement(a: Seq<KeyedView>, b: Seq<KeyedView>)
    requires
        ordered(a),
        ordered(b),
        a.to_multiset() == b.to_multiset(),
        forall|x: KeyedView| #[trigger] tied_with(a, x) == tied_with(b, x),
    ensures
        a == b,
    decreases a.len(),
{
    to_multiset_len(a);
    to_multiset_len(b);
    if a.len() == 0 {
        assert(a =~= b);
    } else {
        let la = a.last();
        let lb = b.last();
        let a0 = a.drop_last();
        let b0 = b.drop_last();
        assert(a =~= a0.push(la));
        assert(b =~= b0.push(lb));
        lemma_precedes_total(la, la);
        lemma_precedes_total(lb, lb);
        assert(precedes(lb, la)) by {
            to_multiset_contains(a, lb);
            to_multiset_contains(b, lb);
            assert(b[b.len() - 1] == lb);
            assert(b.contains(lb));
            let k = choose|k: int| 0 <= k < a.len() && a[k] == lb;
            if k < a.len() - 1 {
                assert(precedes(a[k], a[a.len() - 1]));
            }
        }
        assert(precedes(la, lb)) by {
            to_multiset_contains(a, la);
            to_multiset_contains(b, la);
            assert(a[a.len() - 1] == la);
            assert(a.contains(la));
            let k = choose|k: int| 0 <= k < b.len() && b[k] == la;
            if k < b.len() - 1 {
                assert(precedes(b[k], b[b.len() - 1]));
            }
        }
        assert(la == lb) by {
            let pred = |e: KeyedView| ties(e, la);
            a0.lemma_filter_push(la, pred);
            b0.lemma_filter_push(lb, pred);
            assert(tied_with(a, la) == tied_with(b, la));
            assert(a0.filter(pred).push(la).last() == b0.filter(pred).push(lb).last());
        }
        assert forall|y: KeyedView| #[trigger] tied_with(a0, y) == tied_with(b0, y) by {
            let pred = |e: KeyedView| ties(e, y);
            a0.lemma_filter_push(la, pred);
            b0.lemma_filter_push(lb, pred);
            assert(tied_with(a, y) == tied_with(b, y));
            if pred(la) {
                assert(a0.filter(pred) =~= a0.filter(pred).push(la).drop_last());
                assert(b0.filter(pred) =~= b0.filter(pred).push(lb).drop_last());
            }
        }
        assert(a0.to_multiset() =~= b0.to_multiset()) by {
            to_multiset_build(a0, la);
            to_multiset_build(b0, lb);
            assert(a0.to_multiset() =~= a0.to_multiset().insert(la).remove(la));
            assert(b0.to_multiset() =~= b0.to_multiset().insert(lb).remove(lb));
        }
        assert(ordered(a0)) by {
            assert forall|i: int, j: int| 0 <= i < j < a0.len() implies precedes(a0[i], a0[j]) by {
                assert(precedes(a[i], a[j]));
            }
        }
        assert(ordered(b0)) by {
            assert forall|i: int, j: int| 0 <= i < j < b0.len() implies precedes(b0[i], b0[j]) by {
                assert(precedes(b[i], b[j]));
            }
        }
        lemma_same_arrangement(a0, b0);
    }
}

/// Sorting has one outcome: two sequences that are both `inp` sorted without
/// disturbing ties are the same sequence.
pub proof fn lemma_stably_sorted_unique(a: Seq<KeyedView>, b: Seq<KeyedView>, inp: Seq<KeyedView>)
    requires
        stably_sorted(a, inp),
        stably_sorted(b, inp),
    ensures
        a == b,
{
    assert forall|x: KeyedView| #[trigger] tied_with(a, x) == tied_with(b, x) by {
        assert(tied_with(a, x) == tied_with(inp, x));
        assert(tied_with(b, x) == tied_with(inp, x));
    }
    lemma_same_arrangement(a, b);
}

/// Putting `x` behind the entries that may stand before it, and in front of the
/// others, keeps a sorted sequence sorted and its ties undisturbed.
proof fn lemma_insert_keeps_sorted(t: Seq<KeyedView>, inp: Seq<KeyedView>, p: int, x: KeyedView)
    requires
        stably_sorted(t, inp),
        0 <= p <= t.len(),
        forall|j: int| 0 <= j < p ==> precedes(#[trigger] t[j], x),
        forall|j: int| p <= j < t.len() ==> !precedes(#[trigger] t[j], x),
    ensures
        stably_sorted(t.insert(p, x), inp.push(x)),
{
    let t2 = t.insert(p, x);
    assert forall|i: int, j: int| 0 <= i < j < t2.len() implies precedes(t2[i], t2[j]) by {
        if i == p {
            assert(t2[j] == t[j - 1]);
            lemma_precedes_total(x, t[j - 1]);
        } else if j == p {
            assert(t2[i] == t[i]);
        } else {
            let i0 = if i < p { i } else { i - 1 };
            let j0 = if j < p { j } else { j - 1 };
            assert(t2[i] == t[i0] && t2[j] == t[j0]);
        }
    }
    assert(t2.to_multiset() == inp.push(x).to_multiset()) by {
        to_multiset_insert(t, p, x);
        to_multiset_build(inp, x);
    }
    assert forall|y: KeyedView| #[trigger] tied_with(t2, y) == tied_with(inp.push(x), y) by {
        let pred = |e: KeyedView| ties(e, y);
        let a = t.take(p);
        let b = t.skip(p);
        let one = seq![x];
        assert(t =~= a + b);
        assert(t2 =~= (a + one) + b);
        Seq::filter_distributes_over_add(a, b, pred);
        Seq::filter_distributes_over_add(a + one, b, pred);
        Seq::filter_distributes_over_add(a, one, pred);
        assert(one =~= Seq::<KeyedView>::empty().push(x));
        Seq::<KeyedView>::empty().lemma_filter_push(x, pred);
        assert(Seq::<KeyedView>::empty().filter(pred) =~= Seq::<KeyedView>::empty()) by {
            reveal(Seq::filter);
        }
        inp.lemma_filter_push(x, pred);
        assert(tied_with(t, y) == tied_with(inp, y));
        if ties(x, y) {
            assert forall|k: int| 0 <= k < b.len() implies !pred(#[trigger] b[k]) by {
                assert(b[k] == t[p + k]);
                if ties(b[k], y) {
                    lemma_precedes_transitive(b[k], y, x);
                }
            }
            assert(b.all(|e: KeyedView| !pred(e)));
            b.lemma_all_neg_filter_empty(pred);
            assert(b.filter(pred) =~= Seq::<KeyedView>::empty());
            assert(t2.filter(pred) =~= a.filter(pred).push(x));
            assert(t.filter(pred) =~= a.filter(pred));
        } else {
            assert(one.filter(pred) =~= Seq::<KeyedView>::empty());
            assert(t2.filter(pred) =~= a.filter(pred) + b.filter(pred));
        }
    }
}

/// Whether `a` may stand before `b` among the children of one directory.
pub fn keyed_precedes(a: &Keyed, b: &Keyed) -> (r: bool)
    ensures
        r == precedes(a@, b@),
{
    if a.entry.is_dir != b.entry.is_dir {
        a.entry.is_dir
    } else {
        lex_le_chars(&a.key, &b.key)
    }
}

/// The place of the entry at `i` among the ordered entries before it: behind
/// those that may stand before it, in front of the others.
fn insertion_point(v: &Vec<Keyed>, i: usize) -> (p: usize)
    requires
        i < v.len(),
        ordered(key_views(v@).take(i as int)),
    ensures
        p <= i,
        forall|j: int| 0 <= j < p ==> precedes(#[trigger] key_views(v@)[j], v[i as int]@),
        forall|j: int| p <= j < i ==> !precedes(#[trigger] key_views(v@)[j], v[i as int]@),
{
    let ghost vw = key_views(v@);
    let ghost x = v[i as int]@;
    let mut lo: usize = 0;
    let mut hi: usize = i;
    while lo < hi
        invariant
            lo <= hi <= i,
            i < v.len(),
            vw == key_views(v@),
            x == v[i as int]@,
            ordered(vw.take(i as int)),
            forall|j: int| 0 <= j < lo ==> precedes(#[trigger] vw[j], x),
            forall|j: int| hi <= j < i ==> !precedes(#[trigger] vw[j], x),
        decreases hi - lo,
    {
        let mid = lo + (hi - lo) / 2;
        let before = keyed_precedes(&v[mid], &v[i]);
        assert(vw[mid as int] == v[mid as int]@);
        if before {
            assert forall|j: int| 0 <= j < mid + 1 implies precedes(#[trigger] vw[j], x) by {
                if j < mid {
                    assert(vw.take(i as int)[j] == vw[j]);
                    assert(vw.take(i as int)[mid as int] == vw[mid as int]);
                    lemma_precedes_transitive(vw[j], vw[mid as int], x);
                }
            }
            lo = mid + 1;
        } else {
            assert forall|j: int| mid <= j < i implies !precedes(#[trigger] vw[j], x) by {
                if mid < j && precedes(vw[j], x) {
                    assert(vw.take(i as int)[j] == vw[j]);
                    assert(vw.take(i as int)[mid as int] == vw[mid as int]);
                    lemma_precedes_transitive(vw[mid as int], vw[j], x);
                }
            }
            hi = mid;
        }
    }
    lo
}

/// Sorts entries by their kind and their keys: directories first, then by key,
/// entries that tie staying in the order in which they came.
pub fn sort_keyed(v: &mut Vec<Keyed>)
    ensures
        stably_sorted(key_views(final(v)@), key_views(old(v)@)),
{
    let ghost orig = key_views(v@);
    let n = v.len();
    let mut i: usize = 0;
    proof {
        assert(orig.take(0) =~= Seq::<KeyedView>::empty());
        assert(orig.skip(0) =~= orig);
    }
    while i < n
        invariant
            i <= n,
            v.len() == n,
            orig.len() == n,
            stably_sorted(key_views(v@).take(i as int), orig.take(i as int)),
            key_views(v@).skip(i as int) == orig.skip(i as int),
        decreases n - i,
    {
        let ghost before = key_views(v@);
        let p = insertion_point(v, i);
        let e = v.remove(i);
        v.insert(p, e);
        proof {
            let t = before.take(i as int);
            let x = before[i as int];
            let after = key_views(v@);
            assert(x == orig.skip(i as int)[0]);
            assert(after =~= before.remove(i as int).insert(p as int, x));
            assert(after.take(i + 1) =~= t.insert(p as int, x));
            assert(orig.take(i + 1) =~= orig.take(i as int).push(x));
            assert(after.skip(i + 1) =~= before.skip(i as int).skip(1));
            assert(orig.skip(i + 1) =~= orig.skip(i as int).skip(1));
            assert forall|j: int| 0 <= j < p implies precedes(#[trigger] t[j], x) by {
                assert(t[j] == before[j]);
            }
            assert forall|j: int| p <= j < t.len() implies !precedes(#[trigger] t[j], x) by {
                assert(t[j] == before[j]);
            }
            lemma_insert_keeps_sorted(t, orig.take(i as int), p as int, x);
        }
        i += 1;
    }
    proof {
        assert(key_views(v@).take(n as int) =~= key_views(v@));
        assert(orig.take(n as int) =~= orig);
    }
}

/// An entry with the key by which it is ordered: its name in lowercase.
pub open spec fn with_key(e: EntryView) -> KeyedView {
    KeyedView { entry: e, key: lowercase(e.file_name) }
}

/// The entries of `s`, each with its key.
pub open spec fn with_keys(s: Seq<EntryView>) -> Seq<KeyedView> {
    s.map_values(|e: EntryView| with_key(e))
}

/// `out` is `inp` in the order of a directory's children: directories first,
/// then by lowercase name, entries that tie following each other as in `inp`.
pub open spec fn sorted_entries(out: Seq<EntryView>, inp: Seq<EntryView>) -> bool {
    stably_sorted(with_keys(out), with_keys(inp))
}

/// Directories come first: where `out` is in the order of a directory's
/// children, no file stands before a directory, and of two entries of one kind
/// the one whose lowercase name is the lesser, or no greater, stands first.
pub proof fn lemma_sorted_entries_ordered(
    out: Seq<EntryView>,
    inp: Seq<EntryView>,
    i: int,
    j: int,
)
    requires
        sorted_entries(out, inp),
        0 <= i < j < out.len(),
    ensures
        out[j].is_dir ==> out[i].is_dir,
        out[i].is_dir == out[j].is_dir ==> lex_le(
            lowercase(out[i].file_name),
            lowercase(out[j].file_name),
        ),
{
    assert(precedes(with_keys(out)[i], with_keys(out)[j]));
}

/// A sequence holds an entry as often as the sequence of its keyed entries
/// holds that entry with its key.
proof fn lemma_count_with_key(s: Seq<EntryView>, e: EntryView)
    ensures
        s.to_multiset().count(e) == with_keys(s).to_multiset().count(with_key(e)),
    decreases s.len(),
{
    if s.len() == 0 {
        to_multiset_contains(s, e);
        to_multiset_contains(with_keys(s), with_key(e));
    } else {
        let s0 = s.drop_last();
        let x = s.last();
        assert(s =~= s0.push(x));
        assert(with_keys(s) =~= with_keys(s0).push(with_key(x)));
        to_multiset_build(s0, x);
        to_multiset_build(with_keys(s0), with_key(x));
        lemma_count_with_key(s0, e);
        assert(with_key(x) == with_key(e) <==> x == e) by {
            assert(with_key(x).entry == x);
            assert(with_key(e).entry == e);
        }
    }
}

/// Ordering loses nothing and adds nothing: where `out` is `inp` in the order
/// of a directory's children, it holds the same entries as often.
pub proof fn lemma_sorted_entries_same(out: Seq<EntryView>, inp: Seq<EntryView>)
    requires
        sorted_entries(out, inp),
    ensures
        out.to_multiset() == inp.to_multiset(),
{
    assert forall|e: EntryView| out.to_multiset().count(e) == inp.to_multiset().count(e) by {
        lemma_count_with_key(out, e);
        lemma_count_with_key(inp, e);
    }
    assert(out.to_multiset() =~= inp.to_multiset());
}

/// Ordering has one outcome: two sequences that are both `inp` in the order of
/// a directory's children are the same sequence.
pub proof fn lemma_sorted_entries_unique(
    a: Seq<EntryView>,
    b: Seq<EntryView>,
    inp: Seq<EntryView>,
)
    requires
        sorted_entries(a, inp),
        sorted_entries(b, inp),
    ensures
        a == b,
{
    lemma_stably_sorted_unique(with_keys(a), with_keys(b), with_keys(inp));
    assert(a.len() == with_keys(a).len() && b.len() == with_keys(b).len());
    assert forall|i: int| 0 <= i < a.len() implies a[i] == b[i] by {
        assert(with_keys(a)[i].entry == a[i]);
        assert(with_keys(b)[i].entry == b[i]);
    }
    assert(a =~= b);
}

/// Gives an entry its key: the characters of its name in lowercase.
pub fn key_entry(entry: Entry) -> (keyed: Keyed)
    ensures
        keyed@ == with_key(entry@),
{
    let lower = to_lowercase(entry.file_name.as_str());
    let key = chars_of(lower.as_str());
    Keyed { entry, key }
}

/// Sorts the children of one directory: directories first, then by lowercase
/// name, entries that tie staying in the order in which they came.
pub fn sort_entries(v: &mut Vec<Entry>)
    ensures
        sorted_entries(views(final(v)@), views(old(v)@)),
{
    let ghost inp = views(v@);
    let mut plain: Vec<Entry> = Vec::new();
    std::mem::swap(v, &mut plain);
    let mut keyed: Vec<Keyed> = Vec::new();
    assert(with_keys(inp.take(0)) =~= key_views(keyed@));
    for entry in it: plain
        invariant
            it.seq() == plain@,
            inp == views(plain@),
            key_views(keyed@) == with_keys(inp.take(it.index() as int)),
    {
        let ghost e = entry@;
        let ghost before = key_views(keyed@);
        keyed.push(key_entry(entry));
        proof {
            assert(key_views(keyed@) =~= before.push(with_key(e)));
            assert(inp.take(it.index() + 1) =~= inp.take(it.index() as int).push(e));
            assert(with_keys(inp.take(it.index() + 1)) =~= with_keys(
                inp.take(it.index() as int),
            ).push(with_key(e)));
        }
    }
    assert(inp.take(inp.len() as int) =~= inp);
    sort_keyed(&mut keyed);
    let ghost sorted = key_views(keyed@);
    assert(v@ =~= Seq::<Entry>::empty());
    assert(views(v@) =~= sorted.take(0).map_values(|k: KeyedView| k.entry));
    for item in it: keyed
        invariant
            it.seq() == keyed@,
            sorted == key_views(keyed@),
            views(v@) == sorted.take(it.index() as int).map_values(|k: KeyedView| k.entry),
    {
        let ghost k = item@;
        let ghost before = views(v@);
        v.push(item.entry);
        proof {
            assert(views(v@) =~= before.push(k.entry));
            assert(sorted.take(it.index() + 1) =~= sorted.take(it.index() as int).push(k));
        }
    }
    proof {
        assert(sorted.take(sorted.len() as int) =~= sorted);
        let out = views(v@);
        assert forall|i: int| 0 <= i < sorted.len() implies with_keys(out)[i] == sorted[i] by {
            let k = sorted[i];
            assert(sorted.contains(k));
            to_multiset_contains(sorted, k);
            to_multiset_contains(with_keys(inp), k);
            let j = choose|j: int| 0 <= j < with_keys(inp).len() && with_keys(inp)[j] == k;
            assert(k == with_key(inp[j]));
        }
        assert(with_keys(out) =~= sorted);
    }
}

} // verus!
