//! Drag-to-reorder for the tab strip, the member list and the import list:
//! where a dragged item goes when dropped before or after another item.

use vstd::prelude::*;

verus! {

/// The destination index (the index passed to `insert` after the dragged item
/// was removed) for an item dragged from `from` and dropped on the side
/// `after` of the item at `anchor`.
pub open spec fn reorder_target(from: int, anchor: int, after: bool) -> int {
    if after {
        if from <= anchor { anchor } else { anchor + 1 }
    } else if from < anchor {
        anchor - 1
    } else {
        anchor
    }
}

/// `s` with the element at `from` moved to index `to` (clamped to the end);
/// unchanged when `from == to` or `from` is out of range.
pub open spec fn moved<T>(s: Seq<T>, from: int, to: int) -> Seq<T> {
    if from == to || from < 0 || from >= s.len() {
        s
    } else {
        let rest = s.remove(from);
        let at = if to < rest.len() { to } else { rest.len() as int };
        rest.insert(at, s[from])
    }
}

/// Converts "dropped before/after the item at `anchor`" into the index at which
/// the dragged item is inserted once it has been removed from `from`.
pub fn reorder_to_index(from: usize, anchor: usize, after: bool) -> (to: usize)
    ensures
        to as int == reorder_target(from as int, anchor as int, after),
{
    if after {
        if from <= anchor {
            anchor
        } else {
            anchor + 1
        }
    } else if from < anchor {
        anchor - 1
    } else {
        anchor
    }
}

/// Moves the element at `from` to index `to` of the list without it (an index
/// past the end means the end); nothing happens when `from == to` or `from`
/// is out of range.
pub fn move_item<T>(v: &mut Vec<T>, from: usize, to: usize)
    ensures
        final(v)@ == moved(old(v)@, from as int, to as int),
{
    if from == to || from >= v.len() {
        return;
    }
    let item = v.remove(from);
    let at = if to < v.len() { to } else { v.len() };
    v.insert(at, item);
}

/// Dropping an item next to another one puts it right there: after the move
/// computed by `reorder_to_index`, the dragged item sits directly before the
/// anchor item (or directly after it, when dropped on its far side), and the
/// destination index is inside the list.
pub proof fn lemma_drop_lands_next_to_anchor<T>(s: Seq<T>, from: int, anchor: int, after: bool)
    requires
        0 <= from < s.len(),
        0 <= anchor < s.len(),
        from != anchor,
    ensures
        ({
            let to = reorder_target(from, anchor, after);
            let r = moved(s, from, to);
            &&& 0 <= to < s.len()
            &&& r.len() == s.len()
            &&& r[to] == s[from]
            &&& after ==> r[to - 1] == s[anchor]
            &&& !after ==> r[to + 1] == s[anchor]
        }),
{
    let to = reorder_target(from, anchor, after);
    let rest = s.remove(from);
    assert(to < rest.len() || to == rest.len());
    if from < anchor {
        assert(rest[anchor - 1] == s[anchor]);
    } else {
        assert(rest[anchor] == s[anchor]);
    }
}

/// The move keeps every element: the result is a rearrangement of the list.
pub proof fn lemma_move_is_permutation<T>(s: Seq<T>, from: int, to: int)
    requires
        0 <= to,
    ensures
        moved(s, from, to).to_multiset() == s.to_multiset(),
{
    broadcast use vstd::seq_lib::group_to_multiset_ensures;
    if !(from == to || from < 0 || from >= s.len()) {
        let rest = s.remove(from);
        let at = if to < rest.len() { to } else { rest.len() as int };
        assert(s =~= s.take(from).push(s[from]) + s.skip(from + 1));
        assert(rest =~= s.take(from) + s.skip(from + 1));
        let r = rest.insert(at, s[from]);
        assert(r =~= rest.take(at).push(s[from]) + rest.skip(at));
        assert(rest =~= rest.take(at) + rest.skip(at));
        vstd::seq_lib::lemma_multiset_commutative(s.take(from).push(s[from]), s.skip(from + 1));
        vstd::seq_lib::lemma_multiset_commutative(s.take(from), s.skip(from + 1));
        vstd::seq_lib::lemma_multiset_commutative(rest.take(at).push(s[from]), rest.skip(at));
        vstd::seq_lib::lemma_multiset_commutative(rest.take(at), rest.skip(at));
    }
}

}
