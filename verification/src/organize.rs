//! Selection in the page-organizer grid: plain, Ctrl and Shift clicks, and
//! which pages a drag carries along. The selection holds page ids, so it
//! follows the pages when they move.

use vstd::prelude::*;

verus! {

/// The organizer's selection: the ids of the selected pages, and the id of
/// the page a Shift-click extends from.
pub struct OrganizeSelection {
    pub selected: Vec<String>,
    pub anchor: Option<String>,
}

/// The ids in `v`, as a set.
pub open spec fn id_set(v: Seq<String>) -> Set<Seq<char>> {
    Set::new(|x: Seq<char>| exists|i: int| 0 <= i < v.len() && (#[trigger] v[i])@ == x)
}

/// The views of a list of ids.
pub open spec fn ids_view(ids: Seq<String>) -> Seq<Seq<char>> {
    ids.map_values(|s: String| s@)
}

/// The first index of `x` in `ids`, or -1.
pub open spec fn first_index(ids: Seq<Seq<char>>, x: Seq<char>) -> int
    decreases ids.len(),
{
    if ids.len() == 0 {
        -1
    } else if ids[0] == x {
        0
    } else {
        let r = first_index(ids.drop_first(), x);
        if r < 0 { -1 } else { r + 1 }
    }
}

/// The ids of the pages `lo..=hi`.
pub open spec fn range_set(ids: Seq<Seq<char>>, lo: int, hi: int) -> Set<Seq<char>> {
    Set::new(|x: Seq<char>| exists|k: int| lo <= k <= hi && #[trigger] ids[k] == x)
}

/// The selection after clicking the page at `idx` of the pages `ids`:
/// Shift selects the pages from the anchor (the clicked page when the anchor
/// is gone) to the clicked one, added to the selection with Ctrl and
/// replacing it without; Ctrl alone toggles the page; a plain click selects
/// only the page. A click outside the list changes nothing.
pub open spec fn click_selected(ids: Seq<Seq<char>>, sel: Set<Seq<char>>, anchor: Option<Seq<char>>, idx: int, ctrl: bool, shift: bool) -> Set<Seq<char>> {
    if idx < 0 || idx >= ids.len() {
        sel
    } else if shift {
        let a: int = match anchor {
            Some(x) => if first_index(ids, x) >= 0 { first_index(ids, x) } else { idx },
            None => idx,
        };
        let lo = if a < idx { a } else { idx };
        let hi = if a < idx { idx } else { a };
        if ctrl { sel.union(range_set(ids, lo, hi)) } else { range_set(ids, lo, hi) }
    } else if ctrl {
        if sel.contains(ids[idx]) { sel.remove(ids[idx]) } else { sel.insert(ids[idx]) }
    } else {
        set![ids[idx]]
    }
}

/// The anchor after clicking the page at `idx`: a Shift-click keeps it, any
/// other click moves it to the clicked page.
pub open spec fn click_anchor(ids: Seq<Seq<char>>, anchor: Option<Seq<char>>, idx: int, shift: bool) -> Option<Seq<char>> {
    if idx < 0 || idx >= ids.len() || shift { anchor } else { Some(ids[idx]) }
}

/// Indices `i < k` of pages whose id is selected, in increasing order.
pub open spec fn selected_below(ids: Seq<Seq<char>>, sel: Set<Seq<char>>, k: int) -> Seq<usize>
    decreases k,
{
    if k <= 0 {
        Seq::empty()
    } else if sel.contains(ids[k - 1]) {
        selected_below(ids, sel, k - 1).push((k - 1) as usize)
    } else {
        selected_below(ids, sel, k - 1)
    }
}

/// The pages a drag starting on page `from` moves: every selected page when
/// `from` is selected, otherwise just `from`.
pub open spec fn moving_pages(ids: Seq<Seq<char>>, sel: Set<Seq<char>>, from: usize) -> Seq<usize> {
    if from < ids.len() && sel.contains(ids[from as int]) {
        selected_below(ids, sel, ids.len() as int)
    } else {
        seq![from]
    }
}

proof fn lemma_first_index(ids: Seq<Seq<char>>, x: Seq<char>, i: int)
    requires
        0 <= i <= ids.len(),
        forall|j: int| 0 <= j < i ==> ids[j] != x,
    ensures
        i < ids.len() && ids[i] == x ==> first_index(ids, x) == i,
        i == ids.len() ==> first_index(ids, x) == -1,
    decreases i,
{
    if ids.len() > 0 && i > 0 {
        assert forall|j: int| 0 <= j < i - 1 implies ids.drop_first()[j] != x by {
            assert(ids.drop_first()[j] == ids[j + 1]);
        }
        lemma_first_index(ids.drop_first(), x, i - 1);
    } else if ids.len() > 0 && i == 0 && ids[0] != x {
    }
}

/// `ids` holds an id equal to `x`.
fn holds(v: &Vec<String>, x: &String) -> (b: bool)
    ensures
        b == id_set(v@).contains(x@),
{
    let mut i: usize = 0;
    while i < v.len()
        invariant
            i <= v@.len(),
            forall|j: int| 0 <= j < i ==> (#[trigger] v@[j])@ != x@,
        decreases v.len() - i,
    {
        if v[i].eq(x) {
            assert(v@[i as int]@ == x@);
            return true;
        }
        i += 1;
    }
    false
}

/// The first index of `x` in `ids`.
fn find(ids: &Vec<String>, x: &String) -> (r: Option<usize>)
    ensures
        match r {
            Some(i) => first_index(ids_view(ids@), x@) == i as int && i < ids@.len(),
            None => first_index(ids_view(ids@), x@) == -1,
        },
{
    let ghost iv = ids_view(ids@);
    let mut i: usize = 0;
    while i < ids.len()
        invariant
            i <= ids@.len(),
            iv == ids_view(ids@),
            forall|j: int| 0 <= j < i ==> iv[j] != x@,
        decreases ids.len() - i,
    {
        if ids[i].eq(x) {
            proof {
                lemma_first_index(iv, x@, i as int);
            }
            return Some(i);
        }
        i += 1;
    }
    proof {
        lemma_first_index(iv, x@, i as int);
    }
    None
}

/// Handles a click on the page at `idx` of the pages `ids` (see `click_selected`).
pub fn organize_click(sel: &mut OrganizeSelection, ids: &Vec<String>, idx: usize, ctrl: bool, shift: bool)
    ensures
        id_set(final(sel).selected@) == click_selected(ids_view(ids@), id_set(old(sel).selected@), match old(sel).anchor {
            Some(a) => Some(a@),
            None => None,
        }, idx as int, ctrl, shift),
        (match final(sel).anchor {
            Some(a) => Some(a@),
            None => None,
        }) == click_anchor(ids_view(ids@), match old(sel).anchor {
            Some(a) => Some(a@),
            None => None,
        }, idx as int, shift),
{
    let ghost iv = ids_view(ids@);
    let ghost old_set = id_set(sel.selected@);
    let n = ids.len();
    if idx >= n {
        return;
    }
    let id = ids[idx].clone();
    assert(iv[idx as int] == id@);
    if shift {
        let a = match &sel.anchor {
            Some(x) => match find(ids, x) {
                Some(j) => j,
                None => idx,
            },
            None => idx,
        };
        let lo = if a < idx { a } else { idx };
        let hi = if a < idx { idx } else { a };
        let mut out: Vec<String> = if ctrl { sel.selected.clone() } else { Vec::new() };
        let ghost base = if ctrl { old_set } else { Set::<Seq<char>>::empty() };
        assert(id_set(out@) =~= base) by {
            if ctrl {
                assert forall|x: Seq<char>| id_set(out@).contains(x) == old_set.contains(x) by {
                    if id_set(out@).contains(x) {
                        let i = choose|i: int| 0 <= i < out@.len() && (#[trigger] out@[i])@ == x;
                        assert(out@[i] == sel.selected@[i]);
                    }
                    if old_set.contains(x) {
                        let i = choose|i: int| 0 <= i < sel.selected@.len() && (#[trigger] sel.selected@[i])@ == x;
                        assert(out@[i] == sel.selected@[i]);
                    }
                }
            }
        }
        let mut k: usize = lo;
        while k <= hi
            invariant
                lo <= k <= hi + 1,
                hi < n == ids@.len(),
                iv == ids_view(ids@),
                id_set(out@) == base.union(range_set(iv, lo as int, k - 1)),
            decreases hi + 1 - k,
        {
            let ghost before = out@;
            out.push(ids[k].clone());
            assert(iv[k as int] == ids@[k as int]@);
            assert(id_set(out@) =~= base.union(range_set(iv, lo as int, k as int))) by {
                assert forall|x: Seq<char>| #[trigger] id_set(out@).contains(x) == base.union(range_set(iv, lo as int, k as int)).contains(x) by {
                    if id_set(out@).contains(x) {
                        let i = choose|i: int| 0 <= i < out@.len() && (#[trigger] out@[i])@ == x;
                        if i < before.len() {
                            assert(out@[i] == before[i]);
                            assert(id_set(before).contains(x));
                            if range_set(iv, lo as int, k - 1).contains(x) {
                                let kk = choose|kk: int| lo <= kk <= k - 1 && #[trigger] iv[kk] == x;
                                assert(range_set(iv, lo as int, k as int).contains(x));
                            }
                        } else {
                            assert(range_set(iv, lo as int, k as int).contains(x));
                        }
                    }
                    if base.union(range_set(iv, lo as int, k as int)).contains(x) {
                        if range_set(iv, lo as int, k as int).contains(x) {
                            let kk = choose|kk: int| lo <= kk <= k && #[trigger] iv[kk] == x;
                            if kk == k {
                                assert(out@[before.len() as int]@ == x);
                            } else {
                                assert(range_set(iv, lo as int, k - 1).contains(x));
                                assert(id_set(before).contains(x));
                                let i = choose|i: int| 0 <= i < before.len() && (#[trigger] before[i])@ == x;
                                assert(out@[i] == before[i]);
                            }
                        } else {
                            assert(id_set(before).contains(x));
                            let i = choose|i: int| 0 <= i < before.len() && (#[trigger] before[i])@ == x;
                            assert(out@[i] == before[i]);
                        }
                    }
                }
            }
            k += 1;
        }
        sel.selected = out;
        proof {
            let a_spec: int = match old(sel).anchor {
                Some(x) => if first_index(iv, x@) >= 0 { first_index(iv, x@) } else { idx as int },
                None => idx as int,
            };
            assert(a_spec == a as int);
            assert(range_set(iv, lo as int, k - 1) =~= range_set(iv, lo as int, hi as int));
            if !ctrl {
                assert(base.union(range_set(iv, lo as int, hi as int)) =~= range_set(iv, lo as int, hi as int));
            }
        }
    } else if ctrl {
        if holds(&sel.selected, &id) {
            let ghost before = sel.selected@;
            let mut out: Vec<String> = Vec::new();
            let mut i: usize = 0;
            while i < sel.selected.len()
                invariant
                    i <= sel.selected@.len(),
                    sel.selected@ == before,
                    forall|x: Seq<char>| #[trigger] id_set(out@).contains(x) <==> (x != id@ && exists|j: int| 0 <= j < i && (#[trigger] before[j])@ == x),
                decreases sel.selected.len() - i,
            {
                let ghost ob = out@;
                if !sel.selected[i].eq(&id) {
                    out.push(sel.selected[i].clone());
                }
                proof {
                    assert forall|x: Seq<char>| #[trigger] id_set(out@).contains(x) <==> (x != id@ && exists|j: int| 0 <= j < i + 1 && (#[trigger] before[j])@ == x) by {
                        if id_set(out@).contains(x) {
                            let m = choose|m: int| 0 <= m < out@.len() && (#[trigger] out@[m])@ == x;
                            if m < ob.len() {
                                assert(out@[m] == ob[m]);
                                assert(id_set(ob).contains(x));
                            } else {
                                assert(before[i as int]@ == x);
                            }
                        }
                        if x != id@ && exists|j: int| 0 <= j < i + 1 && (#[trigger] before[j])@ == x {
                            let j = choose|j: int| 0 <= j < i + 1 && (#[trigger] before[j])@ == x;
                            if j < i {
                                assert(id_set(ob).contains(x));
                                let m = choose|m: int| 0 <= m < ob.len() && (#[trigger] ob[m])@ == x;
                                assert(out@[m] == ob[m]);
                            } else {
                                assert(out@[ob.len() as int]@ == x);
                            }
                        }
                    }
                }
                i += 1;
            }
            sel.selected = out;
            assert(id_set(sel.selected@) =~= old_set.remove(id@));
        } else {
            let ghost before = sel.selected@;
            sel.selected.push(id.clone());
            assert(id_set(sel.selected@) =~= old_set.insert(id@)) by {
                assert forall|x: Seq<char>| #[trigger] id_set(sel.selected@).contains(x) == old_set.insert(id@).contains(x) by {
                    if id_set(sel.selected@).contains(x) {
                        let m = choose|m: int| 0 <= m < sel.selected@.len() && (#[trigger] sel.selected@[m])@ == x;
                        if m < before.len() {
                            assert(sel.selected@[m] == before[m]);
                        }
                    }
                    if old_set.contains(x) {
                        let m = choose|m: int| 0 <= m < before.len() && (#[trigger] before[m])@ == x;
                        assert(sel.selected@[m] == before[m]);
                    }
                    if x == id@ {
                        assert(sel.selected@[before.len() as int]@ == x);
                    }
                }
            }
        }
        sel.anchor = Some(id);
    } else {
        let mut out: Vec<String> = Vec::new();
        out.push(id.clone());
        assert(id_set(out@) =~= set![id@]) by {
            assert(out@[0]@ == id@);
        }
        sel.selected = out;
        sel.anchor = Some(id);
    }
}

/// The indices of the pages a drag starting on page `from` moves (see `moving_pages`).
pub fn organize_moving(sel: &OrganizeSelection, ids: &Vec<String>, from: usize) -> (r: Vec<usize>)
    ensures
        r@ == moving_pages(ids_view(ids@), id_set(sel.selected@), from),
{
    let ghost iv = ids_view(ids@);
    let ghost s = id_set(sel.selected@);
    let from_selected = if from < ids.len() { holds(&sel.selected, &ids[from]) } else { false };
    if from_selected {
        assert(iv[from as int] == ids@[from as int]@);
        let mut out: Vec<usize> = Vec::new();
        let mut k: usize = 0;
        while k < ids.len()
            invariant
                k <= ids@.len(),
                iv == ids_view(ids@),
                s == id_set(sel.selected@),
                out@ == selected_below(iv, s, k as int),
            decreases ids.len() - k,
        {
            assert(iv[k as int] == ids@[k as int]@);
            if holds(&sel.selected, &ids[k]) {
                out.push(k);
            }
            k += 1;
        }
        out
    } else {
        proof {
            if from < ids@.len() {
                assert(iv[from as int] == ids@[from as int]@);
            }
        }
        let mut out: Vec<usize> = Vec::new();
        out.push(from);
        assert(out@ =~= seq![from]);
        out
    }
}

/// A plain click leaves exactly the clicked page selected and anchors there.
pub proof fn lemma_plain_click_selects_one(ids: Seq<Seq<char>>, sel: Set<Seq<char>>, anchor: Option<Seq<char>>, idx: int)
    requires
        0 <= idx < ids.len(),
    ensures
        click_selected(ids, sel, anchor, idx, false, false) == set![ids[idx]],
        click_anchor(ids, anchor, idx, false) == Some(ids[idx]),
{
}

/// Shift-click after a click on page `a` selects exactly the pages between
/// `a` and the clicked page, whichever comes first (page ids being distinct).
pub proof fn lemma_shift_click_selects_range(ids: Seq<Seq<char>>, sel: Set<Seq<char>>, a: int, idx: int)
    requires
        0 <= a < ids.len(),
        0 <= idx < ids.len(),
        forall|i: int, j: int| 0 <= i < j < ids.len() ==> ids[i] != ids[j],
    ensures
        ({
            let s1 = click_selected(ids, sel, None, a, false, false);
            let anchor1 = click_anchor(ids, None, a, false);
            let s2 = click_selected(ids, s1, anchor1, idx, false, true);
            s2 == range_set(ids, if a < idx { a } else { idx }, if a < idx { idx } else { a })
        }),
{
    assert forall|j: int| 0 <= j < a implies ids[j] != ids[a] by {}
    lemma_first_index(ids, ids[a], a);
}

/// Ctrl-clicking the same page twice restores the selection.
pub proof fn lemma_ctrl_click_twice(ids: Seq<Seq<char>>, sel: Set<Seq<char>>, anchor: Option<Seq<char>>, idx: int)
    requires
        0 <= idx < ids.len(),
    ensures
        click_selected(ids, click_selected(ids, sel, anchor, idx, true, false), Some(ids[idx]), idx, true, false) == sel,
{
    let s1 = click_selected(ids, sel, anchor, idx, true, false);
    if sel.contains(ids[idx]) {
        assert(s1.insert(ids[idx]) =~= sel);
    } else {
        assert(s1.remove(ids[idx]) =~= sel);
    }
}

}
