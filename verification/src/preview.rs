//! Choosing what the mask preview shows: the group it works on, and the
//! rows of a page each member block covers.

use vstd::prelude::*;

verus! {

/// `y` converted to `u32` the way `as` does: negative values wrap around.
pub open spec fn wrap_u32(y: i32) -> int {
    if y >= 0 { y as int } else { y as int + 0x1_0000_0000 }
}

/// The rows of a page of height `page_h` that a block `y0..=y1` covers:
/// the start moved up to 0, the end (taken as unsigned) down to the last row.
/// `None` when nothing is left; otherwise `(first row, number of rows)`.
pub open spec fn band_rows(y0: i32, y1: i32, page_h: u32) -> Option<(u32, u32)> {
    let a: int = if y0 > 0 { y0 as int } else { 0 };
    let last: int = if page_h > 0 { page_h - 1 } else { 0 };
    let b: int = if wrap_u32(y1) < last { wrap_u32(y1) } else { last };
    if b < a {
        None
    } else {
        Some((a as u32, (b - a + 1) as u32))
    }
}

pub fn clamp_band(y0: i32, y1: i32, page_h: u32) -> (r: Option<(u32, u32)>)
    ensures
        r == band_rows(y0, y1, page_h),
        r matches Some((first, n)) ==> n >= 1 && first + n <= (if page_h > 0 { page_h as int } else { 1 }),
{
    let a: u32 = if y0 > 0 { y0 as u32 } else { 0 };
    let y1u: u32 = if y1 >= 0 { y1 as u32 } else { (y1 as i64 + 0x1_0000_0000) as u32 };
    let last: u32 = if page_h > 0 { page_h - 1 } else { 0 };
    let b = if y1u < last { y1u } else { last };
    if b < a {
        None
    } else {
        Some((a, b - a + 1))
    }
}

/// Whether `ids` holds `id`.
pub open spec fn holds_id(ids: Seq<String>, id: Seq<char>) -> bool {
    exists|i: int| 0 <= i < ids.len() && (#[trigger] ids[i])@ == id
}

fn find_id(ids: &Vec<String>, id: &String) -> (r: bool)
    ensures
        r == holds_id(ids@, id@),
{
    let mut i: usize = 0;
    while i < ids.len()
        invariant
            i <= ids@.len(),
            forall|j: int| 0 <= j < i ==> (#[trigger] ids@[j])@ != id@,
        decreases ids.len() - i,
    {
        if ids[i].eq(id) {
            return true;
        }
        i += 1;
    }
    false
}

/// The group the mask preview works on: the active group, else the last
/// preview target, each only while it still exists; else the first group.
pub open spec fn mask_target_choice(active: Option<Seq<char>>, last: Option<Seq<char>>, ids: Seq<String>) -> Option<Seq<char>> {
    if active matches Some(a) && holds_id(ids, a) {
        active
    } else if last matches Some(t) && holds_id(ids, t) {
        last
    } else if ids.len() > 0 {
        Some(ids[0]@)
    } else {
        None
    }
}

pub fn resolve_mask_target(active: &Option<String>, last: &Option<String>, group_ids: &Vec<String>) -> (r: Option<String>)
    ensures
        (match r {
            Some(s) => Some(s@),
            None => None,
        }) == mask_target_choice(
            match active {
                Some(a) => Some(a@),
                None => None,
            },
            match last {
                Some(t) => Some(t@),
                None => None,
            },
            group_ids@,
        ),
{
    if let Some(a) = active {
        if find_id(group_ids, a) {
            return Some(a.clone());
        }
    }
    if let Some(t) = last {
        if find_id(group_ids, t) {
            return Some(t.clone());
        }
    }
    if group_ids.len() > 0 {
        Some(group_ids[0].clone())
    } else {
        None
    }
}

/// The index of the first group with id `id`; 0 when there is none (where
/// cycling through the groups starts).
pub fn group_position(group_ids: &Vec<String>, id: &Option<String>) -> (r: usize)
    ensures
        id is None ==> r == 0,
        id matches Some(x) ==> (holds_id(group_ids@, x@) ==> r < group_ids@.len() && group_ids@[r as int]@ == x@
            && forall|j: int| 0 <= j < r ==> (#[trigger] group_ids@[j])@ != x@),
        id matches Some(x) ==> (!holds_id(group_ids@, x@) ==> r == 0),
{
    match id {
        None => 0,
        Some(x) => position_of(group_ids, x),
    }
}

fn position_of(group_ids: &Vec<String>, x: &String) -> (r: usize)
    ensures
        holds_id(group_ids@, x@) ==> r < group_ids@.len() && group_ids@[r as int]@ == x@
            && forall|j: int| 0 <= j < r ==> (#[trigger] group_ids@[j])@ != x@,
        !holds_id(group_ids@, x@) ==> r == 0,
{
    let mut i: usize = 0;
    while i < group_ids.len()
        invariant
            i <= group_ids@.len(),
            forall|j: int| 0 <= j < i ==> (#[trigger] group_ids@[j])@ != x@,
        decreases group_ids.len() - i,
    {
        if group_ids[i].eq(x) {
            assert(group_ids@[i as int]@ == x@);
            return i;
        }
        i += 1;
    }
    0
}

/// The preview always works on a group that exists, and on one whenever
/// there is any.
pub proof fn lemma_mask_target_exists(active: Option<Seq<char>>, last: Option<Seq<char>>, ids: Seq<String>)
    ensures
        mask_target_choice(active, last, ids) is Some <==> ids.len() > 0,
        mask_target_choice(active, last, ids) matches Some(t) ==> holds_id(ids, t),
{
    if let Some(t) = mask_target_choice(active, last, ids) {
        if !(active matches Some(a) && holds_id(ids, a)) && !(last matches Some(u) && holds_id(ids, u)) {
            assert(ids[0]@ == t);
        }
    }
}

}
