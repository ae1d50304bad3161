//! Editing blocks on the page: dragging out a new block, typing a block's
//! `y0-y1` range, and the margin / ink-threshold fields.

use vstd::prelude::*;
use crate::text::{
    parse_i32_range, parse_int_in, parse_trimmed_i32, str_to_chars, trim_bounds, trimmed,
};

verus! {

/// While adding a block: which edge the first press fixed.
#[derive(Clone, Copy, PartialEq, Eq, Structural, Debug)]
pub enum AddAnchorRole {
    /// The press is the top edge; the bottom is dragged out below it.
    Top,
    /// The press is the bottom edge; the top is dragged out above it.
    Bottom,
}

/// Pixels the pointer must move from the press before the direction is fixed.
pub const ADD_BLOCK_LOCK_PX: i32 = 2;

pub open spec fn add_role_spec(anchor_y: int, role: Option<AddAnchorRole>, cur_y: int) -> Option<AddAnchorRole> {
    match role {
        Some(r) => Some(r),
        None => if cur_y - anchor_y <= -2 {
            Some(AddAnchorRole::Bottom)
        } else if cur_y - anchor_y >= 2 {
            Some(AddAnchorRole::Top)
        } else {
            None
        },
    }
}

pub open spec fn preview_spec(anchor_y: i32, role: Option<AddAnchorRole>, cur_y: i32) -> (i32, i32) {
    match role {
        None => (anchor_y, anchor_y),
        Some(AddAnchorRole::Top) => (anchor_y, if cur_y > anchor_y { cur_y } else { anchor_y }),
        Some(AddAnchorRole::Bottom) => (if cur_y < anchor_y { cur_y } else { anchor_y }, anchor_y),
    }
}

/// The edge role after the pointer moved to `cur_y`: once fixed it stays;
/// otherwise moving up by `ADD_BLOCK_LOCK_PX` makes the press the bottom edge
/// and moving down by as much makes it the top edge.
pub fn add_block_role(anchor_y: i32, role: Option<AddAnchorRole>, cur_y: i32) -> (r: Option<AddAnchorRole>)
    ensures
        r == add_role_spec(anchor_y as int, role, cur_y as int),
{
    match role {
        Some(r) => Some(r),
        None => {
            let dy = cur_y as i64 - anchor_y as i64;
            if dy <= -(ADD_BLOCK_LOCK_PX as i64) {
                Some(AddAnchorRole::Bottom)
            } else if dy >= ADD_BLOCK_LOCK_PX as i64 {
                Some(AddAnchorRole::Top)
            } else {
                None
            }
        },
    }
}

/// The `(y0, y1)` of the block being dragged out.
pub fn add_block_preview_ys(anchor_y: i32, role: Option<AddAnchorRole>, cur_y: i32) -> (r: (i32, i32))
    ensures
        r == preview_spec(anchor_y, role, cur_y),
{
    match role {
        None => (anchor_y, anchor_y),
        Some(AddAnchorRole::Top) => (anchor_y, if cur_y > anchor_y { cur_y } else { anchor_y }),
        Some(AddAnchorRole::Bottom) => (if cur_y < anchor_y { cur_y } else { anchor_y }, anchor_y),
    }
}

/// On release: the block to add, or `None` when the drag was cancelled
/// (no direction fixed yet, or an empty range).
pub fn add_block_commit(anchor_y: i32, role: Option<AddAnchorRole>, cur_y: i32) -> (r: Option<(i32, i32)>)
    ensures
        role is None ==> r is None,
        role is Some ==> r == Some(preview_spec(anchor_y, role, cur_y)),
{
    match role {
        None => None,
        Some(_) => {
            let (y0, y1) = add_block_preview_ys(anchor_y, role, cur_y);
            if y1 < y0 {
                None
            } else {
                Some((y0, y1))
            }
        },
    }
}

/// A block dragged out is never upside down and always keeps the pressed
/// line as one of its edges: the top edge for `Top`, the bottom for `Bottom`.
pub proof fn lemma_added_block_well_formed(anchor_y: i32, role: AddAnchorRole, cur_y: i32)
    ensures
        ({
            let (y0, y1) = preview_spec(anchor_y, Some(role), cur_y);
            &&& y0 <= y1
            &&& role == AddAnchorRole::Top ==> y0 == anchor_y && y1 >= cur_y
            &&& role == AddAnchorRole::Bottom ==> y1 == anchor_y && y0 <= cur_y
        }),
{
}

/// Once the direction is fixed, further movement never changes it.
pub proof fn lemma_add_role_sticks(anchor_y: int, role: AddAnchorRole, cur_y: int)
    ensures
        add_role_spec(anchor_y, Some(role), cur_y) == Some(role),
{
}

/// Why a typed `y0-y1` range was refused.
#[derive(Clone, Copy, PartialEq, Eq, Structural, Debug)]
pub enum YRangeError {
    /// No `-` between the two numbers.
    MissingDash,
    /// A side is not an `i32`.
    NotInteger,
}

/// The typed range text after trimming, with spaces dropped and `,` and `–` read as `-`.
pub open spec fn normalize_range(s: Seq<char>) -> Seq<char>
    decreases s.len(),
{
    if s.len() == 0 {
        Seq::empty()
    } else {
        let rest = normalize_range(s.drop_last());
        let c = s.last();
        if c == ' ' {
            rest
        } else if c == ',' || c == '\u{2013}' {
            rest.push('-')
        } else {
            rest.push(c)
        }
    }
}

/// Index of the first `-`, or -1.
pub open spec fn first_dash(s: Seq<char>) -> int
    decreases s.len(),
{
    if s.len() == 0 {
        -1
    } else if first_dash(s.drop_last()) >= 0 {
        first_dash(s.drop_last())
    } else if s.last() == '-' {
        s.len() - 1
    } else {
        -1
    }
}

/// The outcome of typing `text` into a block's range field: `y0-y1`, split at the first dash.
pub open spec fn y_range_spec(text: Seq<char>) -> Result<(i32, i32), YRangeError> {
    let t = normalize_range(trimmed(text));
    let d = first_dash(t);
    if d < 0 {
        Err(YRangeError::MissingDash)
    } else {
        match (parse_int_in(t.take(d), true, i32::MIN as int, i32::MAX as int),
            parse_int_in(t.skip(d + 1), true, i32::MIN as int, i32::MAX as int)) {
            (Some(a), Some(b)) => Ok((a as i32, b as i32)),
            _ => Err(YRangeError::NotInteger),
        }
    }
}

proof fn lemma_first_dash_bounds(s: Seq<char>)
    ensures
        -1 <= first_dash(s) < s.len(),
        first_dash(s) >= 0 ==> s[first_dash(s)] == '-',
    decreases s.len(),
{
    if s.len() > 0 {
        lemma_first_dash_bounds(s.drop_last());
    }
}

/// Reads the text typed into a block's `y0-y1` field (for example `94-371`).
pub fn parse_y_range(text: &str) -> (r: Result<(i32, i32), YRangeError>)
    ensures
        r == y_range_spec(text@),
{
    let v = str_to_chars(text);
    let (lo, hi) = trim_bounds(&v);
    let ghost tr = v@.subrange(lo as int, hi as int);
    let mut t: Vec<char> = Vec::new();
    let mut i: usize = lo;
    let mut dash: Option<usize> = None;
    while i < hi
        invariant
            lo <= i <= hi <= v@.len(),
            tr == v@.subrange(lo as int, hi as int),
            t@ == normalize_range(v@.subrange(lo as int, i as int)),
            match dash {
                Some(d) => d as int == first_dash(t@) && d < t@.len(),
                None => first_dash(t@) < 0,
            },
        decreases hi - i,
    {
        let c = v[i];
        proof {
            assert(v@.subrange(lo as int, i + 1).drop_last() =~= v@.subrange(lo as int, i as int));
            lemma_first_dash_bounds(t@);
        }
        if c == ' ' {
        } else if c == ',' || c == '\u{2013}' || c == '-' {
            if dash.is_none() {
                dash = Some(t.len());
            }
            t.push('-');
            proof {
                assert(t@.drop_last() == normalize_range(v@.subrange(lo as int, i as int)));
            }
        } else {
            t.push(c);
            proof {
                assert(t@.drop_last() == normalize_range(v@.subrange(lo as int, i as int)));
            }
        }
        i += 1;
    }
    match dash {
        None => Err(YRangeError::MissingDash),
        Some(d) => {
            let a = parse_i32_range(&t, 0, d);
            let b = parse_i32_range(&t, d + 1, t.len());
            proof {
                assert(t@.subrange(0, d as int) =~= t@.take(d as int));
                assert(t@.subrange(d + 1, t@.len() as int) =~= t@.skip(d + 1));
            }
            match (a, b) {
                (Some(y0), Some(y1)) => Ok((y0, y1)),
                _ => Err(YRangeError::NotInteger),
            }
        },
    }
}

}

verus! {

/// The two detection parameters edited in the side panel.
#[derive(Clone, Copy, PartialEq, Eq, Structural, Debug)]
pub enum ParamEdit {
    /// Margin around detected blocks, `0..=80` pixels.
    Margin,
    /// Ink threshold, `1..=254`.
    Threshold,
}

pub open spec fn param_lo(kind: ParamEdit) -> int {
    match kind {
        ParamEdit::Margin => 0,
        ParamEdit::Threshold => 1,
    }
}

pub open spec fn param_hi(kind: ParamEdit) -> int {
    match kind {
        ParamEdit::Margin => 80,
        ParamEdit::Threshold => 254,
    }
}

pub open spec fn clamp_int(v: int, lo: int, hi: int) -> int {
    if v < lo { lo } else if v > hi { hi } else { v }
}

fn param_range(kind: ParamEdit) -> (r: (i32, i32))
    ensures
        r.0 == param_lo(kind),
        r.1 == param_hi(kind),
{
    match kind {
        ParamEdit::Margin => (0, 80),
        ParamEdit::Threshold => (1, 254),
    }
}

/// Committing the parameter field: a number (after trimming) is clamped into
/// the parameter's range; anything else keeps `current`.
pub fn apply_param_text(kind: ParamEdit, text: &str, current: i32) -> (r: i32)
    ensures
        match parse_int_in(trimmed(text@), true, i32::MIN as int, i32::MAX as int) {
            Some(v) => r == clamp_int(v, param_lo(kind), param_hi(kind)),
            None => r == current,
        },
{
    let (lo, hi) = param_range(kind);
    match parse_trimmed_i32(text) {
        Some(v) => if v < lo { lo } else if v > hi { hi } else { v },
        None => current,
    }
}

/// The `−` / `+` buttons: one step down or up, not leaving the parameter's range.
pub fn step_param(kind: ParamEdit, current: i32, up: bool) -> (r: i32)
    requires
        up ==> current < i32::MAX,
        !up ==> current > i32::MIN,
    ensures
        up ==> r == (if current + 1 < param_hi(kind) { current + 1 } else { param_hi(kind) }),
        !up ==> r == (if current - 1 > param_lo(kind) { current - 1 } else { param_lo(kind) }),
{
    let (lo, hi) = param_range(kind);
    if up {
        if current + 1 < hi { current + 1 } else { hi }
    } else if current - 1 > lo {
        current - 1
    } else {
        lo
    }
}

/// A committed value is always within the parameter's range, and stepping a
/// value that is in range keeps it in range.
pub proof fn lemma_params_stay_in_range(kind: ParamEdit, v: int, current: int)
    requires
        param_lo(kind) <= current <= param_hi(kind),
    ensures
        param_lo(kind) <= clamp_int(v, param_lo(kind), param_hi(kind)) <= param_hi(kind),
        param_lo(kind) <= (if current + 1 < param_hi(kind) { current + 1 } else { param_hi(kind) }) <= param_hi(kind),
        param_lo(kind) <= (if current - 1 > param_lo(kind) { current - 1 } else { param_lo(kind) }) <= param_hi(kind),
{
}

}
