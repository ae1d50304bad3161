//! The text of the block and group lists in the side panel, and the window
//! of rows a long list actually builds.

use vstd::prelude::*;
use crate::text::{decimal, push_decimal, push_signed_decimal, signed_decimal};

verus! {

/// The rows built for a list of `n` rows whose visible part starts at row
/// `first` and ends before row `past`: all rows when the list is short
/// (at most `threshold`), otherwise the visible rows and 8 more on each side,
/// clamped to the list.
pub open spec fn window(n: nat, threshold: nat, first: nat, past: nat) -> (nat, nat) {
    if n == 0 {
        (0, 0)
    } else if n <= threshold {
        (0, n)
    } else {
        let s0: nat = if first >= 8 { (first - 8) as nat } else { 0 };
        let e0: nat = if past + 8 < n { past + 8 } else { n };
        let s: nat = if s0 < n { s0 } else { n };
        (s, if e0 > s { e0 } else { s })
    }
}

pub fn list_window(n: usize, threshold: usize, first: usize, past: usize) -> (r: (usize, usize))
    ensures
        (r.0 as nat, r.1 as nat) == window(n as nat, threshold as nat, first as nat, past as nat),
{
    if n == 0 {
        return (0, 0);
    }
    if n <= threshold {
        return (0, n);
    }
    let s0 = if first >= 8 { first - 8 } else { 0 };
    let e0 = if past < n && n - past > 8 { past + 8 } else { n };
    let s = if s0 < n { s0 } else { n };
    (s, if e0 > s { e0 } else { s })
}

/// The built rows lie inside the list, in order, and include every visible row.
pub proof fn lemma_window_covers_view(n: nat, threshold: nat, first: nat, past: nat)
    ensures
        ({
            let (s, e) = window(n, threshold, first, past);
            &&& s <= e <= n
            &&& s <= (if first < n { first } else { n })
            &&& (if past < n { past } else { n }) <= e
        }),
{
}

/// The label of one member block: `P<page>:<kind>:<y0>-<y1>`.
pub open spec fn member_label_text(page_no: nat, kind: Seq<char>, y0: int, y1: int) -> Seq<char> {
    seq!['P'] + decimal(page_no) + seq![':'] + kind + seq![':'] + signed_decimal(y0) + seq!['-']
        + signed_decimal(y1)
}

pub fn member_label(page_no: usize, kind: &str, y0: i32, y1: i32) -> (r: String)
    ensures
        r@ == member_label_text(page_no as nat, kind@, y0 as int, y1 as int),
{
    let mut s = String::from_str("P");
    push_decimal(&mut s, page_no as u128);
    s.append(":");
    s.append(kind);
    s.append(":");
    push_signed_decimal(&mut s, y0 as i64);
    s.append("-");
    push_signed_decimal(&mut s, y1 as i64);
    proof {
        reveal_strlit("P");
        reveal_strlit(":");
        reveal_strlit("-");
    }
    assert(s@ =~= member_label_text(page_no as nat, kind@, y0 as int, y1 as int));
    s
}

/// `parts` joined with `sep` between neighbours.
pub open spec fn joined(parts: Seq<Seq<char>>, sep: Seq<char>) -> Seq<char>
    decreases parts.len(),
{
    if parts.len() == 0 {
        Seq::empty()
    } else if parts.len() == 1 {
        parts[0]
    } else {
        joined(parts.drop_last(), sep) + sep + parts.last()
    }
}

/// The members span more than one page.
pub open spec fn spans_pages(page_nos: Seq<usize>) -> bool {
    exists|i: int, j: int| 0 <= i < page_nos.len() && 0 <= j < page_nos.len() && page_nos[i] != page_nos[j]
}

pub fn members_span_pages(page_nos: &Vec<usize>) -> (b: bool)
    ensures
        b == spans_pages(page_nos@),
{
    let mut i: usize = 1;
    while i < page_nos.len()
        invariant
            1 <= i,
            forall|j: int| 0 <= j < i && j < page_nos@.len() ==> #[trigger] page_nos@[j] == page_nos@[0],
        decreases page_nos.len() - i,
    {
        if page_nos[i] != page_nos[0] {
            assert(page_nos@[i as int] != page_nos@[0]);
            return true;
        }
        i += 1;
    }
    assert forall|a: int, b: int| 0 <= a < page_nos@.len() && 0 <= b < page_nos@.len() implies #[trigger] page_nos@[a] == #[trigger] page_nos@[b] by {
        assert(page_nos@[a] == page_nos@[0]);
        assert(page_nos@[b] == page_nos@[0]);
    }
    false
}

/// The page number shown for a group whose top block lies on page index
/// `top_page` (`usize::MAX` when the group has no block): `top_page + 1`, or 0.
pub fn group_page_no(top_page: usize) -> (r: usize)
    ensures
        r == (if top_page == usize::MAX { 0 } else { top_page + 1 }),
{
    if top_page == usize::MAX { 0 } else { top_page + 1 }
}

/// Where a group sorts among the groups whose top block is on the same page:
/// by the top block's `y0`, then `y1`, ties kept in list order.
pub open spec fn sorts_before(keys: Seq<(usize, i32, i32)>, j: int, i: int) -> bool {
    &&& keys[j].0 == keys[i].0
    &&& (keys[j].1 < keys[i].1 || (keys[j].1 == keys[i].1 && (keys[j].2 < keys[i].2 || (keys[j].2
        == keys[i].2 && j < i))))
}

/// The number of groups among the first `k` that sort before group `i`.
pub open spec fn count_before(keys: Seq<(usize, i32, i32)>, i: int, k: int) -> nat
    decreases k,
{
    if k <= 0 {
        0
    } else {
        count_before(keys, i, k - 1) + if sorts_before(keys, k - 1, i) { 1nat } else { 0nat }
    }
}

/// The column number of group `i` on its page (counting from 1), given each
/// group's top key `(page, y0, y1)`.
pub open spec fn column_of(keys: Seq<(usize, i32, i32)>, i: int) -> nat {
    count_before(keys, i, keys.len() as int) + 1
}

pub fn column_in_page(keys: &Vec<(usize, i32, i32)>, i: usize) -> (c: usize)
    requires
        i < keys@.len(),
    ensures
        c == column_of(keys@, i as int),
{
    let mut n: usize = 0;
    let mut k: usize = 0;
    while k < keys.len()
        invariant
            k <= keys@.len(),
            i < keys@.len(),
            n == count_before(keys@, i as int, k as int),
            n <= k,
            k > i ==> n < k,
        decreases keys.len() - k,
    {
        let (p, a0, a1) = keys[k];
        let (q, b0, b1) = keys[i];
        if p == q && (a0 < b0 || (a0 == b0 && (a1 < b1 || (a1 == b1 && k < i)))) {
            n += 1;
        }
        k += 1;
    }
    n + 1
}

/// The label of a group row: `跨页 ` when its blocks span pages, its number
/// (counting from 1), its page and column, and its member labels.
pub open spec fn group_row_text(
    index: nat,
    cross: bool,
    page_no: nat,
    column: nat,
    members: Seq<Seq<char>>,
) -> Seq<char> {
    (if cross { "跨页 "@ } else { Seq::empty() }) + decimal(index + 1) + ". p"@ + decimal(page_no) + seq!['c']
        + decimal(column) + " | ["@ + joined(members, ", "@) + seq![']']
}

pub fn group_row_label(index: usize, cross: bool, page_no: usize, column: usize, members: &Vec<String>) -> (r: String)
    requires
        index < usize::MAX,
    ensures
        r@ == group_row_text(index as nat, cross, page_no as nat, column as nat, members@.map_values(|m: String| m@)),
{
    let ghost ms = members@.map_values(|m: String| m@);
    let mut s = if cross { String::from_str("跨页 ") } else { String::new() };
    let ghost head = s@;
    push_decimal(&mut s, (index + 1) as u128);
    s.append(". p");
    push_decimal(&mut s, page_no as u128);
    s.append("c");
    push_decimal(&mut s, column as u128);
    s.append(" | [");
    let ghost pre = s@;
    let mut i: usize = 0;
    while i < members.len()
        invariant
            i <= members@.len(),
            ms == members@.map_values(|m: String| m@),
            s@ == pre + joined(ms.take(i as int), ", "@),
        decreases members.len() - i,
    {
        if i > 0 {
            s.append(", ");
        }
        s.append(members[i].as_str());
        proof {
            assert(ms.take(i + 1).drop_last() =~= ms.take(i as int));
            if i == 0 {
                assert(ms.take(1)[0] == members@[0]@);
                assert(s@ =~= pre + joined(ms.take(i + 1), ", "@));
            } else {
                assert(ms.take(i + 1).last() == members@[i as int]@);
                assert(s@ =~= pre + joined(ms.take(i + 1), ", "@));
            }
        }
        i += 1;
    }
    s.append("]");
    proof {
        assert(ms.take(i as int) =~= ms);
        reveal_strlit("c");
        reveal_strlit("]");
        assert(s@ =~= group_row_text(index as nat, cross, page_no as nat, column as nat, ms));
    }
    s
}

/// The three labels of a block row: `P<page> <kind>  `, `y=<y0>-<y1>` and
/// `  h=<height>` with the height `y1 - y0 + 1`.
pub fn block_row_labels(page_no: usize, kind: &str, y0: i32, y1: i32) -> (r: (String, String, String))
    requires
        i32::MIN <= y1 - y0 + 1 <= i32::MAX,
    ensures
        r.0@ == seq!['P'] + decimal(page_no as nat) + seq![' '] + kind@ + "  "@,
        r.1@ == "y="@ + signed_decimal(y0 as int) + seq!['-'] + signed_decimal(y1 as int),
        r.2@ == "  h="@ + signed_decimal(y1 - y0 + 1),
{
    let mut a = String::from_str("P");
    push_decimal(&mut a, page_no as u128);
    a.append(" ");
    a.append(kind);
    a.append("  ");
    let mut b = String::from_str("y=");
    push_signed_decimal(&mut b, y0 as i64);
    b.append("-");
    push_signed_decimal(&mut b, y1 as i64);
    let h = y1 as i64 - y0 as i64 + 1;
    let mut c = String::from_str("  h=");
    push_signed_decimal(&mut c, h);
    proof {
        reveal_strlit("P");
        reveal_strlit(" ");
        reveal_strlit("-");
    }
    assert(a@ =~= seq!['P'] + decimal(page_no as nat) + seq![' '] + kind@ + "  "@);
    assert(b@ =~= "y="@ + signed_decimal(y0 as int) + seq!['-'] + signed_decimal(y1 as int));
    (a, b, c)
}

proof fn lemma_count_grows(keys: Seq<(usize, i32, i32)>, i: int, j: int, m: int)
    requires
        0 <= i < keys.len(),
        0 <= j < keys.len(),
        0 <= m <= keys.len(),
        sorts_before(keys, i, j),
    ensures
        count_before(keys, i, m) + (if i < m { 1int } else { 0int }) <= count_before(keys, j, m),
    decreases m,
{
    if m > 0 {
        lemma_count_grows(keys, i, j, m - 1);
        let k = m - 1;
        if sorts_before(keys, k, i) {
            assert(sorts_before(keys, k, j));
        }
        if k == i {
            assert(!sorts_before(keys, i, i));
        }
    }
}

/// The groups on one page get different column numbers, each between 1
/// and the number of groups.
pub proof fn lemma_columns_distinct(keys: Seq<(usize, i32, i32)>, i: int, j: int)
    requires
        0 <= i < keys.len(),
        0 <= j < keys.len(),
        i != j,
        keys[i].0 == keys[j].0,
    ensures
        column_of(keys, i) != column_of(keys, j),
        1 <= column_of(keys, i) <= keys.len(),
{
    if sorts_before(keys, i, j) {
        lemma_count_grows(keys, i, j, keys.len() as int);
    } else {
        assert(sorts_before(keys, j, i));
        lemma_count_grows(keys, j, i, keys.len() as int);
    }
    lemma_count_below(keys, i, keys.len() as int);
}

proof fn lemma_count_below(keys: Seq<(usize, i32, i32)>, i: int, m: int)
    requires
        0 <= i < keys.len(),
        0 <= m <= keys.len(),
    ensures
        count_before(keys, i, m) + (if i < m { 1int } else { 0int }) <= m,
    decreases m,
{
    if m > 0 {
        lemma_count_below(keys, i, m - 1);
        if m - 1 == i {
            assert(!sorts_before(keys, i, i));
        }
    }
}

}
