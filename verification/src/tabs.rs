//! Page-tab captions: `badge:title` with long PDF names shortened by display
//! columns while the trailing `_pNNN...` page suffix is kept whole.

use vstd::prelude::*;
use crate::text::{push_char, push_chars, str_to_chars, string_from_chars, string_from_range, take_range};

verus! {

/// Widest middle part of a tab caption, in display columns (ASCII = 1, CJK = 2).
pub const TAB_LABEL_NAME_COLS: usize = 11;

/// The ellipsis inserted where a tab caption was shortened.
pub open spec fn caption_ellipsis() -> Seq<char> {
    seq!['\u{2026}', '\u{2026}']
}

pub open spec fn is_ascii_digit(c: char) -> bool {
    '0' <= c && c <= '9'
}

/// `t[i..]` starts with `_p` followed by an ASCII digit.
pub open spec fn is_page_mark_at(t: Seq<char>, i: int) -> bool {
    &&& 0 <= i
    &&& i + 2 < t.len()
    &&& t[i] == '_'
    &&& t[i + 1] == 'p'
    &&& is_ascii_digit(t[i + 2])
}

/// The greatest `i < k` at which a page mark starts, or -1.
pub open spec fn last_mark_below(t: Seq<char>, k: int) -> int
    decreases k,
{
    if k <= 0 {
        -1
    } else if is_page_mark_at(t, k - 1) {
        k - 1
    } else {
        last_mark_below(t, k - 1)
    }
}

/// Where the page suffix of a title starts: its last page mark, or -1.
pub open spec fn png_suffix_start(t: Seq<char>) -> int {
    last_mark_below(t, t.len() as int)
}

/// The page suffix of a title: from its last `_p<digit>` to the end,
/// or empty when the title has no such mark.
pub open spec fn png_suffix(t: Seq<char>) -> Seq<char> {
    let i = png_suffix_start(t);
    if i < 0 { Seq::empty() } else { t.subrange(i, t.len() as int) }
}

/// Display columns of one character: 2 for the wide (CJK and similar) blocks, else 1.
pub open spec fn char_cols(c: char) -> nat {
    let u = c as u32;
    if u < 0x1100 {
        1
    } else if (0x1100 <= u && u <= 0x115F) || (0x2329 <= u && u <= 0x232A) || (0x2E80 <= u
        && u <= 0x303E) || (0x3040 <= u && u <= 0xA4CF) || (0xAC00 <= u && u <= 0xD7A3) || (
    0xF900 <= u && u <= 0xFAFF) || (0xFE10 <= u && u <= 0xFE19) || (0xFE30 <= u && u
        <= 0xFE6F) || (0xFF00 <= u && u <= 0xFF60) || (0xFFE0 <= u && u <= 0xFFE6) || (
    0x1F300 <= u && u <= 0x1F64F) || (0x1F900 <= u && u <= 0x1F9FF) || (0x20000 <= u && u
        <= 0x3FFFD) {
        2
    } else {
        1
    }
}

/// Display columns of a character sequence.
pub open spec fn seq_cols(s: Seq<char>) -> nat
    decreases s.len(),
{
    if s.len() == 0 {
        0
    } else {
        seq_cols(s.drop_last()) + char_cols(s.last())
    }
}

/// The number of leading characters of `s` that fit in `max` columns.
pub open spec fn fit_len(s: Seq<char>, max: nat) -> nat
    decreases s.len(),
{
    if s.len() == 0 || char_cols(s[0]) > max {
        0
    } else {
        1 + fit_len(s.drop_first(), (max - char_cols(s[0])) as nat)
    }
}

pub open spec fn prefix_view(mark: Seq<char>, badge: Seq<char>) -> Seq<char> {
    mark + badge + seq![':']
}

/// The caption shown on a page tab (the first part of the pair) and the full
/// caption used for its tooltip (the second part).
pub open spec fn tab_caption(mark: Seq<char>, badge: Seq<char>, title: Seq<char>) -> (Seq<char>, Seq<char>) {
    let prefix = mark + badge + seq![':'];
    let full = prefix + title;
    let suffix = png_suffix(title);
    let middle = title.subrange(0, title.len() - suffix.len());
    if seq_cols(middle) <= TAB_LABEL_NAME_COLS {
        (full, full)
    } else {
        (prefix + middle.take(fit_len(middle, TAB_LABEL_NAME_COLS as nat) as int)
            + caption_ellipsis() + suffix, full)
    }
}

/// A name cut to `max_chars` characters, the last of them an ellipsis.
pub open spec fn truncated_name(name: Seq<char>, max_chars: nat) -> Seq<char> {
    if name.len() <= max_chars {
        name
    } else {
        name.take(if max_chars == 0 { 0 } else { max_chars - 1 }).push('\u{2026}')
    }
}

proof fn lemma_last_mark_bounds(t: Seq<char>, k: int)
    requires
        k >= 0,
    ensures
        last_mark_below(t, k) < k,
        last_mark_below(t, k) >= -1,
        last_mark_below(t, k) >= 0 ==> is_page_mark_at(t, last_mark_below(t, k)),
    decreases k,
{
    if k > 0 && !is_page_mark_at(t, k - 1) {
        lemma_last_mark_bounds(t, k - 1);
    }
}

proof fn lemma_no_mark_in_tail(t: Seq<char>, i: int, k: int)
    requires
        0 <= i <= k <= t.len(),
        i + 2 >= t.len(),
    ensures
        last_mark_below(t, k) == last_mark_below(t, i),
    decreases k - i,
{
    if k > i {
        lemma_no_mark_in_tail(t, i, k - 1);
    }
}

/// Start of the page suffix in `t`, if any (the last `_p<digit>`).
fn page_suffix_start(t: &Vec<char>) -> (r: Option<usize>)
    ensures
        match r {
            Some(i) => i as int == png_suffix_start(t@),
            None => png_suffix_start(t@) < 0,
        },
{
    let n = t.len();
    let mut last: Option<usize> = None;
    let mut i: usize = 0;
    while n >= 2 && i < n - 2
        invariant
            n == t@.len(),
            i <= n,
            match last {
                Some(j) => j as int == last_mark_below(t@, i as int),
                None => last_mark_below(t@, i as int) < 0,
            },
        decreases n - i,
    {
        if t[i] == '_' && t[i + 1] == 'p' && '0' <= t[i + 2] && t[i + 2] <= '9' {
            last = Some(i);
        }
        i += 1;
    }
    proof {
        lemma_no_mark_in_tail(t@, i as int, n as int);
    }
    last
}

/// The page suffix of a tab title: from its last `_p` followed by a digit to the
/// end (for example `_p007.png` or `_p007_copy.png`); empty when there is none.
pub fn page_tab_png_suffix(title: &str) -> (r: String)
    ensures
        r@ == png_suffix(title@),
{
    let t = str_to_chars(title);
    match page_suffix_start(&t) {
        Some(i) => {
            proof {
                lemma_last_mark_bounds(t@, t@.len() as int);
            }
            string_from_range(&t, i, t.len())
        },
        None => String::new(),
    }
}

}

verus! {

/// Display columns of one character: 1 for narrow, 2 for wide (full-width) ones.
pub fn ch_cols(c: char) -> (w: usize)
    ensures
        w == char_cols(c),
        1 <= w <= 2,
{
    let u = c as u32;
    if u < 0x1100 {
        return 1;
    }
    let wide = (0x1100 <= u && u <= 0x115F) || (0x2329 <= u && u <= 0x232A) || (0x2E80 <= u
        && u <= 0x303E) || (0x3040 <= u && u <= 0xA4CF) || (0xAC00 <= u && u <= 0xD7A3) || (
    0xF900 <= u && u <= 0xFAFF) || (0xFE10 <= u && u <= 0xFE19) || (0xFE30 <= u && u
        <= 0xFE6F) || (0xFF00 <= u && u <= 0xFF60) || (0xFFE0 <= u && u <= 0xFFE6) || (
    0x1F300 <= u && u <= 0x1F64F) || (0x1F900 <= u && u <= 0x1F9FF) || (0x20000 <= u && u
        <= 0x3FFFD);
    if wide {
        2
    } else {
        1
    }
}

proof fn lemma_cols_take_step(s: Seq<char>, i: int)
    requires
        0 <= i < s.len(),
    ensures
        seq_cols(s.take(i + 1)) == seq_cols(s.take(i)) + char_cols(s[i]),
{
    assert(s.take(i + 1).drop_last() =~= s.take(i));
}

proof fn lemma_cols_bounds(s: Seq<char>)
    ensures
        s.len() <= seq_cols(s) <= 2 * s.len(),
    decreases s.len(),
{
    if s.len() > 0 {
        lemma_cols_bounds(s.drop_last());
    }
}

/// Display columns of a string: the sum of `ch_cols` over its characters.
pub fn str_cols(s: &str) -> (n: usize)
    requires
        s@.len() <= usize::MAX / 2,
    ensures
        n == seq_cols(s@),
{
    let v = str_to_chars(s);
    let mut cols: usize = 0;
    let mut i: usize = 0;
    while i < v.len()
        invariant
            v@ == s@,
            v@.len() <= usize::MAX / 2,
            i <= v@.len(),
            cols == seq_cols(v@.take(i as int)),
        decreases v.len() - i,
    {
        proof {
            lemma_cols_step_bound(v@, i as int);
        }
        cols = cols + ch_cols(v[i]);
        i += 1;
    }
    assert(v@.take(v@.len() as int) =~= v@);
    cols
}

proof fn lemma_cols_step_bound(s: Seq<char>, i: int)
    requires
        0 <= i < s.len(),
    ensures
        seq_cols(s.take(i + 1)) == seq_cols(s.take(i)) + char_cols(s[i]),
        seq_cols(s.take(i)) <= 2 * i,
{
    lemma_cols_take_step(s, i);
    lemma_cols_bounds(s.take(i));
}

/// How many leading characters of `v` fit in `max` columns.
fn fit_prefix_len(v: &Vec<char>, max: usize) -> (k: usize)
    ensures
        k == fit_len(v@, max as nat),
        k <= v@.len(),
        seq_cols(v@.take(k as int)) <= max,
        k < v@.len() ==> seq_cols(v@.take(k + 1)) > max,
{
    let mut cols: usize = 0;
    let mut i: usize = 0;
    assert(v@.skip(0) =~= v@);
    assert(v@.take(0) =~= Seq::<char>::empty());
    while i < v.len()
        invariant
            i <= v@.len(),
            cols == seq_cols(v@.take(i as int)),
            cols <= max,
            fit_len(v@, max as nat) == i + fit_len(v@.skip(i as int), (max - cols) as nat),
        decreases v.len() - i,
    {
        let w = ch_cols(v[i]);
        proof {
            lemma_cols_take_step(v@, i as int);
            assert(v@.skip(i as int)[0] == v@[i as int]);
        }
        if w > max - cols {
            return i;
        }
        proof {
            assert(v@.skip(i as int).drop_first() =~= v@.skip(i + 1));
        }
        cols = cols + w;
        i += 1;
    }
    i
}

/// The longest prefix of `s` that fits in `max` display columns.
pub fn take_cols(s: &str, max: usize) -> (r: String)
    ensures
        r@ == s@.take(fit_len(s@, max as nat) as int),
        seq_cols(r@) <= max,
        r@.len() < s@.len() ==> seq_cols(s@.take(r@.len() + 1 as int)) > max,
{
    let v = str_to_chars(s);
    let k = fit_prefix_len(&v, max);
    let r = string_from_range(&v, 0, k);
    assert(v@.subrange(0, k as int) =~= v@.take(k as int));
    r
}

/// Whether `v[..end]` needs more than `max` display columns.
fn cols_exceed(v: &Vec<char>, end: usize, max: usize) -> (b: bool)
    requires
        end <= v@.len(),
    ensures
        b == (seq_cols(v@.take(end as int)) > max),
{
    let mut cols: usize = 0;
    let mut i: usize = 0;
    while i < end
        invariant
            end <= v@.len(),
            i <= end,
            cols == seq_cols(v@.take(i as int)),
            cols <= max,
        decreases end - i,
    {
        proof {
            lemma_cols_take_step(v@, i as int);
        }
        let w = ch_cols(v[i]);
        if w > max - cols {
            proof {
                lemma_cols_prefix_monotone(v@.take(end as int), i + 1);
                assert(v@.take(end as int).take(i + 1) =~= v@.take(i + 1));
            }
            return true;
        }
        cols = cols + w;
        i += 1;
    }
    false
}

proof fn lemma_cols_prefix_monotone(s: Seq<char>, k: int)
    requires
        0 <= k <= s.len(),
    ensures
        seq_cols(s.take(k)) <= seq_cols(s),
    decreases s.len() - k,
{
    if k < s.len() {
        lemma_cols_take_step(s, k);
        lemma_cols_prefix_monotone(s, k + 1);
    } else {
        assert(s.take(k) =~= s);
    }
}

/// The caption of a page tab and its full text: `mark badge:title`, where a
/// title whose part before the page suffix is wider than
/// `TAB_LABEL_NAME_COLS` columns is cut to fit and followed by `……` and the
/// page suffix.
pub fn format_page_tab_caption(mark: &str, badge: &str, title: &str) -> (r: (String, String))
    ensures
        (r.0@, r.1@) == tab_caption(mark@, badge@, title@),
{
    let mut prefix = String::from_str(mark);
    prefix.append(badge);
    push_char(&mut prefix, ':');
    let mut full = prefix.clone();
    full.append(title);
    let t = str_to_chars(title);
    let n = t.len();
    let end = match page_suffix_start(&t) {
        Some(i) => i,
        None => n,
    };
    proof {
        lemma_last_mark_bounds(t@, t@.len() as int);
        assert(t@.subrange(0, end as int) =~= t@.take(end as int));
    }
    if !cols_exceed(&t, end, TAB_LABEL_NAME_COLS) {
        let shown = full.clone();
        return (shown, full);
    }
    let middle = take_range(&t, 0, end);
    let k = fit_prefix_len(&middle, TAB_LABEL_NAME_COLS);
    let ghost pv = prefix@;
    let mut shown = prefix;
    let head = take_range(&middle, 0, k);
    push_chars(&mut shown, head.as_slice());
    push_char(&mut shown, '\u{2026}');
    push_char(&mut shown, '\u{2026}');
    let tail = take_range(&t, end, n);
    push_chars(&mut shown, tail.as_slice());
    proof {
        assert(head@ =~= middle@.take(k as int));
        assert(shown@ =~= prefix_view(mark@, badge@) + middle@.take(k as int) + caption_ellipsis() + tail@);
    }
    (shown, full)
}

}

verus! {

/// `name` itself when it has at most `max_chars` characters; otherwise its
/// first `max_chars - 1` characters followed by `…`.
pub fn truncate_name(name: &str, max_chars: usize) -> (r: String)
    ensures
        r@ == truncated_name(name@, max_chars as nat),
{
    let v = str_to_chars(name);
    if v.len() <= max_chars {
        return String::from_str(name);
    }
    let keep = if max_chars == 0 { 0 } else { max_chars - 1 };
    let mut r = string_from_range(&v, 0, keep);
    push_char(&mut r, '\u{2026}');
    assert(v@.subrange(0, keep as int) =~= v@.take(keep as int));
    r
}

proof fn lemma_cols_cons(s: Seq<char>)
    requires
        s.len() > 0,
    ensures
        seq_cols(s) == char_cols(s[0]) + seq_cols(s.drop_first()),
    decreases s.len(),
{
    if s.len() == 1 {
        assert(s.drop_last() =~= Seq::<char>::empty());
        assert(s.drop_first() =~= Seq::<char>::empty());
    } else {
        lemma_cols_cons(s.drop_last());
        assert(s.drop_last().drop_first() =~= s.drop_first().drop_last());
        assert(s.drop_first().last() == s.last());
    }
}

proof fn lemma_fit_len(s: Seq<char>, max: nat)
    ensures
        fit_len(s, max) <= s.len(),
        seq_cols(s.take(fit_len(s, max) as int)) <= max,
        seq_cols(s) > max ==> fit_len(s, max) < s.len(),
    decreases s.len(),
{
    if s.len() == 0 || char_cols(s[0]) > max {
        assert(s.take(0) =~= Seq::<char>::empty());
    } else {
        let rest = s.drop_first();
        let m2 = (max - char_cols(s[0])) as nat;
        lemma_fit_len(rest, m2);
        let f = fit_len(rest, m2);
        let t = s.take((1 + f) as int);
        lemma_cols_cons(t);
        assert(t.drop_first() =~= rest.take(f as int));
        lemma_cols_cons(s);
    }
}

/// The page suffix is what the caption keeps: it is empty when the title has
/// no `_p<digit>` mark, and otherwise runs from the last such mark to the end.
pub proof fn lemma_png_suffix_is_last_mark(t: Seq<char>)
    ensures
        png_suffix(t).len() == 0 ==> forall|i: int| !#[trigger] is_page_mark_at(t, i),
        png_suffix(t).len() > 0 ==> exists|i: int| {
            &&& is_page_mark_at(t, i)
            &&& png_suffix(t) == t.skip(i)
            &&& forall|j: int| i < j ==> !#[trigger] is_page_mark_at(t, j)
        },
{
    lemma_last_mark_below_is_last(t, t.len() as int);
    let i = png_suffix_start(t);
    if i >= 0 {
        assert(t.subrange(i, t.len() as int) =~= t.skip(i));
    }
}

proof fn lemma_last_mark_below_is_last(t: Seq<char>, k: int)
    requires
        0 <= k <= t.len(),
    ensures
        last_mark_below(t, k) >= 0 ==> is_page_mark_at(t, last_mark_below(t, k)),
        forall|j: int| last_mark_below(t, k) < j < k ==> !#[trigger] is_page_mark_at(t, j),
        forall|j: int| k <= j ==> !#[trigger] is_page_mark_at(t, j) || j + 2 < t.len(),
        -1 <= last_mark_below(t, k) < k,
    decreases k,
{
    lemma_last_mark_bounds(t, k);
    if k > 0 && !is_page_mark_at(t, k - 1) {
        lemma_last_mark_below_is_last(t, k - 1);
    }
}

/// A page-tab caption is shortened only when it has to be: the full caption
/// is `mark badge:title`; when the title's part before its page suffix fits
/// in `TAB_LABEL_NAME_COLS` columns the shown caption is the full one;
/// otherwise it is the prefix, a strictly shorter start of that part that
/// fits, `……` and the page suffix.
pub proof fn lemma_caption_shortens_only_when_needed(mark: Seq<char>, badge: Seq<char>, title: Seq<char>)
    ensures
        ({
            let prefix = mark + badge + seq![':'];
            let suffix = png_suffix(title);
            let mid = title.take(title.len() - suffix.len());
            let shown = tab_caption(mark, badge, title).0;
            let full = tab_caption(mark, badge, title).1;
            &&& full == prefix + title
            &&& title == mid + suffix
            &&& seq_cols(mid) <= TAB_LABEL_NAME_COLS ==> shown == full
            &&& seq_cols(mid) > TAB_LABEL_NAME_COLS ==> exists|k: int| {
                &&& 0 <= k < mid.len()
                &&& seq_cols(#[trigger] mid.take(k)) <= TAB_LABEL_NAME_COLS
                &&& shown == prefix + mid.take(k) + caption_ellipsis() + suffix
            }
        }),
{
    lemma_last_mark_bounds(title, title.len() as int);
    let suffix = png_suffix(title);
    let mid = title.take(title.len() - suffix.len());
    assert(title.subrange(0, title.len() - suffix.len()) =~= mid);
    assert(title =~= mid + suffix);
    lemma_fit_len(mid, TAB_LABEL_NAME_COLS as nat);
    let k = fit_len(mid, TAB_LABEL_NAME_COLS as nat) as int;
    if seq_cols(mid) > TAB_LABEL_NAME_COLS {
        assert(seq_cols(mid.take(k)) <= TAB_LABEL_NAME_COLS);
    }
}

/// A name is cut only when it is longer than the limit: then the result has
/// exactly `max_chars` characters (one for a limit of 0), ends with `…`, and
/// before it holds the start of the name.
pub proof fn lemma_truncated_name_fits(name: Seq<char>, max_chars: nat)
    ensures
        name.len() <= max_chars ==> truncated_name(name, max_chars) == name,
        name.len() > max_chars ==> {
            let r = truncated_name(name, max_chars);
            &&& r.len() == (if max_chars == 0 { 1 } else { max_chars })
            &&& r.last() == '\u{2026}'
            &&& r.drop_last() == name.take(r.len() - 1)
        },
{
    if name.len() > max_chars {
        let r = truncated_name(name, max_chars);
        assert(r.drop_last() =~= name.take(r.len() - 1));
    }
}

}
