//! Background-layer panel: colours, the recent-colour strip, the solid
//! background size, thumbnails, the BGRA texture layout and the paper colour.

use vstd::prelude::*;
use crate::text::{parse_int_in, parse_trimmed_u32, parse_trimmed_u8, trimmed};

verus! {

/// An 8-bit RGB colour.
#[derive(Clone, Copy, PartialEq, Eq, Structural, Debug)]
pub struct Rgb8 {
    pub r: u8,
    pub g: u8,
    pub b: u8,
}

/// Most colours the recent-colour strip keeps.
pub const BG_RECENT_MAX: usize = 24;

/// `0xRRGGBB`.
pub fn color_u32(c: Rgb8) -> (v: u32)
    ensures
        v == c.r * 65536 + c.g * 256 + c.b,
{
    let r = c.r as u32;
    let g = c.g as u32;
    let b = c.b as u32;
    assert((r << 16) | (g << 8) | b == r * 65536 + g * 256 + b) by (bit_vector)
        requires
            r < 256,
            g < 256,
            b < 256,
    ;
    (r << 16) | (g << 8) | b
}

/// `s` with every occurrence of `x` removed, order kept.
pub open spec fn without<T>(s: Seq<T>, x: T) -> Seq<T>
    decreases s.len(),
{
    if s.len() == 0 {
        s
    } else if s.last() == x {
        without(s.drop_last(), x)
    } else {
        without(s.drop_last(), x).push(s.last())
    }
}

/// The recent-colour strip after using `c`: `c` first, then the earlier colours
/// other than `c` in their order, at most `BG_RECENT_MAX` in all.
pub open spec fn recent_after(recent: Seq<Rgb8>, c: Rgb8) -> Seq<Rgb8> {
    let s = seq![c] + without(recent, c);
    if s.len() > BG_RECENT_MAX { s.take(BG_RECENT_MAX as int) } else { s }
}

/// Moves `color` to the front of the recent-colour strip (adding it when new)
/// and keeps at most `BG_RECENT_MAX` colours.
pub fn push_bg_recent(recent: &mut Vec<Rgb8>, color: Rgb8)
    ensures
        final(recent)@ == recent_after(old(recent)@, color),
{
    let mut out: Vec<Rgb8> = Vec::new();
    out.push(color);
    let mut i: usize = 0;
    while i < recent.len()
        invariant
            i <= recent@.len(),
            out@ == seq![color] + without(recent@.take(i as int), color),
        decreases recent.len() - i,
    {
        let c = recent[i];
        proof {
            assert(recent@.take(i + 1).drop_last() =~= recent@.take(i as int));
        }
        if c != color {
            out.push(c);
        }
        i += 1;
        proof {
            assert(out@ =~= seq![color] + without(recent@.take(i as int), color));
        }
    }
    assert(recent@.take(recent@.len() as int) =~= recent@);
    out.truncate(BG_RECENT_MAX);
    proof {
        let s = seq![color] + without(old(recent)@, color);
        assert(out@ =~= recent_after(old(recent)@, color));
    }
    *recent = out;
}

proof fn lemma_without_props<T>(s: Seq<T>, x: T)
    ensures
        without(s, x).len() <= s.len(),
        forall|i: int| 0 <= i < without(s, x).len() ==> without(s, x)[i] != x && s.contains(#[trigger] without(s, x)[i]),
        forall|i: int| 0 <= i < s.len() && s[i] != x ==> without(s, x).contains(#[trigger] s[i]),
        s.no_duplicates() ==> without(s, x).no_duplicates(),
    decreases s.len(),
{
    if s.len() > 0 {
        let p = s.drop_last();
        lemma_without_props(p, x);
        assert forall|i: int| 0 <= i < s.len() && s[i] != x implies without(s, x).contains(#[trigger] s[i]) by {
            if i < s.len() - 1 {
                assert(p[i] == s[i]);
                let w = without(p, x);
                let k = choose|k: int| 0 <= k < w.len() && w[k] == s[i];
                if s.last() != x {
                    assert(without(s, x)[k] == s[i]);
                } else {
                    assert(without(s, x)[k] == s[i]);
                }
            } else {
                assert(without(s, x).last() == s[i]);
            }
        }
        assert forall|i: int| 0 <= i < without(s, x).len() implies without(s, x)[i] != x && s.contains(#[trigger] without(s, x)[i]) by {
            let w = without(p, x);
            if i < w.len() {
                assert(without(s, x)[i] == w[i]);
                let k = choose|k: int| 0 <= k < p.len() && p[k] == w[i];
                assert(s[k] == w[i]);
            } else {
                assert(without(s, x)[i] == s.last());
                assert(s[s.len() - 1] == s.last());
            }
        }
        if s.no_duplicates() && s.last() != x {
            let w = without(p, x);
            assert(p.no_duplicates());
            assert forall|i: int| 0 <= i < w.len() implies w[i] != s.last() by {
                let k = choose|k: int| 0 <= k < p.len() && p[k] == w[i];
                assert(s[k] == w[i]);
            }
        }
    }
}

/// The colour just used is first in the strip and appears once; the strip
/// never exceeds `BG_RECENT_MAX` colours and never holds a colour twice
/// (given that it did not before); every other colour that was in the strip
/// is still there while the strip has room for it.
pub proof fn lemma_recent_strip(recent: Seq<Rgb8>, c: Rgb8)
    requires
        recent.no_duplicates(),
    ensures
        recent_after(recent, c)[0] == c,
        recent_after(recent, c).len() <= BG_RECENT_MAX,
        recent_after(recent, c).no_duplicates(),
        recent.len() < BG_RECENT_MAX ==> forall|i: int| 0 <= i < recent.len() ==> recent_after(recent, c).contains(#[trigger] recent[i]),
{
    lemma_without_props(recent, c);
    let w = without(recent, c);
    let s = seq![c] + w;
    assert(s[0] == c);
    assert(s.no_duplicates()) by {
        assert forall|i: int, j: int| 0 <= i < s.len() && 0 <= j < s.len() && i != j implies s[i] != s[j] by {
            if i > 0 && j > 0 {
                assert(s[i] == w[i - 1] && s[j] == w[j - 1]);
            } else if i == 0 {
                assert(s[j] == w[j - 1]);
            } else {
                assert(s[i] == w[i - 1]);
            }
        }
    }
    if recent.len() < BG_RECENT_MAX {
        assert forall|i: int| 0 <= i < recent.len() implies recent_after(recent, c).contains(#[trigger] recent[i]) by {
            if recent[i] == c {
                assert(s[0] == recent[i]);
            } else {
                let k = choose|k: int| 0 <= k < w.len() && w[k] == recent[i];
                assert(s[k + 1] == recent[i]);
            }
        }
    }
}

}

verus! {

/// The widest page, or `dflt` when there are no pages.
pub open spec fn widest(widths: Seq<u32>, dflt: u32) -> u32 {
    if widths.len() == 0 { dflt } else { seq_max(widths) }
}

pub open spec fn seq_max(s: Seq<u32>) -> u32
    decreases s.len(),
{
    if s.len() <= 1 {
        s[0]
    } else if s.last() > seq_max(s.drop_last()) {
        s.last()
    } else {
        seq_max(s.drop_last())
    }
}

/// Size of a solid-colour background for pages of the given widths and the
/// aspect ratio `aspect_w : aspect_h` (each at least 1): twice the widest page
/// (and at least the aspect width), kept within 2560..=8192, with the height
/// from the aspect ratio, within 1..=8192.
pub open spec fn solid_bg_size_spec(aspect_w: u32, aspect_h: u32, widths: Seq<u32>) -> (u32, u32) {
    let aw: int = if aspect_w > 1 { aspect_w as int } else { 1 };
    let ah: int = if aspect_h > 1 { aspect_h as int } else { 1 };
    let mw0 = widest(widths, aw as u32) as int;
    let mw = if mw0 > aw { mw0 } else { aw };
    let dbl = if mw * 2 > u32::MAX { u32::MAX as int } else { mw * 2 };
    let w = if dbl < 2560 { 2560 } else if dbl > 8192 { 8192 } else { dbl };
    let h0 = (w * ah) / aw;
    let h = if h0 < 1 { 1 } else if h0 > 8192 { 8192 } else { h0 };
    (w as u32, h as u32)
}

proof fn lemma_u32_product_fits(a: u32, b: u32)
    ensures
        a * b <= u64::MAX,
{
    assert(a * b <= 0xffff_ffff * 0xffff_ffff) by (nonlinear_arith)
        requires
            a <= 0xffff_ffff,
            b <= 0xffff_ffff,
    ;
}

/// The size `(w, h)` of a solid-colour background layer.
pub fn solid_bg_size(aspect_w: u32, aspect_h: u32, page_widths: &[u32]) -> (r: (u32, u32))
    ensures
        r == solid_bg_size_spec(aspect_w, aspect_h, page_widths@),
{
    let aw = if aspect_w > 1 { aspect_w } else { 1 };
    let ah = if aspect_h > 1 { aspect_h } else { 1 };
    let mut mw0 = aw;
    if page_widths.len() > 0 {
        mw0 = page_widths[0];
        let mut i: usize = 1;
        assert(seq_max(page_widths@.take(1)) == page_widths@[0]);
        while i < page_widths.len()
            invariant
                1 <= i <= page_widths@.len(),
                mw0 == seq_max(page_widths@.take(i as int)),
            decreases page_widths.len() - i,
        {
            assert(page_widths@.take(i + 1).drop_last() =~= page_widths@.take(i as int));
            if page_widths[i] > mw0 {
                mw0 = page_widths[i];
            }
            i += 1;
        }
        assert(page_widths@.take(page_widths@.len() as int) =~= page_widths@);
    }
    let mw = if mw0 > aw { mw0 } else { aw };
    let dbl: u32 = if mw > u32::MAX / 2 { u32::MAX } else { mw * 2 };
    let w = if dbl < 2560 { 2560 } else if dbl > 8192 { 8192 } else { dbl };
    proof {
        lemma_u32_product_fits(w, ah);
    }
    let h0 = (w as u64 * ah as u64) / aw as u64;
    let h = if h0 < 1 { 1 } else if h0 > 8192 { 8192 } else { h0 };
    (w, h as u32)
}

/// The size of a thumbnail no larger than `max_side` on its longer side, or
/// `None` when the image already fits (it is then used as it is).
pub open spec fn thumbnail_dims_spec(w: u32, h: u32, max_side: u32) -> Option<(u32, u32)> {
    let m = if w > h { w } else { h };
    if m <= max_side {
        None
    } else {
        let tw = (w * max_side) / m as int;
        let th = (h * max_side) / m as int;
        Some(((if tw < 1 { 1 } else { tw }) as u32, (if th < 1 { 1 } else { th }) as u32))
    }
}

pub fn thumbnail_dims(w: u32, h: u32, max_side: u32) -> (r: Option<(u32, u32)>)
    ensures
        r == thumbnail_dims_spec(w, h, max_side),
        r matches Some((tw, th)) ==> 1 <= tw && 1 <= th && (max_side > 0 ==> tw <= max_side && th <= max_side),
{
    let m = if w > h { w } else { h };
    if m <= max_side {
        return None;
    }
    proof {
        lemma_u32_product_fits(w, max_side);
        lemma_u32_product_fits(h, max_side);
    }
    let tw = (w as u64 * max_side as u64) / m as u64;
    let th = (h as u64 * max_side as u64) / m as u64;
    assert(tw <= max_side) by (nonlinear_arith)
        requires
            tw as int == (w * max_side) / (m as int),
            w <= m,
            m > 0,
    ;
    assert(th <= max_side) by (nonlinear_arith)
        requires
            th as int == (h * max_side) / (m as int),
            h <= m,
            m > 0,
    ;
    let tw = if tw < 1 { 1 } else { tw };
    let th = if th < 1 { 1 } else { th };
    Some((tw as u32, th as u32))
}

/// The BGRA bytes (alpha 255) of packed RGB bytes, pixel by pixel; a trailing
/// partial pixel is dropped.
pub fn rgb_to_bgra(src: &[u8]) -> (out: Vec<u8>)
    ensures
        out@.len() == (src@.len() / 3) * 4,
        forall|p: int| 0 <= p < src@.len() / 3 ==> {
            &&& #[trigger] out@[4 * p] == src@[3 * p + 2]
            &&& out@[4 * p + 1] == src@[3 * p + 1]
            &&& out@[4 * p + 2] == src@[3 * p]
            &&& out@[4 * p + 3] == 255
        },
{
    let n = src.len() / 3;
    let mut out: Vec<u8> = Vec::new();
    let mut p: usize = 0;
    let mut j: usize = 0;
    while p < n
        invariant
            n == src@.len() / 3,
            p <= n,
            j == 3 * p,
            out@.len() == 4 * p,
            forall|q: int| 0 <= q < p ==> {
                &&& #[trigger] out@[4 * q] == src@[3 * q + 2]
                &&& out@[4 * q + 1] == src@[3 * q + 1]
                &&& out@[4 * q + 2] == src@[3 * q]
                &&& out@[4 * q + 3] == 255
            },
        decreases n - p,
    {
        assert(3 * p + 3 <= src@.len()) by (nonlinear_arith)
            requires
                p < n,
                n == src@.len() / 3,
        ;
        assert(j + 2 < src.len());
        let ghost before = out@;
        out.push(src[j + 2]);
        out.push(src[j + 1]);
        out.push(src[j]);
        out.push(255);
        assert(out@ == before + seq![src@[3 * p + 2], src@[3 * p + 1], src@[3 * p], 255u8]);
        assert forall|q: int| 0 <= q < p + 1 implies {
            &&& #[trigger] out@[4 * q] == src@[3 * q + 2]
            &&& out@[4 * q + 1] == src@[3 * q + 1]
            &&& out@[4 * q + 2] == src@[3 * q]
            &&& out@[4 * q + 3] == 255
        } by {
            if q < p {
                assert(out@[4 * q] == before[4 * q]);
                assert(out@[4 * q + 1] == before[4 * q + 1]);
                assert(out@[4 * q + 2] == before[4 * q + 2]);
                assert(out@[4 * q + 3] == before[4 * q + 3]);
            }
        }
        p += 1;
        j += 3;
    }
    out
}

/// The group after the current one in direction `dir` (±1), wrapping around
/// both ends; `None` when there are no groups or no direction.
pub fn cycle_index(cur: usize, dir: i32, n: usize) -> (r: Option<usize>)
    requires
        cur < n || n == 0,
        n <= i32::MAX,
    ensures
        (n == 0 || dir == 0) ==> r is None,
        (n > 0 && dir != 0) ==> r == Some(((cur + dir) % (n as int)) as usize),
{
    if n == 0 || dir == 0 {
        return None;
    }
    let m = n as u128;
    let shifted = (cur as i128 + dir as i128 + 0x8000_0000) as u128 + (m - 1) * 0x8000_0000;
    let e = shifted % m;
    proof {
        let s = cur + dir;
        assert(shifted as int == (n as int) * 0x8000_0000 + s) by (nonlinear_arith)
            requires
                shifted as int == s + 0x8000_0000 + (m as int - 1) * 0x8000_0000,
                m as int == n as int,
        ;
        vstd::arithmetic::div_mod::lemma_mod_multiples_vanish(0x8000_0000, s, n as int);
    }
    Some(e as usize)
}

}

verus! {

/// An RGB image held as packed bytes, row by row (`width * height * 3` of them).
pub struct RgbRaster {
    pub width: u32,
    pub height: u32,
    pub data: Vec<u8>,
}

impl RgbRaster {
    pub open spec fn wf(&self) -> bool {
        self.data@.len() == self.width * self.height * 3
    }
}

/// Colour assumed for the paper when there is no page image to look at.
pub open spec fn default_paper() -> Rgb8 {
    Rgb8 { r: 0xE8, g: 0xD4, b: 0xB0 }
}

/// Coordinate of grid line `i` of 8 evenly spread over `0..=len-1`.
pub open spec fn grid_coord(len: u32, i: int) -> int {
    ((len - 1) * i) / 7
}

/// Byte offset of channel `ch` of sample `k` of the 8×8 grid (row-major).
pub open spec fn sample_offset(w: u32, h: u32, k: int, ch: int) -> int {
    (grid_coord(h, k / 8) * w + grid_coord(w, k % 8)) * 3 + ch
}

/// Sum of channel `ch` over the first `k` grid samples.
pub open spec fn sample_sum(data: Seq<u8>, w: u32, h: u32, ch: int, k: int) -> int
    decreases k,
{
    if k <= 0 {
        0
    } else {
        sample_sum(data, w, h, ch, k - 1) + data[sample_offset(w, h, k - 1, ch)] as int
    }
}

/// Average colour of an 8×8 grid of samples spread evenly over the image,
/// corners included.
pub open spec fn paper_color(img: RgbRaster) -> Rgb8 {
    if img.width == 0 || img.height == 0 {
        default_paper()
    } else {
        Rgb8 {
            r: (sample_sum(img.data@, img.width, img.height, 0, 64) / 64) as u8,
            g: (sample_sum(img.data@, img.width, img.height, 1, 64) / 64) as u8,
            b: (sample_sum(img.data@, img.width, img.height, 2, 64) / 64) as u8,
        }
    }
}

proof fn lemma_sample_in_bounds(w: u32, h: u32, k: int)
    requires
        w > 0,
        h > 0,
        0 <= k < 64,
    ensures
        0 <= grid_coord(w, k % 8) < w,
        0 <= grid_coord(h, k / 8) < h,
        0 <= sample_offset(w, h, k, 0),
        sample_offset(w, h, k, 2) < w * h * 3,
{
    let xi = k % 8;
    let yi = k / 8;
    assert(0 <= xi <= 7 && 0 <= yi <= 7);
    let x = grid_coord(w, xi);
    let y = grid_coord(h, yi);
    assert(0 <= x <= w - 1) by (nonlinear_arith)
        requires
            x == ((w - 1) * xi) / 7,
            0 <= xi <= 7,
            w >= 1,
    ;
    assert(0 <= y <= h - 1) by (nonlinear_arith)
        requires
            y == ((h - 1) * yi) / 7,
            0 <= yi <= 7,
            h >= 1,
    ;
    assert((y * w + x) * 3 + 2 < w * h * 3) by (nonlinear_arith)
        requires
            0 <= x <= w - 1,
            0 <= y <= h - 1,
    ;
    assert(0 <= (y * w + x) * 3) by (nonlinear_arith)
        requires
            0 <= x,
            0 <= y,
            w >= 0,
    ;
}

proof fn lemma_sample_sum_bound(data: Seq<u8>, w: u32, h: u32, ch: int, k: int)
    requires
        0 <= k,
    ensures
        0 <= sample_sum(data, w, h, ch, k) <= 255 * k,
    decreases k,
{
    if k > 0 {
        lemma_sample_sum_bound(data, w, h, ch, k - 1);
    }
}

/// Estimates the paper colour of a page: the average of 8×8 samples spread
/// evenly over the image; the default paper colour without an image.
pub fn sample_paper_rgb(img: Option<&RgbRaster>) -> (c: Rgb8)
    requires
        img matches Some(i) ==> i.wf(),
    ensures
        img is None ==> c == default_paper(),
        img matches Some(i) ==> c == paper_color(*i),
        img matches Some(i) ==> (i.width > 0 && i.height > 0 ==> {
            &&& c.r as int == grid_total(i.data@, i.width, i.height, 0, 8) / 64
            &&& c.g as int == grid_total(i.data@, i.width, i.height, 1, 8) / 64
            &&& c.b as int == grid_total(i.data@, i.width, i.height, 2, 8) / 64
        }),
{
    let Some(img) = img else {
        return Rgb8 { r: 0xE8, g: 0xD4, b: 0xB0 };
    };
    let w = img.width;
    let h = img.height;
    if w == 0 || h == 0 {
        return Rgb8 { r: 0xE8, g: 0xD4, b: 0xB0 };
    }
    let mut rs: u64 = 0;
    let mut gs: u64 = 0;
    let mut bs: u64 = 0;
    let mut k: u64 = 0;
    while k < 64
        invariant
            k <= 64,
            w == img.width,
            h == img.height,
            w > 0 && h > 0,
            img.wf(),
            rs == sample_sum(img.data@, w, h, 0, k as int),
            gs == sample_sum(img.data@, w, h, 1, k as int),
            bs == sample_sum(img.data@, w, h, 2, k as int),
        decreases 64 - k,
    {
        proof {
            lemma_sample_in_bounds(w, h, k as int);
            lemma_sample_sum_bound(img.data@, w, h, 0, k as int);
            lemma_sample_sum_bound(img.data@, w, h, 1, k as int);
            lemma_sample_sum_bound(img.data@, w, h, 2, k as int);
        }
        let xi = k % 8;
        let yi = k / 8;
        let x = (w as u64 - 1) * xi / 7;
        let y = (h as u64 - 1) * yi / 7;
        assert(x == grid_coord(w, (k % 8) as int));
        assert(y == grid_coord(h, (k / 8) as int));
        let len = img.data.len();
        assert((y * w + x) * 3 + 2 < len);
        let yw = y * w as u64;
        let off = yw + x;
        let p = (off * 3) as usize;
        assert(p == sample_offset(w, h, k as int, 0));
        rs = rs + img.data[p] as u64;
        gs = gs + img.data[p + 1] as u64;
        bs = bs + img.data[p + 2] as u64;
        k += 1;
    }
    proof {
        lemma_sample_sum_bound(img.data@, w, h, 0, 64);
        lemma_sample_sum_bound(img.data@, w, h, 1, 64);
        lemma_sample_sum_bound(img.data@, w, h, 2, 64);
        lemma_paper_color_is_grid_average(*img);
    }
    Rgb8 { r: (rs / 64) as u8, g: (gs / 64) as u8, b: (bs / 64) as u8 }
}

/// The colour typed into the three RGB fields: each must be a number
/// `0..=255` after trimming. `None` while a field does not hold one, or when
/// the colour is `current` already.
pub open spec fn typed_rgb(r: Seq<char>, g: Seq<char>, b: Seq<char>, current: Rgb8) -> Option<Rgb8> {
    match (parse_int_in(trimmed(r), false, 0, 255), parse_int_in(trimmed(g), false, 0, 255), parse_int_in(trimmed(b), false, 0, 255)) {
        (Some(x), Some(y), Some(z)) => {
            let c = Rgb8 { r: x as u8, g: y as u8, b: z as u8 };
            if c == current { None } else { Some(c) }
        },
        _ => None,
    }
}

pub fn bg_rgb_from_inputs(r: &str, g: &str, b: &str, current: Rgb8) -> (c: Option<Rgb8>)
    ensures
        c == typed_rgb(r@, g@, b@, current),
        c matches Some(n) ==> n.r != current.r || n.g != current.g || n.b != current.b,
{
    let (Some(x), Some(y), Some(z)) = (parse_trimmed_u8(r), parse_trimmed_u8(g), parse_trimmed_u8(b)) else {
        return None;
    };
    if x == current.r && y == current.g && z == current.b {
        None
    } else {
        Some(Rgb8 { r: x, g: y, b: z })
    }
}

/// A positive `u32` typed into an aspect field.
pub open spec fn typed_side(t: Seq<char>) -> Option<u32> {
    match parse_int_in(trimmed(t), false, 0, u32::MAX as int) {
        Some(v) => if v > 0 { Some(v as u32) } else { None },
        None => None,
    }
}

/// The aspect ratio typed into the two aspect fields: both must be positive
/// numbers. `None` while a field does not hold one, or when the ratio is the
/// current one already.
pub open spec fn typed_aspect(w: Seq<char>, h: Seq<char>, cur_w: u32, cur_h: u32) -> Option<(u32, u32)> {
    match (typed_side(w), typed_side(h)) {
        (Some(a), Some(b)) => if a == cur_w && b == cur_h { None } else { Some((a, b)) },
        _ => None,
    }
}

pub fn bg_aspect_from_inputs(w: &str, h: &str, cur_w: u32, cur_h: u32) -> (r: Option<(u32, u32)>)
    ensures
        r == typed_aspect(w@, h@, cur_w, cur_h),
        r matches Some((a, b)) ==> a > 0 && b > 0,
{
    let a = match parse_trimmed_u32(w) {
        Some(v) => if v > 0 { Some(v) } else { None },
        None => None,
    };
    let b = match parse_trimmed_u32(h) {
        Some(v) => if v > 0 { Some(v) } else { None },
        None => None,
    };
    let (Some(a), Some(b)) = (a, b) else {
        return None;
    };
    if a == cur_w && b == cur_h {
        None
    } else {
        Some((a, b))
    }
}

/// The RGB bytes of the `w × h` image `data` resized to `tw × th` with the
/// triangle (bilinear) filter of the `image` crate.
pub uninterp spec fn triangle_resized(w: u32, h: u32, data: Seq<u8>, tw: u32, th: u32) -> Seq<u8>;

/// Resizes an RGB image with `image::imageops::resize` and the `Triangle`
/// filter. The contract names the resulting bytes and states their number;
/// the pixel values are what the crate's filter computes.
#[verifier::external_body]
fn resize_triangle(src: &RgbRaster, tw: u32, th: u32) -> (out: Vec<u8>)
    requires
        src.wf(),
        tw >= 1,
        th >= 1,
        tw * th * 3 <= usize::MAX,
    ensures
        out@ == triangle_resized(src.width, src.height, src.data@, tw, th),
        out@.len() == tw * th * 3,
{
    let img = image::RgbImage::from_raw(src.width, src.height, src.data.clone())
        .expect("the raster holds width * height * 3 bytes");
    image::imageops::resize(&img, tw, th, image::imageops::FilterType::Triangle).into_raw()
}

/// A copy of an image no side of which exceeds `max_side`: the image itself
/// when it fits, otherwise the image resized to `thumbnail_dims`.
pub fn thumbnail_rgb(img: &RgbRaster, max_side: u32) -> (r: RgbRaster)
    requires
        img.wf(),
        thumbnail_dims_spec(img.width, img.height, max_side) matches Some((tw, th)) ==> tw * th * 3
            <= usize::MAX,
    ensures
        r.wf(),
        match thumbnail_dims_spec(img.width, img.height, max_side) {
            None => r.width == img.width && r.height == img.height && r.data@ == img.data@,
            Some((tw, th)) => r.width == tw && r.height == th && r.data@ == triangle_resized(
                img.width,
                img.height,
                img.data@,
                tw,
                th,
            ),
        },
{
    match thumbnail_dims(img.width, img.height, max_side) {
        None => {
            let data = img.data.clone();
            assert(data@ =~= img.data@);
            RgbRaster { width: img.width, height: img.height, data }
        },
        Some((tw, th)) => {
            let data = resize_triangle(img, tw, th);
            RgbRaster { width: tw, height: th, data }
        },
    }
}

/// Channel `ch` of the pixel in column `(w - 1) * i / 7` and row
/// `(h - 1) * j / 7` of a `w`-wide RGB image.
pub open spec fn grid_pixel(data: Seq<u8>, w: u32, h: u32, ch: int, i: int, j: int) -> int {
    data[((((h - 1) * j) / 7) * w + ((w - 1) * i) / 7) * 3 + ch] as int
}

/// Channel `ch` summed over the first `n` grid columns of grid row `j`.
pub open spec fn grid_row_total(data: Seq<u8>, w: u32, h: u32, ch: int, j: int, n: int) -> int
    decreases n,
{
    if n <= 0 { 0 } else { grid_row_total(data, w, h, ch, j, n - 1) + grid_pixel(data, w, h, ch, n - 1, j) }
}

/// Channel `ch` summed over all 8 columns of the first `m` grid rows.
pub open spec fn grid_total(data: Seq<u8>, w: u32, h: u32, ch: int, m: int) -> int
    decreases m,
{
    if m <= 0 { 0 } else { grid_total(data, w, h, ch, m - 1) + grid_row_total(data, w, h, ch, m - 1, 8) }
}

proof fn lemma_sample_sum_by_rows(data: Seq<u8>, w: u32, h: u32, ch: int, k: int)
    requires
        0 <= k <= 64,
    ensures
        sample_sum(data, w, h, ch, k) == grid_total(data, w, h, ch, k / 8) + grid_row_total(data, w, h, ch, k / 8, k % 8),
    decreases k,
{
    if k > 0 {
        lemma_sample_sum_by_rows(data, w, h, ch, k - 1);
        let q = (k - 1) / 8;
        let r = (k - 1) % 8;
        assert(k - 1 == 8 * q + r && 0 <= r < 8);
        assert(sample_offset(w, h, k - 1, ch) == ((((h - 1) * q) / 7) * w + ((w - 1) * r) / 7) * 3 + ch);
        if r < 7 {
            assert(k / 8 == q && k % 8 == r + 1);
        } else {
            assert(k / 8 == q + 1 && k % 8 == 0);
            assert(grid_row_total(data, w, h, ch, q, 8) == grid_row_total(data, w, h, ch, q, 7) + grid_pixel(data, w, h, ch, 7, q));
        }
    }
}

/// The paper colour is the average over the whole 8 × 8 grid: for an image
/// with pixels, each channel is the sum of that channel over the 64 pixels
/// in columns `(w - 1) * i / 7` and rows `(h - 1) * j / 7` (`i, j` in
/// `0..8`), divided by 64 and rounded down.
pub proof fn lemma_paper_color_is_grid_average(img: RgbRaster)
    requires
        img.wf(),
        img.width > 0,
        img.height > 0,
    ensures
        paper_color(img).r as int == grid_total(img.data@, img.width, img.height, 0, 8) / 64,
        paper_color(img).g as int == grid_total(img.data@, img.width, img.height, 1, 8) / 64,
        paper_color(img).b as int == grid_total(img.data@, img.width, img.height, 2, 8) / 64,
{
    let (d, w, h) = (img.data@, img.width, img.height);
    lemma_sample_sum_by_rows(d, w, h, 0, 64);
    lemma_sample_sum_by_rows(d, w, h, 1, 64);
    lemma_sample_sum_by_rows(d, w, h, 2, 64);
    lemma_sample_sum_bound(d, w, h, 0, 64);
    lemma_sample_sum_bound(d, w, h, 1, 64);
    lemma_sample_sum_bound(d, w, h, 2, 64);
    assert(grid_row_total(d, w, h, 0, 8, 0) == 0);
    assert(grid_row_total(d, w, h, 1, 8, 0) == 0);
    assert(grid_row_total(d, w, h, 2, 8, 0) == 0);
}

/// A typed colour is taken exactly when it is a change: when the three
/// fields hold channels `x`, `y`, `z`, the result is `None` precisely when
/// all three equal the current colour's channels, and otherwise that colour;
/// when a field holds no channel, nothing is taken.
pub proof fn lemma_typed_rgb_is_a_change(r: Seq<char>, g: Seq<char>, b: Seq<char>, current: Rgb8)
    ensures
        match (parse_int_in(trimmed(r), false, 0, 255), parse_int_in(trimmed(g), false, 0, 255), parse_int_in(trimmed(b), false, 0, 255)) {
            (Some(x), Some(y), Some(z)) => {
                &&& typed_rgb(r, g, b, current) is None <==> (x == current.r && y == current.g && z == current.b)
                &&& typed_rgb(r, g, b, current) is Some ==> typed_rgb(r, g, b, current) == Some(Rgb8 { r: x as u8, g: y as u8, b: z as u8 })
            },
            _ => typed_rgb(r, g, b, current) is None,
        },
{
}

/// A typed aspect ratio is taken exactly when both fields hold positive
/// numbers and they differ from the current ratio; the result is then those
/// two numbers, width first.
pub proof fn lemma_typed_aspect_is_a_change(w: Seq<char>, h: Seq<char>, cur_w: u32, cur_h: u32)
    ensures
        match (parse_int_in(trimmed(w), false, 0, u32::MAX as int), parse_int_in(trimmed(h), false, 0, u32::MAX as int)) {
            (Some(a), Some(b)) => if a > 0 && b > 0 {
                &&& typed_aspect(w, h, cur_w, cur_h) is None <==> (a == cur_w && b == cur_h)
                &&& typed_aspect(w, h, cur_w, cur_h) is Some ==> typed_aspect(w, h, cur_w, cur_h) == Some((a as u32, b as u32))
            } else {
                typed_aspect(w, h, cur_w, cur_h) is None
            },
            _ => typed_aspect(w, h, cur_w, cur_h) is None,
        },
{
}

/// A thumbnail is made only for an image with a side longer than the limit,
/// and then its longer side is exactly the limit (for a limit of at least 1)
/// and neither side grows.
pub proof fn lemma_thumbnail_fits_the_limit(w: u32, h: u32, max_side: u32)
    requires
        max_side >= 1,
    ensures
        thumbnail_dims_spec(w, h, max_side) is None <==> (w <= max_side && h <= max_side),
        thumbnail_dims_spec(w, h, max_side) matches Some((tw, th)) ==> {
            &&& w >= h ==> tw == max_side && th <= tw
            &&& h >= w ==> th == max_side && tw <= th
            &&& 1 <= tw <= w || (w == 0 && tw == 1)
            &&& 1 <= th <= h || (h == 0 && th == 1)
        },
{
    let m: u32 = if w > h { w } else { h };
    if m > max_side {
        assert((w * max_side) / (m as int) <= w) by (nonlinear_arith)
            requires
                max_side < m,
                w <= m,
                m > 0,
        ;
        assert((h * max_side) / (m as int) <= h) by (nonlinear_arith)
            requires
                max_side < m,
                h <= m,
                m > 0,
        ;
        assert((m * max_side) / (m as int) == max_side) by (nonlinear_arith)
            requires
                m > 0,
        ;
        assert(w <= m ==> (w * max_side) / (m as int) <= max_side) by (nonlinear_arith)
            requires
                m > 0,
        ;
        assert(h <= m ==> (h * max_side) / (m as int) <= max_side) by (nonlinear_arith)
            requires
                m > 0,
        ;
        assert(max_side >= 1);
    }
}

proof fn lemma_seq_max(s: Seq<u32>)
    requires
        s.len() >= 1,
    ensures
        forall|i: int| 0 <= i < s.len() ==> #[trigger] s[i] <= seq_max(s),
        exists|i: int| 0 <= i < s.len() && s[i] == seq_max(s),
    decreases s.len(),
{
    if s.len() == 1 {
        assert(s[0] == seq_max(s));
    } else {
        lemma_seq_max(s.drop_last());
        let i0 = choose|i: int| 0 <= i < s.drop_last().len() && s.drop_last()[i] == seq_max(s.drop_last());
        assert forall|i: int| 0 <= i < s.len() implies #[trigger] s[i] <= seq_max(s) by {
            if i < s.len() - 1 {
                assert(s[i] == s.drop_last()[i]);
            }
        }
        if s.last() > seq_max(s.drop_last()) {
            assert(s[s.len() - 1] == seq_max(s));
        } else {
            assert(s[i0] == seq_max(s));
        }
    }
}

/// The solid background is wide enough and keeps the aspect ratio: its
/// width lies in 2560..=8192, is at least twice every page width and twice
/// the aspect width unless it hit 8192, and between the bounds it is twice
/// one of them; its height lies in 1..=8192 and, between the bounds, is the
/// width times `aspect_h / aspect_w` rounded down (aspect sides taken as at least 1).
pub proof fn lemma_solid_bg_size_fits(aspect_w: u32, aspect_h: u32, widths: Seq<u32>)
    ensures
        ({
            let (w, h) = solid_bg_size_spec(aspect_w, aspect_h, widths);
            let aw: int = if aspect_w > 1 { aspect_w as int } else { 1 };
            let ah: int = if aspect_h > 1 { aspect_h as int } else { 1 };
            &&& 2560 <= w <= 8192
            &&& forall|i: int| 0 <= i < widths.len() ==> 2 * (#[trigger] widths[i]) <= w || w == 8192
            &&& 2 * aw <= w || w == 8192
            &&& 2560 < w < 8192 ==> (w == 2 * aw || exists|i: int| 0 <= i < widths.len() && w == 2 * widths[i])
            &&& 1 <= h <= 8192
            &&& 1 < h < 8192 ==> h * aw <= w * ah < (h + 1) * aw
        }),
{
    let aw: int = if aspect_w > 1 { aspect_w as int } else { 1 };
    let ah: int = if aspect_h > 1 { aspect_h as int } else { 1 };
    if widths.len() >= 1 {
        lemma_seq_max(widths);
    }
    let (w, h) = solid_bg_size_spec(aspect_w, aspect_h, widths);
    let wi = w as int;
    let h0 = (wi * ah) / aw;
    assert(h0 * aw <= wi * ah < (h0 + 1) * aw) by (nonlinear_arith)
        requires
            aw >= 1,
            h0 == (wi * ah) / aw,
    ;
    assert(h0 >= 0) by (nonlinear_arith)
        requires
            aw >= 1,
            ah >= 1,
            wi >= 0,
            h0 == (wi * ah) / aw,
    ;
}

/// `sub` is `s` with some elements left out, the rest in their order.
pub open spec fn is_ordered_subseq<T>(sub: Seq<T>, s: Seq<T>) -> bool {
    exists|f: Seq<int>| {
        &&& f.len() == sub.len()
        &&& forall|a: int| 0 <= a < f.len() ==> 0 <= #[trigger] f[a] < s.len() && s[f[a]] == sub[a]
        &&& forall|a: int, b: int| 0 <= a < b < f.len() ==> f[a] < f[b]
    }
}

spec fn kept_positions<T>(s: Seq<T>, x: T) -> Seq<int>
    decreases s.len(),
{
    if s.len() == 0 {
        Seq::empty()
    } else if s.last() == x {
        kept_positions(s.drop_last(), x)
    } else {
        kept_positions(s.drop_last(), x).push(s.len() - 1)
    }
}

proof fn lemma_kept_positions<T>(s: Seq<T>, x: T)
    ensures
        ({
            let f = kept_positions(s, x);
            let w = without(s, x);
            &&& f.len() == w.len()
            &&& forall|a: int| 0 <= a < f.len() ==> 0 <= #[trigger] f[a] < s.len() && s[f[a]] == w[a]
            &&& forall|a: int, b: int| 0 <= a < b < f.len() ==> f[a] < f[b]
        }),
    decreases s.len(),
{
    if s.len() > 0 {
        let p = s.drop_last();
        lemma_kept_positions(p, x);
        let f = kept_positions(s, x);
        let w = without(s, x);
        assert forall|a: int| 0 <= a < f.len() implies 0 <= #[trigger] f[a] < s.len() && s[f[a]] == w[a] by {
            if a < kept_positions(p, x).len() {
                assert(f[a] == kept_positions(p, x)[a]);
                assert(w[a] == without(p, x)[a]);
                assert(s[f[a]] == p[f[a]]);
            }
        }
    }
}

/// The strip after using a colour starts with it and then lists earlier
/// colours in their old order: nothing else comes in and nothing is reordered.
pub proof fn lemma_recent_keeps_order(recent: Seq<Rgb8>, c: Rgb8)
    ensures
        recent_after(recent, c).len() >= 1,
        recent_after(recent, c)[0] == c,
        is_ordered_subseq(recent_after(recent, c).drop_first(), recent),
        forall|i: int| 1 <= i < recent_after(recent, c).len() ==> #[trigger] recent_after(recent, c)[i] != c,
{
    lemma_kept_positions(recent, c);
    lemma_without_props(recent, c);
    let w = without(recent, c);
    let full = seq![c] + w;
    let r = recent_after(recent, c);
    assert(r.drop_first() =~= w.take(r.len() - 1));
    let f = kept_positions(recent, c).take(r.len() - 1);
    assert(f.len() == r.drop_first().len());
    assert forall|a: int| 0 <= a < f.len() implies 0 <= #[trigger] f[a] < recent.len() && recent[f[a]] == r.drop_first()[a] by {
        assert(f[a] == kept_positions(recent, c)[a]);
        assert(r.drop_first()[a] == w[a]);
    }
    assert forall|a: int, b: int| 0 <= a < b < f.len() implies f[a] < f[b] by {
        assert(f[a] == kept_positions(recent, c)[a]);
        assert(f[b] == kept_positions(recent, c)[b]);
    }
    assert(is_ordered_subseq(r.drop_first(), recent));
    assert forall|i: int| 1 <= i < r.len() implies #[trigger] r[i] != c by {
        assert(r[i] == w[i - 1]);
    }
}

}
