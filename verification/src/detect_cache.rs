//! The per-page detection sidecar: `<page>.png.detect.json` next to the page
//! image, holding the blocks found on the page and the parameters used.

use vstd::prelude::*;
use crate::text::{str_to_chars, string_from_range};

verus! {

/// One detected block as stored in the sidecar.
#[derive(Clone, Debug)]
pub struct CachedRegion {
    pub id: String,
    pub y0: i32,
    pub y1: i32,
    pub kind: String,
}

/// A horizontal band found by staff detection.
#[derive(Clone, Debug)]
pub struct Band {
    pub y0: i32,
    pub y1: i32,
    pub kind: String,
}

/// Detection result of one page with the parameters it was made with.
#[derive(Clone, Debug)]
pub struct PageDetectFile {
    pub img_w: u32,
    pub img_h: u32,
    pub ink_threshold: i32,
    pub margin: i32,
    pub regions: Vec<CachedRegion>,
}

/// Path of the sidecar of the page image at `png`: the same path with `.detect.json` appended.
pub fn sidecar_path(png: &str) -> (p: String)
    ensures
        p@ == png@ + ".detect.json"@,
{
    let mut p = String::from_str(png);
    p.append(".detect.json");
    p
}

pub open spec fn is_lower_hex(c: char) -> bool {
    ('0' <= c && c <= '9') || ('a' <= c && c <= 'f')
}

/// A fresh random version-4 UUID in its simple form (`uuid::Uuid::new_v4().simple()`):
/// 32 lowercase hex digits. Which digits come out is left open: they are random.
/// The crate panics only when the operating system's random source fails.
#[verifier::external_body]
fn uuid_v4_simple() -> (s: String)
    ensures
        s@.len() == 32,
        forall|i: int| 0 <= i < 32 ==> is_lower_hex(#[trigger] s@[i]),
{
    uuid::Uuid::new_v4().simple().to_string()
}

/// A fresh block id: the first 8 hex digits of a random UUID.
pub fn new_rid() -> (id: String)
    ensures
        id@.len() == 8,
        forall|i: int| 0 <= i < 8 ==> is_lower_hex(#[trigger] id@[i]),
{
    let u = uuid_v4_simple();
    let v = str_to_chars(u.as_str());
    string_from_range(&v, 0, 8)
}

/// The bands a page is stored with: the detected ones, or one band covering
/// the whole page height when detection found none.
pub open spec fn effective_bands(bands: Seq<Band>, img_h: u32) -> Seq<(i32, i32, Seq<char>)> {
    if bands.len() == 0 {
        seq![(0i32, (if img_h > 0 { img_h - 1 } else { 0 }) as i32, "region"@)]
    } else {
        Seq::new(bands.len(), |i: int| (bands[i].y0, bands[i].y1, bands[i].kind@))
    }
}

/// Builds the sidecar record of a page of `img_w × img_h` pixels from the
/// bands detection found with the given parameters; every block gets a fresh id.
pub fn detect_to_file(bands: Vec<Band>, img_w: u32, img_h: u32, ink_threshold: i32, margin: i32) -> (f: PageDetectFile)
    ensures
        f.img_w == img_w,
        f.img_h == img_h,
        f.ink_threshold == ink_threshold,
        f.margin == margin,
        f.regions@.len() == effective_bands(bands@, img_h).len(),
        forall|i: int| 0 <= i < f.regions@.len() ==> {
            let r = #[trigger] f.regions@[i];
            let b = effective_bands(bands@, img_h)[i];
            &&& r.y0 == b.0
            &&& r.y1 == b.1
            &&& r.kind@ == b.2
            &&& r.id@.len() == 8
            &&& forall|j: int| 0 <= j < 8 ==> is_lower_hex(#[trigger] r.id@[j])
        },
{
    let mut regions: Vec<CachedRegion> = Vec::new();
    if bands.len() == 0 {
        let y1 = if img_h > 0 { img_h - 1 } else { 0 };
        regions.push(CachedRegion { id: new_rid(), y0: 0, y1: y1 as i32, kind: String::from_str("region") });
    } else {
        let mut i: usize = 0;
        while i < bands.len()
            invariant
                i <= bands@.len(),
                bands@.len() > 0,
                regions@.len() == i,
                forall|k: int| 0 <= k < i ==> {
                    let r = #[trigger] regions@[k];
                    let b = effective_bands(bands@, img_h)[k];
                    &&& r.y0 == b.0
                    &&& r.y1 == b.1
                    &&& r.kind@ == b.2
                    &&& r.id@.len() == 8
                    &&& forall|j: int| 0 <= j < 8 ==> is_lower_hex(#[trigger] r.id@[j])
                },
            decreases bands.len() - i,
        {
            let b = &bands[i];
            regions.push(CachedRegion { id: new_rid(), y0: b.y0, y1: b.y1, kind: b.kind.clone() });
            i += 1;
        }
    }
    PageDetectFile { img_w, img_h, ink_threshold, margin, regions }
}

/// The stored result when it was made with the same parameters; `None` means
/// the page has to be detected again.
pub fn cached_if_current(cached: Option<PageDetectFile>, ink_threshold: i32, margin: i32) -> (r: Option<PageDetectFile>)
    ensures
        match cached {
            Some(c) => if c.ink_threshold == ink_threshold && c.margin == margin { r == Some(c) } else { r is None },
            None => r is None,
        },
{
    match cached {
        Some(c) => if c.ink_threshold == ink_threshold && c.margin == margin { Some(c) } else { None },
        None => None,
    }
}

}
