//! Naming of exported group images and the memory budget of an export run.
//!
//! Every group is written as `<stem>_gNN.png`, where the stem comes from the
//! first page's file name and records how many pages the document has.

use vstd::prelude::*;
use crate::paths::{ends_with, is_plain_path, last_dot, last_piece, names_a_file, plain_file_stem};
use crate::text::{
    decimal, lemma_padded_injective, lemma_same_frame, padded_decimal, push_decimal, push_padded_decimal,
};

verus! {

/// `s` occurs in `t` as a run of consecutive characters.
pub open spec fn is_piece_of(s: Seq<char>, t: Seq<char>) -> bool {
    exists|i: int| 0 <= i && i + s.len() <= t.len() && #[trigger] t.subrange(i, i + s.len()) == s
}

/// The stem of the file name of `path` (`Path::file_stem`), where it is valid
/// text. For a path without `\` and `:` it is the stem of its last component
/// (see `plain_file_stem`); for other text the platform decides where
/// components end: where the text ends in a name whose last `/`-or-`\` piece
/// has a `.` after its first character, the stem ends with that piece up to
/// its last `.`, and it is always a piece of `path`.
#[verifier::external_body]
fn path_file_stem(path: &str) -> (r: Option<String>)
    ensures
        is_plain_path(path@) ==> (match r {
            Some(s) => Some(s@),
            None => None,
        }) == plain_file_stem(path@),
        r is None ==> !(names_a_file(path@) && last_dot(last_piece(path@)) > 0),
        r matches Some(s) ==> is_piece_of(s@, path@) && (names_a_file(path@) && last_dot(last_piece(path@)) > 0
            ==> ends_with(s@, last_piece(path@).take(last_dot(last_piece(path@))))),
{
    std::path::Path::new(path).file_stem().and_then(|x| x.to_str()).map(|x| x.to_string())
}

/// The stem shared by all exported images of a document with `n_pages`
/// pages whose first page has the file stem `first_stem`.
pub open spec fn export_stem_text(first_stem: Option<Seq<char>>, n_pages: nat) -> Seq<char> {
    if n_pages == 0 {
        "export"@
    } else {
        let s = match first_stem {
            Some(t) => t,
            None => "export"@,
        };
        if n_pages > 1 {
            s + "_x"@ + decimal(n_pages)
        } else {
            s
        }
    }
}

/// The export stem from the first page's file stem and the page count:
/// `export` for an empty document, the stem (or `export` where the first
/// page has none) for one page, and `<stem>_x<n>` for `n > 1` pages.
pub fn export_stem_from(first_stem: Option<String>, n_pages: usize) -> (r: String)
    ensures
        r@ == export_stem_text(
            match first_stem {
                Some(s) => Some(s@),
                None => None,
            },
            n_pages as nat,
        ),
{
    if n_pages == 0 {
        return String::from_str("export");
    }
    let mut s = match first_stem {
        Some(t) => t,
        None => String::from_str("export"),
    };
    if n_pages > 1 {
        s.append("_x");
        push_decimal(&mut s, n_pages as u128);
    }
    s
}

/// The export stem of a document whose pages have the paths `page_paths`:
/// the stem text for the first page's file stem and the page count.
pub fn export_stem(page_paths: &Vec<String>) -> (r: String)
    ensures
        page_paths@.len() == 0 ==> r@ == "export"@,
        page_paths@.len() > 0 && is_plain_path(page_paths@[0]@) ==> r@ == export_stem_text(
            plain_file_stem(page_paths@[0]@),
            page_paths@.len() as nat,
        ),
        page_paths@.len() > 0 ==> exists|stem: Option<Seq<char>>|
            (stem matches Some(t) ==> is_piece_of(t, page_paths@[0]@))
                && (names_a_file(page_paths@[0]@) && last_dot(last_piece(page_paths@[0]@)) > 0
                ==> (stem matches Some(t) && ends_with(
                t,
                last_piece(page_paths@[0]@).take(last_dot(last_piece(page_paths@[0]@))),
            )))
                && r@ == #[trigger] export_stem_text(stem, page_paths@.len() as nat),
{
    if page_paths.len() == 0 {
        return String::from_str("export");
    }
    let stem = path_file_stem(page_paths[0].as_str());
    let ghost sv = match &stem {
        Some(s) => Some(s@),
        None => None,
    };
    let r = export_stem_from(stem, page_paths.len());
    assert(r@ == export_stem_text(sv, page_paths@.len() as nat));
    r
}

/// The file name of the `index`-th exported group (counting from 1):
/// `<stem>_g<index>.png`, the number padded to two digits.
pub fn export_file_name(stem: &str, index: usize) -> (r: String)
    ensures
        r@ == stem@ + "_g"@ + padded_decimal(index as nat, 2) + ".png"@,
{
    let mut s = String::from_str(stem);
    s.append("_g");
    push_padded_decimal(&mut s, index as u128, 2);
    s.append(".png");
    s
}

/// Bytes assumed for a page whose size is not known yet (64 MiB).
pub const UNKNOWN_PAGE_BYTES: u64 = 67108864;

/// The largest of `v`, if any.
pub open spec fn seq_max_u64(v: Seq<u64>) -> Option<u64>
    decreases v.len(),
{
    if v.len() == 0 {
        None
    } else {
        match seq_max_u64(v.drop_last()) {
            None => Some(v.last()),
            Some(m) => Some(if v.last() > m { v.last() } else { m }),
        }
    }
}

/// The peak memory an export run plans for: twice the largest page estimate
/// (saturating), or twice `UNKNOWN_PAGE_BYTES` when there are no pages.
pub open spec fn export_peak(page_bytes: Seq<u64>) -> nat {
    let m = match seq_max_u64(page_bytes) {
        Some(x) => x as nat,
        None => UNKNOWN_PAGE_BYTES as nat,
    };
    if 2 * m > u64::MAX { u64::MAX as nat } else { 2 * m }
}

pub fn export_peak_bytes(page_bytes: &Vec<u64>) -> (r: u64)
    ensures
        r == export_peak(page_bytes@),
{
    let mut best: Option<u64> = None;
    let mut i: usize = 0;
    while i < page_bytes.len()
        invariant
            i <= page_bytes@.len(),
            best == seq_max_u64(page_bytes@.take(i as int)),
        decreases page_bytes.len() - i,
    {
        let x = page_bytes[i];
        assert(page_bytes@.take(i + 1).drop_last() =~= page_bytes@.take(i as int));
        best = match best {
            None => Some(x),
            Some(m) => Some(if x > m { x } else { m }),
        };
        i += 1;
    }
    assert(page_bytes@.take(i as int) =~= page_bytes@);
    let m = match best {
        Some(x) => x,
        None => UNKNOWN_PAGE_BYTES,
    };
    if m > u64::MAX / 2 {
        u64::MAX
    } else {
        m * 2
    }
}

/// Exported groups never overwrite each other: different indices give
/// different file names for the same stem.
pub proof fn lemma_export_names_distinct(stem: Seq<char>, i: nat, j: nat)
    requires
        i != j,
    ensures
        stem + "_g"@ + padded_decimal(i, 2) + ".png"@ != stem + "_g"@ + padded_decimal(j, 2) + ".png"@,
{
    if stem + "_g"@ + padded_decimal(i, 2) + ".png"@ == stem + "_g"@ + padded_decimal(j, 2) + ".png"@ {
        lemma_same_frame(stem + "_g"@, padded_decimal(i, 2), padded_decimal(j, 2), ".png"@);
        lemma_padded_injective(i, j, 2);
    }
}

}
