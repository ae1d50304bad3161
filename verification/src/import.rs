//! The import list: PDFs and images dropped or picked for import, the PDFs
//! still being inspected, and the page names given to rendered PDF pages.

use vstd::prelude::*;
use crate::export::is_piece_of;
use crate::paths::{
    ends_with, is_plain_path, join_parts, last_piece, names_a_file, parts_text, path_parts, plain_file_name,
    plain_parts,
};
use crate::text::{
    decimal, lemma_padded_injective, lemma_same_frame, padded_decimal, push_decimal, push_padded_decimal,
};

verus! {

/// A PDF whose pages have been counted.
#[derive(Clone, Debug)]
pub struct PdfFile {
    pub path: String,
    pub name: String,
    pub page_count: usize,
}

/// One entry of the import list.
#[derive(Clone, Debug)]
pub enum ImportItem {
    /// A PDF that has been inspected.
    Pdf(PdfFile),
    /// A PDF whose inspection has not answered yet.
    PdfPending { path: String, name: String },
    /// An image file.
    Image { path: String, name: String },
}

/// What an import entry holds, as plain values.
pub ghost enum ItemView {
    Pdf { path: Seq<char>, name: Seq<char>, pages: nat },
    Pending { path: Seq<char>, name: Seq<char> },
    Image { path: Seq<char>, name: Seq<char> },
}

impl ItemView {
    pub open spec fn path(self) -> Seq<char> {
        match self {
            ItemView::Pdf { path, .. } => path,
            ItemView::Pending { path, .. } => path,
            ItemView::Image { path, .. } => path,
        }
    }

    pub open spec fn name(self) -> Seq<char> {
        match self {
            ItemView::Pdf { name, .. } => name,
            ItemView::Pending { name, .. } => name,
            ItemView::Image { name, .. } => name,
        }
    }
}

impl View for ImportItem {
    type V = ItemView;

    open spec fn view(&self) -> ItemView {
        match self {
            ImportItem::Pdf(f) => ItemView::Pdf { path: f.path@, name: f.name@, pages: f.page_count as nat },
            ImportItem::PdfPending { path, name } => ItemView::Pending { path: path@, name: name@ },
            ImportItem::Image { path, name } => ItemView::Image { path: path@, name: name@ },
        }
    }
}

/// The views of a list of entries.
pub open spec fn items_view(s: Seq<ImportItem>) -> Seq<ItemView> {
    s.map_values(|i: ImportItem| i@)
}

impl ImportItem {
    /// The file the entry stands for.
    pub fn path(&self) -> (r: &String)
        ensures
            r@ == self@.path(),
    {
        match self {
            ImportItem::Pdf(f) => &f.path,
            ImportItem::PdfPending { path, .. } => path,
            ImportItem::Image { path, .. } => path,
        }
    }

    /// The name shown for the entry.
    pub fn name(&self) -> (r: &str)
        ensures
            r@ == self@.name(),
    {
        match self {
            ImportItem::Pdf(f) => f.name.as_str(),
            ImportItem::PdfPending { name, .. } => name.as_str(),
            ImportItem::Image { name, .. } => name.as_str(),
        }
    }

    /// The inspected PDF, for a `Pdf` entry.
    pub fn as_pdf(&self) -> (r: Option<&PdfFile>)
        ensures
            r is Some <==> self is Pdf,
            r matches Some(f) ==> self@ == (ItemView::Pdf { path: f.path@, name: f.name@, pages: f.page_count as nat }),
    {
        match self {
            ImportItem::Pdf(f) => Some(f),
            _ => None,
        }
    }
}

/// The last component of `path` (`Path::file_name`), where it is valid text.
/// For a path without `\` and `:` it is the last piece between `/` that is
/// neither empty nor `.`, and none when that piece is `..` (see
/// `plain_file_name`); for other text the platform decides where components
/// end: where the text ends in a name (see `names_a_file`) the file name ends
/// with its last `/`-or-`\` piece, and it is always a piece of `path`.
#[verifier::external_body]
fn path_file_name(path: &str) -> (r: Option<String>)
    ensures
        is_plain_path(path@) ==> (match r {
            Some(s) => Some(s@),
            None => None,
        }) == plain_file_name(path@),
        r is None ==> !names_a_file(path@),
        r matches Some(s) ==> is_piece_of(s@, path@) && (names_a_file(path@) ==> ends_with(s@, last_piece(path@))),
{
    std::path::Path::new(path).file_name().and_then(|s| s.to_str()).map(|s| s.to_string())
}

/// `name`, or `fallback` where there is none.
pub fn name_or(name: Option<String>, fallback: &str) -> (r: String)
    ensures
        r@ == (match name {
            Some(s) => s@,
            None => fallback@,
        }),
{
    match name {
        Some(s) => s,
        None => String::from_str(fallback),
    }
}

/// The name an import entry shows for `path`: its file name, or `file`.
pub fn item_file_name(path: &str) -> (r: String)
    ensures
        is_plain_path(path@) ==> r@ == (match plain_file_name(path@) {
            Some(n) => n,
            None => "file"@,
        }),
        names_a_file(path@) ==> ends_with(r@, last_piece(path@)),
        r@ == "file"@ || is_piece_of(r@, path@),
{
    name_or(path_file_name(path), "file")
}

/// The name under which a rendered PDF page is listed:
/// `<pdf>_p<n>.png` with the page number `n = index + 1` padded to three digits.
pub fn pdf_page_display_name(pdf_name: &str, index: usize) -> (r: String)
    requires
        index < usize::MAX,
    ensures
        r@ == pdf_name@ + "_p"@ + padded_decimal((index + 1) as nat, 3) + ".png"@,
{
    let mut s = String::from_str(pdf_name);
    s.append("_p");
    push_padded_decimal(&mut s, (index + 1) as u128, 3);
    s.append(".png");
    s
}

/// Whether the screen is refreshed after the `done`-th of `total` rendered
/// pages was added: for the first page of an empty document, for the last
/// page, and for every eighth page.
pub fn page_load_refresh(was_empty: bool, done: usize, total: usize) -> (r: bool)
    ensures
        r == (was_empty || done == total || done % 8 == 0),
{
    was_empty || done == total || done % 8 == 0
}


/// What kind of file a dropped or picked path is.
#[derive(Clone, Copy, Debug, PartialEq, Eq, Structural)]
pub enum PathKind {
    Pdf,
    Image,
    Project,
    Other,
}

/// A path handed to the import list, with the name it shows and its kind.
#[derive(Clone, Debug)]
pub struct ImportPath {
    pub path: String,
    pub name: String,
    pub kind: PathKind,
}

/// The index of the last project file among `paths`; projects are opened
/// on their own instead of being added to the list.
pub open spec fn last_project_index(paths: Seq<ImportPath>) -> Option<int>
    decreases paths.len(),
{
    if paths.len() == 0 {
        None
    } else if paths.last().kind == PathKind::Project {
        Some(paths.len() - 1)
    } else {
        last_project_index(paths.drop_last())
    }
}

pub fn project_to_open(paths: &Vec<ImportPath>) -> (r: Option<usize>)
    ensures
        r matches Some(i) ==> last_project_index(paths@) == Some(i as int),
        r is None ==> last_project_index(paths@) is None,
{
    let mut i: usize = paths.len();
    assert(paths@.take(i as int) =~= paths@);
    while i > 0
        invariant
            i <= paths@.len(),
            last_project_index(paths@) == last_project_index(paths@.take(i as int)),
        decreases i,
    {
        assert(paths@.take(i as int).drop_last() =~= paths@.take(i - 1));
        if paths[i - 1].kind == PathKind::Project {
            return Some(i - 1);
        }
        i -= 1;
    }
    None
}

/// Some entry of `items` stands for `path`.
pub open spec fn has_path(items: Seq<ItemView>, path: Seq<char>) -> bool {
    exists|i: int| 0 <= i < items.len() && #[trigger] items[i].path() == path
}

/// The list and queue after offering one path: a path already listed or
/// queued is skipped; a PDF is listed as pending and queued for inspection;
/// an image is listed; anything else is ignored.
pub open spec fn offer_path(
    items: Seq<ItemView>,
    queued: Seq<Seq<char>>,
    path: Seq<char>,
    name: Seq<char>,
    kind: PathKind,
) -> (Seq<ItemView>, Seq<Seq<char>>) {
    if has_path(items, path) || queued.contains(path) {
        (items, queued)
    } else {
        match kind {
            PathKind::Pdf => (items.push(ItemView::Pending { path, name }), queued.push(path)),
            PathKind::Image => (items.push(ItemView::Image { path, name }), queued),
            _ => (items, queued),
        }
    }
}

/// The list and the PDFs to inspect after offering `paths` in order.
pub open spec fn offer_paths(items: Seq<ItemView>, paths: Seq<ImportPath>) -> (Seq<ItemView>, Seq<Seq<char>>)
    decreases paths.len(),
{
    if paths.len() == 0 {
        (items, Seq::empty())
    } else {
        let r = offer_paths(items, paths.drop_last());
        let p = paths.last();
        offer_path(r.0, r.1, p.path@, p.name@, p.kind)
    }
}

/// `a + b`, or `u32::MAX` where that overflows.
pub open spec fn sat_add_u32(a: u32, b: u32) -> u32 {
    if a + b > u32::MAX { u32::MAX } else { (a + b) as u32 }
}

/// An entry is the pending PDF `path`.
pub open spec fn is_pending_with(v: ItemView, path: Seq<char>) -> bool {
    v matches ItemView::Pending { path: p, .. } && p == path
}

/// `k` is the first entry that is the pending PDF `path`.
pub open spec fn first_pending_at(items: Seq<ItemView>, path: Seq<char>, k: int) -> bool {
    &&& 0 <= k < items.len()
    &&& is_pending_with(items[k], path)
    &&& forall|j: int| 0 <= j < k ==> !is_pending_with(#[trigger] items[j], path)
}

/// `items` without the pending entries for `path`.
pub open spec fn drop_pending(items: Seq<ItemView>, path: Seq<char>) -> Seq<ItemView>
    decreases items.len(),
{
    if items.len() == 0 {
        items
    } else if is_pending_with(items.last(), path) {
        drop_pending(items.drop_last(), path)
    } else {
        drop_pending(items.drop_last(), path).push(items.last())
    }
}

/// Pages an import of `items` brings: every page of every inspected PDF,
/// and one per image.
pub open spec fn pages_of(items: Seq<ItemView>) -> nat
    decreases items.len(),
{
    if items.len() == 0 {
        0
    } else {
        pages_of(items.drop_last()) + match items.last() {
            ItemView::Pdf { pages, .. } => pages,
            ItemView::Image { .. } => 1nat,
            ItemView::Pending { .. } => 0nat,
        }
    }
}

/// A file to import once the list is confirmed.
#[derive(Clone, Debug)]
pub enum ImportJob {
    Pdf { path: String },
    /// An image, with the pixel size PDFs are rendered at and whether the
    /// aspect ratio is locked, where PDFs are imported with it.
    Image { path: String, target: Option<(u32, u32, bool)> },
}

pub ghost enum JobView {
    Pdf { path: Seq<char> },
    Image { path: Seq<char>, target: Option<(u32, u32, bool)> },
}

impl View for ImportJob {
    type V = JobView;

    open spec fn view(&self) -> JobView {
        match self {
            ImportJob::Pdf { path } => JobView::Pdf { path: path@ },
            ImportJob::Image { path, target } => JobView::Image { path: path@, target: *target },
        }
    }
}

/// The job for one entry of a list without pending PDFs. Images get the
/// PDF render size when the list holds a PDF and a width was chosen.
pub open spec fn job_of(v: ItemView, any_pdf: bool, target_w: u32, target_h: u32, lock: bool) -> JobView {
    match v {
        ItemView::Image { path, .. } => JobView::Image {
            path,
            target: if any_pdf && target_w > 0 {
                Some((target_w, if target_h > 1 { target_h } else { 1u32 }, lock))
            } else {
                None
            },
        },
        _ => JobView::Pdf { path: v.path() },
    }
}

/// The state of the import dialog (render scales are kept by the caller).
pub struct PdfImportState {
    pub items: Vec<ImportItem>,
    pub loading: bool,
    pub error: Option<String>,
    pub lock_aspect: bool,
    pub groups_open: bool,
    pub target_w: u32,
    pub target_h: u32,
    pub inspect_gen: u64,
    pub inspect_inflight: u32,
}

impl PdfImportState {
    pub open spec fn items_v(&self) -> Seq<ItemView> {
        items_view(self.items@)
    }

    pub fn new(lock_aspect: bool) -> (st: Self)
        ensures
            st.items@.len() == 0,
            !st.loading,
            st.error is None,
            st.lock_aspect == lock_aspect,
            !st.groups_open,
            st.target_w == 0,
            st.target_h == 0,
            st.inspect_gen == 0,
            st.inspect_inflight == 0,
    {
        PdfImportState {
            items: Vec::new(),
            loading: false,
            error: None,
            lock_aspect,
            groups_open: false,
            target_w: 0,
            target_h: 0,
            inspect_gen: 0,
            inspect_inflight: 0,
        }
    }

    /// Some entry is an inspected PDF.
    pub fn has_pdf(&self) -> (b: bool)
        ensures
            b == exists|i: int| 0 <= i < self.items@.len() && #[trigger] self.items@[i]@ is Pdf,
    {
        let mut i: usize = 0;
        while i < self.items.len()
            invariant
                i <= self.items@.len(),
                forall|j: int| 0 <= j < i ==> !(#[trigger] self.items@[j]@ is Pdf),
            decreases self.items.len() - i,
        {
            if self.items[i].as_pdf().is_some() {
                return true;
            }
            i += 1;
        }
        false
    }

    /// Some PDF is still being inspected.
    pub fn has_pending_pdf(&self) -> (b: bool)
        ensures
            b == exists|i: int| 0 <= i < self.items@.len() && #[trigger] self.items@[i]@ is Pending,
    {
        let mut i: usize = 0;
        while i < self.items.len()
            invariant
                i <= self.items@.len(),
                forall|j: int| 0 <= j < i ==> !(#[trigger] self.items@[j]@ is Pending),
            decreases self.items.len() - i,
        {
            match &self.items[i] {
                ImportItem::PdfPending { .. } => {
                    assert(self.items@[i as int]@ is Pending);
                    return true;
                },
                _ => {},
            }
            i += 1;
        }
        false
    }

    /// Some entry stands for `path`.
    pub fn contains_path(&self, path: &String) -> (b: bool)
        ensures
            b == has_path(self.items_v(), path@),
    {
        let mut i: usize = 0;
        while i < self.items.len()
            invariant
                i <= self.items@.len(),
                forall|j: int| 0 <= j < i ==> #[trigger] self.items@[j]@.path() != path@,
            decreases self.items.len() - i,
        {
            let p: &String = self.items[i].path();
            if p.eq(path) {
                assert(self.items_v()[i as int] == self.items@[i as int]@);
                return true;
            }
            i += 1;
        }
        assert forall|j: int| 0 <= j < self.items_v().len() implies #[trigger] self.items_v()[j].path() != path@ by {
            assert(self.items_v()[j] == self.items@[j]@);
        }
        false
    }
}

/// The views of a list of strings.
pub open spec fn strings_view(s: Seq<String>) -> Seq<Seq<char>> {
    s.map_values(|q: String| q@)
}

fn strings_contain(v: &Vec<String>, x: &String) -> (b: bool)
    ensures
        b == strings_view(v@).contains(x@),
{
    let mut i: usize = 0;
    while i < v.len()
        invariant
            i <= v@.len(),
            forall|j: int| 0 <= j < i ==> (#[trigger] v@[j])@ != x@,
        decreases v.len() - i,
    {
        if v[i].eq(x) {
            assert(strings_view(v@)[i as int] == x@);
            return true;
        }
        i += 1;
    }
    assert forall|j: int| 0 <= j < strings_view(v@).len() implies strings_view(v@)[j] != x@ by {
        assert(strings_view(v@)[j] == v@[j]@);
    }
    false
}

/// Inspections in flight after one answered (never below zero).
pub open spec fn inflight_after(n: u32) -> u32 {
    if n == 0 { 0 } else { (n - 1) as u32 }
}

impl PdfImportState {
    /// Offers `paths` to the list (see `offer_paths`) and returns the PDFs
    /// that now have to be inspected. A list of more than one entry shows its
    /// size groups; queued PDFs mark the dialog as loading and clear the error.
    pub fn add_paths(&mut self, paths: &Vec<ImportPath>) -> (queued: Vec<String>)
        ensures
            final(self).items_v() == offer_paths(old(self).items_v(), paths@).0,
            strings_view(queued@) == offer_paths(old(self).items_v(), paths@).1,
            final(self).groups_open == (old(self).groups_open || final(self).items@.len() > 1),
            queued@.len() == 0 ==> final(self).loading == old(self).loading
                && final(self).error == old(self).error
                && final(self).inspect_inflight == old(self).inspect_inflight,
            queued@.len() > 0 ==> final(self).loading && final(self).error is None
                && final(self).inspect_inflight == sat_add_u32(old(self).inspect_inflight, queued@.len() as u32),
            final(self).lock_aspect == old(self).lock_aspect,
            final(self).target_w == old(self).target_w,
            final(self).target_h == old(self).target_h,
            final(self).inspect_gen == old(self).inspect_gen,
    {
        let mut queued: Vec<String> = Vec::new();
        let mut i: usize = 0;
        assert(paths@.take(0) =~= Seq::<ImportPath>::empty());
        assert(strings_view(queued@) =~= Seq::<Seq<char>>::empty());
        while i < paths.len()
            invariant
                i <= paths@.len(),
                self.items_v() == offer_paths(old(self).items_v(), paths@.take(i as int)).0,
                strings_view(queued@) == offer_paths(old(self).items_v(), paths@.take(i as int)).1,
                self.groups_open == old(self).groups_open,
                self.loading == old(self).loading,
                self.error == old(self).error,
                self.inspect_inflight == old(self).inspect_inflight,
                self.lock_aspect == old(self).lock_aspect,
                self.target_w == old(self).target_w,
                self.target_h == old(self).target_h,
                self.inspect_gen == old(self).inspect_gen,
            decreases paths.len() - i,
        {
            let p = &paths[i];
            assert(paths@.take(i + 1).drop_last() =~= paths@.take(i as int));
            assert(paths@.take(i + 1).last() == p);
            let listed = self.contains_path(&p.path);
            let waiting = strings_contain(&queued, &p.path);
            if !listed && !waiting {
                match p.kind {
                    PathKind::Pdf => {
                        let ghost before = self.items@;
                        self.items.push(ImportItem::PdfPending { path: p.path.clone(), name: p.name.clone() });
                        assert(items_view(self.items@) =~= items_view(before).push(ItemView::Pending { path: p.path@, name: p.name@ }));
                        let ghost qb = queued@;
                        queued.push(p.path.clone());
                        assert(strings_view(queued@) =~= strings_view(qb).push(p.path@));
                    },
                    PathKind::Image => {
                        let ghost before = self.items@;
                        self.items.push(ImportItem::Image { path: p.path.clone(), name: p.name.clone() });
                        assert(items_view(self.items@) =~= items_view(before).push(ItemView::Image { path: p.path@, name: p.name@ }));
                    },
                    _ => {},
                }
            }
            i += 1;
        }
        assert(paths@.take(paths@.len() as int) =~= paths@);
        if self.items.len() > 1 {
            self.groups_open = true;
        }
        if queued.len() > 0 {
            let n = queued.len() as u32;
            self.inspect_inflight = if self.inspect_inflight > u32::MAX - n {
                u32::MAX
            } else {
                self.inspect_inflight + n
            };
            self.loading = true;
            self.error = None;
        }
        queued
    }

    /// The number of pages confirming the list would import.
    pub fn total_pages(&self) -> (n: usize)
        requires
            pages_of(self.items_v()) <= usize::MAX,
        ensures
            n == pages_of(self.items_v()),
    {
        let mut n: usize = 0;
        let mut i: usize = 0;
        while i < self.items.len()
            invariant
                i <= self.items@.len(),
                pages_of(self.items_v()) <= usize::MAX,
                n == pages_of(items_view(self.items@.take(i as int))),
            decreases self.items.len() - i,
        {
            proof {
                assert(items_view(self.items@.take(i + 1)).drop_last() =~= items_view(self.items@.take(i as int)));
                lemma_pages_prefix(self.items_v(), i + 1);
                assert(items_view(self.items@.take(i + 1)) =~= self.items_v().take(i + 1));
            }
            let k: usize = match &self.items[i] {
                ImportItem::Pdf(f) => f.page_count,
                ImportItem::Image { .. } => 1,
                ImportItem::PdfPending { .. } => 0,
            };
            n = n + k;
            i += 1;
        }
        assert(items_view(self.items@.take(i as int)) =~= self.items_v());
        n
    }

    /// Removes the entry at `idx`; nothing happens past the end.
    pub fn remove_item(&mut self, idx: usize)
        ensures
            idx < old(self).items@.len() ==> final(self).items@ == old(self).items@.remove(idx as int),
            idx >= old(self).items@.len() ==> final(self).items@ == old(self).items@,
            final(self).loading == old(self).loading,
            final(self).error == old(self).error,
            final(self).lock_aspect == old(self).lock_aspect,
            final(self).groups_open == old(self).groups_open,
            final(self).target_w == old(self).target_w,
            final(self).target_h == old(self).target_h,
            final(self).inspect_gen == old(self).inspect_gen,
            final(self).inspect_inflight == old(self).inspect_inflight,
    {
        if idx < self.items.len() {
            self.items.remove(idx);
        }
    }

    /// Moves the entry at `from` to `to` (see `moved`).
    pub fn apply_reorder(&mut self, from: usize, to: usize)
        ensures
            final(self).items@ == crate::reorder::moved(old(self).items@, from as int, to as int),
            final(self).loading == old(self).loading,
            final(self).error == old(self).error,
            final(self).lock_aspect == old(self).lock_aspect,
            final(self).groups_open == old(self).groups_open,
            final(self).target_w == old(self).target_w,
            final(self).target_h == old(self).target_h,
            final(self).inspect_gen == old(self).inspect_gen,
            final(self).inspect_inflight == old(self).inspect_inflight,
    {
        crate::reorder::move_item(&mut self.items, from, to);
    }
}

proof fn lemma_pages_prefix(v: Seq<ItemView>, k: int)
    requires
        0 <= k <= v.len(),
    ensures
        pages_of(v.take(k)) <= pages_of(v),
    decreases v.len(),
{
    if k < v.len() {
        assert(v.drop_last().take(k) =~= v.take(k));
        lemma_pages_prefix(v.drop_last(), k);
    } else {
        assert(v.take(k) =~= v);
    }
}

/// `items` with the first pending entry for `pdf`'s path replaced by the
/// counted PDF; unchanged when there is none.
pub open spec fn resolve_pending(items: Seq<ItemView>, pdf: ItemView) -> Seq<ItemView> {
    if exists|k: int| first_pending_at(items, pdf.path(), k) {
        items.update(pending_index(items, pdf.path()), pdf)
    } else {
        items
    }
}

/// The index of the first pending entry for `path`, where there is one.
pub open spec fn pending_index(items: Seq<ItemView>, path: Seq<char>) -> int {
    choose|k: int| first_pending_at(items, path, k)
}

proof fn lemma_first_pending_unique(items: Seq<ItemView>, path: Seq<char>, a: int, b: int)
    requires
        first_pending_at(items, path, a),
        first_pending_at(items, path, b),
    ensures
        a == b,
{
    if a < b {
        assert(!is_pending_with(items[a], path));
    } else if b < a {
        assert(!is_pending_with(items[b], path));
    }
}

fn is_pending_for(item: &ImportItem, path: &String) -> (b: bool)
    ensures
        b == is_pending_with(item@, path@),
{
    match item {
        ImportItem::PdfPending { path: p, .. } => p.eq(path),
        _ => false,
    }
}

impl PdfImportState {
    /// Handles the answer of one PDF inspection started for generation `gen`.
    /// An answer for an older generation changes nothing and gives `None`.
    /// Otherwise one fewer inspection is in flight, the dialog is loading while
    /// any remain, and the result is `Some(first)`: a counted PDF replaces the
    /// first pending entry for its path, clears the error, and `first` tells
    /// whether the list held no counted PDF before; a failure `(path, message)`
    /// drops the pending entries for `path`, sets the error to
    /// `<path>: <message>`, and `first` is false.
    pub fn finish_inspect(&mut self, gen: u64, result: Result<PdfFile, (String, String)>) -> (r: Option<bool>)
        ensures
            gen != old(self).inspect_gen ==> r is None && *final(self) == *old(self),
            gen == old(self).inspect_gen ==> {
                &&& final(self).inspect_inflight == inflight_after(old(self).inspect_inflight)
                &&& final(self).loading == (final(self).inspect_inflight > 0)
                &&& match result {
                    Ok(f) => {
                        &&& r == Some(!exists|i: int| 0 <= i < old(self).items@.len() && #[trigger] old(self).items@[i]@ is Pdf)
                        &&& final(self).items_v() == resolve_pending(
                            old(self).items_v(),
                            ItemView::Pdf { path: f.path@, name: f.name@, pages: f.page_count as nat },
                        )
                        &&& final(self).error is None
                    },
                    Err((path, msg)) => {
                        &&& r == Some(false)
                        &&& final(self).items_v() == drop_pending(old(self).items_v(), path@)
                        &&& final(self).error matches Some(e) && e@ == path@ + ": "@ + msg@
                    },
                }
                &&& final(self).lock_aspect == old(self).lock_aspect
                &&& final(self).groups_open == old(self).groups_open
                &&& final(self).target_w == old(self).target_w
                &&& final(self).target_h == old(self).target_h
                &&& final(self).inspect_gen == old(self).inspect_gen
            },
    {
        if gen != self.inspect_gen {
            return None;
        }
        self.inspect_inflight = if self.inspect_inflight == 0 { 0 } else { self.inspect_inflight - 1 };
        self.loading = self.inspect_inflight > 0;
        match result {
            Ok(info) => {
                let first = !self.has_pdf();
                let ghost before = self.items_v();
                let ghost pv = ItemView::Pdf { path: info.path@, name: info.name@, pages: info.page_count as nat };
                let mut i: usize = 0;
                let mut found = false;
                while i < self.items.len() && !found
                    invariant
                        i <= self.items@.len(),
                        self.items_v() == before,
                        forall|j: int| 0 <= j < i ==> !is_pending_with(#[trigger] before[j], info.path@),
                        found ==> i < self.items@.len() && is_pending_with(before[i as int], info.path@),
                    decreases self.items@.len() - i - (if found { 1int } else { 0int }),
                {
                    assert(before[i as int] == self.items@[i as int]@);
                    if is_pending_for(&self.items[i], &info.path) {
                        found = true;
                    } else {
                        i += 1;
                    }
                }
                if found {
                    assert(first_pending_at(before, info.path@, i as int));
                    assert(pv.path() == info.path@);
                    assert(first_pending_at(before, pv.path(), i as int));
                    let ghost k = pending_index(before, pv.path());
                    proof {
                        lemma_first_pending_unique(before, info.path@, i as int, k);
                    }
                    assert(resolve_pending(before, pv) == before.update(i as int, pv));
                    self.items.set(i, ImportItem::Pdf(info));
                    assert(self.items_v() =~= before.update(i as int, pv));
                    assert(self.items_v() == resolve_pending(before, pv));
                } else {
                    assert forall|k: int| !first_pending_at(before, info.path@, k) by {
                        if 0 <= k < before.len() {
                            assert(!is_pending_with(before[k], info.path@));
                        }
                    }
                    assert(self.items_v() == resolve_pending(before, pv));
                }
                self.error = None;
                Some(first)
            },
            Err((path, msg)) => {
                let ghost before = self.items_v();
                let mut kept: Vec<ImportItem> = Vec::new();
                let mut i: usize = 0;
                assert(items_view(kept@) =~= drop_pending(before.take(0), path@));
                while i < self.items.len()
                    invariant
                        i <= self.items@.len(),
                        self.items_v() == before,
                        items_view(kept@) == drop_pending(before.take(i as int), path@),
                    decreases self.items.len() - i,
                {
                    assert(before.take(i + 1).drop_last() =~= before.take(i as int));
                    assert(before.take(i + 1).last() == self.items@[i as int]@);
                    if !is_pending_for(&self.items[i], &path) {
                        let ghost kb = kept@;
                        kept.push(self.items[i].clone_item());
                        assert(items_view(kept@) =~= items_view(kb).push(self.items@[i as int]@));
                    }
                    i += 1;
                }
                assert(before.take(i as int) =~= before);
                self.items = kept;
                let mut e = path.clone();
                e.append(": ");
                e.append(msg.as_str());
                self.error = Some(e);
                Some(false)
            },
        }
    }

    /// The jobs confirming the dialog starts: `None` while PDFs are being
    /// inspected or the list is empty; otherwise one job per entry, in order.
    pub fn import_jobs(&self) -> (r: Option<Vec<ImportJob>>)
        ensures
            r is None <==> (self.loading
                || (exists|i: int| 0 <= i < self.items@.len() && #[trigger] self.items@[i]@ is Pending)
                || self.items@.len() == 0),
            r matches Some(jobs) ==> jobs@.map_values(|j: ImportJob| j@) == self.items_v().map_values(
                |v: ItemView| job_of(
                    v,
                    exists|i: int| 0 <= i < self.items@.len() && #[trigger] self.items@[i]@ is Pdf,
                    self.target_w,
                    self.target_h,
                    self.lock_aspect,
                ),
            ),
            r matches Some(jobs) ==> forall|i: int| 0 <= i < jobs@.len() ==> {
                let j = (#[trigger] jobs@[i])@;
                &&& j is Image ==> self.items@[i]@ is Image
                &&& j is Image && j->target is Some ==> {
                    let t = j->target->0;
                    t.0 == self.target_w && t.2 == self.lock_aspect && t.1 >= 1
                }
            },
    {
        if self.loading || self.has_pending_pdf() || self.items.len() == 0 {
            return None;
        }
        let any_pdf = self.has_pdf();
        let th = if self.target_h > 1 { self.target_h } else { 1 };
        let target = if any_pdf && self.target_w > 0 {
            Some((self.target_w, th, self.lock_aspect))
        } else {
            None
        };
        let ghost want = self.items_v().map_values(
            |v: ItemView| job_of(v, any_pdf, self.target_w, self.target_h, self.lock_aspect),
        );
        let mut jobs: Vec<ImportJob> = Vec::new();
        let mut i: usize = 0;
        while i < self.items.len()
            invariant
                i <= self.items@.len(),
                want.len() == self.items@.len(),
                want == self.items_v().map_values(
                    |v: ItemView| job_of(v, any_pdf, self.target_w, self.target_h, self.lock_aspect),
                ),
                target == (if any_pdf && self.target_w > 0 {
                    Some((self.target_w, if self.target_h > 1 { self.target_h } else { 1u32 }, self.lock_aspect))
                } else {
                    None
                }),
                jobs@.len() == i,
                jobs@.map_values(|j: ImportJob| j@) == want.take(i as int),
            decreases self.items.len() - i,
        {
            assert(self.items_v()[i as int] == self.items@[i as int]@);
            let job = match &self.items[i] {
                ImportItem::Image { path, .. } => ImportJob::Image { path: path.clone(), target },
                other => ImportJob::Pdf { path: other.path().clone() },
            };
            assert(job@ == want[i as int]);
            let ghost jb = jobs@;
            jobs.push(job);
            assert forall|j: int| 0 <= j < i + 1 implies (#[trigger] jobs@[j])@ == want[j] by {
                if j < i {
                    assert(jb.map_values(|j: ImportJob| j@)[j] == want.take(i as int)[j]);
                    assert(jobs@[j] == jb[j]);
                }
            }
            assert(jobs@.map_values(|j: ImportJob| j@) =~= want.take(i + 1));
            i += 1;
        }
        assert(want.take(i as int) =~= want);
        assert forall|k: int| 0 <= k < jobs@.len() implies {
            let j = (#[trigger] jobs@[k])@;
            &&& j is Image ==> self.items@[k]@ is Image
            &&& j is Image && j->target is Some ==> {
                let t = j->target->0;
                t.0 == self.target_w && t.2 == self.lock_aspect && t.1 >= 1
            }
        } by {
            assert(jobs@.map_values(|j: ImportJob| j@)[k] == want[k]);
            assert(self.items_v()[k] == self.items@[k]@);
            lemma_image_jobs_follow_the_dialog(self.items@[k]@, any_pdf, self.target_w, self.target_h, self.lock_aspect);
        }
        Some(jobs)
    }
}

impl ImportItem {
    /// A copy of the entry.
    pub fn clone_item(&self) -> (r: ImportItem)
        ensures
            r@ == self@,
    {
        match self {
            ImportItem::Pdf(f) => ImportItem::Pdf(PdfFile {
                path: f.path.clone(),
                name: f.name.clone(),
                page_count: f.page_count,
            }),
            ImportItem::PdfPending { path, name } => ImportItem::PdfPending { path: path.clone(), name: name.clone() },
            ImportItem::Image { path, name } => ImportItem::Image { path: path.clone(), name: name.clone() },
        }
    }
}

/// The second line shown under an entry: the page count of a PDF, a note
/// while it is read, and for an image how it will be sized (to the PDF
/// width, stretched to the PDF size, or kept as it is).
pub open spec fn item_subtitle(v: ItemView, has_pdf: bool, target_w: u32, target_h: u32, lock: bool) -> Seq<char> {
    match v {
        ItemView::Pdf { pages, .. } => "PDF · "@ + decimal(pages) + " 页"@,
        ItemView::Pending { .. } => "PDF · 读取中…"@,
        ItemView::Image { .. } => if has_pdf && target_w > 0 {
            if lock {
                "图片 · 齐宽 "@ + decimal(target_w as nat) + " px"@
            } else {
                "图片 · 拉伸到 "@ + decimal(target_w as nat) + "×"@ + decimal(target_h as nat)
            }
        } else {
            "图片 · 原像素"@
        },
    }
}

impl ImportItem {
    /// The second line shown under the entry (see `item_subtitle`).
    pub fn subtitle(&self, has_pdf: bool, target_w: u32, target_h: u32, lock: bool) -> (r: String)
        ensures
            r@ == item_subtitle(self@, has_pdf, target_w, target_h, lock),
    {
        match self {
            ImportItem::Pdf(f) => {
                let mut s = String::from_str("PDF · ");
                push_decimal(&mut s, f.page_count as u128);
                s.append(" 页");
                s
            },
            ImportItem::PdfPending { .. } => String::from_str("PDF · 读取中…"),
            ImportItem::Image { .. } => {
                if has_pdf && target_w > 0 {
                    if lock {
                        let mut s = String::from_str("图片 · 齐宽 ");
                        push_decimal(&mut s, target_w as u128);
                        s.append(" px");
                        s
                    } else {
                        let mut s = String::from_str("图片 · 拉伸到 ");
                        push_decimal(&mut s, target_w as u128);
                        s.append("×");
                        push_decimal(&mut s, target_h as u128);
                        s
                    }
                } else {
                    String::from_str("图片 · 原像素")
                }
            },
        }
    }
}

/// The hint on the drop area of the import dialog.
pub fn drop_hint(loading: bool, n_items: usize) -> (r: &'static str)
    ensures
        r@ == (if loading { "正在读取 PDF…"@ } else if n_items > 0 { "点击或拖入以添加更多"@ } else { "请拖入文件"@ }),
{
    if loading {
        "正在读取 PDF…"
    } else if n_items > 0 {
        "点击或拖入以添加更多"
    } else {
        "请拖入文件"
    }
}

/// Rendered pages of one PDF never share a name: different page indices
/// give different names.
pub proof fn lemma_page_names_distinct(pdf_name: Seq<char>, i: nat, j: nat)
    requires
        i != j,
    ensures
        pdf_name + "_p"@ + padded_decimal(i + 1, 3) + ".png"@ != pdf_name + "_p"@ + padded_decimal(j + 1, 3) + ".png"@,
{
    if pdf_name + "_p"@ + padded_decimal(i + 1, 3) + ".png"@ == pdf_name + "_p"@ + padded_decimal(j + 1, 3) + ".png"@ {
        lemma_same_frame(pdf_name + "_p"@, padded_decimal(i + 1, 3), padded_decimal(j + 1, 3), ".png"@);
        lemma_padded_injective(i + 1, j + 1, 3);
    }
}

/// No two entries stand for the same file.
pub open spec fn paths_distinct(items: Seq<ItemView>) -> bool {
    forall|i: int, j: int| 0 <= i < j < items.len() ==> (#[trigger] items[i]).path() != (#[trigger] items[j]).path()
}

/// Some entry is the pending PDF `path`.
pub open spec fn is_listed_pending(items: Seq<ItemView>, path: Seq<char>) -> bool {
    exists|k: int| 0 <= k < items.len() && #[trigger] is_pending_with(items[k], path)
}

/// Every queued path has a pending entry.
pub open spec fn queued_are_pending(items: Seq<ItemView>, queued: Seq<Seq<char>>) -> bool {
    forall|q: int| 0 <= q < queued.len() ==> is_listed_pending(items, #[trigger] queued[q])
}

/// Offering paths never lists a file twice: a list without repeated files
/// stays so, and every PDF queued for inspection is in it as a pending entry.
pub proof fn lemma_offer_keeps_paths_distinct(items: Seq<ItemView>, paths: Seq<ImportPath>)
    requires
        paths_distinct(items),
    ensures
        paths_distinct(offer_paths(items, paths).0),
        queued_are_pending(offer_paths(items, paths).0, offer_paths(items, paths).1),
    decreases paths.len(),
{
    if paths.len() > 0 {
        lemma_offer_keeps_paths_distinct(items, paths.drop_last());
        let r = offer_paths(items, paths.drop_last());
        let p = paths.last();
        let out = offer_path(r.0, r.1, p.path@, p.name@, p.kind);
        if !(has_path(r.0, p.path@) || r.1.contains(p.path@)) {
            assert forall|i: int, j: int| 0 <= i < j < out.0.len() implies (#[trigger] out.0[i]).path() != (#[trigger] out.0[j]).path() by {
                if j == r.0.len() {
                    if out.0[i].path() == p.path@ {
                        assert(r.0[i].path() == p.path@);
                    }
                }
            }
            assert forall|q: int| 0 <= q < out.1.len() implies is_listed_pending(out.0, #[trigger] out.1[q]) by {
                if q < r.1.len() {
                    assert(is_listed_pending(r.0, r.1[q]));
                    let k = choose|k: int| 0 <= k < r.0.len() && #[trigger] is_pending_with(r.0[k], r.1[q]);
                    assert(out.0[k] == r.0[k]);
                    assert(out.1[q] == r.1[q]);
                } else {
                    assert(is_pending_with(out.0[r.0.len() as int], out.1[q]));
                }
            }
        }
    }
}

/// Answering an inspection keeps the list free of repeated files.
pub proof fn lemma_inspect_keeps_paths_distinct(items: Seq<ItemView>, pdf: ItemView, failed: Seq<char>)
    requires
        paths_distinct(items),
        pdf is Pdf,
    ensures
        paths_distinct(resolve_pending(items, pdf)),
        paths_distinct(drop_pending(items, failed)),
{
    if exists|k: int| first_pending_at(items, pdf.path(), k) {
        let k = pending_index(items, pdf.path());
        assert(first_pending_at(items, pdf.path(), k));
        let out = items.update(k, pdf);
        assert forall|i: int, j: int| 0 <= i < j < out.len() implies (#[trigger] out[i]).path() != (#[trigger] out[j]).path() by {
            assert(items[k].path() == pdf.path());
            if i == k {
                assert(items[i].path() != items[j].path());
            } else if j == k {
                assert(items[i].path() != items[j].path());
            }
        }
    }
    lemma_drop_pending_distinct(items, failed);
}

proof fn lemma_drop_pending_distinct(items: Seq<ItemView>, path: Seq<char>)
    requires
        paths_distinct(items),
    ensures
        paths_distinct(drop_pending(items, path)),
        forall|x: ItemView| drop_pending(items, path).contains(x) ==> items.contains(x),
    decreases items.len(),
{
    if items.len() > 0 {
        let rest = items.drop_last();
        assert(paths_distinct(rest));
        lemma_drop_pending_distinct(rest, path);
        let d = drop_pending(rest, path);
        if !is_pending_with(items.last(), path) {
            let out = d.push(items.last());
            assert forall|i: int, j: int| 0 <= i < j < out.len() implies (#[trigger] out[i]).path() != (#[trigger] out[j]).path() by {
                if j == d.len() {
                    assert(d.contains(out[i]));
                    assert(rest.contains(out[i]));
                    let m = choose|m: int| 0 <= m < rest.len() && rest[m] == out[i];
                    assert(items[m] == out[i]);
                    assert(items[items.len() - 1] == out[j]);
                }
            }
            assert forall|x: ItemView| out.contains(x) implies items.contains(x) by {
                if x != items.last() {
                    let m = choose|m: int| 0 <= m < out.len() && out[m] == x;
                    assert(d.contains(x));
                    assert(rest.contains(x));
                    let r = choose|r: int| 0 <= r < rest.len() && rest[r] == x;
                    assert(items[r] == x);
                } else {
                    assert(items[items.len() - 1] == x);
                }
            }
        } else {
            assert forall|x: ItemView| d.contains(x) implies items.contains(x) by {
                assert(rest.contains(x));
                let r = choose|r: int| 0 <= r < rest.len() && rest[r] == x;
                assert(items[r] == x);
            }
        }
    }
}

/// ASCII letters in lower case; other characters unchanged.
pub open spec fn ascii_lower(s: Seq<char>) -> Seq<char> {
    s.map_values(|c: char| if 'A' <= c && c <= 'Z' { ((c as u32) + 32) as char } else { c })
}

/// The kind of a file by its extension, compared without regard to ASCII
/// case (the file pickers match extensions that way on Windows):
/// `staffcrop` is a project, `pdf` a PDF, the formats the image picker offers
/// (png, jpg, jpeg, tif, tiff, bmp, webp) images; anything else is not opened.
pub open spec fn kind_of_ext(ext: Seq<char>) -> PathKind {
    let e = ascii_lower(ext);
    if e == "staffcrop"@ {
        PathKind::Project
    } else if e == "pdf"@ {
        PathKind::Pdf
    } else if e == "png"@ || e == "jpg"@ || e == "jpeg"@ || e == "bmp"@ || e == "tif"@ || e == "tiff"@
        || e == "webp"@ {
        PathKind::Image
    } else {
        PathKind::Other
    }
}

fn lower_char(c: char) -> (r: char)
    ensures
        r == (if 'A' <= c && c <= 'Z' { ((c as u32) + 32) as char } else { c }),
{
    if 'A' <= c && c <= 'Z' {
        ((c as u8) + 32) as char
    } else {
        c
    }
}

fn chars_eq(a: &Vec<char>, b: &str) -> (r: bool)
    ensures
        r == (a@ == b@),
{
    let w = crate::text::str_to_chars(b);
    if a.len() != w.len() {
        return false;
    }
    let mut i: usize = 0;
    while i < a.len()
        invariant
            i <= a@.len() == w@.len(),
            w@ == b@,
            a@.take(i as int) == w@.take(i as int),
        decreases a.len() - i,
    {
        if a[i] != w[i] {
            assert(a@[i as int] != w@[i as int]);
            return false;
        }
        assert(a@.take(i + 1) =~= a@.take(i as int).push(a@[i as int]));
        assert(w@.take(i + 1) =~= w@.take(i as int).push(w@[i as int]));
        i += 1;
    }
    assert(a@.take(i as int) =~= a@);
    assert(w@.take(i as int) =~= w@);
    true
}

/// The kind of a file whose extension is `ext` (see `kind_of_ext`).
pub fn kind_of_extension(ext: &str) -> (k: PathKind)
    ensures
        k == kind_of_ext(ext@),
{
    let v = crate::text::str_to_chars(ext);
    let mut e: Vec<char> = Vec::new();
    let mut i: usize = 0;
    while i < v.len()
        invariant
            i <= v@.len(),
            v@ == ext@,
            e@ == ascii_lower(v@.take(i as int)),
        decreases v.len() - i,
    {
        e.push(lower_char(v[i]));
        assert(e@ =~= ascii_lower(v@.take(i + 1)));
        i += 1;
    }
    assert(v@.take(i as int) =~= v@);
    if chars_eq(&e, "staffcrop") {
        PathKind::Project
    } else if chars_eq(&e, "pdf") {
        PathKind::Pdf
    } else if chars_eq(&e, "png") || chars_eq(&e, "jpg") || chars_eq(&e, "jpeg") || chars_eq(&e, "bmp")
        || chars_eq(&e, "tif") || chars_eq(&e, "tiff") || chars_eq(&e, "webp") {
        PathKind::Image
    } else {
        PathKind::Other
    }
}

/// Where the paths opened together go: the last project is opened, PDFs
/// and images go to the import dialog, anything else is refused.
#[derive(Clone, Debug)]
pub struct LoadPlan {
    pub project: Option<usize>,
    pub import: Vec<usize>,
    pub refused: Vec<usize>,
}

/// The indices `i < n` whose kind is one of PDF / image (`media`) or is
/// `Other` (`!media`), in increasing order.
pub open spec fn indices_of(kinds: Seq<PathKind>, media: bool, n: int) -> Seq<usize>
    decreases n,
{
    if n <= 0 {
        Seq::empty()
    } else {
        let rest = indices_of(kinds, media, n - 1);
        let k = kinds[n - 1];
        let hit = if media { k == PathKind::Pdf || k == PathKind::Image } else { k == PathKind::Other };
        if hit { rest.push((n - 1) as usize) } else { rest }
    }
}

/// The index of the last project among the first `n` kinds.
pub open spec fn last_project_below(kinds: Seq<PathKind>, n: int) -> Option<usize>
    decreases n,
{
    if n <= 0 {
        None
    } else if kinds[n - 1] == PathKind::Project {
        Some((n - 1) as usize)
    } else {
        last_project_below(kinds, n - 1)
    }
}

pub fn plan_load(kinds: &Vec<PathKind>) -> (p: LoadPlan)
    ensures
        p.project == last_project_below(kinds@, kinds@.len() as int),
        p.import@ == indices_of(kinds@, true, kinds@.len() as int),
        p.refused@ == indices_of(kinds@, false, kinds@.len() as int),
{
    let mut project: Option<usize> = None;
    let mut import: Vec<usize> = Vec::new();
    let mut refused: Vec<usize> = Vec::new();
    let mut i: usize = 0;
    while i < kinds.len()
        invariant
            i <= kinds@.len(),
            project == last_project_below(kinds@, i as int),
            import@ == indices_of(kinds@, true, i as int),
            refused@ == indices_of(kinds@, false, i as int),
        decreases kinds.len() - i,
    {
        match kinds[i] {
            PathKind::Project => {
                project = Some(i);
            },
            PathKind::Pdf | PathKind::Image => {
                import.push(i);
            },
            PathKind::Other => {
                refused.push(i);
            },
        }
        i += 1;
    }
    LoadPlan { project, import, refused }
}

impl ImportPath {
    /// The entry for `path`: the path written out from its components (so
    /// texts that name the same path, differing only in doubled `/`, `.`
    /// pieces or a trailing `/`, give the same entry path and are listed
    /// once), its file name, and `kind`.
    pub fn new(path: &str, kind: PathKind) -> (r: ImportPath)
        ensures
            r.kind == kind,
            is_plain_path(path@) ==> r.path@ == parts_text(plain_parts(path@)),
            is_plain_path(path@) ==> r.name@ == (match plain_file_name(path@) {
                Some(n) => n,
                None => "file"@,
            }),
            names_a_file(path@) ==> ends_with(r.name@, last_piece(path@)),
    {
        let parts = path_parts(path);
        ImportPath { path: join_parts(&parts), name: item_file_name(path), kind }
    }
}

/// The jobs follow the dialog: a PDF entry becomes a PDF job for its path;
/// an image entry becomes an image job for its path that carries a target
/// exactly when the list holds a counted PDF and a width was chosen, and then
/// the target is that width, the chosen height (at least 1) and the dialog's
/// aspect-ratio lock.
pub proof fn lemma_image_jobs_follow_the_dialog(v: ItemView, any_pdf: bool, target_w: u32, target_h: u32, lock: bool)
    ensures
        ({
            let j = job_of(v, any_pdf, target_w, target_h, lock);
            &&& !(v is Image) ==> j == (JobView::Pdf { path: v.path() })
            &&& v is Image ==> j is Image && j->Image_path == v.path()
            &&& v is Image ==> (j->target is Some <==> (any_pdf && target_w > 0))
            &&& v is Image && j->target is Some ==> {
                let t = j->target->0;
                &&& t.0 == target_w
                &&& t.2 == lock
                &&& t.1 >= 1
                &&& target_h >= 1 ==> t.1 == target_h
            }
        }),
{
}

/// `a` is `b` with some of its lower-case ASCII letters written in upper case.
pub open spec fn same_but_case(a: Seq<char>, b: Seq<char>) -> bool {
    &&& a.len() == b.len()
    &&& forall|i: int| 0 <= i < a.len() ==> (#[trigger] a[i] == b[i] || ('A' <= a[i] && a[i] <= 'Z'
        && a[i] as u32 + 32 == b[i] as u32))
}

proof fn lemma_lower_of_same_but_case(a: Seq<char>, b: Seq<char>)
    requires
        same_but_case(a, b),
        forall|i: int| 0 <= i < b.len() ==> 'a' <= #[trigger] b[i] && b[i] <= 'z',
    ensures
        ascii_lower(a) == b,
{
    assert forall|i: int| 0 <= i < a.len() implies #[trigger] ascii_lower(a)[i] == b[i] by {
        assert('a' <= b[i] && b[i] <= 'z');
        if a[i] != b[i] {
            assert(((a[i] as u32) + 32) as char == b[i]);
        }
    }
    assert(ascii_lower(a) =~= b);
}

/// Opening by extension, in any ASCII case: the formats the image picker
/// offers (png, jpg, jpeg, tif, tiff, bmp, webp) are images, `pdf` is a PDF
/// and `staffcrop` a project.
pub proof fn lemma_picker_extensions_open(e: Seq<char>)
    ensures
        same_but_case(e, "png"@) || same_but_case(e, "jpg"@) || same_but_case(e, "jpeg"@)
            || same_but_case(e, "tif"@) || same_but_case(e, "tiff"@) || same_but_case(e, "bmp"@)
            || same_but_case(e, "webp"@) ==> kind_of_ext(e) == PathKind::Image,
        same_but_case(e, "pdf"@) ==> kind_of_ext(e) == PathKind::Pdf,
        same_but_case(e, "staffcrop"@) ==> kind_of_ext(e) == PathKind::Project,
{
    reveal_strlit("png");
    reveal_strlit("jpg");
    reveal_strlit("jpeg");
    reveal_strlit("tif");
    reveal_strlit("tiff");
    reveal_strlit("bmp");
    reveal_strlit("webp");
    reveal_strlit("pdf");
    reveal_strlit("staffcrop");
    if same_but_case(e, "png"@) {
        lemma_lower_of_same_but_case(e, "png"@);
        assert(ascii_lower(e)[1] != "pdf"@[1]);
    }
    if same_but_case(e, "jpg"@) {
        lemma_lower_of_same_but_case(e, "jpg"@);
        assert(ascii_lower(e)[0] != "pdf"@[0]);
    }
    if same_but_case(e, "jpeg"@) {
        lemma_lower_of_same_but_case(e, "jpeg"@);
    }
    if same_but_case(e, "tif"@) {
        lemma_lower_of_same_but_case(e, "tif"@);
        assert(ascii_lower(e)[0] != "pdf"@[0]);
    }
    if same_but_case(e, "tiff"@) {
        lemma_lower_of_same_but_case(e, "tiff"@);
    }
    if same_but_case(e, "bmp"@) {
        lemma_lower_of_same_but_case(e, "bmp"@);
        assert(ascii_lower(e)[0] != "pdf"@[0]);
    }
    if same_but_case(e, "webp"@) {
        lemma_lower_of_same_but_case(e, "webp"@);
    }
    if same_but_case(e, "pdf"@) {
        lemma_lower_of_same_but_case(e, "pdf"@);
    }
    if same_but_case(e, "staffcrop"@) {
        lemma_lower_of_same_but_case(e, "staffcrop"@);
    }
}

/// Whether `indices_of` picks the kind `k`.
pub open spec fn picked(k: PathKind, media: bool) -> bool {
    if media { k == PathKind::Pdf || k == PathKind::Image } else { k == PathKind::Other }
}

proof fn lemma_indices_of(kinds: Seq<PathKind>, media: bool, n: int)
    requires
        0 <= n <= kinds.len(),
        kinds.len() <= usize::MAX,
    ensures
        ({
            let ix = indices_of(kinds, media, n);
            &&& forall|a: int, b: int| 0 <= a < b < ix.len() ==> ix[a] < ix[b]
            &&& forall|a: int| 0 <= a < ix.len() ==> #[trigger] ix[a] < n
            &&& forall|i: int| 0 <= i < n ==> (ix.contains(i as usize) <==> picked(kinds[i], media))
        }),
    decreases n,
{
    if n > 0 {
        lemma_indices_of(kinds, media, n - 1);
        let rest = indices_of(kinds, media, n - 1);
        let ix = indices_of(kinds, media, n);
        let hit = picked(kinds[n - 1], media);
        assert(hit ==> ix == rest.push((n - 1) as usize));
        assert(!hit ==> ix == rest);
        assert forall|i: int| 0 <= i < n implies (ix.contains(i as usize) <==> picked(kinds[i], media)) by {
            if i < n - 1 {
                if ix.contains(i as usize) {
                    let a = choose|a: int| 0 <= a < ix.len() && ix[a] == i as usize;
                    if hit && a == rest.len() {
                        assert(ix[a] == (n - 1) as usize);
                    } else {
                        assert(ix[a] == rest[a]);
                        assert(rest.contains(i as usize));
                    }
                }
                if rest.contains(i as usize) {
                    let a = choose|a: int| 0 <= a < rest.len() && rest[a] == i as usize;
                    assert(ix[a] == rest[a]);
                }
            } else {
                if rest.contains(i as usize) {
                    let a = choose|a: int| 0 <= a < rest.len() && rest[a] == i as usize;
                    assert(rest[a] < n - 1);
                }
                if hit {
                    assert(ix[rest.len() as int] == i as usize);
                }
                if ix.contains(i as usize) && !hit {
                    assert(rest.contains(i as usize));
                }
            }
        }
    }
}

proof fn lemma_last_project_below(kinds: Seq<PathKind>, n: int)
    requires
        0 <= n <= kinds.len(),
        kinds.len() <= usize::MAX,
    ensures
        last_project_below(kinds, n) matches Some(i) ==> i < n && kinds[i as int] == PathKind::Project
            && forall|j: int| i < j < n ==> kinds[j] != PathKind::Project,
        last_project_below(kinds, n) is None ==> forall|j: int| 0 <= j < n ==> kinds[j] != PathKind::Project,
    decreases n,
{
    if n > 0 {
        lemma_last_project_below(kinds, n - 1);
    }
}

/// Where opened paths go: the project opened is the last project of the
/// list (none when there is none); the import list holds exactly the PDFs
/// and images and the refused list exactly the other files, each in the
/// order given.
pub proof fn lemma_load_plan_routes_every_path(kinds: Seq<PathKind>)
    requires
        kinds.len() <= usize::MAX,
    ensures
        ({
            let n = kinds.len() as int;
            let p = last_project_below(kinds, n);
            let imp = indices_of(kinds, true, n);
            let bad = indices_of(kinds, false, n);
            &&& p matches Some(i) ==> i < n && kinds[i as int] == PathKind::Project
                && forall|j: int| i < j < n ==> kinds[j] != PathKind::Project
            &&& p is None ==> forall|j: int| 0 <= j < n ==> kinds[j] != PathKind::Project
            &&& forall|i: int| 0 <= i < n ==> (imp.contains(i as usize) <==> (kinds[i] == PathKind::Pdf
                || kinds[i] == PathKind::Image))
            &&& forall|i: int| 0 <= i < n ==> (bad.contains(i as usize) <==> kinds[i] == PathKind::Other)
            &&& forall|a: int| 0 <= a < imp.len() ==> #[trigger] imp[a] < n
            &&& forall|a: int, b: int| 0 <= a < b < imp.len() ==> imp[a] < imp[b]
            &&& forall|a: int, b: int| 0 <= a < b < bad.len() ==> bad[a] < bad[b]
        }),
{
    lemma_last_project_below(kinds, kinds.len() as int);
    lemma_indices_of(kinds, true, kinds.len() as int);
    lemma_indices_of(kinds, false, kinds.len() as int);
}

/// Pages add up over a list split anywhere.
pub proof fn lemma_pages_add_up(a: Seq<ItemView>, b: Seq<ItemView>)
    ensures
        pages_of(a + b) == pages_of(a) + pages_of(b),
    decreases b.len(),
{
    if b.len() == 0 {
        assert(a + b =~= a);
    } else {
        lemma_pages_add_up(a, b.drop_last());
        assert((a + b).drop_last() =~= a + b.drop_last());
        assert((a + b).last() == b.last());
    }
}

/// An inspected PDF takes the place of the first pending entry for its file
/// and nothing else changes; without such an entry the list stays as it was.
pub proof fn lemma_inspected_pdf_fills_first_pending(items: Seq<ItemView>, pdf: ItemView)
    ensures
        resolve_pending(items, pdf).len() == items.len(),
        (exists|k: int| 0 <= k < items.len() && is_pending_with(#[trigger] items[k], pdf.path())) ==> exists|k: int| {
            &&& 0 <= k < items.len()
            &&& is_pending_with(items[k], pdf.path())
            &&& forall|j: int| 0 <= j < k ==> !is_pending_with(#[trigger] items[j], pdf.path())
            &&& #[trigger] resolve_pending(items, pdf)[k] == pdf
            &&& forall|j: int| 0 <= j < items.len() && j != k ==> resolve_pending(items, pdf)[j] == items[j]
        },
        (forall|k: int| 0 <= k < items.len() ==> !is_pending_with(#[trigger] items[k], pdf.path())) ==> resolve_pending(items, pdf) == items,
{
    if exists|k: int| 0 <= k < items.len() && is_pending_with(#[trigger] items[k], pdf.path()) {
        let k0 = choose|k: int| 0 <= k < items.len() && is_pending_with(#[trigger] items[k], pdf.path());
        lemma_first_pending_exists(items, pdf.path(), k0);
        let k = pending_index(items, pdf.path());
        assert(first_pending_at(items, pdf.path(), k));
        assert(resolve_pending(items, pdf)[k] == pdf);
    } else {
        assert forall|k: int| !first_pending_at(items, pdf.path(), k) by {
            if first_pending_at(items, pdf.path(), k) {
                assert(is_pending_with(items[k], pdf.path()));
            }
        }
    }
}

proof fn lemma_first_pending_exists(items: Seq<ItemView>, path: Seq<char>, k0: int)
    requires
        0 <= k0 < items.len(),
        is_pending_with(items[k0], path),
    ensures
        exists|k: int| first_pending_at(items, path, k),
    decreases k0,
{
    if forall|j: int| 0 <= j < k0 ==> !is_pending_with(#[trigger] items[j], path) {
        assert(first_pending_at(items, path, k0));
    } else {
        let j = choose|j: int| 0 <= j < k0 && is_pending_with(#[trigger] items[j], path);
        lemma_first_pending_exists(items, path, j);
    }
}

/// A failed inspection removes every pending entry for its file and keeps
/// all other entries in their order.
pub proof fn lemma_failed_pdf_is_dropped(items: Seq<ItemView>, path: Seq<char>)
    ensures
        forall|k: int| 0 <= k < drop_pending(items, path).len() ==> !is_pending_with(#[trigger] drop_pending(items, path)[k], path),
        forall|k: int| 0 <= k < items.len() && !is_pending_with(items[k], path) ==> drop_pending(items, path).contains(#[trigger] items[k]),
        crate::bg::is_ordered_subseq(drop_pending(items, path), items),
    decreases items.len(),
{
    if items.len() > 0 {
        let p = items.drop_last();
        lemma_failed_pdf_is_dropped(p, path);
        let d = drop_pending(p, path);
        let f0 = choose|f: Seq<int>| {
            &&& f.len() == d.len()
            &&& forall|a: int| 0 <= a < f.len() ==> 0 <= #[trigger] f[a] < p.len() && p[f[a]] == d[a]
            &&& forall|a: int, b: int| 0 <= a < b < f.len() ==> f[a] < f[b]
        };
        let out = drop_pending(items, path);
        let f = if is_pending_with(items.last(), path) { f0 } else { f0.push(items.len() - 1) };
        assert(f.len() == out.len());
        assert forall|a: int| 0 <= a < f.len() implies 0 <= #[trigger] f[a] < items.len() && items[f[a]] == out[a] by {
            if a < f0.len() {
                assert(f[a] == f0[a]);
                assert(out[a] == d[a]);
                assert(items[f0[a]] == p[f0[a]]);
            }
        }
        assert forall|a: int, b: int| 0 <= a < b < f.len() implies f[a] < f[b] by {
            if b < f0.len() {
                assert(f[a] == f0[a] && f[b] == f0[b]);
            } else {
                assert(f[a] == f0[a]);
            }
        }
        assert(crate::bg::is_ordered_subseq(out, items));
        assert forall|k: int| 0 <= k < out.len() implies !is_pending_with(#[trigger] out[k], path) by {
            if k < d.len() {
                assert(out[k] == d[k]);
            }
        }
        assert forall|k: int| 0 <= k < items.len() && !is_pending_with(items[k], path) implies out.contains(#[trigger] items[k]) by {
            if k < items.len() - 1 {
                assert(items[k] == p[k]);
                assert(d.contains(p[k]));
                let m = choose|m: int| 0 <= m < d.len() && d[m] == p[k];
                assert(out[m] == d[m]);
            } else {
                assert(out[out.len() - 1] == items[k]);
            }
        }
    } else {
        let f = Seq::<int>::empty();
        assert(f.len() == drop_pending(items, path).len());
        assert(crate::bg::is_ordered_subseq(drop_pending(items, path), items));
    }
}

}
