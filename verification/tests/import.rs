use score_sync::import::{
    drop_hint, item_file_name, kind_of_extension, plan_load, name_or, page_load_refresh, pdf_page_display_name, project_to_open,
    ImportItem, ImportJob, ImportPath, PathKind, PdfFile, PdfImportState,
};

fn ip(path: &str, kind: PathKind) -> ImportPath {
    ImportPath::new(path, kind)
}

fn pdf(path: &str, pages: usize) -> PdfFile {
    PdfFile { path: path.to_string(), name: item_file_name(path), page_count: pages }
}

#[test]
fn page_names_are_numbered_from_one() {
    assert_eq!(pdf_page_display_name("Bach.pdf", 6), "Bach.pdf_p007.png");
    assert_eq!(pdf_page_display_name("Bach.pdf", 0), "Bach.pdf_p001.png");
    assert_eq!(pdf_page_display_name("x", 999), "x_p1000.png");
}

#[test]
fn page_names_differ_per_page() {
    let a = pdf_page_display_name("s.pdf", 9);
    let b = pdf_page_display_name("s.pdf", 10);
    assert_ne!(a, b);
}

#[test]
fn refresh_on_first_last_and_every_eighth_page() {
    assert!(page_load_refresh(true, 3, 20));
    assert!(page_load_refresh(false, 8, 20));
    assert!(page_load_refresh(false, 16, 20));
    assert!(page_load_refresh(false, 20, 20));
    assert!(!page_load_refresh(false, 3, 20));
    assert!(!page_load_refresh(false, 9, 20));
}

#[test]
fn item_names_are_file_names_or_file() {
    assert_eq!(item_file_name("scores/Bach.pdf"), "Bach.pdf");
    assert_eq!(item_file_name("page.png"), "page.png");
    assert_eq!(item_file_name("/"), "file");
    assert_eq!(item_file_name(""), "file");
    assert_eq!(name_or(None, "pdf"), "pdf");
    assert_eq!(name_or(Some("a".to_string()), "pdf"), "a");
}

#[test]
fn item_accessors() {
    let a = ImportItem::Pdf(pdf("d/a.pdf", 3));
    let b = ImportItem::PdfPending { path: "d/b.pdf".to_string(), name: "b.pdf".to_string() };
    let c = ImportItem::Image { path: "d/c.png".to_string(), name: "c.png".to_string() };
    assert_eq!(a.path(), "d/a.pdf");
    assert_eq!(a.name(), "a.pdf");
    assert_eq!(a.as_pdf().map(|f| f.page_count), Some(3));
    assert_eq!(b.path(), "d/b.pdf");
    assert_eq!(b.name(), "b.pdf");
    assert!(b.as_pdf().is_none());
    assert_eq!(c.name(), "c.png");
    assert!(c.as_pdf().is_none());
}

#[test]
fn subtitles() {
    let a = ImportItem::Pdf(pdf("a.pdf", 12));
    let b = ImportItem::PdfPending { path: "b.pdf".to_string(), name: "b.pdf".to_string() };
    let c = ImportItem::Image { path: "c.png".to_string(), name: "c.png".to_string() };
    assert_eq!(a.subtitle(true, 0, 0, true), "PDF · 12 页");
    assert_eq!(b.subtitle(true, 0, 0, true), "PDF · 读取中…");
    assert_eq!(c.subtitle(true, 1200, 1600, true), "图片 · 齐宽 1200 px");
    assert_eq!(c.subtitle(true, 1200, 1600, false), "图片 · 拉伸到 1200×1600");
    assert_eq!(c.subtitle(false, 1200, 1600, true), "图片 · 原像素");
    assert_eq!(c.subtitle(true, 0, 1600, true), "图片 · 原像素");
}

#[test]
fn drop_hints() {
    assert_eq!(drop_hint(true, 3), "正在读取 PDF…");
    assert_eq!(drop_hint(false, 3), "点击或拖入以添加更多");
    assert_eq!(drop_hint(false, 0), "请拖入文件");
}

#[test]
fn last_project_wins() {
    let paths = vec![
        ip("a.staffcrop", PathKind::Project),
        ip("b.png", PathKind::Image),
        ip("c.staffcrop", PathKind::Project),
        ip("d.pdf", PathKind::Pdf),
    ];
    assert_eq!(project_to_open(&paths), Some(2));
    assert_eq!(project_to_open(&vec![ip("b.png", PathKind::Image)]), None);
}

#[test]
fn adding_paths_skips_duplicates_and_queues_pdfs() {
    let mut st = PdfImportState::new(true);
    let q = st.add_paths(&vec![
        ip("a.pdf", PathKind::Pdf),
        ip("b.png", PathKind::Image),
        ip("a.pdf", PathKind::Pdf),
        ip("notes.txt", PathKind::Other),
        ip("b.png", PathKind::Image),
    ]);
    assert_eq!(q, vec!["a.pdf".to_string()]);
    assert_eq!(st.items.len(), 2);
    assert!(st.groups_open);
    assert!(st.loading);
    assert_eq!(st.inspect_inflight, 1);
    assert!(st.has_pending_pdf());
    assert!(!st.has_pdf());
    assert!(st.contains_path(&"b.png".to_string()));
    assert!(!st.contains_path(&"notes.txt".to_string()));
    let q2 = st.add_paths(&vec![ip("a.pdf", PathKind::Pdf), ip("c.pdf", PathKind::Pdf)]);
    assert_eq!(q2, vec!["c.pdf".to_string()]);
    assert_eq!(st.inspect_inflight, 2);
    assert_eq!(st.items.len(), 3);
}

#[test]
fn adding_only_images_does_not_start_loading() {
    let mut st = PdfImportState::new(false);
    let q = st.add_paths(&vec![ip("b.png", PathKind::Image)]);
    assert!(q.is_empty());
    assert!(!st.loading);
    assert!(!st.groups_open);
    assert_eq!(st.total_pages(), 1);
}

#[test]
fn inspection_answers_fill_in_pending_entries() {
    let mut st = PdfImportState::new(true);
    st.add_paths(&vec![ip("a.pdf", PathKind::Pdf), ip("b.pdf", PathKind::Pdf), ip("c.png", PathKind::Image)]);
    assert_eq!(st.inspect_inflight, 2);
    // an answer for an older dialog changes nothing
    assert_eq!(st.finish_inspect(7, Ok(pdf("a.pdf", 4))), None);
    assert!(st.has_pending_pdf());
    assert_eq!(st.finish_inspect(0, Ok(pdf("a.pdf", 4))), Some(true));
    assert!(st.has_pdf());
    assert!(st.loading);
    assert_eq!(st.items[0].as_pdf().map(|f| f.page_count), Some(4));
    assert_eq!(
        st.finish_inspect(0, Err(("b.pdf".to_string(), "broken".to_string()))),
        Some(false)
    );
    assert!(!st.loading);
    assert_eq!(st.inspect_inflight, 0);
    assert_eq!(st.error.as_deref(), Some("b.pdf: broken"));
    assert_eq!(st.items.len(), 2);
    assert!(!st.has_pending_pdf());
    assert_eq!(st.total_pages(), 5);
    // a second counted PDF is not the first one
    st.add_paths(&vec![ip("d.pdf", PathKind::Pdf)]);
    assert_eq!(st.finish_inspect(0, Ok(pdf("d.pdf", 2))), Some(false));
    assert!(st.error.is_none());
    assert_eq!(st.total_pages(), 7);
}

#[test]
fn jobs_wait_for_inspection() {
    let mut st = PdfImportState::new(true);
    assert!(st.import_jobs().is_none());
    st.add_paths(&vec![ip("a.pdf", PathKind::Pdf), ip("c.png", PathKind::Image)]);
    assert!(st.import_jobs().is_none());
    st.finish_inspect(0, Ok(pdf("a.pdf", 4)));
    st.target_w = 1200;
    st.target_h = 0;
    let jobs = st.import_jobs().expect("jobs");
    assert_eq!(jobs.len(), 2);
    match &jobs[0] {
        ImportJob::Pdf { path } => assert_eq!(path, "a.pdf"),
        _ => panic!("expected a PDF job"),
    }
    match &jobs[1] {
        ImportJob::Image { path, target } => {
            assert_eq!(path, "c.png");
            assert_eq!(*target, Some((1200, 1, true)));
        }
        _ => panic!("expected an image job"),
    }
}

#[test]
fn images_alone_keep_their_pixels() {
    let mut st = PdfImportState::new(false);
    st.add_paths(&vec![ip("c.png", PathKind::Image)]);
    st.target_w = 800;
    let jobs = st.import_jobs().expect("jobs");
    match &jobs[0] {
        ImportJob::Image { target, .. } => assert_eq!(*target, None),
        _ => panic!("expected an image job"),
    }
}

#[test]
fn remove_and_reorder() {
    let mut st = PdfImportState::new(true);
    st.add_paths(&vec![
        ip("a.png", PathKind::Image),
        ip("b.png", PathKind::Image),
        ip("c.png", PathKind::Image),
    ]);
    st.apply_reorder(0, 2);
    let names: Vec<&str> = st.items.iter().map(|i| i.name()).collect();
    assert_eq!(names, vec!["b.png", "c.png", "a.png"]);
    st.remove_item(1);
    let names: Vec<&str> = st.items.iter().map(|i| i.name()).collect();
    assert_eq!(names, vec!["b.png", "a.png"]);
    st.remove_item(9);
    assert_eq!(st.items.len(), 2);
}

#[test]
fn kinds_by_extension() {
    assert_eq!(kind_of_extension("staffcrop"), PathKind::Project);
    assert_eq!(kind_of_extension("StaffCrop"), PathKind::Project);
    assert_eq!(kind_of_extension("PDF"), PathKind::Pdf);
    assert_eq!(kind_of_extension("png"), PathKind::Image);
    assert_eq!(kind_of_extension("JPEG"), PathKind::Image);
    assert_eq!(kind_of_extension("webp"), PathKind::Image);
    assert_eq!(kind_of_extension("TIF"), PathKind::Image);
    assert_eq!(kind_of_extension("gif"), PathKind::Other);
    assert_eq!(kind_of_extension("txt"), PathKind::Other);
    assert_eq!(kind_of_extension(""), PathKind::Other);
    assert_eq!(kind_of_extension("pdfx"), PathKind::Other);
}

#[test]
fn load_plans() {
    let kinds = vec![
        PathKind::Image,
        PathKind::Project,
        PathKind::Other,
        PathKind::Pdf,
        PathKind::Project,
        PathKind::Other,
    ];
    let p = plan_load(&kinds);
    assert_eq!(p.project, Some(4));
    assert_eq!(p.import, vec![0, 3]);
    assert_eq!(p.refused, vec![2, 5]);
    let q = plan_load(&vec![]);
    assert_eq!(q.project, None);
    assert!(q.import.is_empty() && q.refused.is_empty());
}

#[test]
fn same_path_written_differently_is_listed_once() {
    let mut st = PdfImportState::new(true);
    let q = st.add_paths(&vec![
        ip("scores//b.png", PathKind::Image),
        ip("scores/./b.png", PathKind::Image),
        ip("scores/b.png/", PathKind::Image),
        ip("scores/a.pdf", PathKind::Pdf),
        ip("scores//a.pdf", PathKind::Pdf),
    ]);
    assert_eq!(st.items.len(), 2);
    assert_eq!(q, vec!["scores/a.pdf".to_string()]);
    assert_eq!(st.items[0].path(), "scores/b.png");
    assert_eq!(st.items[0].name(), "b.png");
}

#[test]
fn entry_paths_are_written_from_components() {
    assert_eq!(ImportPath::new("/x//y/./z.png", PathKind::Image).path, "/x/y/z.png");
    assert_eq!(ImportPath::new("./a.pdf", PathKind::Pdf).path, "./a.pdf");
    assert_eq!(ImportPath::new("a/../b.png", PathKind::Image).path, "a/../b.png");
    assert_eq!(ImportPath::new("/", PathKind::Other).path, "/");
    assert_eq!(ImportPath::new("", PathKind::Other).path, "");
    let p = ImportPath::new("scores/Bach.pdf", PathKind::Pdf);
    assert_eq!((p.name.as_str(), p.kind), ("Bach.pdf", PathKind::Pdf));
}
