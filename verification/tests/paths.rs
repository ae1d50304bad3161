use score_sync::export::export_stem;
use score_sync::import::{item_file_name, ImportPath, PathKind};

/// The last piece between `/` that is neither empty nor `.`; none when it is `..`.
fn model_file_name(t: &str) -> Option<String> {
    for piece in t.split('/').rev() {
        if piece.is_empty() || piece == "." {
            continue;
        }
        if piece == ".." {
            return None;
        }
        return Some(piece.to_string());
    }
    None
}

fn model_stem(name: &str) -> String {
    match name.rfind('.') {
        None | Some(0) => name.to_string(),
        Some(k) => name[..k].to_string(),
    }
}

fn all_paths(max_len: usize) -> Vec<String> {
    let alphabet = ['a', 'b', '.', '/'];
    let mut out = vec![String::new()];
    let mut layer = vec![String::new()];
    for _ in 0..max_len {
        let mut next = Vec::new();
        for p in &layer {
            for c in alphabet {
                let mut q = p.clone();
                q.push(c);
                next.push(q);
            }
        }
        out.extend(next.iter().cloned());
        layer = next;
    }
    out
}

#[test]
fn file_names_follow_the_last_named_component() {
    for p in all_paths(6) {
        let want = model_file_name(&p).unwrap_or_else(|| "file".to_string());
        assert_eq!(item_file_name(&p), want, "path {p:?}");
    }
    assert_eq!(item_file_name("/scores/a.pdf"), "a.pdf");
    assert_eq!(item_file_name("scores/a.pdf/"), "a.pdf");
    assert_eq!(item_file_name("scores/.."), "file");
    assert_eq!(item_file_name("scores/."), "scores");
}

#[test]
fn stems_follow_the_last_dot() {
    for p in all_paths(6) {
        let want = match model_file_name(&p) {
            Some(n) => model_stem(&n),
            None => "export".to_string(),
        };
        assert_eq!(export_stem(&vec![p.clone()]), want, "path {p:?}");
    }
    assert_eq!(export_stem(&vec!["a/score.png".into(), "b.png".into(), "c.png".into()]), "score_x3");
    assert_eq!(export_stem(&vec!["x/.hidden".into()]), ".hidden");
    assert_eq!(export_stem(&vec!["x/a.tar.gz".into()]), "a.tar");
}

/// Components as `Path::components` reads a plain path, written back with `/`.
fn model_join(t: &str) -> String {
    let mut parts: Vec<String> = Vec::new();
    if t.starts_with('/') {
        parts.push("/".to_string());
    }
    for (i, piece) in t.split('/').enumerate() {
        if piece.is_empty() || (piece == "." && i > 0) {
            continue;
        }
        parts.push(piece.to_string());
    }
    let mut out = String::new();
    for p in parts {
        if !out.is_empty() && !out.ends_with('/') {
            out.push('/');
        }
        out.push_str(&p);
    }
    out
}

#[test]
fn entry_paths_follow_the_components() {
    for p in all_paths(6) {
        if p.starts_with("//") {
            continue;
        }
        assert_eq!(ImportPath::new(&p, PathKind::Image).path, model_join(&p), "path {p:?}");
    }
}

#[test]
fn names_of_backslash_paths_end_with_the_last_piece() {
    assert!(item_file_name("C:\\scores\\bach.pdf").ends_with("bach.pdf"));
    assert!(item_file_name("d/e\\f.png").ends_with("f.png"));
    assert!(export_stem(&vec!["C:\\scores\\bach.png".to_string()]).ends_with("bach"));
    assert!(export_stem(&vec!["x.y\\a.b.png".to_string()]).ends_with("a.b"));
}
