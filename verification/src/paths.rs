//! File names, stems and components of path text. For text without `\`
//! and `:` that does not start with `//`, every platform splits paths at `/`
//! alone, so these are functions of the text. Elsewhere only what holds on
//! every platform is stated.

use vstd::prelude::*;

verus! {

/// The text holds neither `\` nor `:` and does not start with `//`, so no
/// platform reads a drive, a network or device prefix, or a second kind of
/// separator in it.
pub open spec fn is_plain_path(t: Seq<char>) -> bool {
    &&& !t.contains('\\')
    &&& !t.contains(':')
    &&& !(t.len() >= 2 && t[0] == '/' && t[1] == '/')
}

/// The pieces of `t` between `/` characters (empty pieces included).
pub open spec fn path_pieces(t: Seq<char>) -> Seq<Seq<char>>
    decreases t.len(),
{
    if t.len() == 0 {
        seq![Seq::empty()]
    } else if t.last() == '/' {
        path_pieces(t.drop_last()).push(Seq::empty())
    } else {
        let p = path_pieces(t.drop_last());
        p.update(p.len() - 1, p.last().push(t.last()))
    }
}

/// The last piece that is neither empty nor `.`; none when there is no
/// such piece or when it is `..`.
pub open spec fn last_named(pieces: Seq<Seq<char>>) -> Option<Seq<char>>
    decreases pieces.len(),
{
    if pieces.len() == 0 {
        None
    } else if pieces.last().len() == 0 || pieces.last() == seq!['.'] {
        last_named(pieces.drop_last())
    } else if pieces.last() == seq!['.', '.'] {
        None
    } else {
        Some(pieces.last())
    }
}

/// The file name of a plain path: its last component (`Path::file_name`).
pub open spec fn plain_file_name(t: Seq<char>) -> Option<Seq<char>> {
    last_named(path_pieces(t))
}

/// The index of the last `.` in `s`, or -1.
pub open spec fn last_dot(s: Seq<char>) -> int
    decreases s.len(),
{
    if s.len() == 0 {
        -1
    } else if s.last() == '.' {
        s.len() - 1
    } else {
        last_dot(s.drop_last())
    }
}

/// The stem of a file name: the part before its last `.`, or the whole name
/// when it has no `.` or its only leading part before the last `.` is empty.
pub open spec fn stem_of(name: Seq<char>) -> Seq<char> {
    let k = last_dot(name);
    if k <= 0 { name } else { name.take(k) }
}

/// The file stem of a plain path (`Path::file_stem`).
pub open spec fn plain_file_stem(t: Seq<char>) -> Option<Seq<char>> {
    match plain_file_name(t) {
        Some(n) => Some(stem_of(n)),
        None => None,
    }
}

/// A path separator on some platform.
pub open spec fn is_sep(c: char) -> bool {
    c == '/' || c == '\\'
}

/// The text after the last `/` or `\`.
pub open spec fn last_piece(t: Seq<char>) -> Seq<char>
    decreases t.len(),
{
    if t.len() == 0 {
        Seq::empty()
    } else if is_sep(t.last()) {
        Seq::empty()
    } else {
        last_piece(t.drop_last()).push(t.last())
    }
}

/// The text ends in a name every platform reads as the last component:
/// it does not start with two separators, and its last piece is not empty,
/// holds no `:` and is neither `.` nor `..`.
pub open spec fn names_a_file(t: Seq<char>) -> bool {
    let p = last_piece(t);
    &&& !(t.len() >= 2 && is_sep(t[0]) && is_sep(t[1]))
    &&& p.len() > 0
    &&& !p.contains(':')
    &&& p != seq!['.']
    &&& p != seq!['.', '.']
}

/// `s` ends with `x`.
pub open spec fn ends_with(s: Seq<char>, x: Seq<char>) -> bool {
    s.len() >= x.len() && s.skip(s.len() - x.len()) == x
}

/// One component of a path as `Path::components` reads it.
#[derive(Clone, Debug)]
pub enum PathPart {
    Prefix(String),
    Root,
    Cur,
    Parent,
    Normal(String),
}

pub ghost enum PartView {
    Prefix(Seq<char>),
    Root,
    Cur,
    Parent,
    Normal(Seq<char>),
}

impl View for PathPart {
    type V = PartView;

    open spec fn view(&self) -> PartView {
        match self {
            PathPart::Prefix(p) => PartView::Prefix(p@),
            PathPart::Root => PartView::Root,
            PathPart::Cur => PartView::Cur,
            PathPart::Parent => PartView::Parent,
            PathPart::Normal(n) => PartView::Normal(n@),
        }
    }
}

pub open spec fn parts_view(parts: Seq<PathPart>) -> Seq<PartView> {
    parts.map_values(|p: PathPart| p@)
}

/// The components of the first `n` pieces between `/`: empty pieces and `.`
/// pieces are skipped, except a `.` that is the very first piece.
pub open spec fn kept_parts(pieces: Seq<Seq<char>>, n: int) -> Seq<PartView>
    decreases n,
{
    if n <= 0 {
        Seq::empty()
    } else {
        let rest = kept_parts(pieces, n - 1);
        let p = pieces[n - 1];
        if p.len() == 0 || (p == seq!['.'] && n - 1 > 0) {
            rest
        } else if p == seq!['.'] {
            rest.push(PartView::Cur)
        } else if p == seq!['.', '.'] {
            rest.push(PartView::Parent)
        } else {
            rest.push(PartView::Normal(p))
        }
    }
}

/// The components of a plain path: the root when it starts with `/`, then
/// the kept pieces.
pub open spec fn plain_parts(t: Seq<char>) -> Seq<PartView> {
    let ps = path_pieces(t);
    (if t.len() > 0 && t[0] == '/' { seq![PartView::Root] } else { Seq::empty() }) + kept_parts(
        ps,
        ps.len() as int,
    )
}

/// The text of one component.
pub open spec fn part_text(p: PartView) -> Seq<char> {
    match p {
        PartView::Prefix(s) => s,
        PartView::Root => seq!['/'],
        PartView::Cur => seq!['.'],
        PartView::Parent => seq!['.', '.'],
        PartView::Normal(s) => s,
    }
}

/// The components written out again, joined by `/` (none after a part that
/// already ends in `/`): the same text for paths with the same components.
pub open spec fn parts_text(parts: Seq<PartView>) -> Seq<char>
    decreases parts.len(),
{
    if parts.len() == 0 {
        Seq::empty()
    } else {
        let rest = parts_text(parts.drop_last());
        let s = part_text(parts.last());
        if rest.len() == 0 || rest.last() == '/' {
            rest + s
        } else {
            rest + seq!['/'] + s
        }
    }
}

/// The components of `path` (`Path::components`), each as text. For a plain
/// path they are `plain_parts`; elsewhere the platform decides and nothing is stated.
#[verifier::external_body]
pub(crate) fn path_parts(path: &str) -> (r: Vec<PathPart>)
    ensures
        is_plain_path(path@) ==> parts_view(r@) == plain_parts(path@),
{
    std::path::Path::new(path).components().map(|c| match c {
        std::path::Component::Prefix(p) => PathPart::Prefix(p.as_os_str().to_string_lossy().to_string()),
        std::path::Component::RootDir => PathPart::Root,
        std::path::Component::CurDir => PathPart::Cur,
        std::path::Component::ParentDir => PathPart::Parent,
        std::path::Component::Normal(s) => PathPart::Normal(s.to_string_lossy().to_string()),
    }).collect()
}

/// The components written out again (see `parts_text`).
pub fn join_parts(parts: &Vec<PathPart>) -> (r: String)
    ensures
        r@ == parts_text(parts_view(parts@)),
{
    let mut out: Vec<char> = Vec::new();
    let mut i: usize = 0;
    while i < parts.len()
        invariant
            i <= parts@.len(),
            out@ == parts_text(parts_view(parts@.take(i as int))),
        decreases parts.len() - i,
    {
        let s: Vec<char> = match &parts[i] {
            PathPart::Prefix(p) => crate::text::str_to_chars(p.as_str()),
            PathPart::Root => vec!['/'],
            PathPart::Cur => vec!['.'],
            PathPart::Parent => vec!['.', '.'],
            PathPart::Normal(n) => crate::text::str_to_chars(n.as_str()),
        };
        assert(s@ == part_text(parts@[i as int]@));
        assert(parts_view(parts@.take(i + 1)).drop_last() =~= parts_view(parts@.take(i as int)));
        assert(parts_view(parts@.take(i + 1)).last() == parts@[i as int]@);
        if out.len() > 0 && out[out.len() - 1] != '/' {
            out.push('/');
        }
        let ghost before = out@;
        let mut j: usize = 0;
        while j < s.len()
            invariant
                j <= s@.len(),
                out@ == before + s@.take(j as int),
            decreases s.len() - j,
        {
            out.push(s[j]);
            j += 1;
            assert(out@ =~= before + s@.take(j as int));
        }
        assert(s@.take(j as int) =~= s@);
        i += 1;
    }
    assert(parts@.take(i as int) =~= parts@);
    crate::text::string_from_chars(&out)
}

}
