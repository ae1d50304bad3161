//! The user settings kept between runs: the project opened last. Besides the
//! current JSON file, the older `config.txt` format is read: lines of
//! `key=value`, blank lines and lines starting with `#` ignored.

use vstd::prelude::*;
use crate::text::{str_to_chars, string_from_range, take_range, trim_bounds, trimmed};

verus! {

/// The settings the library reads and changes.
#[derive(Clone, Debug)]
pub struct Config {
    /// The project file opened or saved last (empty when there is none).
    pub last_project: String,
}

impl Default for Config {
    fn default() -> (c: Self)
        ensures
            c.last_project@ == Seq::<char>::empty(),
    {
        Config { last_project: String::new() }
    }
}

/// The lines of `t`: the pieces between `'\n'` characters (a final
/// `'\n'` gives a last empty piece).
pub open spec fn text_pieces(t: Seq<char>) -> Seq<Seq<char>>
    decreases t.len(),
{
    if t.len() == 0 {
        seq![Seq::empty()]
    } else if t.last() == '\n' {
        text_pieces(t.drop_last()).push(Seq::empty())
    } else {
        let p = text_pieces(t.drop_last());
        p.update(p.len() - 1, p.last().push(t.last()))
    }
}

/// The key of the remembered project in the old format.
pub open spec fn last_project_key() -> Seq<char> {
    "last_project="@
}

/// What one line of the old format says of the project: after trimming, a
/// line that is not blank, not a comment and starts with the key gives the
/// rest of the line.
pub open spec fn line_value(line: Seq<char>) -> Option<Seq<char>> {
    let t = trimmed(line);
    let k = last_project_key();
    if t.len() == 0 || t[0] == '#' {
        None
    } else if t.len() >= k.len() && t.take(k.len() as int) == k {
        Some(t.skip(k.len() as int))
    } else {
        None
    }
}

/// The value given by the last line that gives one.
pub open spec fn last_value(lines: Seq<Seq<char>>) -> Option<Seq<char>>
    decreases lines.len(),
{
    if lines.len() == 0 {
        None
    } else {
        match line_value(lines.last()) {
            Some(v) => Some(v),
            None => last_value(lines.drop_last()),
        }
    }
}

/// The project remembered by a settings file in the old format: the value of
/// its last `last_project=` line, or empty.
pub open spec fn legacy_last_project(text: Seq<char>) -> Seq<char> {
    match last_value(text_pieces(text)) {
        Some(v) => v,
        None => Seq::empty(),
    }
}

/// `v` starts with `prefix`.
fn starts_with_chars(v: &Vec<char>, prefix: &Vec<char>) -> (b: bool)
    ensures
        b == (v@.len() >= prefix@.len() && v@.take(prefix@.len() as int) == prefix@),
{
    if v.len() < prefix.len() {
        return false;
    }
    let mut i: usize = 0;
    while i < prefix.len()
        invariant
            i <= prefix@.len() <= v@.len(),
            v@.take(i as int) == prefix@.take(i as int),
        decreases prefix.len() - i,
    {
        if v[i] != prefix[i] {
            assert(v@.take(prefix@.len() as int)[i as int] != prefix@[i as int]);
            return false;
        }
        assert(v@.take(i + 1) =~= v@.take(i as int).push(v@[i as int]));
        assert(prefix@.take(i + 1) =~= prefix@.take(i as int).push(prefix@[i as int]));
        i += 1;
    }
    assert(prefix@.take(i as int) =~= prefix@);
    true
}

/// What the line `line` says of the project (see `line_value`).
fn read_line(line: &Vec<char>, key: &Vec<char>) -> (r: Option<String>)
    requires
        key@ == last_project_key(),
    ensures
        match r {
            Some(s) => line_value(line@) == Some(s@),
            None => line_value(line@) is None,
        },
{
    let (lo, hi) = trim_bounds(line);
    if lo == hi || line[lo] == '#' {
        return None;
    }
    let t = take_range(line, lo, hi);
    assert(t@ == trimmed(line@));
    if starts_with_chars(&t, key) {
        let v = string_from_range(&t, key.len(), t.len());
        assert(v@ =~= t@.skip(key@.len() as int));
        Some(v)
    } else {
        None
    }
}

/// Reads a settings file in the old format.
pub fn parse_legacy_config(text: &str) -> (cfg: Config)
    ensures
        cfg.last_project@ == legacy_last_project(text@),
{
    let chars = str_to_chars(text);
    let key = str_to_chars("last_project=");
    let mut line: Vec<char> = Vec::new();
    let mut value: Option<String> = None;
    let mut i: usize = 0;
    let ghost mut lines: Seq<Seq<char>> = Seq::empty();
    assert(chars@.take(0) =~= Seq::<char>::empty());
    while i < chars.len()
        invariant
            i <= chars@.len(),
            chars@ == text@,
            key@ == last_project_key(),
            text_pieces(chars@.take(i as int)) == lines.push(line@),
            match value {
                Some(s) => last_value(lines) == Some(s@),
                None => last_value(lines) is None,
            },
        decreases chars.len() - i,
    {
        let c = chars[i];
        assert(chars@.take(i + 1).drop_last() =~= chars@.take(i as int));
        assert(chars@.take(i + 1).last() == c);
        if c == '\n' {
            match read_line(&line, &key) {
                Some(v) => {
                    value = Some(v);
                },
                None => {},
            }
            proof {
                assert(lines.push(line@).drop_last() =~= lines);
                lines = lines.push(line@);
            }
            line = Vec::new();
            assert(text_pieces(chars@.take(i + 1)) =~= lines.push(line@));
        } else {
            let ghost before = line@;
            line.push(c);
            assert(text_pieces(chars@.take(i + 1)) =~= lines.push(line@));
        }
        i += 1;
    }
    match read_line(&line, &key) {
        Some(v) => {
            value = Some(v);
        },
        None => {},
    }
    proof {
        assert(chars@.take(i as int) =~= chars@);
        assert(lines.push(line@).drop_last() =~= lines);
        lines = lines.push(line@);
    }
    match value {
        Some(v) => Config { last_project: v },
        None => Config { last_project: String::new() },
    }
}

/// Records `path` as the project opened last; the rest of the settings stay.
pub fn remember_last_project(cfg: &mut Config, path: &str)
    ensures
        final(cfg).last_project@ == path@,
{
    cfg.last_project = String::from_str(path);
}

proof fn lemma_pieces_append_line(t: Seq<char>, l: Seq<char>)
    requires
        !l.contains('\n'),
    ensures
        text_pieces(t + seq!['\n'] + l) == text_pieces(t).push(l),
    decreases l.len(),
{
    let u = t + seq!['\n'] + l;
    if l.len() == 0 {
        assert(u =~= t.push('\n'));
        assert(u.drop_last() =~= t);
        assert(l =~= Seq::<char>::empty());
    } else {
        let l0 = l.drop_last();
        assert(!l0.contains('\n')) by {
            if l0.contains('\n') {
                let k = choose|k: int| 0 <= k < l0.len() && l0[k] == '\n';
                assert(l[k] == '\n');
            }
        }
        lemma_pieces_append_line(t, l0);
        assert(u.drop_last() =~= t + seq!['\n'] + l0);
        assert(u.last() == l.last());
        assert(l.last() != '\n') by {
            assert(l[l.len() - 1] == l.last());
        }
        assert(l0.push(l.last()) =~= l);
        let p = text_pieces(t).push(l0);
        assert(p.last() == l0);
        assert(p.update(p.len() - 1, l0.push(l.last())) =~= text_pieces(t).push(l));
    }
}

/// In the old settings format the last line that names a project wins:
/// appending such a line makes it the remembered project, and appending a
/// line that names none (blank, a comment, another key) changes nothing.
pub proof fn lemma_last_line_wins(text: Seq<char>, line: Seq<char>)
    requires
        !line.contains('\n'),
    ensures
        line_value(line) matches Some(v) ==> legacy_last_project(text + seq!['\n'] + line) == v,
        line_value(line) is None ==> legacy_last_project(text + seq!['\n'] + line) == legacy_last_project(text),
{
    lemma_pieces_append_line(text, line);
    assert(text_pieces(text).push(line).drop_last() =~= text_pieces(text));
}

}
