//! Registering `.staffcrop` project files with this program (per user): the
//! registry values written, and when a value has to be written at all.

use vstd::prelude::*;
use crate::text::{push_char, str_to_chars};

verus! {

/// `s` with every `'/'` turned into `'\\'`.
pub open spec fn backslashed(s: Seq<char>) -> Seq<char> {
    s.map_values(|c: char| if c == '/' { '\\' } else { c })
}

/// The program id `.staffcrop` files are bound to.
pub fn prog_id() -> (r: &'static str)
    ensures
        r@ == "ScoreSync.staffcrop"@,
{
    "ScoreSync.staffcrop"
}

/// The registry values for the program at `exe`.
#[derive(Clone, Debug)]
pub struct StaffcropAssociation {
    /// The open command: the quoted program path, then the quoted file (`"%1"`).
    pub command: String,
    /// The icon: the quoted program path and icon index 0.
    pub icon: String,
}

/// The open command and icon values for the program at `exe`, with the
/// path written with backslashes.
pub fn staffcrop_association(exe: &str) -> (a: StaffcropAssociation)
    ensures
        a.command@ == "\""@ + backslashed(exe@) + "\" \"%1\""@,
        a.icon@ == "\""@ + backslashed(exe@) + "\",0"@,
{
    let chars = str_to_chars(exe);
    let mut path = String::new();
    let mut i: usize = 0;
    while i < chars.len()
        invariant
            i <= chars@.len(),
            chars@ == exe@,
            path@ == backslashed(chars@.take(i as int)),
        decreases chars.len() - i,
    {
        let c = chars[i];
        push_char(&mut path, if c == '/' { '\\' } else { c });
        assert(backslashed(chars@.take(i + 1)) =~= backslashed(chars@.take(i as int)).push(
            if c == '/' { '\\' } else { c },
        ));
        i += 1;
    }
    assert(chars@.take(i as int) =~= chars@);
    let mut command = String::from_str("\"");
    command.append(path.as_str());
    command.append("\" \"%1\"");
    let mut icon = String::from_str("\"");
    icon.append(path.as_str());
    icon.append("\",0");
    StaffcropAssociation { command, icon }
}

/// Whether a registry value reading `current` has to be rewritten to hold `wanted`.
pub fn needs_write(current: &str, wanted: &str) -> (b: bool)
    ensures
        b == (current@ != wanted@),
{
    let a = str_to_chars(current);
    let w = str_to_chars(wanted);
    if a.len() != w.len() {
        return true;
    }
    let mut i: usize = 0;
    while i < a.len()
        invariant
            i <= a@.len() == w@.len(),
            a@ == current@,
            w@ == wanted@,
            a@.take(i as int) == w@.take(i as int),
        decreases a.len() - i,
    {
        if a[i] != w[i] {
            assert(a@[i as int] != w@[i as int]);
            return true;
        }
        assert(a@.take(i + 1) =~= a@.take(i as int).push(a@[i as int]));
        assert(w@.take(i + 1) =~= w@.take(i as int).push(w@[i as int]));
        i += 1;
    }
    assert(a@.take(i as int) =~= a@);
    assert(w@.take(i as int) =~= w@);
    false
}

}
