//! Window-level text: the title bar, the key-binding context of the active
//! side tool, and the labels of check-mark menu items.

use vstd::prelude::*;
use crate::text::{decimal, push_decimal};

verus! {

/// The tool shown in the side panel.
#[derive(Clone, Copy, Debug, PartialEq, Eq, Structural)]
pub enum SideTool {
    /// Staff blocks, groups and members.
    Crop,
    /// The project background.
    Project,
    /// Masks over the combined images.
    Mask,
    /// The video tracks.
    Video,
}

/// The key-binding context while `tool` is active: the mask and video tools
/// have their own, every other tool uses the application's.
pub fn key_context(tool: SideTool) -> (r: &'static str)
    ensures
        r@ == (match tool {
            SideTool::Mask => "MaskTool"@,
            SideTool::Video => "ScoreVideo"@,
            _ => "ScoreSync"@,
        }),
{
    match tool {
        SideTool::Mask => "MaskTool",
        SideTool::Video => "ScoreVideo",
        _ => "ScoreSync",
    }
}

/// The title bar: with a current page, `曲谱同步 — [<n>/<count>] <title>`
/// where `n` counts from 1; otherwise the application's name.
pub open spec fn window_title_text(page: Option<(nat, nat, Seq<char>)>) -> Seq<char> {
    match page {
        Some((index, count, title)) => "曲谱同步 — ["@ + decimal(index + 1) + seq!['/'] + decimal(count)
            + "] "@ + title,
        None => "曲谱同步 / Score Sync"@,
    }
}

/// The title bar for the page at `index` of `count` pages, titled `title`,
/// or for no page.
pub fn window_title(page: Option<(usize, usize, &str)>) -> (r: String)
    requires
        page matches Some((index, _, _)) ==> index < usize::MAX,
    ensures
        r@ == window_title_text(
            match page {
                Some((index, count, title)) => Some((index as nat, count as nat, title@)),
                None => None,
            },
        ),
{
    match page {
        Some((index, count, title)) => {
            let mut s = String::from_str("曲谱同步 — [");
            push_decimal(&mut s, (index + 1) as u128);
            s.append("/");
            push_decimal(&mut s, count as u128);
            s.append("] ");
            s.append(title);
            proof {
                reveal_strlit("/");
            }
            s
        },
        None => String::from_str("曲谱同步 / Score Sync"),
    }
}

/// A menu item with a check mark column: `✓` and two spaces before a
/// checked item, four spaces before an unchecked one.
pub fn menu_item_label(checked: bool, text: &str) -> (r: String)
    ensures
        r@ == (if checked { "✓  "@ } else { "    "@ }) + text@,
{
    let mut s = if checked { String::from_str("✓  ") } else { String::from_str("    ") };
    s.append(text);
    s
}

/// The modal dialog shown, if any.
#[derive(Clone, Copy, Debug, PartialEq, Eq, Structural)]
pub enum DialogShown {
    UnsavedExit,
    UnsavedNew,
    Info,
    Help,
    UpdateAvailable,
}

/// What Esc does, in this order of precedence.
#[derive(Clone, Copy, Debug, PartialEq, Eq, Structural)]
pub enum EscAction {
    CloseImport,
    ClosePicker,
    CloseBatch,
    CloseOrganizer,
    /// Clears the panels' errors and cancels the unsaved-changes question.
    CancelQuestion,
    /// Clears the panels' errors and dismisses the message.
    DismissDialog,
    /// Clears the panels' errors.
    ClearErrors,
}

/// Esc closes the innermost open overlay: the import dialog, the background
/// picker, the batch dialog, the page organizer; otherwise it clears the
/// panels' errors and closes a dialog (a question is cancelled, a message dismissed).
pub open spec fn esc_action_spec(import_open: bool, picker_open: bool, batch_open: bool, organizer_open: bool, dialog: Option<DialogShown>) -> EscAction {
    if import_open {
        EscAction::CloseImport
    } else if picker_open {
        EscAction::ClosePicker
    } else if batch_open {
        EscAction::CloseBatch
    } else if organizer_open {
        EscAction::CloseOrganizer
    } else {
        match dialog {
            Some(DialogShown::UnsavedExit) | Some(DialogShown::UnsavedNew) => EscAction::CancelQuestion,
            Some(_) => EscAction::DismissDialog,
            None => EscAction::ClearErrors,
        }
    }
}

pub fn esc_action(import_open: bool, picker_open: bool, batch_open: bool, organizer_open: bool, dialog: Option<DialogShown>) -> (a: EscAction)
    ensures
        a == esc_action_spec(import_open, picker_open, batch_open, organizer_open, dialog),
{
    if import_open {
        EscAction::CloseImport
    } else if picker_open {
        EscAction::ClosePicker
    } else if batch_open {
        EscAction::CloseBatch
    } else if organizer_open {
        EscAction::CloseOrganizer
    } else {
        match dialog {
            Some(DialogShown::UnsavedExit) | Some(DialogShown::UnsavedNew) => EscAction::CancelQuestion,
            Some(_) => EscAction::DismissDialog,
            None => EscAction::ClearErrors,
        }
    }
}

}
