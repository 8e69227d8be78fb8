//! The status line: the one-line message under the columns, and the
//! indicator text a column's load state contributes (a loading note, a
//! failure reason). The bar holds plain text; drawing it is the terminal
//! layer's business.

use vstd::prelude::*;
use crate::listing::{Status, StatusView, LoadError, LoadErrorView};

verus! {

broadcast use vstd::string::to_string_from_display_ensures_for_str;

/// The content of the status line.
pub struct StatusBar {
    pub content: Option<String>,
}

impl StatusBar {
    /// An empty status line.
    pub fn new() -> (r: StatusBar)
        ensures
            r.content is None,
    {
        StatusBar { content: None }
    }

    /// Clear the status line.
    pub fn clear(&mut self)
        ensures
            final(self).content is None,
    {
        self.content = None;
    }
}

/// Put a message on the status line, replacing what was there.
pub fn show_status(bar: &mut StatusBar, status: &str)
    ensures
        final(bar).content matches Some(s) && s@ == status@,
{
    bar.content = Some(status.to_string());
}

/// One keypress inside the minibuffer prompt.
pub enum PromptKey {
    /// Finish the prompt and hand the line out.
    Accept,
    /// Abandon the prompt.
    Cancel,
    /// Delete the last character, if any.
    Erase,
    /// Append a character.
    Insert(char),
    /// Anything else: ignored.
    Other,
}

/// What the prompt does after a keypress.
pub enum PromptOutcome {
    /// Keep reading keys.
    Pending,
    /// The line was accepted.
    Accepted,
    /// The prompt was abandoned.
    Cancelled,
}

/// One editing step of the minibuffer: how a keypress changes the line
/// being typed, and whether the prompt is finished. The key reading and
/// echoing around it are the terminal layer's business.
pub fn minibuffer_step(buffer: &mut Vec<char>, key: PromptKey) -> (r: PromptOutcome)
    ensures
        match key {
            PromptKey::Accept => r is Accepted && final(buffer)@ == old(buffer)@,
            PromptKey::Cancel => r is Cancelled && final(buffer)@ == old(buffer)@,
            PromptKey::Erase => r is Pending && final(buffer)@ == (if old(buffer)@.len() == 0 {
                old(buffer)@
            } else {
                old(buffer)@.drop_last()
            }),
            PromptKey::Insert(c) => r is Pending && final(buffer)@ == old(buffer)@.push(c),
            PromptKey::Other => r is Pending && final(buffer)@ == old(buffer)@,
        },
{
    match key {
        PromptKey::Accept => PromptOutcome::Accepted,
        PromptKey::Cancel => PromptOutcome::Cancelled,
        PromptKey::Erase => {
            let _ = buffer.pop();
            PromptOutcome::Pending
        },
        PromptKey::Insert(c) => {
            buffer.push(c);
            PromptOutcome::Pending
        },
        PromptKey::Other => PromptOutcome::Pending,
    }
}

/// The indicator a column's load status contributes to the status line:
/// nothing for a Ready listing, a note while it loads or refreshes, and
/// the reason when its load failed.
pub fn status_indicator(status: &Status) -> (r: Option<&'static str>)
    ensures
        match status@ {
            StatusView::Ready => r is None,
            StatusView::Loading => r matches Some(s) && s@ == "loading"@,
            StatusView::Stale => r matches Some(s) && s@ == "refreshing"@,
            StatusView::Failed(e) => r matches Some(s) && s@ == match e {
                LoadErrorView::NotFound => "not found"@,
                LoadErrorView::PermissionDenied => "permission denied"@,
                LoadErrorView::NotADirectory => "not a directory"@,
                LoadErrorView::IoError(_) => "read error"@,
            },
        },
{
    match status {
        Status::Ready => None,
        Status::Loading => Some("loading"),
        Status::Stale => Some("refreshing"),
        Status::Failed(e) => match e {
            LoadError::NotFound => Some("not found"),
            LoadError::PermissionDenied => Some("permission denied"),
            LoadError::NotADirectory => Some("not a directory"),
            LoadError::IoError(_) => Some("read error"),
        },
    }
}

} // verus!
