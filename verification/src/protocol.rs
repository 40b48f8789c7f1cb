//! Events the sidecar reports to its host, and the decisions that produce them.
use crate::text::{is_ascii_graphic, lemma_trim_keeps_graphic_ends, trim, trimmed};
use vstd::prelude::*;

verus! {

/// A message to the host process.
#[derive(Clone, Debug, PartialEq, Eq)]
pub enum Event {
    /// The sidecar is up and listening for commands.
    Ready,
    /// A recognized phrase.
    Phrase { text: String },
    /// Something went wrong.
    Error { msg: String },
}

/// `context`, a colon and a space, then `detail`.
pub open spec fn error_text(context: Seq<char>, detail: Seq<char>) -> Seq<char> {
    context + ": "@ + detail
}

/// An error event whose message is `context: detail`.
pub fn error_event(context: &str, detail: &str) -> (e: Event)
    ensures
        e matches Event::Error { msg } && msg@ == error_text(context@, detail@),
{
    let sep = ": ";
    let msg = String::from_str(context).concat(sep).concat(detail);
    Event::Error { msg }
}

/// What the host is told about one transcription: a phrase with the
/// trimmed text when that text is not empty, nothing when it is, and an
/// error when the transcriber failed.
pub fn transcription_event(result: Result<String, String>) -> (e: Option<Event>)
    ensures
        match result {
            Ok(text) => if trimmed(text@).len() == 0 {
                e is None
            } else {
                e matches Some(Event::Phrase { text: t }) && t@ == trimmed(text@)
            },
            Err(err) => e matches Some(Event::Error { msg }) && msg@ == error_text(
                "transcribe"@,
                err@,
            ),
        },
        match result {
            Ok(text) => text@.len() > 0 && is_ascii_graphic(text@.last()) ==> (e matches Some(
                Event::Phrase { text: t },
            ) && t@.len() > 0 && t@.last() == text@.last()),
            Err(_) => true,
        },
{
    proof {
        match &result {
            Ok(text) => lemma_trim_keeps_graphic_ends(text@),
            Err(_) => {},
        }
    }
    match result {
        Ok(text) => {
            let t = trim(text.as_str());
            if t.unicode_len() == 0 {
                None
            } else {
                Some(Event::Phrase { text: String::from_str(t) })
            }
        },
        Err(err) => Some(error_event("transcribe", err.as_str())),
    }
}

/// The payload of one line of host input: the trimmed line, or nothing
/// when the line is blank.
pub fn command_text(line: &str) -> (t: Option<&str>)
    ensures
        match t {
            Some(s) => s@ == trimmed(line@) && s@.len() > 0,
            None => trimmed(line@).len() == 0,
        },
{
    let s = trim(line);
    if s.unicode_len() == 0 {
        None
    } else {
        Some(s)
    }
}

} // verus!
