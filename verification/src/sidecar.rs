//! The line protocol of a helper process: one JSON value per line.
//!
//! What the helper prints is forwarded as it is, whatever it says; what it is
//! told is one line each. A JSON value is held as its text.

use vstd::prelude::*;
use vstd::string::*;

use crate::text;

verus! {

/// The channel every value that the helper prints is forwarded on.
pub const SIDECAR_EVENT: &'static str = "sidecar-event";

/// The word of the event that says that the helper is gone. It begins with an
/// underscore so that it reads as internal, not as one of the helper's own.
pub const EXITED_EVENT: &'static str = "_sidecar_exited";

/// The JSON value that a text holds, in its compact form, or why the text is no
/// JSON.
pub uninterp spec fn json_of(s: Seq<char>) -> Result<Seq<char>, Seq<char>>;

/// What a text or an error says.
pub open spec fn words_of(r: Result<String, String>) -> Result<Seq<char>, Seq<char>> {
    match r {
        Ok(s) => Ok(s@),
        Err(s) => Err(s@),
    }
}

/// `serde_json::from_str`, for any JSON value, and `Display` of the value or of
/// the error: the value in its compact form, or why the text is no JSON. Which of
/// them, and what it says, is only named; the compact form has no line feeds,
/// since it puts none between the parts of a value and those in its strings are
/// escaped.
#[verifier::external_body]
fn reprint(s: &str) -> (r: Result<String, String>)
    ensures
        words_of(r) == json_of(s@),
        r matches Ok(compact) ==> text::free_of(compact@, '\n'),
{
    match serde_json::from_str::<serde_json::Value>(s) {
        Ok(value) => Ok(value.to_string()),
        Err(error) => Err(error.to_string()),
    }
}

/// What becomes of a line that the helper printed.
#[derive(Debug, Clone, PartialEq, Eq)]
pub enum SidecarLine {
    /// It is blank, and skipped.
    Skip,
    /// It is a value, which is forwarded.
    Event(String),
    /// It is neither; this goes to the log.
    Bad(String),
}

/// What becomes of a line that the helper printed.
#[verifier::ext_equal]
pub enum SidecarView {
    Skip,
    Event(Seq<char>),
    Bad(Seq<char>),
}

impl View for SidecarLine {
    type V = SidecarView;

    open spec fn view(&self) -> SidecarView {
        match self {
            SidecarLine::Skip => SidecarView::Skip,
            SidecarLine::Event(value) => SidecarView::Event(value@),
            SidecarLine::Bad(message) => SidecarView::Bad(message@),
        }
    }
}

/// What the log says of a line that is no JSON.
pub open spec fn bad_line_text(error: Seq<char>, line: Seq<char>) -> Seq<char> {
    "sidecar: bad JSON line ("@ + error + "): "@ + line
}

/// What becomes of a line that the helper printed, of what reading it as JSON
/// gave.
pub open spec fn line_becomes(line: Seq<char>, json: Result<Seq<char>, Seq<char>>) -> SidecarView {
    if text::blank(line) {
        SidecarView::Skip
    } else {
        match json {
            Ok(value) => SidecarView::Event(value),
            Err(error) => SidecarView::Bad(bad_line_text(error, line)),
        }
    }
}

/// What becomes of a line that the helper printed, of what reading it as JSON
/// gave.
pub fn sort_line(line: &str, json: Result<String, String>) -> (r: SidecarLine)
    ensures
        r@ == line_becomes(line@, words_of(json)),
{
    if text::is_blank(line) {
        return SidecarLine::Skip;
    }
    match json {
        Ok(value) => SidecarLine::Event(value),
        Err(error) => {
            let mut message: String = "sidecar: bad JSON line (".to_owned();
            message.append(error.as_str());
            message.append("): ");
            message.append(line);
            SidecarLine::Bad(message)
        },
    }
}

/// What becomes of a line that the helper printed.
pub fn read_line(line: &str) -> (r: SidecarLine)
    ensures
        r@ == line_becomes(line@, json_of(line@)),
{
    sort_line(line, reprint(line))
}

/// The line that tells the helper a value, or why it is no value.
pub fn send_line(message: &str) -> (r: Result<String, String>)
    ensures
        match r {
            Ok(line) => json_of(message@) == Ok::<Seq<char>, Seq<char>>(line@.drop_last())
                && line@.len() > 0 && line@.last() == '\n' && text::free_of(line@.drop_last(), '\n'),
            Err(error) => json_of(message@) == Err::<Seq<char>, Seq<char>>(error@),
        },
{
    match reprint(message) {
        Ok(mut line) => {
            let ghost said = line@;
            line.push('\n');
            assert(line@.drop_last() == said);
            Ok(line)
        },
        Err(error) => Err(error),
    }
}

} // verus!
