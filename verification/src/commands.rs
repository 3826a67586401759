//! What the frontend's commands are answered.
//!
//! Every command is fire-and-forget: its arguments are validated here, the work
//! is handed on, and results arrive later as events.

use vstd::prelude::*;
use vstd::string::*;

use crate::audio::recorder::{RecorderOptions, Recording};
use crate::audio::system::Prefer;
use crate::chunking::checkpoint;
use crate::merge;
use crate::paths;
use crate::paths::{FilePath, PathView};
use crate::recording;
use crate::recording::parse_backend;
use crate::state::{AppState, Phase};
use crate::text;

verus! {

/// What is said where a file to delete is no transcript.
pub const NOT_A_TRANSCRIPT: &'static str = "refusing to delete a non-transcript file";

/// What is said where the app is not idle.
pub const BUSY: &'static str = "the app is busy; stop what is running first";

/// What is said where neither side is to be recorded.
pub const NOTHING_TO_RECORD: &'static str = "nothing to record — enable at least one side";

/// What is said where there is no recording to stop.
pub const NOT_RECORDING: &'static str = "no recording was running";

/// What is said where both sides were silent, or neither could be opened.
pub const NOTHING_RECORDED: &'static str = "Nothing was recorded.";

/// Whether a file is a transcript, by its name.
pub open spec fn is_transcript(name: Option<Seq<char>>) -> bool {
    match name {
        Some(n) => paths::extension_of(n) == Some("txt"@),
        None => false,
    }
}

/// Whether a saved transcript may be deleted: `.txt` files only, so the Files
/// tab's inline delete button can't be pointed at arbitrary paths.
pub fn delete_transcript(path: &FilePath) -> (r: Result<(), String>)
    ensures
        match r {
            Ok(()) => is_transcript(path@.name()),
            Err(message) => !is_transcript(path@.name()) && message@ == NOT_A_TRANSCRIPT@,
        },
{
    if let Some(name) = path.file_name() {
        if let Some(extension) = paths::extension(name.as_str()) {
            if text::same(extension.as_str(), "txt") {
                return Ok(());
            }
        }
    }
    Err(NOT_A_TRANSCRIPT.to_owned())
}

proof fn lemma_txt(front: Seq<char>)
    requires
        front.len() > 0,
    ensures
        is_transcript(Some(front + ".txt"@)),
{
    reveal_strlit(".txt");
    reveal_strlit("txt");
    let name = front + ".txt"@;
    paths::lemma_last_dot(name);
    assert(name[front.len() as int] == '.');
    assert(paths::last_dot(name) == front.len());
    assert(name.skip(front.len() as int + 1) == "txt"@);
}

/// Every transcript and every conversation that the app writes is one that may be
/// deleted again.
pub proof fn law_what_was_written_can_be_deleted(
    source: PathView,
    stamp: Seq<char>,
    dir: PathView,
    stem: Seq<char>,
)
    ensures
        is_transcript(checkpoint::transcript_place(source, stamp).name()),
        is_transcript(merge::conversation_place(dir, stem).name()),
{
    reveal_strlit("-");
    reveal_strlit(".");
    reveal_strlit("txt");
    reveal_strlit(".txt");
    reveal_strlit("-conversation");
    reveal_strlit("-conversation.txt");
    let front = stamp + "-"@ + source.stem();
    assert("."@ + "txt"@ == ".txt"@);
    assert(front + "."@ + "txt"@ == front + ".txt"@);
    lemma_txt(front);
    assert(stem + "-conversation.txt"@ == stem + "-conversation"@ + ".txt"@);
    lemma_txt(stem + "-conversation"@);
}

/// Begin recording a meeting: how, or why not.
///
/// The app counts as recording from here on, before the backends open: the
/// permission dialog can take seconds, and a second Record click in that window
/// must be refused rather than start a second recorder writing over the first
/// one's files.
pub fn start_recording(
    state: &mut AppState,
    record_mic: bool,
    record_system: bool,
    mic_device_id: Option<String>,
    backend: Option<&str>,
) -> (r: Result<RecorderOptions, String>)
    ensures
        match r {
            Ok(options) => {
                &&& old(state).phase == Phase::Idle
                &&& record_mic || record_system
                &&& *final(state) == (AppState { phase: Phase::Recording, ..*old(state) })
                &&& options.record_mic == record_mic
                &&& options.record_system == record_system
                &&& options.mic_device_id == mic_device_id
                &&& options.system_backend == (match backend {
                    Some(value) => recording::backend_named(value@),
                    None => Prefer::Auto,
                })
                &&& options.stem is None
            },
            Err(message) => {
                &&& *final(state) == *old(state)
                &&& old(state).phase != Phase::Idle || !(record_mic || record_system)
                &&& message@ == (if old(state).phase != Phase::Idle {
                    BUSY@
                } else {
                    NOTHING_TO_RECORD@
                })
            },
        },
{
    if state.phase() != Phase::Idle {
        return Err(BUSY.to_owned());
    }
    if !record_mic && !record_system {
        return Err(NOTHING_TO_RECORD.to_owned());
    }
    state.set_phase(Phase::Recording);
    let system_backend: Prefer = match backend {
        Some(value) => parse_backend(value),
        None => Prefer::default(),
    };
    Ok(RecorderOptions { record_mic, record_system, mic_device_id, system_backend, stem: None })
}

/// A recording could not be opened after all: the app is idle again.
pub fn recording_failed(state: &mut AppState)
    ensures
        *final(state) == (AppState { phase: Phase::Idle, ..*old(state) }),
{
    state.set_phase(Phase::Idle);
}

/// What follows when a recording is stopped.
#[derive(Debug, Clone, Copy, PartialEq, Eq, Structural)]
pub enum AfterStop {
    /// There was none: an error, [`NOT_RECORDING`].
    NotRunning,
    /// Report it; there is nothing to transcribe, which is said with
    /// [`NOTHING_RECORDED`], and its warnings say why.
    Empty,
    /// Report it, and transcribe both tracks and merge them.
    Transcribe,
}

/// What follows when a recording is stopped, of what stopping it gave. Unless
/// there is something to transcribe, the app is idle again.
pub fn stop_recording(state: &mut AppState, stopped: Option<&Recording>) -> (r: AfterStop)
    ensures
        r == (match stopped {
            None => AfterStop::NotRunning,
            Some(recording) => if recording.mic_path is None && recording.system_path is None {
                AfterStop::Empty
            } else {
                AfterStop::Transcribe
            },
        }),
        *final(state) == (if r == AfterStop::Transcribe {
            *old(state)
        } else {
            AppState { phase: Phase::Idle, ..*old(state) }
        }),
{
    let recording: &Recording = match stopped {
        Some(recording) => recording,
        None => {
            state.set_phase(Phase::Idle);
            return AfterStop::NotRunning;
        },
    };
    if recording.mic_path.is_none() && recording.system_path.is_none() {
        state.set_phase(Phase::Idle);
        return AfterStop::Empty;
    }
    AfterStop::Transcribe
}

} // verus!
