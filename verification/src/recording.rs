//! The one recording there may be at a time, and the commands' way in to it.
//!
//! The audio streams of a recording cannot cross threads, so one long-lived
//! thread owns them and everything else talks to it over a channel. What that
//! thread answers is decided here.

use vstd::prelude::*;
use vstd::string::*;

use crate::audio::recorder;
use crate::audio::recorder::{Levels, MeetingRecorder, Recording};
use crate::audio::system::Prefer;
use crate::paths;
use crate::paths::{FilePath, PathView, Place, PlaceView};
use crate::places;
use crate::text;

verus! {

/// How long a meter poll waits for the recording thread, in milliseconds.
///
/// The meters tick ten times a second and are decoration; if the thread is busy
/// opening a backend, the honest answer is "no reading yet" and the next tick
/// will have one.
pub const LEVELS_TIMEOUT_MS: u64 = 50;

/// What the user is told where a recording is under way already.
pub const ALREADY_RECORDING: &'static str = "a recording is already running";

/// What the UI needs the moment recording actually starts.
#[derive(Debug, Clone, PartialEq, Eq)]
pub struct Started {
    pub stem: String,
    /// Which backend the meeting side ended up on, for the status line.
    pub system_description: Option<String>,
    /// Non-fatal problems: a side that could not be opened, most often the
    /// meeting one. Recording continues with whatever did open.
    pub warnings: Vec<String>,
}

/// One meter reading, polled by the frontend while recording.
#[derive(Debug, Clone, Copy, PartialEq, Eq, Structural)]
pub struct LiveLevels {
    pub mic: u32,
    pub system: u32,
    pub elapsed_ns: i64,
    /// False once the recording has stopped, so a late poll cannot leave the
    /// timer frozen at its last value.
    pub running: bool,
}

/// The reading where nothing is being recorded.
pub open spec fn no_levels() -> LiveLevels {
    LiveLevels { mic: 0, system: 0, elapsed_ns: 0, running: false }
}

impl Default for LiveLevels {
    fn default() -> (r: Self)
        ensures
            r == no_levels(),
    {
        LiveLevels { mic: 0, system: 0, elapsed_ns: 0, running: false }
    }
}

/// The one recording there may be at a time.
#[derive(Debug, Clone, PartialEq, Eq)]
pub struct RecordingHost {
    recorder: Option<MeetingRecorder>,
}

impl Default for RecordingHost {
    fn default() -> (r: Self)
        ensures
            r.current() is None,
    {
        RecordingHost { recorder: None }
    }
}

fn copy_all(v: &Vec<String>) -> (r: Vec<String>)
    ensures
        text::views(r@) == text::views(v@),
{
    let mut r: Vec<String> = Vec::new();
    for i in 0..v.len()
        invariant
            text::views(r@) == text::views(v@).take(i as int),
    {
        let ghost before = text::views(r@);
        r.push(v[i].clone());
        assert(text::views(r@) == before.push(v@[i as int]@));
        assert(text::views(r@) == text::views(v@).take(i + 1));
    }
    assert(text::views(v@).take(v@.len() as int) == text::views(v@));
    r
}

/// What the UI is told of a recording that has started.
pub open spec fn tells(started: Started, recorder: MeetingRecorder) -> bool {
    &&& started.stem@ == recorder.stem@
    &&& text::view_of(started.system_description) == (match recorder.backend {
        Some(backend) => Some(backend.words()),
        None => None,
    })
    &&& text::views(started.warnings@) == text::views(recorder.warnings@)
}

impl RecordingHost {
    /// The recording that is under way, if one is.
    pub closed spec fn current(self) -> Option<MeetingRecorder> {
        self.recorder
    }

    /// Whether a request to start is to be refused, and what is said then. Asked
    /// before anything is opened.
    pub fn refuse_start(&self) -> (r: Option<String>)
        ensures
            match r {
                Some(message) => self.current() is Some && message@ == ALREADY_RECORDING@,
                None => self.current() is None,
            },
    {
        match &self.recorder {
            Some(_) => Some(ALREADY_RECORDING.to_owned()),
            None => None,
        }
    }

    /// What came of opening a recording, and what the UI is told of it.
    pub fn started(&mut self, opened: Result<MeetingRecorder, String>) -> (r: Result<Started, String>)
        requires
            old(self).current() is None,
        ensures
            match opened {
                Ok(recorder) => final(self).current() == Some(recorder) && (r matches Ok(started)
                    && tells(started, recorder)),
                Err(message) => final(self).current() is None && r == Err::<Started, String>(
                    message,
                ),
            },
    {
        match opened {
            Ok(recorder) => {
                let system_description: Option<String> = match recorder.system_description() {
                    Some(words) => Some(words.to_owned()),
                    None => None,
                };
                let started = Started {
                    stem: recorder.stem.clone(),
                    system_description,
                    warnings: copy_all(&recorder.warnings),
                };
                self.recorder = Some(recorder);
                Ok(started)
            },
            Err(message) => Err(message),
        }
    }

    /// A meter reading, of the peaks of the tracks that there are and the time
    /// since the recording began.
    pub fn levels(&self, mic: Option<u32>, system: Option<u32>, elapsed_ns: i64) -> (r: LiveLevels)
        ensures
            self.current() is None ==> r == no_levels(),
            self.current() is Some ==> r == (LiveLevels {
                mic: match mic {
                    Some(l) => l,
                    None => 0,
                },
                system: match system {
                    Some(l) => l,
                    None => 0,
                },
                elapsed_ns,
                running: true,
            }),
    {
        match &self.recorder {
            Some(recorder) => {
                let levels: Levels = recorder.levels(mic, system);
                LiveLevels { mic: levels.mic, system: levels.system, elapsed_ns, running: true }
            },
            None => LiveLevels::default(),
        }
    }

    /// Stop the recording, with what [`MeetingRecorder::stop`] needs. `None` if
    /// nothing was running. Either way nothing is running afterwards.
    pub fn stop(
        &mut self,
        mic_frames: u64,
        system_frames: u64,
        mic_error: Option<String>,
        system_error: Option<String>,
    ) -> (r: Option<Recording>)
        ensures
            final(self).current() is None,
            match old(self).current() {
                Some(recorder) => {
                    &&& r is Some
                    &&& r->0.stem@ == recorder.stem@
                    &&& r->0.started_at_ns == recorder.started_at_ns
                    &&& r->0.duration_ns == recorder::longest(
                        mic_frames as int,
                        system_frames as int,
                    )
                    &&& recorder::path_view(r->0.mic_path) == (if mic_frames > 0 {
                        recorder::path_view(recorder.mic_path)
                    } else {
                        None
                    })
                    &&& recorder::path_view(r->0.system_path) == (if system_frames > 0 {
                        recorder::path_view(recorder.system_path)
                    } else {
                        None
                    })
                    &&& text::views(r->0.warnings@) == recorder::stop_warnings(
                        text::views(recorder.warnings@),
                        text::view_of(mic_error),
                        text::view_of(system_error),
                    )
                },
                None => r is None,
            },
    {
        match self.recorder.take() {
            Some(recorder) => Some(
                recorder.stop(mic_frames, system_frames, mic_error, system_error),
            ),
            None => None,
        }
    }
}

// ---------------------------------------------------------------------------
// Choices
// ---------------------------------------------------------------------------

/// Where recordings and their transcripts go, given the user's documents and
/// home directory, if there are such.
pub open spec fn recordings_place(documents: Option<PlaceView>, home: Option<PlaceView>) -> PathView {
    PathView {
        base: match (documents, home) {
            (Some(dir), _) => dir,
            (None, Some(dir)) => dir,
            (None, None) => PlaceView::named("."@),
        },
        parts: seq!["Transcriber"@, "recordings"@],
    }
}

/// Where recordings and their transcripts go, given the user's documents and
/// home directory, if there are such.
pub fn recordings_dir_under(documents: Option<Place>, home: Option<Place>) -> (r: FilePath)
    ensures
        r@ == recordings_place(paths::place_view(documents), paths::place_view(home)),
{
    let base: Place = match (documents, home) {
        (Some(dir), _) => dir,
        (None, Some(dir)) => dir,
        (None, None) => Place::named("."),
    };
    let r: FilePath = FilePath::in_place(base).join("Transcriber").join("recordings");
    assert(r@.parts == seq!["Transcriber"@, "recordings"@]);
    r
}

/// Where recordings and their transcripts go.
///
/// A bundled app cannot write next to itself, and a user should be able to find
/// a meeting they recorded without being told a path, so it lands somewhere they
/// already look.
pub fn recordings_dir() -> (r: FilePath)
    ensures
        exists|documents: Option<PlaceView>, home: Option<PlaceView>|
            paths::held_exactly(documents) && paths::held_exactly(home) && r@
                == #[trigger] recordings_place(documents, home),
{
    recordings_dir_under(places::document_dir(), places::home_dir())
}

/// The backend that a setting names. Whatever is not recognised is `Auto`.
pub open spec fn backend_named(value: Seq<char>) -> Prefer {
    if value == "screencapturekit"@ {
        Prefer::ScreenCaptureKit
    } else if value == "loopback"@ {
        Prefer::Loopback
    } else {
        Prefer::Auto
    }
}

/// Parse the system-audio backend the frontend asks for. Anything unrecognised
/// is `Auto`, which tries ScreenCaptureKit and falls back to a loopback device.
pub fn parse_backend(value: &str) -> (r: Prefer)
    ensures
        r == backend_named(value@),
{
    if text::same(value, "screencapturekit") {
        Prefer::ScreenCaptureKit
    } else if text::same(value, "loopback") {
        Prefer::Loopback
    } else {
        Prefer::Auto
    }
}

} // verus!
