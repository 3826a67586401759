//! Recording both sides of a meeting to two time-aligned WAV files.
//!
//! Either side may be absent (no microphone selected, or no way to reach the
//! system mix on this machine) and the recording still runs with what it has.
//! Whatever is missing is reported in [`Recording::warnings`] rather than failing
//! the whole take, **because a meeting is not repeatable and half a recording
//! beats none**. That is the single most important rule in this file.

use vstd::prelude::*;
use vstd::string::*;

use crate::audio::system::{Prefer, SystemBackend};
use crate::chunking::checkpoint;
use crate::paths::{FilePath, PathView};
use crate::text;
use crate::NANOS_PER_SAMPLE;

verus! {

/// One of the two sides of a meeting.
#[derive(Debug, Clone, Copy, PartialEq, Eq, Structural)]
pub enum Side {
    Mic,
    System,
}

/// What a finished recording left on disk.
#[derive(Debug, Clone, PartialEq, Eq)]
pub struct Recording {
    pub stem: String,
    pub mic_path: Option<FilePath>,
    pub system_path: Option<FilePath>,
    pub duration_ns: i64,
    /// Since 1970, for the merged transcript's header.
    pub started_at_ns: i64,
    pub warnings: Vec<String>,
}

/// What an optional path is made of.
pub open spec fn path_view(path: Option<FilePath>) -> Option<PathView> {
    match path {
        Some(p) => Some(p@),
        None => None,
    }
}

/// The paths that are there, in order.
pub open spec fn present(a: Option<PathView>, b: Option<PathView>) -> Seq<PathView> {
    (match a {
        Some(p) => seq![p],
        None => Seq::empty(),
    }) + (match b {
        Some(p) => seq![p],
        None => Seq::empty(),
    })
}

/// What a sequence of paths is made of.
pub open spec fn path_views(v: Seq<FilePath>) -> Seq<PathView> {
    Seq::new(v.len(), |i: int| v[i]@)
}

impl Recording {
    /// The tracks that captured audio, the microphone's first.
    pub fn paths(&self) -> (r: Vec<FilePath>)
        ensures
            path_views(r@) == present(path_view(self.mic_path), path_view(self.system_path)),
    {
        let mut r: Vec<FilePath> = Vec::new();
        if let Some(path) = &self.mic_path {
            r.push(path.duplicate());
        }
        if let Some(path) = &self.system_path {
            r.push(path.duplicate());
        }
        assert(path_views(r@) == present(path_view(self.mic_path), path_view(self.system_path)));
        r
    }
}

/// Meter reading for the UI, a level per side. Levels are numbers that order as
/// loudness does, zero being silence.
#[derive(Debug, Clone, Copy, PartialEq, Eq, Structural)]
pub struct Levels {
    pub mic: u32,
    pub system: u32,
}

/// The peak of a side, and silence where there is no such side.
pub fn peak(level: Option<u32>) -> (r: u32)
    ensures
        r == (match level {
            Some(l) => l,
            None => 0,
        }),
{
    match level {
        Some(l) => l,
        None => 0,
    }
}

/// How a recording should be set up.
#[derive(Debug, Clone, PartialEq, Eq)]
pub struct RecorderOptions {
    pub record_mic: bool,
    pub record_system: bool,
    pub mic_device_id: Option<String>,
    pub system_backend: Prefer,
    /// The name to record under; the usual one is `meeting-YYYYmmdd-HHMMSS`.
    pub stem: Option<String>,
}

impl Default for RecorderOptions {
    fn default() -> (r: Self)
        ensures
            r.record_mic,
            r.record_system,
            r.mic_device_id is None,
            r.system_backend == Prefer::Auto,
            r.stem is None,
    {
        RecorderOptions {
            record_mic: true,
            record_system: true,
            mic_device_id: None,
            system_backend: Prefer::Auto,
            stem: None,
        }
    }
}

/// The usual name to record under, of when the recording began.
pub fn stem_at(stamp: &str) -> (r: String)
    ensures
        r@ == "meeting-"@ + stamp@,
{
    let mut r: String = "meeting-".to_owned();
    r.append(stamp);
    r
}

/// The name to record under: the one asked for, or the usual one, which tells
/// when the recording began.
pub fn recording_stem(asked: Option<String>) -> (r: String)
    ensures
        match asked {
            Some(stem) => r@ == stem@,
            None => exists|stamp: Seq<char>|
                checkpoint::is_stamp(stamp) && r@ == #[trigger] ("meeting-"@ + stamp),
        },
{
    match asked {
        Some(stem) => stem,
        None => stem_at(checkpoint::stamp_now().as_str()),
    }
}

/// The file of a track.
pub open spec fn track_name(stem: Seq<char>, side: Side) -> Seq<char> {
    match side {
        Side::Mic => stem + "-me.wav"@,
        Side::System => stem + "-meeting.wav"@,
    }
}

/// The file of a track. The merge and the UI both key off these names.
pub fn track_file(stem: &str, side: Side) -> (r: String)
    ensures
        r@ == track_name(stem@, side),
{
    let mut r: String = stem.to_owned();
    match side {
        Side::Mic => r.append("-me.wav"),
        Side::System => r.append("-meeting.wav"),
    }
    r
}

/// Where a track is written.
pub fn track_path(out_dir: &FilePath, stem: &str, side: Side) -> (r: FilePath)
    ensures
        r@ == out_dir@.joined(track_name(stem@, side)),
{
    out_dir.join(track_file(stem, side).as_str())
}

/// The two sides of one recording never write to the same file.
pub proof fn law_tracks_are_apart(stem: Seq<char>)
    ensures
        track_name(stem, Side::Mic) != track_name(stem, Side::System),
{
    reveal_strlit("-me.wav");
    reveal_strlit("-meeting.wav");
    assert(track_name(stem, Side::Mic).len() != track_name(stem, Side::System).len());
}

// ---------------------------------------------------------------------------
// Starting
// ---------------------------------------------------------------------------

/// What came of opening one side.
#[derive(Debug, Clone, PartialEq, Eq)]
pub enum Opened {
    /// It was not to be recorded.
    NotWanted,
    /// It is being recorded.
    Running,
    /// Its file cannot be written, and why.
    NoFile(String),
    /// Nothing can be captured, and why, if there is anything to say. The file is
    /// to be removed again.
    NoCapture(Option<String>),
}

/// What the user is told of a side that could not be opened.
pub open spec fn side_warning(side: Side, opened: Opened) -> Option<Seq<char>> {
    match (side, opened) {
        (_, Opened::NotWanted) => None,
        (_, Opened::Running) => None,
        (Side::Mic, Opened::NoFile(error)) => Some("Cannot write the microphone track: "@ + error@),
        (Side::System, Opened::NoFile(error)) => Some("Cannot write the meeting track: "@ + error@),
        (Side::Mic, Opened::NoCapture(error)) => Some(
            "Microphone unavailable: "@ + match error {
                Some(e) => e@,
                None => Seq::empty(),
            },
        ),
        (Side::System, Opened::NoCapture(error)) => Some(
            match error {
                Some(e) => e@,
                None => "system audio is unavailable"@,
            },
        ),
    }
}

/// What the user is told of both sides, the microphone first.
pub open spec fn start_warnings(mic: Opened, system: Opened) -> Seq<Seq<char>> {
    (match side_warning(Side::Mic, mic) {
        Some(w) => seq![w],
        None => Seq::empty(),
    }) + (match side_warning(Side::System, system) {
        Some(w) => seq![w],
        None => Seq::empty(),
    })
}

/// What the user is told where neither side could be opened.
pub open spec fn nothing_text(warnings: Seq<Seq<char>>) -> Seq<char> {
    if warnings.len() == 0 {
        "Nothing could be recorded."@
    } else {
        "Nothing could be recorded."@ + " "@ + text::joined(warnings, " "@)
    }
}

fn warn(warnings: &mut Vec<String>, side: Side, opened: &Opened)
    ensures
        text::views(final(warnings)@) == text::views(old(warnings)@) + (match side_warning(
            side,
            *opened,
        ) {
            Some(w) => seq![w],
            None => Seq::empty(),
        }),
{
    let ghost before = text::views(warnings@);
    let said: String = match opened {
        Opened::NotWanted | Opened::Running => {
            assert(before + Seq::<Seq<char>>::empty() == before);
            return;
        },
        Opened::NoFile(error) => {
            let mut said: String = match side {
                Side::Mic => "Cannot write the microphone track: ".to_owned(),
                Side::System => "Cannot write the meeting track: ".to_owned(),
            };
            said.append(error.as_str());
            said
        },
        Opened::NoCapture(error) => match side {
            Side::Mic => {
                let mut said: String = "Microphone unavailable: ".to_owned();
                if let Some(e) = error {
                    said.append(e.as_str());
                } else {
                    assert(said@ + Seq::<char>::empty() == said@);
                }
                said
            },
            Side::System => match error {
                Some(e) => e.clone(),
                None => "system audio is unavailable".to_owned(),
            },
        },
    };
    let ghost words = said@;
    warnings.push(said);
    assert(text::views(warnings@) == before.push(words));
    assert(before + seq![words] == before.push(words));
}

/// A recording that is under way.
#[derive(Debug, Clone, PartialEq, Eq)]
pub struct MeetingRecorder {
    pub stem: String,
    pub out_dir: FilePath,
    pub started_at_ns: i64,
    pub mic_path: Option<FilePath>,
    pub system_path: Option<FilePath>,
    /// Which backend the meeting side is captured with, where it is.
    pub backend: Option<SystemBackend>,
    pub warnings: Vec<String>,
}

/// Where a side is written, where it is being recorded.
pub open spec fn running_path(
    out_dir: PathView,
    stem: Seq<char>,
    side: Side,
    opened: Opened,
) -> Option<PathView> {
    if opened is Running {
        Some(out_dir.joined(track_name(stem, side)))
    } else {
        None
    }
}

impl MeetingRecorder {
    /// Start recording with what could be opened of both sides; `backend` is what
    /// the meeting side was opened with.
    ///
    /// Fails only when *neither* side could be opened; anything less becomes a
    /// warning carried on the finished [`Recording`].
    pub fn start(
        out_dir: &FilePath,
        stem: String,
        mic: &Opened,
        system: &Opened,
        backend: SystemBackend,
        started_at_ns: i64,
    ) -> (r: Result<Self, String>)
        ensures
            match r {
                Ok(recorder) => {
                    &&& *mic is Running || *system is Running
                    &&& recorder.stem@ == stem@
                    &&& recorder.out_dir@ == out_dir@
                    &&& recorder.started_at_ns == started_at_ns
                    &&& path_view(recorder.mic_path) == running_path(
                        out_dir@,
                        stem@,
                        Side::Mic,
                        *mic,
                    )
                    &&& path_view(recorder.system_path) == running_path(
                        out_dir@,
                        stem@,
                        Side::System,
                        *system,
                    )
                    &&& recorder.backend == (if *system is Running {
                        Some(backend)
                    } else {
                        None
                    })
                    &&& text::views(recorder.warnings@) == start_warnings(*mic, *system)
                },
                Err(message) => {
                    &&& !(*mic is Running)
                    &&& !(*system is Running)
                    &&& message@ == nothing_text(start_warnings(*mic, *system))
                },
            },
    {
        let mut warnings: Vec<String> = Vec::new();
        warn(&mut warnings, Side::Mic, mic);
        warn(&mut warnings, Side::System, system);
        assert(text::views(warnings@) == start_warnings(*mic, *system));
        let mic_running: bool = matches!(mic, Opened::Running);
        let system_running: bool = matches!(system, Opened::Running);
        if !mic_running && !system_running {
            let mut message: String = "Nothing could be recorded.".to_owned();
            if warnings.len() > 0 {
                message.append(" ");
                message.append(text::join(&warnings, " ").as_str());
            }
            return Err(message);
        }
        let mic_path: Option<FilePath> = if mic_running {
            Some(track_path(out_dir, stem.as_str(), Side::Mic))
        } else {
            None
        };
        let system_path: Option<FilePath> = if system_running {
            Some(track_path(out_dir, stem.as_str(), Side::System))
        } else {
            None
        };
        Ok(
            MeetingRecorder {
                stem,
                out_dir: out_dir.duplicate(),
                started_at_ns,
                mic_path,
                system_path,
                backend: if system_running {
                    Some(backend)
                } else {
                    None
                },
                warnings,
            },
        )
    }

    /// Where the tracks are written.
    pub fn out_dir(&self) -> (r: &FilePath)
        ensures
            *r == self.out_dir,
    {
        &self.out_dir
    }

    /// What the UI says of where the meeting side comes from.
    pub fn system_description(&self) -> (r: Option<&'static str>)
        ensures
            match self.backend {
                Some(backend) => r matches Some(words) && words@ == backend.words(),
                None => r is None,
            },
    {
        match self.backend {
            Some(backend) => Some(backend.description()),
            None => None,
        }
    }

    /// Peak level per side since the last reading.
    pub fn levels(&self, mic: Option<u32>, system: Option<u32>) -> (r: Levels)
        ensures
            r.mic == (match mic {
                Some(l) => l,
                None => 0,
            }),
            r.system == (match system {
                Some(l) => l,
                None => 0,
            }),
    {
        Levels { mic: peak(mic), system: peak(system) }
    }

    /// Stop, with the frames that each track has in the end (none for a track
    /// that there is not), and what the backend of each side complained of.
    ///
    /// A side that captured nothing at all is not a track; keeping a zero-length
    /// WAV would make the merge report an empty speaker.
    pub fn stop(
        self,
        mic_frames: u64,
        system_frames: u64,
        mic_error: Option<String>,
        system_error: Option<String>,
    ) -> (r: Recording)
        ensures
            r.stem@ == self.stem@,
            r.started_at_ns == self.started_at_ns,
            r.duration_ns == longest(mic_frames as int, system_frames as int),
            path_view(r.mic_path) == (if mic_frames > 0 {
                path_view(self.mic_path)
            } else {
                None
            }),
            path_view(r.system_path) == (if system_frames > 0 {
                path_view(self.system_path)
            } else {
                None
            }),
            text::views(r.warnings@) == stop_warnings(
                text::views(self.warnings@),
                text::view_of(mic_error),
                text::view_of(system_error),
            ),
    {
        let mut warnings: Vec<String> = self.warnings;
        complain(&mut warnings, Side::Mic, &mic_error);
        complain(&mut warnings, Side::System, &system_error);
        let frames: u64 = if mic_frames > system_frames {
            mic_frames
        } else {
            system_frames
        };
        let ns: i128 = frames as i128 * NANOS_PER_SAMPLE as i128;
        let duration_ns: i64 = if ns <= i64::MAX as i128 {
            ns as i64
        } else {
            i64::MAX
        };
        Recording {
            stem: self.stem,
            mic_path: if mic_frames > 0 {
                self.mic_path
            } else {
                None
            },
            system_path: if system_frames > 0 {
                self.system_path
            } else {
                None
            },
            duration_ns,
            started_at_ns: self.started_at_ns,
            warnings,
        }
    }
}

/// How the user is told what a side's backend complained of.
pub open spec fn complaint(side: Side, error: Seq<char>) -> Seq<char> {
    match side {
        Side::Mic => "Microphone track: "@ + error,
        Side::System => "Meeting track: "@ + error,
    }
}

/// The warnings and, where a side's backend complained of something, that.
pub open spec fn with_complaint(before: Seq<Seq<char>>, side: Side, error: Option<Seq<char>>) -> Seq<
    Seq<char>,
> {
    match error {
        Some(e) => before.push(complaint(side, e)),
        None => before,
    }
}

/// The warnings of a finished recording: those it started with, then what the
/// backend of each side complained of along the way, the microphone's first.
pub open spec fn stop_warnings(
    before: Seq<Seq<char>>,
    mic_error: Option<Seq<char>>,
    system_error: Option<Seq<char>>,
) -> Seq<Seq<char>> {
    with_complaint(with_complaint(before, Side::Mic, mic_error), Side::System, system_error)
}

fn complain(warnings: &mut Vec<String>, side: Side, error: &Option<String>)
    ensures
        text::views(final(warnings)@) == with_complaint(
            text::views(old(warnings)@),
            side,
            text::view_of(*error),
        ),
{
    if let Some(e) = error {
        let ghost before = text::views(warnings@);
        let mut said: String = match side {
            Side::Mic => "Microphone track: ".to_owned(),
            Side::System => "Meeting track: ".to_owned(),
        };
        said.append(e.as_str());
        let ghost words = said@;
        warnings.push(said);
        assert(text::views(warnings@) == before.push(words));
    }
}

/// Nothing that was noticed is lost: every warning that a recording started with
/// is on the finished one, and so is what the backend of either side complained
/// of.
pub proof fn law_complaints_are_reported(
    before: Seq<Seq<char>>,
    mic_error: Option<Seq<char>>,
    system_error: Option<Seq<char>>,
)
    ensures
        before.len() <= stop_warnings(before, mic_error, system_error).len(),
        stop_warnings(before, mic_error, system_error).take(before.len() as int) == before,
        mic_error matches Some(e) ==> stop_warnings(before, mic_error, system_error).contains(
            complaint(Side::Mic, e),
        ),
        system_error matches Some(e) ==> stop_warnings(before, mic_error, system_error).contains(
            complaint(Side::System, e),
        ),
{
    let after = stop_warnings(before, mic_error, system_error);
    assert(after.take(before.len() as int) == before);
    if let Some(e) = mic_error {
        assert(after[before.len() as int] == complaint(Side::Mic, e));
    }
    if let Some(e) = system_error {
        assert(after[after.len() - 1] == complaint(Side::System, e));
    }
}

/// How long the longer of two tracks is, in nanoseconds, as far as those can be
/// counted.
pub open spec fn longest(mic_frames: int, system_frames: int) -> int {
    let frames = if mic_frames > system_frames {
        mic_frames
    } else {
        system_frames
    };
    if frames * NANOS_PER_SAMPLE <= i64::MAX {
        frames * NANOS_PER_SAMPLE
    } else {
        i64::MAX as int
    }
}

/// Half a recording beats none: a side that was wanted and could not be opened is
/// spoken of, whether the recording runs without it or not.
pub proof fn law_missing_side_is_reported(mic: Opened, system: Opened)
    ensures
        mic is NoFile || mic is NoCapture ==> start_warnings(mic, system).len() > 0
            && side_warning(Side::Mic, mic) == Some(start_warnings(mic, system)[0]),
        system is NoFile || system is NoCapture ==> start_warnings(mic, system).len() > 0
            && side_warning(Side::System, system) == Some(start_warnings(mic, system).last()),
        (mic is NotWanted || mic is Running) && (system is NotWanted || system is Running)
            ==> start_warnings(mic, system).len() == 0,
{
}

/// A recording is as long as the longer of its tracks, 62500 nanoseconds a frame.
pub proof fn law_a_recording_is_as_long_as_its_longer_track(mic_frames: int, system_frames: int)
    requires
        mic_frames * 62_500 <= i64::MAX,
        system_frames * 62_500 <= i64::MAX,
    ensures
        longest(mic_frames, system_frames) >= mic_frames * 62_500,
        longest(mic_frames, system_frames) >= system_frames * 62_500,
        longest(mic_frames, system_frames) == mic_frames * 62_500 || longest(
            mic_frames,
            system_frames,
        ) == system_frames * 62_500,
{
}

} // verus!
