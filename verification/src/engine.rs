//! The job runner behind the commands.
//!
//! The frontend gets one event per state change. What there is to run, in which
//! order, what is refused and what is reported is decided here; the work itself
//! (decoding, downloading, reading and writing) is done by whoever drives it.

use vstd::prelude::*;
use vstd::string::*;

use crate::audio::recorder::{path_view, Recording, Side};
use crate::chunking;
use crate::chunking::checkpoint;
use crate::chunking::checkpoint::Moment;
use crate::chunking::{Progress, TranscribeError};
use crate::commands::BUSY;
use crate::merge;
use crate::merge::{MIC_LABEL, SYSTEM_LABEL};
use crate::paths;
use crate::paths::{FilePath, PathView, PlaceView};
use crate::picking;
use crate::recording::{recordings_dir, recordings_place};
use crate::state::{AppState, CancelFlag, LanguageMode, Phase};
use crate::text;
use crate::transcribe;
use crate::transcribe::hallucination;
use crate::transcribe::models;
use crate::transcribe::models::{DownloadError, Transfer};
use crate::transcribe::segment;
use crate::transcribe::segment::TranscriptSegment;
use crate::transcribe::MODEL_OPTIONS;

verus! {

/// The one channel every state change reaches the frontend on.
pub const ENGINE_EVENT: &'static str = "engine-event";

/// Extensions the import path accepts. A directory dropped on the window yields
/// whatever the OS lists; anything not in here is silently skipped rather than
/// handed to ffmpeg to fail on.
pub const AUDIO_EXTS: [&'static str; 9] = [
    "mp3",
    "wav",
    "m4a",
    "aac",
    "flac",
    "ogg",
    "opus",
    "wma",
    "mp4",
];

/// How a download ended.
#[derive(Debug, Clone, PartialEq, Eq)]
pub enum DownloadStatus {
    Done,
    Cancelled,
    Error(String),
}

/// A selectable checkpoint, and what is on disk of it.
#[derive(Debug, Clone, PartialEq, Eq)]
pub struct ModelRow {
    pub name: String,
    pub downloaded: bool,
    pub size_bytes: u64,
}

/// What the frontend is told.
#[derive(Debug, Clone, PartialEq, Eq)]
pub enum EngineEvent {
    Models { models: Vec<ModelRow> },
    DownloadProgress { model: String, downloaded: u64, total: u64 },
    DownloadFinished { name: String, status: DownloadStatus },
    ModelDeleted { name: String },
    Status { message: String },
    FileStart { name: String },
    ChunkBaseline { resume_at_ns: i64 },
    ChunkProgress { label: String, progress: Progress },
    SegmentText { text: String },
    ChunkText { text: String },
    MergedText { path: String, text: String },
    BatchDone { id: String, saved: Vec<String>, cancelled: bool, elapsed_ns: i64 },
    Error { file: Option<String>, message: String },
}

impl EngineEvent {
    /// The word that the frontend tells events apart by.
    pub open spec fn word(self) -> Seq<char> {
        match self {
            EngineEvent::Models { .. } => "models"@,
            EngineEvent::DownloadProgress { .. } => "mm_progress"@,
            EngineEvent::DownloadFinished { .. } => "mm_download_finished"@,
            EngineEvent::ModelDeleted { .. } => "model_deleted"@,
            EngineEvent::Status { .. } => "status"@,
            EngineEvent::FileStart { .. } => "file_start"@,
            EngineEvent::ChunkBaseline { .. } => "chunk_baseline"@,
            EngineEvent::ChunkProgress { .. } => "chunk_progress"@,
            EngineEvent::SegmentText { .. } => "segment_text"@,
            EngineEvent::ChunkText { .. } => "chunk_text"@,
            EngineEvent::MergedText { .. } => "merged_text"@,
            EngineEvent::BatchDone { .. } => "batch_done"@,
            EngineEvent::Error { .. } => "error"@,
        }
    }

    /// The word that the frontend tells events apart by.
    pub fn name(&self) -> (r: &'static str)
        ensures
            r@ == self.word(),
    {
        match self {
            EngineEvent::Models { .. } => "models",
            EngineEvent::DownloadProgress { .. } => "mm_progress",
            EngineEvent::DownloadFinished { .. } => "mm_download_finished",
            EngineEvent::ModelDeleted { .. } => "model_deleted",
            EngineEvent::Status { .. } => "status",
            EngineEvent::FileStart { .. } => "file_start",
            EngineEvent::ChunkBaseline { .. } => "chunk_baseline",
            EngineEvent::ChunkProgress { .. } => "chunk_progress",
            EngineEvent::SegmentText { .. } => "segment_text",
            EngineEvent::ChunkText { .. } => "chunk_text",
            EngineEvent::MergedText { .. } => "merged_text",
            EngineEvent::BatchDone { .. } => "batch_done",
            EngineEvent::Error { .. } => "error",
        }
    }

    /// Whether this is an error that says `message`, of no file in particular.
    pub open spec fn is_error(self, message: Seq<char>) -> bool {
        self matches EngineEvent::Error { file: None, message: m } && m@ == message
    }

    /// Whether this is an error with the file `file` that says `message`.
    pub open spec fn is_file_error(self, file: Seq<char>, message: Seq<char>) -> bool {
        self matches EngineEvent::Error { file: Some(f), message: m } && f@ == file && m@ == message
    }

    /// Whether this is a status line that says `message`.
    pub open spec fn is_status(self, message: Seq<char>) -> bool {
        self matches EngineEvent::Status { message: m } && m@ == message
    }
}

// ---------------------------------------------------------------------------
// Which files
// ---------------------------------------------------------------------------

/// Whether a file's name has one of the extensions accepted, whatever the case of
/// its letters.
pub open spec fn audio_name(name: Option<Seq<char>>) -> bool {
    match name {
        Some(n) => match paths::extension_of(n) {
            Some(extension) => exists|i: int|
                0 <= i < AUDIO_EXTS@.len() && text::smalls(extension)
                    == #[trigger] AUDIO_EXTS@[i]@,
            None => false,
        },
        None => false,
    }
}

/// Whether a file is one the import path accepts.
pub fn is_audio(path: &FilePath) -> (r: bool)
    ensures
        r == audio_name(path@.name()),
{
    let name: String = match path.file_name() {
        Some(name) => name,
        None => return false,
    };
    let extension: String = match paths::extension(name.as_str()) {
        Some(extension) => text::ascii_lowercase(extension.as_str()),
        None => return false,
    };
    let ghost own = paths::extension_of(name@)->0;
    let mut i: usize = 0;
    while i < 9
        invariant
            i <= 9,
            AUDIO_EXTS@.len() == 9,
            path@.name() == Some(name@),
            paths::extension_of(name@) == Some(own),
            extension@ == text::smalls(own),
            forall|j: int| 0 <= j < i ==> extension@ != #[trigger] AUDIO_EXTS@[j]@,
        decreases 9 - i,
    {
        if text::same(extension.as_str(), AUDIO_EXTS[i]) {
            assert(text::smalls(own) == AUDIO_EXTS@[i as int]@);
            return true;
        }
        i += 1;
    }
    false
}

/// What a sequence of paths is made of.
pub open spec fn source_views(v: Seq<FilePath>) -> Seq<PathView> {
    Seq::new(v.len(), |i: int| v[i]@)
}

/// The paths that are files (`is_file`) the import path accepts.
pub open spec fn importable(paths: Seq<PathView>, is_file: Seq<bool>) -> Seq<PathView>
    decreases paths.len(),
{
    if paths.len() == 0 {
        Seq::empty()
    } else {
        let before = importable(paths.drop_last(), is_file);
        if is_file[paths.len() - 1] && audio_name(paths.last().name()) {
            before.push(paths.last())
        } else {
            before
        }
    }
}

/// The files of a batch: what the user handed over, without what is no file or
/// none the import path accepts.
pub fn select_sources(paths: &Vec<FilePath>, is_file: &Vec<bool>) -> (r: Vec<FilePath>)
    requires
        is_file@.len() == paths@.len(),
    ensures
        source_views(r@) == importable(source_views(paths@), is_file@),
{
    let ghost all = source_views(paths@);
    let mut r: Vec<FilePath> = Vec::new();
    assert(source_views(r@) == importable(all.take(0), is_file@));
    for i in 0..paths.len()
        invariant
            is_file@.len() == paths@.len(),
            all == source_views(paths@),
            source_views(r@) == importable(all.take(i as int), is_file@),
    {
        assert(all.take(i + 1).drop_last() == all.take(i as int));
        assert(all.take(i + 1).last() == paths@[i as int]@);
        let ghost before = source_views(r@);
        if is_file[i] && is_audio(&paths[i]) {
            r.push(paths[i].duplicate());
            assert(source_views(r@) == before.push(paths@[i as int]@));
        }
    }
    assert(all.take(all.len() as int) == all);
    r
}

// ---------------------------------------------------------------------------
// The host
// ---------------------------------------------------------------------------

/// Something under way that can be cancelled, by its name.
#[derive(Debug, PartialEq, Eq)]
struct Running {
    name: String,
    cancel: CancelFlag,
}

/// Something under way, and whether it has been cancelled.
#[verifier::ext_equal]
pub struct RunningView {
    pub name: Seq<char>,
    pub cancelled: bool,
}

impl View for Running {
    type V = RunningView;

    closed spec fn view(&self) -> RunningView {
        RunningView { name: self.name@, cancelled: self.cancel.cancelled() }
    }
}

/// Everything the commands mutate.
#[derive(Debug, PartialEq, Eq)]
pub struct EngineHost {
    /// A second job is refused while there is one, because the app transcribes
    /// one file at a time by design: a second concurrent decoder would double the
    /// memory for no throughput on a machine already at 100%.
    current_job: Option<Running>,
    /// One entry per in-flight model download.
    downloads: Vec<Running>,
    /// The key of the last loaded engine. A 1.5 GB checkpoint takes seconds to
    /// load, so a batch of ten files must not pay for it ten times.
    loaded: Option<String>,
}

/// What is under way.
#[verifier::ext_equal]
pub struct HostView {
    pub job: Option<RunningView>,
    pub downloads: Seq<RunningView>,
    pub loaded: Option<Seq<char>>,
}

impl View for EngineHost {
    type V = HostView;

    closed spec fn view(&self) -> HostView {
        HostView {
            job: match self.current_job {
                Some(job) => Some(job@),
                None => None,
            },
            downloads: Seq::new(self.downloads@.len(), |i: int| self.downloads@[i]@),
            loaded: text::view_of(self.loaded),
        }
    }
}

impl HostView {
    /// Whether a model is being downloaded.
    pub open spec fn downloading(self, name: Seq<char>) -> bool {
        exists|i: int| 0 <= i < self.downloads.len() && (#[trigger] self.downloads[i]).name == name
    }

    /// Whether no model is being downloaded twice.
    pub open spec fn wf(self) -> bool {
        forall|i: int, j: int|
            0 <= i < j < self.downloads.len() ==> (#[trigger] self.downloads[i]).name != (
            #[trigger] self.downloads[j]).name
    }

    /// What is under way once the job `id` has taken the single slot, which it
    /// can only where that is free.
    pub open spec fn claimed(self, id: Seq<char>) -> Option<HostView> {
        if self.job is None {
            Some(HostView { job: Some(RunningView { name: id, cancelled: false }), ..self })
        } else {
            None
        }
    }

    /// What is under way once the job slot has been released.
    pub open spec fn released(self) -> HostView {
        HostView { job: None, ..self }
    }

    /// What is under way once the checkpoint `name` is deleted: an engine of it is
    /// loaded no more.
    pub open spec fn without_model(self, name: Seq<char>) -> HostView {
        HostView {
            loaded: match self.loaded {
                Some(key) => if text::begins_with(key, name + "|"@) {
                    None
                } else {
                    Some(key)
                },
                None => None,
            },
            ..self
        }
    }

    /// The downloads without that of `name`.
    pub open spec fn other_downloads(self, name: Seq<char>) -> Seq<RunningView> {
        self.downloads.filter(|d: RunningView| d.name != name)
    }
}

/// What is said where a job is running already.
pub open spec fn busy_text(running: Seq<char>) -> Seq<char> {
    "job '"@ + running + "' is already running"@
}

/// What is said where there is no such job to cancel.
pub open spec fn no_job_text(id: Seq<char>) -> Seq<char> {
    "no running job '"@ + id + "'"@
}

/// What is said where there is no such download to cancel.
pub open spec fn no_download_text(name: Seq<char>) -> Seq<char> {
    "no download in progress for '"@ + name + "'"@
}

fn quoted(before: &str, name: &str, after: &str) -> (r: String)
    ensures
        r@ == before@ + name@ + after@,
{
    let mut r: String = before.to_owned();
    r.append(name);
    r.append(after);
    r
}

fn error_event(message: String) -> (r: EngineEvent)
    ensures
        r.is_error(message@),
{
    EngineEvent::Error { file: None, message }
}

/// The key of a loaded engine: its model and its language.
pub open spec fn loaded_key(model: Seq<char>, language: LanguageMode) -> Seq<char> {
    model + "|"@ + match language.code() {
        Some(code) => code,
        None => "auto"@,
    }
}

/// The key of a loaded engine: its model and its language.
pub fn engine_cache_key(model: &str, language: LanguageMode) -> (r: String)
    ensures
        r@ == loaded_key(model@, language),
{
    let mut r: String = model.to_owned();
    r.append("|");
    match language.whisper_language() {
        Some(code) => r.append(code),
        None => r.append("auto"),
    }
    r
}

/// An engine is taken for another only where both the model and the language are
/// the same.
pub proof fn law_loaded_keys_tell_apart(
    model: (Seq<char>, Seq<char>),
    language: (LanguageMode, LanguageMode),
)
    requires
        loaded_key(model.0, language.0) == loaded_key(model.1, language.1),
    ensures
        model.0 == model.1,
        language.0 == language.1,
{
    reveal_strlit("|");
    reveal_strlit("vi");
    reveal_strlit("en");
    reveal_strlit("auto");
    assert("|"@ == seq!['|']);
    let a = match language.0.code() {
        Some(code) => code,
        None => "auto"@,
    };
    let b = match language.1.code() {
        Some(code) => code,
        None => "auto"@,
    };
    assert(text::free_of(a, '|'));
    assert(text::free_of(b, '|'));
    text::lemma_split_last(model.0, a, model.1, b, '|');
    assert("vi"@[0] == 'v');
    assert("en"@[0] == 'e');
    assert("auto"@[0] == 'a');
}

/// There is one job at a time: while one has the slot no other gets it, and once
/// it is released any other does.
pub proof fn law_one_job_at_a_time(host: HostView, id: Seq<char>, other: Seq<char>)
    ensures
        host.claimed(id) matches Some(busy) ==> busy.claimed(other) is None
            && busy.released().claimed(other) is Some,
{
}

impl Default for EngineHost {
    fn default() -> (r: Self)
        ensures
            r@.job is None,
            r@.downloads == Seq::<RunningView>::empty(),
            r@.loaded is None,
            r@.wf(),
    {
        let r = EngineHost { current_job: None, downloads: Vec::new(), loaded: None };
        assert(r@.downloads == Seq::<RunningView>::empty());
        r
    }
}

impl EngineHost {
    /// Take the single job slot for files that are imported, or tell the frontend
    /// why it could not.
    ///
    /// One job at a time is deliberate; and outside `Idle` nothing is imported,
    /// not even while a recording runs, which has no job yet.
    pub fn claim_job(&mut self, state: &mut AppState, id: &str) -> (r: Option<EngineEvent>)
        ensures
            match r {
                Some(event) => {
                    &&& old(self)@.job is Some || old(state).phase != Phase::Idle
                    &&& event.is_error(
                        match old(self)@.job {
                            Some(job) => busy_text(job.name),
                            None => BUSY@,
                        },
                    )
                    &&& final(self)@ == old(self)@
                    &&& *final(state) == *old(state)
                },
                None => {
                    &&& old(state).phase == Phase::Idle
                    &&& old(self)@.claimed(id@) == Some(final(self)@)
                    &&& *final(state) == (AppState { phase: Phase::Transcribing, ..*old(state) })
                },
            },
    {
        if self.current_job.is_none() && state.phase() != Phase::Idle {
            return Some(error_event(BUSY.to_owned()));
        }
        self.claim_recording(state, id)
    }

    /// Take the single job slot for a recording that has ended, or tell the
    /// frontend why it could not. The app is still `Recording` then.
    pub fn claim_recording(&mut self, state: &mut AppState, id: &str) -> (r: Option<EngineEvent>)
        ensures
            match r {
                Some(event) => {
                    &&& old(self)@.claimed(id@) is None
                    &&& event.is_error(busy_text(old(self)@.job->0.name))
                    &&& final(self)@ == old(self)@
                    &&& *final(state) == *old(state)
                },
                None => {
                    &&& old(self)@.claimed(id@) == Some(final(self)@)
                    &&& *final(state) == (AppState { phase: Phase::Transcribing, ..*old(state) })
                },
            },
    {
        if let Some(running) = &self.current_job {
            return Some(error_event(quoted("job '", running.name.as_str(), "' is already running")));
        }
        self.current_job = Some(Running { name: id.to_owned(), cancel: CancelFlag::new() });
        state.set_phase(Phase::Transcribing);
        assert(self@.downloads == old(self)@.downloads);
        None
    }

    /// Release the job slot and return the app to `Idle`.
    ///
    /// Must run on every path out of a batch, including an early break: the slot
    /// is what refuses a second job, so leaking it makes every later job
    /// impossible with no recovery short of a restart.
    pub fn finish_job(&mut self, state: &mut AppState)
        ensures
            final(self)@ == old(self)@.released(),
            *final(state) == (AppState { phase: Phase::Idle, ..*old(state) }),
    {
        self.current_job = None;
        state.set_phase(Phase::Idle);
        assert(self@.downloads == old(self)@.downloads);
    }

    /// Whether the job that is running has been cancelled.
    pub fn job_cancelled(&self) -> (r: bool)
        ensures
            r == (self@.job matches Some(job) && job.cancelled),
    {
        match &self.current_job {
            Some(job) => job.cancel.is_cancelled(),
            None => false,
        }
    }

    /// Cancel the job `id`. Cancelling something that is not running is an error,
    /// not a silence.
    pub fn cancel_job(&mut self, id: &str) -> (r: Option<EngineEvent>)
        ensures
            match r {
                None => {
                    &&& old(self)@.job matches Some(job) && job.name == id@
                    &&& final(self)@ == (HostView {
                        job: Some(RunningView { name: id@, cancelled: true }),
                        ..old(self)@
                    })
                },
                Some(event) => {
                    &&& !(old(self)@.job matches Some(job) && job.name == id@)
                    &&& event.is_error(no_job_text(id@))
                    &&& final(self)@ == old(self)@
                },
            },
    {
        let running: bool = match &self.current_job {
            Some(job) => text::same(job.name.as_str(), id),
            None => false,
        };
        if running {
            let mut cancel: CancelFlag = CancelFlag::new();
            cancel.cancel();
            self.current_job = Some(Running { name: id.to_owned(), cancel });
            assert(self@.downloads == old(self)@.downloads);
            None
        } else {
            Some(error_event(quoted("no running job '", id, "'")))
        }
    }

    fn download_index(&self, name: &str) -> (r: Option<usize>)
        ensures
            match r {
                Some(k) => k < self.downloads@.len() && self.downloads@[k as int]@.name == name@
                    && self@.downloading(name@),
                None => !self@.downloading(name@),
            },
    {
        for k in 0..self.downloads.len()
            invariant
                forall|i: int| 0 <= i < k ==> (#[trigger] self.downloads@[i])@.name != name@,
        {
            if text::same(self.downloads[k].name.as_str(), name) {
                assert(self@.downloads[k as int].name == name@);
                return Some(k);
            }
        }
        proof {
            if self@.downloading(name@) {
                let i = choose|i: int|
                    0 <= i < self@.downloads.len() && (#[trigger] self@.downloads[i]).name == name@;
                assert(self.downloads@[i]@.name == name@);
            }
        }
        None
    }

    /// Begin to download a checkpoint. False where it is being downloaded
    /// already: the second click is a no-op rather than a second connection
    /// racing the first into the same file.
    pub fn begin_download(&mut self, name: &str) -> (r: bool)
        requires
            old(self)@.wf(),
        ensures
            final(self)@.wf(),
            r == !old(self)@.downloading(name@),
            final(self)@ == (if r {
                HostView {
                    downloads: old(self)@.downloads.push(
                        RunningView { name: name@, cancelled: false },
                    ),
                    ..old(self)@
                }
            } else {
                old(self)@
            }),
    {
        if self.download_index(name).is_some() {
            return false;
        }
        let ghost before = self@;
        self.downloads.push(Running { name: name.to_owned(), cancel: CancelFlag::new() });
        assert(self@.downloads == before.downloads.push(
            RunningView { name: name@, cancelled: false },
        ));
        assert(self@.wf()) by {
            assert forall|i: int, j: int| 0 <= i < j < self@.downloads.len() implies (
            #[trigger] self@.downloads[i]).name != (#[trigger] self@.downloads[j]).name by {
                assert(self@.downloads[i] == before.downloads[i]);
                if j < before.downloads.len() {
                    assert(self@.downloads[j] == before.downloads[j]);
                }
            }
        }
        true
    }

    /// Whether the download of a checkpoint has been cancelled.
    pub fn download_cancelled(&self, name: &str) -> (r: bool)
        requires
            self@.wf(),
        ensures
            r == self@.downloads.contains(RunningView { name: name@, cancelled: true }),
    {
        let ghost wanted = RunningView { name: name@, cancelled: true };
        match self.download_index(name) {
            Some(k) => {
                proof {
                    assert(self@.downloads[k as int] == self.downloads@[k as int]@);
                    if self@.downloads.contains(wanted) {
                        let i = self@.downloads.index_of(wanted);
                        assert(self@.downloads[i].name == self@.downloads[k as int].name);
                        assert(i == k);
                    }
                    if self.downloads@[k as int].cancel.cancelled() {
                        assert(self@.downloads[k as int] == wanted);
                    }
                }
                self.downloads[k].cancel.is_cancelled()
            },
            None => {
                proof {
                    if self@.downloads.contains(wanted) {
                        let i = self@.downloads.index_of(wanted);
                        assert(self@.downloads[i].name == name@);
                    }
                }
                false
            },
        }
    }

    /// Cancel the download of a checkpoint. Cancelling something that is not
    /// running is an error, not a silence.
    pub fn cancel_download(&mut self, name: &str) -> (r: Option<EngineEvent>)
        requires
            old(self)@.wf(),
        ensures
            final(self)@.wf(),
            match r {
                None => {
                    &&& old(self)@.downloading(name@)
                    &&& final(self)@.downloads == old(self)@.downloads.map_values(
                        |d: RunningView|
                            RunningView { name: d.name, cancelled: d.cancelled || d.name == name@ },
                    )
                    &&& final(self)@.job == old(self)@.job
                    &&& final(self)@.loaded == old(self)@.loaded
                },
                Some(event) => {
                    &&& !old(self)@.downloading(name@)
                    &&& event.is_error(no_download_text(name@))
                    &&& final(self)@ == old(self)@
                },
            },
    {
        let ghost before = self@;
        match self.download_index(name) {
            Some(k) => {
                let mut cancel: CancelFlag = CancelFlag::new();
                cancel.cancel();
                self.downloads.set(k, Running { name: name.to_owned(), cancel });
                let ghost trip = |d: RunningView|
                    RunningView { name: d.name, cancelled: d.cancelled || d.name == name@ };
                assert forall|i: int| 0 <= i < before.downloads.len() implies
                    self@.downloads[i] == before.downloads.map_values(trip)[i] by {
                    assert(before.downloads[k as int].name == name@);
                    if i != k {
                        if i < k {
                            assert(before.downloads[i].name != before.downloads[k as int].name);
                        } else {
                            assert(before.downloads[k as int].name != before.downloads[i].name);
                        }
                    }
                }
                assert(self@.downloads == before.downloads.map_values(trip));
                assert(self@.wf()) by {
                    assert forall|i: int, j: int| 0 <= i < j < self@.downloads.len() implies (
                    #[trigger] self@.downloads[i]).name != (#[trigger] self@.downloads[j]).name by {
                        assert(self@.downloads[i].name == before.downloads[i].name);
                        assert(self@.downloads[j].name == before.downloads[j].name);
                    }
                }
                None
            },
            None => Some(error_event(quoted("no download in progress for '", name, "'"))),
        }
    }

    /// A download is over, however it ended: what the frontend is told.
    ///
    /// The entry is gone before the event fires, so a frontend that reacts by
    /// starting a new download of the same model is never refused by a stale
    /// entry.
    pub fn finish_download(&mut self, name: &str, result: &Result<(), DownloadError>) -> (r:
        EngineEvent)
        requires
            old(self)@.wf(),
        ensures
            final(self)@.wf(),
            !final(self)@.downloading(name@),
            final(self)@ == (HostView {
                downloads: old(self)@.other_downloads(name@),
                ..old(self)@
            }),
            finished(r, name@, *result),
    {
        let ghost before = self@;
        let ghost keep = |d: RunningView| d.name != name@;
        match self.download_index(name) {
            Some(k) => {
                self.downloads.remove(k);
                assert(self@.downloads == before.downloads.remove(k as int));
                proof {
                    lemma_remove_named(before.downloads, k as int, name@);
                }
            },
            None => {
                proof {
                    assert forall|i: int| 0 <= i < before.downloads.len() implies keep(
                        #[trigger] before.downloads[i],
                    ) by {}
                    lemma_filter_all(before.downloads, keep);
                }
            },
        }
        proof {
            lemma_filter_names(before, name@);
        }
        assert(self@.downloads == before.other_downloads(name@));
        EngineEvent::DownloadFinished { name: name.to_owned(), status: status_of(result) }
    }

    /// The checkpoint `name` is to be deleted from disk: what the frontend is
    /// told.
    ///
    /// Forgetting the loaded engine matters: it holds the loaded weights of
    /// whatever ran last, and keeping a deleted model resident would make
    /// "Delete" look like it freed nothing until the app restarts.
    pub fn delete_model(&mut self, name: &str) -> (r: EngineEvent)
        ensures
            final(self)@ == old(self)@.without_model(name@),
            r matches EngineEvent::ModelDeleted { name: n } && n@ == name@,
    {
        let mut prefix: String = name.to_owned();
        prefix.append("|");
        let drop: bool = match &self.loaded {
            Some(key) => text::starts_with(key.as_str(), prefix.as_str()),
            None => false,
        };
        if drop {
            self.loaded = None;
        }
        assert(self@.downloads == old(self)@.downloads);
        EngineEvent::ModelDeleted { name: name.to_owned() }
    }

    /// Whether the engine with this key is the one that is loaded.
    pub fn has_loaded(&self, key: &str) -> (r: bool)
        ensures
            r == (self@.loaded == Some(key@)),
    {
        match &self.loaded {
            Some(loaded) => text::same(loaded.as_str(), key),
            None => false,
        }
    }

    /// The engine with this key is the one that is loaded now.
    pub fn set_loaded(&mut self, key: &str)
        ensures
            final(self)@ == (HostView { loaded: Some(key@), ..old(self)@ }),
    {
        self.loaded = Some(key.to_owned());
        assert(self@.downloads == old(self)@.downloads);
    }
}

proof fn lemma_filter_all(s: Seq<RunningView>, keep: spec_fn(RunningView) -> bool)
    requires
        forall|i: int| 0 <= i < s.len() ==> keep(#[trigger] s[i]),
    ensures
        s.filter(keep) == s,
    decreases s.len(),
{
    reveal(Seq::filter);
    if s.len() > 0 {
        let front = s.drop_last();
        assert forall|i: int| 0 <= i < front.len() implies keep(#[trigger] front[i]) by {
            assert(front[i] == s[i]);
        }
        lemma_filter_all(front, keep);
        assert(keep(s[s.len() - 1]));
        assert(front.push(s.last()) == s);
    }
}

proof fn lemma_remove_named(s: Seq<RunningView>, k: int, name: Seq<char>)
    requires
        0 <= k < s.len(),
        s[k].name == name,
        forall|i: int, j: int|
            0 <= i < j < s.len() ==> (#[trigger] s[i]).name != (#[trigger] s[j]).name,
    ensures
        s.remove(k) == s.filter(|d: RunningView| d.name != name),
{
    let keep = |d: RunningView| d.name != name;
    let front = s.take(k);
    let back = s.skip(k + 1);
    assert(s == front + seq![s[k]] + back);
    assert(s.remove(k) == front + back);
    assert forall|i: int| 0 <= i < front.len() implies keep(#[trigger] front[i]) by {
        assert(s[i].name != s[k].name);
    }
    assert forall|i: int| 0 <= i < back.len() implies keep(#[trigger] back[i]) by {
        assert(s[k].name != s[k + 1 + i].name);
    }
    lemma_filter_all(front, keep);
    lemma_filter_all(back, keep);
    Seq::filter_distributes_over_add(front + seq![s[k]], back, keep);
    assert(front + seq![s[k]] == front.push(s[k]));
    front.lemma_filter_push(s[k], keep);
}

proof fn lemma_filter_names(host: HostView, name: Seq<char>)
    requires
        host.wf(),
    ensures
        (HostView { downloads: host.other_downloads(name), ..host }).wf(),
        !(HostView { downloads: host.other_downloads(name), ..host }).downloading(name),
{
    let keep = |d: RunningView| d.name != name;
    reveal(Seq::filter);
    let s = host.downloads;
    let left = host.other_downloads(name);
    assert forall|i: int, j: int| 0 <= i < j < left.len() implies (#[trigger] left[i]).name != (
    #[trigger] left[j]).name by {
        lemma_filter_distinct(s, keep, i, j);
    }
    assert forall|i: int| 0 <= i < left.len() implies (#[trigger] left[i]).name != name by {
        s.lemma_filter_pred(keep, i);
    }
}

proof fn lemma_filter_distinct(
    s: Seq<RunningView>,
    keep: spec_fn(RunningView) -> bool,
    i: int,
    j: int,
)
    requires
        forall|a: int, b: int|
            0 <= a < b < s.len() ==> (#[trigger] s[a]).name != (#[trigger] s[b]).name,
        0 <= i < j < s.filter(keep).len(),
    ensures
        s.filter(keep)[i].name != s.filter(keep)[j].name,
    decreases s.len(),
{
    reveal(Seq::filter);
    let front = s.drop_last();
    assert forall|a: int, b: int| 0 <= a < b < front.len() implies (#[trigger] front[a]).name != (
    #[trigger] front[b]).name by {
        assert(front[a] == s[a] && front[b] == s[b]);
    }
    if j < front.filter(keep).len() {
        lemma_filter_distinct(front, keep, i, j);
    } else {
        let first = front.filter(keep)[i];
        assert(front.filter(keep).contains(first));
        front.lemma_filter_contains_rev(keep, first);
        let a = front.index_of(first);
        assert(s[a] == first);
        assert(s[a].name != s[s.len() - 1].name);
    }
}

/// Whether an event tells how the download of `name` ended.
pub open spec fn finished(event: EngineEvent, name: Seq<char>, result: Result<(), DownloadError>) -> bool {
    event matches EngineEvent::DownloadFinished { name: n, status } && n@ == name && match result {
        Ok(()) => status is Done,
        Err(DownloadError::Cancelled) => status is Cancelled,
        Err(DownloadError::Other(message)) => status matches DownloadStatus::Error(m) && m@
            == message@,
    }
}

fn status_of(result: &Result<(), DownloadError>) -> (r: DownloadStatus)
    ensures
        match *result {
            Ok(()) => r is Done,
            Err(DownloadError::Cancelled) => r is Cancelled,
            Err(DownloadError::Other(message)) => r matches DownloadStatus::Error(m) && m@
                == message@,
        },
{
    match result {
        Ok(()) => DownloadStatus::Done,
        Err(DownloadError::Cancelled) => DownloadStatus::Cancelled,
        Err(DownloadError::Other(message)) => DownloadStatus::Error(message.clone()),
    }
}

/// An engine of a model that is deleted is forgotten, in whichever language; one of
/// another model stays, though its name begin with that of the one deleted.
pub proof fn law_deleted_model_is_forgotten(
    host: HostView,
    name: Seq<char>,
    loaded: Seq<char>,
    language: LanguageMode,
)
    requires
        host.loaded == Some(loaded_key(loaded, language)),
    ensures
        text::begins_with(loaded_key(name, language), name + "|"@),
        name == loaded ==> host.without_model(name).loaded is None,
        name != loaded && text::free_of(name, '|') && text::free_of(loaded, '|')
            ==> host.without_model(name) == host,
        host.without_model(name).job == host.job,
        host.without_model(name).downloads == host.downloads,
{
    reveal_strlit("|");
    let key = loaded_key(loaded, language);
    let prefix = name + "|"@;
    assert("|"@ == seq!['|']);
    let code = match language.code() {
        Some(code) => code,
        None => "auto"@,
    };
    assert(key == loaded + seq!['|'] + code);
    assert(loaded_key(name, language).subrange(0, prefix.len() as int) == prefix);
    if text::begins_with(key, prefix) && text::free_of(name, '|') && text::free_of(loaded, '|') {
        assert(key == name + seq!['|'] + key.skip(prefix.len() as int)) by {
            assert(key == key.subrange(0, prefix.len() as int) + key.skip(prefix.len() as int));
        }
        text::lemma_split_first(name, key.skip(prefix.len() as int), loaded, code, '|');
    }
}

// ---------------------------------------------------------------------------
// Models
// ---------------------------------------------------------------------------

/// What is told of the checkpoints: each that can be selected, in order, with
/// whether it is on disk and how big it is there.
pub open spec fn rows_tell(rows: Seq<ModelRow>, files: Seq<Seq<char>>, sizes: Seq<Option<u64>>) -> bool {
    &&& rows.len() == transcribe::model_names().len()
    &&& forall|i: int|
        0 <= i < rows.len() ==> {
            &&& (#[trigger] rows[i]).name@ == transcribe::model_names()[i]
            &&& rows[i].downloaded == models::downloaded(transcribe::model_names()[i], files)
            &&& rows[i].size_bytes == models::or_zero(sizes[i])
        }
}

/// The models the UI lists: every selectable checkpoint, each with whether it is
/// on disk and how big it is. `files` are the names of the files in the cache,
/// and `sizes` the length of each selectable checkpoint's file, where it has one.
pub fn list_models(files: &Vec<String>, sizes: &Vec<Option<u64>>) -> (r: EngineEvent)
    requires
        sizes@.len() == 5,
    ensures
        r matches EngineEvent::Models { models } && rows_tell(
            models@,
            text::views(files@),
            sizes@,
        ),
{
    let mut rows: Vec<ModelRow> = Vec::new();
    let mut i: usize = 0;
    while i < 5
        invariant
            i <= 5,
            MODEL_OPTIONS@.len() == 5,
            sizes@.len() == 5,
            rows@.len() == i,
            forall|j: int|
                0 <= j < i ==> {
                    &&& (#[trigger] rows@[j]).name@ == transcribe::model_names()[j]
                    &&& rows@[j].downloaded == models::downloaded(
                        transcribe::model_names()[j],
                        text::views(files@),
                    )
                    &&& rows@[j].size_bytes == models::or_zero(sizes@[j])
                },
        decreases 5 - i,
    {
        rows.push(
            ModelRow {
                name: MODEL_OPTIONS[i].to_owned(),
                downloaded: models::is_model_downloaded(MODEL_OPTIONS[i], files),
                size_bytes: models::model_size_on_disk(sizes[i]),
            },
        );
        i += 1;
    }
    EngineEvent::Models { models: rows }
}

/// What there is to do to get an engine.
#[derive(Debug, Clone, PartialEq, Eq)]
pub enum EngineStep {
    /// The one that is loaded is the one wanted.
    UseLoaded,
    /// Get the checkpoint, if it is not on disk; then ask [`EngineLoad::fetched`].
    Fetch(EngineLoad),
}

/// An engine that is being got.
#[derive(Debug, Clone, PartialEq, Eq)]
pub struct EngineLoad {
    pub model: String,
    pub key: String,
    /// Whether the checkpoint has to be fetched first, which is then reported on
    /// the same events the Models tab's own Download button uses.
    pub downloading: bool,
}

/// What the status line says while a checkpoint is fetched for a job.
pub open spec fn fetching_text(model: Seq<char>) -> Seq<char> {
    "Downloading '"@ + model + "' (one-time, first use)…"@
}

/// What the status line says while a checkpoint is loaded.
pub open spec fn loading_text(model: Seq<char>) -> Seq<char> {
    "Loading model '"@ + model + "'…"@
}

impl EngineHost {
    /// Get an engine for a model and a language; `on_disk` tells whether the
    /// checkpoint is.
    pub fn resolve_engine(&self, model: &str, language: LanguageMode, on_disk: bool) -> (r:
        EngineStep)
        ensures
            match r {
                EngineStep::UseLoaded => self@.loaded == Some(loaded_key(model@, language)),
                EngineStep::Fetch(load) => {
                    &&& self@.loaded != Some(loaded_key(model@, language))
                    &&& load.model@ == model@
                    &&& load.key@ == loaded_key(model@, language)
                    &&& load.downloading == !on_disk
                },
            },
    {
        let key: String = engine_cache_key(model, language);
        if self.has_loaded(key.as_str()) {
            return EngineStep::UseLoaded;
        }
        EngineStep::Fetch(EngineLoad { model: model.to_owned(), key, downloading: !on_disk })
    }
}

impl EngineLoad {
    /// What the status line says before the checkpoint is fetched, where it is.
    pub fn announcement(&self) -> (r: Option<EngineEvent>)
        ensures
            match r {
                Some(event) => self.downloading && event.is_status(fetching_text(self.model@)),
                None => !self.downloading,
            },
    {
        if self.downloading {
            Some(
                EngineEvent::Status {
                    message: quoted(
                        "Downloading '",
                        self.model.as_str(),
                        "' (one-time, first use)…",
                    ),
                },
            )
        } else {
            None
        }
    }

    /// The checkpoint has been got, or not: the event that ends the download, if
    /// there was one, and either what the status line says while it is loaded or
    /// why the job ends.
    pub fn fetched(&self, result: &Result<(), DownloadError>, cancelled: bool) -> (r: (
        Option<EngineEvent>,
        Result<EngineEvent, TranscribeError>,
    ))
        ensures
            match r.0 {
                Some(event) => self.downloading && finished(event, self.model@, *result),
                None => !self.downloading,
            },
            match *result {
                Err(DownloadError::Cancelled) => r.1 matches Err(TranscribeError::Cancelled),
                Err(DownloadError::Other(message)) => r.1 matches Err(TranscribeError::Other(m))
                    && m@ == message@,
                Ok(()) => if cancelled {
                    r.1 matches Err(TranscribeError::Cancelled)
                } else {
                    r.1 matches Ok(event) && event.is_status(loading_text(self.model@))
                },
            },
    {
        let event: Option<EngineEvent> = if self.downloading {
            Some(
                EngineEvent::DownloadFinished {
                    name: self.model.clone(),
                    status: status_of(result),
                },
            )
        } else {
            None
        };
        match result {
            Err(DownloadError::Cancelled) => (event, Err(TranscribeError::Cancelled)),
            Err(DownloadError::Other(message)) => (
                event,
                Err(TranscribeError::Other(message.clone())),
            ),
            Ok(()) => {
                if cancelled {
                    (event, Err(TranscribeError::Cancelled))
                } else {
                    let message: String = quoted("Loading model '", self.model.as_str(), "'…");
                    (event, Ok(EngineEvent::Status { message }))
                }
            },
        }
    }
}

/// What the frontend is told of a model on its way, each time a piece of it has
/// arrived.
pub fn download_progress(name: &str, transfer: &Transfer) -> (r: EngineEvent)
    ensures
        r matches EngineEvent::DownloadProgress { model, downloaded, total } && model@ == name@
            && downloaded == transfer.downloaded && total == transfer.total,
{
    EngineEvent::DownloadProgress {
        model: name.to_owned(),
        downloaded: transfer.downloaded,
        total: transfer.total,
    }
}

// ---------------------------------------------------------------------------
// One file
// ---------------------------------------------------------------------------

/// What the frontend is told before a run that resumes `resume_at_ns` in: nothing
/// where it starts at the beginning.
pub fn resume_events(label: &str, resume_at_ns: i64) -> (r: Option<(EngineEvent, EngineEvent)>)
    ensures
        match r {
            Some((baseline, status)) => {
                &&& resume_at_ns > 0
                &&& baseline matches EngineEvent::ChunkBaseline { resume_at_ns: ns } && ns
                    == resume_at_ns
                &&& status.is_status(
                    label@ + " — resuming at "@ + segment::hms(
                        segment::whole_seconds(resume_at_ns as int),
                    ) + "…"@,
                )
            },
            None => resume_at_ns <= 0,
        },
{
    if resume_at_ns <= 0 {
        return None;
    }
    let mut message: String = label.to_owned();
    message.append(" — resuming at ");
    message.append(segment::format_timestamp(resume_at_ns).as_str());
    message.append("…");
    Some((EngineEvent::ChunkBaseline { resume_at_ns }, EngineEvent::Status { message }))
}

/// What the frontend is told of a segment of a chunk that is still being decoded:
/// nothing where it is canned filler. The preview bypasses the post-chunk
/// filtering that cleans the saved text.
pub fn segment_event(seg: &TranscriptSegment) -> (r: Option<EngineEvent>)
    ensures
        match r {
            Some(event) => !hallucination::hallucinated(seg@.text)
                && (event matches EngineEvent::SegmentText { text } && text@ == seg@.line()),
            None => hallucination::hallucinated(seg@.text),
        },
{
    if chunking::preview_is_worth_showing(seg.text.as_str()) {
        Some(EngineEvent::SegmentText { text: seg.format_line() })
    } else {
        None
    }
}

// ---------------------------------------------------------------------------
// A batch
// ---------------------------------------------------------------------------

/// One file that is to be transcribed now, and what the frontend is told of it.
#[derive(Debug, Clone, PartialEq, Eq)]
pub struct FileTurn {
    pub source: FilePath,
    pub label: String,
    pub status: EngineEvent,
    pub start: EngineEvent,
}

/// What a batch calls its file `index` of `total`.
pub open spec fn batch_label(index: nat, total: nat, name: Seq<char>) -> Seq<char> {
    "Transcribing"@ + (if total > 1 {
        " "@ + text::decimal_of(index + 1) + "/"@ + text::decimal_of(total)
    } else {
        Seq::empty()
    }) + ": "@ + name
}

/// Whether a turn is what the frontend is to be told of a file.
pub open spec fn turn_tells(turn: FileTurn, source: PathView, label: Seq<char>, name: Seq<char>) -> bool {
    &&& turn.source@ == source
    &&& turn.label@ == label
    &&& turn.status.is_status(label + "…"@)
    &&& turn.start matches EngineEvent::FileStart { name: n } && n@ == name
}

/// A batch of files, transcribed one after another.
///
/// One file failing does not stop the batch: a corrupt file in a folder of twenty
/// should cost that one transcript, not the other nineteen. Cancellation does
/// stop it, since the user asked.
#[derive(Debug, Clone, PartialEq, Eq)]
pub struct Batch {
    id: String,
    sources: Vec<FilePath>,
    index: usize,
    saved: Vec<String>,
    cancelled: bool,
}

/// How far a batch has come.
#[verifier::ext_equal]
pub struct BatchView {
    pub id: Seq<char>,
    pub sources: Seq<PathView>,
    pub index: nat,
    pub saved: Seq<Seq<char>>,
    pub cancelled: bool,
}

impl View for Batch {
    type V = BatchView;

    closed spec fn view(&self) -> BatchView {
        BatchView {
            id: self.id@,
            sources: source_views(self.sources@),
            index: self.index as nat,
            saved: text::views(self.saved@),
            cancelled: self.cancelled,
        }
    }
}

impl BatchView {
    /// Whether there is nothing more to transcribe.
    pub open spec fn over(self) -> bool {
        self.cancelled || self.index >= self.sources.len()
    }

    /// The batch once a file has been transcribed, or not.
    pub open spec fn after(self, outcome: Result<String, TranscribeError>) -> BatchView {
        match outcome {
            Ok(path) => BatchView {
                index: self.index + 1,
                saved: self.saved.push(path@),
                ..self
            },
            Err(TranscribeError::Cancelled) => BatchView {
                index: self.index + 1,
                cancelled: true,
                ..self
            },
            Err(TranscribeError::Other(_)) => BatchView { index: self.index + 1, ..self },
        }
    }
}

/// Whether an event says that a batch is done, and how.
pub open spec fn done_tells(event: EngineEvent, batch: BatchView, elapsed_ns: i64) -> bool {
    event matches EngineEvent::BatchDone { id, saved, cancelled, elapsed_ns: ns } && {
        &&& id@ == batch.id
        &&& text::views(saved@) == batch.saved
        &&& cancelled == batch.cancelled
        &&& ns == elapsed_ns
    }
}

fn push_name(names: &mut Vec<String>, name: String)
    ensures
        text::views(final(names)@) == text::views(old(names)@).push(name@),
{
    let ghost before = text::views(names@);
    let ghost said = name@;
    names.push(name);
    assert(text::views(names@) == before.push(said));
}

impl Batch {
    pub fn new(id: &str, sources: Vec<FilePath>) -> (r: Self)
        ensures
            r@ == (BatchView {
                id: id@,
                sources: source_views(sources@),
                index: 0,
                saved: Seq::empty(),
                cancelled: false,
            }),
    {
        let r = Batch {
            id: id.to_owned(),
            sources,
            index: 0,
            saved: Vec::new(),
            cancelled: false,
        };
        assert(r@.saved == Seq::<Seq<char>>::empty());
        r
    }

    /// The file that is to be transcribed now; `None` when the batch is over.
    pub fn next(&self) -> (r: Option<FileTurn>)
        ensures
            match r {
                Some(turn) => {
                    let source = self@.sources[self@.index as int];
                    &&& !self@.over()
                    &&& turn_tells(
                        turn,
                        source,
                        batch_label(self@.index, self@.sources.len(), source.shown()),
                        source.shown(),
                    )
                },
                None => self@.over(),
            },
    {
        let total: usize = self.sources.len();
        if self.cancelled || self.index >= total {
            return None;
        }
        let source: &FilePath = &self.sources[self.index];
        let name: String = source.shown_name();
        let mut label: String = "Transcribing".to_owned();
        if total > 1 {
            label.append(" ");
            label.append(text::decimal_wide(self.index as u128 + 1).as_str());
            label.append("/");
            label.append(text::decimal_wide(total as u128).as_str());
            assert(label@ == "Transcribing"@ + (" "@ + text::decimal_of((self.index + 1) as nat)
                + "/"@ + text::decimal_of(total as nat)));
        } else {
            assert(label@ + Seq::<char>::empty() == label@);
        }
        label.append(": ");
        label.append(name.as_str());
        assert(label@ == batch_label(self@.index, self@.sources.len(), source@.shown()));
        let mut message: String = label.clone();
        message.append("…");
        Some(
            FileTurn {
                source: source.duplicate(),
                label,
                status: EngineEvent::Status { message },
                start: EngineEvent::FileStart { name },
            },
        )
    }

    /// What came of the file that was transcribed, and what the frontend is told
    /// of it: nothing but where it failed.
    pub fn report(&mut self, outcome: Result<String, TranscribeError>) -> (r: Option<EngineEvent>)
        requires
            !old(self)@.over(),
        ensures
            final(self)@ == old(self)@.after(outcome),
            match outcome {
                Err(TranscribeError::Other(message)) => r matches Some(event)
                    && event.is_file_error(
                    old(self)@.sources[old(self)@.index as int].shown(),
                    message@,
                ),
                _ => r is None,
            },
    {
        let count: usize = self.sources.len();
        assert(count == self@.sources.len());
        let name: String = self.sources[self.index].shown_name();
        self.index = self.index + 1;
        match outcome {
            Ok(path) => {
                push_name(&mut self.saved, path);
                None
            },
            Err(TranscribeError::Cancelled) => {
                self.cancelled = true;
                None
            },
            Err(TranscribeError::Other(message)) => Some(
                EngineEvent::Error { file: Some(name), message },
            ),
        }
    }

    /// The one event that every batch ends with.
    pub fn done(self, elapsed_ns: i64) -> (r: EngineEvent)
        ensures
            done_tells(r, self@, elapsed_ns),
    {
        EngineEvent::BatchDone {
            id: self.id,
            saved: self.saved,
            cancelled: self.cancelled,
            elapsed_ns,
        }
    }
}

/// The batch once some files have been transcribed, or not.
pub open spec fn batch_after(batch: BatchView, outcomes: Seq<Result<String, TranscribeError>>) -> BatchView
    decreases outcomes.len(),
{
    if outcomes.len() == 0 {
        batch
    } else {
        batch_after(batch, outcomes.drop_last()).after(outcomes.last())
    }
}

/// Every batch ends: once each of its files has had its turn, there is nothing
/// more to transcribe. It names as saved exactly the transcripts that were
/// written, in order, and says it was cancelled exactly where a file was.
pub proof fn law_batch(batch: BatchView, outcomes: Seq<Result<String, TranscribeError>>)
    requires
        batch.index == 0,
        batch.saved.len() == 0,
        !batch.cancelled,
    ensures
        batch_after(batch, outcomes).index == outcomes.len(),
        batch_after(batch, outcomes).sources == batch.sources,
        batch_after(batch, outcomes).id == batch.id,
        outcomes.len() >= batch.sources.len() ==> batch_after(batch, outcomes).over(),
        batch_after(batch, outcomes).cancelled <==> exists|i: int|
            0 <= i < outcomes.len() && #[trigger] outcomes[i] == Err::<String, TranscribeError>(
                TranscribeError::Cancelled,
            ),
        batch_after(batch, outcomes).saved == saved_of(outcomes),
    decreases outcomes.len(),
{
    if outcomes.len() > 0 {
        let front = outcomes.drop_last();
        law_batch(batch, front);
        let cancelled = Err::<String, TranscribeError>(TranscribeError::Cancelled);
        if exists|i: int| 0 <= i < front.len() && #[trigger] front[i] == cancelled {
            let i = choose|i: int| 0 <= i < front.len() && #[trigger] front[i] == cancelled;
            assert(outcomes[i] == cancelled);
        }
        if exists|i: int| 0 <= i < outcomes.len() && #[trigger] outcomes[i] == cancelled {
            let i = choose|i: int| 0 <= i < outcomes.len() && #[trigger] outcomes[i] == cancelled;
            if i < front.len() {
                assert(front[i] == cancelled);
            }
        }
        if outcomes.last() == cancelled {
            assert(outcomes[outcomes.len() - 1] == cancelled);
        }
    } else {
        assert(batch.saved == saved_of(outcomes));
    }
}

/// The transcripts that were written.
pub open spec fn saved_of(outcomes: Seq<Result<String, TranscribeError>>) -> Seq<Seq<char>>
    decreases outcomes.len(),
{
    if outcomes.len() == 0 {
        Seq::empty()
    } else {
        match outcomes.last() {
            Ok(path) => saved_of(outcomes.drop_last()).push(path@),
            Err(_) => saved_of(outcomes.drop_last()),
        }
    }
}

// ---------------------------------------------------------------------------
// A recording
// ---------------------------------------------------------------------------

/// Who speaks on a side.
pub open spec fn speaker_of(side: Side) -> Seq<char> {
    match side {
        Side::Mic => MIC_LABEL@,
        Side::System => SYSTEM_LABEL@,
    }
}

fn speaker(side: Side) -> (r: &'static str)
    ensures
        r@ == speaker_of(side),
{
    match side {
        Side::Mic => MIC_LABEL,
        Side::System => SYSTEM_LABEL,
    }
}

/// A track of a recording, and whose it is.
#[derive(Debug, Clone, PartialEq, Eq)]
struct Track {
    side: Side,
    path: FilePath,
}

/// A track of a recording, and whose it is.
#[verifier::ext_equal]
pub struct TrackView {
    pub side: Side,
    pub path: PathView,
}

impl View for Track {
    type V = TrackView;

    closed spec fn view(&self) -> TrackView {
        TrackView { side: self.side, path: self.path@ }
    }
}

/// The tracks that a recording has, the microphone's first.
pub open spec fn tracks_of(mic: Option<PathView>, system: Option<PathView>) -> Seq<TrackView> {
    (match mic {
        Some(path) => seq![TrackView { side: Side::Mic, path }],
        None => Seq::empty(),
    }) + (match system {
        Some(path) => seq![TrackView { side: Side::System, path }],
        None => Seq::empty(),
    })
}

/// The name of the job that transcribes a recording.
pub open spec fn recording_job_id(stem: Seq<char>) -> Seq<char> {
    "recording-"@ + stem
}

/// Both sides of a recording, then the conversation they make together.
///
/// The two tracks are transcribed separately: that is what makes the merge able
/// to say who spoke, and what stops your own voice, bleeding from the speakers
/// into the microphone, from being transcribed twice.
#[derive(Debug, Clone, PartialEq, Eq)]
pub struct RecordingJob {
    id: String,
    tracks: Vec<Track>,
    index: usize,
    saved: Vec<String>,
    cancelled: bool,
    mic_transcript: Option<String>,
    system_transcript: Option<String>,
}

/// How far the transcription of a recording has come. The transcripts are where
/// each side's landed.
#[verifier::ext_equal]
pub struct RecordingJobView {
    pub id: Seq<char>,
    pub tracks: Seq<TrackView>,
    pub index: nat,
    pub saved: Seq<Seq<char>>,
    pub cancelled: bool,
    pub mic_transcript: Option<Seq<char>>,
    pub system_transcript: Option<Seq<char>>,
}

impl View for RecordingJob {
    type V = RecordingJobView;

    closed spec fn view(&self) -> RecordingJobView {
        RecordingJobView {
            id: self.id@,
            tracks: Seq::new(self.tracks@.len(), |i: int| self.tracks@[i]@),
            index: self.index as nat,
            saved: text::views(self.saved@),
            cancelled: self.cancelled,
            mic_transcript: text::view_of(self.mic_transcript),
            system_transcript: text::view_of(self.system_transcript),
        }
    }
}

impl RecordingJobView {
    /// Whether there is no more track to transcribe.
    pub open spec fn over(self) -> bool {
        self.cancelled || self.index >= self.tracks.len()
    }

    /// The job once a track has been transcribed, or not.
    pub open spec fn after(self, outcome: Result<String, TranscribeError>) -> RecordingJobView {
        let side = self.tracks[self.index as int].side;
        match outcome {
            Ok(path) => RecordingJobView {
                index: self.index + 1,
                saved: self.saved.push(path@),
                mic_transcript: if side == Side::Mic {
                    Some(path@)
                } else {
                    self.mic_transcript
                },
                system_transcript: if side == Side::System {
                    Some(path@)
                } else {
                    self.system_transcript
                },
                ..self
            },
            Err(TranscribeError::Cancelled) => RecordingJobView {
                index: self.index + 1,
                cancelled: true,
                ..self
            },
            Err(TranscribeError::Other(_)) => RecordingJobView { index: self.index + 1, ..self },
        }
    }

    /// Whether a conversation is to be made: not of a cancelled run, and not
    /// where no side was transcribed.
    pub open spec fn merges(self) -> bool {
        !self.cancelled && (self.mic_transcript is Some || self.system_transcript is Some)
    }
}

/// Whether an event says that a recording is done, and how.
pub open spec fn recording_done_tells(event: EngineEvent, job: RecordingJobView, elapsed_ns: i64) -> bool {
    event matches EngineEvent::BatchDone { id, saved, cancelled, elapsed_ns: ns } && {
        &&& id@ == job.id
        &&& text::views(saved@) == job.saved
        &&& cancelled == job.cancelled
        &&& ns == elapsed_ns
    }
}

/// What a track is called while it is transcribed.
pub open spec fn track_label(side: Side) -> Seq<char> {
    "Transcribing the "@ + speaker_of(side) + " track"@
}

/// Where the transcripts are that make a conversation.
#[derive(Debug, Clone, PartialEq, Eq)]
pub struct MergeInputs {
    pub mic: Option<String>,
    pub system: Option<String>,
}

/// What came of making a conversation: the file it was written to and its text,
/// nothing where nobody spoke, or why not.
#[derive(Debug, Clone, PartialEq, Eq)]
pub enum MergeOutcome {
    Written { path: String, text: String },
    Nothing,
    Failed(String),
}

/// The transcription of a recording, of which nothing is done yet.
pub open spec fn new_recording_job(recording: Recording) -> RecordingJobView {
    RecordingJobView {
        id: recording_job_id(recording.stem@),
        tracks: tracks_of(path_view(recording.mic_path), path_view(recording.system_path)),
        index: 0,
        saved: Seq::empty(),
        cancelled: false,
        mic_transcript: None,
        system_transcript: None,
    }
}

impl RecordingJob {
    pub fn new(recording: &Recording) -> (r: Self)
        ensures
            r@ == new_recording_job(*recording),
    {
        let mut id: String = "recording-".to_owned();
        id.append(recording.stem.as_str());
        let mut tracks: Vec<Track> = Vec::new();
        if let Some(path) = &recording.mic_path {
            tracks.push(Track { side: Side::Mic, path: path.duplicate() });
        }
        if let Some(path) = &recording.system_path {
            tracks.push(Track { side: Side::System, path: path.duplicate() });
        }
        let r = RecordingJob {
            id,
            tracks,
            index: 0,
            saved: Vec::new(),
            cancelled: false,
            mic_transcript: None,
            system_transcript: None,
        };
        assert(r@.saved == Seq::<Seq<char>>::empty());
        assert(r@.tracks == tracks_of(
            path_view(recording.mic_path),
            path_view(recording.system_path),
        ));
        r
    }

    /// The name of the job.
    pub fn id(&self) -> (r: &str)
        ensures
            r@ == self@.id,
    {
        self.id.as_str()
    }

    /// The track that is to be transcribed now; `None` when both have had their
    /// turn.
    pub fn next(&self) -> (r: Option<FileTurn>)
        ensures
            match r {
                Some(turn) => {
                    let track = self@.tracks[self@.index as int];
                    &&& !self@.over()
                    &&& turn_tells(
                        turn,
                        track.path,
                        track_label(track.side),
                        speaker_of(track.side) + " — "@ + track.path.shown(),
                    )
                },
                None => self@.over(),
            },
    {
        let total: usize = self.tracks.len();
        if self.cancelled || self.index >= total {
            return None;
        }
        let track: &Track = &self.tracks[self.index];
        assert(track@ == self@.tracks[self@.index as int]);
        let who: &'static str = speaker(track.side);
        let mut label: String = "Transcribing the ".to_owned();
        label.append(who);
        label.append(" track");
        let mut message: String = label.clone();
        message.append("…");
        let mut name: String = who.to_owned();
        name.append(" — ");
        name.append(track.path.shown_name().as_str());
        Some(
            FileTurn {
                source: track.path.duplicate(),
                label,
                status: EngineEvent::Status { message },
                start: EngineEvent::FileStart { name },
            },
        )
    }

    /// What came of the track that was transcribed, and what the frontend is told
    /// of it: nothing but where it failed.
    pub fn report(&mut self, outcome: Result<String, TranscribeError>) -> (r: Option<EngineEvent>)
        requires
            !old(self)@.over(),
        ensures
            final(self)@ == old(self)@.after(outcome),
            match outcome {
                Err(TranscribeError::Other(message)) => r matches Some(event)
                    && event.is_file_error(
                    old(self)@.tracks[old(self)@.index as int].path.shown(),
                    message@,
                ),
                _ => r is None,
            },
    {
        let count: usize = self.tracks.len();
        assert(count == self@.tracks.len());
        let ghost track = self@.tracks[self@.index as int];
        assert(self.tracks@[self.index as int]@ == track);
        let side: Side = self.tracks[self.index].side;
        let name: String = self.tracks[self.index].path.shown_name();
        self.index = self.index + 1;
        assert(self@.tracks == old(self)@.tracks);
        match outcome {
            Ok(path) => {
                match side {
                    Side::Mic => self.mic_transcript = Some(path.clone()),
                    Side::System => self.system_transcript = Some(path.clone()),
                }
                push_name(&mut self.saved, path);
                assert(self@.tracks == old(self)@.tracks);
                None
            },
            Err(TranscribeError::Cancelled) => {
                self.cancelled = true;
                assert(self@.tracks == old(self)@.tracks);
                None
            },
            Err(TranscribeError::Other(message)) => Some(
                EngineEvent::Error { file: Some(name), message },
            ),
        }
    }

    /// The transcripts to make a conversation of, if one is to be made.
    ///
    /// A cancelled run is not merged. Half a conversation reads worse than two
    /// separate transcripts: the missing side looks like silence rather than like
    /// something that was never transcribed, and there is no way to tell from the
    /// file which it was.
    pub fn merge_inputs(&self) -> (r: Option<MergeInputs>)
        ensures
            match r {
                Some(inputs) => self@.merges() && text::view_of(inputs.mic) == self@.mic_transcript
                    && text::view_of(inputs.system) == self@.system_transcript,
                None => !self@.merges(),
            },
    {
        if self.cancelled || (self.mic_transcript.is_none() && self.system_transcript.is_none()) {
            return None;
        }
        let mic: Option<String> = match &self.mic_transcript {
            Some(path) => Some(path.clone()),
            None => None,
        };
        let system: Option<String> = match &self.system_transcript {
            Some(path) => Some(path.clone()),
            None => None,
        };
        Some(MergeInputs { mic, system })
    }

    /// What came of making a conversation, and what the frontend is told of it.
    ///
    /// The text rides along with the path: the conversation is the reason the
    /// recording was made. Where neither side produced a line nothing is said: the
    /// per-track transcripts still exist, and an empty conversation file would
    /// only be one more thing to delete.
    pub fn merged(&mut self, outcome: MergeOutcome) -> (r: Option<EngineEvent>)
        ensures
            match outcome {
                MergeOutcome::Written { path, text } => {
                    &&& final(self)@ == (RecordingJobView {
                        saved: old(self)@.saved.push(path@),
                        ..old(self)@
                    })
                    &&& r matches Some(EngineEvent::MergedText { path: p, text: t }) && p@ == path@
                        && t@ == text@
                },
                MergeOutcome::Nothing => r is None && final(self)@ == old(self)@,
                MergeOutcome::Failed(message) => final(self)@ == old(self)@ && (r matches Some(
                    event,
                ) && event.is_error(message@)),
            },
    {
        match outcome {
            MergeOutcome::Written { path, text } => {
                push_name(&mut self.saved, path.clone());
                assert(self@.tracks == old(self)@.tracks);
                Some(EngineEvent::MergedText { path, text })
            },
            MergeOutcome::Nothing => None,
            MergeOutcome::Failed(message) => Some(error_event(message)),
        }
    }

    /// The one event that every transcription of a recording ends with.
    pub fn done(self, elapsed_ns: i64) -> (r: EngineEvent)
        ensures
            recording_done_tells(r, self@, elapsed_ns),
    {
        EngineEvent::BatchDone {
            id: self.id,
            saved: self.saved,
            cancelled: self.cancelled,
            elapsed_ns,
        }
    }
}

impl EngineHost {
    /// Start a batch of what the user handed over, `is_file` telling which of it
    /// are files; or tell the frontend why it could not.
    pub fn start_transcription(
        &mut self,
        state: &mut AppState,
        id: &str,
        paths: &Vec<FilePath>,
        is_file: &Vec<bool>,
    ) -> (r: Result<Batch, EngineEvent>)
        requires
            is_file@.len() == paths@.len(),
        ensures
            match r {
                Ok(batch) => {
                    &&& old(state).phase == Phase::Idle
                    &&& old(self)@.claimed(id@) == Some(final(self)@)
                    &&& *final(state) == (AppState { phase: Phase::Transcribing, ..*old(state) })
                    &&& batch@ == (BatchView {
                        id: id@,
                        sources: importable(source_views(paths@), is_file@),
                        index: 0,
                        saved: Seq::empty(),
                        cancelled: false,
                    })
                },
                Err(event) => {
                    &&& old(self)@.job is Some || old(state).phase != Phase::Idle
                    &&& event.is_error(
                        match old(self)@.job {
                            Some(job) => busy_text(job.name),
                            None => BUSY@,
                        },
                    )
                    &&& final(self)@ == old(self)@
                    &&& *final(state) == *old(state)
                },
            },
    {
        match self.claim_job(state, id) {
            Some(event) => Err(event),
            None => Ok(Batch::new(id, select_sources(paths, is_file))),
        }
    }

    /// Start to transcribe a recording that has ended; or tell the frontend why it
    /// could not.
    pub fn transcribe_recording(&mut self, state: &mut AppState, recording: &Recording) -> (r: Result<
        RecordingJob,
        EngineEvent,
    >)
        ensures
            match r {
                Ok(job) => {
                    &&& old(self)@.claimed(recording_job_id(recording.stem@)) == Some(final(self)@)
                    &&& *final(state) == (AppState { phase: Phase::Transcribing, ..*old(state) })
                    &&& job@ == new_recording_job(*recording)
                },
                Err(event) => {
                    &&& old(self)@.job is Some
                    &&& event.is_error(busy_text(old(self)@.job->0.name))
                    &&& final(self)@ == old(self)@
                    &&& *final(state) == *old(state)
                },
            },
    {
        let job: RecordingJob = RecordingJob::new(recording);
        match self.claim_recording(state, job.id()) {
            Some(event) => Err(event),
            None => Ok(job),
        }
    }
}

/// A run that was cancelled makes no conversation, whatever came before.
pub proof fn law_cancelled_is_not_merged(
    job: RecordingJobView,
    outcome: Result<String, TranscribeError>,
)
    ensures
        outcome == Err::<String, TranscribeError>(TranscribeError::Cancelled) ==> !job.after(
            outcome,
        ).merges(),
        job.cancelled ==> !job.after(outcome).merges(),
{
}

// ---------------------------------------------------------------------------
// The conversation
// ---------------------------------------------------------------------------

/// How the time in a conversation's header is written.
pub const HEADER_FORMAT: &'static str = "%Y-%m-%d %H:%M";

/// A moment as [`HEADER_FORMAT`] writes it: the date, then the hour and the minute.
pub open spec fn minute_text(at: Moment) -> Seq<char> {
    checkpoint::year_text(at.year) + seq!['-'] + text::pad2_of(at.month) + seq!['-']
        + text::pad2_of(at.day) + seq![' '] + text::pad2_of(at.hour) + seq![':'] + text::pad2_of(
        at.minute,
    )
}

/// Whether it is the minute of `at`, `secs` seconds after 1970 began, in a time
/// zone that is `offset` seconds ahead.
pub open spec fn in_minute(at: Moment, secs: int, offset: int) -> bool {
    at.begins_at() <= secs + offset < at.begins_at() + 60
}

/// Whether a text is what a clock on the wall shows `secs` seconds after 1970
/// began, in some time zone: those are less than a day off.
pub open spec fn shown_at(s: Seq<char>, secs: int) -> bool {
    exists|at: Moment, offset: int|
        at.wf() && -86_400 < offset < 86_400 && #[trigger] in_minute(at, secs, offset) && s
            == minute_text(at)
}

/// `chrono::DateTime::from_timestamp`, `with_timezone` and `format`: the moment
/// `secs` seconds and `nanos` nanoseconds after 1970 began, by this machine's
/// time zone, written as the format says. There is such a moment for every
/// timestamp within three hundred years of 1970, and no other is asked for. What
/// is written is that moment's minute in some time zone; which zone the machine is
/// in, and so how far ahead or behind, within a day, nothing is claimed of. The
/// format is the one that is known to be valid, since an invalid one would make
/// the formatting panic.
#[verifier::external_body]
fn local_minute(secs: i64, nanos: u32, format: &str) -> (r: Option<String>)
    requires
        format@ == HEADER_FORMAT@,
        -9_400_000_000 <= secs <= 9_400_000_000,
        nanos < 1_000_000_000,
    ensures
        r is Some,
        shown_at(r->0@, secs as int),
{
    chrono::DateTime::from_timestamp(secs, nanos).map(
        |utc| utc.with_timezone(&chrono::Local).format(format).to_string(),
    )
}

/// The whole seconds of a time since 1970, cut off towards 1970.
pub open spec fn seconds_since_1970(ns: int) -> int {
    if ns >= 0 {
        ns / 1_000_000_000
    } else {
        -(-ns / 1_000_000_000)
    }
}

/// The whole seconds, cut off towards 1970, and the nanoseconds after them, none
/// before 1970, of a time since 1970.
pub fn timestamp(ns: i64) -> (r: (i64, u32))
    ensures
        r.0 == seconds_since_1970(ns as int),
        r.1 == (if ns >= 0 {
            ns as int % 1_000_000_000
        } else {
            0
        }),
{
    if ns >= 0 {
        (ns / 1_000_000_000, (ns % 1_000_000_000) as u32)
    } else {
        let before: i128 = -(ns as i128) / 1_000_000_000;
        ((-before) as i64, 0)
    }
}

/// The line the merged transcript opens with.
pub open spec fn header_text(when: Option<Seq<char>>, duration_ns: int) -> Seq<char> {
    "# Meeting recorded "@ + (match when {
        Some(w) => w,
        None => "an unknown time"@,
    }) + " ("@ + chunking::elapsed_text(duration_ns) + ")"@
}

/// The line the merged transcript opens with, given when the recording was made,
/// where that can be said.
pub fn header_line(when: Option<&str>, duration_ns: i64) -> (r: String)
    ensures
        r@ == header_text(models::str_view(when), duration_ns as int),
{
    let mut r: String = "# Meeting recorded ".to_owned();
    match when {
        Some(w) => r.append(w),
        None => r.append("an unknown time"),
    }
    r.append(" (");
    r.append(chunking::format_elapsed(duration_ns).as_str());
    r.append(")");
    r
}

/// `# Meeting recorded 2026-08-04 14:05 (32m10s)`: the line the merged transcript
/// opens with, so a file found later dates itself.
pub fn recording_header(recording: &Recording) -> (r: String)
    ensures
        exists|when: Seq<char>|
            shown_at(when, seconds_since_1970(recording.started_at_ns as int)) && r@
                == #[trigger] header_text(Some(when), recording.duration_ns as int),
{
    let (secs, nanos): (i64, u32) = timestamp(recording.started_at_ns);
    let when: Option<String> = local_minute(secs, nanos, HEADER_FORMAT);
    match &when {
        Some(w) => header_line(Some(w.as_str()), recording.duration_ns),
        None => header_line(None, recording.duration_ns),
    }
}

/// Where a recording's conversation goes, of where its tracks are: next to them.
pub open spec fn conversation_home(mic: Option<PathView>, system: Option<PathView>) -> Option<PathView> {
    match (mic, system) {
        (Some(path), _) => path.parent(),
        (None, Some(path)) => path.parent(),
        (None, None) => None,
    }
}

/// Whether a path is where a recording's conversation goes: next to its tracks,
/// and where recordings go, which the machine decides, if it has none.
pub open spec fn is_target(path: PathView, recording: Recording) -> bool {
    match conversation_home(path_view(recording.mic_path), path_view(recording.system_path)) {
        Some(dir) => path == merge::conversation_place(dir, recording.stem@),
        None => exists|documents: Option<PlaceView>, home: Option<PlaceView>|
            paths::held_exactly(documents) && paths::held_exactly(home) && path == merge::conversation_place(
                #[trigger] recordings_place(documents, home),
                recording.stem@,
            ),
    }
}

/// Where a recording's conversation goes: next to the tracks, so a meeting is one
/// folder however it was started.
pub fn conversation_target(recording: &Recording) -> (r: FilePath)
    ensures
        is_target(r@, *recording),
{
    let track: Option<&FilePath> = match (&recording.mic_path, &recording.system_path) {
        (Some(path), _) => Some(path),
        (None, Some(path)) => Some(path),
        (None, None) => None,
    };
    let dir: Option<FilePath> = match track {
        Some(path) => path.parent(),
        None => None,
    };
    match dir {
        Some(d) => merge::conversation_path(&d, recording.stem.as_str()),
        None => merge::conversation_path(&recordings_dir(), recording.stem.as_str()),
    }
}

/// A conversation that is to be written, and what it holds.
#[derive(Debug, Clone, PartialEq, Eq)]
pub struct Conversation {
    pub path: FilePath,
    pub text: String,
}

/// The conversation of two transcripts, of what reading each of them gave, under
/// a header.
pub open spec fn both_sides(mic: Option<&str>, system: Option<&str>) -> Seq<merge::UtteranceView> {
    merge::merged(merge::side_of(mic, MIC_LABEL@), merge::side_of(system, SYSTEM_LABEL@))
}

/// Weave two transcripts, of what reading each of them gave, into the
/// conversation of a recording. `None` means that nobody spoke, and no file is to
/// be written.
pub fn merge_recording(
    recording: &Recording,
    mic: Option<&str>,
    system: Option<&str>,
    header: &str,
) -> (r: Option<Conversation>)
    ensures
        match r {
            Some(conversation) => {
                &&& both_sides(mic, system).len() > 0
                &&& conversation.text@ == merge::conversation_text(
                    both_sides(mic, system),
                    Some(header),
                )
                &&& is_target(conversation.path@, *recording)
            },
            None => both_sides(mic, system).len() == 0,
        },
{
    let (text, count): (String, usize) = merge::merge_transcripts(mic, system, Some(header));
    if count == 0 {
        return None;
    }
    Some(Conversation { path: conversation_target(recording), text })
}

// ---------------------------------------------------------------------------
// What is imported
// ---------------------------------------------------------------------------

proof fn lemma_importable(paths: Seq<PathView>, is_file: Seq<bool>)
    ensures
        ({
            let chosen = picking::positions(
                paths.len(),
                |i: int| is_file[i] && audio_name(paths[i].name()),
            );
            &&& importable(paths, is_file).len() == chosen.len()
            &&& forall|k: int|
                0 <= k < chosen.len() ==> importable(paths, is_file)[k] == paths[#[trigger] chosen[k]]
        }),
    decreases paths.len(),
{
    if paths.len() > 0 {
        let front = paths.drop_last();
        let n = front.len();
        let wanted = |i: int| is_file[i] && audio_name(paths[i].name());
        lemma_importable(front, is_file);
        picking::lemma_positions_same(
            n,
            |i: int| is_file[i] && audio_name(front[i].name()),
            wanted,
        );
        picking::lemma_positions(n, wanted);
        let before = picking::positions(n, wanted);
        let chosen = picking::positions(paths.len(), wanted);
        assert forall|k: int| 0 <= k < chosen.len() implies importable(paths, is_file)[k]
            == paths[#[trigger] chosen[k]] by {
            if k < before.len() {
                assert(chosen[k] == before[k]);
                assert(front[before[k]] == paths[before[k]]);
            }
        }
    }
}

/// Every path handed over that is a file with an accepted name is transcribed,
/// however many there are, in the order given, and nothing else is.
pub proof fn law_every_audio_file_is_imported(paths: Seq<PathView>, is_file: Seq<bool>)
    requires
        is_file.len() == paths.len(),
    ensures
        exists|chosen: Seq<int>|
            #![trigger chosen.len()]
            {
                &&& picking::exactly(
                    chosen,
                    paths.len() as int,
                    |i: int| is_file[i] && audio_name(paths[i].name()),
                )
                &&& importable(paths, is_file).len() == chosen.len()
                &&& forall|k: int|
                    0 <= k < chosen.len() ==> importable(paths, is_file)[k]
                        == paths[#[trigger] chosen[k]]
            },
{
    let wanted = |i: int| is_file[i] && audio_name(paths[i].name());
    lemma_importable(paths, is_file);
    picking::lemma_positions(paths.len(), wanted);
    let chosen = picking::positions(paths.len(), wanted);
    assert(chosen.len() == importable(paths, is_file).len());
}

/// A name is accepted exactly where it ends with a dot, not at its very front, and
/// one of nine extensions, in small letters or capitals.
pub proof fn law_accepted_formats(front: Seq<char>, extension: Seq<char>)
    requires
        front.len() > 0,
        text::free_of(extension, '.'),
    ensures
        audio_name(Some(front + seq!['.'] + extension)) <==> {
            let small = text::smalls(extension);
            ||| small == "mp3"@
            ||| small == "wav"@
            ||| small == "m4a"@
            ||| small == "aac"@
            ||| small == "flac"@
            ||| small == "ogg"@
            ||| small == "opus"@
            ||| small == "wma"@
            ||| small == "mp4"@
        },
        !audio_name(Some(extension)),
        !audio_name(Some(seq!['.'] + extension)),
        !audio_name(None),
{
    paths::law_names_and_extensions(front, extension);
    let small = text::smalls(extension);
    assert(AUDIO_EXTS@.len() == 9);
    assert(AUDIO_EXTS@[0]@ == "mp3"@);
    assert(AUDIO_EXTS@[1]@ == "wav"@);
    assert(AUDIO_EXTS@[2]@ == "m4a"@);
    assert(AUDIO_EXTS@[3]@ == "aac"@);
    assert(AUDIO_EXTS@[4]@ == "flac"@);
    assert(AUDIO_EXTS@[5]@ == "ogg"@);
    assert(AUDIO_EXTS@[6]@ == "opus"@);
    assert(AUDIO_EXTS@[7]@ == "wma"@);
    assert(AUDIO_EXTS@[8]@ == "mp4"@);
    if audio_name(Some(front + seq!['.'] + extension)) {
        let i = choose|i: int| 0 <= i < AUDIO_EXTS@.len() && small == #[trigger] AUDIO_EXTS@[i]@;
        assert(i == 0 || i == 1 || i == 2 || i == 3 || i == 4 || i == 5 || i == 6 || i == 7 || i
            == 8);
    }
}

// ---------------------------------------------------------------------------
// What a recording's job leaves
// ---------------------------------------------------------------------------

/// The path of a transcript, where one was written.
pub open spec fn written_path(outcome: Result<String, TranscribeError>) -> Option<Seq<char>> {
    match outcome {
        Ok(path) => Some(path@),
        Err(_) => None,
    }
}

/// Each side's transcript is the one that was written of its track, whichever of
/// the two failed; what is saved is what was written, the microphone's first; and a
/// conversation is made exactly where neither was cancelled and one was written.
pub proof fn law_each_side_keeps_its_transcript(
    recording: Recording,
    first: Result<String, TranscribeError>,
    second: Result<String, TranscribeError>,
)
    ensures
        ({
            let cancelled = Err::<String, TranscribeError>(TranscribeError::Cancelled);
            let fresh = new_recording_job(recording);
            let one = fresh.after(first);
            let both = one.after(second);
            &&& recording.mic_path is Some && recording.system_path is Some ==> {
                &&& fresh.tracks.len() == 2
                &&& fresh.tracks[0] == (TrackView {
                    side: Side::Mic,
                    path: (recording.mic_path->0)@,
                })
                &&& fresh.tracks[1] == (TrackView {
                    side: Side::System,
                    path: (recording.system_path->0)@,
                })
                &&& both.over()
                &&& both.mic_transcript == written_path(first)
                &&& both.system_transcript == written_path(second)
                &&& both.saved.len() == (if first is Ok {
                    1int
                } else {
                    0
                }) + (if second is Ok {
                    1int
                } else {
                    0
                })
                &&& first is Ok ==> both.saved[0] == (first->Ok_0)@
                &&& second is Ok ==> both.saved.last() == (second->Ok_0)@
                &&& both.merges() <==> first != cancelled && second != cancelled && (first is Ok
                    || second is Ok)
            }
            &&& recording.mic_path is Some && recording.system_path is None ==> {
                &&& fresh.tracks.len() == 1
                &&& one.over()
                &&& one.mic_transcript == written_path(first)
                &&& one.system_transcript is None
                &&& one.merges() <==> first is Ok
            }
            &&& recording.mic_path is None && recording.system_path is Some ==> {
                &&& fresh.tracks.len() == 1
                &&& one.over()
                &&& one.system_transcript == written_path(first)
                &&& one.mic_transcript is None
                &&& one.merges() <==> first is Ok
            }
            &&& recording.mic_path is None && recording.system_path is None ==> fresh.over()
                && !fresh.merges()
        }),
{
}

/// A download that ends leaves the others as they are, cancelled or not.
pub proof fn law_a_download_ends_alone(host: HostView, name: Seq<char>, other: RunningView)
    ensures
        host.other_downloads(name).contains(other) <==> host.downloads.contains(other) && other.name
            != name,
{
    let keep = |d: RunningView| d.name != name;
    let s = host.downloads;
    if s.filter(keep).contains(other) {
        s.lemma_filter_contains_rev(keep, other);
        let i = s.filter(keep).index_of(other);
        s.lemma_filter_pred(keep, i);
    }
    if s.contains(other) && other.name != name {
        picking::lemma_filter_picks(s, keep);
        picking::lemma_positions(s.len(), |i: int| keep(s[i]));
        let chosen = picking::positions(s.len(), |i: int| keep(s[i]));
        let i = s.index_of(other);
        let wanted = |i: int| keep(s[i]);
        assert(wanted(i));
        assert(chosen.contains(i));
        let k = chosen.index_of(i);
        assert(s.filter(keep)[k] == s[chosen[k]]);
    }
}

/// A batch of two files or more counts them, the first being 1; one file alone is
/// not counted.
pub proof fn law_files_of_a_batch_are_counted(index: nat, total: nat, name: Seq<char>)
    ensures
        total >= 2 ==> batch_label(index, total, name) == "Transcribing "@ + text::decimal_of(
            index + 1,
        ) + "/"@ + text::decimal_of(total) + ": "@ + name,
        total <= 1 ==> batch_label(index, total, name) == "Transcribing: "@ + name,
{
    reveal_strlit("Transcribing");
    reveal_strlit("Transcribing ");
    reveal_strlit("Transcribing: ");
    reveal_strlit(" ");
    reveal_strlit(": ");
    assert("Transcribing "@ == "Transcribing"@ + " "@);
    assert("Transcribing: "@ == "Transcribing"@ + ": "@);
    let counted = " "@ + text::decimal_of(index + 1) + "/"@ + text::decimal_of(total);
    assert("Transcribing"@ + counted == "Transcribing"@ + " "@ + text::decimal_of(index + 1) + "/"@
        + text::decimal_of(total));
    assert("Transcribing"@ + Seq::<char>::empty() == "Transcribing"@);
}

/// A conversation lies where the microphone's track does, or the meeting's where
/// that is the only one.
pub proof fn law_a_meeting_is_one_folder(dir: PathView, name: Seq<char>, other: Option<PathView>)
    ensures
        conversation_home(Some(dir.joined(name)), other) == Some(dir),
        conversation_home(None, Some(dir.joined(name))) == Some(dir),
        conversation_home(None, None) is None,
{
    assert(dir.joined(name).parts.drop_last() == dir.parts);
}

/// Times are cut off to whole seconds towards 1970.
pub proof fn law_seconds_since_1970(seconds: int, rest: int)
    requires
        seconds >= 0,
        0 <= rest < 1_000_000_000,
    ensures
        seconds_since_1970(seconds * 1_000_000_000 + rest) == seconds,
        seconds_since_1970(-(seconds * 1_000_000_000 + rest)) == -seconds,
{
}

} // verus!
