//! What the app is doing, and the handles a command needs to change it.

use vstd::prelude::*;

use crate::text;
use crate::transcribe::DEFAULT_MODEL;

verus! {

/// The phase the app is in. Importing files, switching models and starting a
/// recording are blocked outside `Idle`.
#[derive(Debug, Clone, Copy, PartialEq, Eq, Structural)]
pub enum Phase {
    Idle,
    Recording,
    Transcribing,
}

/// The language modes the UI offers.
///
/// `ViEn` is the default and the reason this app exists: decode as Vietnamese
/// on a *multilingual* checkpoint, so English terms mixed into Vietnamese
/// speech stay spelled in English instead of being Vietnamised.
#[derive(Debug, Clone, Copy, PartialEq, Eq, Structural)]
pub enum LanguageMode {
    ViEn,
    En,
    Auto,
}

impl LanguageMode {
    /// The mode that a setting names. Whatever is not recognised is the default
    /// mode, so an old setting still transcribes.
    pub open spec fn named(value: Seq<char>) -> Self {
        if value == "en"@ {
            LanguageMode::En
        } else if value == "auto"@ {
            LanguageMode::Auto
        } else {
            LanguageMode::ViEn
        }
    }

    /// The language code of a mode, where it fixes one.
    pub open spec fn code(self) -> Option<Seq<char>> {
        match self {
            LanguageMode::ViEn => Some("vi"@),
            LanguageMode::En => Some("en"@),
            LanguageMode::Auto => None,
        }
    }

    /// Parse the string the frontend sends. Anything unrecognised falls back to
    /// the default rather than failing a job.
    pub fn parse(value: &str) -> (r: Self)
        ensures
            r == LanguageMode::named(value@),
    {
        if text::same(value, "en") {
            LanguageMode::En
        } else if text::same(value, "auto") {
            LanguageMode::Auto
        } else {
            LanguageMode::ViEn
        }
    }

    /// The language code handed to the decoder. `None` means "detect".
    pub fn whisper_language(self) -> (r: Option<&'static str>)
        ensures
            match r {
                Some(code) => self.code() == Some(code@),
                None => self.code() is None,
            },
    {
        match self {
            LanguageMode::ViEn => Some("vi"),
            LanguageMode::En => Some("en"),
            LanguageMode::Auto => None,
        }
    }
}

/// Cooperative cancellation, checked between chunks.
///
/// Progress is never lost when this trips: the checkpoint for the last
/// completed chunk is already on disk. There is one of it for what it cancels,
/// and it cannot be copied: a copy would not see it trip.
#[derive(Debug, PartialEq, Eq, Structural)]
pub struct CancelFlag {
    tripped: bool,
}

impl CancelFlag {
    /// Whether the flag has been tripped.
    pub closed spec fn cancelled(self) -> bool {
        self.tripped
    }

    pub fn new() -> (r: Self)
        ensures
            !r.cancelled(),
    {
        CancelFlag { tripped: false }
    }

    /// Trip the flag. There is no way back.
    pub fn cancel(&mut self)
        ensures
            final(self).cancelled(),
    {
        self.tripped = true;
    }

    pub fn is_cancelled(&self) -> (r: bool)
        ensures
            r == self.cancelled(),
    {
        self.tripped
    }
}

impl Default for CancelFlag {
    fn default() -> (r: Self)
        ensures
            !r.cancelled(),
    {
        CancelFlag::new()
    }
}

/// What the app is doing.
#[derive(Debug, PartialEq, Eq)]
pub struct AppState {
    pub phase: Phase,
    /// Set while a batch is running so Stop has something to trip.
    pub cancel: Option<CancelFlag>,
    pub language: LanguageMode,
    /// The multilingual checkpoint selected in the header dropdown.
    pub model: String,
}

impl Default for AppState {
    fn default() -> (r: Self)
        ensures
            r.phase == Phase::Idle,
            r.cancel is None,
            r.language == LanguageMode::ViEn,
            r.model@ == DEFAULT_MODEL@,
    {
        AppState {
            phase: Phase::Idle,
            cancel: None,
            language: LanguageMode::ViEn,
            model: DEFAULT_MODEL.to_owned(),
        }
    }
}

impl AppState {
    pub fn phase(&self) -> (r: Phase)
        ensures
            r == self.phase,
    {
        self.phase
    }

    pub fn set_phase(&mut self, phase: Phase)
        ensures
            *final(self) == (AppState { phase, ..*old(self) }),
    {
        self.phase = phase;
    }
}

} // verus!
