//! The choices the app remembers between launches.
//!
//! This is deliberately not the same thing as [`crate::state::AppState`]: that is
//! what the app is doing *now* and dies with the process. This is what the user
//! chose, and outlives it.

use vstd::prelude::*;

use crate::paths;
use crate::paths::{FilePath, PathView, Place, PlaceView};
use crate::places;
use crate::transcribe::DEFAULT_MODEL;

verus! {

/// The app's directory under the user's config directory.
pub const APP_DIR: &'static str = "dev.placepad.transcriber";

pub const FILE_NAME: &'static str = "settings.json";

/// What the user chose.
#[derive(Debug, Clone, PartialEq, Eq)]
pub struct Settings {
    /// One of the strings [`crate::state::LanguageMode::parse`] accepts.
    pub language_mode: String,
    pub model: String,
    pub record_mic: bool,
    pub record_system: bool,
    /// A device id, stable across launches, which is why remembering it is worth
    /// anything.
    pub mic_device_id: Option<String>,
}

impl Settings {
    /// Whether these are the choices of someone who has made none.
    pub open spec fn is_default(self) -> bool {
        &&& self.language_mode@ == "vi+en"@
        &&& self.model@ == DEFAULT_MODEL@
        &&& self.record_mic
        &&& self.record_system
        &&& self.mic_device_id is None
    }
}

impl Default for Settings {
    fn default() -> (r: Self)
        ensures
            r.is_default(),
    {
        Settings {
            language_mode: "vi+en".to_owned(),
            model: DEFAULT_MODEL.to_owned(),
            record_mic: true,
            record_system: true,
            mic_device_id: None,
        }
    }
}

/// Where the settings are kept, given the user's config directory, if there is
/// one.
pub open spec fn settings_place(config: Option<PlaceView>) -> PathView {
    PathView {
        base: match config {
            Some(dir) => dir,
            None => PlaceView::named("."@),
        },
        parts: seq![APP_DIR@, FILE_NAME@],
    }
}

/// Where the settings are kept, given the user's config directory, if there is
/// one.
pub fn settings_path_under(config: Option<Place>) -> (r: FilePath)
    ensures
        r@ == settings_place(paths::place_view(config)),
{
    let base: Place = match config {
        Some(dir) => dir,
        None => Place::named("."),
    };
    let r: FilePath = FilePath::in_place(base).join(APP_DIR).join(FILE_NAME);
    assert(r@.parts == seq![APP_DIR@, FILE_NAME@]);
    r
}

/// Where the settings are kept: in the app's directory under the user's config
/// directory.
pub fn settings_path() -> (r: FilePath)
    ensures
        exists|config: Option<PlaceView>|
            paths::held_exactly(config) && r@ == #[trigger] settings_place(config),
{
    settings_path_under(places::config_dir())
}

/// The settings, of what reading the file gave: the defaults where there is no
/// file or it does not parse.
///
/// A corrupt or half-written file is not an error worth showing anyone: the
/// defaults are usable, and the next save overwrites it.
pub fn load(read: Option<Settings>) -> (r: Settings)
    ensures
        match read {
            Some(settings) => r == settings,
            None => r.is_default(),
        },
{
    match read {
        Some(settings) => settings,
        None => Settings::default(),
    }
}

} // verus!
