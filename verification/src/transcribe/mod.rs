//! Transcription engines and the text they produce.
//!
//! An engine turns 16 kHz mono audio into timestamped segments; `chunking`
//! drives it and never knows which engine it has.

pub mod hallucination;
pub mod models;
pub mod params;
pub mod segment;
pub mod whisper_cpp;

use vstd::prelude::*;

verus! {

/// The multilingual checkpoint used unless the header dropdown says otherwise.
pub const DEFAULT_MODEL: &'static str = "large-v3";

/// Checkpoints selectable in the UI, ordered roughly fastest -> most accurate.
pub const MODEL_OPTIONS: [&'static str; 5] = [
    "small",
    "medium",
    "large-v2",
    "large-v3",
    "large-v3-turbo",
];

/// The names of the selectable checkpoints.
pub open spec fn model_names() -> Seq<Seq<char>> {
    Seq::new(MODEL_OPTIONS@.len(), |i: int| MODEL_OPTIONS@[i]@)
}

/// The checkpoints that can be selected are these five, the fastest first.
pub proof fn law_models()
    ensures
        model_names() == seq!["small"@, "medium"@, "large-v2"@, "large-v3"@, "large-v3-turbo"@],
        model_names().contains(DEFAULT_MODEL@),
{
    assert(model_names() == seq![
        "small"@,
        "medium"@,
        "large-v2"@,
        "large-v3"@,
        "large-v3-turbo"@,
    ]);
    assert(model_names()[3] == DEFAULT_MODEL@);
}

} // verus!
