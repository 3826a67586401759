//! Decode parameters: the single source of truth for how a model is driven.
//!
//! Why each of these is set is not obvious from the value. Whisper was trained on
//! YouTube captions, so over silence it emits a channel outro rather than
//! nothing, and with previous-text conditioning left on that invented line
//! becomes the prompt for the next window and repeats for the rest of the
//! recording. Dropping the conditioning is the fix for the loop; the thresholds
//! make the model bail out of a window it is not confident about instead of
//! guessing.

use vstd::prelude::*;

use crate::transcribe::models;

verus! {

/// Below this average token logprob, in tenths, the window is treated as a failed
/// decode.
pub const LOGPROB_THRESHOLD_TENTHS: i32 = -10;

/// A window whose entropy is this low, in tenths, is degenerate rather than
/// speech.
pub const ENTROPY_THRESHOLD_TENTHS: i32 = 24;

/// Above this no-speech probability, in tenths, the window is emitted as silence.
pub const NO_SPEECH_THRESHOLD_TENTHS: i32 = 6;

/// The slow, accurate setting; on Metal the cost is affordable in a way it never
/// was on CPU.
pub const BEAM_SIZE: i32 = 5;

/// In tenths: minus one means "use the decoder's default patience" rather than no
/// patience.
pub const BEAM_PATIENCE_TENTHS: i32 = -10;

/// How one chunk is decoded. Numbers that are not whole are in tenths.
#[derive(Debug, Clone, PartialEq, Eq)]
pub struct DecodeParams {
    pub beam_size: i32,
    pub patience_tenths: i32,
    pub threads: i32,
    pub translate: bool,
    pub language: Option<String>,
    pub detect_language: bool,
    pub no_context: bool,
    pub logprob_tenths: i32,
    pub entropy_tenths: i32,
    pub no_speech_tenths: i32,
    pub token_timestamps: bool,
    pub split_on_word: bool,
    pub suppress_non_speech: bool,
    pub print_anything: bool,
}

/// Build the decode parameters for one chunk.
///
/// `language` is `None` for the `auto` mode, which turns on detection; the
/// `vi+en` mode passes `Some("vi")` on a *multilingual* checkpoint, which is what
/// keeps embedded English words spelled in English.
pub fn decode_params(language: Option<&str>, threads: i32) -> (r: DecodeParams)
    ensures
        r.beam_size == BEAM_SIZE,
        r.patience_tenths == BEAM_PATIENCE_TENTHS,
        r.threads == threads,
        !r.translate,
        crate::text::view_of(r.language) == models::str_view(language),
        r.detect_language == (language is None),
        r.no_context,
        r.logprob_tenths == LOGPROB_THRESHOLD_TENTHS,
        r.entropy_tenths == ENTROPY_THRESHOLD_TENTHS,
        r.no_speech_tenths == NO_SPEECH_THRESHOLD_TENTHS,
        r.token_timestamps,
        r.split_on_word,
        r.suppress_non_speech,
        !r.print_anything,
{
    let code: Option<String> = match language {
        Some(code) => Some(code.to_owned()),
        None => None,
    };
    DecodeParams {
        beam_size: BEAM_SIZE,
        patience_tenths: BEAM_PATIENCE_TENTHS,
        threads,
        translate: false,
        detect_language: code.is_none(),
        language: code,
        // The fix for the repeat loop: never let an invented line become the
        // prompt for the next window.
        no_context: true,
        logprob_tenths: LOGPROB_THRESHOLD_TENTHS,
        entropy_tenths: ENTROPY_THRESHOLD_TENTHS,
        no_speech_tenths: NO_SPEECH_THRESHOLD_TENTHS,
        // Word-level timings, which the silence pass in `hallucination` needs to
        // tell an invented outro from a speaker trailing off.
        token_timestamps: true,
        split_on_word: true,
        // The non-speech tokens ("(music)", "[laughter]") that Whisper emits over
        // noise.
        suppress_non_speech: true,
        print_anything: false,
    }
}

/// How many threads decode on a machine with that many cores: one less, and one at
/// least.
pub open spec fn threads_for(cores: Option<usize>) -> int {
    let n = match cores {
        Some(c) => c as int,
        None => 4,
    };
    if n <= 2 {
        1
    } else if n - 1 <= i32::MAX {
        n - 1
    } else {
        i32::MAX as int
    }
}

/// Threads to decode with: leave a core for the UI and the recorder. `cores` is
/// how many the machine says it has; four where it does not say.
///
/// On Metal most of the work is on the GPU, but the mel spectrogram and the
/// beam-search bookkeeping are still CPU-side.
pub fn default_threads(cores: Option<usize>) -> (r: i32)
    ensures
        r == threads_for(cores),
{
    let n: usize = match cores {
        Some(c) => c,
        None => 4,
    };
    if n <= 2 {
        1
    } else if n - 1 <= 2_147_483_647 {
        (n - 1) as i32
    } else {
        2_147_483_647
    }
}

} // verus!
