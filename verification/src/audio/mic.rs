//! Microphone -> mono 16 kHz.
//!
//! Two behaviours are load-bearing:
//!
//! * **Ask the OS for 16 kHz directly.** Its own rate conversion is better than
//!   ours and costs nothing; the [`Resampler`](super::resampler::Resampler) is
//!   only for devices that refuse the rate.
//! * **Timestamp the block at its *start*.** The callback runs *after* the block
//!   was captured, so its first sample belongs one block-length back on the
//!   timeline. Getting this wrong pushes one track permanently later than the
//!   other, which is precisely the drift the WAV writer exists to prevent.

use vstd::prelude::*;
use vstd::string::*;

use crate::audio::system::NO_LOOPBACK;
use crate::SAMPLE_RATE;

verus! {

/// What the user is told where there is no microphone at all.
pub const NO_MICROPHONE: &'static str = "no microphone is available";

/// Full scale of signed 16-bit samples that a device delivers.
pub const I16_SCALE: i32 = 32_767;

/// Full scale of unsigned 16-bit samples that a device delivers, around their
/// middle.
pub const U16_SCALE: i32 = 32_768;

/// How a device delivers samples.
#[derive(Debug, Clone, PartialEq, Eq)]
pub enum SampleFormat {
    F32,
    I16,
    U16,
    /// Anything else, by its name.
    Other(String),
}

/// An unsigned sample around zero, in 1/[`U16_SCALE`] of full scale: mid-scale is
/// silence, the extremes are full scale.
pub fn u16_level(sample: u16) -> (r: i32)
    ensures
        r == sample - 32_768,
        -U16_SCALE <= r < U16_SCALE,
{
    sample as i32 - 32_768
}

/// A signed sample, in 1/[`I16_SCALE`] of full scale.
pub fn i16_level(sample: i16) -> (r: i32)
    ensures
        r == sample,
        -I16_SCALE - 1 <= r <= I16_SCALE,
{
    sample as i32
}

/// Whether one of the ranges of rates holds the rate wanted.
pub open spec fn some_range_holds(ranges: Seq<(u32, u32)>, rate: u32) -> bool {
    exists|i: int| 0 <= i < ranges.len() && (#[trigger] ranges[i]).0 <= rate <= ranges[i].1
}

/// Whether the device will give us 16 kHz without our own conversion: `ranges`
/// are the rates it supports, lowest and highest, and nothing where it does not
/// say.
pub fn supports_16k(ranges: Option<&Vec<(u32, u32)>>) -> (r: bool)
    ensures
        r == match ranges {
            Some(list) => some_range_holds(list@, SAMPLE_RATE),
            None => false,
        },
{
    if let Some(list) = ranges {
        for i in 0..list.len()
            invariant
                ranges == Some(list),
                forall|j: int|
                    0 <= j < i ==> !((#[trigger] list@[j]).0 <= SAMPLE_RATE <= list@[j].1),
        {
            if list[i].0 <= SAMPLE_RATE && SAMPLE_RATE <= list[i].1 {
                assert(list@[i as int].0 <= SAMPLE_RATE <= list@[i as int].1);
                return true;
            }
        }
    }
    false
}

/// The rate to record at, and whether blocks have to be resampled: 16 kHz
/// straight from the device where it can, its own rate otherwise.
pub fn choose_rate(supports: bool, native_rate: u32) -> (r: (u32, bool))
    ensures
        supports ==> r == (SAMPLE_RATE, false),
        !supports ==> r == (native_rate, true),
{
    if supports {
        (SAMPLE_RATE, false)
    } else {
        (native_rate, true)
    }
}

/// How many frames there are in `samples` interleaved samples.
pub open spec fn frame_count(samples: usize, channels: usize) -> int {
    samples as int / super::channel_count(channels)
}

/// When the first sample of a block was captured that arrived at `elapsed_ns`.
pub open spec fn captured_at(elapsed_ns: int, frames: int, rate: u32) -> int {
    elapsed_ns - frames * 1_000_000_000 / rate as int
}

/// When the first sample of a block was captured: one block-length before the
/// callback that delivered it, at `elapsed_ns`. A time before all counting is the
/// earliest there is.
pub fn block_start(elapsed_ns: i64, samples: usize, channels: usize, rate: u32) -> (r: i64)
    requires
        rate > 0,
    ensures
        captured_at(elapsed_ns as int, frame_count(samples, channels), rate) >= i64::MIN ==> r
            == captured_at(elapsed_ns as int, frame_count(samples, channels), rate),
        captured_at(elapsed_ns as int, frame_count(samples, channels), rate) < i64::MIN ==> r
            == i64::MIN,
        r <= elapsed_ns,
{
    let width: usize = if channels > 1 {
        channels
    } else {
        1
    };
    let frames: usize = samples / width;
    let lasted: i128 = frames as i128 * 1_000_000_000 / rate as i128;
    assert(0 <= lasted <= frames * 1_000_000_000) by (nonlinear_arith)
        requires
            lasted == frames * 1_000_000_000 / rate as int,
            rate > 0,
            frames >= 0,
    ;
    let at: i128 = elapsed_ns as i128 - lasted;
    if at < i64::MIN as i128 {
        i64::MIN
    } else {
        at as i64
    }
}

/// What the user is told of a format that cannot be recorded.
pub open spec fn unsupported_text(device: Seq<char>, format: Seq<char>) -> Seq<char> {
    "unsupported "@ + device + " sample format "@ + format
}

/// The name of a format.
pub open spec fn format_words(format: SampleFormat) -> Seq<char> {
    match format {
        SampleFormat::F32 => "F32"@,
        SampleFormat::I16 => "I16"@,
        SampleFormat::U16 => "U16"@,
        SampleFormat::Other(name) => name@,
    }
}

/// The name of a format.
fn format_name(format: &SampleFormat) -> (r: String)
    ensures
        r@ == format_words(*format),
{
    match format {
        SampleFormat::F32 => "F32".to_owned(),
        SampleFormat::I16 => "I16".to_owned(),
        SampleFormat::U16 => "U16".to_owned(),
        SampleFormat::Other(name) => name.clone(),
    }
}

fn unsupported(device: &str, format: &SampleFormat) -> (r: String)
    ensures
        r@ == unsupported_text(device@, format_words(*format)),
{
    let mut r: String = "unsupported ".to_owned();
    r.append(device);
    r.append(" sample format ");
    r.append(format_name(format).as_str());
    r
}

/// Whether a microphone's samples can be recorded, and what the user is told if
/// not.
pub fn check_mic_format(format: &SampleFormat) -> (r: Result<(), String>)
    ensures
        match r {
            Ok(()) => !(format is Other),
            Err(message) => format is Other && message@ == unsupported_text(
                "microphone"@,
                format_words(*format),
            ),
        },
{
    match format {
        SampleFormat::F32 | SampleFormat::I16 | SampleFormat::U16 => Ok(()),
        SampleFormat::Other(_) => Err(unsupported("microphone", format)),
    }
}

/// Whether a loopback device's samples can be recorded, and what the user is told
/// if not.
pub fn check_loopback_format(format: &SampleFormat) -> (r: Result<(), String>)
    ensures
        match r {
            Ok(()) => format is F32 || format is I16,
            Err(message) => (format is U16 || format is Other) && message@ == unsupported_text(
                "loopback"@,
                format_words(*format),
            ),
        },
{
    match format {
        SampleFormat::F32 | SampleFormat::I16 => Ok(()),
        SampleFormat::U16 | SampleFormat::Other(_) => Err(unsupported("loopback", format)),
    }
}

/// What a device records with unless told otherwise.
#[derive(Debug, Clone, PartialEq, Eq)]
pub struct DeviceConfig {
    pub channels: u16,
    pub sample_rate: u32,
    pub format: SampleFormat,
}

/// How a device is to be recorded.
#[derive(Debug, Clone, Copy, PartialEq, Eq, Structural)]
pub struct CapturePlan {
    pub channels: u16,
    pub rate: u32,
    /// Whether blocks have to be resampled to 16 kHz.
    pub resample: bool,
}

/// How the microphone is to be recorded, or why it cannot be: `found` tells
/// whether there is one, `config` what it says it records with, and `ranges` the
/// rates it says it supports.
pub fn plan_mic(
    found: bool,
    config: Option<&DeviceConfig>,
    ranges: Option<&Vec<(u32, u32)>>,
) -> (r: Result<CapturePlan, String>)
    ensures
        match (found, config) {
            (false, _) => r matches Err(message) && message@ == NO_MICROPHONE@,
            (true, None) => r matches Err(message) && message@
                == "the microphone did not report a usable configuration"@,
            (true, Some(c)) => if c.format is Other {
                r matches Err(message) && message@ == unsupported_text(
                    "microphone"@,
                    format_words(c.format),
                )
            } else {
                r matches Ok(plan) && plan.channels == c.channels && (if (ranges matches Some(list)
                    && some_range_holds(list@, SAMPLE_RATE)) {
                    plan.rate == SAMPLE_RATE && !plan.resample
                } else {
                    plan.rate == c.sample_rate && plan.resample
                })
            },
        },
{
    if !found {
        return Err(NO_MICROPHONE.to_owned());
    }
    let config: &DeviceConfig = match config {
        Some(config) => config,
        None => return Err("the microphone did not report a usable configuration".to_owned()),
    };
    let (rate, resample): (u32, bool) = choose_rate(supports_16k(ranges), config.sample_rate);
    match check_mic_format(&config.format) {
        Ok(()) => Ok(CapturePlan { channels: config.channels, rate, resample }),
        Err(message) => Err(message),
    }
}

/// How a loopback device is to be recorded, or why it cannot be: `found` tells
/// whether there is one, and `config` what it says it records with.
pub fn plan_loopback(found: bool, config: Option<&DeviceConfig>) -> (r: Result<CapturePlan, String>)
    ensures
        match (found, config) {
            (false, _) => r matches Err(message) && message@ == NO_LOOPBACK@,
            (true, None) => r matches Err(message) && message@
                == "the loopback device did not report a usable configuration"@,
            (true, Some(c)) => if c.format is F32 || c.format is I16 {
                r matches Ok(plan) && plan == (CapturePlan {
                    channels: c.channels,
                    rate: c.sample_rate,
                    resample: c.sample_rate != SAMPLE_RATE,
                })
            } else {
                r matches Err(message) && message@ == unsupported_text(
                    "loopback"@,
                    format_words(c.format),
                )
            },
        },
{
    if !found {
        return Err(NO_LOOPBACK.to_owned());
    }
    let config: &DeviceConfig = match config {
        Some(config) => config,
        None => return Err("the loopback device did not report a usable configuration".to_owned()),
    };
    match check_loopback_format(&config.format) {
        Ok(()) => Ok(
            CapturePlan {
                channels: config.channels,
                rate: config.sample_rate,
                resample: config.sample_rate != SAMPLE_RATE,
            },
        ),
        Err(message) => Err(message),
    }
}

/// A block that lasted whole seconds was begun that many seconds before it came,
/// and any other no more than a nanosecond off what its frames last at the rate.
pub proof fn law_blocks_begin_before_they_come(elapsed_ns: int, frames: int, rate: u32, seconds: int)
    requires
        rate > 0,
        frames >= 0,
        seconds >= 0,
    ensures
        captured_at(elapsed_ns, seconds * rate, rate) == elapsed_ns - seconds * 1_000_000_000,
        (elapsed_ns - captured_at(elapsed_ns, frames, rate)) * rate <= frames * 1_000_000_000 < (
        elapsed_ns - captured_at(elapsed_ns, frames, rate) + 1) * rate,
{
    let r = rate as int;
    let x = frames * 1_000_000_000;
    assert(seconds * r * 1_000_000_000 / r == seconds * 1_000_000_000) by (nonlinear_arith)
        requires
            r > 0,
    ;
    assert((x / r) * r <= x < (x / r + 1) * r) by (nonlinear_arith)
        requires
            r > 0,
    ;
}

/// A frame has a sample of every channel.
pub proof fn law_frames_are_counted_once(frames: nat, channels: usize, samples: usize)
    requires
        samples == frames * channels,
    ensures
        channels >= 1 ==> frame_count(samples, channels) == frames,
        frame_count(samples, 0) == samples,
{
    if channels >= 1 {
        assert(frames * channels / channels as int == frames) by (nonlinear_arith)
            requires
                channels >= 1,
        ;
    }
}

} // verus!
