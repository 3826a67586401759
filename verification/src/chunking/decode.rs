//! Getting 16 kHz mono PCM out of an audio file, a range at a time.
//!
//! The decoding itself is ffmpeg's:
//!
//! * Decoding `[start, start+duration)` with `-ss`/`-t` keeps memory flat
//!   regardless of recording length, which is the whole reason a four-hour file
//!   works at all.
//! * ffmpeg covers every format the app advertises, opus and wma among them.
//!
//! Here stands what it is asked, and what becomes of its answer.

use vstd::prelude::*;
use vstd::string::*;

use crate::paths::{FilePath, PathView};
use crate::text;
use crate::SAMPLE_RATE;

verus! {

/// What the user is told where ffmpeg cannot be started at all.
pub const FFMPEG_MISSING: &'static str = "ffmpeg could not be run. Install it with `brew install ffmpeg` (macOS) or `apt-get install ffmpeg` (Debian/Ubuntu).";

// ---------------------------------------------------------------------------
// Which ffmpeg
// ---------------------------------------------------------------------------

/// Where a decoder program is to be started from.
#[derive(Debug, Clone, PartialEq, Eq)]
pub enum ToolPlace {
    At(FilePath),
    OnPath,
}

/// Where a decoder program is, if not on the `PATH`.
pub open spec fn tool_at(
    name: Seq<char>,
    override_dir: Option<PathView>,
    exe_dir: Option<PathView>,
    beside_exe: bool,
) -> Option<PathView> {
    match (override_dir, exe_dir) {
        (Some(dir), _) => Some(dir.joined(name)),
        (None, Some(dir)) => if beside_exe {
            Some(dir.joined(name))
        } else {
            None
        },
        (None, None) => None,
    }
}

/// What an optional path is made of.
pub open spec fn dir_view(dir: Option<&FilePath>) -> Option<PathView> {
    match dir {
        Some(d) => Some(d@),
        None => None,
    }
}

/// Which `name` to start: the one in `override_dir`, if the user gave such a
/// directory; else the one bundled next to the executable, if there is one
/// (`beside_exe`); else whatever the `PATH` has.
pub fn find_tool(
    name: &str,
    override_dir: Option<&FilePath>,
    exe_dir: Option<&FilePath>,
    beside_exe: bool,
) -> (r: ToolPlace)
    ensures
        match r {
            ToolPlace::At(path) => Some(path@) == tool_at(
                name@,
                dir_view(override_dir),
                dir_view(exe_dir),
                beside_exe,
            ),
            ToolPlace::OnPath => tool_at(
                name@,
                dir_view(override_dir),
                dir_view(exe_dir),
                beside_exe,
            ) is None,
        },
{
    match (override_dir, exe_dir) {
        (Some(dir), _) => ToolPlace::At(dir.join(name)),
        (None, Some(dir)) => if beside_exe {
            ToolPlace::At(dir.join(name))
        } else {
            ToolPlace::OnPath
        },
        (None, None) => ToolPlace::OnPath,
    }
}

// ---------------------------------------------------------------------------
// The command line
// ---------------------------------------------------------------------------

/// The millisecond nearest to a time, the even one of two that are equally near,
/// and none below zero.
pub open spec fn nearest_ms(ns: int) -> nat {
    if ns <= 0 {
        0
    } else {
        let whole = ns / 1_000_000;
        let rest = ns % 1_000_000;
        if rest > 500_000 || (rest == 500_000 && whole % 2 == 1) {
            (whole + 1) as nat
        } else {
            whole as nat
        }
    }
}

/// A number below a thousand, with three digits.
pub open spec fn pad3_of(n: nat) -> Seq<char> {
    seq![text::digit(n / 100), text::digit(n / 10 % 10), text::digit(n % 10)]
}

/// A time in seconds, with three digits behind the point.
pub open spec fn millis_text(ns: int) -> Seq<char> {
    text::decimal_of(nearest_ms(ns) / 1000) + seq!['.'] + pad3_of(nearest_ms(ns) % 1000)
}

/// The options that stand before the source.
pub open spec fn input_args(start_ns: int, len_ns: int) -> Seq<Seq<char>> {
    seq![
        "-nostdin"@,
        "-threads"@,
        "0"@,
        "-ss"@,
        millis_text(start_ns),
        "-t"@,
        millis_text(len_ns),
        "-i"@,
    ]
}

/// The options that stand behind the source.
pub open spec fn output_args() -> Seq<Seq<char>> {
    seq![
        "-f"@,
        "s16le"@,
        "-ac"@,
        "1"@,
        "-acodec"@,
        "pcm_s16le"@,
        "-ar"@,
        text::decimal_of(SAMPLE_RATE as nat),
        "-"@,
    ]
}

/// A time in seconds, with three digits behind the point.
pub fn format_millis(ns: i64) -> (r: String)
    ensures
        r@ == millis_text(ns as int),
{
    let ms: u64 = if ns <= 0 {
        0
    } else {
        let whole: u64 = (ns / 1_000_000) as u64;
        let rest: u64 = (ns % 1_000_000) as u64;
        if rest > 500_000 || (rest == 500_000 && whole % 2 == 1) {
            whole + 1
        } else {
            whole
        }
    };
    let part: u64 = ms % 1000;
    let mut r: String = text::decimal(ms / 1000);
    r.push('.');
    r.push((48u8 + (part / 100) as u8) as char);
    r.push((48u8 + (part / 10 % 10) as u8) as char);
    r.push((48u8 + (part % 10) as u8) as char);
    assert(r@ == millis_text(ns as int));
    r
}

/// What ffmpeg is asked to decode `len_ns` from `start_ns` on as mono 16 kHz
/// 16-bit PCM: the options before the source, and those behind it.
pub fn decode_args(start_ns: i64, len_ns: i64) -> (r: (Vec<String>, Vec<String>))
    ensures
        text::views(r.0@) == input_args(start_ns as int, len_ns as int),
        text::views(r.1@) == output_args(),
{
    let mut before: Vec<String> = Vec::new();
    before.push("-nostdin".to_owned());
    before.push("-threads".to_owned());
    before.push("0".to_owned());
    before.push("-ss".to_owned());
    before.push(format_millis(start_ns));
    before.push("-t".to_owned());
    before.push(format_millis(len_ns));
    before.push("-i".to_owned());
    assert(text::views(before@) == input_args(start_ns as int, len_ns as int));
    let mut behind: Vec<String> = Vec::new();
    behind.push("-f".to_owned());
    behind.push("s16le".to_owned());
    behind.push("-ac".to_owned());
    behind.push("1".to_owned());
    behind.push("-acodec".to_owned());
    behind.push("pcm_s16le".to_owned());
    behind.push("-ar".to_owned());
    behind.push(text::decimal(SAMPLE_RATE as u64));
    behind.push("-".to_owned());
    assert(text::views(behind@) == output_args());
    (before, behind)
}

// ---------------------------------------------------------------------------
// The answer
// ---------------------------------------------------------------------------

/// The last of the lines that says anything, or `otherwise` where none does.
pub open spec fn last_words(lines: Seq<Seq<char>>, otherwise: Seq<char>) -> Seq<char>
    decreases lines.len(),
{
    if lines.len() == 0 {
        otherwise
    } else if !text::blank(lines.last()) {
        lines.last()
    } else {
        last_words(lines.drop_last(), otherwise)
    }
}

/// What the user is told where decoding failed.
pub open spec fn failure_text(name: Seq<char>, stderr: Seq<char>) -> Seq<char> {
    "ffmpeg failed to decode "@ + name + ": "@ + last_words(
        text::lines_of(stderr),
        "unknown ffmpeg error"@,
    )
}

/// What the user is told where ffmpeg failed on the file `name`: its last line
/// is the one that says what went wrong; the rest is banner noise.
pub fn decode_failure(name: &str, stderr: &str) -> (r: String)
    ensures
        r@ == failure_text(name@, stderr@),
{
    let lines: Vec<String> = text::lines(stderr);
    let mut r: String = "ffmpeg failed to decode ".to_owned();
    r.append(name);
    r.append(": ");
    let ghost said = r@;
    let ghost all = text::views(lines@);
    let mut n: usize = lines.len();
    assert(all.take(n as int) == all);
    while n > 0
        invariant
            n <= lines@.len(),
            all == text::views(lines@),
            all == text::lines_of(stderr@),
            r@ == said,
            said == "ffmpeg failed to decode "@ + name@ + ": "@,
            last_words(all.take(n as int), "unknown ffmpeg error"@) == last_words(
                all,
                "unknown ffmpeg error"@,
            ),
        decreases n,
    {
        assert(all.take(n as int).drop_last() == all.take(n - 1));
        assert(all.take(n as int).last() == lines@[n - 1]@);
        if !text::is_blank(lines[n - 1].as_str()) {
            r.append(lines[n - 1].as_str());
            return r;
        }
        n -= 1;
    }
    r.append("unknown ffmpeg error");
    r
}

/// The number that two bytes, the lower one first, stand for.
pub open spec fn le16(low: u8, high: u8) -> int {
    let n = low + 256 * high;
    if n >= 32768 {
        n - 65536
    } else {
        n
    }
}

/// Interpret raw little-endian signed 16-bit PCM. A byte left over at the end is
/// ignored.
pub fn pcm_s16le(bytes: &[u8]) -> (r: Vec<i16>)
    ensures
        r@.len() == bytes@.len() / 2,
        forall|i: int| 0 <= i < r@.len() ==> #[trigger] r@[i] == le16(bytes@[2 * i], bytes@[2 * i + 1]),
{
    let count: usize = bytes.len() / 2;
    let mut r: Vec<i16> = Vec::new();
    let mut i: usize = 0;
    while i < count
        invariant
            count == bytes@.len() / 2,
            bytes@.len() <= usize::MAX,
            i <= count,
            r@.len() == i,
            forall|j: int| 0 <= j < i ==> #[trigger] r@[j] == le16(bytes@[2 * j], bytes@[2 * j + 1]),
        decreases count - i,
    {
        let n: i32 = bytes[2 * i] as i32 + 256 * bytes[2 * i + 1] as i32;
        let sample: i32 = if n >= 32768 {
            n - 65536
        } else {
            n
        };
        r.push(sample as i16);
        i += 1;
    }
    r
}

/// How long a recording is, of what was found out about it: a length that is not
/// positive is as good as none. None is not fatal: the chunk loop also stops
/// when a decode comes back with nothing but a sliver.
pub fn known_duration(found_ns: Option<i64>) -> (r: Option<i64>)
    ensures
        r == (match found_ns {
            Some(ns) => if ns > 0 {
                Some(ns)
            } else {
                None
            },
            None => None,
        }),
{
    match found_ns {
        Some(ns) if ns > 0 => Some(ns),
        _ => None,
    }
}

/// A time is asked for to the nearest millisecond; of two that are as near, the
/// even one.
pub proof fn law_nearest_millisecond(ns: int)
    requires
        ns >= 0,
    ensures
        -500_000 <= nearest_ms(ns) * 1_000_000 - ns <= 500_000,
        (nearest_ms(ns) * 1_000_000 - ns == 500_000 || nearest_ms(ns) * 1_000_000 - ns == -500_000)
            ==> nearest_ms(ns) % 2 == 0,
        nearest_ms(-ns) == 0,
{
}

/// The reason for a failure is the last line that says anything, however many blank
/// ones follow it.
pub proof fn law_the_last_words_count(lines: Seq<Seq<char>>, k: int, otherwise: Seq<char>)
    requires
        -1 <= k,
        forall|i: int| k < i < lines.len() ==> text::blank(#[trigger] lines[i]),
    ensures
        0 <= k < lines.len() && !text::blank(lines[k]) ==> last_words(lines, otherwise) == lines[k],
        k < 0 ==> last_words(lines, otherwise) == otherwise,
    decreases lines.len(),
{
    if lines.len() > 0 && k < lines.len() - 1 {
        let front = lines.drop_last();
        assert(text::blank(lines[lines.len() - 1]));
        assert forall|i: int| k < i < front.len() implies text::blank(#[trigger] front[i]) by {
            assert(front[i] == lines[i]);
        }
        law_the_last_words_count(front, k, otherwise);
    }
}

/// Two bytes, the lower one first, are worth the sample they came from.
pub proof fn law_two_bytes_are_a_sample(low: u8, high: u8)
    ensures
        -32_768 <= le16(low, high) <= 32_767,
        (le16(low, high) - low - 256 * high) % 65_536 == 0,
{
}

/// A time is written in seconds, with a point and three digits behind it: without
/// the point it is the number of its milliseconds.
pub proof fn law_times_are_written_to_the_millisecond(ns: int)
    ensures
        ({
            let t = millis_text(ns);
            &&& t.len() >= 5
            &&& t[t.len() - 4] == '.'
            &&& text::value_of(t.take(t.len() - 4) + t.skip(t.len() - 3)) == nearest_ms(ns)
        }),
{
    let ms = nearest_ms(ns);
    let front = text::decimal_of(ms / 1000);
    let part = ms % 1000;
    let t = millis_text(ns);
    text::lemma_decimal(ms / 1000);
    let one = front.push(text::digit(part / 100));
    let two = one.push(text::digit(part / 10 % 10));
    text::lemma_one_more_digit(front, part / 100);
    text::lemma_one_more_digit(one, part / 10 % 10);
    text::lemma_one_more_digit(two, part % 10);
    assert(t.take(t.len() - 4) + t.skip(t.len() - 3) == two.push(text::digit(part % 10)));
}

} // verus!
