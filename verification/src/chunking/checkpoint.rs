//! Resume state: where to continue, and how much of the transcript to trust.
//!
//! The durability rule here is the reason a one-hour meeting can survive a
//! crash, a power loss, or Stop:
//!
//! 1. A chunk's text is appended and **fsynced**.
//! 2. Only then is the checkpoint written, atomically, recording the file's new
//!    size in `text_bytes`.
//!
//! A crash between the two leaves a tail past `text_bytes`.
//! [`resume_or_restart`] truncates to `text_bytes` and redoes that chunk, so
//! recovery never yields a duplicated or half-written line. `recovery` proves it.

use vstd::prelude::*;
use vstd::string::*;

use crate::paths;
use crate::paths::{FilePath, PathView};
use crate::text;

verus! {

/// The version of the checkpoint's wire format and of the engines behind it: a
/// checkpoint that carries another is never resumed into, before its fingerprint
/// even gets a chance to disagree.
pub const CHECKPOINT_VERSION: u32 = 4;

pub const TRANSCRIPT_SUFFIX: &'static str = "txt";

/// How a transcript's time stamp is written: it sorts by time.
pub const STAMP_FORMAT: &'static str = "%Y%m%d-%H%M%S";

/// Where to resume, and how much of the transcript file is trustworthy.
#[derive(Debug, Clone, PartialEq, Eq)]
pub struct Checkpoint {
    pub fingerprint: String,
    pub next_start_ns: i64,
    pub chunks_done: usize,
    /// The size the transcript had after the last fully written chunk. Anything
    /// past it is the debris of a chunk interrupted mid-write.
    pub text_bytes: u64,
    /// The file that text lives in: a bare name, so moving the recording and its
    /// transcript together doesn't break resuming.
    pub transcript_name: String,
}

/// What a checkpoint says.
#[verifier::ext_equal]
pub struct CheckpointView {
    pub fingerprint: Seq<char>,
    pub next_start_ns: int,
    pub chunks_done: nat,
    pub text_bytes: nat,
    pub transcript_name: Seq<char>,
}

impl View for Checkpoint {
    type V = CheckpointView;

    open spec fn view(&self) -> CheckpointView {
        CheckpointView {
            fingerprint: self.fingerprint@,
            next_start_ns: self.next_start_ns as int,
            chunks_done: self.chunks_done as nat,
            text_bytes: self.text_bytes as nat,
            transcript_name: self.transcript_name@,
        }
    }
}

/// What an optional checkpoint says.
pub open spec fn checkpoint_of(state: Option<Checkpoint>) -> Option<CheckpointView> {
    match state {
        Some(s) => Some(s@),
        None => None,
    }
}

impl Checkpoint {
    /// Another checkpoint that says the same.
    pub fn duplicate(&self) -> (r: Self)
        ensures
            r@ == self@,
    {
        Checkpoint {
            fingerprint: self.fingerprint.clone(),
            next_start_ns: self.next_start_ns,
            chunks_done: self.chunks_done,
            text_bytes: self.text_bytes,
            transcript_name: self.transcript_name.clone(),
        }
    }
}

/// What is actually on disk. Kept separate from [`Checkpoint`] so the wire
/// format is explicit and versioned rather than implied by field order.
#[derive(Debug, Clone, PartialEq, Eq)]
pub struct CheckpointRecord {
    pub version: u32,
    pub duration_ns: Option<i64>,
    pub state: Checkpoint,
}

/// What is on disk, as far as resuming looks at it.
#[verifier::ext_equal]
pub struct RecordView {
    pub version: u32,
    pub state: CheckpointView,
}

impl View for CheckpointRecord {
    type V = RecordView;

    open spec fn view(&self) -> RecordView {
        RecordView { version: self.version, state: self.state@ }
    }
}

/// What an optional record says.
pub open spec fn record_of(record: Option<CheckpointRecord>) -> Option<RecordView> {
    match record {
        Some(r) => Some(r@),
        None => None,
    }
}

// ---------------------------------------------------------------------------
// Where the files are
// ---------------------------------------------------------------------------

/// `<name>.transcript.partial.json`, alongside the audio.
pub open spec fn checkpoint_place(source: PathView) -> PathView {
    source.renamed(source.stem() + ".transcript.partial.json"@)
}

/// The file that a new checkpoint is written to before it takes the place of the
/// old one.
pub open spec fn tmp_place(path: PathView) -> PathView {
    path.renamed(
        (match path.name() {
            Some(name) => name,
            None => Seq::empty(),
        }) + ".tmp"@,
    )
}

/// `<stamp>-<recording>.txt`, alongside the audio.
pub open spec fn transcript_place(source: PathView, stamp: Seq<char>) -> PathView {
    source.renamed(stamp + "-"@ + source.stem() + "."@ + TRANSCRIPT_SUFFIX@)
}

/// `<name>.transcript.partial.json`, alongside the audio.
pub fn checkpoint_path(source: &FilePath) -> (r: FilePath)
    ensures
        r@ == checkpoint_place(source@),
{
    let mut name: String = source.stem();
    name.append(".transcript.partial.json");
    source.with_file_name(name.as_str())
}

/// The file that a new checkpoint is written to before it takes the place of the
/// old one.
pub fn tmp_path(path: &FilePath) -> (r: FilePath)
    ensures
        r@ == tmp_place(path@),
{
    let mut name: String = match path.file_name() {
        Some(name) => name,
        None => String::new(),
    };
    name.append(".tmp");
    path.with_file_name(name.as_str())
}

/// A date and a time of day, as a calendar and a clock on the wall show them.
pub struct Moment {
    pub year: nat,
    pub month: nat,
    pub day: nat,
    pub hour: nat,
    pub minute: nat,
    pub second: nat,
}

/// How many leap years there are from year 1 on, `year` the last of them to be
/// counted.
pub open spec fn leap_years(year: int) -> int {
    year / 4 - year / 100 + year / 400
}

/// How many days a month has.
pub open spec fn month_len(year: nat, month: nat) -> nat {
    if month == 2 {
        (28 + leap_years(year as int) - leap_years(year - 1)) as nat
    } else if month == 4 || month == 6 || month == 9 || month == 11 {
        30
    } else {
        31
    }
}

/// How many days of a year are over when a month of it begins.
pub open spec fn days_before_month(year: nat, month: nat) -> nat
    decreases month,
{
    if month <= 1 {
        0
    } else {
        days_before_month(year, (month - 1) as nat) + month_len(year, (month - 1) as nat)
    }
}

impl Moment {
    /// How many days after 1970 began the moment's day is.
    pub open spec fn days_since_1970(self) -> int {
        365 * (self.year - 1970) + leap_years(self.year - 1) - leap_years(1969)
            + days_before_month(self.year, self.month) + self.day - 1
    }

    /// How many seconds after 1970 began, by the same calendar and clock, the
    /// moment's minute begins.
    pub open spec fn begins_at(self) -> int {
        self.days_since_1970() * 86_400 + self.hour * 3600 + self.minute * 60
    }

    /// Whether there may be such a moment. A leap second is a minute's second 60.
    pub open spec fn wf(self) -> bool {
        &&& 1 <= self.month <= 12
        &&& 1 <= self.day <= month_len(self.year, self.month)
        &&& self.hour <= 23
        &&& self.minute <= 59
        &&& self.second <= 60
    }
}

/// A year in four digits, and behind a plus sign where it takes more.
pub open spec fn year_text(year: nat) -> Seq<char> {
    if year <= 9999 {
        seq![
            text::digit(year / 1000),
            text::digit(year / 100 % 10),
            text::digit(year / 10 % 10),
            text::digit(year % 10),
        ]
    } else {
        seq!['+'] + text::decimal_of(year)
    }
}

/// A moment as [`STAMP_FORMAT`] writes it: the year, the month and the day, then
/// the time of day.
pub open spec fn stamp_text(at: Moment) -> Seq<char> {
    year_text(at.year) + text::pad2_of(at.month) + text::pad2_of(at.day) + seq!['-']
        + text::pad2_of(at.hour) + text::pad2_of(at.minute) + text::pad2_of(at.second)
}

/// Whether a text is the stamp of some moment.
pub open spec fn is_stamp(s: Seq<char>) -> bool {
    exists|at: Moment| at.wf() && s == #[trigger] stamp_text(at)
}

/// `chrono::Local::now` and `DateTime::format`: the time by this machine's clock
/// and time zone, written as the format says. Which moment that is, the clock
/// says, and nothing is claimed of it; whichever it is, the year is zero-padded to
/// four digits, with a sign where it has more, and month, day, hour, minute and
/// second to two each. The format is the one that is known to be valid, since an
/// invalid one would make the formatting panic. A clock that is set to before 1970
/// makes it panic too, and no argument can rule that out.
#[verifier::external_body]
fn local_time(format: &str) -> (r: String)
    requires
        format@ == STAMP_FORMAT@,
    ensures
        is_stamp(r@),
{
    chrono::Local::now().format(format).to_string()
}

/// The stamp of this moment.
pub(crate) fn stamp_now() -> (r: String)
    ensures
        is_stamp(r@),
{
    local_time(STAMP_FORMAT)
}

/// Transcript location under a given stamp: next to the audio it came from.
pub fn transcript_path_at(source: &FilePath, stamp: &str) -> (r: FilePath)
    ensures
        r@ == transcript_place(source@, stamp@),
{
    let mut name: String = stamp.to_owned();
    name.append("-");
    name.append(source.stem().as_str());
    name.append(".");
    name.append(TRANSCRIPT_SUFFIX);
    source.with_file_name(name.as_str())
}

/// Final transcript location: next to the audio it came from.
///
/// Named `<when>-<recording>.txt`, where `when` is the local time the
/// transcription started: first, so a folder of transcripts sorts
/// chronologically. Re-running a recording therefore keeps the earlier
/// transcript instead of overwriting it.
pub fn transcript_path_for(source: &FilePath, stamp: Option<&str>) -> (r: FilePath)
    ensures
        match stamp {
            Some(s) => r@ == transcript_place(source@, s@),
            None => exists|s: Seq<char>|
                is_stamp(s) && r@ == #[trigger] transcript_place(source@, s),
        },
{
    match stamp {
        Some(s) => transcript_path_at(source, s),
        None => transcript_path_at(source, stamp_now().as_str()),
    }
}

/// Transcribing a recording again at another time keeps the earlier transcript
/// instead of overwriting it.
pub proof fn law_another_run_keeps_the_earlier_transcript(
    source: PathView,
    earlier: Seq<char>,
    later: Seq<char>,
)
    requires
        earlier != later,
    ensures
        transcript_place(source, earlier) != transcript_place(source, later),
{
    let rest = "-"@ + source.stem() + "."@ + TRANSCRIPT_SUFFIX@;
    let a = earlier + "-"@ + source.stem() + "."@ + TRANSCRIPT_SUFFIX@;
    let b = later + "-"@ + source.stem() + "."@ + TRANSCRIPT_SUFFIX@;
    if transcript_place(source, earlier) == transcript_place(source, later) {
        assert(transcript_place(source, earlier).parts.last() == a);
        assert(transcript_place(source, later).parts.last() == b);
        assert(a == earlier + rest);
        assert(b == later + rest);
        assert(a.take(a.len() - rest.len()) == earlier);
        assert(b.take(b.len() - rest.len()) == later);
    }
}

/// The transcript, the checkpoint and what a checkpoint is written to first are
/// never the same file.
pub proof fn law_files_of_a_run_are_apart(source: PathView, stamp: Seq<char>)
    ensures
        transcript_place(source, stamp) != checkpoint_place(source),
        transcript_place(source, stamp) != tmp_place(checkpoint_place(source)),
        checkpoint_place(source) != tmp_place(checkpoint_place(source)),
{
    reveal_strlit("txt");
    reveal_strlit(".transcript.partial.json");
    reveal_strlit(".tmp");
    let transcript = transcript_place(source, stamp).parts.last();
    let checkpoint = checkpoint_place(source).parts.last();
    let tmp = tmp_place(checkpoint_place(source)).parts.last();
    assert(transcript == stamp + "-"@ + source.stem() + "."@ + TRANSCRIPT_SUFFIX@);
    assert(checkpoint == source.stem() + ".transcript.partial.json"@);
    assert(tmp == checkpoint + ".tmp"@);
    assert(transcript.last() == 't');
    assert(checkpoint.last() == 'n');
    assert(tmp.last() == 'p');
}

// ---------------------------------------------------------------------------
// Fingerprints
// ---------------------------------------------------------------------------

/// Ten, `k` times multiplied with itself.
pub open spec fn pow10(k: nat) -> nat
    decreases k,
{
    if k == 0 {
        1
    } else {
        10 * pow10((k - 1) as nat)
    }
}

/// The digits behind the point of `n` units of which `pow10(k)` make one, none
/// where only zeros would follow.
pub open spec fn fraction_of(n: nat, k: nat) -> Seq<char>
    decreases k,
{
    if n == 0 || k == 0 {
        Seq::empty()
    } else {
        let unit = pow10((k - 1) as nat);
        seq![text::digit(n / unit)] + fraction_of(n % unit, (k - 1) as nat)
    }
}

/// A number of nanoseconds in seconds, without a point where they are whole.
pub open spec fn seconds_text(ns: int) -> Seq<char> {
    let size = if ns < 0 {
        (-ns) as nat
    } else {
        ns as nat
    };
    let sign = if ns < 0 {
        seq!['-']
    } else {
        Seq::empty()
    };
    let whole = sign + text::decimal_of(size / 1_000_000_000);
    if size % 1_000_000_000 == 0 {
        whole
    } else {
        whole + seq!['.'] + fraction_of(size % 1_000_000_000, 9)
    }
}

/// Identity of "this file transcribed this way".
pub open spec fn fingerprint_of(len: nat, mtime_ns: nat, engine_key: Seq<char>, chunk_ns: int) -> Seq<
    char,
> {
    text::decimal_of(len) + ":"@ + text::decimal_of(mtime_ns) + ":"@ + engine_key + ":"@
        + seconds_text(chunk_ns)
}

/// Renders the chunk size so that the fingerprint reads `300` rather than
/// `300.0` for the default.
pub fn format_chunk_sec(chunk_ns: i64) -> (r: String)
    ensures
        r@ == seconds_text(chunk_ns as int),
{
    let size: u64 = if chunk_ns < 0 {
        (-(chunk_ns as i128)) as u64
    } else {
        chunk_ns as u64
    };
    let mut r: String = String::new();
    if chunk_ns < 0 {
        r.push('-');
    }
    assert(r@ == (if chunk_ns < 0 {
        seq!['-']
    } else {
        Seq::empty()
    }));
    r.append(text::decimal(size / 1_000_000_000).as_str());
    let ghost whole = r@;
    let mut rest: u64 = size % 1_000_000_000;
    if rest != 0 {
        r.push('.');
        let ghost part = rest as nat;
        let ghost mut k: nat = 9;
        let mut unit: u64 = 100_000_000;
        assert(unit == pow10(8) && pow10(9) == 1_000_000_000) by {
            reveal_with_fuel(pow10, 10);
        }
        assert(whole + seq!['.'] == r@);
        while rest != 0
            invariant
                0 <= k <= 9,
                rest < pow10(k),
                k > 0 ==> unit == pow10((k - 1) as nat),
                pow10(k) <= 1_000_000_000,
                whole + seq!['.'] + fraction_of(part, 9) == r@ + fraction_of(rest as nat, k),
            decreases k,
        {
            proof {
                assert(k > 0);
                assert(pow10(k) == 10 * unit);
            }
            let ghost before = r@;
            let ghost rest_before = rest as nat;
            let d: u64 = rest / unit;
            assert(d < 10) by (nonlinear_arith)
                requires
                    d == rest / unit,
                    unit > 0,
                    rest < 10 * unit,
            ;
            r.push((48u8 + d as u8) as char);
            rest = rest % unit;
            proof {
                assert(fraction_of(rest_before, k) == seq![text::digit(d as nat)] + fraction_of(
                    rest as nat,
                    (k - 1) as nat,
                ));
                assert(r@ == before + seq![text::digit(d as nat)]);
                assert(before + (seq![text::digit(d as nat)] + fraction_of(
                    rest as nat,
                    (k - 1) as nat,
                )) == r@ + fraction_of(rest as nat, (k - 1) as nat));
                k = (k - 1) as nat;
            }
            unit = unit / 10;
        }
        assert(r@ + fraction_of(0, k) == r@);
    }
    r
}

/// When a file was last changed, taken as never where it does not say.
pub open spec fn changed_at(mtime_ns: Option<u128>) -> nat {
    match mtime_ns {
        Some(ns) => ns as nat,
        None => 0,
    }
}

/// Identity of "this file transcribed this way", from the file's length and the
/// time of its last change.
///
/// Any change to the audio file, the engine/model, the language or the chunk
/// size makes an existing checkpoint meaningless, so it is discarded rather than
/// merged into a transcript produced with different settings.
pub fn source_fingerprint(len: u64, mtime_ns: Option<u128>, engine_key: &str, chunk_ns: i64) -> (r:
    String)
    ensures
        r@ == fingerprint_of(len as nat, changed_at(mtime_ns), engine_key@, chunk_ns as int),
{
    let changed: u128 = match mtime_ns {
        Some(ns) => ns,
        None => 0,
    };
    let mut r: String = text::decimal(len);
    r.append(":");
    r.append(text::decimal_wide(changed).as_str());
    r.append(":");
    r.append(engine_key);
    r.append(":");
    r.append(format_chunk_sec(chunk_ns).as_str());
    r
}

proof fn lemma_digits_free(s: Seq<char>, c: char)
    requires
        text::all_digits(s),
        !text::is_digit(c),
    ensures
        text::free_of(s, c),
{
    assert forall|i: int| 0 <= i < s.len() implies s[i] != c by {
        assert(text::is_digit(s[i]));
    }
}

proof fn lemma_pow10_positive(k: nat)
    ensures
        pow10(k) > 0,
    decreases k,
{
    if k > 0 {
        lemma_pow10_positive((k - 1) as nat);
    }
}

proof fn lemma_leading_digit(n: nat, k: nat)
    requires
        k > 0,
        n < pow10(k),
    ensures
        n / pow10((k - 1) as nat) < 10,
        n % pow10((k - 1) as nat) < pow10((k - 1) as nat),
        n == n / pow10((k - 1) as nat) * pow10((k - 1) as nat) + n % pow10((k - 1) as nat),
{
    let unit = pow10((k - 1) as nat);
    lemma_pow10_positive((k - 1) as nat);
    assert(n / unit < 10 && n % unit < unit && n == n / unit * unit + n % unit) by (nonlinear_arith)
        requires
            unit > 0,
            n < 10 * unit,
    ;
}

proof fn lemma_fraction_digits(n: nat, k: nat)
    requires
        n < pow10(k),
    ensures
        text::all_digits(fraction_of(n, k)),
        n > 0 ==> fraction_of(n, k).len() > 0,
    decreases k,
{
    if n > 0 && k > 0 {
        let unit = pow10((k - 1) as nat);
        lemma_leading_digit(n, k);
        lemma_fraction_digits(n % unit, (k - 1) as nat);
        assert(text::digit(n / unit) as u32 == 48 + n / unit);
        assert(text::is_digit(text::digit(n / unit)));
    }
}

proof fn lemma_fraction_injective(a: nat, b: nat, k: nat)
    requires
        a < pow10(k),
        b < pow10(k),
        fraction_of(a, k) == fraction_of(b, k),
    ensures
        a == b,
    decreases k,
{
    lemma_fraction_digits(a, k);
    lemma_fraction_digits(b, k);
    if a > 0 && k > 0 {
        let unit = pow10((k - 1) as nat);
        let rest_a = fraction_of(a % unit, (k - 1) as nat);
        let rest_b = fraction_of(b % unit, (k - 1) as nat);
        lemma_leading_digit(a, k);
        lemma_leading_digit(b, k);
        assert(b > 0);
        assert(fraction_of(a, k)[0] == text::digit(a / unit));
        assert(fraction_of(b, k)[0] == text::digit(b / unit));
        assert(text::digit(a / unit) as u32 == 48 + a / unit);
        assert(text::digit(b / unit) as u32 == 48 + b / unit);
        assert(rest_a == fraction_of(a, k).skip(1));
        assert(rest_b == fraction_of(b, k).skip(1));
        lemma_fraction_injective(a % unit, b % unit, (k - 1) as nat);
    }
}

/// The digits of a number of seconds, without its sign.
spec fn unsigned_text(size: nat) -> Seq<char> {
    if size % 1_000_000_000 == 0 {
        text::decimal_of(size / 1_000_000_000)
    } else {
        text::decimal_of(size / 1_000_000_000) + seq!['.'] + fraction_of(size % 1_000_000_000, 9)
    }
}

proof fn lemma_unsigned_text(a: nat)
    ensures
        unsigned_text(a).len() > 0,
        text::is_digit(unsigned_text(a)[0]),
        text::free_of(unsigned_text(a), ':'),
        size_text_parts(a),
{
    let whole = a / 1_000_000_000;
    let part = a % 1_000_000_000;
    text::lemma_decimal(whole);
    assert(pow10(9) == 1_000_000_000) by {
        reveal_with_fuel(pow10, 10);
    }
    lemma_fraction_digits(part, 9);
    lemma_digits_free(text::decimal_of(whole), ':');
    lemma_digits_free(text::decimal_of(whole), '.');
    lemma_digits_free(fraction_of(part, 9), ':');
    assert(text::is_digit(text::decimal_of(whole)[0]));
    assert(unsigned_text(a)[0] == text::decimal_of(whole)[0]);
}

/// What is known of the two parts of a number of seconds.
spec fn size_text_parts(a: nat) -> bool {
    &&& text::free_of(text::decimal_of(a / 1_000_000_000), '.')
    &&& a % 1_000_000_000 > 0 ==> fraction_of(a % 1_000_000_000, 9).len() > 0
    &&& a % 1_000_000_000 < pow10(9)
}

proof fn lemma_unsigned_text_injective(a: nat, b: nat)
    requires
        unsigned_text(a) == unsigned_text(b),
    ensures
        a == b,
{
    lemma_unsigned_text(a);
    lemma_unsigned_text(b);
    let whole_a = text::decimal_of(a / 1_000_000_000);
    let whole_b = text::decimal_of(b / 1_000_000_000);
    let part_a = fraction_of(a % 1_000_000_000, 9);
    let part_b = fraction_of(b % 1_000_000_000, 9);
    if a % 1_000_000_000 == 0 && b % 1_000_000_000 == 0 {
    } else if a % 1_000_000_000 == 0 {
        assert(unsigned_text(b)[whole_b.len() as int] == '.');
        assert(whole_a[whole_b.len() as int] == '.');
    } else if b % 1_000_000_000 == 0 {
        assert(unsigned_text(a)[whole_a.len() as int] == '.');
        assert(whole_b[whole_a.len() as int] == '.');
    } else {
        text::lemma_split_first(whole_a, part_a, whole_b, part_b, '.');
        lemma_fraction_injective(a % 1_000_000_000, b % 1_000_000_000, 9);
    }
    text::lemma_decimal_injective(a / 1_000_000_000, b / 1_000_000_000);
}

/// Different chunk sizes are written differently, and none with a colon.
proof fn lemma_seconds_text(a: int, b: int)
    ensures
        text::free_of(seconds_text(a), ':'),
        seconds_text(a) == seconds_text(b) ==> a == b,
{
    let size_a = if a < 0 {
        (-a) as nat
    } else {
        a as nat
    };
    let size_b = if b < 0 {
        (-b) as nat
    } else {
        b as nat
    };
    lemma_unsigned_text(size_a);
    lemma_unsigned_text(size_b);
    assert(seconds_text(a) == (if a < 0 {
        seq!['-'] + unsigned_text(size_a)
    } else {
        unsigned_text(size_a)
    }));
    assert(seconds_text(b) == (if b < 0 {
        seq!['-'] + unsigned_text(size_b)
    } else {
        unsigned_text(size_b)
    }));
    assert(a < 0 ==> unsigned_text(size_a) == seconds_text(a).skip(1));
    assert(b < 0 ==> unsigned_text(size_b) == seconds_text(b).skip(1));
    if seconds_text(a) == seconds_text(b) {
        assert(a < 0 ==> seconds_text(a)[0] == '-');
        assert(b < 0 ==> seconds_text(b)[0] == '-');
        lemma_unsigned_text_injective(size_a, size_b);
    }
}

/// Two runs have the same fingerprint only where the file's length and time of
/// change, the engine and the chunk size are all the same: switching any of them
/// restarts instead of resuming.
pub proof fn law_fingerprint_tells_runs_apart(
    len: (nat, nat),
    mtime_ns: (nat, nat),
    engine_key: (Seq<char>, Seq<char>),
    chunk_ns: (int, int),
)
    requires
        fingerprint_of(len.0, mtime_ns.0, engine_key.0, chunk_ns.0) == fingerprint_of(
            len.1,
            mtime_ns.1,
            engine_key.1,
            chunk_ns.1,
        ),
    ensures
        len.0 == len.1,
        mtime_ns.0 == mtime_ns.1,
        engine_key.0 == engine_key.1,
        chunk_ns.0 == chunk_ns.1,
{
    reveal_strlit(":");
    assert(":"@ == seq![':']);
    let a = text::decimal_of(len.0);
    let b = text::decimal_of(len.1);
    let c = text::decimal_of(mtime_ns.0);
    let d = text::decimal_of(mtime_ns.1);
    let e = seconds_text(chunk_ns.0);
    let f = seconds_text(chunk_ns.1);
    text::lemma_decimal(len.0);
    text::lemma_decimal(len.1);
    text::lemma_decimal(mtime_ns.0);
    text::lemma_decimal(mtime_ns.1);
    lemma_digits_free(a, ':');
    lemma_digits_free(b, ':');
    lemma_digits_free(c, ':');
    lemma_digits_free(d, ':');
    lemma_seconds_text(chunk_ns.0, chunk_ns.1);
    lemma_seconds_text(chunk_ns.1, chunk_ns.0);
    let after_len_a = c + seq![':'] + (engine_key.0 + seq![':'] + e);
    let after_len_b = d + seq![':'] + (engine_key.1 + seq![':'] + f);
    assert(fingerprint_of(len.0, mtime_ns.0, engine_key.0, chunk_ns.0) == a + seq![':']
        + after_len_a);
    assert(fingerprint_of(len.1, mtime_ns.1, engine_key.1, chunk_ns.1) == b + seq![':']
        + after_len_b);
    text::lemma_split_first(a, after_len_a, b, after_len_b, ':');
    text::lemma_split_first(c, engine_key.0 + seq![':'] + e, d, engine_key.1 + seq![':'] + f, ':');
    text::lemma_split_last(engine_key.0, e, engine_key.1, f, ':');
    text::lemma_decimal_injective(len.0, len.1);
    text::lemma_decimal_injective(mtime_ns.0, mtime_ns.1);
}

// ---------------------------------------------------------------------------
// Reading and writing the checkpoint
// ---------------------------------------------------------------------------

/// The checkpoint to resume from, of what was read from disk: none where nothing
/// could be read, where it is of another version, or of another run.
pub open spec fn usable(record: Option<RecordView>, fingerprint: Seq<char>) -> Option<CheckpointView> {
    match record {
        Some(r) => if r.version == CHECKPOINT_VERSION && r.state.fingerprint == fingerprint {
            Some(r.state)
        } else {
            None
        },
        None => None,
    }
}

/// What is written to disk for a checkpoint.
pub open spec fn written(state: CheckpointView) -> RecordView {
    RecordView { version: CHECKPOINT_VERSION, state }
}

/// A resumable checkpoint, or `None` if absent, stale, or corrupt. `record` is
/// what reading the checkpoint's file gave, nothing where there is none or it
/// does not parse.
///
/// A truncated or garbled checkpoint is worth less than the time it would cost
/// to debug: redo the file rather than emit a corrupt transcript.
pub fn load_checkpoint(record: Option<CheckpointRecord>, fingerprint: &str) -> (r: Option<Checkpoint>)
    ensures
        checkpoint_of(r) == usable(record_of(record), fingerprint@),
{
    match record {
        Some(data) => {
            if data.version != CHECKPOINT_VERSION || !text::same(
                data.state.fingerprint.as_str(),
                fingerprint,
            ) {
                None
            } else {
                Some(data.state)
            }
        },
        None => None,
    }
}

/// How to put a checkpoint on disk: write `record` to `tmp`, flush it to the
/// disk, and rename `tmp` to `path`. The rename is what makes this atomic.
#[derive(Debug, Clone, PartialEq, Eq)]
pub struct SavePlan {
    pub record: CheckpointRecord,
    pub tmp: FilePath,
    pub path: FilePath,
}

/// What to put on disk for a checkpoint, and where.
pub fn save_checkpoint(source: &FilePath, checkpoint: &Checkpoint, duration_ns: Option<i64>) -> (r:
    SavePlan)
    ensures
        r.record@ == written(checkpoint@),
        r.record.duration_ns == duration_ns,
        r.path@ == checkpoint_place(source@),
        r.tmp@ == tmp_place(checkpoint_place(source@)),
{
    let path: FilePath = checkpoint_path(source);
    let tmp: FilePath = tmp_path(&path);
    SavePlan {
        record: CheckpointRecord {
            version: CHECKPOINT_VERSION,
            duration_ns,
            state: checkpoint.duplicate(),
        },
        tmp,
        path,
    }
}

/// A checkpoint that was saved is the one that is loaded, by a run with the same
/// fingerprint and by no other.
pub proof fn law_load_gives_back_what_was_saved(state: CheckpointView, fingerprint: Seq<char>)
    ensures
        usable(Some(written(state)), state.fingerprint) == Some(state),
        fingerprint != state.fingerprint ==> usable(Some(written(state)), fingerprint) is None,
{
}

/// The files to remove so that no checkpoint is left: the checkpoint itself, and
/// what an interrupted save may have left behind. A leftover is harmless, since
/// the fingerprint or the version will reject it.
pub fn clear_checkpoint(source: &FilePath) -> (r: (FilePath, FilePath))
    ensures
        r.0@ == checkpoint_place(source@),
        r.1@ == tmp_place(checkpoint_place(source@)),
{
    let path: FilePath = checkpoint_path(source);
    let tmp: FilePath = tmp_path(&path);
    (path, tmp)
}

// ---------------------------------------------------------------------------
// Resuming
// ---------------------------------------------------------------------------

/// Where the transcript stands that a usable checkpoint speaks of.
pub open spec fn started_place(source: PathView, state: Option<CheckpointView>) -> Option<PathView> {
    match state {
        Some(s) => if s.chunks_done > 0 && s.transcript_name.len() > 0 {
            Some(source.renamed(s.transcript_name))
        } else {
            None
        },
        None => None,
    }
}

/// What an optional path is made of.
pub open spec fn place_of(path: Option<FilePath>) -> Option<PathView> {
    match path {
        Some(p) => Some(p@),
        None => None,
    }
}

/// The transcript that an earlier run started, where the checkpoint speaks of
/// one.
pub fn started_transcript(source: &FilePath, state: &Option<Checkpoint>) -> (r: Option<FilePath>)
    ensures
        place_of(r) == started_place(source@, checkpoint_of(*state)),
{
    match state {
        Some(s) => {
            if s.chunks_done > 0 && !s.transcript_name.as_str().is_empty() {
                Some(source.with_file_name(s.transcript_name.as_str()))
            } else {
                None
            }
        },
        None => None,
    }
}

/// The transcript file this run will write: the one that an earlier run
/// `started`, if it still `exists`, and one with a fresh stamp otherwise.
///
/// A run that resumes has to append to the file the earlier run started, not
/// mint a fresh stamp; otherwise the checkpoint would describe text that is not
/// in the file, and the run would silently restart from silence.
pub fn resolve_transcript_path(source: &FilePath, started: Option<FilePath>, exists: bool) -> (r:
    FilePath)
    ensures
        match place_of(started) {
            Some(place) => exists ==> r@ == place,
            None => true,
        },
        started is None || !exists ==> exists|stamp: Seq<char>|
            is_stamp(stamp) && r@ == #[trigger] transcript_place(source@, stamp),
{
    match started {
        Some(path) => {
            if exists {
                return path;
            }
        },
        None => {},
    }
    transcript_path_for(source, None)
}

/// How a run begins: `Resume` cuts the transcript back to `state.text_bytes`
/// bytes; `Restart` removes the checkpoint and empties the transcript.
#[derive(Debug, Clone, PartialEq, Eq)]
pub enum ResumePlan {
    Resume { state: Checkpoint },
    Restart { state: Checkpoint },
}

/// How a run begins, and where it continues.
#[verifier::ext_equal]
pub struct ResumeView {
    pub resumes: bool,
    pub state: CheckpointView,
}

impl View for ResumePlan {
    type V = ResumeView;

    open spec fn view(&self) -> ResumeView {
        match self {
            ResumePlan::Resume { state } => ResumeView { resumes: true, state: state@ },
            ResumePlan::Restart { state } => ResumeView { resumes: false, state: state@ },
        }
    }
}

/// The state of a run that has done nothing yet.
pub open spec fn from_silence(fingerprint: Seq<char>, transcript_name: Seq<char>) -> CheckpointView {
    CheckpointView { fingerprint, next_start_ns: 0, chunks_done: 0, text_bytes: 0, transcript_name }
}

/// How to begin: a usable checkpoint with something done is resumed if the
/// transcript holds at least the text it speaks of, and everything else starts
/// over. The transcript is called `name` from then on.
pub open spec fn beginning(
    state: Option<CheckpointView>,
    transcript_len: Option<nat>,
    fingerprint: Seq<char>,
    name: Seq<char>,
) -> ResumeView {
    match (state, transcript_len) {
        (Some(s), Some(len)) => if s.chunks_done > 0 && len >= s.text_bytes {
            ResumeView { resumes: true, state: CheckpointView { transcript_name: name, ..s } }
        } else {
            ResumeView { resumes: false, state: from_silence(fingerprint, name) }
        },
        _ => ResumeView { resumes: false, state: from_silence(fingerprint, name) },
    }
}

/// The name of the file that a path leads to, and nothing where it has none.
pub open spec fn bare_name(path: PathView) -> Seq<char> {
    match path.name() {
        Some(name) => name,
        None => Seq::empty(),
    }
}

/// A length as a natural number.
pub open spec fn len_of(len: Option<u64>) -> Option<nat> {
    match len {
        Some(n) => Some(n as nat),
        None => None,
    }
}

/// Say where this run starts and what becomes of the transcript file, which is
/// `transcript_len` bytes long, if it is there at all.
///
/// Resuming trims the transcript back to the last checkpointed chunk. If the
/// transcript is missing or shorter than the checkpoint claims (deleted or
/// edited between runs), the checkpoint is meaningless and the file starts over
/// from silence rather than resuming into a gap.
pub fn resume_or_restart(
    state: Option<Checkpoint>,
    out_path: &FilePath,
    transcript_len: Option<u64>,
    fingerprint: &str,
) -> (r: ResumePlan)
    ensures
        r@ == beginning(
            checkpoint_of(state),
            len_of(transcript_len),
            fingerprint@,
            bare_name(out_path@),
        ),
{
    let name: String = match out_path.file_name() {
        Some(name) => name,
        None => String::new(),
    };
    match (state, transcript_len) {
        (Some(s), Some(len)) if s.chunks_done > 0 && len >= s.text_bytes => ResumePlan::Resume {
            state: Checkpoint {
                fingerprint: s.fingerprint,
                next_start_ns: s.next_start_ns,
                chunks_done: s.chunks_done,
                text_bytes: s.text_bytes,
                transcript_name: name,
            },
        },
        _ => ResumePlan::Restart {
            state: Checkpoint {
                fingerprint: fingerprint.to_owned(),
                next_start_ns: 0,
                chunks_done: 0,
                text_bytes: 0,
                transcript_name: name,
            },
        },
    }
}

/// How much audio a usable checkpoint says is done, in nanoseconds; none without
/// one.
///
/// Used only to tell the user "resuming at 25:00" before work restarts.
pub fn resumable_seconds(state: &Option<Checkpoint>) -> (r: i64)
    ensures
        r == match checkpoint_of(*state) {
            Some(s) => s.next_start_ns,
            None => 0,
        },
{
    match state {
        Some(s) => s.next_start_ns,
        None => 0,
    }
}

// ---------------------------------------------------------------------------
// What resuming keeps
// ---------------------------------------------------------------------------

/// A run that stopped after at least one chunk is gone on with in the file it
/// began, next to the recording; one that has done nothing begins a new one. A
/// checkpoint of another version than 4 is never gone on with.
pub proof fn law_a_stopped_run_is_gone_on_with(
    source: PathView,
    state: CheckpointView,
    version: u32,
    len: nat,
)
    ensures
        state.chunks_done >= 1 && state.transcript_name.len() > 0 ==> started_place(
            source,
            Some(state),
        ) == Some(source.renamed(state.transcript_name)) && bare_name(
            source.renamed(state.transcript_name),
        ) == state.transcript_name,
        state.chunks_done == 0 || state.transcript_name.len() == 0 ==> started_place(
            source,
            Some(state),
        ) is None,
        version != 4 ==> usable(Some(RecordView { version, state }), state.fingerprint) is None,
        version == 4 ==> usable(Some(RecordView { version, state }), state.fingerprint) == Some(
            state,
        ),
        state.chunks_done >= 1 && len >= state.text_bytes ==> beginning(
            Some(state),
            Some(len),
            state.fingerprint,
            state.transcript_name,
        ) == (ResumeView { resumes: true, state }),
        state.chunks_done == 0 || len < state.text_bytes ==> ({
            let begun = beginning(
                Some(state),
                Some(len),
                state.fingerprint,
                state.transcript_name,
            );
            &&& !begun.resumes
            &&& begun.state.next_start_ns == 0
            &&& begun.state.chunks_done == 0
            &&& begun.state.text_bytes == 0
            &&& begun.state.fingerprint == state.fingerprint
            &&& begun.state.transcript_name == state.transcript_name
        }),
{
}

/// The calendar is the one in use: 1970 begins on day 0, every day is followed by
/// the next, over the ends of months and years, and February has 29 days in the
/// years that four divides, but for those that a hundred divides and four hundred
/// does not.
pub proof fn law_calendar(at: Moment)
    requires
        at.wf(),
    ensures
        at.year == 1970 && at.month == 1 ==> at.days_since_1970() == at.day - 1,
        month_len(at.year, 2) == (if at.year % 4 == 0 && (at.year % 100 != 0 || at.year % 400 == 0) {
            29nat
        } else {
            28nat
        }),
        month_len(at.year, at.month) == (if at.month == 2 {
            month_len(at.year, 2)
        } else if at.month == 4 || at.month == 6 || at.month == 9 || at.month == 11 {
            30nat
        } else {
            31nat
        }),
        at.day < month_len(at.year, at.month) ==> (Moment {
            day: at.day + 1,
            ..at
        }).days_since_1970() == at.days_since_1970() + 1,
        at.day == month_len(at.year, at.month) && at.month < 12 ==> (Moment {
            month: at.month + 1,
            day: 1,
            ..at
        }).days_since_1970() == at.days_since_1970() + 1,
        at.day == 31 && at.month == 12 ==> (Moment {
            year: at.year + 1,
            month: 1,
            day: 1,
            ..at
        }).days_since_1970() == at.days_since_1970() + 1,
        at.begins_at() == at.days_since_1970() * 86_400 + at.hour * 3_600 + at.minute * 60,
{
    reveal_with_fuel(days_before_month, 13);
    let y = at.year as int;
    assert(y / 4 - (y - 1) / 4 == (if y % 4 == 0 {
        1int
    } else {
        0int
    }));
    assert(y / 100 - (y - 1) / 100 == (if y % 100 == 0 {
        1int
    } else {
        0int
    }));
    assert(y / 400 - (y - 1) / 400 == (if y % 400 == 0 {
        1int
    } else {
        0int
    }));
    assert(days_before_month(at.year, 12) + 31 == 365 + leap_years(y) - leap_years(y - 1));
}

/// A year is written as the number it is, in four digits as long as those do.
pub proof fn law_years_are_numbers(year: nat)
    ensures
        year <= 9999 ==> year_text(year).len() == 4 && text::all_digits(year_text(year))
            && text::value_of(year_text(year)) == year,
        year > 9999 ==> year_text(year)[0] == '+' && text::value_of(year_text(year).skip(1)) == year,
{
    if year <= 9999 {
        let none = Seq::<char>::empty();
        let one = none.push(text::digit(year / 1000));
        let two = one.push(text::digit(year / 100 % 10));
        let three = two.push(text::digit(year / 10 % 10));
        text::lemma_one_more_digit(none, year / 1000);
        text::lemma_one_more_digit(one, year / 100 % 10);
        text::lemma_one_more_digit(two, year / 10 % 10);
        text::lemma_one_more_digit(three, year % 10);
        assert(year_text(year) == three.push(text::digit(year % 10)));
        assert(text::value_of(none) == 0);
    } else {
        text::lemma_decimal(year);
        assert(year_text(year).skip(1) == text::decimal_of(year));
    }
}

} // verus!
