//! The GGML model cache: what is on disk, how big it is, and how to get more.
//!
//! The checkpoints live in a directory of their own, and nothing here touches
//! `~/.cache/whisper`, which other programs use.
//!
//! What is fetched, resumed, retried, kept and refused is decided here; the
//! network and the disk are asked by whoever drives it.

use vstd::prelude::*;
use vstd::string::*;

use crate::paths;
use crate::paths::{FilePath, PathView, Place, PlaceView};
use crate::places;
use crate::text;
use crate::transcribe;
use crate::transcribe::MODEL_OPTIONS;

verus! {

/// Where whisper.cpp GGML checkpoints are published.
pub const GGML_REPO_BASE: &'static str = "https://huggingface.co/ggerganov/whisper.cpp/resolve/main";

/// Bytes to move between the socket and the file at a time: a MiB. Large enough
/// that progress is reported a few times a second on a fast link rather than
/// thousands.
pub const DOWNLOAD_CHUNK: usize = 1_048_576;

/// How long to wait for a connection, in seconds.
pub const CONNECT_TIMEOUT_SEC: u64 = 30;

/// How long to wait for response headers, in seconds. Both matter: the server
/// redirects to a CDN that occasionally accepts the connection and then never
/// sends headers.
pub const RESPONSE_TIMEOUT_SEC: u64 = 60;

/// Consecutive attempts that fetch *nothing* before we give up.
///
/// Attempts that make progress don't count against this: the CDN drops these
/// multi-gigabyte transfers regularly, and since each retry resumes with a Range
/// request, a run that keeps gaining ground should be allowed to finish.
pub const FRUITLESS_ATTEMPTS: u64 = 6;

/// Absolute ceiling, so a pathological server cannot spin here forever.
pub const MAX_ATTEMPTS: u64 = 60;

/// Why a model is not on disk.
#[derive(Debug, Clone, PartialEq, Eq)]
pub enum DownloadError {
    /// The user pressed Cancel. The partial file is removed.
    Cancelled,
    Other(String),
}

/// Why a model is not on disk.
#[verifier::ext_equal]
pub enum DownloadErrorView {
    Cancelled,
    Other(Seq<char>),
}

impl View for DownloadError {
    type V = DownloadErrorView;

    open spec fn view(&self) -> DownloadErrorView {
        match self {
            DownloadError::Cancelled => DownloadErrorView::Cancelled,
            DownloadError::Other(message) => DownloadErrorView::Other(message@),
        }
    }
}

impl DownloadErrorView {
    /// What the user is told.
    pub open spec fn words(self) -> Seq<char> {
        match self {
            DownloadErrorView::Cancelled => "download cancelled"@,
            DownloadErrorView::Other(message) => message,
        }
    }
}

impl DownloadError {
    /// What the user is told.
    pub fn message(&self) -> (r: String)
        ensures
            r@ == self@.words(),
    {
        match self {
            DownloadError::Cancelled => "download cancelled".to_owned(),
            DownloadError::Other(message) => message.clone(),
        }
    }
}

// ---------------------------------------------------------------------------
// Names and places
// ---------------------------------------------------------------------------

/// GGML filename for a model name.
pub open spec fn ggml_name(name: Seq<char>) -> Seq<char> {
    "ggml-"@ + name + ".bin"@
}

/// Where checkpoints are kept, given the directory for caches, if the
/// environment names one, and the home directory, if there is one.
pub open spec fn cache_place(xdg: Option<PlaceView>, home: Option<PlaceView>) -> PathView {
    match xdg {
        Some(dir) => if dir.shown.len() > 0 {
            PathView { base: dir, parts: seq!["whisper-cpp"@] }
        } else {
            home_cache_place(home)
        },
        None => home_cache_place(home),
    }
}

/// Where checkpoints are kept under the home directory.
pub open spec fn home_cache_place(home: Option<PlaceView>) -> PathView {
    PathView {
        base: match home {
            Some(dir) => dir,
            None => PlaceView::named("."@),
        },
        parts: seq![".cache"@, "whisper-cpp"@],
    }
}

/// The view of an optional text.
pub open spec fn str_view(s: Option<&str>) -> Option<Seq<char>> {
    match s {
        Some(t) => Some(t@),
        None => None,
    }
}

/// GGML filename for a model name from [`MODEL_OPTIONS`].
pub fn ggml_filename(name: &str) -> (r: String)
    ensures
        r@ == ggml_name(name@),
{
    let mut r: String = "ggml-".to_owned();
    r.append(name);
    r.append(".bin");
    r
}

/// Where checkpoints are kept: `$XDG_CACHE_HOME/whisper-cpp`, else
/// `~/.cache/whisper-cpp`.
pub fn cache_dir_under(xdg: Option<&Place>, home: Option<&Place>) -> (r: FilePath)
    ensures
        r@ == cache_place(paths::place_ref_view(xdg), paths::place_ref_view(home)),
{
    if let Some(dir) = xdg {
        if !dir.shown.as_str().is_empty() {
            let r: FilePath = FilePath::in_place(dir.duplicate()).join("whisper-cpp");
            assert(r@ == cache_place(paths::place_ref_view(xdg), paths::place_ref_view(home)));
            return r;
        }
    }
    let base: Place = match home {
        Some(dir) => dir.duplicate(),
        None => Place::named("."),
    };
    let r: FilePath = FilePath::in_place(base).join(".cache").join("whisper-cpp");
    assert(r@ == home_cache_place(paths::place_ref_view(home)));
    r
}

/// Where checkpoints are kept: `$XDG_CACHE_HOME/whisper-cpp`, else
/// `~/.cache/whisper-cpp`. `xdg` is what the environment says.
pub fn cache_dir(xdg: Option<&Place>) -> (r: FilePath)
    ensures
        exists|home: Option<PlaceView>|
            paths::held_exactly(home) && r@ == #[trigger] cache_place(
                paths::place_ref_view(xdg),
                home,
            ),
{
    let home: Option<Place> = places::home_dir();
    match &home {
        Some(dir) => cache_dir_under(xdg, Some(dir)),
        None => cache_dir_under(xdg, None),
    }
}

/// Where a checkpoint is kept.
pub fn model_path(cache: &FilePath, name: &str) -> (r: FilePath)
    ensures
        r@ == cache@.joined(ggml_name(name@)),
{
    cache.join(ggml_filename(name).as_str())
}

/// Where an in-flight download is written. Renamed into place only when
/// complete, so a cancelled or crashed download can never be mistaken for a
/// usable model.
pub fn partial_path(cache: &FilePath, name: &str) -> (r: FilePath)
    ensures
        r@ == cache@.joined(ggml_name(name@) + ".part"@),
{
    let mut file: String = ggml_filename(name);
    file.append(".part");
    cache.join(file.as_str())
}

/// A download in flight is never mistaken for a usable model, of whichever name.
pub proof fn law_partial_is_no_model(name: Seq<char>, other: Seq<char>)
    ensures
        ggml_name(name) + ".part"@ != ggml_name(other),
{
    reveal_strlit(".part");
    reveal_strlit(".bin");
    let a = ggml_name(name) + ".part"@;
    let b = ggml_name(other);
    if a == b {
        assert(a[a.len() - 1] == 't');
        assert(b[b.len() - 1] == 'n');
    }
}

// ---------------------------------------------------------------------------
// What is on disk
// ---------------------------------------------------------------------------

/// Whether a checkpoint is on disk, of the files in the cache.
pub open spec fn downloaded(name: Seq<char>, files: Seq<Seq<char>>) -> bool {
    files.contains(ggml_name(name))
}

/// Whether a checkpoint is on disk. `files` are the names of the files in the
/// cache.
pub fn is_model_downloaded(name: &str, files: &Vec<String>) -> (r: bool)
    ensures
        r == downloaded(name@, text::views(files@)),
{
    text::contains_name(files, ggml_filename(name).as_str())
}

/// The size of a model's file, of what the disk says of it.
pub fn model_size_on_disk(len: Option<u64>) -> (r: u64)
    ensures
        r == (match len {
            Some(n) => n,
            None => 0,
        }),
{
    match len {
        Some(n) => n,
        None => 0,
    }
}

/// The selectable checkpoints that are on disk.
pub open spec fn downloaded_models(files: Seq<Seq<char>>) -> Seq<Seq<char>> {
    transcribe::model_names().filter(|name: Seq<char>| downloaded(name, files))
}

/// The models from [`MODEL_OPTIONS`] that are actually on disk, in the same
/// fastest-to-most-accurate order the dropdown shows.
///
/// The header dropdown is built from this so that picking a model never stalls
/// on a multi-gigabyte download.
pub fn list_downloaded_models(files: &Vec<String>) -> (r: Vec<String>)
    ensures
        text::views(r@) == downloaded_models(text::views(files@)),
{
    let ghost all = transcribe::model_names();
    let ghost keep = |name: Seq<char>| downloaded(name, text::views(files@));
    let mut r: Vec<String> = Vec::new();
    assert(text::views(r@) == all.take(0).filter(keep)) by {
        reveal(Seq::filter);
    }
    let mut i: usize = 0;
    while i < 5
        invariant
            i <= 5,
            MODEL_OPTIONS@.len() == 5,
            all == transcribe::model_names(),
            keep == (|name: Seq<char>| downloaded(name, text::views(files@))),
            text::views(r@) == all.take(i as int).filter(keep),
        decreases 5 - i,
    {
        let ghost before = text::views(r@);
        proof {
            assert(all.take(i + 1) == all.take(i as int).push(all[i as int]));
            all.take(i as int).lemma_filter_push(all[i as int], keep);
        }
        if is_model_downloaded(MODEL_OPTIONS[i], files) {
            r.push(MODEL_OPTIONS[i].to_owned());
            assert(text::views(r@) == before.push(all[i as int]));
        }
        i += 1;
    }
    assert(all.take(5) == all);
    r
}

/// Whether a checkpoint is one of those that can be fetched.
pub open spec fn selectable(name: Seq<char>) -> bool {
    transcribe::model_names().contains(name)
}

/// Whether a checkpoint is one of those that can be fetched.
pub fn is_selectable(name: &str) -> (r: bool)
    ensures
        r == selectable(name@),
{
    let mut i: usize = 0;
    while i < 5
        invariant
            i <= 5,
            MODEL_OPTIONS@.len() == 5,
            forall|j: int| 0 <= j < i ==> MODEL_OPTIONS@[j]@ != name@,
        decreases 5 - i,
    {
        if text::same(MODEL_OPTIONS[i], name) {
            assert(transcribe::model_names()[i as int] == name@);
            return true;
        }
        i += 1;
    }
    false
}

// ---------------------------------------------------------------------------
// Asking the server
// ---------------------------------------------------------------------------

/// Where a checkpoint is fetched from.
pub open spec fn url_of(name: Seq<char>) -> Seq<char> {
    GGML_REPO_BASE@ + "/"@ + ggml_name(name)
}

/// Where a checkpoint is fetched from.
pub fn remote_url(name: &str) -> (r: String)
    ensures
        r@ == url_of(name@),
{
    let mut r: String = GGML_REPO_BASE.to_owned();
    r.append("/");
    r.append(ggml_filename(name).as_str());
    r
}

/// The number that a header holds, where there is such a header and it holds
/// one.
pub open spec fn header_number(value: Option<Seq<char>>) -> Option<u64> {
    match value {
        Some(s) => text::u64_of(s),
        None => None,
    }
}

/// The total size that a `Content-Range` header speaks of.
pub open spec fn range_total(value: Option<Seq<char>>) -> Option<u64> {
    match value {
        Some(s) => text::u64_of(text::trimmed(text::after_last(s, '/'))),
        None => None,
    }
}

/// The number that a header holds.
pub fn header_u64(value: Option<&str>) -> (r: Option<u64>)
    ensures
        r == header_number(str_view(value)),
{
    match value {
        Some(s) => text::parse_u64(s),
        None => None,
    }
}

/// Size of a model on the server, for showing "1.5 GB" before committing, of the
/// `Content-Length` that a HEAD request for [`remote_url`] is answered with.
///
/// `None` when the server does not say; the UI should then show the download as
/// indeterminate rather than inventing a number.
pub fn remote_size(content_length: Option<&str>) -> (r: Option<u64>)
    ensures
        r == header_number(str_view(content_length)),
{
    header_u64(content_length)
}

/// Total size out of a `Content-Range: bytes 100-1599/1600` header.
pub fn total_from_content_range(value: Option<&str>) -> (r: Option<u64>)
    ensures
        r == range_total(str_view(value)),
{
    match value {
        Some(s) => text::parse_u64(text::trim(text::behind_last(s, '/').as_str()).as_str()),
        None => None,
    }
}

/// The `Range` header to ask with when `already` bytes are on disk: the rest,
/// and none when there is nothing yet.
pub fn range_header(already: u64) -> (r: Option<String>)
    ensures
        match r {
            Some(value) => already > 0 && value@ == "bytes="@ + text::decimal_of(already as nat)
                + "-"@,
            None => already == 0,
        },
{
    if already > 0 {
        let mut value: String = "bytes=".to_owned();
        value.append(text::decimal(already).as_str());
        value.append("-");
        Some(value)
    } else {
        None
    }
}

/// What becomes of a response's body: whether it is appended to the partial file
/// or starts it anew, whether a stale partial file is removed first, how many
/// bytes the file starts with, and how many it should have in the end (0 when
/// the server does not say).
#[derive(Debug, Clone, Copy, PartialEq, Eq, Structural)]
pub struct BodyPlan {
    pub append: bool,
    pub remove_stale: bool,
    pub already: u64,
    pub total: u64,
}

/// A number, and 0 for none.
pub open spec fn or_zero(n: Option<u64>) -> u64 {
    match n {
        Some(value) => value,
        None => 0,
    }
}

fn number_or_zero(n: Option<u64>) -> (r: u64)
    ensures
        r == or_zero(n),
{
    match n {
        Some(value) => value,
        None => 0,
    }
}

/// Whether a response holds the rest of a file rather than all of it.
pub open spec fn honours_range(status: u16) -> bool {
    status == 206
}

/// The partial file once a response's body has been written to it.
pub open spec fn file_after(status: u16, on_disk: Seq<u8>, body: Seq<u8>) -> Seq<u8> {
    if honours_range(status) {
        on_disk + body
    } else {
        body
    }
}

/// Whether the server sends the rest or the whole file again, the partial file
/// becomes the file on the server, with no byte missing and none twice.
pub proof fn law_resuming_makes_it_whole(status: u16, remote: Seq<u8>, already: int, body: Seq<u8>)
    requires
        0 <= already <= remote.len(),
        body == (if honours_range(status) {
            remote.skip(already)
        } else {
            remote
        }),
    ensures
        file_after(status, remote.take(already), body) == remote,
{
    assert(remote.take(already) + remote.skip(already) == remote);
}

/// What becomes of a response's body, when `already` bytes are on disk.
pub open spec fn planned(
    status: u16,
    already: u64,
    content_length: Option<Seq<char>>,
    content_range: Option<Seq<char>>,
) -> BodyPlan {
    if status == 206 {
        BodyPlan {
            append: true,
            remove_stale: false,
            already,
            total: or_zero(range_total(content_range)),
        }
    } else {
        BodyPlan {
            append: false,
            remove_stale: already > 0,
            already: 0,
            total: or_zero(header_number(content_length)),
        }
    }
}

/// A body is put behind what is on disk exactly where the server answers with the
/// part that was asked for, 206. Whichever way it comes, a file of `size` bytes is
/// whole once it has that many: the bytes it starts with and those that the server
/// sends are as many as are expected in the end.
pub proof fn law_only_a_part_is_put_behind_what_is_there(
    status: u16,
    already: u64,
    size: u64,
    range: Seq<char>,
)
    requires
        already <= size,
    ensures
        ({
            let part = planned(
                status,
                already,
                Some(text::decimal_of((size - already) as nat)),
                Some(range + seq!['/'] + text::decimal_of(size as nat)),
            );
            let whole = planned(status, already, Some(text::decimal_of(size as nat)), None);
            &&& honours_range(status) <==> status == 206
            &&& status == 206 ==> part.append && !part.remove_stale && part.already == already
                && part.total == size && part.already + (size - already) == part.total
            &&& status != 206 ==> !whole.append && (whole.remove_stale <==> already > 0)
                && whole.already == 0 && whole.total == size
        }),
{
    law_sizes_are_read(size, range);
}

/// What becomes of a response's body, when `already` bytes are on disk.
///
/// 206 means the server honoured the Range. Anything else (a 200) means it sent
/// the whole file, so the bytes already there would be duplicated.
pub fn plan_body(
    status: u16,
    already: u64,
    content_length: Option<&str>,
    content_range: Option<&str>,
) -> (r: BodyPlan)
    ensures
        r.append == honours_range(status),
        r == planned(status, already, str_view(content_length), str_view(content_range)),
{
    if status == 206 {
        BodyPlan {
            append: true,
            remove_stale: false,
            already,
            total: number_or_zero(total_from_content_range(content_range)),
        }
    } else {
        BodyPlan {
            append: false,
            remove_stale: already > 0,
            already: 0,
            total: number_or_zero(header_u64(content_length)),
        }
    }
}

// ---------------------------------------------------------------------------
// One transfer
// ---------------------------------------------------------------------------

/// A response's body on its way into the partial file. The numbers describe the
/// file rather than this attempt.
#[derive(Debug, Clone, Copy, PartialEq, Eq, Structural)]
pub struct Transfer {
    pub downloaded: u64,
    pub total: u64,
}

/// What the user is told where a download ended early.
pub open spec fn truncated_text(downloaded: nat, total: nat) -> Seq<char> {
    "download truncated: got "@ + text::decimal_of(downloaded) + " of "@ + text::decimal_of(total)
        + " bytes"@
}

/// What a transfer does when it is looked at between two pieces.
#[derive(Debug, Clone, Copy, PartialEq, Eq, Structural)]
pub enum TransferStep {
    /// Read the next piece, and hand it to [`Transfer::received`].
    Read,
    /// Stop: the user pressed Cancel.
    Cancelled,
}

impl Transfer {
    /// A transfer of a body, as planned.
    pub fn begin(plan: &BodyPlan) -> (r: Self)
        ensures
            r.downloaded == plan.already,
            r.total == plan.total,
    {
        Transfer { downloaded: plan.already, total: plan.total }
    }

    /// What to do next. Cancelling is looked at before every piece, so a user who
    /// started a 1.5 GB download by accident is not stuck waiting for it.
    pub fn next(&self, cancelled: bool) -> (r: TransferStep)
        ensures
            r == (if cancelled {
                TransferStep::Cancelled
            } else {
                TransferStep::Read
            }),
    {
        if cancelled {
            TransferStep::Cancelled
        } else {
            TransferStep::Read
        }
    }

    /// Count a piece of `count` bytes that has been written to the file; an empty
    /// one is the end. Says whether the transfer goes on, in which case
    /// `downloaded` and `total` are to be reported.
    pub fn received(&mut self, count: usize) -> (r: bool)
        requires
            old(self).downloaded + count <= u64::MAX,
        ensures
            final(self).downloaded == old(self).downloaded + count,
            final(self).total == old(self).total,
            r == (count > 0),
    {
        self.downloaded = self.downloaded + count as u64;
        count > 0
    }

    /// The verdict once the body has ended: whole, where the server said how long
    /// it is and that is how much there is, or where it did not say.
    pub fn finish(&self) -> (r: Result<(), DownloadError>)
        ensures
            match r {
                Ok(()) => self.total == 0 || self.downloaded == self.total,
                Err(error) => self.total > 0 && self.downloaded != self.total && error@
                    == DownloadErrorView::Other(
                    truncated_text(self.downloaded as nat, self.total as nat),
                ),
            },
    {
        if self.total > 0 && self.downloaded != self.total {
            let mut message: String = "download truncated: got ".to_owned();
            message.append(text::decimal(self.downloaded).as_str());
            message.append(" of ");
            message.append(text::decimal(self.total).as_str());
            message.append(" bytes");
            return Err(DownloadError::Other(message));
        }
        Ok(())
    }
}

// ---------------------------------------------------------------------------
// Attempts
// ---------------------------------------------------------------------------

/// How getting a model begins.
#[derive(Debug, Clone, PartialEq, Eq)]
pub enum DownloadBegin {
    /// It is on disk already.
    Have,
    /// It is none that can be fetched.
    Refuse(DownloadError),
    /// It is to be fetched.
    Fetch(Attempts),
}

/// Which attempt is under way, and how many before it in a row have fetched
/// nothing.
#[derive(Debug, Clone, Copy, PartialEq, Eq, Structural)]
pub struct Attempts {
    attempt: u64,
    fruitless: u64,
}

/// How one attempt ended.
#[derive(Debug, Clone, PartialEq, Eq)]
pub enum FetchOutcome {
    Done,
    Failed(DownloadError),
}

/// What follows an attempt.
#[derive(Debug, Clone, PartialEq, Eq)]
pub enum DownloadStep {
    /// The file is whole: rename it into place.
    Install,
    /// Remove the partial file: a half-model is only confusing.
    Discard,
    /// Try again after this many seconds.
    Retry { wait_sec: u64 },
    /// Give up. The partial file is *kept*: it is a resumable cache, and
    /// discarding a gigabyte of successfully transferred data because the last
    /// stretch failed is the wrong trade.
    Fail(DownloadError),
}

/// What the user is told of a model that cannot be fetched.
pub open spec fn unknown_text(name: Seq<char>) -> Seq<char> {
    "unknown model '"@ + name + "'"@
}

/// What the user is told where a download failed for good, with `kept` bytes of
/// it on disk.
pub open spec fn failed_text(name: Seq<char>, message: Seq<char>, kept: nat) -> Seq<char> {
    if kept > 0 {
        "downloaded "@ + text::decimal_of(kept / 1_000_000) + " MB of '"@ + name
            + "' before failing; it is kept and will resume on the next attempt"@
    } else {
        message
    }
}

/// How getting a model begins, given whether it is on disk.
pub fn begin_download(name: &str, on_disk: bool) -> (r: DownloadBegin)
    ensures
        match r {
            DownloadBegin::Have => on_disk,
            DownloadBegin::Refuse(error) => !on_disk && !selectable(name@) && error@
                == DownloadErrorView::Other(unknown_text(name@)),
            DownloadBegin::Fetch(attempts) => !on_disk && selectable(name@) && attempts.wf()
                && attempts.tried() == 1 && attempts.in_vain() == 0,
        },
{
    if on_disk {
        return DownloadBegin::Have;
    }
    if !is_selectable(name) {
        let mut message: String = "unknown model '".to_owned();
        message.append(name);
        message.append("'");
        return DownloadBegin::Refuse(DownloadError::Other(message));
    }
    DownloadBegin::Fetch(Attempts { attempt: 1, fruitless: 0 })
}

impl Attempts {
    /// Which attempt is under way, the first being 1.
    pub closed spec fn tried(self) -> nat {
        self.attempt as nat
    }

    /// How many attempts in a row have fetched nothing.
    pub closed spec fn in_vain(self) -> nat {
        self.fruitless as nat
    }

    /// Whether there may be such an attempt at all.
    pub open spec fn wf(self) -> bool {
        1 <= self.tried() <= MAX_ATTEMPTS && self.in_vain() < FRUITLESS_ATTEMPTS
    }

    /// How many attempts in a row have fetched nothing once this one has failed,
    /// `before` and `after` being the partial file's size around it.
    pub open spec fn vain_after(self, before: nat, after: nat) -> nat {
        if after > before {
            0
        } else {
            self.in_vain() + 1
        }
    }

    /// Whether a failed attempt is the last.
    pub open spec fn is_last(self, before: nat, after: nat) -> bool {
        self.vain_after(before, after) >= FRUITLESS_ATTEMPTS || self.tried() == MAX_ATTEMPTS
    }

    /// What follows an attempt, `before` and `after` being the partial file's
    /// size around it.
    pub fn step(&mut self, name: &str, outcome: FetchOutcome, before: u64, after: u64) -> (r:
        DownloadStep)
        requires
            old(self).wf(),
        ensures
            final(self).wf(),
            match outcome {
                FetchOutcome::Done => r == DownloadStep::Install,
                FetchOutcome::Failed(error) => match error@ {
                    DownloadErrorView::Cancelled => r == DownloadStep::Discard,
                    DownloadErrorView::Other(message) => match r {
                        DownloadStep::Retry { wait_sec } => {
                            &&& !old(self).is_last(before as nat, after as nat)
                            &&& final(self).tried() == old(self).tried() + 1
                            &&& final(self).in_vain() == old(self).vain_after(
                                before as nat,
                                after as nat,
                            )
                            &&& wait_sec == (if final(self).in_vain() > 0 {
                                2 * final(self).in_vain()
                            } else {
                                2
                            })
                        },
                        DownloadStep::Fail(last) => old(self).is_last(before as nat, after as nat)
                            && last@ == DownloadErrorView::Other(
                            failed_text(name@, message, after as nat),
                        ),
                        _ => false,
                    },
                },
            },
            !(r is Retry) ==> *final(self) == *old(self),
    {
        let message: String = match outcome {
            FetchOutcome::Done => return DownloadStep::Install,
            FetchOutcome::Failed(DownloadError::Cancelled) => return DownloadStep::Discard,
            FetchOutcome::Failed(DownloadError::Other(message)) => message,
        };
        let fruitless: u64 = if after > before {
            0
        } else {
            self.fruitless + 1
        };
        if fruitless >= FRUITLESS_ATTEMPTS || self.attempt == MAX_ATTEMPTS {
            if after > 0 {
                let mut kept: String = "downloaded ".to_owned();
                kept.append(text::decimal(after / 1_000_000).as_str());
                kept.append(" MB of '");
                kept.append(name);
                kept.append("' before failing; it is kept and will resume on the next attempt");
                return DownloadStep::Fail(DownloadError::Other(kept));
            }
            return DownloadStep::Fail(DownloadError::Other(message));
        }
        self.fruitless = fruitless;
        self.attempt = self.attempt + 1;
        let wait_sec: u64 = if fruitless > 0 {
            2 * fruitless
        } else {
            2
        };
        DownloadStep::Retry { wait_sec }
    }
}

/// An attempt that gained ground is followed by another, short of the ceiling,
/// however many before it were in vain.
pub proof fn law_gaining_ground_goes_on(attempts: Attempts, before: nat, after: nat)
    requires
        attempts.wf(),
        after > before,
        attempts.tried() < MAX_ATTEMPTS,
    ensures
        !attempts.is_last(before, after),
        attempts.vain_after(before, after) == 0,
{
}

/// As many attempts in a row as are allowed without a byte gained are the end of
/// it, and so is the last attempt there may be.
pub proof fn law_attempts_end(attempts: Attempts, before: nat, after: nat)
    requires
        attempts.wf(),
        (after <= before && attempts.in_vain() + 1 == FRUITLESS_ATTEMPTS) || attempts.tried()
            == MAX_ATTEMPTS,
    ensures
        attempts.is_last(before, after),
{
}

/// What a server says of a size is the size: a length as it is written out, and
/// the total of a range behind its last slash, whatever the range.
pub proof fn law_sizes_are_read(size: u64, range: Seq<char>)
    ensures
        header_number(Some(text::decimal_of(size as nat))) == Some(size),
        range_total(Some(range + seq!['/'] + text::decimal_of(size as nat))) == Some(size),
        header_number(None) is None,
        range_total(None) is None,
{
    let digits = text::decimal_of(size as nat);
    text::law_numbers_read_back(size);
    text::lemma_decimal(size as nat);
    assert forall|i: int| 0 <= i < digits.len() implies digits[i] != '/' by {
        assert(text::is_digit(digits[i]));
    }
    text::law_what_follows_the_last(range, digits, '/');
    assert(text::is_digit(digits[0]));
    assert(text::is_digit(digits[digits.len() - 1]));
    text::lemma_trim_tight(digits);
}

/// Giving up comes with the sixth attempt in a row that gains no byte, or the
/// sixtieth in all, and no sooner.
pub proof fn law_when_to_give_up(attempts: Attempts, before: nat, after: nat)
    requires
        attempts.wf(),
    ensures
        attempts.is_last(before, after) <==> attempts.tried() == 60 || (after <= before
            && attempts.in_vain() + 1 >= 6),
{
}

} // verus!
