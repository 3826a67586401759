//! The machine's own output: the "Meeting" side.
//!
//! Everyone other than you arrives as *playback*, where an ordinary input device
//! can't reach it. Two backends can, and they are tried in this order:
//!
//! 1. **ScreenCaptureKit** (macOS 13+): taps the system mix directly. Needs the
//!    Screen Recording permission.
//! 2. **A loopback input device**: BlackHole, Loopback, VB-Audio and friends. The
//!    fallback for an older macOS, Linux, Windows, or a denied permission.
//!
//! The rule that matters is **report, don't raise**: if the meeting side can't be
//! recorded, the microphone still can, so a failure here becomes a warning on the
//! recording rather than an error that loses the take. A meeting is not
//! repeatable, and half a recording beats none.

use vstd::prelude::*;
use vstd::string::*;

use crate::text;

verus! {

/// Substrings of device names that are loopback devices rather than real inputs,
/// in small letters.
pub const LOOPBACK_NAMES: [&'static str; 7] = [
    "blackhole",
    "soundflower",
    "loopback",
    "vb-audio",
    "cable output",
    "stereo mix",
    "monitor of",
];

/// What the user is told where no loopback device is installed.
pub const NO_LOOPBACK: &'static str = "No loopback audio device was found. Install BlackHole (or similar) and route playback through it to record the meeting side.";

/// What the user is told where there is no display to capture from.
pub const NO_DISPLAY: &'static str = "no display was available to capture audio from";

/// Which backend took the meeting side, for the UI to show.
#[derive(Debug, Clone, Copy, PartialEq, Eq, Structural)]
pub enum SystemBackend {
    ScreenCaptureKit,
    LoopbackDevice,
}

impl SystemBackend {
    /// What the UI says of a backend.
    pub open spec fn words(self) -> Seq<char> {
        match self {
            SystemBackend::ScreenCaptureKit => "macOS system audio (ScreenCaptureKit)"@,
            SystemBackend::LoopbackDevice => "system audio via a loopback input device"@,
        }
    }

    pub fn description(self) -> (r: &'static str)
        ensures
            r@ == self.words(),
    {
        match self {
            SystemBackend::ScreenCaptureKit => "macOS system audio (ScreenCaptureKit)",
            SystemBackend::LoopbackDevice => "system audio via a loopback input device",
        }
    }
}

/// Which backend to try. `Auto` is what the UI uses.
#[derive(Debug, Clone, Copy, PartialEq, Eq, Structural)]
pub enum Prefer {
    Auto,
    ScreenCaptureKit,
    Loopback,
}

impl Default for Prefer {
    fn default() -> (r: Self)
        ensures
            r == Prefer::Auto,
    {
        Prefer::Auto
    }
}

// ---------------------------------------------------------------------------
// Loopback devices
// ---------------------------------------------------------------------------

/// A text in small letters, by Unicode's rules.
pub uninterp spec fn lowercase_of(s: Seq<char>) -> Seq<char>;

/// Whether every character of a text is one of ASCII's.
pub open spec fn ascii(s: Seq<char>) -> bool {
    forall|i: int| 0 <= i < s.len() ==> #[trigger] s[i] as u32 <= 127
}

/// `str::to_lowercase`: the text in small letters. By Unicode's rules, which are
/// only named here; an ASCII text has its capitals made small and is otherwise
/// left as it is.
#[verifier::external_body]
fn lowercase(s: &str) -> (r: String)
    ensures
        r@ == lowercase_of(s@),
        ascii(s@) ==> r@ == text::smalls(s@),
{
    s.to_lowercase()
}

/// Whether a name, in small letters, holds one of those of the loopback drivers.
pub open spec fn holds_loopback_name(lowered: Seq<char>) -> bool {
    exists|i: int|
        0 <= i < LOOPBACK_NAMES@.len() && text::holds(lowered, #[trigger] LOOPBACK_NAMES@[i]@)
}

/// Whether a device name looks like a loopback driver rather than a real input.
pub open spec fn loopback_name(name: Seq<char>) -> bool {
    holds_loopback_name(lowercase_of(name))
}

/// Whether a name, in small letters, holds one of those of the loopback drivers.
pub fn names_loopback(lowered: &str) -> (r: bool)
    ensures
        r == holds_loopback_name(lowered@),
{
    let mut i: usize = 0;
    while i < 7
        invariant
            i <= 7,
            LOOPBACK_NAMES@.len() == 7,
            forall|j: int| 0 <= j < i ==> !text::holds(lowered@, #[trigger] LOOPBACK_NAMES@[j]@),
        decreases 7 - i,
    {
        if text::contains(lowered, LOOPBACK_NAMES[i]) {
            assert(text::holds(lowered@, LOOPBACK_NAMES@[i as int]@));
            return true;
        }
        i += 1;
    }
    false
}

/// Whether a device name looks like a loopback driver rather than a real input.
pub fn is_loopback_name(name: &str) -> (r: bool)
    ensures
        r == loopback_name(name@),
        ascii(name@) ==> r == holds_loopback_name(text::smalls(name@)),
{
    names_loopback(lowercase(name).as_str())
}

/// Whether a device has a name that looks like a loopback driver.
pub open spec fn is_loopback(name: Option<String>) -> bool {
    match name {
        Some(n) => loopback_name(n@),
        None => false,
    }
}

/// Which of the input devices with these names, as far as they have any, is a
/// loopback device: the first that is.
pub fn find_loopback_device(names: &Vec<Option<String>>) -> (r: Option<usize>)
    ensures
        match r {
            Some(k) => k < names@.len() && is_loopback(names@[k as int]) && forall|i: int|
                0 <= i < k ==> !is_loopback(#[trigger] names@[i]),
            None => forall|i: int| 0 <= i < names@.len() ==> !is_loopback(#[trigger] names@[i]),
        },
{
    for k in 0..names.len()
        invariant
            forall|i: int| 0 <= i < k ==> !is_loopback(#[trigger] names@[i]),
    {
        if let Some(name) = &names[k] {
            if is_loopback_name(name.as_str()) {
                assert(is_loopback(names@[k as int]));
                return Some(k);
            }
        }
    }
    None
}

// ---------------------------------------------------------------------------
// Opening a backend
// ---------------------------------------------------------------------------

/// What the user is told where the permission is missing.
pub open spec fn permission_text(error: Seq<char>) -> Seq<char> {
    "Screen Recording permission is not granted, so the meeting side can't be recorded ("@ + error
        + "). Grant it in System Settings > Privacy & Security > Screen & System Audio Recording, then restart this app."@
}

/// What the user is told where the permission is missing.
pub fn permission_problem(error: &str) -> (r: String)
    ensures
        r@ == permission_text(error@),
{
    let mut r: String =
        "Screen Recording permission is not granted, so the meeting side can't be recorded (".to_owned();
    r.append(error);
    r.append(
        "). Grant it in System Settings > Privacy & Security > Screen & System Audio Recording, then restart this app.",
    );
    r
}

/// What the user is told where the capture does not start.
pub fn capture_problem(error: &str) -> (r: String)
    ensures
        r@ == "could not start system audio capture: "@ + error@,
{
    let mut r: String = "could not start system audio capture: ".to_owned();
    r.append(error);
    r
}

/// What to do about the meeting side next.
#[derive(Debug, Clone, PartialEq, Eq)]
pub enum OpenStep {
    /// Try to tap the system mix; on failure ask [`SystemOpening::sck_failed`].
    TryScreenCaptureKit,
    /// Try a loopback device; on failure ask [`SystemOpening::loopback_failed`].
    TryLoopback,
    /// It can't be recorded on this machine right now, and why.
    Unavailable(String),
}

/// What to do about the meeting side next.
#[verifier::ext_equal]
pub enum OpenView {
    TryScreenCaptureKit,
    TryLoopback,
    Unavailable(Seq<char>),
}

impl View for OpenStep {
    type V = OpenView;

    open spec fn view(&self) -> OpenView {
        match self {
            OpenStep::TryScreenCaptureKit => OpenView::TryScreenCaptureKit,
            OpenStep::TryLoopback => OpenView::TryLoopback,
            OpenStep::Unavailable(problem) => OpenView::Unavailable(problem@),
        }
    }
}

impl Prefer {
    /// Whether tapping the system mix is to be tried.
    pub open spec fn wants_sck(self) -> bool {
        self != Prefer::Loopback
    }

    /// Whether a loopback device is to be tried.
    pub open spec fn wants_loopback(self) -> bool {
        self != Prefer::ScreenCaptureKit
    }
}

/// What is to be said before anything has been tried.
pub open spec fn first_problem(macos: bool) -> Seq<char> {
    if macos {
        "System audio capture was not requested."@
    } else {
        "System audio capture is not available on this platform."@
    }
}

/// What to do where the system mix cannot be tapped, for that reason.
pub open spec fn without_sck(prefer: Prefer, problem: Seq<char>) -> OpenView {
    if prefer.wants_loopback() {
        OpenView::TryLoopback
    } else {
        OpenView::Unavailable(problem)
    }
}

/// Both reasons, where neither backend can be had.
pub open spec fn both_problems(first: Seq<char>, second: Seq<char>) -> Seq<char> {
    first + " "@ + second
}

/// The choice of a backend for the system mix, under way.
#[derive(Debug, Clone, PartialEq, Eq)]
pub struct SystemOpening {
    prefer: Prefer,
    problem: String,
}

impl SystemOpening {
    /// Which backend is to be tried.
    pub closed spec fn preference(self) -> Prefer {
        self.prefer
    }

    /// Why no backend has been had so far.
    pub closed spec fn so_far(self) -> Seq<char> {
        self.problem@
    }

    /// Begin to choose, on a Mac or elsewhere.
    pub fn begin(prefer: Prefer, macos: bool) -> (r: (Self, OpenStep))
        ensures
            r.0.preference() == prefer,
            r.0.so_far() == first_problem(macos),
            r.1@ == (if macos && prefer.wants_sck() {
                OpenView::TryScreenCaptureKit
            } else {
                without_sck(prefer, first_problem(macos))
            }),
    {
        let problem: String = if macos {
            "System audio capture was not requested.".to_owned()
        } else {
            "System audio capture is not available on this platform.".to_owned()
        };
        let opening = SystemOpening { prefer, problem };
        if macos && prefer != Prefer::Loopback {
            return (opening, OpenStep::TryScreenCaptureKit);
        }
        let step: OpenStep = opening.fall_back();
        (opening, step)
    }

    fn fall_back(&self) -> (r: OpenStep)
        ensures
            r@ == without_sck(self.prefer, self.problem@),
    {
        if self.prefer != Prefer::ScreenCaptureKit {
            OpenStep::TryLoopback
        } else {
            OpenStep::Unavailable(self.problem.clone())
        }
    }

    /// The system mix cannot be tapped, and why.
    pub fn sck_failed(&mut self, message: String) -> (r: OpenStep)
        ensures
            final(self).preference() == old(self).preference(),
            final(self).so_far() == message@,
            r@ == without_sck(old(self).preference(), message@),
    {
        self.problem = message;
        self.fall_back()
    }

    /// No loopback device can be had either, and why: what the user is told in
    /// the end.
    pub fn loopback_failed(&self, error: &str) -> (r: String)
        ensures
            r@ == both_problems(self.so_far(), error@),
    {
        let mut r: String = self.problem.clone();
        r.append(" ");
        r.append(error);
        r
    }
}

/// Whatever fails, the user is told something: a meeting side that is not
/// recorded is never silent about it.
pub proof fn law_failure_explains_itself(macos: bool, prefer: Prefer, first: Seq<char>, second: Seq<char>)
    ensures
        both_problems(first, second).len() > 0,
        without_sck(prefer, first_problem(macos)) matches OpenView::Unavailable(problem)
            ==> problem.len() > 0,
        prefer == Prefer::Loopback || prefer == Prefer::Auto ==> without_sck(prefer, first)
            == OpenView::TryLoopback,
{
    reveal_strlit(" ");
    reveal_strlit("System audio capture was not requested.");
    reveal_strlit("System audio capture is not available on this platform.");
}

/// A name in small letters is a loopback driver's exactly where one of seven words
/// stands anywhere in it.
pub proof fn law_loopback_drivers(lowered: Seq<char>, before: Seq<char>, after: Seq<char>)
    ensures
        holds_loopback_name(lowered) <==> {
            ||| text::holds(lowered, "blackhole"@)
            ||| text::holds(lowered, "soundflower"@)
            ||| text::holds(lowered, "loopback"@)
            ||| text::holds(lowered, "vb-audio"@)
            ||| text::holds(lowered, "cable output"@)
            ||| text::holds(lowered, "stereo mix"@)
            ||| text::holds(lowered, "monitor of"@)
        },
        text::holds(before + lowered + after, lowered),
{
    assert(LOOPBACK_NAMES@.len() == 7);
    assert(LOOPBACK_NAMES@[0]@ == "blackhole"@);
    assert(LOOPBACK_NAMES@[1]@ == "soundflower"@);
    assert(LOOPBACK_NAMES@[2]@ == "loopback"@);
    assert(LOOPBACK_NAMES@[3]@ == "vb-audio"@);
    assert(LOOPBACK_NAMES@[4]@ == "cable output"@);
    assert(LOOPBACK_NAMES@[5]@ == "stereo mix"@);
    assert(LOOPBACK_NAMES@[6]@ == "monitor of"@);
    if holds_loopback_name(lowered) {
        let i = choose|i: int|
            0 <= i < LOOPBACK_NAMES@.len() && text::holds(lowered, #[trigger] LOOPBACK_NAMES@[i]@);
        assert(i == 0 || i == 1 || i == 2 || i == 3 || i == 4 || i == 5 || i == 6);
    }
    let all = before + lowered + after;
    assert(all.subrange(
        before.len() as int,
        before.len() as int + lowered.len(),
    ) == lowered);
    assert(text::stands_at(all, lowered, before.len() as int));
}

} // verus!
