//! What a crash can cost, and what it cannot.
//!
//! Nothing in here runs. A recording and the way it is transcribed are taken as
//! fixed, so that the text of each chunk is; and what may happen to the
//! transcript and its checkpoint, in any order and any number of times, is
//! spelled out: runs that begin, append, save and finish as `chunking` has them
//! do, crashes at every point, half-written chunks and footers, transcripts cut
//! short or deleted, checkpoints lost or overwritten by other runs. Proved of all
//! of it: a run continues from exactly the text that as many chunks, one after
//! another and without interruption, would have written.

use vstd::prelude::*;
use vstd::utf8::*;

use crate::chunking;
use crate::chunking::checkpoint;
use crate::chunking::checkpoint::{CheckpointView, RecordView};
use crate::transcribe::segment::SegmentView;

verus! {

/// A recording, and one way of transcribing it.
pub struct Job {
    pub fingerprint: Seq<char>,
    pub chunk_ns: int,
    pub duration_ns: Option<i64>,
    /// The audio decoded from a point in time on.
    pub decoded: spec_fn(int) -> Seq<i16>,
    /// The segments that the engine finds in a chunk at a point in time.
    pub found: spec_fn(Seq<i16>, int) -> Seq<SegmentView>,
}

impl Job {
    /// How many samples the chunk at `start_ns` has, if there is one.
    pub open spec fn cut(self, start_ns: int) -> Option<nat> {
        chunking::cut_of((self.decoded)(start_ns), self.chunk_ns)
    }

    /// What the chunk at `start_ns` adds to the transcript.
    pub open spec fn chunk_bytes(self, start_ns: int) -> Seq<u8> {
        match self.cut(start_ns) {
            Some(cut) => {
                let chunk = (self.decoded)(start_ns).take(cut as int);
                encode_utf8(
                    chunking::text_of_chunk(chunk, (self.found)(chunk, start_ns), start_ns),
                )
            },
            None => Seq::empty(),
        }
    }

    /// Where a run stands after its first `n` chunks.
    pub open spec fn start_after(self, n: nat) -> int
        decreases n,
    {
        if n == 0 {
            0
        } else {
            let start = self.start_after((n - 1) as nat);
            match self.cut(start) {
                Some(cut) => start + cut * crate::NANOS_PER_SAMPLE,
                None => start,
            }
        }
    }

    /// What a run that is never interrupted has written after its first `n`
    /// chunks.
    pub open spec fn text_after(self, n: nat) -> Seq<u8>
        decreases n,
    {
        if n == 0 {
            Seq::empty()
        } else {
            self.text_after((n - 1) as nat) + self.chunk_bytes(self.start_after((n - 1) as nat))
        }
    }

    /// The state of a run that is never interrupted after its first `n` chunks.
    pub open spec fn state_after(self, n: nat, transcript_name: Seq<char>) -> CheckpointView {
        CheckpointView {
            fingerprint: self.fingerprint,
            next_start_ns: self.start_after(n),
            chunks_done: n,
            text_bytes: self.text_after(n).len(),
            transcript_name,
        }
    }

    /// Whether the first `n` chunks are the whole recording: its known end is
    /// reached, only a sliver is left, or the last of them was all there was to
    /// decode.
    pub open spec fn whole(self, n: nat) -> bool {
        ||| chunking::reaches_end(self.start_after(n), self.duration_ns)
        ||| self.cut(self.start_after(n)) is None
        ||| n > 0 && (self.cut(self.start_after((n - 1) as nat)) matches Some(cut)
            && chunking::was_last(
            self.start_after(n),
            cut as int,
            (self.decoded)(self.start_after((n - 1) as nat)).len() as int,
            self.duration_ns,
        ))
    }

    /// Whether `state` is that of a run that is never interrupted.
    pub open spec fn on_course(self, state: CheckpointView) -> bool {
        state == self.state_after(state.chunks_done, state.transcript_name)
    }
}

/// A run in progress.
pub struct Run {
    pub state: CheckpointView,
    /// What has been appended since the state was last saved.
    pub pending: Seq<u8>,
}

/// The transcript and the checkpoint on disk, the run in progress, if one is, and
/// what has been shown.
pub struct World {
    pub transcript: Option<Seq<u8>>,
    pub record: Option<RecordView>,
    pub run: Option<Run>,
    /// What the run in progress, or the last one, has shown of the transcript.
    pub shown: Seq<u8>,
}

/// What is seen of a text that may be shown.
pub open spec fn seen(text: Option<Seq<u8>>) -> Seq<u8> {
    match text {
        Some(t) => t,
        None => Seq::empty(),
    }
}

/// What can happen.
pub enum Event {
    /// A run begins, and calls the transcript `name`.
    Begin { name: Seq<char> },
    /// The first `count` bytes of the chunk's text reach the disk.
    Append { count: int },
    /// The chunk's text is on disk, and the checkpoint is saved.
    Save,
    /// With all chunks done, part of a footer or all of it reaches the disk, and
    /// the checkpoint is not cleared yet.
    Close { footer: Seq<u8> },
    /// With all chunks done, the footer reaches the disk, the checkpoint is
    /// cleared, and the run is over.
    Finish { footer: Seq<u8> },
    /// The run is over without warning.
    Crash,
    /// Between runs the transcript is cut down to its first `count` bytes.
    Shorten { count: int },
    /// Between runs the transcript is deleted.
    Delete,
    /// The checkpoint is lost, garbled, or overwritten by a run that is another
    /// job.
    Spoil { record: Option<RecordView> },
}

impl World {
    /// The checkpoint that a run of `job` would resume from.
    pub open spec fn usable(self, job: Job) -> Option<CheckpointView> {
        checkpoint::usable(self.record, job.fingerprint)
    }

    /// How long the transcript is, where there is one.
    pub open spec fn transcript_len(self) -> Option<nat> {
        match self.transcript {
            Some(t) => Some(t.len()),
            None => None,
        }
    }

    /// Whether an event can happen now.
    pub open spec fn allows(self, job: Job, event: Event) -> bool {
        match event {
            Event::Begin { .. } => self.run is None,
            Event::Append { count } => self.run matches Some(run) && run.pending.len() == 0
                && job.cut(run.state.next_start_ns) is Some && 0 <= count <= job.chunk_bytes(
                run.state.next_start_ns,
            ).len(),
            Event::Save => self.run matches Some(run) && job.cut(run.state.next_start_ns) is Some
                && run.pending == job.chunk_bytes(run.state.next_start_ns),
            Event::Close { .. } => self.run matches Some(run) && run.pending.len() == 0
                && job.whole(run.state.chunks_done),
            Event::Finish { .. } => self.run matches Some(run) && run.pending.len() == 0
                && job.whole(run.state.chunks_done),
            Event::Crash => true,
            Event::Shorten { count } => self.run is None && (self.transcript matches Some(t) && 0
                <= count <= t.len()),
            Event::Delete => self.run is None,
            Event::Spoil { record } => checkpoint::usable(record, job.fingerprint) is None,
        }
    }

    /// The world once an event has happened.
    pub open spec fn after(self, job: Job, event: Event) -> World {
        match event {
            Event::Begin { name } => {
                let plan = checkpoint::beginning(
                    self.usable(job),
                    self.transcript_len(),
                    job.fingerprint,
                    name,
                );
                let kept = if plan.resumes {
                    self.transcript->0.take(plan.state.text_bytes as int)
                } else {
                    Seq::empty()
                };
                World {
                    transcript: Some(kept),
                    shown: seen(chunking::opening(plan.state.chunks_done, Some(kept))),
                    record: if plan.resumes {
                        self.record
                    } else {
                        None
                    },
                    run: Some(Run { state: plan.state, pending: Seq::empty() }),
                }
            },
            Event::Append { count } => {
                let run = self.run->0;
                let part = job.chunk_bytes(run.state.next_start_ns).take(count);
                World {
                    transcript: Some(self.transcript->0 + part),
                    run: Some(Run { pending: part, ..run }),
                    ..self
                }
            },
            Event::Save => {
                let run = self.run->0;
                let state = chunking::committed(
                    run.state,
                    job.cut(run.state.next_start_ns)->0 as int,
                    self.transcript->0.len(),
                );
                World {
                    record: Some(checkpoint::written(state)),
                    run: Some(Run { state, pending: Seq::empty() }),
                    shown: self.shown + seen(chunking::showable(run.pending)),
                    ..self
                }
            },
            Event::Close { footer } => {
                World {
                    transcript: Some(self.transcript->0 + footer),
                    run: Some(Run { pending: footer, ..self.run->0 }),
                    ..self
                }
            },
            Event::Finish { footer } => World {
                transcript: Some(self.transcript->0 + footer),
                record: None,
                run: None,
                shown: self.shown + footer,
            },
            Event::Crash => World { run: None, ..self },
            Event::Shorten { count } => World {
                transcript: Some(self.transcript->0.take(count)),
                ..self
            },
            Event::Delete => World { transcript: None, ..self },
            Event::Spoil { record } => World { record, ..self },
        }
    }

    /// Whether what is on disk can be trusted: a checkpoint that would be
    /// resumed is on course, and the transcript, if it is long enough to be
    /// resumed, begins with the text it speaks of.
    pub open spec fn sound(self, job: Job) -> bool {
        self.usable(job) matches Some(state) ==> {
            &&& job.on_course(state)
            &&& self.transcript matches Some(t) ==> state.text_bytes <= t.len() ==> t.take(
                state.text_bytes as int,
            ) == job.text_after(state.chunks_done)
        }
    }

    /// Whether the run in progress, if one is, is on course, the transcript is
    /// what it has written and what is still pending, no checkpoint speaks of more
    /// than that, and what it has shown is what it has written.
    pub open spec fn live(self, job: Job) -> bool {
        self.run matches Some(run) ==> {
            &&& job.on_course(run.state)
            &&& self.transcript == Some(job.text_after(run.state.chunks_done) + run.pending)
            &&& self.shown == job.text_after(run.state.chunks_done)
            &&& self.usable(job) matches Some(state) ==> state.text_bytes <= run.state.text_bytes
        }
    }

    /// The world once all of `events` have happened, one after another.
    pub open spec fn after_all(self, job: Job, events: Seq<Event>) -> World
        decreases events.len(),
    {
        if events.len() == 0 {
            self
        } else {
            self.after_all(job, events.drop_last()).after(job, events.last())
        }
    }

    /// Whether all of `events` can happen, one after another.
    pub open spec fn allows_all(self, job: Job, events: Seq<Event>) -> bool
        decreases events.len(),
    {
        events.len() > 0 ==> self.allows_all(job, events.drop_last()) && self.after_all(
            job,
            events.drop_last(),
        ).allows(job, events.last())
    }
}

proof fn lemma_next_state(job: Job, state: CheckpointView)
    requires
        job.on_course(state),
        job.cut(state.next_start_ns) is Some,
    ensures
        job.on_course(
            chunking::committed(
                state,
                job.cut(state.next_start_ns)->0 as int,
                job.text_after(state.chunks_done + 1).len(),
            ),
        ),
        job.text_after(state.chunks_done + 1) == job.text_after(state.chunks_done)
            + job.chunk_bytes(state.next_start_ns),
{
    let n = state.chunks_done;
    assert((n + 1 - 1) as nat == n);
    let next = chunking::committed(
        state,
        job.cut(state.next_start_ns)->0 as int,
        job.text_after(n + 1).len(),
    );
    assert(next == job.state_after(n + 1, next.transcript_name));
}

/// Whatever happens next, what is on disk can still be trusted and the run is
/// still on course.
pub proof fn law_step_keeps_sound(job: Job, world: World, event: Event)
    requires
        world.sound(job),
        world.live(job),
        world.allows(job, event),
    ensures
        world.after(job, event).sound(job),
        world.after(job, event).live(job),
{
    let next = world.after(job, event);
    match event {
        Event::Begin { name } => {
            let plan = checkpoint::beginning(
                world.usable(job),
                world.transcript_len(),
                job.fingerprint,
                name,
            );
            if plan.resumes {
                let state = world.usable(job)->0;
                let t = world.transcript->0;
                assert(t.take(state.text_bytes as int) == job.text_after(state.chunks_done));
                assert(job.text_after(state.chunks_done) + Seq::<u8>::empty() == job.text_after(
                    state.chunks_done,
                ));
                assert(plan.state == job.state_after(state.chunks_done, name));
                let kept = next.transcript->0;
                assert(kept.take(state.text_bytes as int) == kept);
            } else {
                assert(plan.state == job.state_after(0, name));
                assert(Seq::<u8>::empty() + Seq::<u8>::empty() == Seq::<u8>::empty());
            }
        },
        Event::Append { count } => {
            let run = world.run->0;
            let t = world.transcript->0;
            let part = job.chunk_bytes(run.state.next_start_ns).take(count);
            let done = job.text_after(run.state.chunks_done);
            assert(run.pending == Seq::<u8>::empty());
            assert(t == done);
            lemma_longer(job, world, part);
        },
        Event::Save => {
            let run = world.run->0;
            let t = world.transcript->0;
            lemma_next_state(job, run.state);
            let state = next.run->0.state;
            assert(t == job.text_after(state.chunks_done));
            assert(next.shown == t);
            assert(t.take(t.len() as int) == t);
            assert(t + Seq::<u8>::empty() == t);
        },
        Event::Close { footer } => {
            let run = world.run->0;
            assert(run.pending == Seq::<u8>::empty());
            assert(world.transcript->0 == job.text_after(run.state.chunks_done));
            lemma_longer(job, world, footer);
        },
        Event::Finish { .. } => {},
        Event::Crash => {},
        Event::Shorten { count } => {
            if let Some(state) = world.usable(job) {
                let t = world.transcript->0;
                if state.text_bytes <= count {
                    assert(t.take(count).take(state.text_bytes as int) == t.take(
                        state.text_bytes as int,
                    ));
                }
            }
        },
        Event::Delete => {},
        Event::Spoil { record } => {},
    }
}

/// Appending keeps what is on disk sound while a run is live with nothing
/// pending, since the run has written no less than its last checkpoint says.
proof fn lemma_longer(job: Job, world: World, more: Seq<u8>)
    requires
        world.sound(job),
        world.live(job),
        world.run matches Some(run) && run.pending.len() == 0,
    ensures
        (World { transcript: Some(world.transcript->0 + more), ..world }).sound(job),
{
    if let Some(state) = world.usable(job) {
        let t = world.transcript->0;
        assert((t + more).take(state.text_bytes as int) == t.take(state.text_bytes as int));
    }
}

/// Whatever has happened, what is on disk can be trusted and the run is on
/// course.
pub proof fn law_always_sound(job: Job, world: World, events: Seq<Event>)
    requires
        world.usable(job) is None,
        world.run is None,
        world.allows_all(job, events),
    ensures
        world.after_all(job, events).sound(job),
        world.after_all(job, events).live(job),
    decreases events.len(),
{
    if events.len() > 0 {
        law_always_sound(job, world, events.drop_last());
        law_step_keeps_sound(job, world.after_all(job, events.drop_last()), events.last());
    }
}

/// A run that begins, whatever crashes and losses came before, begins with the
/// transcript and the state that an uninterrupted run has after some number of
/// chunks: nothing missing, nothing twice, no half-written line.
pub proof fn law_run_begins_on_course(job: Job, world: World, events: Seq<Event>, name: Seq<char>)
    requires
        world.usable(job) is None,
        world.run is None,
        world.allows_all(job, events),
        world.after_all(job, events).run is None,
    ensures
        ({
            let begun = world.after_all(job, events).after(job, Event::Begin { name });
            let n = begun.run->0.state.chunks_done;
            &&& begun.run->0.state == job.state_after(n, name)
            &&& begun.transcript == Some(job.text_after(n))
        }),
{
    law_always_sound(job, world, events);
    let before = world.after_all(job, events);
    law_step_keeps_sound(job, before, Event::Begin { name });
    let begun = before.after(job, Event::Begin { name });
    let n = begun.run->0.state.chunks_done;
    assert(job.text_after(n) + Seq::<u8>::empty() == job.text_after(n));
}

/// A run that resumes has lost at most the chunk that was in flight: it goes on
/// from the last checkpoint saved, unless the transcript was cut shorter than
/// that.
pub proof fn law_resume_keeps_what_was_saved(job: Job, world: World, name: Seq<char>)
    requires
        world.run is None,
        world.usable(job) matches Some(state) && state.chunks_done > 0 && (
        world.transcript matches Some(t) && state.text_bytes <= t.len()),
    ensures
        ({
            let begun = world.after(job, Event::Begin { name });
            let state = world.usable(job)->0;
            &&& begun.run->0.state.chunks_done == state.chunks_done
            &&& begun.run->0.state.next_start_ns == state.next_start_ns
            &&& begun.transcript == Some(world.transcript->0.take(state.text_bytes as int))
        }),
{
}

/// A finished transcript, however often its runs were interrupted, is the text
/// that an uninterrupted run writes for the whole recording, and the footer; and
/// no checkpoint is left behind.
pub proof fn law_finished_transcript(job: Job, world: World, events: Seq<Event>, footer: Seq<u8>)
    requires
        world.usable(job) is None,
        world.run is None,
        world.allows_all(job, events.push(Event::Finish { footer })),
    ensures
        ({
            let done = world.after_all(job, events.push(Event::Finish { footer }));
            let n = world.after_all(job, events).run->0.state.chunks_done;
            &&& job.whole(n)
            &&& done.transcript == Some(job.text_after(n) + footer)
            &&& done.record is None
        }),
{
    let finish = Event::Finish { footer };
    assert(events.push(finish).drop_last() == events);
    law_always_sound(job, world, events);
    let run = world.after_all(job, events).run->0;
    let n = run.state.chunks_done;
    assert(run.pending == Seq::<u8>::empty());
    assert(job.text_after(n) + run.pending == job.text_after(n));
}

/// What a run shows, the text of earlier runs that it goes on from first, then
/// each chunk that has any text, then the footer, is together the transcript that
/// it leaves.
pub proof fn law_shown_is_the_transcript(job: Job, world: World, events: Seq<Event>, footer: Seq<u8>)
    requires
        world.usable(job) is None,
        world.run is None,
        world.allows_all(job, events.push(Event::Finish { footer })),
    ensures
        ({
            let done = world.after_all(job, events.push(Event::Finish { footer }));
            done.transcript == Some(done.shown)
        }),
{
    let finish = Event::Finish { footer };
    assert(events.push(finish).drop_last() == events);
    law_always_sound(job, world, events);
    let run = world.after_all(job, events).run->0;
    assert(run.pending == Seq::<u8>::empty());
    assert(job.text_after(run.state.chunks_done) + run.pending == job.text_after(
        run.state.chunks_done,
    ));
}

/// The chunks of a run cover the recording from its beginning on, without a gap and
/// without an overlap: each begins where the one before it ended, 62500 nanoseconds
/// for every sample of that, and is not empty.
pub proof fn law_chunks_follow_one_another(job: Job, n: nat)
    ensures
        job.start_after(0) == 0,
        job.text_after(0).len() == 0,
        job.cut(job.start_after(n)) matches Some(cut) ==> 0 < cut <= (job.decoded)(
            job.start_after(n),
        ).len() && job.start_after(n + 1) == job.start_after(n) + cut * 62_500,
        job.text_after(n + 1) == job.text_after(n) + job.chunk_bytes(job.start_after(n)),
{
    chunking::law_chunks_move_on((job.decoded)(job.start_after(n)), job.chunk_ns);
}

/// A run is whole exactly where a fifth of a second or less is left of a recording
/// whose length is known, or of what can be decoded, or where its last chunk took
/// all that could be decoded and nothing is known of more.
pub proof fn law_when_a_run_is_whole(job: Job, n: nat)
    ensures
        job.duration_ns matches Some(total) && total - job.start_after(n) <= 200_000_000
            ==> job.whole(n),
        (job.decoded)(job.start_after(n)).len() <= 3200 ==> job.whole(n),
        n == 0 && job.whole(n) ==> (job.duration_ns matches Some(total) && total <= 200_000_000)
            || (job.decoded)(0).len() <= 3200,
        job.whole(n) && n > 0 && (job.decoded)(job.start_after(n)).len() > 3200 && (
        job.duration_ns matches Some(total) ==> total - job.start_after(n) > 200_000_000)
            ==> job.duration_ns is None && job.cut(job.start_after((n - 1) as nat)) == Some(
            (job.decoded)(job.start_after((n - 1) as nat)).len(),
        ),
{
    if n > 0 {
        chunking::law_chunks_move_on(
            (job.decoded)(job.start_after((n - 1) as nat)),
            job.chunk_ns,
        );
    }
}

} // verus!
