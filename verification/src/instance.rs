//! Keeping a single instance running: a newer instance finds the PID of the
//! older one in named shared memory, terminates it, and records its own PID.
use vstd::prelude::*;
use crate::registry::HRESULT_FILE_NOT_FOUND;

verus! {

/// Where taking over from an older instance stands.
#[derive(PartialEq, Eq, Structural, Clone, Copy, Debug)]
pub enum InstancePhase {
    OpeningMapping,
    ReadingPid,
    OpeningProcess,
    Terminating,
    Unmapping,
    ClosingProcess,
    /// Recording our own PID; `true` when an older instance was terminated.
    WritingPid(bool),
    /// The takeover is over; any further event is answered `Abort(0)`.
    Finished,
}

/// What to do next.
#[derive(PartialEq, Eq, Structural, Clone, Copy, Debug)]
pub enum InstanceAction {
    /// Open the named shared memory.
    OpenMapping,
    /// Map it and read the PID stored there.
    ReadPid,
    /// Open the process with this PID with the right to terminate it.
    OpenProcess(u32),
    /// Terminate that process.
    Terminate,
    /// Unmap the shared memory.
    Unmap,
    /// Close the process handle.
    CloseProcess,
    /// Create the shared memory if needed and store our own PID in it.
    WritePid,
    /// Stop after success: whether an older instance was terminated.
    Done(bool),
    /// Stop after a failure, with its `HRESULT`.
    Abort(i32),
}

/// How the last action went.
#[derive(PartialEq, Eq, Structural, Clone, Copy, Debug)]
pub enum InstanceEvent {
    Succeeded,
    /// The PID read from the shared memory.
    PidRead(u32),
    Failed(i32),
}

/// The next phase and action, from `phase` after `event`.
pub open spec fn instance_next(phase: InstancePhase, event: InstanceEvent) -> (
    InstancePhase,
    InstanceAction,
) {
    match event {
        InstanceEvent::Failed(e) => match phase {
            InstancePhase::OpeningMapping => if e == HRESULT_FILE_NOT_FOUND {
                (InstancePhase::WritingPid(false), InstanceAction::WritePid)
            } else {
                (InstancePhase::Finished, InstanceAction::Abort(e))
            },
            _ => (InstancePhase::Finished, InstanceAction::Abort(e)),
        },
        InstanceEvent::PidRead(pid) => match phase {
            InstancePhase::ReadingPid => (
                InstancePhase::OpeningProcess,
                InstanceAction::OpenProcess(pid),
            ),
            _ => (InstancePhase::Finished, InstanceAction::Abort(0)),
        },
        InstanceEvent::Succeeded => match phase {
            InstancePhase::OpeningMapping => (InstancePhase::ReadingPid, InstanceAction::ReadPid),
            InstancePhase::OpeningProcess => (InstancePhase::Terminating, InstanceAction::Terminate),
            InstancePhase::Terminating => (InstancePhase::Unmapping, InstanceAction::Unmap),
            InstancePhase::Unmapping => (
                InstancePhase::ClosingProcess,
                InstanceAction::CloseProcess,
            ),
            InstancePhase::ClosingProcess => (
                InstancePhase::WritingPid(true),
                InstanceAction::WritePid,
            ),
            InstancePhase::WritingPid(killed) => (
                InstancePhase::Finished,
                InstanceAction::Done(killed),
            ),
            _ => (InstancePhase::Finished, InstanceAction::Abort(0)),
        },
    }
}

/// The first phase and action: open the shared memory.
pub fn instance_start() -> (r: (InstancePhase, InstanceAction))
    ensures
        r == (InstancePhase::OpeningMapping, InstanceAction::OpenMapping),
{
    (InstancePhase::OpeningMapping, InstanceAction::OpenMapping)
}

/// The next phase and action. When the shared memory exists, an older
/// instance runs: its PID is read, it is terminated, and the handles are
/// released; when it does not exist, nothing runs. Either way our own PID
/// is then recorded. Any failure stops everything with its `HRESULT`; an
/// event that does not fit the phase stops with code 0.
pub fn instance_step(phase: InstancePhase, event: InstanceEvent) -> (r: (
    InstancePhase,
    InstanceAction,
))
    ensures
        r == instance_next(phase, event),
        phase != InstancePhase::OpeningMapping ==> (event matches InstanceEvent::Failed(e) ==> r == (
            InstancePhase::Finished,
            InstanceAction::Abort(e),
        )),
{
    match event {
        InstanceEvent::Failed(e) => match phase {
            InstancePhase::OpeningMapping => if e == HRESULT_FILE_NOT_FOUND {
                (InstancePhase::WritingPid(false), InstanceAction::WritePid)
            } else {
                (InstancePhase::Finished, InstanceAction::Abort(e))
            },
            _ => (InstancePhase::Finished, InstanceAction::Abort(e)),
        },
        InstanceEvent::PidRead(pid) => match phase {
            InstancePhase::ReadingPid => (
                InstancePhase::OpeningProcess,
                InstanceAction::OpenProcess(pid),
            ),
            _ => (InstancePhase::Finished, InstanceAction::Abort(0)),
        },
        InstanceEvent::Succeeded => match phase {
            InstancePhase::OpeningMapping => (InstancePhase::ReadingPid, InstanceAction::ReadPid),
            InstancePhase::OpeningProcess => (InstancePhase::Terminating, InstanceAction::Terminate),
            InstancePhase::Terminating => (InstancePhase::Unmapping, InstanceAction::Unmap),
            InstancePhase::Unmapping => (
                InstancePhase::ClosingProcess,
                InstanceAction::CloseProcess,
            ),
            InstancePhase::ClosingProcess => (
                InstancePhase::WritingPid(true),
                InstanceAction::WritePid,
            ),
            InstancePhase::WritingPid(killed) => (
                InstancePhase::Finished,
                InstanceAction::Done(killed),
            ),
            _ => (InstancePhase::Finished, InstanceAction::Abort(0)),
        },
    }
}

/// The actions taken from `phase` when answered by `events`.
pub open spec fn instance_run(phase: InstancePhase, events: Seq<InstanceEvent>) -> Seq<
    InstanceAction,
>
    decreases events.len(),
{
    if events.len() == 0 {
        Seq::empty()
    } else {
        let (p, a) = instance_next(phase, events[0]);
        seq![a] + instance_run(p, events.drop_first())
    }
}

/// With an older instance running and every step succeeding, it is
/// terminated, our PID is recorded, and the answer is `true`.
pub proof fn lemma_takes_over_from_older(pid: u32)
    ensures
        instance_run(
            InstancePhase::OpeningMapping,
            seq![
                InstanceEvent::Succeeded,
                InstanceEvent::PidRead(pid),
                InstanceEvent::Succeeded,
                InstanceEvent::Succeeded,
                InstanceEvent::Succeeded,
                InstanceEvent::Succeeded,
                InstanceEvent::Succeeded,
            ],
        ) == seq![
            InstanceAction::ReadPid,
            InstanceAction::OpenProcess(pid),
            InstanceAction::Terminate,
            InstanceAction::Unmap,
            InstanceAction::CloseProcess,
            InstanceAction::WritePid,
            InstanceAction::Done(true),
        ],
{
    reveal_with_fuel(instance_run, 8);
    let e = seq![
        InstanceEvent::Succeeded,
        InstanceEvent::PidRead(pid),
        InstanceEvent::Succeeded,
        InstanceEvent::Succeeded,
        InstanceEvent::Succeeded,
        InstanceEvent::Succeeded,
        InstanceEvent::Succeeded,
    ];
    assert(e.drop_first() =~= e.subrange(1, 7));
    assert(e.subrange(1, 7).drop_first() =~= e.subrange(2, 7));
    assert(e.subrange(2, 7).drop_first() =~= e.subrange(3, 7));
    assert(e.subrange(3, 7).drop_first() =~= e.subrange(4, 7));
    assert(e.subrange(4, 7).drop_first() =~= e.subrange(5, 7));
    assert(e.subrange(5, 7).drop_first() =~= e.subrange(6, 7));
    assert(e.subrange(6, 7).drop_first() =~= Seq::<InstanceEvent>::empty());
    assert(instance_run(InstancePhase::WritingPid(true), e.subrange(6, 7)) =~= seq![
        InstanceAction::Done(true),
    ]);
    assert(instance_run(InstancePhase::ClosingProcess, e.subrange(5, 7)) =~= seq![
        InstanceAction::WritePid,
        InstanceAction::Done(true),
    ]);
    assert(instance_run(InstancePhase::Unmapping, e.subrange(4, 7)) =~= seq![
        InstanceAction::CloseProcess,
        InstanceAction::WritePid,
        InstanceAction::Done(true),
    ]);
    assert(instance_run(InstancePhase::Terminating, e.subrange(3, 7)) =~= seq![
        InstanceAction::Unmap,
        InstanceAction::CloseProcess,
        InstanceAction::WritePid,
        InstanceAction::Done(true),
    ]);
    assert(instance_run(InstancePhase::OpeningProcess, e.subrange(2, 7)) =~= seq![
        InstanceAction::Terminate,
        InstanceAction::Unmap,
        InstanceAction::CloseProcess,
        InstanceAction::WritePid,
        InstanceAction::Done(true),
    ]);
    assert(instance_run(InstancePhase::ReadingPid, e.subrange(1, 7)) =~= seq![
        InstanceAction::OpenProcess(pid),
        InstanceAction::Terminate,
        InstanceAction::Unmap,
        InstanceAction::CloseProcess,
        InstanceAction::WritePid,
        InstanceAction::Done(true),
    ]);
}

/// The answer is `Done` only right after our own PID was recorded: a run
/// never reports success without having claimed the shared memory.
pub proof fn lemma_success_only_after_claim(phase: InstancePhase, event: InstanceEvent)
    requires
        instance_next(phase, event).1 matches InstanceAction::Done(_),
    ensures
        phase is WritingPid,
        event == InstanceEvent::Succeeded,
{
}


/// Any failure other than a missing shared memory stops the takeover with
/// that failure's `HRESULT`.
pub proof fn lemma_failure_aborts(phase: InstancePhase, code: i32)
    requires
        phase != InstancePhase::OpeningMapping,
    ensures
        instance_next(phase, InstanceEvent::Failed(code)) == (
            InstancePhase::Finished,
            InstanceAction::Abort(code),
        ),
{
}

proof fn lemma_finished_never_done(events: Seq<InstanceEvent>, j: int)
    requires
        0 <= j < instance_run(InstancePhase::Finished, events).len(),
    ensures
        instance_run(InstancePhase::Finished, events)[j] is Abort,
    decreases events.len(),
{
    if j > 0 {
        lemma_finished_never_done(events.drop_first(), j - 1);
    }
}

/// From `Terminating`, reporting that the older instance was terminated
/// needs the termination to have succeeded.
proof fn lemma_terminating_needs_success(events: Seq<InstanceEvent>, j: int)
    requires
        0 <= j < instance_run(InstancePhase::Terminating, events).len(),
        instance_run(InstancePhase::Terminating, events)[j] == InstanceAction::Done(true),
    ensures
        events[0] == InstanceEvent::Succeeded,
{
    if events[0] != InstanceEvent::Succeeded {
        assert(instance_next(InstancePhase::Terminating, events[0]).0 == InstancePhase::Finished);
        if j > 0 {
            lemma_finished_never_done(events.drop_first(), j - 1);
        }
    }
}

proof fn lemma_instance_run_len(phase: InstancePhase, events: Seq<InstanceEvent>)
    ensures
        instance_run(phase, events).len() == events.len(),
    decreases events.len(),
{
    if events.len() > 0 {
        let (p, a) = instance_next(phase, events[0]);
        lemma_instance_run_len(p, events.drop_first());
    }
}

/// Whether a phase comes before any termination.
spec fn before_termination(phase: InstancePhase) -> bool {
    phase == InstancePhase::OpeningMapping || phase == InstancePhase::ReadingPid || phase
        == InstancePhase::OpeningProcess || phase == InstancePhase::WritingPid(false) || phase
        == InstancePhase::Finished
}

proof fn lemma_done_true_from(phase: InstancePhase, events: Seq<InstanceEvent>, j: int)
    requires
        before_termination(phase),
        0 <= j < instance_run(phase, events).len(),
        instance_run(phase, events)[j] == InstanceAction::Done(true),
    ensures
        exists|k: int|
            0 <= k && k + 1 <= j && k + 1 < events.len() && #[trigger] instance_run(phase, events)[k]
                == InstanceAction::Terminate && events[k + 1] == InstanceEvent::Succeeded,
    decreases events.len(),
{
    let (p, a) = instance_next(phase, events[0]);
    let run = instance_run(phase, events);
    lemma_instance_run_len(phase, events);
    assert(run[0] == a);
    if j == 0 {
        assert(false);
    } else {
        let rest = events.drop_first();
        assert(run[j] == instance_run(p, rest)[j - 1]);
        if p == InstancePhase::Terminating {
            lemma_terminating_needs_success(rest, j - 1);
            assert(a == InstanceAction::Terminate);
            assert(events[1] == rest[0]);
        } else {
            lemma_done_true_from(p, rest, j - 1);
            let k = choose|k: int|
                0 <= k && k + 1 <= j - 1 && k + 1 < rest.len() && #[trigger] instance_run(p, rest)[k]
                    == InstanceAction::Terminate && rest[k + 1] == InstanceEvent::Succeeded;
            assert(run[k + 1] == instance_run(p, rest)[k]);
            assert(events[k + 2] == rest[k + 1]);
        }
    }
}

/// A takeover reports that an older instance was terminated (`Done(true)`)
/// only when a `Terminate` was answered `Succeeded` earlier in the run.
pub proof fn lemma_done_true_needs_termination(events: Seq<InstanceEvent>, j: int)
    requires
        0 <= j < instance_run(InstancePhase::OpeningMapping, events).len(),
        instance_run(InstancePhase::OpeningMapping, events)[j] == InstanceAction::Done(true),
    ensures
        exists|k: int|
            0 <= k && k + 1 <= j && k + 1 < events.len() && #[trigger] instance_run(
                InstancePhase::OpeningMapping,
                events,
            )[k]
                == InstanceAction::Terminate && events[k + 1] == InstanceEvent::Succeeded,
{
    lemma_done_true_from(InstancePhase::OpeningMapping, events, j);
}

} // verus!
