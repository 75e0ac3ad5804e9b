//! The decisions of the process supervisor: what a child is started with,
//! the code reported for it, where interrupts go, and the order of the
//! launch, in which a child is waited on only once it is bound to a job
//! that ends it with the launcher.

use vstd::prelude::*;

verus! {

/// The code reported for a child that the system gives no exit code for,
/// as for one killed outright.
pub const KILLED_CODE: i32 = 137;

/// The exit code to report for a child: its own, or `KILLED_CODE` where the
/// system has none.
pub fn exit_code(code: Option<i32>) -> (r: i32)
    ensures
        r == match code {
            Some(c) => c,
            None => KILLED_CODE,
        },
{
    match code {
        Some(c) => c,
        None => KILLED_CODE,
    }
}

/// The arguments that the child is started with: `args`, then, with
/// `with_own_args`, the arguments that the launcher itself got (`own_args`
/// without its first entry, the launcher's own name).
pub fn child_args(args: &Vec<String>, own_args: &Vec<String>, with_own_args: bool) -> (r: Vec<
    String,
>)
    ensures
        r@ == args@ + if with_own_args && own_args@.len() > 0 {
            own_args@.drop_first()
        } else {
            Seq::empty()
        },
{
    let mut r: Vec<String> = Vec::new();
    let mut i: usize = 0;
    while i < args.len()
        invariant
            i <= args@.len(),
            r@ == args@.subrange(0, i as int),
        decreases args@.len() - i,
    {
        r.push(args[i].clone());
        i = i + 1;
        assert(r@ =~= args@.subrange(0, i as int));
    }
    assert(args@.subrange(0, args@.len() as int) =~= args@);
    if with_own_args && own_args.len() > 0 {
        let mut j: usize = 1;
        assert(r@ =~= args@ + own_args@.subrange(1, 1));
        while j < own_args.len()
            invariant
                1 <= j <= own_args@.len(),
                r@ == args@ + own_args@.subrange(1, j as int),
            decreases own_args@.len() - j,
        {
            r.push(own_args[j].clone());
            j = j + 1;
            assert(r@ =~= args@ + own_args@.subrange(1, j as int));
        }
        assert(own_args@.subrange(1, own_args@.len() as int) =~= own_args@.drop_first());
    } else {
        assert(r@ =~= args@ + Seq::<String>::empty());
    }
    r
}

/// Where a console event that reaches the launcher is sent on: an
/// interrupt goes to the child, once the child's id has been recorded (an
/// id of 0 stands for no child). Either way the launcher takes the event as
/// handled.
pub fn interrupt_target(is_interrupt: bool, child: u32) -> (r: Option<u32>)
    ensures
        r == if is_interrupt && child != 0 {
            Some(child)
        } else {
            None
        },
{
    if is_interrupt && child != 0 {
        Some(child)
    } else {
        None
    }
}

/// Why a launch failed.
#[derive(Clone, Copy, Debug, PartialEq, Eq, Structural)]
pub enum LaunchError {
    /// The child could not be started.
    Spawn,
    /// The child could not be put in a job that ends it with the launcher.
    JobSetup,
    /// The console handler that passes interrupts on could not be set.
    HandlerInstall,
    /// The system did not report the child's end.
    Wait,
}

/// Where the launch of the child stands.
#[derive(Clone, Copy, Debug, PartialEq, Eq, Structural)]
pub enum Stage {
    /// Nothing started yet.
    Idle,
    /// The child runs, not yet in the job.
    Spawned { pid: u32 },
    /// The child runs in the job, and the launcher waits for it.
    Running { pid: u32 },
    /// The child ended; `code` is what the launcher reports.
    Exited { code: i32 },
    /// The launch failed.
    Failed { error: LaunchError },
}

/// What happened since the last action.
#[derive(Clone, Copy, Debug, PartialEq, Eq, Structural)]
pub enum Event {
    /// The launch is asked for.
    Start,
    /// The child was started with the id `pid`.
    SpawnSucceeded { pid: u32 },
    SpawnFailed,
    /// The child was put in a job that is closed, and the child killed,
    /// when the launcher ends.
    JobBound,
    /// Querying or setting the job's limits failed.
    JobFailed,
    /// The child ended, with `code` where the system gives one.
    ChildExited { code: Option<i32> },
    WaitFailed,
}

/// What the launcher does next.
#[derive(Clone, Copy, Debug, PartialEq, Eq, Structural)]
pub enum Action {
    /// Start the child.
    Spawn,
    /// Record `pid` for the interrupt handler, then create the job, set it
    /// to kill its processes when it closes, and put the child in it.
    BindJob { pid: u32 },
    /// Wait for the child to end.
    Wait,
    /// Stop the child `pid`, which runs outside any job, and fail with
    /// `error`.
    Kill { pid: u32, error: LaunchError },
    /// The launch is over: report `code`.
    Finish { code: i32 },
    /// Fail with `error`.
    Abort { error: LaunchError },
    /// The event does not belong to this stage: nothing to do.
    Ignore,
}

/// The stage that an event leads to, and what to do then.
pub open spec fn transition(stage: Stage, event: Event) -> (Stage, Action) {
    match (stage, event) {
        (Stage::Idle, Event::Start) => (Stage::Idle, Action::Spawn),
        (Stage::Idle, Event::SpawnSucceeded { pid }) => (
            Stage::Spawned { pid },
            Action::BindJob { pid },
        ),
        (Stage::Idle, Event::SpawnFailed) => (
            Stage::Failed { error: LaunchError::Spawn },
            Action::Abort { error: LaunchError::Spawn },
        ),
        (Stage::Spawned { pid }, Event::JobBound) => (Stage::Running { pid }, Action::Wait),
        (Stage::Spawned { pid }, Event::JobFailed) => (
            Stage::Failed { error: LaunchError::JobSetup },
            Action::Kill { pid, error: LaunchError::JobSetup },
        ),
        (Stage::Running { .. }, Event::ChildExited { code }) => {
            let c = match code {
                Some(c) => c,
                None => KILLED_CODE,
            };
            (Stage::Exited { code: c }, Action::Finish { code: c })
        },
        (Stage::Running { .. }, Event::WaitFailed) => (
            Stage::Failed { error: LaunchError::Wait },
            Action::Abort { error: LaunchError::Wait },
        ),
        _ => (stage, Action::Ignore),
    }
}

/// The stage after `events`, one after the other, from `stage`.
pub open spec fn stage_after(stage: Stage, events: Seq<Event>) -> Stage
    decreases events.len(),
{
    if events.len() == 0 {
        stage
    } else {
        stage_after(transition(stage, events[0]).0, events.drop_first())
    }
}

/// The launch of one child, driven by events.
pub struct Supervisor {
    stage: Stage,
}

impl Supervisor {
    /// Where the launch stands.
    pub closed spec fn spec_stage(&self) -> Stage {
        self.stage
    }

    /// A supervisor with nothing started.
    pub fn new() -> (r: Supervisor)
        ensures
            r.spec_stage() == Stage::Idle,
    {
        Supervisor { stage: Stage::Idle }
    }

    /// Where the launch stands.
    pub fn stage(&self) -> (r: Stage)
        ensures
            r == self.spec_stage(),
    {
        self.stage
    }

    /// Takes in `event` and says what to do next.
    pub fn handle(&mut self, event: Event) -> (r: Action)
        ensures
            (final(self).spec_stage(), r) == transition(old(self).spec_stage(), event),
    {
        let (stage, action) = match (self.stage, event) {
            (Stage::Idle, Event::Start) => (Stage::Idle, Action::Spawn),
            (Stage::Idle, Event::SpawnSucceeded { pid }) => (
                Stage::Spawned { pid },
                Action::BindJob { pid },
            ),
            (Stage::Idle, Event::SpawnFailed) => (
                Stage::Failed { error: LaunchError::Spawn },
                Action::Abort { error: LaunchError::Spawn },
            ),
            (Stage::Spawned { pid }, Event::JobBound) => (Stage::Running { pid }, Action::Wait),
            (Stage::Spawned { pid }, Event::JobFailed) => (
                Stage::Failed { error: LaunchError::JobSetup },
                Action::Kill { pid, error: LaunchError::JobSetup },
            ),
            (Stage::Running { .. }, Event::ChildExited { code }) => {
                let c = exit_code(code);
                (Stage::Exited { code: c }, Action::Finish { code: c })
            },
            (Stage::Running { .. }, Event::WaitFailed) => (
                Stage::Failed { error: LaunchError::Wait },
                Action::Abort { error: LaunchError::Wait },
            ),
            (stage, _) => (stage, Action::Ignore),
        };
        self.stage = stage;
        action
    }
}

/// The launcher waits on a child only once the child is in the job: the
/// one transition whose action is `Wait` is a binding that succeeded for a
/// spawned child, and a binding that failed stops that child and ends the
/// launch.
pub proof fn lemma_wait_needs_job(stage: Stage, event: Event)
    ensures
        transition(stage, event).1 == Action::Wait ==> (stage is Spawned && event
            == Event::JobBound),
        (transition(stage, event).0 is Running) ==> (stage is Running || (stage is Spawned
            && event == Event::JobBound)),
        (stage is Spawned && event == Event::JobFailed) ==> (transition(stage, event) == (
            (Stage::Failed { error: LaunchError::JobSetup }),
            (Action::Kill { pid: stage->Spawned_pid, error: LaunchError::JobSetup }),
        )),
{
}

/// A failed launch stays failed, whatever comes after.
pub proof fn lemma_failed_is_final(error: LaunchError, events: Seq<Event>)
    ensures
        stage_after((Stage::Failed { error }), events) == (Stage::Failed { error }),
    decreases events.len(),
{
    if events.len() > 0 {
        lemma_failed_is_final(error, events.drop_first());
    }
}

/// From the start, no run of events reaches a running child without a
/// successful binding: whenever the stage after `events` is `Running`,
/// some event in it was `JobBound`, taken while the child was spawned.
pub proof fn lemma_running_needs_job(events: Seq<Event>)
    ensures
        (stage_after(Stage::Idle, events) is Running) ==> (exists|i: int|
            0 <= i < events.len() && events[i] == Event::JobBound && (stage_after(
                Stage::Idle,
                #[trigger] events.take(i),
            ) is Spawned)),
    decreases events.len(),
{
    if events.len() > 0 {
        let last = events.last();
        let init = events.drop_last();
        lemma_stage_after_push(Stage::Idle, init, last);
        assert(init.push(last) =~= events);
        let before = stage_after(Stage::Idle, init);
        if stage_after(Stage::Idle, events) is Running {
            lemma_wait_needs_job(before, last);
            if before is Running {
                lemma_running_needs_job(init);
                let i = choose|i: int|
                    0 <= i < init.len() && init[i] == Event::JobBound && stage_after(
                        Stage::Idle,
                        #[trigger] init.take(i),
                    ) is Spawned;
                assert(events.take(i) =~= init.take(i));
            } else {
                assert(events.take(init.len() as int) =~= init);
            }
        }
    }
}

proof fn lemma_stage_after_push(stage: Stage, events: Seq<Event>, e: Event)
    ensures
        stage_after(stage, events.push(e)) == transition(stage_after(stage, events), e).0,
    decreases events.len(),
{
    if events.len() == 0 {
        assert(events.push(e)[0] == e);
        assert(events.push(e).drop_first() =~= Seq::<Event>::empty());
        reveal_with_fuel(stage_after, 2);
    } else {
        assert(events.push(e)[0] == events[0]);
        assert(events.push(e).drop_first() =~= events.drop_first().push(e));
        lemma_stage_after_push(transition(stage, events[0]).0, events.drop_first(), e);
    }
}

} // verus!
