//! Bringing the service up, and taking it down again.
//!
//! The background worker runs a [`Boot`]: it carries out what [`Boot::request`] asks for and hands
//! the reply to [`bootstrap_dsh`], until it is asked to return.
use vstd::prelude::*;

use crate::dsh_service::{Reply, DSH_PORT};

verus! {

/// How long the old owner of the port is given to release it, in nanoseconds.
pub const RELEASE_TIMEOUT: u64 = 8_000_000_000;

/// How long the service is given to come up before its start counts as slow, in nanoseconds.
pub const START_TIMEOUT: u64 = 120_000_000_000;

/// Pause between two looks at the port while the service is expected, in nanoseconds.
pub const START_POLL: u64 = 700_000_000;

/// Pause between two looks at the port once the start counts as slow, in nanoseconds.
pub const SLOW_POLL: u64 = 5_000_000_000;

/// What the user reads when the service could not be started.
pub const LAUNCH_FAILED: &'static str =
    "无法启动 npx @deepseek-ai/dsh web：请确认已安装 Node.js / npm 且在 PATH 中。";

/// What the user reads when the service is slow to come up.
pub const TIMED_OUT: &'static str = "DeepSeek Harness 服务启动超时（120 秒），将在后台继续等待…";

/// Events dispatched from the worker to the main event loop.
pub enum UserEvent {
    /// The DSH service is listening; load the real GUI.
    DshReady,
    /// The DSH service failed to start (message shown in the status page).
    DshFailed(String),
}

/// What the worker has to tell the main event loop.
#[derive(Clone, Copy, PartialEq, Eq, Structural)]
pub enum Notice {
    /// The service is listening.
    Ready,
    /// The service could not be started.
    LaunchFailed,
    /// The service has not come up in time.
    TimedOut,
}

impl Notice {
    /// The event that carries the notice.
    pub fn event(self) -> (r: UserEvent)
        ensures
            self is Ready ==> r is DshReady,
            self is LaunchFailed ==> r is DshFailed && r->DshFailed_0@ == LAUNCH_FAILED@,
            self is TimedOut ==> r is DshFailed && r->DshFailed_0@ == TIMED_OUT@,
    {
        match self {
            Notice::Ready => UserEvent::DshReady,
            Notice::LaunchFailed => UserEvent::DshFailed(LAUNCH_FAILED.to_owned()),
            Notice::TimedOut => UserEvent::DshFailed(TIMED_OUT.to_owned()),
        }
    }
}

/// Is the service among these listeners, given who listened on the port already before it was
/// started? Who did so is not the service; who joined them since is taken for it.
pub open spec fn service_among(listeners: Seq<u32>, before: Seq<u32>) -> bool {
    exists|i: int| 0 <= i < listeners.len() && !before.contains(#[trigger] listeners[i])
}

/// Those of the processes that are still among the listeners. The number of one that is gone may be
/// given to another.
pub open spec fn still_there(before: Seq<u32>, listeners: Seq<u32>) -> Seq<u32> {
    before.filter(|pid: u32| listeners.contains(pid))
}

/// Is the process among these?
fn holds(pids: &Vec<u32>, pid: u32) -> (r: bool)
    ensures
        r == pids@.contains(pid),
{
    for i in 0..pids.len()
        invariant
            forall|k: int| 0 <= k < i ==> #[trigger] pids@[k] != pid,
    {
        if pids[i] == pid {
            assert(pids@[i as int] == pid);
            return true;
        }
    }
    false
}

/// Is the service among these listeners, given who listened on the port already before it was
/// started?
pub fn service_listens(listeners: &Vec<u32>, before: &Vec<u32>) -> (r: bool)
    ensures
        r == service_among(listeners@, before@),
{
    for i in 0..listeners.len()
        invariant
            forall|k: int| 0 <= k < i ==> before@.contains(#[trigger] listeners@[k]),
    {
        if !holds(before, listeners[i]) {
            return true;
        }
    }
    false
}

/// Forgets those of the processes that are no longer among the listeners.
fn forget_gone(before: &Vec<u32>, listeners: &Vec<u32>) -> (r: Vec<u32>)
    ensures
        r@ == still_there(before@, listeners@),
{
    let mut r: Vec<u32> = Vec::new();
    let ghost there = |pid: u32| listeners@.contains(pid);
    assert(r@ =~= before@.take(0).filter(there)) by {
        reveal(Seq::filter);
    }
    for i in 0..before.len()
        invariant
            there == (|pid: u32| listeners@.contains(pid)),
            r@ == before@.take(i as int).filter(there),
    {
        assert(before@.take(i + 1).drop_last() =~= before@.take(i as int));
        if holds(listeners, before[i]) {
            r.push(before[i]);
        }
        assert(r@ =~= before@.take(i + 1).filter(there)) by {
            reveal(Seq::filter);
        }
    }
    assert(before@.take(before@.len() as int) =~= before@);
    r
}

/// What the worker is about.
#[derive(Clone, Copy, PartialEq, Eq, Structural)]
pub enum Step {
    /// Is the port in use already?
    Begin,
    /// It is: its owner has to go.
    StopOwner,
    /// The owner was told to go: it may take a while.
    AwaitRelease,
    /// The port should be free: who listens on it all the same?
    Survey,
    /// Start the service.
    Launch,
    /// The service was started as this process.
    KeepChild { pid: u32 },
    /// The service could not be started.
    TellLaunchFailed,
    /// The time that the service is given begins now.
    StartTimer,
    /// Is the service up? `slow` tells whether its time is up already.
    Watch { started: u64, slow: bool },
    /// It is not: is its time up?
    CheckTimer { started: u64 },
    /// Its time is up.
    TellTimedOut { started: u64 },
    /// Look again in a while.
    Pause { started: u64, slow: bool },
    /// The service is up.
    TellReady,
    /// Nobody is left to use the service.
    CleanUp,
    /// Nothing is left to do.
    Finished,
}

/// How far the worker has come.
pub struct Boot {
    pub step: Step,
    /// Who listened on the port just before the start of the service, and at every look since.
    pub before: Vec<u32>,
}

/// What a [`Boot`] stands for.
#[verifier::ext_equal]
pub struct BootState {
    pub step: Step,
    pub before: Seq<u32>,
}

impl View for Boot {
    type V = BootState;

    open spec fn view(&self) -> BootState {
        BootState { step: self.step, before: self.before@ }
    }
}

/// What the worker is asked for.
#[derive(Clone, Copy, PartialEq, Eq, Structural)]
pub enum BootRequest {
    /// Look at the port and give [`Reply::Listening`].
    ProbePort(u16),
    /// Look who listens on the port and give [`Reply::Listeners`], or [`Reply::NoListing`].
    ListListeners(u16),
    /// Kill the owners of the port and give [`Reply::Done`].
    KillPortOwner(u16),
    /// Wait until the port is released, at most so many nanoseconds, and give
    /// [`Reply::Released`].
    WaitPortClosed { port: u16, timeout: u64 },
    /// Start the service and give [`Reply::Spawned`].
    StartDsh,
    /// Keep the process for [`cleanup_dsh`] and give [`Reply::Done`].
    KeepChild(u32),
    /// Read the clock and give [`Reply::Clock`].
    ReadClock,
    /// Send the notice to the main loop and give [`Reply::Sent`].
    Send(Notice),
    /// Sleep so many nanoseconds and give [`Reply::Done`].
    Sleep(u64),
    /// Carry out [`cleanup_dsh`] and give [`Reply::Done`].
    CleanUp,
    /// Nothing: the worker is through.
    Return,
}

/// The pause between two looks at the port.
pub open spec fn poll(slow: bool) -> u64 {
    if slow {
        SLOW_POLL
    } else {
        START_POLL
    }
}

impl Step {
    /// What the worker is asked for.
    pub open spec fn asks(self) -> BootRequest {
        match self {
            Step::Begin => BootRequest::ProbePort(DSH_PORT),
            Step::StopOwner => BootRequest::KillPortOwner(DSH_PORT),
            Step::AwaitRelease => BootRequest::WaitPortClosed {
                port: DSH_PORT,
                timeout: RELEASE_TIMEOUT,
            },
            Step::Survey => BootRequest::ListListeners(DSH_PORT),
            Step::Launch => BootRequest::StartDsh,
            Step::KeepChild { pid } => BootRequest::KeepChild(pid),
            Step::TellLaunchFailed => BootRequest::Send(Notice::LaunchFailed),
            Step::StartTimer => BootRequest::ReadClock,
            Step::Watch { .. } => BootRequest::ListListeners(DSH_PORT),
            Step::CheckTimer { .. } => BootRequest::ReadClock,
            Step::TellTimedOut { .. } => BootRequest::Send(Notice::TimedOut),
            Step::Pause { slow, .. } => BootRequest::Sleep(poll(slow)),
            Step::TellReady => BootRequest::Send(Notice::Ready),
            Step::CleanUp => BootRequest::CleanUp,
            Step::Finished => BootRequest::Return,
        }
    }

    /// The step after a reply, given who listened already before the service was started. A reply
    /// that does not answer what was asked for changes nothing.
    pub open spec fn after(self, reply: Reply, before: Seq<u32>) -> Step {
        match (self, reply) {
            (Step::Begin, Reply::Listening(listening)) => if listening {
                Step::StopOwner
            } else {
                Step::Survey
            },
            (Step::StopOwner, Reply::Done) => Step::AwaitRelease,
            (Step::AwaitRelease, Reply::Released(_)) => Step::Survey,
            (Step::Survey, Reply::Listeners(_)) => Step::Launch,
            (Step::Survey, Reply::NoListing) => Step::Launch,
            (Step::Launch, Reply::Spawned(Some(pid))) => Step::KeepChild { pid },
            (Step::Launch, Reply::Spawned(None)) => Step::TellLaunchFailed,
            (Step::KeepChild { .. }, Reply::Done) => Step::StartTimer,
            (Step::TellLaunchFailed, Reply::Sent(_)) => Step::Finished,
            (Step::StartTimer, Reply::Clock(now)) => Step::Watch { started: now, slow: false },
            (Step::Watch { started, slow }, Reply::Listeners(listeners)) => {
                if service_among(listeners@, before) {
                    Step::TellReady
                } else if slow {
                    Step::Pause { started, slow }
                } else {
                    Step::CheckTimer { started }
                }
            },
            (Step::Watch { started, slow }, Reply::NoListing) => if slow {
                Step::Pause { started, slow }
            } else {
                Step::CheckTimer { started }
            },
            (Step::CheckTimer { started }, Reply::Clock(now)) => if now >= started
                + START_TIMEOUT {
                Step::TellTimedOut { started }
            } else {
                Step::Pause { started, slow: false }
            },
            (Step::TellTimedOut { started }, Reply::Sent(delivered)) => if delivered {
                Step::Pause { started, slow: true }
            } else {
                Step::CleanUp
            },
            (Step::Pause { started, slow }, Reply::Done) => Step::Watch { started, slow },
            (Step::TellReady, Reply::Sent(delivered)) => if delivered {
                Step::Finished
            } else {
                Step::CleanUp
            },
            (Step::CleanUp, Reply::Done) => Step::Finished,
            _ => self,
        }
    }
}

impl BootState {
    /// Where the worker begins.
    pub open spec fn begin() -> BootState {
        BootState { step: Step::Begin, before: seq![] }
    }

    /// What the worker is asked for in this state.
    pub open spec fn asks(self) -> BootRequest {
        self.step.asks()
    }

    /// The state after a reply. The survey tells who listens before the start: nobody as far as is
    /// known, if it fails. A later look tells who of them is gone: nobody, if it fails.
    pub open spec fn after(self, reply: Reply) -> BootState {
        BootState {
            step: self.step.after(reply, self.before),
            before: match (self.step, reply) {
                (Step::Survey, Reply::Listeners(listeners)) => listeners@,
                (Step::Survey, Reply::NoListing) => seq![],
                (Step::Watch { .. }, Reply::Listeners(listeners)) => still_there(
                    self.before,
                    listeners@,
                ),
                _ => self.before,
            },
        }
    }

    /// The state after replies, one after the other.
    pub open spec fn after_all(self, replies: Seq<Reply>) -> BootState
        decreases replies.len(),
    {
        if replies.len() == 0 {
            self
        } else {
            self.after_all(replies.drop_last()).after(replies.last())
        }
    }
}

impl Boot {
    /// Where the worker begins.
    pub fn new() -> (r: Boot)
        ensures
            r@ == BootState::begin(),
    {
        Boot { step: Step::Begin, before: Vec::new() }
    }

    /// What the worker is asked for in this state.
    pub fn request(&self) -> (r: BootRequest)
        ensures
            r == self@.asks(),
    {
        match self.step {
            Step::Begin => BootRequest::ProbePort(DSH_PORT),
            Step::StopOwner => BootRequest::KillPortOwner(DSH_PORT),
            Step::AwaitRelease => BootRequest::WaitPortClosed {
                port: DSH_PORT,
                timeout: RELEASE_TIMEOUT,
            },
            Step::Survey => BootRequest::ListListeners(DSH_PORT),
            Step::Launch => BootRequest::StartDsh,
            Step::KeepChild { pid } => BootRequest::KeepChild(pid),
            Step::TellLaunchFailed => BootRequest::Send(Notice::LaunchFailed),
            Step::StartTimer => BootRequest::ReadClock,
            Step::Watch { .. } => BootRequest::ListListeners(DSH_PORT),
            Step::CheckTimer { .. } => BootRequest::ReadClock,
            Step::TellTimedOut { .. } => BootRequest::Send(Notice::TimedOut),
            Step::Pause { slow, .. } => BootRequest::Sleep(
                if slow {
                    SLOW_POLL
                } else {
                    START_POLL
                },
            ),
            Step::TellReady => BootRequest::Send(Notice::Ready),
            Step::CleanUp => BootRequest::CleanUp,
            Step::Finished => BootRequest::Return,
        }
    }
}

/// Takes the worker that manages the DSH service one step further, with the reply to what it was
/// asked for:
/// 1. kill whatever owns port 3080 (restart policy);
/// 2. start `npx @deepseek-ai/dsh web`;
/// 3. wait for it to listen, then notify the main loop. Wait up to 120 s for the service;
///    afterwards keep checking slowly so a very slow start still connects automatically.
///
/// An old owner that did not go and still holds the port is not taken for the service, unless nobody
/// could be listed just before the start. Of those that begin to listen after the start nothing tells
/// which is the service, so the first of them is taken for it.
pub fn bootstrap_dsh(boot: Boot, reply: Reply) -> (r: Boot)
    ensures
        r@ == boot@.after(reply),
{
    let Boot { step, before } = boot;
    match (step, reply) {
        (Step::Begin, Reply::Listening(true)) => Boot { step: Step::StopOwner, before },
        (Step::Begin, Reply::Listening(false)) => Boot { step: Step::Survey, before },
        (Step::StopOwner, Reply::Done) => Boot { step: Step::AwaitRelease, before },
        (Step::AwaitRelease, Reply::Released(_)) => Boot { step: Step::Survey, before },
        (Step::Survey, Reply::Listeners(listeners)) => Boot {
            step: Step::Launch,
            before: listeners,
        },
        (Step::Survey, Reply::NoListing) => Boot { step: Step::Launch, before: Vec::new() },
        (Step::Launch, Reply::Spawned(Some(pid))) => Boot { step: Step::KeepChild { pid }, before },
        (Step::Launch, Reply::Spawned(None)) => Boot { step: Step::TellLaunchFailed, before },
        (Step::KeepChild { .. }, Reply::Done) => Boot { step: Step::StartTimer, before },
        (Step::TellLaunchFailed, Reply::Sent(_)) => Boot { step: Step::Finished, before },
        (Step::StartTimer, Reply::Clock(now)) => Boot {
            step: Step::Watch { started: now, slow: false },
            before,
        },
        (Step::Watch { started, slow }, Reply::Listeners(listeners)) => {
            let next = if service_listens(&listeners, &before) {
                Step::TellReady
            } else if slow {
                Step::Pause { started, slow }
            } else {
                Step::CheckTimer { started }
            };
            Boot { step: next, before: forget_gone(&before, &listeners) }
        },
        (Step::Watch { started, slow }, Reply::NoListing) => if slow {
            Boot { step: Step::Pause { started, slow }, before }
        } else {
            Boot { step: Step::CheckTimer { started }, before }
        },
        (Step::CheckTimer { started }, Reply::Clock(now)) => if now >= started && now - started
            >= START_TIMEOUT {
            Boot { step: Step::TellTimedOut { started }, before }
        } else {
            Boot { step: Step::Pause { started, slow: false }, before }
        },
        (Step::TellTimedOut { started }, Reply::Sent(true)) => Boot {
            step: Step::Pause { started, slow: true },
            before,
        },
        (Step::TellTimedOut { .. }, Reply::Sent(false)) => Boot { step: Step::CleanUp, before },
        (Step::Pause { started, slow }, Reply::Done) => Boot {
            step: Step::Watch { started, slow },
            before,
        },
        (Step::TellReady, Reply::Sent(true)) => Boot { step: Step::Finished, before },
        (Step::TellReady, Reply::Sent(false)) => Boot { step: Step::CleanUp, before },
        (Step::CleanUp, Reply::Done) => Boot { step: Step::Finished, before },
        _ => Boot { step, before },
    }
}

/// One step of a cleanup.
#[derive(Clone, Copy, PartialEq, Eq, Structural)]
pub enum CleanupStep {
    /// Kill this process and its tree.
    KillPidTree(u32),
    /// Kill whatever listens on this port by now.
    KillPortOwner(u16),
}

/// What a cleanup does, in order, given the process that was started.
pub open spec fn cleanup_steps(child: Option<u32>) -> Seq<CleanupStep> {
    match child {
        Some(pid) => seq![CleanupStep::KillPidTree(pid), CleanupStep::KillPortOwner(DSH_PORT)],
        None => seq![CleanupStep::KillPortOwner(DSH_PORT)],
    }
}

/// Kill the DSH process we spawned (and its tree) plus the port 3080 owner: takes the process, so
/// that no later cleanup kills it again, and gives the steps to carry out in order.
pub fn cleanup_dsh(child_pid: &mut Option<u32>) -> (r: Vec<CleanupStep>)
    ensures
        *final(child_pid) is None,
        r@ == cleanup_steps(*old(child_pid)),
{
    let mut steps: Vec<CleanupStep> = Vec::new();
    if let Some(pid) = child_pid.take() {
        steps.push(CleanupStep::KillPidTree(pid));
    }
    steps.push(CleanupStep::KillPortOwner(DSH_PORT));
    steps
}

impl Step {
    /// How far the worker has come, as a number.
    pub open spec fn phase(self) -> int {
        match self {
            Step::Begin => 0,
            Step::StopOwner => 1,
            Step::AwaitRelease => 2,
            Step::Survey => 3,
            Step::Launch => 4,
            Step::KeepChild { .. } => 5,
            Step::StartTimer => 6,
            Step::Watch { slow, .. } => if slow {
                9
            } else {
                7
            },
            Step::CheckTimer { .. } => 7,
            Step::Pause { slow, .. } => if slow {
                9
            } else {
                7
            },
            Step::TellTimedOut { .. } => 8,
            Step::TellReady => 10,
            Step::TellLaunchFailed => 10,
            Step::CleanUp => 11,
            Step::Finished => 12,
        }
    }

    /// Does the worker wait for the service that it started?
    pub open spec fn waits(self) -> bool {
        self is Watch || self is CheckTimer || self is TellTimedOut || self is Pause
    }
}

/// The state of a worker that has begun and got these replies.
pub open spec fn state_after(replies: Seq<Reply>) -> BootState {
    BootState::begin().after_all(replies)
}

/// The worker, having begun and got the first `k` replies, was at this step and got this reply.
pub open spec fn stepped(replies: Seq<Reply>, k: int, from: Step, reply: Reply) -> bool {
    &&& 0 <= k < replies.len()
    &&& state_after(replies.take(k)).step == from
    &&& replies[k] == reply
}

/// A worker never falls back.
pub proof fn boot_moves_forward(boot: BootState, reply: Reply)
    ensures
        boot.step.phase() <= boot.after(reply).step.phase(),
{
}

/// A worker never falls back, however many replies it gets.
pub proof fn boot_moves_forward_all_along(boot: BootState, replies: Seq<Reply>, i: int, j: int)
    requires
        0 <= i <= j <= replies.len(),
    ensures
        boot.after_all(replies.take(i)).step.phase() <= boot.after_all(
            replies.take(j),
        ).step.phase(),
    decreases j - i,
{
    if i < j {
        boot_moves_forward_all_along(boot, replies, i, j - 1);
        assert(replies.take(j).drop_last() =~= replies.take(j - 1));
        boot_moves_forward(boot.after_all(replies.take(j - 1)), replies[j - 1]);
    }
}

/// The requests that are made once: all but those to look at the port, to read the clock and to
/// sleep.
pub open spec fn made_once(request: BootRequest) -> bool {
    match request {
        BootRequest::ProbePort(_) => false,
        BootRequest::ListListeners(_) => false,
        BootRequest::ReadClock => false,
        BootRequest::Sleep(_) => false,
        _ => true,
    }
}

/// Nothing is done twice: the owner of the port is killed once, the service started once, and each
/// notice sent once. A request of that kind, once answered, is not made again.
pub proof fn boot_does_nothing_twice(boot: BootState, replies: Seq<Reply>, i: int, j: int)
    requires
        0 <= i <= j <= replies.len(),
        made_once(boot.after_all(replies.take(i)).asks()),
        boot.after_all(replies.take(j)).asks() == boot.after_all(replies.take(i)).asks(),
    ensures
        boot.after_all(replies.take(j)) == boot.after_all(replies.take(i)),
        forall|k: int|
            i <= k <= j ==> #[trigger] boot.after_all(replies.take(k)) == boot.after_all(
                replies.take(i),
            ),
    decreases j - i,
{
    let first = boot.after_all(replies.take(i));
    assert forall|k: int| i <= k <= j implies #[trigger] boot.after_all(replies.take(k)) == first by {
        lemma_one_phase(boot, replies, i, k, j);
    }
}

proof fn lemma_one_phase(boot: BootState, replies: Seq<Reply>, i: int, k: int, j: int)
    requires
        0 <= i <= k <= j <= replies.len(),
        made_once(boot.after_all(replies.take(i)).asks()),
        boot.after_all(replies.take(j)).asks() == boot.after_all(replies.take(i)).asks(),
    ensures
        boot.after_all(replies.take(k)) == boot.after_all(replies.take(i)),
    decreases k - i,
{
    if i < k {
        lemma_one_phase(boot, replies, i, k - 1, j);
        boot_moves_forward_all_along(boot, replies, i, k);
        boot_moves_forward_all_along(boot, replies, k, j);
        assert(replies.take(k).drop_last() =~= replies.take(k - 1));
    }
}

/// The time of the service began at `started`.
pub open spec fn timed_from(replies: Seq<Reply>, started: u64) -> bool {
    exists|k: int| #[trigger] stepped(replies, k, Step::StartTimer, Reply::Clock(started))
}

/// The time of the service began at `started`, and the clock showed that it was up.
pub open spec fn timed_out(replies: Seq<Reply>, started: u64) -> bool {
    &&& timed_from(replies, started)
    &&& exists|k: int, now: u64| #[trigger]
        stepped(replies, k, Step::CheckTimer { started }, Reply::Clock(now)) && now >= started
            + START_TIMEOUT
}

/// What the replies so far say of the step that a worker is at.
spec fn boot_account(replies: Seq<Reply>, step: Step) -> bool {
    &&& step.phase() == 2 ==> exists|k: int| #[trigger]
        stepped(replies, k, Step::StopOwner, Reply::Done)
    &&& step.phase() >= 3 ==> ({
        ||| exists|k: int| #[trigger] stepped(replies, k, Step::Begin, Reply::Listening(false))
        ||| exists|k: int| #[trigger] stepped(replies, k, Step::StopOwner, Reply::Done)
    })
    &&& 6 <= step.phase() <= 9 || step is TellReady || step is CleanUp ==> exists|
        k: int,
        pid: u32,
    | #[trigger]
        stepped(replies, k, Step::KeepChild { pid }, Reply::Done)
    &&& step is KeepChild ==> exists|k: int| #[trigger]
        stepped(replies, k, Step::Launch, Reply::Spawned(Some(step->pid)))
    &&& step is TellLaunchFailed ==> exists|k: int| #[trigger]
        stepped(replies, k, Step::Launch, Reply::Spawned(None))
    &&& step is CleanUp ==> ({
        ||| exists|k: int| #[trigger] stepped(replies, k, Step::TellReady, Reply::Sent(false))
        ||| exists|k: int, started: u64| #[trigger]
            stepped(replies, k, Step::TellTimedOut { started }, Reply::Sent(false))
    })
    &&& step is Watch ==> timed_from(replies, step->Watch_started)
    &&& step is CheckTimer ==> timed_from(replies, step->CheckTimer_started)
    &&& step is Pause ==> timed_from(replies, step->Pause_started)
    &&& step is TellTimedOut ==> timed_out(replies, step->TellTimedOut_started)
    &&& step.phase() == 9 ==> exists|k: int, started: u64| #[trigger]
        stepped(replies, k, Step::TellTimedOut { started }, Reply::Sent(true))
}

proof fn lemma_stepped_stays(replies: Seq<Reply>, k: int, from: Step, reply: Reply)
    requires
        replies.len() > 0,
        stepped(replies.drop_last(), k, from, reply),
    ensures
        stepped(replies, k, from, reply),
{
    assert(replies.drop_last().take(k) =~= replies.take(k));
}

proof fn lemma_boot_account(replies: Seq<Reply>)
    ensures
        boot_account(replies, state_after(replies).step),
    decreases replies.len(),
{
    if replies.len() > 0 {
        let init = replies.drop_last();
        let n = init.len() as int;
        lemma_boot_account(init);
        assert(replies.take(n) =~= init);
        let step = state_after(init).step;
        assert(stepped(replies, n, step, replies.last()));
        assert forall|k: int, from: Step, reply: Reply| #[trigger]
            stepped(init, k, from, reply) implies stepped(replies, k, from, reply) by {
            lemma_stepped_stays(replies, k, from, reply);
        }
        match (step, replies.last()) {
            (Step::Launch, Reply::Spawned(Some(pid))) => {
                assert(stepped(replies, n, Step::Launch, Reply::Spawned(Some(pid))));
            },
            (Step::KeepChild { pid }, Reply::Done) => {
                assert(stepped(replies, n, Step::KeepChild { pid }, Reply::Done));
            },
            (Step::StartTimer, Reply::Clock(now)) => {
                assert(stepped(replies, n, Step::StartTimer, Reply::Clock(now)));
            },
            (Step::CheckTimer { started }, Reply::Clock(now)) => {
                assert(stepped(replies, n, Step::CheckTimer { started }, Reply::Clock(now)));
            },
            (Step::TellTimedOut { started }, Reply::Sent(delivered)) => {
                assert(stepped(replies, n, Step::TellTimedOut { started }, Reply::Sent(delivered)));
            },
            _ => {},
        }
        if step is TellTimedOut {
            let started = step->TellTimedOut_started;
            let (k, now) = choose|k: int, now: u64| #[trigger]
                stepped(init, k, Step::CheckTimer { started }, Reply::Clock(now)) && now >= started
                    + START_TIMEOUT;
            assert(stepped(replies, k, Step::CheckTimer { started }, Reply::Clock(now)));
        }
    }
}

/// Restart policy: the service is started only after the port was found free, or its owner was told
/// to go.
pub proof fn owner_is_stopped_before_the_start(replies: Seq<Reply>)
    requires
        state_after(replies).asks() == BootRequest::StartDsh,
    ensures
        ({
            ||| exists|k: int| #[trigger] stepped(replies, k, Step::Begin, Reply::Listening(false))
            ||| exists|k: int| #[trigger] stepped(replies, k, Step::StopOwner, Reply::Done)
        }),
{
    lemma_boot_account(replies);
}

/// Restart policy: a service that listens already is stopped, given time to release the port, and
/// started anew, whether or not the port was released in time.
pub proof fn running_service_is_restarted(released: bool, before: Vec<u32>)
    ensures
        BootState::begin().after(Reply::Listening(true)).asks() == BootRequest::KillPortOwner(
            DSH_PORT,
        ),
        BootState::begin().after(Reply::Listening(true)).after(Reply::Done).asks() == (
        BootRequest::WaitPortClosed { port: DSH_PORT, timeout: RELEASE_TIMEOUT }),
        BootState::begin().after(Reply::Listening(true)).after(Reply::Done).after(
            Reply::Released(released),
        ).asks() == BootRequest::ListListeners(DSH_PORT),
        BootState::begin().after(Reply::Listening(true)).after(Reply::Done).after(
            Reply::Released(released),
        ).after(Reply::Listeners(before)).asks() == BootRequest::StartDsh,
{
}

/// Where the port is free, the service is started at once: nobody is killed or waited for.
pub proof fn free_port_is_left_alone(before: Vec<u32>)
    ensures
        BootState::begin().after(Reply::Listening(false)).asks() == BootRequest::ListListeners(
            DSH_PORT,
        ),
        BootState::begin().after(Reply::Listening(false)).after(Reply::Listeners(before)).asks()
            == BootRequest::StartDsh,
{
}

/// The worker, having got the first `k` replies, wanted to know who listens on the port, and was
/// told. It does so just before it starts the service, where a look that fails counts as one that
/// finds nobody, and while it waits for the service.
pub open spec fn looked(replies: Seq<Reply>, k: int) -> bool {
    &&& 0 <= k < replies.len()
    &&& state_after(replies.take(k)).asks() == BootRequest::ListListeners(DSH_PORT)
    &&& replies[k] is Listeners || stepped(replies, k, Step::Survey, Reply::NoListing)
}

/// The processes that a reply lists.
pub open spec fn listed(reply: Reply) -> Seq<u32> {
    match reply {
        Reply::Listeners(listeners) => listeners@,
        _ => seq![],
    }
}

/// The look at `k` found this process.
pub open spec fn found(replies: Seq<Reply>, k: int, pid: u32) -> bool {
    looked(replies, k) && listed(replies[k]).contains(pid)
}

/// The look at `k` missed this process.
pub open spec fn missed(replies: Seq<Reply>, k: int, pid: u32) -> bool {
    looked(replies, k) && !listed(replies[k]).contains(pid)
}

/// The look at `k` found this process, which an earlier look, just before the start of the service
/// or since, had missed.
pub open spec fn joined(replies: Seq<Reply>, k: int, pid: u32) -> bool {
    &&& found(replies, k, pid)
    &&& exists|j: int| j < k && #[trigger] missed(replies, j, pid)
}

proof fn lemma_still_there(before: Seq<u32>, listeners: Seq<u32>, pid: u32)
    ensures
        still_there(before, listeners).contains(pid) <==> before.contains(pid)
            && listeners.contains(pid),
    decreases before.len(),
{
    reveal(Seq::filter);
    let there = |pid: u32| listeners.contains(pid);
    if before.len() > 0 {
        let init = before.drop_last();
        lemma_still_there(init, listeners, pid);
        assert(before =~= init.push(before.last()));
        vstd::seq_lib::lemma_seq_contains_after_push(init, before.last(), pid);
        vstd::seq_lib::lemma_seq_contains_after_push(init.filter(there), before.last(), pid);
    }
}

/// A look at the listeners leaves of those who are remembered the ones whom it found, and adds
/// nobody.
pub proof fn who_is_gone_is_forgotten(before: Seq<u32>, listeners: Seq<u32>, pid: u32)
    ensures
        still_there(before, listeners).contains(pid) <==> before.contains(pid)
            && listeners.contains(pid),
{
    lemma_still_there(before, listeners, pid);
}

/// Between the survey and the news that the service is up, the worker remembers those whom every
/// look has found so far, and there has been one.
pub proof fn who_never_left_is_remembered(replies: Seq<Reply>, pid: u32)
    requires
        4 <= state_after(replies).step.phase() <= 9,
    ensures
        state_after(replies).before.contains(pid) <==> forall|k: int| #[trigger]
            looked(replies, k) ==> found(replies, k, pid),
        exists|k: int| #[trigger] looked(replies, k),
    decreases replies.len(),
{
    let init = replies.drop_last();
    let n = init.len() as int;
    let state = state_after(init);
    assert(replies.take(n) =~= init);
    assert forall|k: int| 0 <= k < n implies looked(replies, k) == #[trigger] looked(init, k)
        && found(replies, k, pid) == found(init, k, pid) by {
        assert(init.take(k) =~= replies.take(k));
    }
    boot_moves_forward(state, replies.last());
    if state.step is Survey {
        assert(looked(replies, n));
        assert forall|k: int| looked(replies, k) implies k == n by {
            if k < n {
                lemma_survey_is_the_first_look(init, k);
            }
        }
        assert(state_after(replies).before.contains(pid) == found(replies, n, pid));
    } else {
        who_never_left_is_remembered(init, pid);
        let earlier = choose|k: int| #[trigger] looked(init, k);
        assert(looked(replies, earlier));
        let all_before = forall|k: int| #[trigger] looked(init, k) ==> found(init, k, pid);
        let all_now = forall|k: int| #[trigger] looked(replies, k) ==> found(replies, k, pid);
        assert(all_now ==> all_before) by {
            if all_now {
                assert forall|k: int| #[trigger] looked(init, k) implies found(init, k, pid) by {
                    assert(looked(replies, k));
                }
            }
        }
        if looked(replies, n) {
            lemma_still_there(state.before, listed(replies[n]), pid);
            assert(all_now ==> found(replies, n, pid));
            if all_before && found(replies, n, pid) {
                assert forall|k: int| #[trigger] looked(replies, k) implies found(
                    replies,
                    k,
                    pid,
                ) by {
                    if k < n {
                        assert(looked(init, k));
                    }
                }
            }
        } else if all_before {
            assert forall|k: int| #[trigger] looked(replies, k) implies found(replies, k, pid) by {
                assert(k < n);
                assert(looked(init, k));
            }
        }
    }
}

proof fn lemma_survey_is_the_first_look(replies: Seq<Reply>, k: int)
    requires
        state_after(replies).step is Survey,
    ensures
        !looked(replies, k),
{
    if looked(replies, k) {
        boot_moves_forward_all_along(BootState::begin(), replies, k, replies.len() as int);
        boot_moves_forward_all_along(BootState::begin(), replies, k + 1, replies.len() as int);
        assert(replies.take(replies.len() as int) =~= replies);
        assert(replies.take(k + 1).drop_last() =~= replies.take(k));
    }
}

/// The main loop is told that the service is ready only after a process was seen to listen that had
/// not listened just before the start, or had stopped since.
pub proof fn ready_means_listening(replies: Seq<Reply>)
    requires
        state_after(replies).asks() == BootRequest::Send(Notice::Ready),
    ensures
        exists|k: int, pid: u32| #[trigger] joined(replies, k, pid),
    decreases replies.len(),
{
    let init = replies.drop_last();
    let n = init.len() as int;
    let state = state_after(init);
    assert(replies.take(n) =~= init);
    assert forall|k: int, pid: u32| 0 <= k < n implies missed(replies, k, pid) == #[trigger] missed(
        init,
        k,
        pid,
    ) && found(replies, k, pid) == found(init, k, pid) by {
        assert(init.take(k) =~= replies.take(k));
    }
    if state.step is TellReady {
        ready_means_listening(init);
        let (k, pid) = choose|k: int, pid: u32| #[trigger] joined(init, k, pid);
        let j = choose|j: int| j < k && #[trigger] missed(init, j, pid);
        assert(missed(replies, j, pid) && found(replies, k, pid)) by {
            assert(missed(init, k, pid) == missed(replies, k, pid));
        }
        assert(joined(replies, k, pid));
    } else {
        let listeners = listed(replies[n]);
        let i = choose|i: int|
            0 <= i < listeners.len() && !state.before.contains(#[trigger] listeners[i]);
        let pid = listeners[i];
        who_never_left_is_remembered(init, pid);
        let j = choose|j: int| #[trigger] looked(init, j) && !found(init, j, pid);
        assert(missed(init, j, pid));
        assert(missed(replies, j, pid));
        assert(found(replies, n, pid));
        assert(joined(replies, n, pid));
    }
}

/// Whoever joins the listeners while the worker waits is taken for the service, even under the
/// number of a process that listened before and is gone.
pub proof fn newcomer_is_taken_for_the_service(replies: Seq<Reply>, k: int, pid: u32)
    requires
        joined(replies, k, pid),
    ensures
        state_after(replies.take(k + 1)).asks() == BootRequest::Send(Notice::Ready),
{
    let init = replies.take(k);
    let state = state_after(init);
    let j = choose|j: int| j < k && #[trigger] missed(replies, j, pid);
    assert(init.take(j) =~= replies.take(j));
    assert(missed(init, j, pid));
    if state.step is Survey {
        lemma_survey_is_the_first_look(init, j);
    }
    who_never_left_is_remembered(init, pid);
    assert(!found(init, j, pid) && looked(init, j));
    assert(!state.before.contains(pid));
    let listeners = listed(replies[k]);
    let i = choose|i: int| 0 <= i < listeners.len() && listeners[i] == pid;
    assert(!state.before.contains(listeners[i]));
    assert(replies.take(k + 1).drop_last() =~= init);
}

/// No process joins the listeners: whoever is found to listen was found so at every earlier look.
pub open spec fn nobody_joins(replies: Seq<Reply>) -> bool {
    forall|j: int, k: int|
        0 <= j < k < replies.len() && #[trigger] replies[j] is Listeners
            && #[trigger] replies[k] is Listeners ==> !service_among(
            replies[k]->Listeners_0@,
            replies[j]->Listeners_0@,
        )
}

/// An old owner that outlives its kill is not taken for the service: once the worker was told who
/// listens just before the start, as long as nobody else comes to listen on the port, the main loop
/// is never told that the service is ready.
pub proof fn old_owner_is_not_the_service(replies: Seq<Reply>)
    requires
        nobody_joins(replies),
        forall|k: int| !#[trigger] stepped(replies, k, Step::Survey, Reply::NoListing),
    ensures
        state_after(replies).asks() != BootRequest::Send(Notice::Ready),
{
    if state_after(replies).asks() == BootRequest::Send(Notice::Ready) {
        ready_means_listening(replies);
        let (k, pid) = choose|k: int, pid: u32| #[trigger] joined(replies, k, pid);
        let j = choose|j: int| j < k && #[trigger] missed(replies, j, pid);
        let listeners = listed(replies[k]);
        let i = choose|i: int| 0 <= i < listeners.len() && listeners[i] == pid;
        assert(replies[j] is Listeners && replies[k] is Listeners);
        assert(!replies[j]->Listeners_0@.contains(listeners[i]));
    }
}

/// Where nobody listened on the port before the start, whoever listens on it is taken for the
/// service.
pub proof fn on_a_free_port_any_listener_counts(listeners: Seq<u32>)
    ensures
        service_among(listeners, seq![]) <==> listeners.len() > 0,
{
    if listeners.len() > 0 {
        assert(!Seq::<u32>::empty().contains(listeners[0]));
    }
}

/// The start counts as slow only once the service was given all of its time.
pub proof fn timeout_is_told_late(replies: Seq<Reply>)
    requires
        state_after(replies).asks() == BootRequest::Send(Notice::TimedOut),
    ensures
        exists|started: u64| #[trigger] timed_out(replies, started),
{
    lemma_boot_account(replies);
}

/// The worker looks at the port more seldom only after the user was told that the start is slow.
pub proof fn slow_polling_was_announced(replies: Seq<Reply>)
    requires
        state_after(replies).asks() == BootRequest::Sleep(SLOW_POLL),
    ensures
        exists|k: int, started: u64| #[trigger]
            stepped(replies, k, Step::TellTimedOut { started }, Reply::Sent(true)),
{
    lemma_boot_account(replies);
}

/// The process that is kept is the one that was started.
pub proof fn kept_child_was_started(replies: Seq<Reply>, pid: u32)
    requires
        state_after(replies).asks() == BootRequest::KeepChild(pid),
    ensures
        exists|k: int| #[trigger] stepped(replies, k, Step::Launch, Reply::Spawned(Some(pid))),
{
    lemma_boot_account(replies);
}

/// The process that was started is kept before anything else happens, so that a cleanup finds it.
pub proof fn child_is_kept(replies: Seq<Reply>)
    requires
        state_after(replies).asks() == BootRequest::CleanUp || state_after(replies).asks()
            == BootRequest::Send(Notice::Ready),
    ensures
        exists|k: int, pid: u32| #[trigger]
            stepped(replies, k, Step::KeepChild { pid }, Reply::Done),
{
    lemma_boot_account(replies);
}

/// A very slow start still connects: the worker waits until the service is seen to listen and then
/// tells so, for as long as there is somebody to tell.
pub proof fn worker_waits_until_the_service_is_up(boot: BootState, reply: Reply)
    requires
        boot.step.waits(),
    ensures
        boot.step is Watch && reply is Listeners && service_among(reply->Listeners_0@, boot.before)
            <==> boot.after(reply).asks() == BootRequest::Send(Notice::Ready),
        boot.step is TellTimedOut && reply == Reply::Sent(false) <==> boot.after(reply).asks()
            == BootRequest::CleanUp,
        boot.after(reply).asks() != BootRequest::Send(Notice::Ready) && boot.after(reply).asks()
            != BootRequest::CleanUp ==> boot.after(reply).step.waits(),
{
}

/// Where the main loop is gone, the service that was started for it is taken down.
pub proof fn lost_main_loop_means_cleanup(boot: BootState)
    requires
        boot.asks() == BootRequest::Send(Notice::Ready) || boot.asks() == BootRequest::Send(
            Notice::TimedOut,
        ),
    ensures
        boot.after(Reply::Sent(false)).asks() == BootRequest::CleanUp,
        boot.after(Reply::Sent(false)).after(Reply::Done).asks() == BootRequest::Return,
{
}

/// A cleanup after a cleanup kills no process by its number.
pub proof fn second_cleanup_spares_the_child(pid: u32)
    ensures
        !cleanup_steps(None).contains(CleanupStep::KillPidTree(pid)),
{
}

/// The service is up if and only if somebody listens who did not listen before.
pub proof fn service_is_who_did_not_listen_before(listeners: Seq<u32>, before: Seq<u32>)
    ensures
        service_among(listeners, before) <==> exists|pid: u32|
            #![trigger listeners.contains(pid)]
            listeners.contains(pid) && !before.contains(pid),
{
    if service_among(listeners, before) {
        let i = choose|i: int|
            0 <= i < listeners.len() && !before.contains(#[trigger] listeners[i]);
        assert(listeners.contains(listeners[i]));
    }
    if exists|pid: u32|
        #![trigger listeners.contains(pid)]
        listeners.contains(pid) && !before.contains(pid) {
        let pid = choose|pid: u32|
            #![trigger listeners.contains(pid)]
            listeners.contains(pid) && !before.contains(pid);
        let i = choose|i: int| 0 <= i < listeners.len() && listeners[i] == pid;
        assert(!before.contains(listeners[i]));
    }
}

/// A worker begins by looking whether the port is in use. An owner is told to go and waited for, for
/// eight seconds; then, as at once where there is none, the worker looks who listens all the same.
pub proof fn worker_clears_the_port_first(boot: BootState, released: bool)
    requires
        boot.step is Begin,
    ensures
        BootState::begin().step is Begin,
        BootState::begin().before.len() == 0,
        DSH_PORT == 3080,
        boot.asks() == BootRequest::ProbePort(3080),
        boot.after(Reply::Listening(false)).step is Survey,
        boot.after(Reply::Listening(true)).asks() == BootRequest::KillPortOwner(3080),
        boot.after(Reply::Listening(true)).after(Reply::Done).asks() == (
        BootRequest::WaitPortClosed { port: 3080, timeout: 8_000_000_000 }),
        boot.after(Reply::Listening(true)).after(Reply::Done).after(
            Reply::Released(released),
        ).step is Survey,
{
}

/// The service is started right after the worker looked who listens, whether or not it was told; if
/// it was, it remembers them all.
pub proof fn service_is_started_after_the_survey(boot: BootState, listeners: Vec<u32>)
    requires
        boot.step is Survey,
    ensures
        boot.asks() == BootRequest::ListListeners(3080),
        boot.after(Reply::Listeners(listeners)).asks() == BootRequest::StartDsh,
        boot.after(Reply::Listeners(listeners)).before == listeners@,
        boot.after(Reply::NoListing).asks() == BootRequest::StartDsh,
        boot.after(Reply::NoListing).before.len() == 0,
{
}

/// A service that was started, as whatever process, is kept, given its time from then on, and
/// watched for.
pub proof fn started_service_is_kept_and_watched(boot: BootState, pid: u32, now: u64)
    requires
        boot.asks() == BootRequest::StartDsh,
    ensures
        boot.after(Reply::Spawned(Some(pid))).asks() == BootRequest::KeepChild(pid),
        boot.after(Reply::Spawned(Some(pid))).after(Reply::Done).asks() == BootRequest::ReadClock,
        boot.after(Reply::Spawned(Some(pid))).after(Reply::Done).after(Reply::Clock(now)) == (
        BootState { step: Step::Watch { started: now, slow: false }, before: boot.before }),
        boot.after(Reply::Spawned(Some(pid))).after(Reply::Done).after(Reply::Clock(now)).asks()
            == BootRequest::ListListeners(3080),
{
}

/// A service that could not be started is told of, and that is all: there is nothing to clean up,
/// whether or not the message arrives.
pub proof fn failed_start_is_told_and_that_is_all(boot: BootState, delivered: bool)
    requires
        boot.asks() == BootRequest::StartDsh,
    ensures
        boot.after(Reply::Spawned(None)).asks() == BootRequest::Send(Notice::LaunchFailed),
        boot.after(Reply::Spawned(None)).after(Reply::Sent(delivered)).asks()
            == BootRequest::Return,
{
}

/// The user is told that the service could not be started only if it could not be started.
pub proof fn launch_failure_is_real(replies: Seq<Reply>)
    requires
        state_after(replies).asks() == BootRequest::Send(Notice::LaunchFailed),
    ensures
        exists|k: int| #[trigger] stepped(replies, k, Step::Launch, Reply::Spawned(None)),
{
    lemma_boot_account(replies);
}

/// The worker takes the service down only if the main loop could not be told of it.
pub proof fn cleanup_means_a_lost_main_loop(replies: Seq<Reply>)
    requires
        state_after(replies).asks() == BootRequest::CleanUp,
    ensures
        ({
            ||| exists|k: int| #[trigger] stepped(replies, k, Step::TellReady, Reply::Sent(false))
            ||| exists|k: int, started: u64| #[trigger]
                stepped(replies, k, Step::TellTimedOut { started }, Reply::Sent(false))
        }),
{
    lemma_boot_account(replies);
}

/// Each look at the port shows the service, and that is told at once; or it does not, whether it
/// shows others or fails. Then the clock is read, unless the start counts as slow already: then the
/// worker sleeps five seconds.
pub proof fn look_shows_the_service_or_not(
    boot: BootState,
    started: u64,
    slow: bool,
    listeners: Vec<u32>,
)
    requires
        boot.step == (Step::Watch { started, slow }),
    ensures
        boot.asks() == BootRequest::ListListeners(3080),
        (exists|pid: u32|
            #![trigger listeners@.contains(pid)]
            listeners@.contains(pid) && !boot.before.contains(pid)) ==> boot.after(
            Reply::Listeners(listeners),
        ).asks() == BootRequest::Send(Notice::Ready),
        (forall|pid: u32|
            #![trigger listeners@.contains(pid)]
            listeners@.contains(pid) ==> boot.before.contains(pid)) ==> boot.after(
            Reply::Listeners(listeners),
        ).step == boot.after(Reply::NoListing).step,
        !slow ==> boot.after(Reply::NoListing).step == (Step::CheckTimer { started }),
        slow ==> boot.after(Reply::NoListing).step == (Step::Pause { started, slow: true }),
        slow ==> boot.after(Reply::NoListing).asks() == BootRequest::Sleep(5_000_000_000),
        boot.after(Reply::NoListing).before == boot.before,
        forall|pid: u32|
            #![trigger boot.after(Reply::Listeners(listeners)).before.contains(pid)]
            boot.after(Reply::Listeners(listeners)).before.contains(pid) <==> boot.before.contains(
                pid,
            ) && listeners@.contains(pid),
{
    service_is_who_did_not_listen_before(listeners@, boot.before);
    assert forall|pid: u32|
        #![trigger boot.after(Reply::Listeners(listeners)).before.contains(pid)]
        boot.after(Reply::Listeners(listeners)).before.contains(pid) <==> boot.before.contains(pid)
            && listeners@.contains(pid) by {
        lemma_still_there(boot.before, listeners@, pid);
    }
}

/// The service is given two minutes. Within them the worker sleeps 700 milliseconds between two looks;
/// at their end it tells that the start is slow.
pub proof fn service_is_given_two_minutes(boot: BootState, started: u64, now: u64)
    requires
        boot.step == (Step::CheckTimer { started }),
    ensures
        boot.asks() == BootRequest::ReadClock,
        now < started + 120_000_000_000 ==> {
            &&& boot.after(Reply::Clock(now)).asks() == BootRequest::Sleep(700_000_000)
            &&& boot.after(Reply::Clock(now)).after(Reply::Done).step == (Step::Watch {
                started,
                slow: false,
            })
        },
        now >= started + 120_000_000_000 ==> {
            &&& boot.after(Reply::Clock(now)).step == (Step::TellTimedOut { started })
            &&& boot.after(Reply::Clock(now)).asks() == BootRequest::Send(Notice::TimedOut)
        },
{
}

/// Once it was told that the start is slow, the worker goes on looking, every five seconds; if that
/// could not be told, it cleans up and is through.
pub proof fn slow_start_is_waited_for(boot: BootState, started: u64)
    requires
        boot.step == (Step::TellTimedOut { started }),
    ensures
        boot.asks() == BootRequest::Send(Notice::TimedOut),
        boot.after(Reply::Sent(true)).asks() == BootRequest::Sleep(5_000_000_000),
        boot.after(Reply::Sent(true)).after(Reply::Done).step == (Step::Watch {
            started,
            slow: true,
        }),
        boot.after(Reply::Sent(false)).asks() == BootRequest::CleanUp,
        boot.after(Reply::Sent(false)).after(Reply::Done).asks() == BootRequest::Return,
{
}

/// A pause ends with another look, after 700 milliseconds or, where the start is slow, five seconds.
pub proof fn pause_ends_with_a_look(boot: BootState, started: u64, slow: bool)
    requires
        boot.step == (Step::Pause { started, slow }),
    ensures
        slow ==> boot.asks() == BootRequest::Sleep(5_000_000_000),
        !slow ==> boot.asks() == BootRequest::Sleep(700_000_000),
        boot.after(Reply::Done).step == (Step::Watch { started, slow }),
        boot.after(Reply::Done).asks() == BootRequest::ListListeners(3080),
{
}

/// Once the main loop was told that the service is ready, the worker is through.
pub proof fn ready_is_the_end(boot: BootState)
    requires
        boot.asks() == BootRequest::Send(Notice::Ready),
    ensures
        boot.after(Reply::Sent(true)).asks() == BootRequest::Return,
        boot.after(Reply::Sent(false)).asks() == BootRequest::CleanUp,
        boot.after(Reply::Sent(false)).after(Reply::Done).asks() == BootRequest::Return,
{
}

/// A worker that is through stays so, whatever is replied.
pub proof fn worker_through_is_final(boot: BootState, reply: Reply)
    requires
        boot.asks() == BootRequest::Return,
    ensures
        boot.after(reply) == boot,
{
}

/// What a worker asks for tells which replies it takes; any other changes nothing.
pub proof fn worker_ignores_other_replies(boot: BootState, reply: Reply)
    requires
        boot.asks() is ProbePort ==> !(reply is Listening),
        boot.asks() is ListListeners ==> !(reply is Listeners) && !(reply is NoListing),
        boot.asks() is KillPortOwner ==> !(reply is Done),
        boot.asks() is WaitPortClosed ==> !(reply is Released),
        boot.asks() == BootRequest::StartDsh ==> !(reply is Spawned),
        boot.asks() is KeepChild ==> !(reply is Done),
        boot.asks() == BootRequest::ReadClock ==> !(reply is Clock),
        boot.asks() is Send ==> !(reply is Sent),
        boot.asks() is Sleep ==> !(reply is Done),
        boot.asks() == BootRequest::CleanUp ==> !(reply is Done),
    ensures
        boot.after(reply) == boot,
{
}

/// Only a look at the listeners changes who is remembered.
pub proof fn only_looks_change_who_is_remembered(boot: BootState, reply: Reply)
    requires
        !(boot.asks() is ListListeners),
    ensures
        boot.after(reply).before == boot.before,
{
}

/// A cleanup kills the process that was started, if there is one, and no other by its number, and
/// then whoever owns the port; nothing else.
pub proof fn cleanup_kills_the_child_and_the_owner(child: Option<u32>, pid: u32)
    ensures
        cleanup_steps(child).contains(CleanupStep::KillPidTree(pid)) <==> child == Some(pid),
        child == Some(pid) ==> cleanup_steps(child).len() == 2 && cleanup_steps(child)[0]
            == CleanupStep::KillPidTree(pid),
        child is None ==> cleanup_steps(child).len() == 1,
        cleanup_steps(child).last() == CleanupStep::KillPortOwner(3080),
{
    let steps = cleanup_steps(child);
    if child == Some(pid) {
        assert(steps[0] == CleanupStep::KillPidTree(pid));
    }
}

} // verus!
