use dsh_desktop::bootstrap::{
    bootstrap_dsh, cleanup_dsh, service_listens, Boot, BootRequest, CleanupStep, Notice, Step,
    UserEvent, LAUNCH_FAILED, TIMED_OUT,
};
use dsh_desktop::dsh_service::{Reply, DSH_PORT};

/// A millisecond in nanoseconds.
const MS: u64 = 1_000_000;

/// The process of the service that comes to listen on the port.
const SERVICE: u32 = 900;

/// A world that the worker runs in.
struct World {
    now: u64,
    owners: Vec<u32>,
    /// Do the owners stay when they are told to go?
    owners_stay: bool,
    up_at: u64,
    child: Option<u32>,
    window_gone_at: u64,
}

/// Runs a worker to its end, and tells what it did besides looking at the port and the clock.
fn run(world: World) -> (Vec<BootRequest>, u64) {
    let mut now = world.now;
    let mut owners = world.owners;
    let mut started = false;
    let mut log = Vec::new();
    let mut boot = Boot::new();
    loop {
        let request = boot.request();
        let reply = match request {
            BootRequest::ProbePort(port) => {
                assert_eq!(port, DSH_PORT);
                Reply::Listening(!owners.is_empty())
            }
            BootRequest::ListListeners(port) => {
                assert_eq!(port, DSH_PORT);
                let mut listeners = owners.clone();
                if started && now >= world.up_at {
                    listeners.push(SERVICE);
                }
                Reply::Listeners(listeners)
            }
            BootRequest::KillPortOwner(_) => {
                if !world.owners_stay {
                    owners.clear();
                }
                Reply::Done
            }
            BootRequest::WaitPortClosed { timeout, .. } => {
                if !owners.is_empty() {
                    now += timeout;
                }
                Reply::Released(owners.is_empty())
            }
            BootRequest::StartDsh => {
                started = true;
                Reply::Spawned(world.child)
            }
            BootRequest::KeepChild(_) => Reply::Done,
            BootRequest::ReadClock => Reply::Clock(now),
            BootRequest::Send(_) => Reply::Sent(now < world.window_gone_at),
            BootRequest::Sleep(pause) => {
                now += pause;
                Reply::Done
            }
            BootRequest::CleanUp => Reply::Done,
            BootRequest::Return => return (log, now),
        };
        match request {
            BootRequest::ProbePort(_)
            | BootRequest::ListListeners(_)
            | BootRequest::ReadClock
            | BootRequest::Sleep(_) => {}
            _ => log.push(request),
        }
        boot = bootstrap_dsh(boot, reply);
    }
}

fn same(log: &[BootRequest], expected: &[BootRequest]) -> bool {
    log.len() == expected.len() && log.iter().zip(expected).all(|(a, b)| a == b)
}

#[test]
fn service_starts_on_a_free_port() {
    let (log, now) = run(World {
        now: 0,
        owners: vec![],
        owners_stay: false,
        up_at: 2000 * MS,
        child: Some(7),
        window_gone_at: u64::MAX,
    });
    assert!(same(
        &log,
        &[BootRequest::StartDsh, BootRequest::KeepChild(7), BootRequest::Send(Notice::Ready)],
    ));
    assert_eq!(now, 2100 * MS);
}

#[test]
fn running_service_is_stopped_first() {
    let (log, _) = run(World {
        now: 0,
        owners: vec![5],
        owners_stay: false,
        up_at: 0,
        child: Some(7),
        window_gone_at: u64::MAX,
    });
    assert!(same(
        &log,
        &[
            BootRequest::KillPortOwner(3080),
            BootRequest::WaitPortClosed { port: 3080, timeout: 8000 * MS },
            BootRequest::StartDsh,
            BootRequest::KeepChild(7),
            BootRequest::Send(Notice::Ready),
        ],
    ));
}

#[test]
fn old_owner_that_stays_is_not_the_service() {
    // Nobody else ever listens: the start times out, and with it the window is gone.
    let (log, _) = run(World {
        now: 0,
        owners: vec![5, 6],
        owners_stay: true,
        up_at: u64::MAX,
        child: Some(7),
        window_gone_at: 60_000 * MS,
    });
    assert!(same(
        &log,
        &[
            BootRequest::KillPortOwner(3080),
            BootRequest::WaitPortClosed { port: 3080, timeout: 8000 * MS },
            BootRequest::StartDsh,
            BootRequest::KeepChild(7),
            BootRequest::Send(Notice::TimedOut),
            BootRequest::CleanUp,
        ],
    ));
    // The service comes to listen beside the old owner.
    let (log, now) = run(World {
        now: 0,
        owners: vec![5],
        owners_stay: true,
        up_at: 9000 * MS,
        child: Some(7),
        window_gone_at: u64::MAX,
    });
    assert!(log.last() == Some(&BootRequest::Send(Notice::Ready)));
    assert_eq!(now, 9400 * MS);
}

#[test]
fn service_is_who_joins_the_listeners() {
    assert!(!service_listens(&vec![], &vec![]));
    assert!(service_listens(&vec![4], &vec![]));
    assert!(!service_listens(&vec![4, 4], &vec![5, 4]));
    assert!(service_listens(&vec![4, 6], &vec![5, 4]));
    assert!(!service_listens(&vec![], &vec![5]));
}

fn watching(before: Vec<u32>) -> Boot {
    Boot { step: Step::Watch { started: 0, slow: true }, before }
}

#[test]
fn number_of_a_process_that_is_gone_counts_again() {
    let boot = bootstrap_dsh(watching(vec![5, 6]), Reply::Listeners(vec![6]));
    assert_eq!(boot.before, vec![6]);
    assert!(boot.request() == BootRequest::Sleep(5000 * MS));
    let boot = bootstrap_dsh(boot, Reply::Done);
    let boot = bootstrap_dsh(boot, Reply::Listeners(vec![6, 5]));
    assert!(boot.request() == BootRequest::Send(Notice::Ready));
}

#[test]
fn failed_look_changes_nobody() {
    let boot = bootstrap_dsh(watching(vec![5]), Reply::NoListing);
    assert_eq!(boot.before, vec![5]);
    let boot = bootstrap_dsh(boot, Reply::Done);
    let boot = bootstrap_dsh(boot, Reply::Listeners(vec![5]));
    assert!(boot.request() == BootRequest::Sleep(5000 * MS));
    let survey = Boot { step: Step::Survey, before: vec![] };
    let boot = bootstrap_dsh(survey, Reply::NoListing);
    assert!(boot.request() == BootRequest::StartDsh);
    assert!(boot.before.is_empty());
}

#[test]
fn failed_launch_is_told() {
    for window_gone_at in [0, u64::MAX] {
        let (log, now) = run(World {
            now: 5,
            owners: vec![],
        owners_stay: false,
            up_at: 0,
            child: None,
            window_gone_at,
        });
        assert!(same(&log, &[BootRequest::StartDsh, BootRequest::Send(Notice::LaunchFailed)]));
        assert_eq!(now, 5);
    }
}

#[test]
fn slow_start_is_told_once_and_still_connects() {
    let (log, now) = run(World {
        now: 0,
        owners: vec![],
        owners_stay: false,
        up_at: 200_000 * MS,
        child: Some(7),
        window_gone_at: u64::MAX,
    });
    assert!(same(
        &log,
        &[
            BootRequest::StartDsh,
            BootRequest::KeepChild(7),
            BootRequest::Send(Notice::TimedOut),
            BootRequest::Send(Notice::Ready),
        ],
    ));
    // 172 short pauses reach the 120 seconds; then come 16 long ones.
    assert_eq!(now, (172 * 700 + 16 * 5000) * MS);
}

#[test]
fn lost_window_means_cleanup() {
    let (log, _) = run(World {
        now: 0,
        owners: vec![],
        owners_stay: false,
        up_at: 0,
        child: Some(7),
        window_gone_at: 0,
    });
    assert!(same(
        &log,
        &[
            BootRequest::StartDsh,
            BootRequest::KeepChild(7),
            BootRequest::Send(Notice::Ready),
            BootRequest::CleanUp,
        ],
    ));
    let (log, _) = run(World {
        now: 0,
        owners: vec![],
        owners_stay: false,
        up_at: u64::MAX,
        child: Some(7),
        window_gone_at: 1000 * MS,
    });
    assert!(same(
        &log,
        &[
            BootRequest::StartDsh,
            BootRequest::KeepChild(7),
            BootRequest::Send(Notice::TimedOut),
            BootRequest::CleanUp,
        ],
    ));
}

#[test]
fn time_is_up_at_exactly_two_minutes() {
    let started = u64::MAX - 120_000 * MS;
    let checking = || Boot { step: Step::CheckTimer { started }, before: vec![5] };
    let early = bootstrap_dsh(checking(), Reply::Clock(u64::MAX - 1));
    assert!(early.request() == BootRequest::Sleep(700 * MS));
    let late = bootstrap_dsh(checking(), Reply::Clock(u64::MAX));
    assert!(late.request() == BootRequest::Send(Notice::TimedOut));
    let slow = bootstrap_dsh(late, Reply::Sent(true));
    assert!(slow.request() == BootRequest::Sleep(5000 * MS));
}

#[test]
fn worker_ignores_what_it_did_not_ask_for() {
    let boot = bootstrap_dsh(Boot::new(), Reply::Spawned(Some(1)));
    assert!(boot.request() == BootRequest::ProbePort(3080));
    let boot = Boot { step: Step::Launch, before: vec![5] };
    let boot = bootstrap_dsh(boot, Reply::Listeners(vec![6]));
    assert!(boot.step == Step::Launch);
    assert_eq!(boot.before, vec![5]);
    let boot = bootstrap_dsh(Boot { step: Step::Finished, before: vec![] }, Reply::Done);
    assert!(boot.request() == BootRequest::Return);
}

#[test]
fn notices_carry_their_messages() {
    assert!(matches!(Notice::Ready.event(), UserEvent::DshReady));
    match Notice::LaunchFailed.event() {
        UserEvent::DshFailed(reason) => {
            assert_eq!(reason, LAUNCH_FAILED);
            assert_eq!(
                reason,
                "无法启动 npx @deepseek-ai/dsh web：请确认已安装 Node.js / npm 且在 PATH 中。"
            );
        }
        UserEvent::DshReady => panic!("not ready"),
    }
    match Notice::TimedOut.event() {
        UserEvent::DshFailed(reason) => {
            assert_eq!(reason, TIMED_OUT);
            assert_eq!(
                reason,
                "DeepSeek Harness 服务启动超时（120 秒），将在后台继续等待…"
            );
        }
        UserEvent::DshReady => panic!("not ready"),
    }
}

#[test]
fn cleanup_takes_the_child() {
    let mut child = Some(7);
    let first = cleanup_dsh(&mut child);
    assert_eq!(child, None);
    assert_eq!(first.len(), 2);
    assert!(first[0] == CleanupStep::KillPidTree(7));
    assert!(first[1] == CleanupStep::KillPortOwner(3080));
    let second = cleanup_dsh(&mut child);
    assert_eq!(child, None);
    assert_eq!(second.len(), 1);
    assert!(second[0] == CleanupStep::KillPortOwner(3080));
}
