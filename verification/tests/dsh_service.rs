use dsh_desktop::dsh_service::{
    is_port_listening, kill_pid_tree, kill_port_owner, look_at_port, netstat, pid_in_line,
    pids_listening_on, start_dsh, wait_port_closed, CommandLine, CommandOutput, PortWait, Reply, Stream, WaitRequest,
    DSH_PORT,
};

const LISTING: &str = "\r\n活动连接\r\n\r\n  协议  本地地址          外部地址        状态           PID\r\n  TCP    0.0.0.0:135            0.0.0.0:0              LISTENING       1012\r\n  TCP    127.0.0.1:3080         0.0.0.0:0              LISTENING       4242\r\n  TCP    127.0.0.1:13080        0.0.0.0:0              LISTENING       5555\r\n  TCP    127.0.0.1:3080         127.0.0.1:50001        ESTABLISHED     4242\r\n  TCP    [::]:3080              [::]:0                 LISTENING       4243\r\n  UDP    0.0.0.0:3080           *:*                                    77\r\n";

fn output(success: bool, stdout: &[u8]) -> Option<CommandOutput> {
    Some(CommandOutput { success, stdout: stdout.to_vec() })
}

fn pids_in(listing: &str, port: u16) -> Vec<u32> {
    pids_listening_on(&output(true, listing.as_bytes()), port)
}

fn words(command: &CommandLine) -> Vec<&str> {
    let mut words = vec![command.program.as_str()];
    words.extend(command.args.iter().map(|arg| arg.as_str()));
    words
}

/// The port lookup must find the DSH listener when the service is running.
#[test]
fn detects_listener_on_dsh_port() {
    let pids = pids_listening_on(&output(true, LISTING.as_bytes()), DSH_PORT);
    println!("listeners on port {DSH_PORT}: {pids:?}");
    assert!(!pids.is_empty());
    assert!(pids.iter().all(|pid| *pid > 0));
}

#[test]
fn listing_names_the_listeners_of_one_port() {
    let run = output(true, LISTING.as_bytes());
    assert_eq!(pids_listening_on(&run, 3080), vec![4242, 4243]);
    assert_eq!(pids_listening_on(&run, 13080), vec![5555]);
    assert_eq!(pids_listening_on(&run, 135), vec![1012]);
    assert_eq!(pids_listening_on(&run, 80), Vec::<u32>::new());
    assert!(is_port_listening(&run, 3080));
    assert!(!is_port_listening(&run, 308));
}

#[test]
fn no_listing_means_no_listener() {
    assert!(pids_listening_on(&None, 3080).is_empty());
    assert!(pids_listening_on(&output(false, LISTING.as_bytes()), 3080).is_empty());
    assert!(pids_listening_on(&output(true, b""), 3080).is_empty());
    assert!(!is_port_listening(&None, 3080));
    assert!(kill_port_owner(&None, 3080).is_empty());
}

#[test]
fn header_in_another_code_page_is_ignored() {
    let mut bytes = vec![0xd0, 0xad, 0xd2, 0xe9, b' ', 0xff, b'\r', b'\n'];
    bytes.extend_from_slice(b"  TCP    0.0.0.0:3080   0.0.0.0:0   LISTENING   9\r\n");
    assert_eq!(pids_listening_on(&output(true, &bytes), 3080), vec![9]);
}

#[test]
fn invalid_bytes_become_replacement_characters() {
    // An invalid byte inside a field makes it another field; it neither splits nor vanishes.
    let bytes = b"TC\xffP 0.0.0.0:3080 0.0.0.0:0 LISTENING 9";
    assert!(pids_listening_on(&output(true, bytes), 3080).is_empty());
    let bytes = b"TCP \xff:3080 0.0.0.0:0 LISTENING 9";
    assert_eq!(pids_listening_on(&output(true, bytes), 3080), vec![9]);
}

#[test]
fn rows_are_found_behind_any_header() {
    let rows = b"TCP a:3080 x LISTENING 1\r\nTCP b:3080 x LISTENING 2\r\n";
    for header in [&b"\xd0\xad"[..], b"\xe2\x82", b"\xf0\x9f\x90", b"\xff\r", b"TCP \xff", b"", b"\xc0\n\xe4"] {
        let mut bytes = header.to_vec();
        bytes.push(b'\n');
        bytes.extend_from_slice(rows);
        assert_eq!(pids_listening_on(&output(true, &bytes), 3080), vec![1, 2]);
    }
}

/// What the text of the whole listing gives, decoded in one go.
fn pids_in_whole_text(bytes: &[u8], port: u16) -> Vec<u32> {
    let text = String::from_utf8_lossy(bytes);
    let suffix = format!(":{}", port);
    let mut pids = Vec::new();
    for line in text.lines() {
        let parts: Vec<&str> = line.split_whitespace().collect();
        if parts.len() >= 5
            && parts[0] == "TCP"
            && parts[3] == "LISTENING"
            && parts[1].ends_with(&suffix)
        {
            if let Ok(pid) = parts[parts.len() - 1].parse::<u32>() {
                pids.push(pid);
            }
        }
    }
    pids
}

#[test]
fn decoding_by_lines_is_decoding_the_whole() {
    let parts: [&[u8]; 12] = [
        b"\n", b"\r\n", b" ", b"TCP a:3080 x LISTENING 7", b"TCP", b"\xe4\xb8\xad", b"\xe4\xb8", b"\xe4",
        b"\xf0\x9f", b"\x80", b"\xff", b"\xc2\x85",
    ];
    let mut seed: u32 = 1;
    for _ in 0..20_000 {
        let mut bytes = Vec::new();
        for _ in 0..8 {
            seed = seed.wrapping_mul(1_664_525).wrapping_add(1_013_904_223);
            bytes.extend_from_slice(parts[(seed >> 24) as usize % parts.len()]);
        }
        let pids = pids_listening_on(&output(true, &bytes), 3080);
        assert_eq!(pids, pids_in_whole_text(&bytes, 3080), "{:?}", bytes);
    }
}

#[test]
fn failed_run_tells_nothing() {
    assert!(matches!(look_at_port(&None, 3080), Reply::NoListing));
    let run = output(false, LISTING.as_bytes());
    assert!(matches!(look_at_port(&run, 3080), Reply::NoListing));
    let run = output(true, LISTING.as_bytes());
    assert!(matches!(look_at_port(&run, 3080), Reply::Listeners(pids) if pids == vec![4242, 4243]));
    assert!(matches!(look_at_port(&run, 1), Reply::Listeners(pids) if pids.is_empty()));
}

#[test]
fn rows_that_do_not_count() {
    for row in [
        "TCP 0.0.0.0:3080 0.0.0.0:0 LISTENING",
        "tcp 0.0.0.0:3080 0.0.0.0:0 LISTENING 9",
        "UDP 0.0.0.0:3080 0.0.0.0:0 LISTENING 9",
        "TCP 0.0.0.0:3080 0.0.0.0:0 CLOSE_WAIT 9",
        "TCP 0.0.0.0:3081 0.0.0.0:3080 LISTENING 9",
        "TCP 0.0.0.0:03080 0.0.0.0:0 LISTENING 9",
        "TCP 0.0.0.0:3080 0.0.0.0:0 LISTENING pid",
        "TCP 0.0.0.0:3080 0.0.0.0:0 LISTENING -9",
        "TCP 0.0.0.0:3080 0.0.0.0:0 LISTENING 4294967296",
        "TCP 0.0.0.0:3080 0.0.0.0:0 LISTENING 7 more",
    ] {
        assert!(pids_in(row, 3080).is_empty(), "{}", row);
        assert_eq!(pid_in_line(row, 3080), None);
    }
}

#[test]
fn rows_that_count() {
    assert_eq!(pids_in("TCP :3080 x LISTENING 4294967295", 3080), vec![u32::MAX]);
    assert_eq!(pid_in_line("TCP :3080 x LISTENING 4294967295", 3080), Some(u32::MAX));
    assert_eq!(pids_in("\tTCP\u{3000}a:3080 x LISTENING +7", 3080), vec![7]);
    assert_eq!(pids_in("TCP a:0 x LISTENING 007", 0), vec![7]);
    assert_eq!(pids_in("TCP a:65535 x LISTENING 1\nTCP b:65535 x LISTENING 1", 65535), vec![1, 1]);
}

#[test]
fn process_is_the_last_token_of_a_row() {
    let run = output(true, b"TCP 0.0.0.0:3080 0.0.0.0:0 LISTENING 1234 5678\n");
    assert_eq!(pids_listening_on(&run, 3080), vec![5678]);
}

#[test]
fn listings_add_up_line_by_line() {
    let a = "TCP a:3080 x LISTENING 1";
    let b = "TCP b:3080 x LISTENING 2";
    let both = format!("{}\r\n{}", a, b);
    let mut pids = pids_in(a, 3080);
    pids.extend(pids_in(b, 3080));
    assert_eq!(pids_in(&both, 3080), pids);
    assert_eq!(pids, vec![1, 2]);
}

#[test]
fn commands_are_spelled_out() {
    assert_eq!(words(&netstat()), vec!["netstat", "-ano"]);
    assert_eq!(words(&kill_pid_tree(0)), vec!["taskkill", "/PID", "0", "/T", "/F"]);
    assert_eq!(words(&kill_pid_tree(u32::MAX)), vec!["taskkill", "/PID", "4294967295", "/T", "/F"]);
    assert_eq!(words(&start_dsh()), vec!["cmd", "/C", "npx --yes @deepseek-ai/dsh web"]);
}

#[test]
fn commands_are_run_out_of_sight() {
    for command in [netstat(), kill_pid_tree(7), start_dsh()] {
        assert_eq!(command.creation_flags, 0x0800_0000);
        assert!(command.stdin == Stream::Null);
    }
    for command in [kill_pid_tree(7), start_dsh()] {
        assert!(command.stdout == Stream::Null && command.stderr == Stream::Null);
    }
    assert!(netstat().stdout == Stream::Captured && netstat().stderr == Stream::Captured);
}

#[test]
fn every_owner_of_the_port_is_killed() {
    let commands = kill_port_owner(&output(true, LISTING.as_bytes()), DSH_PORT);
    assert_eq!(commands.len(), 2);
    assert_eq!(words(&commands[0]), vec!["taskkill", "/PID", "4242", "/T", "/F"]);
    assert_eq!(words(&commands[1]), vec!["taskkill", "/PID", "4243", "/T", "/F"]);
}

/// A millisecond in nanoseconds.
const MS: u64 = 1_000_000;

/// Runs a wait against a port that is released at `released_at` milliseconds after it began, and
/// tells the result and how many milliseconds it took.
fn run_wait(timeout: u64, released_at: u64) -> (bool, u64) {
    let began = 77;
    let mut now = began;
    let mut wait = PortWait::new(timeout * MS);
    loop {
        let reply = match wait.request() {
            WaitRequest::ReadClock => Reply::Clock(now),
            WaitRequest::ProbePort => Reply::Listening((now - began) / MS < released_at),
            WaitRequest::Sleep(pause) => {
                now += pause;
                Reply::Done
            }
            WaitRequest::Return(released) => return (released, (now - began) / MS),
        };
        wait = wait_port_closed(wait, reply);
    }
}

#[test]
fn wait_ends_when_the_port_is_released() {
    assert_eq!(run_wait(8000, 0), (true, 0));
    assert_eq!(run_wait(8000, 1), (true, 300));
    assert_eq!(run_wait(8000, 600), (true, 600));
}

#[test]
fn wait_gives_up_after_its_time() {
    assert_eq!(run_wait(8000, u64::MAX), (false, 8100));
    assert_eq!(run_wait(600, u64::MAX), (false, 600));
    assert_eq!(run_wait(0, u64::MAX), (false, 0));
}

#[test]
fn wait_looks_once_more_at_the_end() {
    assert_eq!(run_wait(0, 0), (true, 0));
    assert_eq!(run_wait(500, 600), (true, 600));
}

#[test]
fn wait_copes_with_a_late_clock() {
    let wait = wait_port_closed(PortWait::new(u64::MAX), Reply::Clock(u64::MAX));
    let wait = wait_port_closed(wait, Reply::Clock(u64::MAX));
    assert!(wait.request() == WaitRequest::ProbePort);
    let wait = wait_port_closed(wait, Reply::Listening(true));
    assert!(wait.request() == WaitRequest::Sleep(300 * MS));
}

#[test]
fn wait_ignores_what_it_did_not_ask_for() {
    let wait = wait_port_closed(PortWait::new(8000), Reply::Listening(false));
    assert!(wait.request() == WaitRequest::ReadClock);
    let over = wait_port_closed(PortWait::Over { released: false }, Reply::Listening(false));
    assert!(over.request() == WaitRequest::Return(false));
}
