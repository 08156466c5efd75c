//! Life cycle of the DeepSeek Harness service.
//!
//! The embedded browser needs the Web GUI of the service on port 3080. This module tells from a
//! `netstat` listing which processes listen on that port, writes the command lines that start and
//! stop the service, and decides how long to wait for the port to be released.
use vstd::prelude::*;

use crate::text;
use crate::text::{chars_of, decimal_of, ends_with, parse_u32, same_chars, split_fields, split_lines,
    string_of};

verus! {

/// Port used by the DeepSeek Harness Web GUI.
pub const DSH_PORT: u16 = 3080;

/// The creation flag that hides the child's console window (this is a GUI app).
pub const CREATE_NO_WINDOW: u32 = 0x0800_0000;

/// Where a standard stream of a child process leads.
#[derive(Clone, Copy, PartialEq, Eq, Structural)]
pub enum Stream {
    /// Nowhere: there is nothing to read, and what is written is lost.
    Null,
    /// To this process, which reads what is written.
    Captured,
}

/// A program, its arguments, and how it is run.
pub struct CommandLine {
    pub program: String,
    pub args: Vec<String>,
    /// The Windows process creation flags.
    pub creation_flags: u32,
    pub stdin: Stream,
    pub stdout: Stream,
    pub stderr: Stream,
}

/// What a [`CommandLine`] stands for.
#[verifier::ext_equal]
pub struct CommandModel {
    pub program: Seq<char>,
    pub args: Seq<Seq<char>>,
    pub creation_flags: u32,
    pub stdin: Stream,
    pub stdout: Stream,
    pub stderr: Stream,
}

impl View for CommandLine {
    type V = CommandModel;

    open spec fn view(&self) -> CommandModel {
        CommandModel {
            program: self.program@,
            args: self.args@.map_values(|a: String| a@),
            creation_flags: self.creation_flags,
            stdin: self.stdin,
            stdout: self.stdout,
            stderr: self.stderr,
        }
    }
}

/// A command that is run with a hidden console, without input, and whose output is read.
pub open spec fn captured(program: Seq<char>, args: Seq<Seq<char>>) -> CommandModel {
    CommandModel {
        program,
        args,
        creation_flags: CREATE_NO_WINDOW,
        stdin: Stream::Null,
        stdout: Stream::Captured,
        stderr: Stream::Captured,
    }
}

/// A command that is run with a hidden console, without input and without output.
pub open spec fn silent(program: Seq<char>, args: Seq<Seq<char>>) -> CommandModel {
    CommandModel {
        program,
        args,
        creation_flags: CREATE_NO_WINDOW,
        stdin: Stream::Null,
        stdout: Stream::Null,
        stderr: Stream::Null,
    }
}

/// What a program that ran to its end left behind.
pub struct CommandOutput {
    /// Did it exit with a status of success?
    pub success: bool,
    /// What it wrote to its standard output.
    pub stdout: Vec<u8>,
}

/// The command that lists the sockets: `netstat -ano`.
pub fn netstat() -> (r: CommandLine)
    ensures
        r@ == captured("netstat"@, seq!["-ano"@]),
{
    let mut args: Vec<String> = Vec::new();
    args.push("-ano".to_owned());
    let r = CommandLine {
        program: "netstat".to_owned(),
        args,
        creation_flags: CREATE_NO_WINDOW,
        stdin: Stream::Null,
        stdout: Stream::Captured,
        stderr: Stream::Captured,
    };
    assert(r@.args =~= seq!["-ano"@]);
    r
}

/// What stands at the end of a local address with this port: a colon and the port number.
pub open spec fn port_suffix(port: u16) -> Seq<char> {
    seq![':'] + text::decimal(port as nat)
}

/// The process that a row of `netstat -ano` names as listening on the TCP port, if it does. A TCP
/// row reads protocol, local address, foreign address, state, process; the process is the last token.
pub open spec fn row_pid(row: Seq<Seq<char>>, port: u16) -> Option<u32> {
    if row.len() >= 5 && row[0] == "TCP"@ && row[3] == "LISTENING"@ && port_suffix(
        port,
    ).is_suffix_of(row[1]) {
        text::parsed_u32(row.last())
    } else {
        None
    }
}

/// The processes that the lines name as listening on the port, in the order of the lines.
pub open spec fn listeners(lines: Seq<Seq<char>>, port: u16) -> Seq<u32>
    decreases lines.len(),
{
    if lines.len() == 0 {
        seq![]
    } else {
        let before = listeners(lines.drop_last(), port);
        match row_pid(text::fields(lines.last()), port) {
            Some(pid) => before.push(pid),
            None => before,
        }
    }
}

/// The text that `String::from_utf8_lossy` makes of bytes.
pub uninterp spec fn utf8_lossy(bytes: Seq<u8>) -> Seq<char>;

/// `String::from_utf8_lossy`: bytes that are valid UTF-8 give the text that they encode; of other
/// bytes the invalid sequences are replaced by U+FFFD, so that the text holds that character. Where
/// an invalid sequence ends is left unsaid.
#[verifier::external_body]
fn text_of(bytes: &Vec<u8>) -> (r: String)
    ensures
        r@ == utf8_lossy(bytes@),
        vstd::utf8::valid_utf8(bytes@) ==> r@ == vstd::utf8::decode_utf8(bytes@),
        !vstd::utf8::valid_utf8(bytes@) ==> r@.contains('\u{FFFD}'),
{
    String::from_utf8_lossy(bytes).into_owned()
}

/// The text in bytes: what they encode where they are valid UTF-8, and else what
/// `String::from_utf8_lossy` makes of them.
pub open spec fn text_in(bytes: Seq<u8>) -> Seq<char> {
    if vstd::utf8::valid_utf8(bytes) {
        vstd::utf8::decode_utf8(bytes)
    } else {
        utf8_lossy(bytes)
    }
}

/// The lines of a listing, each of them decoded by itself.
pub open spec fn listing_lines(listing: Seq<u8>) -> Seq<Seq<char>> {
    text::byte_lines(listing).map_values(|line: Seq<u8>| text_in(line))
}

/// The processes that a listing names as listening on the port.
pub open spec fn listeners_in(listing: Seq<u8>, port: u16) -> Seq<u32> {
    listeners(listing_lines(listing), port)
}

/// The processes that listen on the port, as far as a run of `netstat -ano` tells: none if it could
/// not be run or failed.
pub open spec fn listening_pids(run: Option<CommandOutput>, port: u16) -> Seq<u32> {
    match run {
        Some(out) => if out.success {
            listeners_in(out.stdout@, port)
        } else {
            seq![]
        },
        None => seq![],
    }
}

/// The process that one line of a `netstat -ano` listing names as LISTENING on the TCP port, if it
/// does.
pub fn pid_in_line(line: &str, port: u16) -> (r: Option<u32>)
    ensures
        r == row_pid(text::fields(line@), port),
{
    let row = split_fields(&chars_of(line));
    assert(forall|i: int| 0 <= i < row@.len() ==> text::views(row@)[i] == #[trigger] row@[i]@);
    assert(text::views(row@).len() == row@.len());
    if row.len() < 5 || !same_chars(&row[0], &chars_of("TCP")) || !same_chars(
        &row[3],
        &chars_of("LISTENING"),
    ) {
        return None;
    }
    let mut suffix: Vec<char> = Vec::new();
    suffix.push(':');
    let mut numeral = decimal_of(port as u32);
    suffix.append(&mut numeral);
    assert(suffix@ =~= port_suffix(port));
    if ends_with(&row[1], &suffix) {
        parse_u32(&row[row.len() - 1])
    } else {
        None
    }
}

/// The processes that a `netstat -ano` listing names as LISTENING on the TCP port. Each line is
/// decoded by itself, so that one in another code page does no harm to the others.
fn pids_in_listing(listing: &Vec<u8>, port: u16) -> (r: Vec<u32>)
    ensures
        r@ == listeners_in(listing@, port),
{
    let lines = split_lines(listing);
    let ghost all = listing_lines(listing@);
    let mut pids: Vec<u32> = Vec::new();
    for i in 0..lines.len()
        invariant
            text::views(lines@) == text::byte_lines(listing@),
            all == listing_lines(listing@),
            pids@ == listeners(all.take(i as int), port),
    {
        assert(text::views(lines@)[i as int] == lines@[i as int]@);
        assert(all[i as int] == text_in(lines@[i as int]@));
        assert(all.take(i + 1).drop_last() =~= all.take(i as int));
        assert(all.take(i + 1).last() == all[i as int]);
        if let Some(pid) = pid_in_line(text_of(&lines[i]).as_str(), port) {
            pids.push(pid);
        }
    }
    assert(all.take(all.len() as int) =~= all);
    pids
}

/// PIDs of processes currently LISTENING on the given TCP port, told from a run of [`netstat`]
/// (`None` if it could not be run).
///
/// The data columns are stable and locale-independent; only the header text is localized. The PID
/// is the last token of a row.
pub fn pids_listening_on(run: &Option<CommandOutput>, port: u16) -> (r: Vec<u32>)
    ensures
        r@ == listening_pids(*run, port),
{
    match run {
        Some(out) => if out.success {
            pids_in_listing(&out.stdout, port)
        } else {
            Vec::new()
        },
        None => Vec::new(),
    }
}

/// Is anything listening on the port, as far as a run of [`netstat`] tells?
pub fn is_port_listening(run: &Option<CommandOutput>, port: u16) -> (r: bool)
    ensures
        r == (listening_pids(*run, port).len() > 0),
{
    pids_listening_on(run, port).len() != 0
}

/// The run of `taskkill` that ends a process and its whole child tree.
pub open spec fn taskkill(pid: u32) -> CommandModel {
    silent("taskkill"@, seq!["/PID"@, text::decimal(pid as nat), "/T"@, "/F"@])
}

/// The command with a hidden console, without input and without output.
fn silently(program: &str, args: Vec<String>) -> (r: CommandLine)
    ensures
        r@ == silent(program@, args@.map_values(|a: String| a@)),
{
    CommandLine {
        program: program.to_owned(),
        args,
        creation_flags: CREATE_NO_WINDOW,
        stdin: Stream::Null,
        stdout: Stream::Null,
        stderr: Stream::Null,
    }
}

/// The command that kills a process and its whole child tree (`taskkill /T /F`).
pub fn kill_pid_tree(pid: u32) -> (r: CommandLine)
    ensures
        r@ == taskkill(pid),
{
    let mut args: Vec<String> = Vec::new();
    args.push("/PID".to_owned());
    args.push(string_of(&decimal_of(pid)));
    args.push("/T".to_owned());
    args.push("/F".to_owned());
    let r = silently("taskkill", args);
    assert(r@.args =~= taskkill(pid).args);
    r
}

/// The commands that kill every process listening on the port (including their trees), told from a
/// run of [`netstat`].
pub fn kill_port_owner(run: &Option<CommandOutput>, port: u16) -> (r: Vec<CommandLine>)
    ensures
        r@.map_values(|c: CommandLine| c@) == listening_pids(*run, port).map_values(
            |pid: u32| taskkill(pid),
        ),
{
    let pids = pids_listening_on(run, port);
    let mut r: Vec<CommandLine> = Vec::new();
    for i in 0..pids.len()
        invariant
            r@.len() == i,
            forall|j: int| 0 <= j < i ==> (#[trigger] r@[j])@ == taskkill(pids@[j]),
    {
        r.push(kill_pid_tree(pids[i]));
    }
    assert(r@.map_values(|c: CommandLine| c@) =~= listening_pids(*run, port).map_values(
        |pid: u32| taskkill(pid),
    ));
    r
}

/// The command that starts `npx @deepseek-ai/dsh web` with a hidden console.
///
/// `npx` is a `.cmd` shim on Windows, so it is invoked through `cmd /C`. `--yes` keeps it
/// non-interactive (a hidden child must never wait on a prompt).
pub fn start_dsh() -> (r: CommandLine)
    ensures
        r@ == silent("cmd"@, seq!["/C"@, "npx --yes @deepseek-ai/dsh web"@]),
{
    let mut args: Vec<String> = Vec::new();
    args.push("/C".to_owned());
    args.push("npx --yes @deepseek-ai/dsh web".to_owned());
    let r = silently("cmd", args);
    assert(r@.args =~= seq!["/C"@, "npx --yes @deepseek-ai/dsh web"@]);
    r
}

/// The answer to something that was asked for while the service is looked after.
pub enum Reply {
    /// The reading of a monotonic clock, in nanoseconds.
    Clock(u64),
    /// Is something listening on the port?
    Listening(bool),
    /// The processes that listen on the port.
    Listeners(Vec<u32>),
    /// Who listens on the port could not be told.
    NoListing,
    /// Had the port been released when the wait was over?
    Released(bool),
    /// The process that was started, if it could be.
    Spawned(Option<u32>),
    /// Did the event reach the main loop?
    Sent(bool),
    /// What had to be done is done.
    Done,
}

/// Tells from a run of [`netstat`] who listens on the port, for a worker that wants to know: a run that
/// failed tells nothing.
pub fn look_at_port(run: &Option<CommandOutput>, port: u16) -> (r: Reply)
    ensures
        run is Some && run->Some_0.success <==> r is Listeners,
        r is Listeners ==> r->Listeners_0@ == listening_pids(*run, port),
        r is Listeners || r is NoListing,
{
    match run {
        Some(out) => if out.success {
            Reply::Listeners(pids_listening_on(run, port))
        } else {
            Reply::NoListing
        },
        None => Reply::NoListing,
    }
}

/// A wait for a port to be released.
#[derive(Clone, Copy)]
pub enum PortWait {
    /// Nothing has been asked for yet.
    Begin { timeout: u64 },
    /// Is there time left?
    Clock { started: u64, timeout: u64 },
    /// There is: is the port still in use?
    Probe { started: u64, timeout: u64 },
    /// It is: look again in a while.
    Pause { started: u64, timeout: u64 },
    /// There is no time left: look for the last time.
    LastProbe,
    /// The wait is over.
    Over { released: bool },
}

/// What a wait asks for.
#[derive(Clone, Copy, PartialEq, Eq, Structural)]
pub enum WaitRequest {
    /// Read the clock and give [`Reply::Clock`].
    ReadClock,
    /// Look at the port and give [`Reply::Listening`].
    ProbePort,
    /// Sleep so many nanoseconds and give [`Reply::Done`].
    Sleep(u64),
    /// Nothing: the wait is over, and this is its result.
    Return(bool),
}

/// Pause between two looks at a port that has to be released, in nanoseconds.
pub const RELEASE_POLL: u64 = 300_000_000;

impl PortWait {
    /// What the wait asks for in this state.
    pub open spec fn asks(self) -> WaitRequest {
        match self {
            PortWait::Begin { .. } => WaitRequest::ReadClock,
            PortWait::Clock { .. } => WaitRequest::ReadClock,
            PortWait::Probe { .. } => WaitRequest::ProbePort,
            PortWait::Pause { .. } => WaitRequest::Sleep(RELEASE_POLL),
            PortWait::LastProbe => WaitRequest::ProbePort,
            PortWait::Over { released } => WaitRequest::Return(released),
        }
    }

    /// The state after a reply. One that does not answer what was asked for changes nothing.
    pub open spec fn after(self, reply: Reply) -> PortWait {
        match (self, reply) {
            (PortWait::Begin { timeout }, Reply::Clock(now)) => PortWait::Clock {
                started: now,
                timeout,
            },
            (PortWait::Clock { started, timeout }, Reply::Clock(now)) => if now < started
                + timeout {
                PortWait::Probe { started, timeout }
            } else {
                PortWait::LastProbe
            },
            (PortWait::Probe { started, timeout }, Reply::Listening(listening)) => if listening {
                PortWait::Pause { started, timeout }
            } else {
                PortWait::Over { released: true }
            },
            (PortWait::Pause { started, timeout }, Reply::Done) => PortWait::Clock {
                started,
                timeout,
            },
            (PortWait::LastProbe, Reply::Listening(listening)) => PortWait::Over {
                released: !listening,
            },
            _ => self,
        }
    }

    /// The state after replies, one after the other.
    pub open spec fn after_all(self, replies: Seq<Reply>) -> PortWait
        decreases replies.len(),
    {
        if replies.len() == 0 {
            self
        } else {
            self.after_all(replies.drop_last()).after(replies.last())
        }
    }

    /// A wait of at most `timeout` nanoseconds.
    pub fn new(timeout: u64) -> (r: PortWait)
        ensures
            r == (PortWait::Begin { timeout }),
    {
        PortWait::Begin { timeout }
    }

    /// What the wait asks for in this state.
    pub fn request(&self) -> (r: WaitRequest)
        ensures
            r == self.asks(),
    {
        match *self {
            PortWait::Begin { .. } => WaitRequest::ReadClock,
            PortWait::Clock { .. } => WaitRequest::ReadClock,
            PortWait::Probe { .. } => WaitRequest::ProbePort,
            PortWait::Pause { .. } => WaitRequest::Sleep(RELEASE_POLL),
            PortWait::LastProbe => WaitRequest::ProbePort,
            PortWait::Over { released } => WaitRequest::Return(released),
        }
    }
}

/// Wait until the port is no longer listening (the old process released it): takes the wait one
/// step further, with the reply to what it asked for.
pub fn wait_port_closed(wait: PortWait, reply: Reply) -> (r: PortWait)
    ensures
        r == wait.after(reply),
{
    match wait {
        PortWait::Begin { timeout } => match reply {
            Reply::Clock(now) => PortWait::Clock { started: now, timeout },
            _ => wait,
        },
        PortWait::Clock { started, timeout } => match reply {
            Reply::Clock(now) => if now < started || now - started < timeout {
                PortWait::Probe { started, timeout }
            } else {
                PortWait::LastProbe
            },
            _ => wait,
        },
        PortWait::Probe { started, timeout } => match reply {
            Reply::Listening(true) => PortWait::Pause { started, timeout },
            Reply::Listening(false) => PortWait::Over { released: true },
            _ => wait,
        },
        PortWait::Pause { started, timeout } => match reply {
            Reply::Done => PortWait::Clock { started, timeout },
            _ => wait,
        },
        PortWait::LastProbe => match reply {
            Reply::Listening(listening) => PortWait::Over { released: !listening },
            _ => wait,
        },
        PortWait::Over { .. } => wait,
    }
}

proof fn lemma_listeners_concat(x: Seq<Seq<char>>, y: Seq<Seq<char>>, port: u16)
    ensures
        listeners(x + y, port) == listeners(x, port) + listeners(y, port),
    decreases y.len(),
{
    if y.len() == 0 {
        assert(x + y =~= x);
        assert(listeners(x, port) + listeners(y, port) =~= listeners(x, port));
    } else {
        lemma_listeners_concat(x, y.drop_last(), port);
        assert((x + y).drop_last() =~= x + y.drop_last());
        assert(listeners(x + y, port) =~= listeners(x, port) + listeners(y, port));
    }
}

/// Lines name what each of them names, in their order: what two runs of lines name together is what
/// the one names and then what the other names.
pub proof fn lines_add_up(x: Seq<Seq<char>>, y: Seq<Seq<char>>, port: u16)
    ensures
        listeners(x + y, port) == listeners(x, port) + listeners(y, port),
{
    lemma_listeners_concat(x, y, port);
}

/// The lines of a listing stand for themselves: what two listings name together, one after the
/// other, is what each of them names.
pub proof fn listings_add_up(a: Seq<u8>, b: Seq<u8>, port: u16)
    ensures
        listeners_in(a.push(text::LINE_FEED) + b, port) == listeners_in(a, port) + listeners_in(
            b,
            port,
        ),
{
    text::lemma_pieces_split(a, b, text::LINE_FEED);
    let both = a.push(text::LINE_FEED) + b;
    assert(listing_lines(both) =~= listing_lines(a) + listing_lines(b));
    lemma_listeners_concat(listing_lines(a), listing_lines(b), port);
}

/// Whatever stands in front of the rows of a listing, in whatever language and code page, the rows
/// are found: those that they name are reported, in their order, behind any that the header names.
pub proof fn rows_are_found_behind_any_header(header: Seq<u8>, rows: Seq<u8>, port: u16)
    ensures
        listeners_in(rows, port).is_suffix_of(
            listeners_in(header.push(text::LINE_FEED) + rows, port),
        ),
{
    listings_add_up(header, rows, port);
    let h = listeners_in(header, port);
    let r = listeners_in(rows, port);
    assert((h + r).subrange(h.len() as int, (h + r).len() as int) =~= r);
}

/// The header of a listing names no process: a line that does not begin with the field `TCP` can be
/// taken away.
pub proof fn header_is_ignored(header: Seq<u8>, listing: Seq<u8>, port: u16)
    requires
        !header.contains(text::LINE_FEED),
        text::fields(text_in(header)).len() == 0 || text::fields(text_in(header))[0] != "TCP"@,
    ensures
        listeners_in(header.push(text::LINE_FEED) + listing, port) == listeners_in(listing, port),
{
    listings_add_up(header, listing, port);
    assert forall|j: int| 0 <= j < header.len() implies #[trigger] header[j] != text::LINE_FEED by {
        assert(header.contains(header[j]));
    }
    text::lemma_piece_len(header, text::LINE_FEED, header.len() as int);
    assert(listing_lines(header) =~= seq![text_in(header)]);
    assert(listing_lines(header).drop_last() =~= Seq::<Seq<char>>::empty());
    assert(listeners(Seq::<Seq<char>>::empty(), port) =~= Seq::<u32>::empty());
    assert(listeners_in(header, port) =~= Seq::<u32>::empty());
    assert(listeners_in(header, port) + listeners_in(listing, port) =~= listeners_in(listing, port));
}

/// Of a listing that is valid UTF-8 as a whole, the lines are those of its text.
pub proof fn valid_listing_is_read_as_one_text(listing: Seq<u8>, port: u16)
    requires
        vstd::utf8::valid_utf8(listing),
    ensures
        listeners_in(listing, port) == listeners(
            text::lines(vstd::utf8::decode_utf8(listing)),
            port,
        ),
{
    text::lines_are_decoded_apart(listing);
    assert(listing_lines(listing) =~= text::lines(vstd::utf8::decode_utf8(listing))) by {
        let raw = text::byte_lines(listing);
        assert forall|k: int| 0 <= k < raw.len() implies listing_lines(listing)[k]
            == #[trigger] vstd::utf8::decode_utf8(raw[k]) by {
            assert(vstd::utf8::valid_utf8(raw[k]));
        }
    }
}

/// An address ends with the suffix of one port at most: `:13080` is not taken for `:3080`.
pub proof fn address_has_one_port(address: Seq<char>, p: u16, q: u16)
    requires
        port_suffix(p).is_suffix_of(address),
        port_suffix(q).is_suffix_of(address),
    ensures
        p == q,
{
    let dp = text::decimal(p as nat);
    let dq = text::decimal(q as nat);
    text::decimal_holds_digits(p as nat);
    text::decimal_holds_digits(q as nat);
    let n = address.len() as int;
    let tp = address.subrange(n - dp.len() - 1, n);
    let tq = address.subrange(n - dq.len() - 1, n);
    assert(tp == port_suffix(p) && tq == port_suffix(q));
    if dp.len() < dq.len() {
        let k = dq.len() - dp.len();
        assert(tp[0] == ':' && tq[k] == tp[0]);
        assert(tq[k] == dq[k - 1]);
        assert(text::is_digit(dq[k - 1]));
    } else if dq.len() < dp.len() {
        let k = dp.len() - dq.len();
        assert(tq[0] == ':' && tp[k] == tq[0]);
        assert(tp[k] == dp[k - 1]);
        assert(text::is_digit(dp[k - 1]));
    } else {
        assert(tp =~= tq);
        assert(dp =~= tp.skip(1));
        assert(dq =~= tq.skip(1));
        text::decimal_is_injective(p as nat, q as nat);
    }
}

/// A row counts for one port at most.
pub proof fn row_has_one_port(row: Seq<Seq<char>>, p: u16, q: u16)
    requires
        row_pid(row, p) is Some,
        row_pid(row, q) is Some,
    ensures
        p == q,
{
    address_has_one_port(row[1], p, q);
}

/// A listening TCP row with this port at the end of its local address and the number of a process
/// behind its state names that process.
pub proof fn listening_row_is_found(local: Seq<char>, foreign: Seq<char>, pid: u32, port: u16)
    ensures
        row_pid(
            seq!["TCP"@, local + port_suffix(port), foreign, "LISTENING"@, text::decimal(pid as nat)],
            port,
        ) == Some(pid),
{
    text::decimal_reads_back(pid);
    let address = local + port_suffix(port);
    assert(address.subrange(local.len() as int, address.len() as int) =~= port_suffix(port));
}

/// A carriage return at the end of a line, as any white space there, makes no difference.
pub proof fn line_end_is_ignored(line: Seq<char>, c: char)
    requires
        text::white_space(c),
    ensures
        text::fields(line.push(c)) == text::fields(line),
{
    text::lemma_fields_push(line, c);
}

/// A process is reported for a port if and only if some line of the listing names it.
pub proof fn reported_iff_listed(lines: Seq<Seq<char>>, port: u16, pid: u32)
    ensures
        listeners(lines, port).contains(pid) <==> exists|k: int|
            0 <= k < lines.len() && row_pid(text::fields(#[trigger] lines[k]), port) == Some(pid),
    decreases lines.len(),
{
    if lines.len() > 0 {
        let init = lines.drop_last();
        let last = row_pid(text::fields(lines.last()), port);
        reported_iff_listed(init, port, pid);
        let all = listeners(lines, port);
        let before = listeners(init, port);
        if before.contains(pid) {
            let k = choose|k: int|
                0 <= k < init.len() && row_pid(text::fields(#[trigger] init[k]), port) == Some(pid);
            assert(lines[k] == init[k]);
            let i = choose|i: int| 0 <= i < before.len() && before[i] == pid;
            assert(all[i] == pid);
        }
        if last == Some(pid) {
            assert(all[all.len() - 1] == pid);
            assert(lines[lines.len() - 1] == lines.last());
        }
        if all.contains(pid) && !before.contains(pid) {
            let i = choose|i: int| 0 <= i < all.len() && all[i] == pid;
            assert(i < before.len() ==> before[i] == pid);
            assert(last == Some(pid));
        }
        if exists|k: int|
            0 <= k < lines.len() && row_pid(text::fields(#[trigger] lines[k]), port) == Some(pid) {
            let k = choose|k: int|
                0 <= k < lines.len() && row_pid(text::fields(#[trigger] lines[k]), port) == Some(
                    pid,
                );
            if k < init.len() {
                assert(init[k] == lines[k]);
                assert(before.contains(pid));
            }
        }
    }
}

/// A wait that is over stays so, whatever is replied.
pub proof fn wait_over_is_final(wait: PortWait, reply: Reply)
    requires
        wait is Over,
    ensures
        wait.after(reply) == wait,
{
}

/// A wait ends on a look at the port, and what that look showed is its result.
pub proof fn wait_ends_on_a_look(timeout: u64, replies: Seq<Reply>, released: bool)
    requires
        (PortWait::Begin { timeout }).after_all(replies) == (PortWait::Over { released }),
    ensures
        exists|k: int|
            0 <= k < replies.len() && #[trigger] replies[k] == Reply::Listening(!released)
                && (PortWait::Begin { timeout }).after_all(replies.take(k)).asks()
                == WaitRequest::ProbePort && (PortWait::Begin { timeout }).after_all(
                replies.take(k + 1),
            ) == (PortWait::Over { released }),
    decreases replies.len(),
{
    let begin = PortWait::Begin { timeout };
    let init = replies.drop_last();
    let n = init.len() as int;
    assert(replies.take(n) =~= init);
    assert(replies.take(n + 1) =~= replies);
    if begin.after_all(init) is Over {
        wait_ends_on_a_look(timeout, init, released);
        let k = choose|k: int|
            0 <= k < init.len() && #[trigger] init[k] == Reply::Listening(!released)
                && begin.after_all(init.take(k)).asks() == WaitRequest::ProbePort
                && begin.after_all(init.take(k + 1)) == (PortWait::Over { released });
        assert(replies[k] == init[k]);
        assert(replies.take(k) =~= init.take(k));
        assert(replies.take(k + 1) =~= init.take(k + 1));
    } else {
        assert(replies[n] == Reply::Listening(!released));
    }
}

/// A wait of at most `timeout`, having got the first `k` replies, was in this state and got this
/// reply.
pub open spec fn wait_stepped(
    timeout: u64,
    replies: Seq<Reply>,
    k: int,
    from: PortWait,
    reply: Reply,
) -> bool {
    &&& 0 <= k < replies.len()
    &&& (PortWait::Begin { timeout }).after_all(replies.take(k)) == from
    &&& replies[k] == reply
}

/// The wait began at `started`.
pub open spec fn wait_began(timeout: u64, replies: Seq<Reply>, started: u64) -> bool {
    exists|k: int| #[trigger]
        wait_stepped(timeout, replies, k, PortWait::Begin { timeout }, Reply::Clock(started))
}

/// The wait began at `started`, and when the clock was last looked at its time was up.
pub open spec fn wait_ran_out(timeout: u64, replies: Seq<Reply>, started: u64) -> bool {
    &&& wait_began(timeout, replies, started)
    &&& exists|k: int, now: u64| #[trigger]
        wait_stepped(timeout, replies, k, PortWait::Clock { started, timeout }, Reply::Clock(now))
            && now >= started + timeout
}

/// What the replies so far say of the state that a wait is in.
spec fn wait_account(limit: u64, replies: Seq<Reply>, wait: PortWait) -> bool {
    match wait {
        PortWait::Begin { timeout } => timeout == limit,
        PortWait::Clock { started, timeout } => timeout == limit && wait_began(
            limit,
            replies,
            started,
        ),
        PortWait::Probe { started, timeout } => timeout == limit && wait_began(
            limit,
            replies,
            started,
        ),
        PortWait::Pause { started, timeout } => timeout == limit && wait_began(
            limit,
            replies,
            started,
        ),
        PortWait::LastProbe => exists|started: u64| #[trigger]
            wait_ran_out(limit, replies, started),
        PortWait::Over { released } => !released ==> exists|started: u64| #[trigger]
            wait_ran_out(limit, replies, started),
    }
}

proof fn lemma_wait_account(timeout: u64, replies: Seq<Reply>)
    ensures
        wait_account(timeout, replies, (PortWait::Begin { timeout }).after_all(replies)),
    decreases replies.len(),
{
    if replies.len() > 0 {
        let init = replies.drop_last();
        let n = init.len() as int;
        lemma_wait_account(timeout, init);
        let before = (PortWait::Begin { timeout }).after_all(init);
        assert(replies.take(n) =~= init);
        assert(wait_stepped(timeout, replies, n, before, replies.last()));
        assert forall|k: int, from: PortWait, reply: Reply| #[trigger]
            wait_stepped(timeout, init, k, from, reply) implies wait_stepped(
            timeout,
            replies,
            k,
            from,
            reply,
        ) by {
            assert(init.take(k) =~= replies.take(k));
        }
        assert forall|started: u64| #[trigger] wait_ran_out(timeout, init, started) implies wait_ran_out(
            timeout,
            replies,
            started,
        ) by {
            let (k, now) = choose|k: int, now: u64| #[trigger]
                wait_stepped(timeout, init, k, PortWait::Clock { started, timeout }, Reply::Clock(now))
                    && now >= started + timeout;
            assert(wait_stepped(
                timeout,
                replies,
                k,
                PortWait::Clock { started, timeout },
                Reply::Clock(now),
            ));
        }
        match (before, replies.last()) {
            (PortWait::Begin { .. }, Reply::Clock(now)) => {
                assert(wait_stepped(
                    timeout,
                    replies,
                    n,
                    PortWait::Begin { timeout },
                    Reply::Clock(now),
                ));
            },
            (PortWait::Clock { started, .. }, Reply::Clock(now)) => {
                assert(wait_stepped(
                    timeout,
                    replies,
                    n,
                    PortWait::Clock { started, timeout },
                    Reply::Clock(now),
                ));
                if now >= started + timeout {
                    assert(wait_ran_out(timeout, replies, started));
                }
            },
            _ => {},
        }
    }
}

/// A wait gives up only once its time is up.
pub proof fn wait_gives_up_late(timeout: u64, replies: Seq<Reply>)
    requires
        (PortWait::Begin { timeout }).after_all(replies) == (PortWait::Over { released: false }),
    ensures
        exists|started: u64| #[trigger] wait_ran_out(timeout, replies, started),
{
    lemma_wait_account(timeout, replies);
}

/// Every command is what it was given, with its console hidden and nothing to read; what it writes is
/// captured or lost.
pub proof fn commands_run_out_of_sight(program: Seq<char>, args: Seq<Seq<char>>)
    ensures
        forall|c: CommandModel|
            c == captured(program, args) || c == silent(program, args) ==> {
                &&& #[trigger] c.program == program
                &&& c.args == args
                &&& c.creation_flags == 0x0800_0000
                &&& c.stdin == Stream::Null
            },
        captured(program, args).stdout == Stream::Captured,
        captured(program, args).stderr == Stream::Captured,
        silent(program, args).stdout == Stream::Null,
        silent(program, args).stderr == Stream::Null,
{
}

/// The command that kills a process spells out the number of that process, and kills its tree by
/// force.
pub proof fn kill_names_its_process(pid: u32)
    ensures
        taskkill(pid).program == "taskkill"@,
        taskkill(pid).args.len() == 4,
        taskkill(pid).args[0] == "/PID"@,
        taskkill(pid).args[1] == text::decimal(pid as nat),
        text::parsed_u32(taskkill(pid).args[1]) == Some(pid),
        taskkill(pid).args[2] == "/T"@,
        taskkill(pid).args[3] == "/F"@,
        taskkill(pid).creation_flags == 0x0800_0000,
        taskkill(pid).stdin == Stream::Null,
        taskkill(pid).stdout == Stream::Null,
        taskkill(pid).stderr == Stream::Null,
{
    text::decimal_reads_back(pid);
}

/// A local address with this port: a host, a colon and the numeral of the port.
pub open spec fn address(host: Seq<char>, port: u16) -> Seq<char> {
    host + (":"@ + text::decimal(port as nat))
}

/// A row names a process as listening on a port if and only if it has five fields or more, its
/// protocol is TCP, its state is LISTENING, its local address is a host with that port, and its last
/// field reads as the number of the process. A row in any other state names nobody.
pub proof fn row_names_who_listens(row: Seq<Seq<char>>, port: u16, pid: u32)
    ensures
        row_pid(row, port) == Some(pid) <==> {
            &&& row.len() >= 5
            &&& row[0] == "TCP"@
            &&& row[3] == "LISTENING"@
            &&& exists|host: Seq<char>| row[1] == #[trigger] address(host, port)
            &&& text::parsed_u32(row[row.len() - 1]) == Some(pid)
        },
{
    reveal_strlit(":");
    assert(":"@ =~= seq![':']);
    let suffix = port_suffix(port);
    assert(suffix =~= ":"@ + text::decimal(port as nat));
    if row.len() >= 5 {
        let local = row[1];
        if suffix.is_suffix_of(local) {
            let host = local.take(local.len() - suffix.len());
            assert(local =~= host + local.subrange(
                local.len() - suffix.len(),
                local.len() as int,
            ));
            assert(local == address(host, port));
        }
        if exists|host: Seq<char>| local == #[trigger] address(host, port) {
            let host = choose|host: Seq<char>| local == #[trigger] address(host, port);
            assert(local.subrange(host.len() as int, local.len() as int) =~= suffix);
        }
    }
}

/// One line names the process that its row names, or nobody; no line names nobody.
pub proof fn line_names_what_its_row_names(line: Seq<char>, port: u16)
    ensures
        listeners(seq![], port) == Seq::<u32>::empty(),
        row_pid(text::fields(line), port) is None ==> listeners(seq![line], port) == Seq::<
            u32,
        >::empty(),
        row_pid(text::fields(line), port) is Some ==> listeners(seq![line], port)
            == seq![row_pid(text::fields(line), port)->Some_0],
{
    let lines = seq![line];
    assert(lines.drop_last() =~= Seq::<Seq<char>>::empty());
    assert(listeners(Seq::<Seq<char>>::empty(), port) =~= Seq::<u32>::empty());
    if let Some(pid) = row_pid(text::fields(line), port) {
        assert(listeners(lines, port) =~= seq![pid]);
    }
}

/// A line of a listing is decoded by itself: as UTF-8 where it is that, and else as
/// `String::from_utf8_lossy` does it.
pub proof fn line_is_decoded_by_itself(line: Seq<u8>, port: u16)
    requires
        !line.contains(text::LINE_FEED),
    ensures
        vstd::utf8::valid_utf8(line) ==> listeners_in(line, port) == listeners(
            seq![vstd::utf8::decode_utf8(line)],
            port,
        ),
        !vstd::utf8::valid_utf8(line) ==> listeners_in(line, port) == listeners(
            seq![utf8_lossy(line)],
            port,
        ),
{
    text::unmarked_is_one_piece(line, text::LINE_FEED);
    assert(listing_lines(line) =~= seq![text_in(line)]);
}

/// A run tells what its output names, if it was successful; a run that failed, or that there was
/// none of, tells of nobody.
pub proof fn run_tells_what_its_output_names(out: CommandOutput, port: u16)
    ensures
        out.success ==> listening_pids(Some(out), port) == listeners_in(out.stdout@, port),
        !out.success ==> listening_pids(Some(out), port).len() == 0,
        listening_pids(None, port).len() == 0,
{
}

/// A successful run reports a process if and only if one of the lines of its output is a TCP row in
/// the state LISTENING, with the port at the end of its local address and the number of that process
/// at its end.
pub proof fn reported_iff_a_row_says_so(out: CommandOutput, port: u16, pid: u32)
    requires
        out.success,
    ensures
        listening_pids(Some(out), port).contains(pid) <==> exists|k: int| #![auto]
            {
                &&& 0 <= k < listing_lines(out.stdout@).len()
                &&& text::fields(listing_lines(out.stdout@)[k]).len() >= 5
                &&& text::fields(listing_lines(out.stdout@)[k])[0] == "TCP"@
                &&& text::fields(listing_lines(out.stdout@)[k])[3] == "LISTENING"@
                &&& exists|host: Seq<char>|
                    text::fields(listing_lines(out.stdout@)[k])[1] == #[trigger] address(host, port)
                &&& text::parsed_u32(text::fields(listing_lines(out.stdout@)[k]).last()) == Some(pid)
            },
{
    let lines = listing_lines(out.stdout@);
    reported_iff_listed(lines, port, pid);
    assert forall|k: int| 0 <= k < lines.len() implies (row_pid(
        text::fields(#[trigger] lines[k]),
        port,
    ) == Some(pid) <==> {
        &&& text::fields(lines[k]).len() >= 5
        &&& text::fields(lines[k])[0] == "TCP"@
        &&& text::fields(lines[k])[3] == "LISTENING"@
        &&& exists|host: Seq<char>| text::fields(lines[k])[1] == #[trigger] address(host, port)
        &&& text::parsed_u32(text::fields(lines[k]).last()) == Some(pid)
    }) by {
        row_names_who_listens(text::fields(lines[k]), port, pid);
    }
}

/// A wait first reads the clock for when it began, and then for whether there is time left.
pub proof fn wait_begins_now(timeout: u64, now: u64)
    ensures
        (PortWait::Begin { timeout }).asks() == WaitRequest::ReadClock,
        (PortWait::Begin { timeout }).after(Reply::Clock(now)) == (PortWait::Clock {
            started: now,
            timeout,
        }),
        (PortWait::Clock { started: now, timeout }).asks() == WaitRequest::ReadClock,
{
}

/// While there is time left, a wait looks at the port. If that is free, the wait is over with success;
/// if not, it sleeps 300 milliseconds and reads the clock again.
pub proof fn wait_looks_while_there_is_time(started: u64, timeout: u64, now: u64)
    requires
        now < started + timeout,
    ensures
        ({
            let looking = (PortWait::Clock { started, timeout }).after(Reply::Clock(now));
            &&& looking.asks() == WaitRequest::ProbePort
            &&& looking.after(Reply::Listening(false)).asks() == WaitRequest::Return(true)
            &&& looking.after(Reply::Listening(true)).asks() == WaitRequest::Sleep(300_000_000)
            &&& looking.after(Reply::Listening(true)).after(Reply::Done) == (PortWait::Clock {
                started,
                timeout,
            })
        }),
{
}

/// Once its time is up, a wait is over after one more look at the port, and that look is its result.
pub proof fn wait_is_over_after_its_time(started: u64, timeout: u64, now: u64, listening: bool)
    requires
        now >= started + timeout,
    ensures
        ({
            let looking = (PortWait::Clock { started, timeout }).after(Reply::Clock(now));
            &&& looking == PortWait::LastProbe
            &&& looking.asks() == WaitRequest::ProbePort
            &&& looking.after(Reply::Listening(listening)) == (PortWait::Over {
                released: !listening,
            })
            &&& looking.after(Reply::Listening(listening)).asks() == WaitRequest::Return(!listening)
        }),
{
}

/// A look tells the result of a wait as soon as it finds the port free, whatever is left of its time.
pub proof fn wait_ends_when_the_port_is_free(wait: PortWait)
    requires
        wait.asks() == WaitRequest::ProbePort,
    ensures
        wait.after(Reply::Listening(false)).asks() == WaitRequest::Return(true),
{
}

/// What a wait asks for tells which replies it takes; any other changes nothing.
pub proof fn wait_ignores_other_replies(wait: PortWait, reply: Reply)
    requires
        wait.asks() == WaitRequest::ReadClock ==> !(reply is Clock),
        wait.asks() == WaitRequest::ProbePort ==> !(reply is Listening),
        wait.asks() is Sleep ==> !(reply is Done),
    ensures
        wait.after(reply) == wait,
{
}

/// As long as a wait goes on, the time that it began at and the time that it has stay the same. It
/// goes on until the clock shows that its time is up, or a look shows that the port is free.
pub proof fn wait_keeps_its_time(wait: PortWait, reply: Reply, started: u64, timeout: u64)
    requires
        ({
            ||| wait == (PortWait::Clock { started, timeout })
            ||| wait == (PortWait::Probe { started, timeout })
            ||| wait == (PortWait::Pause { started, timeout })
        }),
    ensures
        ({
            let next = wait.after(reply);
            ||| next == (PortWait::Clock { started, timeout })
            ||| next == (PortWait::Probe { started, timeout })
            ||| next == (PortWait::Pause { started, timeout })
            ||| next == PortWait::LastProbe && reply is Clock && reply->Clock_0 >= started + timeout
            ||| next == (PortWait::Over { released: true }) && reply == Reply::Listening(false)
        }),
{
}

} // verus!
