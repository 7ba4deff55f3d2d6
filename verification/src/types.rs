//! The records that the inspector produces: sockets, processes, findings and
//! list entries, each with a view over mathematical values.
use vstd::prelude::*;
use crate::text::{chars_of, is_literal};

verus! {

/// The text of an optional string.
pub open spec fn opt_text(o: Option<String>) -> Option<Seq<char>> {
    match o {
        Some(s) => Some(s@),
        None => None,
    }
}

pub fn clone_opt_string(o: &Option<String>) -> (r: Option<String>)
    ensures
        opt_text(r) == opt_text(*o),
{
    match o {
        Some(s) => Some(s.clone()),
        None => None,
    }
}

#[derive(Debug, PartialEq, Eq)]
pub enum Protocol {
    Tcp,
    Udp,
    Tcp6,
    Udp6,
    Unknown(String),
}

pub enum ProtocolView {
    Tcp,
    Udp,
    Tcp6,
    Udp6,
    Unknown(Seq<char>),
}

impl View for Protocol {
    type V = ProtocolView;

    open spec fn view(&self) -> ProtocolView {
        match self {
            Protocol::Tcp => ProtocolView::Tcp,
            Protocol::Udp => ProtocolView::Udp,
            Protocol::Tcp6 => ProtocolView::Tcp6,
            Protocol::Udp6 => ProtocolView::Udp6,
            Protocol::Unknown(s) => ProtocolView::Unknown(s@),
        }
    }
}

impl Clone for Protocol {
    fn clone(&self) -> (r: Self)
        ensures
            r@ == self@,
    {
        match self {
            Protocol::Tcp => Protocol::Tcp,
            Protocol::Udp => Protocol::Udp,
            Protocol::Tcp6 => Protocol::Tcp6,
            Protocol::Udp6 => Protocol::Udp6,
            Protocol::Unknown(s) => Protocol::Unknown(s.clone()),
        }
    }
}

/// The name a protocol is shown by.
pub open spec fn protocol_text(p: ProtocolView) -> Seq<char> {
    match p {
        ProtocolView::Tcp => "TCP"@,
        ProtocolView::Udp => "UDP"@,
        ProtocolView::Tcp6 => "TCP6"@,
        ProtocolView::Udp6 => "UDP6"@,
        ProtocolView::Unknown(s) => s,
    }
}

/// The rank by which the list orders protocols: TCP, TCP6, UDP, UDP6, then
/// any other.
pub open spec fn protocol_rank(p: ProtocolView) -> u8 {
    match p {
        ProtocolView::Tcp => 0,
        ProtocolView::Tcp6 => 1,
        ProtocolView::Udp => 2,
        ProtocolView::Udp6 => 3,
        ProtocolView::Unknown(_) => 4,
    }
}

impl Protocol {
    /// Stable sort order: TCP < TCP6 < UDP < UDP6 < unknown
    pub fn sort_key(&self) -> (k: u8)
        ensures
            k == protocol_rank(self@),
    {
        match self {
            Protocol::Tcp => 0,
            Protocol::Tcp6 => 1,
            Protocol::Udp => 2,
            Protocol::Udp6 => 3,
            Protocol::Unknown(_) => 4,
        }
    }

    /// The name this protocol is shown by: `TCP`, `UDP`, `TCP6`, `UDP6`, or
    /// the raw name of an unknown one.
    pub fn to_string(&self) -> (s: String)
        ensures
            s@ == protocol_text(self@),
    {
        match self {
            Protocol::Tcp => String::from_str("TCP"),
            Protocol::Udp => String::from_str("UDP"),
            Protocol::Tcp6 => String::from_str("TCP6"),
            Protocol::Udp6 => String::from_str("UDP6"),
            Protocol::Unknown(s) => s.clone(),
        }
    }
}

#[derive(Debug, PartialEq, Eq)]
pub enum TcpState {
    Listen,
    Established,
    SynSent,
    SynReceived,
    FinWait1,
    FinWait2,
    TimeWait,
    Closed,
    CloseWait,
    LastAck,
    Closing,
    Unknown(String),
}

pub enum TcpStateView {
    Listen,
    Established,
    SynSent,
    SynReceived,
    FinWait1,
    FinWait2,
    TimeWait,
    Closed,
    CloseWait,
    LastAck,
    Closing,
    Unknown(Seq<char>),
}

impl View for TcpState {
    type V = TcpStateView;

    open spec fn view(&self) -> TcpStateView {
        match self {
            TcpState::Listen => TcpStateView::Listen,
            TcpState::Established => TcpStateView::Established,
            TcpState::SynSent => TcpStateView::SynSent,
            TcpState::SynReceived => TcpStateView::SynReceived,
            TcpState::FinWait1 => TcpStateView::FinWait1,
            TcpState::FinWait2 => TcpStateView::FinWait2,
            TcpState::TimeWait => TcpStateView::TimeWait,
            TcpState::Closed => TcpStateView::Closed,
            TcpState::CloseWait => TcpStateView::CloseWait,
            TcpState::LastAck => TcpStateView::LastAck,
            TcpState::Closing => TcpStateView::Closing,
            TcpState::Unknown(s) => TcpStateView::Unknown(s@),
        }
    }
}

impl Clone for TcpState {
    fn clone(&self) -> (r: Self)
        ensures
            r@ == self@,
    {
        match self {
            TcpState::Listen => TcpState::Listen,
            TcpState::Established => TcpState::Established,
            TcpState::SynSent => TcpState::SynSent,
            TcpState::SynReceived => TcpState::SynReceived,
            TcpState::FinWait1 => TcpState::FinWait1,
            TcpState::FinWait2 => TcpState::FinWait2,
            TcpState::TimeWait => TcpState::TimeWait,
            TcpState::Closed => TcpState::Closed,
            TcpState::CloseWait => TcpState::CloseWait,
            TcpState::LastAck => TcpState::LastAck,
            TcpState::Closing => TcpState::Closing,
            TcpState::Unknown(s) => TcpState::Unknown(s.clone()),
        }
    }
}

/// The view of an optional state.
pub open spec fn opt_state(o: Option<TcpState>) -> Option<TcpStateView> {
    match o {
        Some(s) => Some(s@),
        None => None,
    }
}

pub fn clone_opt_state(o: &Option<TcpState>) -> (r: Option<TcpState>)
    ensures
        opt_state(r) == opt_state(*o),
{
    match o {
        Some(s) => Some(s.clone()),
        None => None,
    }
}

/// The name a state is shown by.
pub open spec fn state_text(s: TcpStateView) -> Seq<char> {
    match s {
        TcpStateView::Listen => "LISTEN"@,
        TcpStateView::Established => "ESTABLISHED"@,
        TcpStateView::SynSent => "SYN_SENT"@,
        TcpStateView::SynReceived => "SYN_RECEIVED"@,
        TcpStateView::FinWait1 => "FIN_WAIT1"@,
        TcpStateView::FinWait2 => "FIN_WAIT2"@,
        TcpStateView::TimeWait => "TIME_WAIT"@,
        TcpStateView::Closed => "CLOSED"@,
        TcpStateView::CloseWait => "CLOSE_WAIT"@,
        TcpStateView::LastAck => "LAST_ACK"@,
        TcpStateView::Closing => "CLOSING"@,
        TcpStateView::Unknown(s) => s,
    }
}

/// The state that an upper-cased lsof state name stands for.
pub open spec fn lsof_state(u: Seq<char>) -> TcpStateView {
    if u == "LISTEN"@ {
        TcpStateView::Listen
    } else if u == "ESTABLISHED"@ {
        TcpStateView::Established
    } else if u == "SYN_SENT"@ {
        TcpStateView::SynSent
    } else if u == "SYN_RECEIVED"@ || u == "SYN_RECV"@ {
        TcpStateView::SynReceived
    } else if u == "FIN_WAIT1"@ || u == "FIN_WAIT_1"@ {
        TcpStateView::FinWait1
    } else if u == "FIN_WAIT2"@ || u == "FIN_WAIT_2"@ {
        TcpStateView::FinWait2
    } else if u == "TIME_WAIT"@ {
        TcpStateView::TimeWait
    } else if u == "CLOSED"@ {
        TcpStateView::Closed
    } else if u == "CLOSE_WAIT"@ {
        TcpStateView::CloseWait
    } else if u == "LAST_ACK"@ {
        TcpStateView::LastAck
    } else if u == "CLOSING"@ {
        TcpStateView::Closing
    } else {
        TcpStateView::Unknown(u)
    }
}

/// The state of a two-digit hexadecimal code of `/proc/net/tcp`.
pub open spec fn hex_state(h: Seq<char>) -> TcpStateView {
    if h == "01"@ {
        TcpStateView::Established
    } else if h == "02"@ {
        TcpStateView::SynSent
    } else if h == "03"@ {
        TcpStateView::SynReceived
    } else if h == "04"@ {
        TcpStateView::FinWait1
    } else if h == "05"@ {
        TcpStateView::FinWait2
    } else if h == "06"@ {
        TcpStateView::TimeWait
    } else if h == "07"@ {
        TcpStateView::Closed
    } else if h == "08"@ {
        TcpStateView::CloseWait
    } else if h == "09"@ {
        TcpStateView::LastAck
    } else if h == "0A"@ || h == "0a"@ {
        TcpStateView::Listen
    } else if h == "0B"@ || h == "0b"@ {
        TcpStateView::Closing
    } else {
        TcpStateView::Unknown("0x"@ + h)
    }
}

/// The Unicode upper case of a string: what `str::to_uppercase` returns for
/// it (a function of the string alone).
pub uninterp spec fn unicode_uppercase(s: Seq<char>) -> Seq<char>;

/// Whether every character of `s` is ASCII.
pub open spec fn is_ascii_text(s: Seq<char>) -> bool {
    forall|i: int| 0 <= i < s.len() ==> (#[trigger] s[i] as u32) < 0x80
}

/// The upper case of an ASCII character: `a` to `z` become `A` to `Z`, any
/// other character stays as it is.
pub open spec fn ascii_upper_char(c: char) -> char {
    if 'a' <= c && c <= 'z' {
        ((c as u32) - 32) as char
    } else {
        c
    }
}

/// `s` with each character upper-cased by `ascii_upper_char`.
pub open spec fn ascii_upper(s: Seq<char>) -> Seq<char> {
    s.map_values(|c: char| ascii_upper_char(c))
}

/// Calls `str::to_uppercase`. The contract names its result
/// (`unicode_uppercase` of the argument), since the Unicode case tables
/// take pages to state, and states the part of them that covers ASCII text:
/// the Unicode upper case that the documentation refers to maps `a` to `z`
/// onto `A` to `Z` and leaves every other ASCII character as it is. Nothing
/// is said of other characters.
#[verifier::external_body]
fn to_uppercase(s: &str) -> (r: String)
    ensures
        r@ == unicode_uppercase(s@),
        is_ascii_text(s@) ==> r@ == ascii_upper(s@),
{
    s.to_uppercase()
}

/// What `TcpState::from_lsof` gives for a name.
pub open spec fn spec_from_lsof(s: Seq<char>) -> TcpStateView {
    lsof_state(unicode_uppercase(s))
}

impl TcpState {
    /// Parses an lsof state name, in any letter case.
    pub fn from_lsof(s: &str) -> (r: Self)
        ensures
            r@ == spec_from_lsof(s@),
            is_ascii_text(s@) ==> r@ == lsof_state(ascii_upper(s@)),
    {
        let upper = to_uppercase(s);
        Self::from_uppercase(upper.as_str())
    }

    /// The state an already upper-cased lsof state name stands for; any other
    /// name is kept as `Unknown`.
    pub fn from_uppercase(u: &str) -> (r: Self)
        ensures
            r@ == lsof_state(u@),
    {
        let v = chars_of(u);
        if is_literal(&v, "LISTEN") {
            TcpState::Listen
        } else if is_literal(&v, "ESTABLISHED") {
            TcpState::Established
        } else if is_literal(&v, "SYN_SENT") {
            TcpState::SynSent
        } else if is_literal(&v, "SYN_RECEIVED") || is_literal(&v, "SYN_RECV") {
            TcpState::SynReceived
        } else if is_literal(&v, "FIN_WAIT1") || is_literal(&v, "FIN_WAIT_1") {
            TcpState::FinWait1
        } else if is_literal(&v, "FIN_WAIT2") || is_literal(&v, "FIN_WAIT_2") {
            TcpState::FinWait2
        } else if is_literal(&v, "TIME_WAIT") {
            TcpState::TimeWait
        } else if is_literal(&v, "CLOSED") {
            TcpState::Closed
        } else if is_literal(&v, "CLOSE_WAIT") {
            TcpState::CloseWait
        } else if is_literal(&v, "LAST_ACK") {
            TcpState::LastAck
        } else if is_literal(&v, "CLOSING") {
            TcpState::Closing
        } else {
            TcpState::Unknown(String::from_str(u))
        }
    }

    /// Linux `/proc/net/tcp` hex state codes
    pub fn from_hex(hex: &str) -> (r: Self)
        ensures
            r@ == hex_state(hex@),
    {
        let v = chars_of(hex);
        if is_literal(&v, "01") {
            TcpState::Established
        } else if is_literal(&v, "02") {
            TcpState::SynSent
        } else if is_literal(&v, "03") {
            TcpState::SynReceived
        } else if is_literal(&v, "04") {
            TcpState::FinWait1
        } else if is_literal(&v, "05") {
            TcpState::FinWait2
        } else if is_literal(&v, "06") {
            TcpState::TimeWait
        } else if is_literal(&v, "07") {
            TcpState::Closed
        } else if is_literal(&v, "08") {
            TcpState::CloseWait
        } else if is_literal(&v, "09") {
            TcpState::LastAck
        } else if is_literal(&v, "0A") || is_literal(&v, "0a") {
            TcpState::Listen
        } else if is_literal(&v, "0B") || is_literal(&v, "0b") {
            TcpState::Closing
        } else {
            let mut s = String::from_str("0x");
            s.append(hex);
            TcpState::Unknown(s)
        }
    }

    /// The name this state is shown by (`LISTEN`, `ESTABLISHED`, ...), or the
    /// raw text of an unknown one.
    pub fn to_string(&self) -> (s: String)
        ensures
            s@ == state_text(self@),
    {
        match self {
            TcpState::Listen => String::from_str("LISTEN"),
            TcpState::Established => String::from_str("ESTABLISHED"),
            TcpState::SynSent => String::from_str("SYN_SENT"),
            TcpState::SynReceived => String::from_str("SYN_RECEIVED"),
            TcpState::FinWait1 => String::from_str("FIN_WAIT1"),
            TcpState::FinWait2 => String::from_str("FIN_WAIT2"),
            TcpState::TimeWait => String::from_str("TIME_WAIT"),
            TcpState::Closed => String::from_str("CLOSED"),
            TcpState::CloseWait => String::from_str("CLOSE_WAIT"),
            TcpState::LastAck => String::from_str("LAST_ACK"),
            TcpState::Closing => String::from_str("CLOSING"),
            TcpState::Unknown(s) => s.clone(),
        }
    }
}

#[derive(Debug)]
pub struct SocketInfo {
    pub protocol: Protocol,
    pub local_addr: String,
    pub local_port: u16,
    pub remote_addr: Option<String>,
    pub remote_port: Option<u16>,
    pub state: Option<TcpState>,
    pub fd: String,
}

pub struct SocketInfoView {
    pub protocol: ProtocolView,
    pub local_addr: Seq<char>,
    pub local_port: u16,
    pub remote_addr: Option<Seq<char>>,
    pub remote_port: Option<u16>,
    pub state: Option<TcpStateView>,
    pub fd: Seq<char>,
}

impl View for SocketInfo {
    type V = SocketInfoView;

    open spec fn view(&self) -> SocketInfoView {
        SocketInfoView {
            protocol: self.protocol@,
            local_addr: self.local_addr@,
            local_port: self.local_port,
            remote_addr: opt_text(self.remote_addr),
            remote_port: self.remote_port,
            state: opt_state(self.state),
            fd: self.fd@,
        }
    }
}

impl Clone for SocketInfo {
    fn clone(&self) -> (r: Self)
        ensures
            r@ == self@,
    {
        SocketInfo {
            protocol: self.protocol.clone(),
            local_addr: self.local_addr.clone(),
            local_port: self.local_port,
            remote_addr: clone_opt_string(&self.remote_addr),
            remote_port: self.remote_port,
            state: clone_opt_state(&self.state),
            fd: self.fd.clone(),
        }
    }
}

#[derive(Debug)]
pub struct ProcessInfo {
    pub pid: u32,
    pub name: String,
    pub cmdline: String,
    pub user: String,
    pub parent_pid: Option<u32>,
    pub parent_name: Option<String>,
    pub memory_bytes: u64,
    pub virtual_memory_bytes: u64,
    pub run_time_secs: u64,
    pub start_time_secs: u64,
    pub cwd: Option<String>,
    pub exe: Option<String>,
}

pub struct ProcessInfoView {
    pub pid: u32,
    pub name: Seq<char>,
    pub cmdline: Seq<char>,
    pub user: Seq<char>,
    pub parent_pid: Option<u32>,
    pub parent_name: Option<Seq<char>>,
    pub memory_bytes: u64,
    pub virtual_memory_bytes: u64,
    pub run_time_secs: u64,
    pub start_time_secs: u64,
    pub cwd: Option<Seq<char>>,
    pub exe: Option<Seq<char>>,
}

impl View for ProcessInfo {
    type V = ProcessInfoView;

    open spec fn view(&self) -> ProcessInfoView {
        ProcessInfoView {
            pid: self.pid,
            name: self.name@,
            cmdline: self.cmdline@,
            user: self.user@,
            parent_pid: self.parent_pid,
            parent_name: opt_text(self.parent_name),
            memory_bytes: self.memory_bytes,
            virtual_memory_bytes: self.virtual_memory_bytes,
            run_time_secs: self.run_time_secs,
            start_time_secs: self.start_time_secs,
            cwd: opt_text(self.cwd),
            exe: opt_text(self.exe),
        }
    }
}

impl Clone for ProcessInfo {
    fn clone(&self) -> (r: Self)
        ensures
            r@ == self@,
    {
        ProcessInfo {
            pid: self.pid,
            name: self.name.clone(),
            cmdline: self.cmdline.clone(),
            user: self.user.clone(),
            parent_pid: self.parent_pid,
            parent_name: clone_opt_string(&self.parent_name),
            memory_bytes: self.memory_bytes,
            virtual_memory_bytes: self.virtual_memory_bytes,
            run_time_secs: self.run_time_secs,
            start_time_secs: self.start_time_secs,
            cwd: clone_opt_string(&self.cwd),
            exe: clone_opt_string(&self.exe),
        }
    }
}

#[derive(Debug)]
pub struct Finding {
    pub socket: SocketInfo,
    pub process: ProcessInfo,
}

pub struct FindingView {
    pub socket: SocketInfoView,
    pub process: ProcessInfoView,
}

impl View for Finding {
    type V = FindingView;

    open spec fn view(&self) -> FindingView {
        FindingView { socket: self.socket@, process: self.process@ }
    }
}

/// Lightweight entry used by the list view — populated directly from lsof/proc
/// without the full process enrichment pass.
#[derive(Debug)]
pub struct ListEntry {
    pub port: u16,
    pub protocol: Protocol,
    pub local_addr: String,
    pub state: Option<TcpState>,
    pub process_name: String,
    pub pid: u32,
    pub user: String,
}

pub struct ListEntryView {
    pub port: u16,
    pub protocol: ProtocolView,
    pub local_addr: Seq<char>,
    pub state: Option<TcpStateView>,
    pub process_name: Seq<char>,
    pub pid: u32,
    pub user: Seq<char>,
}

impl View for ListEntry {
    type V = ListEntryView;

    open spec fn view(&self) -> ListEntryView {
        ListEntryView {
            port: self.port,
            protocol: self.protocol@,
            local_addr: self.local_addr@,
            state: opt_state(self.state),
            process_name: self.process_name@,
            pid: self.pid,
            user: self.user@,
        }
    }
}

impl Clone for ListEntry {
    fn clone(&self) -> (r: Self)
        ensures
            r@ == self@,
    {
        ListEntry {
            port: self.port,
            protocol: self.protocol.clone(),
            local_addr: self.local_addr.clone(),
            state: clone_opt_state(&self.state),
            process_name: self.process_name.clone(),
            pid: self.pid,
            user: self.user.clone(),
        }
    }
}

/// The views of a sequence of findings.
pub open spec fn finding_views(v: Seq<Finding>) -> Seq<FindingView> {
    v.map_values(|f: Finding| f@)
}

/// The views of a sequence of list entries.
pub open spec fn entry_views(v: Seq<ListEntry>) -> Seq<ListEntryView> {
    v.map_values(|e: ListEntry| e@)
}

/// `from_lsof` reads a name the same way in any letter case: names with the
/// same upper case give the same state.
pub proof fn lemma_from_lsof_case_insensitive(a: Seq<char>, b: Seq<char>)
    requires
        unicode_uppercase(a) == unicode_uppercase(b),
    ensures
        spec_from_lsof(a) == spec_from_lsof(b),
{
}

/// The name a known state is shown by reads back as that state.
pub proof fn lemma_state_name_reads_back(s: TcpStateView)
    requires
        !(s is Unknown),
    ensures
        lsof_state(state_text(s)) == s,
{
    reveal_strlit("LISTEN");
    reveal_strlit("ESTABLISHED");
    reveal_strlit("SYN_SENT");
    reveal_strlit("SYN_RECEIVED");
    reveal_strlit("SYN_RECV");
    reveal_strlit("FIN_WAIT1");
    reveal_strlit("FIN_WAIT_1");
    reveal_strlit("FIN_WAIT2");
    reveal_strlit("FIN_WAIT_2");
    reveal_strlit("TIME_WAIT");
    reveal_strlit("CLOSED");
    reveal_strlit("CLOSE_WAIT");
    reveal_strlit("LAST_ACK");
    reveal_strlit("CLOSING");
    match s {
        TcpStateView::Listen => {

        },
        TcpStateView::Established => {
            assert("ESTABLISHED"@.len() != "LISTEN"@.len());
        },
        TcpStateView::SynSent => {
            assert("SYN_SENT"@.len() != "LISTEN"@.len());
            assert("SYN_SENT"@.len() != "ESTABLISHED"@.len());
        },
        TcpStateView::SynReceived => {
            assert("SYN_RECEIVED"@.len() != "LISTEN"@.len());
            assert("SYN_RECEIVED"@.len() != "ESTABLISHED"@.len());
            assert("SYN_RECEIVED"@.len() != "SYN_SENT"@.len());
        },
        TcpStateView::FinWait1 => {
            assert("FIN_WAIT1"@.len() != "LISTEN"@.len());
            assert("FIN_WAIT1"@.len() != "ESTABLISHED"@.len());
            assert("FIN_WAIT1"@.len() != "SYN_SENT"@.len());
            assert("FIN_WAIT1"@.len() != "SYN_RECEIVED"@.len());
            assert("FIN_WAIT1"@.len() != "SYN_RECV"@.len());
        },
        TcpStateView::FinWait2 => {
            assert("FIN_WAIT2"@.len() != "LISTEN"@.len());
            assert("FIN_WAIT2"@.len() != "ESTABLISHED"@.len());
            assert("FIN_WAIT2"@.len() != "SYN_SENT"@.len());
            assert("FIN_WAIT2"@.len() != "SYN_RECEIVED"@.len());
            assert("FIN_WAIT2"@.len() != "SYN_RECV"@.len());
            assert("FIN_WAIT2"@[8] != "FIN_WAIT1"@[8]);
            assert("FIN_WAIT2"@.len() != "FIN_WAIT_1"@.len());
        },
        TcpStateView::TimeWait => {
            assert("TIME_WAIT"@.len() != "LISTEN"@.len());
            assert("TIME_WAIT"@.len() != "ESTABLISHED"@.len());
            assert("TIME_WAIT"@.len() != "SYN_SENT"@.len());
            assert("TIME_WAIT"@.len() != "SYN_RECEIVED"@.len());
            assert("TIME_WAIT"@.len() != "SYN_RECV"@.len());
            assert("TIME_WAIT"@[0] != "FIN_WAIT1"@[0]);
            assert("TIME_WAIT"@.len() != "FIN_WAIT_1"@.len());
            assert("TIME_WAIT"@[0] != "FIN_WAIT2"@[0]);
            assert("TIME_WAIT"@.len() != "FIN_WAIT_2"@.len());
        },
        TcpStateView::Closed => {
            assert("CLOSED"@[0] != "LISTEN"@[0]);
            assert("CLOSED"@.len() != "ESTABLISHED"@.len());
            assert("CLOSED"@.len() != "SYN_SENT"@.len());
            assert("CLOSED"@.len() != "SYN_RECEIVED"@.len());
            assert("CLOSED"@.len() != "SYN_RECV"@.len());
            assert("CLOSED"@.len() != "FIN_WAIT1"@.len());
            assert("CLOSED"@.len() != "FIN_WAIT_1"@.len());
            assert("CLOSED"@.len() != "FIN_WAIT2"@.len());
            assert("CLOSED"@.len() != "FIN_WAIT_2"@.len());
            assert("CLOSED"@.len() != "TIME_WAIT"@.len());
        },
        TcpStateView::CloseWait => {
            assert("CLOSE_WAIT"@.len() != "LISTEN"@.len());
            assert("CLOSE_WAIT"@.len() != "ESTABLISHED"@.len());
            assert("CLOSE_WAIT"@.len() != "SYN_SENT"@.len());
            assert("CLOSE_WAIT"@.len() != "SYN_RECEIVED"@.len());
            assert("CLOSE_WAIT"@.len() != "SYN_RECV"@.len());
            assert("CLOSE_WAIT"@.len() != "FIN_WAIT1"@.len());
            assert("CLOSE_WAIT"@[0] != "FIN_WAIT_1"@[0]);
            assert("CLOSE_WAIT"@.len() != "FIN_WAIT2"@.len());
            assert("CLOSE_WAIT"@[0] != "FIN_WAIT_2"@[0]);
            assert("CLOSE_WAIT"@.len() != "TIME_WAIT"@.len());
            assert("CLOSE_WAIT"@.len() != "CLOSED"@.len());
        },
        TcpStateView::LastAck => {
            assert("LAST_ACK"@.len() != "LISTEN"@.len());
            assert("LAST_ACK"@.len() != "ESTABLISHED"@.len());
            assert("LAST_ACK"@[0] != "SYN_SENT"@[0]);
            assert("LAST_ACK"@.len() != "SYN_RECEIVED"@.len());
            assert("LAST_ACK"@[0] != "SYN_RECV"@[0]);
            assert("LAST_ACK"@.len() != "FIN_WAIT1"@.len());
            assert("LAST_ACK"@.len() != "FIN_WAIT_1"@.len());
            assert("LAST_ACK"@.len() != "FIN_WAIT2"@.len());
            assert("LAST_ACK"@.len() != "FIN_WAIT_2"@.len());
            assert("LAST_ACK"@.len() != "TIME_WAIT"@.len());
            assert("LAST_ACK"@.len() != "CLOSED"@.len());
            assert("LAST_ACK"@.len() != "CLOSE_WAIT"@.len());
        },
        TcpStateView::Closing => {
            assert("CLOSING"@.len() != "LISTEN"@.len());
            assert("CLOSING"@.len() != "ESTABLISHED"@.len());
            assert("CLOSING"@.len() != "SYN_SENT"@.len());
            assert("CLOSING"@.len() != "SYN_RECEIVED"@.len());
            assert("CLOSING"@.len() != "SYN_RECV"@.len());
            assert("CLOSING"@.len() != "FIN_WAIT1"@.len());
            assert("CLOSING"@.len() != "FIN_WAIT_1"@.len());
            assert("CLOSING"@.len() != "FIN_WAIT2"@.len());
            assert("CLOSING"@.len() != "FIN_WAIT_2"@.len());
            assert("CLOSING"@.len() != "TIME_WAIT"@.len());
            assert("CLOSING"@.len() != "CLOSED"@.len());
            assert("CLOSING"@.len() != "CLOSE_WAIT"@.len());
            assert("CLOSING"@.len() != "LAST_ACK"@.len());
        },
        TcpStateView::Unknown(_) => {},
    }
}

/// Whether one end of a socket is on port `p`; a socket without a remote end
/// counts as having remote port 0.
pub open spec fn touches_port(s: SocketInfoView, p: u16) -> bool {
    s.local_port == p || match s.remote_port {
        Some(r) => r == p,
        None => p == 0,
    }
}

/// The number the Linux kernel gives a TCP state (`include/net/tcp_states.h`:
/// ESTABLISHED 1, SYN_SENT 2, SYN_RECV 3, FIN_WAIT1 4, FIN_WAIT2 5,
/// TIME_WAIT 6, CLOSE 7, CLOSE_WAIT 8, LAST_ACK 9, LISTEN 10, CLOSING 11).
pub open spec fn kernel_state_number(s: TcpStateView) -> nat {
    match s {
        TcpStateView::Established => 1,
        TcpStateView::SynSent => 2,
        TcpStateView::SynReceived => 3,
        TcpStateView::FinWait1 => 4,
        TcpStateView::FinWait2 => 5,
        TcpStateView::TimeWait => 6,
        TcpStateView::Closed => 7,
        TcpStateView::CloseWait => 8,
        TcpStateView::LastAck => 9,
        TcpStateView::Listen => 10,
        TcpStateView::Closing => 11,
        TcpStateView::Unknown(_) => 0,
    }
}

/// A hexadecimal digit, in upper or lower case.
pub open spec fn hex_char(d: nat, upper: bool) -> char {
    if d < 10 {
        (d + 48) as char
    } else if upper {
        (d + 55) as char
    } else {
        (d + 87) as char
    }
}

/// A number below 256 as the two hexadecimal digits the kernel writes in the
/// `st` column of `/proc/net/tcp`.
pub open spec fn two_hex_digits(n: nat, upper: bool) -> Seq<char> {
    seq![hex_char(n / 16, upper), hex_char(n % 16, upper)]
}

/// The `st` code of every known state reads back as that state, whatever
/// the case of its hexadecimal digits.
pub proof fn lemma_from_hex_reads_kernel_codes(s: TcpStateView, upper: bool)
    requires
        !(s is Unknown),
    ensures
        hex_state(two_hex_digits(kernel_state_number(s), upper)) == s,
{
    reveal_strlit("01");
    reveal_strlit("02");
    reveal_strlit("03");
    reveal_strlit("04");
    reveal_strlit("05");
    reveal_strlit("06");
    reveal_strlit("07");
    reveal_strlit("08");
    reveal_strlit("09");
    reveal_strlit("0A");
    reveal_strlit("0a");
    reveal_strlit("0B");
    reveal_strlit("0b");
    let n = kernel_state_number(s);
    let h = two_hex_digits(n, upper);
    assert(n / 16 == 0 && n % 16 == n);
    match s {
        TcpStateView::Established => {
            assert(h =~= "01"@);
        },
        TcpStateView::SynSent => {
            assert(h =~= "02"@);
            assert("02"@[1] != "01"@[1]);
        },
        TcpStateView::SynReceived => {
            assert(h =~= "03"@);
            assert("03"@[1] != "01"@[1]);
            assert("03"@[1] != "02"@[1]);
        },
        TcpStateView::FinWait1 => {
            assert(h =~= "04"@);
            assert("04"@[1] != "01"@[1]);
            assert("04"@[1] != "02"@[1]);
            assert("04"@[1] != "03"@[1]);
        },
        TcpStateView::FinWait2 => {
            assert(h =~= "05"@);
            assert("05"@[1] != "01"@[1]);
            assert("05"@[1] != "02"@[1]);
            assert("05"@[1] != "03"@[1]);
            assert("05"@[1] != "04"@[1]);
        },
        TcpStateView::TimeWait => {
            assert(h =~= "06"@);
            assert("06"@[1] != "01"@[1]);
            assert("06"@[1] != "02"@[1]);
            assert("06"@[1] != "03"@[1]);
            assert("06"@[1] != "04"@[1]);
            assert("06"@[1] != "05"@[1]);
        },
        TcpStateView::Closed => {
            assert(h =~= "07"@);
            assert("07"@[1] != "01"@[1]);
            assert("07"@[1] != "02"@[1]);
            assert("07"@[1] != "03"@[1]);
            assert("07"@[1] != "04"@[1]);
            assert("07"@[1] != "05"@[1]);
            assert("07"@[1] != "06"@[1]);
        },
        TcpStateView::CloseWait => {
            assert(h =~= "08"@);
            assert("08"@[1] != "01"@[1]);
            assert("08"@[1] != "02"@[1]);
            assert("08"@[1] != "03"@[1]);
            assert("08"@[1] != "04"@[1]);
            assert("08"@[1] != "05"@[1]);
            assert("08"@[1] != "06"@[1]);
            assert("08"@[1] != "07"@[1]);
        },
        TcpStateView::LastAck => {
            assert(h =~= "09"@);
            assert("09"@[1] != "01"@[1]);
            assert("09"@[1] != "02"@[1]);
            assert("09"@[1] != "03"@[1]);
            assert("09"@[1] != "04"@[1]);
            assert("09"@[1] != "05"@[1]);
            assert("09"@[1] != "06"@[1]);
            assert("09"@[1] != "07"@[1]);
            assert("09"@[1] != "08"@[1]);
        },
        TcpStateView::Listen => {
            if upper {
                assert(h =~= "0A"@);
                assert("0A"@[1] != "01"@[1]);
                assert("0A"@[1] != "02"@[1]);
                assert("0A"@[1] != "03"@[1]);
                assert("0A"@[1] != "04"@[1]);
                assert("0A"@[1] != "05"@[1]);
                assert("0A"@[1] != "06"@[1]);
                assert("0A"@[1] != "07"@[1]);
                assert("0A"@[1] != "08"@[1]);
                assert("0A"@[1] != "09"@[1]);
            } else {
                assert(h =~= "0a"@);
                assert("0a"@[1] != "01"@[1]);
                assert("0a"@[1] != "02"@[1]);
                assert("0a"@[1] != "03"@[1]);
                assert("0a"@[1] != "04"@[1]);
                assert("0a"@[1] != "05"@[1]);
                assert("0a"@[1] != "06"@[1]);
                assert("0a"@[1] != "07"@[1]);
                assert("0a"@[1] != "08"@[1]);
                assert("0a"@[1] != "09"@[1]);
                assert("0a"@[1] != "0A"@[1]);
            }
        },
        TcpStateView::Closing => {
            if upper {
                assert(h =~= "0B"@);
                assert("0B"@[1] != "01"@[1]);
                assert("0B"@[1] != "02"@[1]);
                assert("0B"@[1] != "03"@[1]);
                assert("0B"@[1] != "04"@[1]);
                assert("0B"@[1] != "05"@[1]);
                assert("0B"@[1] != "06"@[1]);
                assert("0B"@[1] != "07"@[1]);
                assert("0B"@[1] != "08"@[1]);
                assert("0B"@[1] != "09"@[1]);
                assert("0B"@[1] != "0A"@[1]);
                assert("0B"@[1] != "0a"@[1]);
            } else {
                assert(h =~= "0b"@);
                assert("0b"@[1] != "01"@[1]);
                assert("0b"@[1] != "02"@[1]);
                assert("0b"@[1] != "03"@[1]);
                assert("0b"@[1] != "04"@[1]);
                assert("0b"@[1] != "05"@[1]);
                assert("0b"@[1] != "06"@[1]);
                assert("0b"@[1] != "07"@[1]);
                assert("0b"@[1] != "08"@[1]);
                assert("0b"@[1] != "09"@[1]);
                assert("0b"@[1] != "0A"@[1]);
                assert("0b"@[1] != "0a"@[1]);
                assert("0b"@[1] != "0B"@[1]);
            }
        },
        TcpStateView::Unknown(_) => {},
    }
}

} // verus!
