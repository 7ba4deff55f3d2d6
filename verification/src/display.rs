//! What the two views show, short of colours and printing: the list's
//! columns and totals, and the lines of one finding.
use vstd::prelude::*;
use crate::calendar::{duration_text, fmt_duration, fmt_unix_time, unix_time_text};
use crate::listing::sorted_by_key;
use crate::lsof::{port_of, spec_split_addr};
use crate::text::{
    byte_len, chars_of, decimal, find, is_digit_in, lemma_decimal_digits, lemma_decimal_parses_back,
    lemma_find_char_from,
    lemma_rfind_skips_suffix, parse_unsigned, push_decimal, rfind, utf8_len,
};
use crate::types::{
    entry_views, opt_text, Finding, ListEntry, ListEntryView, ProcessInfo, ProcessInfoView,
    Protocol, SocketInfo, SocketInfoView, TcpState,
};

verus! {

/// The ADDR cell of a list entry: `local_addr:port`.
pub open spec fn addr_cell(e: ListEntryView) -> Seq<char> {
    e.local_addr + ":"@ + decimal(e.port as nat)
}

/// The widest of some texts in bytes, and at least `floor`.
pub open spec fn widest(s: Seq<Seq<char>>, floor: nat) -> nat
    decreases s.len(),
{
    if s.len() == 0 {
        floor
    } else {
        let w = widest(s.drop_last(), floor);
        if utf8_len(s.last()) > w {
            utf8_len(s.last())
        } else {
            w
        }
    }
}

pub open spec fn addr_width(es: Seq<ListEntryView>) -> nat {
    widest(es.map_values(|e: ListEntryView| addr_cell(e)), 4)
}

pub open spec fn name_width(es: Seq<ListEntryView>) -> nat {
    widest(es.map_values(|e: ListEntryView| e.process_name), 7)
}

pub open spec fn user_width(es: Seq<ListEntryView>) -> nat {
    widest(es.map_values(|e: ListEntryView| e.user), 4)
}

/// The width of the list's rules: the columns (ADDR, PROTO of 5, STATE of 11,
/// PROCESS, USER, PID of 7) with two spaces between each.
pub open spec fn rule_width(es: Seq<ListEntryView>) -> nat {
    addr_width(es) + 2 + 5 + 2 + 11 + 2 + name_width(es) + 2 + user_width(es) + 2 + 7
}

/// The column layout of the list view.
pub struct ListLayout {
    pub addr_cells: Vec<String>,
    pub addr_width: usize,
    pub name_width: usize,
    pub user_width: usize,
    pub rule_width: usize,
}

/// The texts of a sequence of strings.
pub open spec fn string_texts(v: Seq<String>) -> Seq<Seq<char>> {
    v.map_values(|s: String| s@)
}

fn addr_cell_exec(e: &ListEntry) -> (s: String)
    ensures
        s@ == addr_cell(e@),
{
    let mut s = e.local_addr.clone();
    s.append(":");
    push_decimal(&mut s, e.port as u64);
    s
}

/// The widest of some texts in bytes, at least `floor`.
fn widest_of(v: &Vec<String>, floor: u128) -> (w: u128)
    ensures
        w == widest(string_texts(v@), floor as nat),
{
    let ghost s = string_texts(v@);
    let mut w = floor;
    let mut i: usize = 0;
    while i < v.len()
        invariant
            s == string_texts(v@),
            i <= v@.len(),
            w == widest(s.take(i as int), floor as nat),
        decreases v@.len() - i,
    {
        assert(s.take(i + 1).drop_last() =~= s.take(i as int));
        assert(s[i as int] == v@[i as int]@);
        let c = chars_of(v[i].as_str());
        let n = byte_len(&c);
        if n > w {
            w = n;
        }
        i = i + 1;
    }
    assert(s.take(v@.len() as int) =~= s);
    w
}

/// The list view's columns: the ADDR cells, the widths of the ADDR, PROCESS
/// and USER columns (each at least its heading) and of the rules.
pub fn list_layout(entries: &Vec<ListEntry>) -> (r: ListLayout)
    requires
        rule_width(entry_views(entries@)) <= usize::MAX,
    ensures
        string_texts(r.addr_cells@) == entry_views(entries@).map_values(
            |e: ListEntryView| addr_cell(e),
        ),
        r.addr_width == addr_width(entry_views(entries@)),
        r.name_width == name_width(entry_views(entries@)),
        r.user_width == user_width(entry_views(entries@)),
        r.rule_width == rule_width(entry_views(entries@)),
{
    let ghost es = entry_views(entries@);
    let mut cells: Vec<String> = Vec::new();
    let mut names: Vec<String> = Vec::new();
    let mut users: Vec<String> = Vec::new();
    let mut i: usize = 0;
    while i < entries.len()
        invariant
            es == entry_views(entries@),
            i <= entries@.len(),
            string_texts(cells@) == es.take(i as int).map_values(|e: ListEntryView| addr_cell(e)),
            string_texts(names@) == es.take(i as int).map_values(|e: ListEntryView| e.process_name),
            string_texts(users@) == es.take(i as int).map_values(|e: ListEntryView| e.user),
        decreases entries@.len() - i,
    {
        let e = &entries[i];
        assert(es[i as int] == e@);
        let c = addr_cell_exec(e);
        let ghost (c0, n0, u0) = (string_texts(cells@), string_texts(names@), string_texts(users@));
        cells.push(c);
        names.push(e.process_name.clone());
        users.push(e.user.clone());
        assert(string_texts(cells@) =~= c0.push(c@));
        assert(string_texts(names@) =~= n0.push(e.process_name@));
        assert(string_texts(users@) =~= u0.push(e.user@));
        assert(es.take(i + 1).map_values(|e: ListEntryView| addr_cell(e)) =~= es.take(i as int).map_values(
            |e: ListEntryView| addr_cell(e),
        ).push(addr_cell(es[i as int])));
        assert(es.take(i + 1).map_values(|e: ListEntryView| e.process_name) =~= es.take(
            i as int,
        ).map_values(|e: ListEntryView| e.process_name).push(es[i as int].process_name));
        assert(es.take(i + 1).map_values(|e: ListEntryView| e.user) =~= es.take(i as int).map_values(
            |e: ListEntryView| e.user,
        ).push(es[i as int].user));
        i = i + 1;
    }
    assert(es.take(entries@.len() as int) =~= es);
    let aw = widest_of(&cells, 4);
    let nw = widest_of(&names, 7);
    let uw = widest_of(&users, 4);
    let aw = aw as usize;
    let nw = nw as usize;
    let uw = uw as usize;
    let rule = aw + 2 + 5 + 2 + 11 + 2 + nw + 2 + uw + 2 + 7;
    ListLayout { addr_cells: cells, addr_width: aw, name_width: nw, user_width: uw, rule_width: rule }
}

/// The number of distinct values.
pub fn count_distinct(v: &Vec<u64>) -> (n: usize)
    ensures
        n == v@.to_set().len(),
{
    let mut seen: Vec<u64> = Vec::new();
    let mut i: usize = 0;
    assert(v@.take(0) =~= Seq::<u64>::empty());
    assert(seen@.to_set() =~= v@.take(0).to_set());
    while i < v.len()
        invariant
            i <= v@.len(),
            seen@.no_duplicates(),
            seen@.to_set() == v@.take(i as int).to_set(),
            seen@.len() <= i,
        decreases v@.len() - i,
    {
        let x = v[i];
        assert(v@.take(i + 1) =~= v@.take(i as int).push(x));
        proof {
            v@.take(i as int).lemma_push_to_set_commute(x);
        }
        let mut found = false;
        let mut j: usize = 0;
        while j < seen.len()
            invariant
                j <= seen@.len(),
                found == (exists|t: int| 0 <= t < j && seen@[t] == x),
            decreases seen@.len() - j,
        {
            if seen[j] == x {
                found = true;
            }
            j = j + 1;
        }
        if found {
            assert(seen@.to_set().contains(x));
            assert(seen@.to_set().insert(x) =~= seen@.to_set());
        } else {
            let ghost old_seen = seen@;
            proof {
                old_seen.lemma_push_to_set_commute(x);
            }
            seen.push(x);
            assert(seen@ == old_seen.push(x));
            assert forall|a: int, b: int| 0 <= a < seen@.len() && 0 <= b < seen@.len() && a != b implies seen@[a]
                != seen@[b] by {
                if a < old_seen.len() && b < old_seen.len() {
                } else if a == old_seen.len() {
                    assert(seen@[b] == old_seen[b]);
                } else {
                    assert(seen@[a] == old_seen[a]);
                }
            }
        }
        i = i + 1;
    }
    assert(v@.take(v@.len() as int) =~= v@);
    proof {
        seen@.unique_seq_to_set();
    }
    seen.len()
}

/// The PIDs of the list's entries.
pub open spec fn entry_pids(es: Seq<ListEntryView>) -> Seq<u64> {
    es.map_values(|e: ListEntryView| e.pid as u64)
}

/// The totals under the list: one port per listed row, and the distinct
/// processes.
pub fn list_totals(entries: &Vec<ListEntry>) -> (r: (usize, usize))
    ensures
        r.0 == entries@.len(),
        r.1 == entry_pids(entry_views(entries@)).to_set().len(),
{
    let ghost es = entry_views(entries@);
    let mut pids: Vec<u64> = Vec::new();
    let mut i: usize = 0;
    while i < entries.len()
        invariant
            es == entry_views(entries@),
            i <= entries@.len(),
            pids@ == entry_pids(es).take(i as int),
        decreases entries@.len() - i,
    {
        assert(es[i as int] == entries@[i as int]@);
        pids.push(entries[i].pid as u64);
        assert(pids@ =~= entry_pids(es).take(i + 1));
        i = i + 1;
    }
    assert(entry_pids(es).take(entries@.len() as int) =~= entry_pids(es));
    (entries.len(), count_distinct(&pids))
}

/// The name a process is shown by: `<unknown>` for an empty one.
pub open spec fn shown_name(name: Seq<char>) -> Seq<char> {
    if name.len() == 0 {
        "<unknown>"@
    } else {
        name
    }
}

pub fn display_name(name: &str) -> (r: String)
    ensures
        r@ == shown_name(name@),
{
    if name.is_empty() {
        String::from_str("<unknown>")
    } else {
        String::from_str(name)
    }
}

/// How the protocol column is coloured: TCP kinds, UDP kinds, other.
pub enum ProtocolFamily {
    Tcp,
    Udp,
    Other,
}

pub fn protocol_family(p: &Protocol) -> (r: ProtocolFamily)
    ensures
        (r is Tcp) == (p@ is Tcp || p@ is Tcp6),
        (r is Udp) == (p@ is Udp || p@ is Udp6),
{
    match p {
        Protocol::Tcp | Protocol::Tcp6 => ProtocolFamily::Tcp,
        Protocol::Udp | Protocol::Udp6 => ProtocolFamily::Udp,
        Protocol::Unknown(_) => ProtocolFamily::Other,
    }
}

/// How a state is coloured: listening, established, winding down
/// (TIME_WAIT, FIN_WAIT1, FIN_WAIT2), closing (CLOSE_WAIT, LAST_ACK,
/// CLOSING), or any other.
pub enum StateTone {
    Listening,
    Established,
    WindingDown,
    Closing,
    Other,
}

pub fn state_tone(s: &TcpState) -> (r: StateTone)
    ensures
        (r is Listening) == (s@ is Listen),
        (r is Established) == (s@ is Established),
        (r is WindingDown) == (s@ is TimeWait || s@ is FinWait1 || s@ is FinWait2),
        (r is Closing) == (s@ is CloseWait || s@ is LastAck || s@ is Closing),
{
    match s {
        TcpState::Listen => StateTone::Listening,
        TcpState::Established => StateTone::Established,
        TcpState::TimeWait | TcpState::FinWait1 | TcpState::FinWait2 => StateTone::WindingDown,
        TcpState::CloseWait | TcpState::LastAck | TcpState::Closing => StateTone::Closing,
        _ => StateTone::Other,
    }
}

/// The title of an inspection: the port that was asked about, whatever the
/// ends of the sockets found.
pub open spec fn inspect_title(port: u16) -> Seq<char> {
    "  portspy \u{2014} port "@ + decimal(port as nat)
}

/// Builds the title line of the inspection of `port`.
pub fn inspect_header(port: u16) -> (r: String)
    ensures
        r@ == inspect_title(port),
{
    let mut out = String::from_str("  portspy \u{2014} port ");
    push_decimal(&mut out, port as u64);
    out
}

/// The address of a socket as a finding shows it: `local:port`, followed by
/// ` \u{2192} remote:port` when both remote parts are known.
pub open spec fn socket_label(s: SocketInfoView) -> Seq<char> {
    let local = s.local_addr + ":"@ + decimal(s.local_port as nat);
    if s.remote_addr is Some && s.remote_port is Some {
        local + " \u{2192} "@ + s.remote_addr->0 + ":"@ + decimal(s.remote_port->0 as nat)
    } else {
        local
    }
}

pub fn socket_address_label(s: &SocketInfo) -> (r: String)
    ensures
        r@ == socket_label(s@),
{
    let mut out = s.local_addr.clone();
    out.append(":");
    push_decimal(&mut out, s.local_port as u64);
    match (&s.remote_addr, s.remote_port) {
        (Some(ra), Some(rp)) => {
            out.append(" \u{2192} ");
            out.append(ra.as_str());
            out.append(":");
            push_decimal(&mut out, rp as u64);
        },
        _ => {},
    }
    assert(out@ =~= socket_label(s@));
    out
}

/// One labelled line of a finding's process details.
pub enum DetailLine {
    Process { name: String, pid: u32 },
    User(String),
    Command(String),
    Exe(String),
    Parent { ppid: u32, parent_name: Option<String> },
    Cwd(String),
    Memory { resident: u64, virtual_size: u64 },
    Started { since: String, uptime: String },
}

pub enum DetailLineView {
    Process { name: Seq<char>, pid: u32 },
    User(Seq<char>),
    Command(Seq<char>),
    Exe(Seq<char>),
    Parent { ppid: u32, parent_name: Option<Seq<char>> },
    Cwd(Seq<char>),
    Memory { resident: u64, virtual_size: u64 },
    Started { since: Seq<char>, uptime: Seq<char> },
}

impl View for DetailLine {
    type V = DetailLineView;

    open spec fn view(&self) -> DetailLineView {
        match self {
            DetailLine::Process { name, pid } => DetailLineView::Process { name: name@, pid: *pid },
            DetailLine::User(s) => DetailLineView::User(s@),
            DetailLine::Command(s) => DetailLineView::Command(s@),
            DetailLine::Exe(s) => DetailLineView::Exe(s@),
            DetailLine::Parent { ppid, parent_name } => DetailLineView::Parent {
                ppid: *ppid,
                parent_name: opt_text(*parent_name),
            },
            DetailLine::Cwd(s) => DetailLineView::Cwd(s@),
            DetailLine::Memory { resident, virtual_size } => DetailLineView::Memory {
                resident: *resident,
                virtual_size: *virtual_size,
            },
            DetailLine::Started { since, uptime } => DetailLineView::Started {
                since: since@,
                uptime: uptime@,
            },
        }
    }
}

pub open spec fn line_views(v: Seq<DetailLine>) -> Seq<DetailLineView> {
    v.map_values(|l: DetailLine| l@)
}

/// A line when `cond` holds, nothing otherwise.
pub open spec fn line_if(cond: bool, l: DetailLineView) -> Seq<DetailLineView> {
    if cond {
        seq![l]
    } else {
        seq![]
    }
}

/// The process lines of a finding, in order: the process (name or
/// `<unknown>`, PID); the user when there is one; the command line when it
/// is not empty and differs from the name; the executable and working
/// directory only when `verbose`, and only when known; the parent when
/// known; the memory when above zero; the start (date, or `unknown` when not
/// `started_in_past`; empty without a start time) and uptime when either is
/// above zero.
pub open spec fn detail_spec(p: ProcessInfoView, verbose: bool, started_in_past: bool) -> Seq<DetailLineView> {
    seq![DetailLineView::Process { name: shown_name(p.name), pid: p.pid }]
        + line_if(p.user.len() > 0, DetailLineView::User(p.user))
        + line_if(p.cmdline.len() > 0 && p.cmdline != p.name, DetailLineView::Command(p.cmdline))
        + line_if(verbose && p.exe is Some, DetailLineView::Exe(p.exe->0))
        + line_if(p.parent_pid is Some, DetailLineView::Parent { ppid: p.parent_pid->0, parent_name: p.parent_name })
        + line_if(verbose && p.cwd is Some, DetailLineView::Cwd(p.cwd->0))
        + line_if(p.memory_bytes > 0, DetailLineView::Memory { resident: p.memory_bytes, virtual_size: p.virtual_memory_bytes })
        + line_if(
            p.run_time_secs > 0 || p.start_time_secs > 0,
            DetailLineView::Started {
                since: if p.start_time_secs > 0 {
                    unix_time_text(p.start_time_secs as nat, started_in_past)
                } else {
                    seq![]
                },
                uptime: duration_text(p.run_time_secs as nat),
            },
        )
}

fn push_line(lines: &mut Vec<DetailLine>, cond: bool, l: DetailLine)
    ensures
        line_views(final(lines)@) == line_views(old(lines)@) + line_if(cond, l@),
{
    let ghost before = line_views(lines@);
    if cond {
        lines.push(l);
        assert(line_views(lines@) =~= before + seq![l@]);
    } else {
        assert(line_views(lines@) =~= before + Seq::<DetailLineView>::empty());
    }
}

/// The process lines of a finding; `started_in_past` says whether the
/// current time is at or after the process's start time.
pub fn detail_lines(p: &ProcessInfo, verbose: bool, started_in_past: bool) -> (r: Vec<DetailLine>)
    ensures
        line_views(r@) == detail_spec(p@, verbose, started_in_past),
{
    let mut lines: Vec<DetailLine> = Vec::new();
    lines.push(DetailLine::Process { name: display_name(p.name.as_str()), pid: p.pid });
    assert(line_views(lines@) =~= seq![DetailLineView::Process { name: shown_name(p.name@), pid: p.pid }]);
    push_line(&mut lines, !p.user.as_str().is_empty(), DetailLine::User(p.user.clone()));
    let differs = !(p.cmdline == p.name);
    push_line(&mut lines, !p.cmdline.as_str().is_empty() && differs, DetailLine::Command(p.cmdline.clone()));
    match &p.exe {
        Some(exe) => push_line(&mut lines, verbose, DetailLine::Exe(exe.clone())),
        None => {},
    }
    match p.parent_pid {
        Some(ppid) => push_line(
            &mut lines,
            true,
            DetailLine::Parent { ppid, parent_name: crate::types::clone_opt_string(&p.parent_name) },
        ),
        None => {},
    }
    match &p.cwd {
        Some(cwd) => push_line(&mut lines, verbose, DetailLine::Cwd(cwd.clone())),
        None => {},
    }
    push_line(
        &mut lines,
        p.memory_bytes > 0,
        DetailLine::Memory { resident: p.memory_bytes, virtual_size: p.virtual_memory_bytes },
    );
    if p.run_time_secs > 0 || p.start_time_secs > 0 {
        let since = if p.start_time_secs > 0 {
            fmt_unix_time(p.start_time_secs, started_in_past)
        } else {
            String::new()
        };
        let uptime = fmt_duration(p.run_time_secs);
        push_line(&mut lines, true, DetailLine::Started { since, uptime });
    }
    assert(line_views(lines@) =~= detail_spec(p@, verbose, started_in_past));
    lines
}

/// The widest is at least the floor and at least each text.
pub proof fn lemma_widest_bounds(s: Seq<Seq<char>>, floor: nat)
    ensures
        widest(s, floor) >= floor,
        forall|i: int| 0 <= i < s.len() ==> utf8_len(#[trigger] s[i]) <= widest(s, floor),
    decreases s.len(),
{
    if s.len() > 0 {
        lemma_widest_bounds(s.drop_last(), floor);
        assert forall|i: int| 0 <= i < s.len() implies utf8_len(#[trigger] s[i]) <= widest(s, floor) by {
            if i < s.len() - 1 {
                assert(s[i] == s.drop_last()[i]);
            }
        }
    }
}

/// Every cell fits its column: each column is at least as wide as its
/// heading (ADDR, PROCESS, USER) and as each of its cells, in bytes.
pub proof fn lemma_cells_fit_columns(es: Seq<ListEntryView>)
    ensures
        addr_width(es) >= 4,
        name_width(es) >= 7,
        user_width(es) >= 4,
        forall|i: int| 0 <= i < es.len() ==> {
            &&& utf8_len(addr_cell(#[trigger] es[i])) <= addr_width(es)
            &&& utf8_len(es[i].process_name) <= name_width(es)
            &&& utf8_len(es[i].user) <= user_width(es)
        },
{
    let a = es.map_values(|e: ListEntryView| addr_cell(e));
    let n = es.map_values(|e: ListEntryView| e.process_name);
    let u = es.map_values(|e: ListEntryView| e.user);
    lemma_widest_bounds(a, 4);
    lemma_widest_bounds(n, 7);
    lemma_widest_bounds(u, 4);
    assert forall|i: int| 0 <= i < es.len() implies {
        &&& utf8_len(addr_cell(#[trigger] es[i])) <= addr_width(es)
        &&& utf8_len(es[i].process_name) <= name_width(es)
        &&& utf8_len(es[i].user) <= user_width(es)
    } by {
        assert(a[i] == addr_cell(es[i]));
        assert(n[i] == es[i].process_name);
        assert(u[i] == es[i].user);
    }
}

/// The ADDR cell of an entry ends with its port: the text after the cell's
/// last `:` reads back as the port.
pub proof fn lemma_addr_cell_ends_with_port(e: ListEntryView)
    ensures
        rfind(addr_cell(e), ':') == Some(e.local_addr.len() as int),
        parse_unsigned(addr_cell(e).skip((e.local_addr.len() + 1) as int), 10, 0xffff) == Some(e.port as u64),
{
    reveal_strlit(":");
    let a = e.local_addr + ":"@;
    let d = decimal(e.port as nat);
    assert(addr_cell(e) == a + d);
    lemma_decimal_digits(e.port as nat);
    assert(!d.contains(':')) by {
        if d.contains(':') {
            let i = choose|i: int| 0 <= i < d.len() && d[i] == ':';
            assert(is_digit_in(d[i], 10));
        }
    }
    lemma_rfind_skips_suffix(a, d, ':');
    assert(a.last() == ':');
    assert((a + d).skip((e.local_addr.len() + 1) as int) =~= d);
    lemma_decimal_parses_back(e.port as u64, 0xffff);
}

/// The ADDR cell splits back, the way lsof's `host:port` is split, into the
/// entry's address and port; this fails only for an address that starts
/// with `[` and has a `]` before its end.
pub proof fn lemma_split_addr_cell(e: ListEntryView)
    requires
        !(e.local_addr.len() > 0 && e.local_addr[0] == '[' && exists|i: int|
            0 <= i < e.local_addr.len() - 1 && e.local_addr[i] == ']'),
    ensures
        spec_split_addr(addr_cell(e)) == (e.local_addr, e.port),
{
    reveal_strlit(":");
    let a = e.local_addr;
    let ac = a + ":"@;
    let d = decimal(e.port as nat);
    let c = addr_cell(e);
    assert(c == ac + d);
    lemma_decimal_digits(e.port as nat);
    lemma_decimal_parses_back(e.port as u64, 0xffff);
    assert(port_of(d) == e.port);
    assert forall|t: int| 0 <= t < d.len() implies d[t] != ':' && d[t] != ']' by {
        assert(is_digit_in(d[t], 10));
    }
    assert(!d.contains(':'));
    lemma_rfind_skips_suffix(ac, d, ':');
    assert(ac.last() == ':');
    assert(rfind(c, ':') == Some(a.len() as int));
    assert(c.take(a.len() as int) =~= a);
    assert(c.skip((a.len() + 1) as int) =~= d);
    lemma_find_char_from(c, ']', 0);
    if a.len() > 0 && a[0] == '[' {
        assert(c[0] == '[');
        match find(c, seq![']']) {
            Some(j) => {
                assert(c[j] == ']');
                if j < a.len() - 1 {
                    assert(a[j] == ']');
                    assert(false);
                } else if j == a.len() - 1 {
                    assert(c.take(j + 1) =~= a);
                    assert(c[j + 1] == ':');
                    assert(c.skip(j + 2) =~= d);
                } else if j == a.len() {
                    assert(c[j] == ':');
                } else {
                    assert(c[j] == d[j - a.len() - 1]);
                }
            },
            None => {},
        }
    }
}

/// The port a cell shows: the number after its last `:` (0 where there is
/// none).
pub open spec fn cell_port(c: Seq<char>) -> u64 {
    match rfind(c, ':') {
        Some(k) => match parse_unsigned(c.skip(k + 1), 10, 0xffff) {
            Some(p) => p,
            None => 0,
        },
        None => 0,
    }
}

/// In a sorted list the ports read off the ADDR cells, row by row, never
/// decrease.
pub proof fn lemma_cell_ports_ascend(es: Seq<ListEntryView>)
    requires
        sorted_by_key(es),
    ensures
        forall|i: int, j: int| 0 <= i <= j < es.len() ==> cell_port(addr_cell(#[trigger] es[i])) <= cell_port(
            addr_cell(#[trigger] es[j]),
        ),
{
    assert forall|i: int, j: int| 0 <= i <= j < es.len() implies cell_port(addr_cell(#[trigger] es[i]))
        <= cell_port(addr_cell(#[trigger] es[j])) by {
        lemma_addr_cell_ends_with_port(es[i]);
        lemma_addr_cell_ends_with_port(es[j]);
        if i < j {
            assert(es[i].port <= es[j].port);
        }
    }
}

} // verus!
