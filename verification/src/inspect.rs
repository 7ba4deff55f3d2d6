//! The two questions the inspector answers: who uses a port, and which ports
//! are listening. Each backend's raw material (lsof's table, or the `/proc`
//! socket tables and fd links) is read here together with the process table.
use vstd::prelude::*;
use crate::listing::{keyed, lemma_same_keys_same_multiset, sort_list_entries, sorted_by_key};
use crate::lsof::{
    lemma_parse_lsof_touches_port, lsof_output_ok, parse_lsof, row_views, spec_parse_lsof, LsofRow,
    LsofRowView,
};
use crate::process::{enrich_process, find_process, lookup, snapshot_views, spec_enrich, ProcessSnapshot, ProcessSnapshotView};
use crate::procnet::{
    all_entries, collect_sockets, entry_views as socket_entry_views, last_owner,
    latest_per_inode, lemma_all_entries_touch_port, lemma_latest_from_input, socket_owner,
    spec_collect_sockets, table_views,
};
use crate::types::{
    entry_views, finding_views, Finding, FindingView, ListEntry, ListEntryView, Protocol,
    ProtocolView, SocketInfo, SocketInfoView, TcpState, TcpStateView, touches_port,
};

verus! {

/// What the `/proc` backend reads: the socket tables that could be read
/// (protocol and text, in the order TCP, TCP6, UDP, UDP6), the socket links
/// of the processes' fds as (pid, inode) in the order they were found, and
/// the machine's byte order.
pub struct ProcNetSnapshot {
    pub tables: Vec<(Protocol, String)>,
    pub links: Vec<(u32, u64)>,
    pub little_endian: bool,
}

/// Where the sockets come from: lsof's output (macOS) or `/proc` (Linux).
pub enum SocketSource {
    Lsof(String),
    ProcNet(ProcNetSnapshot),
}

pub enum SocketSourceView {
    Lsof(Seq<char>),
    ProcNet(Seq<(ProtocolView, Seq<char>)>, Seq<(u32, u64)>, bool),
}

impl View for SocketSource {
    type V = SocketSourceView;

    open spec fn view(&self) -> SocketSourceView {
        match self {
            SocketSource::Lsof(s) => SocketSourceView::Lsof(s@),
            SocketSource::ProcNet(p) => SocketSourceView::ProcNet(
                table_views(p.tables@),
                p.links@,
                p.little_endian,
            ),
        }
    }
}

/// The finding of an lsof row: its socket and the details of its process,
/// the user falling back to lsof's USER column.
pub open spec fn lsof_finding(r: LsofRowView, table: Seq<ProcessSnapshotView>) -> FindingView {
    FindingView { socket: r.socket, process: spec_enrich(r.pid, r.user, table) }
}

/// The list entry of an lsof row; rows on port 0 (unbound) have none.
pub open spec fn lsof_entry(r: LsofRowView) -> Option<ListEntryView> {
    if r.socket.local_port == 0 {
        None
    } else {
        Some(
            ListEntryView {
                port: r.socket.local_port,
                protocol: r.socket.protocol,
                local_addr: r.socket.local_addr,
                state: r.socket.state,
                process_name: r.command,
                pid: r.pid,
                user: r.user,
            },
        )
    }
}

/// The finding of a `/proc` socket: it needs a process holding the inode;
/// the user falls back to the empty name.
pub open spec fn procnet_finding(e: (u64, SocketInfoView), links: Seq<(u32, u64)>, table: Seq<ProcessSnapshotView>) -> Option<FindingView> {
    match last_owner(links, e.0) {
        Some(pid) => Some(FindingView { socket: e.1, process: spec_enrich(pid, seq![], table) }),
        None => None,
    }
}

/// A socket the list shows: a listening TCP socket, or any UDP socket (no
/// state).
pub open spec fn is_listing(s: SocketInfoView) -> bool {
    s.state is None || s.state == Some(TcpStateView::Listen)
}

/// The list entry of a `/proc` socket: only listing sockets held by a
/// process that the process table has.
pub open spec fn procnet_entry(e: (u64, SocketInfoView), links: Seq<(u32, u64)>, table: Seq<ProcessSnapshotView>) -> Option<ListEntryView> {
    if !is_listing(e.1) {
        None
    } else {
        match last_owner(links, e.0) {
            Some(pid) => match lookup(table, pid) {
                Some(p) => Some(
                    ListEntryView {
                        port: e.1.local_port,
                        protocol: e.1.protocol,
                        local_addr: e.1.local_addr,
                        state: e.1.state,
                        process_name: p.name,
                        pid,
                        user: match p.user {
                            Some(u) => u,
                            None => seq![],
                        },
                    },
                ),
                None => None,
            },
            None => None,
        }
    }
}

/// Who uses `port`, per source.
pub open spec fn spec_find_port_users(port: u16, src: SocketSourceView, table: Seq<ProcessSnapshotView>) -> Seq<FindingView> {
    match src {
        SocketSourceView::Lsof(out) => spec_parse_lsof(out, Some(port)).map_values(
            |r: LsofRowView| lsof_finding(r, table),
        ),
        SocketSourceView::ProcNet(ts, links, le) => spec_collect_sockets(ts, Some(port), le).filter_map(
            |e: (u64, SocketInfoView)| procnet_finding(e, links, table),
        ),
    }
}

/// The entries of the list before ordering, per source.
pub open spec fn list_candidates(src: SocketSourceView, table: Seq<ProcessSnapshotView>) -> Seq<ListEntryView> {
    match src {
        SocketSourceView::Lsof(out) => spec_parse_lsof(out, None).filter_map(
            |r: LsofRowView| lsof_entry(r),
        ),
        SocketSourceView::ProcNet(ts, links, le) => spec_collect_sockets(ts, None, le).filter_map(
            |e: (u64, SocketInfoView)| procnet_entry(e, links, table),
        ),
    }
}

/// Whether a source can be read: lsof's table must be cuttable at its NAME
/// column.
pub open spec fn source_ok(src: SocketSourceView) -> bool {
    match src {
        SocketSourceView::Lsof(out) => lsof_output_ok(out),
        SocketSourceView::ProcNet(..) => true,
    }
}

fn lsof_findings(rows: &Vec<LsofRow>, processes: &Vec<ProcessSnapshot>) -> (r: Vec<Finding>)
    ensures
        finding_views(r@) == row_views(rows@).map_values(
            |x: LsofRowView| lsof_finding(x, snapshot_views(processes@)),
        ),
{
    let ghost table = snapshot_views(processes@);
    let ghost goal = row_views(rows@).map_values(|x: LsofRowView| lsof_finding(x, table));
    let mut out: Vec<Finding> = Vec::new();
    let mut i: usize = 0;
    while i < rows.len()
        invariant
            table == snapshot_views(processes@),
            goal == row_views(rows@).map_values(|x: LsofRowView| lsof_finding(x, table)),
            i <= rows@.len(),
            finding_views(out@) == goal.take(i as int),
        decreases rows@.len() - i,
    {
        let row = &rows[i];
        let process = enrich_process(row.pid, row.user.as_str(), processes);
        let f = Finding { socket: row.socket.clone(), process };
        let ghost before = finding_views(out@);
        out.push(f);
        assert(finding_views(out@) =~= before.push(f@));
        assert(goal.take(i + 1) =~= goal.take(i as int).push(goal[i as int]));
        assert(goal[i as int] == lsof_finding(rows@[i as int]@, table));
        i = i + 1;
    }
    assert(goal.take(rows@.len() as int) =~= goal);
    out
}

fn lsof_entries(rows: &Vec<LsofRow>) -> (r: Vec<ListEntry>)
    ensures
        entry_views(r@) == row_views(rows@).filter_map(|x: LsofRowView| lsof_entry(x)),
{
    let ghost rs = row_views(rows@);
    let ghost f = |x: LsofRowView| lsof_entry(x);
    let mut out: Vec<ListEntry> = Vec::new();
    let mut i: usize = 0;
    assert(entry_views(out@) =~= rs.take(0).filter_map(f));
    while i < rows.len()
        invariant
            rs == row_views(rows@),
            f == (|x: LsofRowView| lsof_entry(x)),
            i <= rows@.len(),
            entry_views(out@) == rs.take(i as int).filter_map(f),
        decreases rows@.len() - i,
    {
        proof {
            rs.lemma_filter_map_take_succ(f, i as int);
        }
        assert(rs[i as int] == rows@[i as int]@);
        let row = &rows[i];
        if row.socket.local_port != 0 {
            let e = ListEntry {
                port: row.socket.local_port,
                protocol: row.socket.protocol.clone(),
                local_addr: row.socket.local_addr.clone(),
                state: crate::types::clone_opt_state(&row.socket.state),
                process_name: row.command.clone(),
                pid: row.pid,
                user: row.user.clone(),
            };
            let ghost before = entry_views(out@);
            out.push(e);
            assert(entry_views(out@) =~= before + seq![e@]);
        }
        i = i + 1;
    }
    assert(rs.take(rows@.len() as int) =~= rs);
    out
}

fn procnet_findings(entries: &Vec<(u64, SocketInfo)>, links: &Vec<(u32, u64)>, processes: &Vec<ProcessSnapshot>) -> (r: Vec<Finding>)
    ensures
        finding_views(r@) == socket_entry_views(entries@).filter_map(
            |e: (u64, SocketInfoView)| procnet_finding(e, links@, snapshot_views(processes@)),
        ),
{
    let ghost es = socket_entry_views(entries@);
    let ghost f = |e: (u64, SocketInfoView)| procnet_finding(e, links@, snapshot_views(processes@));
    let mut out: Vec<Finding> = Vec::new();
    let mut i: usize = 0;
    assert(finding_views(out@) =~= es.take(0).filter_map(f));
    while i < entries.len()
        invariant
            es == socket_entry_views(entries@),
            f == (|e: (u64, SocketInfoView)| procnet_finding(e, links@, snapshot_views(processes@))),
            i <= entries@.len(),
            finding_views(out@) == es.take(i as int).filter_map(f),
        decreases entries@.len() - i,
    {
        proof {
            es.lemma_filter_map_take_succ(f, i as int);
        }
        assert(es[i as int] == (entries@[i as int].0, entries@[i as int].1@));
        match socket_owner(links, entries[i].0) {
            Some(pid) => {
                let process = enrich_process(pid, "", processes);
                proof {
                    reveal_strlit("");
                }
                assert(""@ =~= Seq::<char>::empty());
                let fd = Finding { socket: entries[i].1.clone(), process };
                let ghost before = finding_views(out@);
                out.push(fd);
                assert(finding_views(out@) =~= before + seq![fd@]);
            },
            None => {},
        }
        i = i + 1;
    }
    assert(es.take(entries@.len() as int) =~= es);
    out
}

fn procnet_entries(entries: &Vec<(u64, SocketInfo)>, links: &Vec<(u32, u64)>, processes: &Vec<ProcessSnapshot>) -> (r: Vec<ListEntry>)
    ensures
        entry_views(r@) == socket_entry_views(entries@).filter_map(
            |e: (u64, SocketInfoView)| procnet_entry(e, links@, snapshot_views(processes@)),
        ),
{
    let ghost es = socket_entry_views(entries@);
    let ghost f = |e: (u64, SocketInfoView)| procnet_entry(e, links@, snapshot_views(processes@));
    let mut out: Vec<ListEntry> = Vec::new();
    let mut i: usize = 0;
    assert(entry_views(out@) =~= es.take(0).filter_map(f));
    while i < entries.len()
        invariant
            es == socket_entry_views(entries@),
            f == (|e: (u64, SocketInfoView)| procnet_entry(e, links@, snapshot_views(processes@))),
            i <= entries@.len(),
            entry_views(out@) == es.take(i as int).filter_map(f),
        decreases entries@.len() - i,
    {
        proof {
            es.lemma_filter_map_take_succ(f, i as int);
        }
        assert(es[i as int] == (entries@[i as int].0, entries@[i as int].1@));
        let sock = &entries[i].1;
        let listing = match &sock.state {
            None => true,
            Some(TcpState::Listen) => true,
            Some(_) => false,
        };
        if listing {
            match socket_owner(links, entries[i].0) {
                Some(pid) => match find_process(processes, pid) {
                    Some(j) => {
                        let p = &processes[j];
                        let user = match &p.user {
                            Some(u) => u.clone(),
                            None => String::new(),
                        };
                        let e = ListEntry {
                            port: sock.local_port,
                            protocol: sock.protocol.clone(),
                            local_addr: sock.local_addr.clone(),
                            state: crate::types::clone_opt_state(&sock.state),
                            process_name: p.name.clone(),
                            pid,
                            user,
                        };
                        let ghost before = entry_views(out@);
                        out.push(e);
                        assert(entry_views(out@) =~= before + seq![e@]);
                    },
                    None => {},
                },
                None => {},
            }
        }
        i = i + 1;
    }
    assert(es.take(entries@.len() as int) =~= es);
    out
}

/// Who uses `port`: each socket with the port on either end, with the
/// details of the process that holds it.
pub fn find_port_users(port: u16, source: &SocketSource, processes: &Vec<ProcessSnapshot>) -> (r: Vec<Finding>)
    requires
        source_ok(source@),
    ensures
        finding_views(r@) == spec_find_port_users(port, source@, snapshot_views(processes@)),
{
    match source {
        SocketSource::Lsof(out) => {
            let rows = parse_lsof(out.as_str(), Some(port));
            lsof_findings(&rows, processes)
        },
        SocketSource::ProcNet(p) => {
            let sockets = collect_sockets(&p.tables, Some(port), p.little_endian);
            procnet_findings(&sockets, &p.links, processes)
        },
    }
}

/// The listening ports: the listing sockets with their processes, ordered
/// by port, protocol rank and PID.
pub fn list_all_ports(source: &SocketSource, processes: &Vec<ProcessSnapshot>) -> (r: Vec<ListEntry>)
    requires
        source_ok(source@),
    ensures
        sorted_by_key(entry_views(r@)),
        forall|k: (u16, u8, u32)| #[trigger] keyed(entry_views(r@), k) == keyed(list_candidates(source@, snapshot_views(processes@)), k),
{
    let entries = match source {
        SocketSource::Lsof(out) => {
            let rows = parse_lsof(out.as_str(), None);
            lsof_entries(&rows)
        },
        SocketSource::ProcNet(p) => {
            let sockets = collect_sockets(&p.tables, None, p.little_endian);
            procnet_entries(&sockets, &p.links, processes)
        },
    };
    sort_list_entries(entries)
}

/// The PIDs of some findings, in order.
pub open spec fn finding_pids(fs: Seq<FindingView>) -> Seq<u32> {
    fs.map_values(|f: FindingView| f.process.pid)
}

/// The values of `s` in the order they first occur, each once.
pub open spec fn first_occurrences(s: Seq<u32>) -> Seq<u32>
    decreases s.len(),
{
    if s.len() == 0 {
        seq![]
    } else {
        let p = first_occurrences(s.drop_last());
        if p.contains(s.last()) {
            p
        } else {
            p.push(s.last())
        }
    }
}

/// `first_occurrences` holds every value of `s` once and nothing else.
pub proof fn lemma_first_occurrences(s: Seq<u32>)
    ensures
        first_occurrences(s).no_duplicates(),
        first_occurrences(s).to_set() == s.to_set(),
    decreases s.len(),
{
    if s.len() == 0 {
        assert(s.to_set() =~= Set::<u32>::empty());
        assert(first_occurrences(s).to_set() =~= Set::<u32>::empty());
    } else {
        let q = s.drop_last();
        let x = s.last();
        lemma_first_occurrences(q);
        let p = first_occurrences(q);
        assert(s == q.push(x));
        q.lemma_push_to_set_commute(x);
        if p.contains(x) {
            assert(p.to_set().contains(x));
            assert(p.to_set().insert(x) =~= p.to_set());
        } else {
            p.lemma_push_to_set_commute(x);
            assert forall|a: int, b: int| 0 <= a < p.push(x).len() && 0 <= b < p.push(x).len() && a != b implies p.push(x)[a]
                != p.push(x)[b] by {
                if a < p.len() && b < p.len() {
                } else if a == p.len() {
                    assert(p.push(x)[b] == p[b]);
                } else {
                    assert(p.push(x)[a] == p[a]);
                }
            }
        }
    }
}

/// The processes that `--kill` signals for a port: the PIDs of its findings,
/// each once, in the order they are first found.
pub fn kill_targets(findings: &Vec<Finding>) -> (r: Vec<u32>)
    ensures
        r@ == first_occurrences(finding_pids(finding_views(findings@))),
        r@.no_duplicates(),
        r@.to_set() == finding_pids(finding_views(findings@)).to_set(),
{
    let ghost pids = finding_pids(finding_views(findings@));
    let mut r: Vec<u32> = Vec::new();
    let mut i: usize = 0;
    assert(pids.take(0) =~= Seq::<u32>::empty());
    while i < findings.len()
        invariant
            pids == finding_pids(finding_views(findings@)),
            i <= findings@.len(),
            r@ == first_occurrences(pids.take(i as int)),
        decreases findings@.len() - i,
    {
        let x = findings[i].process.pid;
        assert(pids[i as int] == x);
        assert(pids.take(i + 1).drop_last() =~= pids.take(i as int));
        assert(pids.take(i + 1).last() == x);
        let mut found = false;
        let mut j: usize = 0;
        while j < r.len()
            invariant
                j <= r@.len(),
                found == (exists|t: int| 0 <= t < j && r@[t] == x),
            decreases r@.len() - j,
        {
            if r[j] == x {
                found = true;
            }
            j = j + 1;
        }
        if !found {
            r.push(x);
        }
        i = i + 1;
    }
    assert(pids.take(findings@.len() as int) =~= pids);
    proof {
        lemma_first_occurrences(pids);
    }
    r
}

/// Every finding for `port` has the port on one of its socket's ends.
pub proof fn lemma_findings_touch_port(port: u16, src: SocketSourceView, table: Seq<ProcessSnapshotView>)
    ensures
        forall|i: int| 0 <= i < spec_find_port_users(port, src, table).len() ==> touches_port(
            (#[trigger] spec_find_port_users(port, src, table)[i]).socket,
            port,
        ),
{
    match src {
        SocketSourceView::Lsof(out) => {
            lemma_parse_lsof_touches_port(out, port);
            let rows = spec_parse_lsof(out, Some(port));
            assert forall|i: int| 0 <= i < spec_find_port_users(port, src, table).len() implies touches_port(
                (#[trigger] spec_find_port_users(port, src, table)[i]).socket,
                port,
            ) by {
                assert(spec_find_port_users(port, src, table)[i].socket == rows[i].socket);
            }
        },
        SocketSourceView::ProcNet(ts, links, le) => {
            let all = all_entries(ts, Some(port), le);
            let merged = latest_per_inode(all);
            lemma_all_entries_touch_port(ts, port, le);
            lemma_latest_from_input(all);
            let f = |e: (u64, SocketInfoView)| procnet_finding(e, links, table);
            let found = merged.filter_map(f);
            assert forall|i: int| 0 <= i < found.len() implies touches_port(#[trigger] found[i].socket, port) by {
                assert(found.contains(found[i]));
                merged.lemma_filter_map_contains(f, found[i]);
                let t = choose|t: (u64, SocketInfoView)| #[trigger] merged.contains(t) && f(t) == Some(found[i]);
                let m = choose|m: int| 0 <= m < merged.len() && merged[m] == t;
                assert(all.contains(merged[m]));
                let k = choose|k: int| 0 <= k < all.len() && all[k] == t;
                assert(touches_port(all[k].1, port));
            }
        },
    }
}

/// The list holds its candidates, each as often as they occur, and only
/// them: it is a reordering of them.
pub proof fn lemma_list_reorders_candidates(r: Seq<ListEntryView>, src: SocketSourceView, table: Seq<ProcessSnapshotView>)
    requires
        forall|k: (u16, u8, u32)| #[trigger] keyed(r, k) == keyed(list_candidates(src, table), k),
    ensures
        r.to_multiset() == list_candidates(src, table).to_multiset(),
{
    lemma_same_keys_same_multiset(r, list_candidates(src, table));
}

/// Every entry of the list is a listening socket: from lsof, one bound to a
/// port (not 0); from `/proc`, a listening TCP socket or a UDP socket.
pub proof fn lemma_list_entries_listen(r: Seq<ListEntryView>, src: SocketSourceView, table: Seq<ProcessSnapshotView>)
    requires
        forall|k: (u16, u8, u32)| #[trigger] keyed(r, k) == keyed(list_candidates(src, table), k),
    ensures
        forall|i: int| 0 <= i < r.len() ==> match src {
            SocketSourceView::Lsof(_) => (#[trigger] r[i]).port != 0,
            SocketSourceView::ProcNet(..) => r[i].state is None || r[i].state == Some(
                TcpStateView::Listen,
            ),
        },
{
    broadcast use vstd::seq_lib::group_to_multiset_ensures;

    let c = list_candidates(src, table);
    lemma_same_keys_same_multiset(r, c);
    assert forall|i: int| 0 <= i < r.len() implies match src {
        SocketSourceView::Lsof(_) => (#[trigger] r[i]).port != 0,
        SocketSourceView::ProcNet(..) => r[i].state is None || r[i].state == Some(TcpStateView::Listen),
    } by {
        assert(r.contains(r[i]));
        assert(r.to_multiset().count(r[i]) > 0);
        assert(c.contains(r[i]));
        match src {
            SocketSourceView::Lsof(out) => {
                let g = |x: LsofRowView| lsof_entry(x);
                spec_parse_lsof(out, None).lemma_filter_map_contains(g, r[i]);
            },
            SocketSourceView::ProcNet(ts, links, le) => {
                let g = |e: (u64, SocketInfoView)| procnet_entry(e, links, table);
                spec_collect_sockets(ts, None, le).lemma_filter_map_contains(g, r[i]);
            },
        }
    }
}

/// Whatever is in a sequence and maps to a value gives that value among the
/// results of `filter_map`.
proof fn lemma_filter_map_keeps<A, B>(s: Seq<A>, f: spec_fn(A) -> Option<B>, x: A, y: B)
    requires
        s.contains(x),
        f(x) == Some(y),
    ensures
        s.filter_map(f).contains(y),
    decreases s.len(),
{
    if s.last() == x {
        assert(s.filter_map(f) == s.drop_last().filter_map(f) + seq![y]);
        assert(s.filter_map(f)[s.filter_map(f).len() - 1] == y);
    } else {
        let i = choose|i: int| 0 <= i < s.len() && s[i] == x;
        assert(s.drop_last()[i] == x);
        lemma_filter_map_keeps(s.drop_last(), f, x, y);
        let r = s.drop_last().filter_map(f);
        let k = choose|k: int| 0 <= k < r.len() && r[k] == y;
        match f(s.last()) {
            Some(z) => {
                assert((r + seq![z])[k] == y);
            },
            None => {},
        }
    }
}

/// From `/proc`, the list shows every listening TCP socket and every UDP
/// socket (no state) whose inode a process of the process table holds: a
/// candidate carries its port, protocol, address and state, the holder's
/// PID and name.
pub proof fn lemma_procnet_lists_listeners(
    ts: Seq<(ProtocolView, Seq<char>)>,
    links: Seq<(u32, u64)>,
    le: bool,
    table: Seq<ProcessSnapshotView>,
    e: (u64, SocketInfoView),
    pid: u32,
    p: ProcessSnapshotView,
)
    requires
        spec_collect_sockets(ts, None, le).contains(e),
        e.1.state is None || e.1.state == Some(TcpStateView::Listen),
        last_owner(links, e.0) == Some(pid),
        lookup(table, pid) == Some(p),
    ensures
        exists|r: ListEntryView|
            #[trigger] list_candidates(SocketSourceView::ProcNet(ts, links, le), table).contains(r)
                && r.port == e.1.local_port && r.protocol == e.1.protocol && r.local_addr
                == e.1.local_addr && r.state == e.1.state && r.pid == pid && r.process_name == p.name,
{
    let f = |x: (u64, SocketInfoView)| procnet_entry(x, links, table);
    let r = procnet_entry(e, links, table)->0;
    lemma_filter_map_keeps(spec_collect_sockets(ts, None, le), f, e, r);
    assert(list_candidates(SocketSourceView::ProcNet(ts, links, le), table).contains(r));
}

/// The list that `list_all_ports` returns for a `/proc` source shows each
/// such socket too.
pub proof fn lemma_procnet_list_shows_listeners(
    out: Seq<ListEntryView>,
    ts: Seq<(ProtocolView, Seq<char>)>,
    links: Seq<(u32, u64)>,
    le: bool,
    table: Seq<ProcessSnapshotView>,
    e: (u64, SocketInfoView),
    pid: u32,
    p: ProcessSnapshotView,
)
    requires
        forall|k: (u16, u8, u32)| #[trigger] keyed(out, k) == keyed(
            list_candidates(SocketSourceView::ProcNet(ts, links, le), table),
            k,
        ),
        spec_collect_sockets(ts, None, le).contains(e),
        e.1.state is None || e.1.state == Some(TcpStateView::Listen),
        last_owner(links, e.0) == Some(pid),
        lookup(table, pid) == Some(p),
    ensures
        exists|r: ListEntryView|
            #[trigger] out.contains(r) && r.port == e.1.local_port && r.protocol == e.1.protocol
                && r.local_addr == e.1.local_addr && r.state == e.1.state && r.pid == pid
                && r.process_name == p.name,
{
    broadcast use vstd::seq_lib::group_to_multiset_ensures;

    let c = list_candidates(SocketSourceView::ProcNet(ts, links, le), table);
    lemma_procnet_lists_listeners(ts, links, le, table, e, pid, p);
    let r = choose|r: ListEntryView|
        #[trigger] c.contains(r) && r.port == e.1.local_port && r.protocol == e.1.protocol
            && r.local_addr == e.1.local_addr && r.state == e.1.state && r.pid == pid
            && r.process_name == p.name;
    lemma_same_keys_same_multiset(out, c);
    assert(c.to_multiset().count(r) > 0);
    assert(out.to_multiset().count(r) > 0);
    assert(out.contains(r));
}

} // verus!
