use portspy::display::{
    detail_lines, inspect_header, list_layout, list_totals, socket_address_label, DetailLine,
};
use portspy::inspect::{
    find_port_users, kill_targets, list_all_ports, ProcNetSnapshot, SocketSource,
};
use portspy::listing::sort_list_entries;
use portspy::lsof::{check_lsof_output, split_addr};
use portspy::process::{enrich_process, ProcessSnapshot};
use portspy::types::{Finding, ListEntry, Protocol, SocketInfo, TcpState};

fn lsof_line(cmd: &str, pid: &str, user: &str, fd: &str, ty: &str, node: &str, name: &str) -> String {
    format!(
        "{:<10}{:>6} {:<8} {:<4} {:<5}{:>19} {:>8} {:<4} {}\n",
        cmd, pid, user, fd, ty, "0x1234567890abcdef", "0t0", node, name
    )
}

fn sample_lsof() -> String {
    let mut s = format!(
        "{:<10}{:>6} {:<8} {:<4} {:<5}{:>19} {:>8} {:<4} {}\n",
        "COMMAND", "PID", "USER", "FD", "TYPE", "DEVICE", "SIZE/OFF", "NODE", "NAME"
    );
    s += &lsof_line("node", "1234", "alice", "22u", "IPv4", "TCP", "127.0.0.1:8080 (LISTEN)");
    s += &lsof_line("ControlCe", "670", "alice", "10u", "IPv6", "TCP", "*:5000 (LISTEN)");
    s += &lsof_line("ControlCe", "670", "alice", "9u", "IPv4", "TCP", "*:5000 (LISTEN)");
    s += &lsof_line("rapportd", "673", "alice", "4u", "IPv4", "UDP", "*:*");
    s += &lsof_line("ghost", "4321", "carol", "7u", "IPv4", "TCP", "*:8080 (LISTEN)");
    s
}

fn snapshot(pid: u32, name: &str, cmd: &[&str], user: Option<&str>, parent: Option<u32>) -> ProcessSnapshot {
    ProcessSnapshot {
        pid,
        name: name.to_string(),
        cmd: cmd.iter().map(|s| s.to_string()).collect(),
        user: user.map(|u| u.to_string()),
        parent_pid: parent,
        memory: 47_395_635,
        virtual_memory: 536_870_912,
        run_time: 9000,
        start_time: 1_709_210_096,
        cwd: Some("/srv".to_string()),
        exe: Some("/usr/bin/node".to_string()),
    }
}

fn processes() -> Vec<ProcessSnapshot> {
    vec![
        snapshot(1234, "node", &["node", "server.js", "--port", "8080"], Some("alice"), Some(5678)),
        snapshot(5678, "bash", &[], None, None),
        snapshot(670, "ControlCenter", &["ControlCenter"], Some("alice"), None),
    ]
}

#[test]
fn lsof_findings_with_process_details() {
    let out = sample_lsof();
    assert!(check_lsof_output(&out));
    let found = find_port_users(8080, &SocketSource::Lsof(out), &processes());
    assert_eq!(found.len(), 2);
    let first = &found[0];
    assert_eq!(first.socket.local_port, 8080);
    assert_eq!(first.process.pid, 1234);
    assert_eq!(first.process.name, "node");
    assert_eq!(first.process.cmdline, "node server.js --port 8080");
    assert_eq!(first.process.user, "alice");
    assert_eq!(first.process.parent_pid, Some(5678));
    assert_eq!(first.process.parent_name.as_deref(), Some("bash"));
    let second = &found[1];
    assert_eq!(second.process.pid, 4321);
    assert_eq!(second.process.name, "");
    assert_eq!(second.process.user, "carol");
    assert_eq!(second.process.memory_bytes, 0);
}

#[test]
fn lsof_list_is_sorted_and_skips_unbound() {
    let list = list_all_ports(&SocketSource::Lsof(sample_lsof()), &processes());
    let keys: Vec<(u16, String, u32)> = list
        .iter()
        .map(|e| (e.port, e.protocol.to_string(), e.pid))
        .collect();
    assert_eq!(
        keys,
        vec![
            (5000, "TCP".to_string(), 670),
            (5000, "TCP6".to_string(), 670),
            (8080, "TCP".to_string(), 1234),
            (8080, "TCP".to_string(), 4321),
        ]
    );
    assert_eq!(list[0].process_name, "ControlCe");
    assert_eq!(list[0].user, "alice");
    assert_eq!(list_totals(&list), (4, 3));
}

fn tcp_table() -> String {
    let mut s = String::from("  sl  local_address rem_address   st tx_queue rx_queue tr tm->when retrnsmt   uid  timeout inode\n");
    s += "   0: 0100007F:1F90 00000000:0000 0A 00000000:00000000 00:00000000 00000000  1000        0 12345 1 0000000000000000 100 0 0 10 0\n";
    s += "   1: 0100007F:1F90 0100007F:C822 01 00000000:00000000 00:00000000 00000000  1000        0 12346 1 0000000000000000 20 4 30 10 -1\n";
    s += "   2: 0100007F:0016 00000000:0000 0A 00000000:00000000 00:00000000 00000000     0        0 777 1 0000000000000000 100 0 0 10 0\n";
    s
}

fn tcp6_table() -> String {
    let mut s = String::from("  sl  local_address                         remote_address                        st tx_queue rx_queue tr tm->when retrnsmt   uid  timeout inode\n");
    s += "   0: 00000000000000000000000001000000:1F90 00000000000000000000000000000000:0000 0A 00000000:00000000 00:00000000 00000000  1000        0 5555 1 0000000000000000 100 0 0 10 0\n";
    s
}

fn proc_source() -> SocketSource {
    SocketSource::ProcNet(ProcNetSnapshot {
        tables: vec![(Protocol::Tcp, tcp_table()), (Protocol::Tcp6, tcp6_table())],
        links: vec![(1234, 12345), (1234, 12346), (670, 5555), (99, 777)],
        little_endian: true,
    })
}

#[test]
fn proc_findings_need_an_owner() {
    let found = find_port_users(8080, &proc_source(), &processes());
    let inodes: Vec<(u32, u16)> = found.iter().map(|f| (f.process.pid, f.socket.local_port)).collect();
    assert_eq!(inodes, vec![(1234, 8080), (1234, 8080), (670, 8080)]);
    assert_eq!(found[2].socket.local_addr, "::1");
    assert_eq!(found[2].socket.protocol, Protocol::Tcp6);
    assert_eq!(found[0].process.user, "alice");
    let none = find_port_users(9, &proc_source(), &processes());
    assert!(none.is_empty());
}

#[test]
fn proc_list_keeps_listeners_with_known_processes() {
    let list = list_all_ports(&proc_source(), &processes());
    let keys: Vec<(u16, String, u32)> = list
        .iter()
        .map(|e| (e.port, e.protocol.to_string(), e.pid))
        .collect();
    // inode 777 belongs to pid 99, which the process table lacks
    assert_eq!(keys, vec![(8080, "TCP".to_string(), 1234), (8080, "TCP6".to_string(), 670)]);
    assert_eq!(list[0].state, Some(TcpState::Listen));
    assert_eq!(list[1].process_name, "ControlCenter");
}

fn entry(port: u16, protocol: Protocol, pid: u32, name: &str) -> ListEntry {
    ListEntry {
        port,
        protocol,
        local_addr: "*".to_string(),
        state: None,
        process_name: name.to_string(),
        pid,
        user: "u".to_string(),
    }
}

#[test]
fn sorting_is_stable_on_equal_keys() {
    let list = vec![
        entry(80, Protocol::Udp, 5, "a"),
        entry(22, Protocol::Tcp, 9, "b"),
        entry(80, Protocol::Tcp, 5, "c"),
        entry(80, Protocol::Udp, 5, "d"),
        entry(80, Protocol::Unknown("X".into()), 1, "e"),
        entry(22, Protocol::Tcp, 3, "f"),
    ];
    let sorted = sort_list_entries(list);
    let names: Vec<&str> = sorted.iter().map(|e| e.process_name.as_str()).collect();
    assert_eq!(names, vec!["f", "b", "c", "a", "d", "e"]);
}

#[test]
fn list_layout_widths() {
    let list = vec![
        entry(80, Protocol::Tcp, 5, "nginx-master-process"),
        entry(65535, Protocol::Udp, 7, "x"),
    ];
    let layout = list_layout(&list);
    assert_eq!(layout.addr_cells, vec!["*:80".to_string(), "*:65535".to_string()]);
    assert_eq!(layout.addr_width, 7);
    assert_eq!(layout.name_width, 20);
    assert_eq!(layout.user_width, 4);
    assert_eq!(layout.rule_width, 7 + 2 + 5 + 2 + 11 + 2 + 20 + 2 + 4 + 2 + 7);
    let empty = list_layout(&Vec::new());
    assert_eq!((empty.addr_width, empty.name_width, empty.user_width), (4, 7, 4));
    assert_eq!(list_totals(&Vec::new()), (0, 0));
}

#[test]
fn addr_cell_ends_with_the_port() {
    let mut e = entry(8443, Protocol::Tcp6, 1, "srv");
    e.local_addr = "fe80::1".to_string();
    let layout = list_layout(&vec![e]);
    let cell = &layout.addr_cells[0];
    assert_eq!(cell, "fe80::1:8443");
    let (addr, port) = cell.rsplit_once(':').unwrap();
    assert_eq!(addr, "fe80::1");
    assert_eq!(port.parse::<u16>().unwrap(), 8443);
}

#[test]
fn detail_lines_follow_what_is_known() {
    let procs = processes();
    let p = enrich_process(1234, "lsof-user", &procs);
    let lines = detail_lines(&p, false, true);
    assert_eq!(lines.len(), 6);
    assert!(matches!(&lines[0], DetailLine::Process { name, pid: 1234 } if name == "node"));
    assert!(matches!(&lines[1], DetailLine::User(u) if u == "alice"));
    assert!(matches!(&lines[2], DetailLine::Command(c) if c == "node server.js --port 8080"));
    assert!(matches!(&lines[3], DetailLine::Parent { ppid: 5678, parent_name: Some(n) } if n == "bash"));
    assert!(matches!(&lines[4], DetailLine::Memory { resident: 47_395_635, .. }));
    assert!(matches!(&lines[5], DetailLine::Started { since, uptime } if since == "2024-02-29 12:34:56" && uptime == "2h 30m"));
    let verbose = detail_lines(&p, true, false);
    assert_eq!(verbose.len(), 8);
    assert!(matches!(&verbose[3], DetailLine::Exe(e) if e == "/usr/bin/node"));
    assert!(matches!(&verbose[5], DetailLine::Cwd(c) if c == "/srv"));
    assert!(matches!(&verbose[7], DetailLine::Started { since, .. } if since == "unknown"));
    let missing = enrich_process(42, "", &procs);
    let lines = detail_lines(&missing, true, true);
    assert_eq!(lines.len(), 1);
    assert!(matches!(&lines[0], DetailLine::Process { name, pid: 42 } if name == "<unknown>"));
    let bash = enrich_process(5678, "fallback", &procs);
    assert_eq!(bash.cmdline, "bash");
    assert_eq!(bash.user, "fallback");
}

#[test]
fn socket_labels() {
    let s = SocketInfo {
        protocol: Protocol::Tcp,
        local_addr: "127.0.0.1".to_string(),
        local_port: 8080,
        remote_addr: Some("10.0.0.2".to_string()),
        remote_port: Some(51234),
        state: Some(TcpState::Established),
        fd: String::new(),
    };
    assert_eq!(socket_address_label(&s), "127.0.0.1:8080 \u{2192} 10.0.0.2:51234");
    let lone = SocketInfo { remote_addr: None, remote_port: None, ..s };
    assert_eq!(socket_address_label(&lone), "127.0.0.1:8080");
}

#[test]
fn kill_targets_are_each_owner_once() {
    let procs = processes();
    let socket = |port: u16| SocketInfo {
        protocol: Protocol::Tcp,
        local_addr: "*".to_string(),
        local_port: port,
        remote_addr: None,
        remote_port: None,
        state: Some(TcpState::Listen),
        fd: String::new(),
    };
    let findings: Vec<Finding> = [(5, 80), (3, 80), (5, 80), (7, 80), (3, 80)]
        .iter()
        .map(|&(pid, port)| Finding { socket: socket(port), process: enrich_process(pid, "", &procs) })
        .collect();
    assert_eq!(kill_targets(&findings), vec![5, 3, 7]);
    assert!(kill_targets(&Vec::new()).is_empty());
}

#[test]
fn addr_cells_split_back() {
    let mut list = Vec::new();
    for (addr, port) in [("*", 5000u16), ("[::1]", 631), ("127.0.0.1", 8080), ("[fe80::1", 0)] {
        let mut e = entry(port, Protocol::Tcp, 1, "p");
        e.local_addr = addr.to_string();
        list.push(e);
    }
    let layout = list_layout(&list);
    for (cell, e) in layout.addr_cells.iter().zip(list.iter()) {
        assert_eq!(split_addr(cell), (e.local_addr.clone(), e.port));
    }
}

#[test]
fn list_totals_count_rows_and_distinct_processes() {
    let list = vec![
        entry(5000, Protocol::Tcp, 670, "ControlCe"),
        entry(5000, Protocol::Tcp6, 670, "ControlCe"),
        entry(8080, Protocol::Tcp, 1234, "node"),
        entry(53271, Protocol::Tcp, 673, "rapportd"),
    ];
    assert_eq!(list_totals(&list), (4, 3));
}

#[test]
fn ports_read_off_the_list_cells_ascend() {
    let list = list_all_ports(&SocketSource::Lsof(sample_lsof()), &processes());
    let layout = list_layout(&list);
    let ports: Vec<u16> = layout
        .addr_cells
        .iter()
        .map(|c| c.rsplit(':').next().unwrap().parse().unwrap())
        .collect();
    let mut sorted = ports.clone();
    sorted.sort_unstable();
    assert_eq!(ports, sorted);
    assert_eq!(ports, vec![5000, 5000, 8080, 8080]);
}

#[test]
fn inspect_header_names_the_queried_port() {
    assert_eq!(inspect_header(8080), "  portspy \u{2014} port 8080");
    assert_eq!(inspect_header(0), "  portspy \u{2014} port 0");
    // a client row matches 8080 by its remote end only; the title still names 8080
    let mut client = format!(
        "{:<10}{:>6} {:<8} {:<4} {:<5}{:>19} {:>8} {:<4} {}\n",
        "COMMAND", "PID", "USER", "FD", "TYPE", "DEVICE", "SIZE/OFF", "NODE", "NAME"
    );
    client += &lsof_line("curl", "77", "me", "5u", "IPv4", "TCP", "127.0.0.1:50000->127.0.0.1:8080 (ESTABLISHED)");
    let found = find_port_users(8080, &SocketSource::Lsof(client), &processes());
    assert_eq!(found.len(), 1);
    assert_eq!(found[0].socket.local_port, 50000);
    assert_eq!(inspect_header(8080), "  portspy \u{2014} port 8080");
}
