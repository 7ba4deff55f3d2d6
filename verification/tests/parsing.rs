use portspy::lsof::{parse_lsof, parse_name, split_addr};
use portspy::procnet::{
    collect_sockets, parse_hex_addr_v4, parse_hex_addr_v6, parse_pid, read_proc_net,
    socket_inode, socket_owner,
};
use portspy::types::{Protocol, TcpState};

#[test]
fn split_addr_forms() {
    assert_eq!(split_addr("127.0.0.1:8080"), ("127.0.0.1".to_string(), 8080));
    assert_eq!(split_addr("*:5000"), ("*".to_string(), 5000));
    assert_eq!(split_addr("[::1]:443"), ("[::1]".to_string(), 443));
    assert_eq!(split_addr("*:*"), ("*".to_string(), 0));
    assert_eq!(split_addr("localhost"), ("localhost".to_string(), 0));
    assert_eq!(split_addr("[::1]"), ("[::1]".to_string(), 0));
    assert_eq!(split_addr("host:99999"), ("host".to_string(), 0));
    assert_eq!(split_addr("host:+80"), ("host".to_string(), 80));
}

#[test]
fn parse_name_forms() {
    assert_eq!(
        parse_name("*:5000 (LISTEN)"),
        ("*:5000".to_string(), None, Some(TcpState::Listen))
    );
    assert_eq!(
        parse_name("127.0.0.1:8080->127.0.0.1:51234 (ESTABLISHED)"),
        (
            "127.0.0.1:8080".to_string(),
            Some("127.0.0.1:51234".to_string()),
            Some(TcpState::Established)
        )
    );
    assert_eq!(parse_name("*:*"), ("*:*".to_string(), None, None));
    assert_eq!(parse_name(" a:1 )x( "), ("a:1 )x(".to_string(), None, None));
}

fn lsof_line(cmd: &str, pid: &str, user: &str, fd: &str, ty: &str, node: &str, name: &str) -> String {
    format!(
        "{:<10}{:>6} {:<8} {:<4} {:<5}{:>19} {:>8} {:<4} {}\n",
        cmd, pid, user, fd, ty, "0x1234567890abcdef", "0t0", node, name
    )
}

fn sample_lsof() -> String {
    let mut s = format!(
        "{:<10}{:>6} {:<8} {:<4} {:<5}{:>19} {:>8} {:<4} {}\n",
        "COMMAND", "PID", "USER", "FD", "TYPE", "DEVICE", "SIZE/OFF", "NODE", "NAME"
    );
    s += &lsof_line("ControlCe", "670", "alice", "9u", "IPv4", "TCP", "*:5000 (LISTEN)");
    s += &lsof_line("ControlCe", "670", "alice", "10u", "IPv6", "TCP", "*:5000 (LISTEN)");
    s += &lsof_line("node", "1234", "alice", "22u", "IPv4", "TCP", "127.0.0.1:8080 (LISTEN)");
    s += &lsof_line(
        "node",
        "1234",
        "alice",
        "23u",
        "IPv4",
        "TCP",
        "127.0.0.1:8080->127.0.0.1:51234 (ESTABLISHED)",
    );
    s += &lsof_line(
        "curl",
        "999",
        "bob",
        "5u",
        "IPv4",
        "TCP",
        "127.0.0.1:51234->127.0.0.1:8080 (ESTABLISHED)",
    );
    s += &lsof_line("rapportd", "673", "alice", "4u", "IPv4", "UDP", "*:*");
    s += "\n";
    s += "short line\n";
    s
}

#[test]
fn parse_lsof_rows_without_filter() {
    let rows = parse_lsof(&sample_lsof(), None);
    assert_eq!(rows.len(), 6);
    assert_eq!(rows[0].command, "ControlCe");
    assert_eq!(rows[0].pid, 670);
    assert_eq!(rows[0].user, "alice");
    assert_eq!(rows[0].socket.fd, "9u");
    assert_eq!(rows[0].socket.protocol, Protocol::Tcp);
    assert_eq!(rows[1].socket.protocol, Protocol::Tcp6);
    assert_eq!(rows[0].socket.local_addr, "*");
    assert_eq!(rows[0].socket.local_port, 5000);
    assert_eq!(rows[0].socket.state, Some(TcpState::Listen));
    assert_eq!(rows[3].socket.remote_addr.as_deref(), Some("127.0.0.1"));
    assert_eq!(rows[3].socket.remote_port, Some(51234));
    assert_eq!(rows[5].socket.protocol, Protocol::Udp);
    assert_eq!(rows[5].socket.local_port, 0);
    assert_eq!(rows[5].socket.state, None);
}

#[test]
fn parse_lsof_port_filter_matches_either_end() {
    let rows = parse_lsof(&sample_lsof(), Some(8080));
    let pids: Vec<u32> = rows.iter().map(|r| r.pid).collect();
    assert_eq!(pids, vec![1234, 1234, 999]);
    assert!(parse_lsof(&sample_lsof(), Some(1)).is_empty());
}

#[test]
fn parse_lsof_edge_inputs() {
    assert!(parse_lsof("", None).is_empty());
    assert!(parse_lsof("COMMAND PID USER FD TYPE DEVICE SIZE/OFF NODE NAME\n", None).is_empty());
    let no_name = "COMMAND PID\nnode 12 me 3u IPv4 0x1 0t0 TCP *:80 (LISTEN)\n";
    let rows = parse_lsof(no_name, None);
    assert_eq!(rows.len(), 1);
    assert_eq!(rows[0].socket.local_addr, "node 12 me 3u IPv4 0x1 0t0 TCP *");
    assert_eq!(rows[0].socket.local_port, 80);
    let bad_pid = "H\nnode x me 3u IPv4 0x1 0t0 TCP *:80\n";
    assert!(parse_lsof(bad_pid, None).is_empty());
}

#[test]
fn ipv4_columns_in_machine_order() {
    assert_eq!(parse_hex_addr_v4("0100007F:1F90", true), ("127.0.0.1".to_string(), 8080));
    assert_eq!(parse_hex_addr_v4("7F000001:0050", false), ("127.0.0.1".to_string(), 80));
    assert_eq!(parse_hex_addr_v4("00000000:0000", true), ("0.0.0.0".to_string(), 0));
    assert_eq!(parse_hex_addr_v4("garbage", true), ("?".to_string(), 0));
    assert_eq!(parse_hex_addr_v4("zz:0016", true), ("0.0.0.0".to_string(), 22));
}

#[test]
fn ipv6_columns_in_machine_order() {
    assert_eq!(
        parse_hex_addr_v6("00000000000000000000000001000000:1F90", true),
        ("::1".to_string(), 8080)
    );
    assert_eq!(
        parse_hex_addr_v6("00000000000000000000000000000000:0035", true),
        ("::".to_string(), 53)
    );
    assert_eq!(
        parse_hex_addr_v6("0000000000000000FFFF00000100007F:0016", true),
        ("::ffff:127.0.0.1".to_string(), 22)
    );
    assert_eq!(
        parse_hex_addr_v6("B80D0120000000000000000001000000:01BB", true),
        ("2001:db8::1".to_string(), 443)
    );
    assert_eq!(parse_hex_addr_v6("0000:1F90", true), ("?".to_string(), 8080));
    assert_eq!(parse_hex_addr_v6("nothing", true), ("?".to_string(), 0));
}

fn tcp_table() -> String {
    let mut s = String::from("  sl  local_address rem_address   st tx_queue rx_queue tr tm->when retrnsmt   uid  timeout inode\n");
    s += "   0: 0100007F:1F90 00000000:0000 0A 00000000:00000000 00:00000000 00000000  1000        0 12345 1 0000000000000000 100 0 0 10 0\n";
    s += "   1: 0100007F:1F90 0100007F:C822 01 00000000:00000000 00:00000000 00000000  1000        0 12346 1 0000000000000000 20 4 30 10 -1\n";
    s += "   2: 0100007F:0016 00000000:0000 0A 00000000:00000000 00:00000000 00000000     0        0 777 1 0000000000000000 100 0 0 10 0\n";
    s
}

fn udp_table() -> String {
    let mut s = String::from("  sl  local_address rem_address   st tx_queue rx_queue tr tm->when retrnsmt   uid  timeout inode ref pointer drops\n");
    s += "  10: 00000000:0035 00000000:0000 07 00000000:00000000 00:00000000 00000000     0        0 4242 2 0000000000000000 0\n";
    s
}

#[test]
fn read_proc_net_tables() {
    let rows = read_proc_net(&tcp_table(), &Protocol::Tcp, None, true);
    assert_eq!(rows.len(), 3);
    assert_eq!(rows[0].0, 12345);
    assert_eq!(rows[0].1.local_addr, "127.0.0.1");
    assert_eq!(rows[0].1.local_port, 8080);
    assert_eq!(rows[0].1.remote_addr, None);
    assert_eq!(rows[0].1.state, Some(TcpState::Listen));
    assert_eq!(rows[1].1.remote_port, Some(51234));
    assert_eq!(rows[1].1.state, Some(TcpState::Established));
    let filtered = read_proc_net(&tcp_table(), &Protocol::Tcp, Some(22), true);
    assert_eq!(filtered.len(), 1);
    assert_eq!(filtered[0].0, 777);
    let udp = read_proc_net(&udp_table(), &Protocol::Udp, None, true);
    assert_eq!(udp.len(), 1);
    assert_eq!(udp[0].1.state, None);
    assert_eq!(udp[0].1.local_port, 53);
}

#[test]
fn collect_sockets_keeps_last_entry_per_inode() {
    let tables = vec![
        (Protocol::Tcp, tcp_table()),
        (Protocol::Udp, udp_table()),
        (Protocol::Udp, udp_table().replace("0035", "0036")),
    ];
    let merged = collect_sockets(&tables, None, true);
    let inodes: Vec<u64> = merged.iter().map(|e| e.0).collect();
    assert_eq!(inodes, vec![12345, 12346, 777, 4242]);
    assert_eq!(merged[3].1.local_port, 54);
}

#[test]
fn fd_links_and_pids() {
    assert_eq!(socket_inode("socket:[12345]"), Some(12345));
    assert_eq!(socket_inode("socket:[]"), None);
    assert_eq!(socket_inode("pipe:[12345]"), None);
    assert_eq!(socket_inode("/dev/null"), None);
    assert_eq!(parse_pid("1234"), Some(1234));
    assert_eq!(parse_pid("self"), None);
    assert_eq!(parse_pid("4294967296"), None);
    let links = vec![(10, 5), (11, 6), (12, 5)];
    assert_eq!(socket_owner(&links, 5), Some(12));
    assert_eq!(socket_owner(&links, 6), Some(11));
    assert_eq!(socket_owner(&links, 7), None);
}

/// The `/proc/net/tcp6` column of an address given by its eight groups, on a
/// little-endian machine.
fn v6_column(groups: [u16; 8], port: u16) -> String {
    let mut bytes = [0u8; 16];
    for (k, g) in groups.iter().enumerate() {
        bytes[2 * k] = (g >> 8) as u8;
        bytes[2 * k + 1] = (g & 0xff) as u8;
    }
    let mut s = String::new();
    for w in 0..4 {
        let word = u32::from_le_bytes([bytes[4 * w], bytes[4 * w + 1], bytes[4 * w + 2], bytes[4 * w + 3]]);
        s += &format!("{:08X}", word);
    }
    format!("{}:{:04X}", s, port)
}

#[test]
fn ipv6_compresses_first_longest_zero_run() {
    let cases: [([u16; 8], &str); 5] = [
        ([1, 0, 0, 2, 0, 0, 0, 3], "1:0:0:2::3"),
        ([1, 0, 0, 2, 0, 0, 3, 4], "1::2:0:0:3:4"),
        ([1, 0, 2, 3, 4, 5, 6, 7], "1:0:2:3:4:5:6:7"),
        ([0xfe80, 0, 0, 0, 0x1234, 0xabcd, 0, 1], "fe80::1234:abcd:0:1"),
        ([0xffff, 0xffff, 0xffff, 0xffff, 0xffff, 0xffff, 0xffff, 0xffff], "ffff:ffff:ffff:ffff:ffff:ffff:ffff:ffff"),
    ];
    for (groups, text) in cases {
        let col = v6_column(groups, 443);
        assert_eq!(parse_hex_addr_v6(&col, true), (text.to_string(), 443), "{}", col);
    }
}

#[test]
fn ipv6_non_ascii_words_read_as_zero() {
    // 32 bytes, but the first word's bytes are not ASCII hex digits
    let col = format!("{}{}:0050", "\u{e9}\u{e9}\u{e9}\u{e9}", "000000000000000000000000");
    assert_eq!(parse_hex_addr_v6(&col, true), ("::".to_string(), 80));
}

#[test]
fn port_filter_keeps_the_unfiltered_rows_on_the_port() {
    for port in [8080u16, 22, 53, 51234, 1, 0] {
        let all = parse_lsof(&sample_lsof(), None);
        let kept: Vec<(u32, u16, Option<u16>)> = all
            .iter()
            .filter(|r| r.socket.local_port == port || r.socket.remote_port == Some(port))
            .map(|r| (r.pid, r.socket.local_port, r.socket.remote_port))
            .collect();
        let filtered: Vec<(u32, u16, Option<u16>)> = parse_lsof(&sample_lsof(), Some(port))
            .iter()
            .map(|r| (r.pid, r.socket.local_port, r.socket.remote_port))
            .collect();
        assert_eq!(filtered, kept);

        let all = read_proc_net(&tcp_table(), &Protocol::Tcp, None, true);
        let kept: Vec<u64> = all
            .iter()
            .filter(|e| e.1.local_port == port || e.1.remote_port.unwrap_or(0) == port)
            .map(|e| e.0)
            .collect();
        let filtered: Vec<u64> = read_proc_net(&tcp_table(), &Protocol::Tcp, Some(port), true)
            .iter()
            .map(|e| e.0)
            .collect();
        assert_eq!(filtered, kept);
    }
}

#[test]
fn written_names_read_back() {
    let cases = [("127.0.0.1:8080", "10.0.0.2:51234", "ESTABLISHED"), ("*:53", "", "Listen"), ("", "[::1]:9", "odd state")];
    for (l, r, w) in cases {
        let (local, remote, state) = parse_name(&format!("{}->{} ({})", l, r, w));
        assert_eq!((local.as_str(), remote.as_deref()), (l, Some(r)));
        assert_eq!(state, Some(TcpState::from_lsof(w)));
        let (local, remote, state) = parse_name(&format!("{} ({})", l, w));
        assert_eq!((local.as_str(), remote), (l, None));
        assert_eq!(state, Some(TcpState::from_lsof(w)));
        let (local, remote, state) = parse_name(l);
        assert_eq!((local.as_str(), remote, state), (l, None, None));
    }
}
