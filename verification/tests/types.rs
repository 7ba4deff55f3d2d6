use portspy::types::{Protocol, TcpState};

#[test]
fn tcp_state_from_lsof_case_insensitive() {
    assert_eq!(TcpState::from_lsof("listen"), TcpState::Listen);
    assert_eq!(TcpState::from_lsof("LISTEN"), TcpState::Listen);
    assert_eq!(TcpState::from_lsof("ESTABLISHED"), TcpState::Established);
    assert_eq!(TcpState::from_lsof("TIME_WAIT"), TcpState::TimeWait);
}

#[test]
fn tcp_state_from_hex() {
    assert_eq!(TcpState::from_hex("0A"), TcpState::Listen);
    assert_eq!(TcpState::from_hex("0a"), TcpState::Listen);
    assert_eq!(TcpState::from_hex("01"), TcpState::Established);
    assert_eq!(TcpState::from_hex("06"), TcpState::TimeWait);
}

#[test]
fn tcp_state_display() {
    assert_eq!(TcpState::Listen.to_string(), "LISTEN");
    assert_eq!(TcpState::Established.to_string(), "ESTABLISHED");
    assert_eq!(TcpState::Unknown("FOO".into()).to_string(), "FOO");
}

#[test]
fn protocol_display() {
    assert_eq!(Protocol::Tcp.to_string(), "TCP");
    assert_eq!(Protocol::Udp6.to_string(), "UDP6");
    assert_eq!(Protocol::Unknown("RAW".into()).to_string(), "RAW");
}

#[test]
fn lsof_state_aliases_and_unknown_names() {
    assert_eq!(TcpState::from_lsof("syn_recv"), TcpState::SynReceived);
    assert_eq!(TcpState::from_lsof("Fin_Wait_1"), TcpState::FinWait1);
    assert_eq!(TcpState::from_lsof("fin_wait2"), TcpState::FinWait2);
    assert_eq!(TcpState::from_lsof("close_wait"), TcpState::CloseWait);
    assert_eq!(TcpState::from_lsof("bound"), TcpState::Unknown("BOUND".to_string()));
    assert_eq!(TcpState::from_uppercase("listen"), TcpState::Unknown("listen".to_string()));
    assert_eq!(TcpState::from_uppercase("LAST_ACK"), TcpState::LastAck);
}

#[test]
fn hex_state_codes_and_unknown_codes() {
    assert_eq!(TcpState::from_hex("02"), TcpState::SynSent);
    assert_eq!(TcpState::from_hex("0B"), TcpState::Closing);
    assert_eq!(TcpState::from_hex("0b"), TcpState::Closing);
    assert_eq!(TcpState::from_hex("07"), TcpState::Closed);
    assert_eq!(TcpState::from_hex("0C"), TcpState::Unknown("0x0C".to_string()));
    assert_eq!(TcpState::from_hex(""), TcpState::Unknown("0x".to_string()));
}

#[test]
fn state_names_round_trip_through_lsof() {
    let all = [
        TcpState::Listen,
        TcpState::Established,
        TcpState::SynSent,
        TcpState::SynReceived,
        TcpState::FinWait1,
        TcpState::FinWait2,
        TcpState::TimeWait,
        TcpState::Closed,
        TcpState::CloseWait,
        TcpState::LastAck,
        TcpState::Closing,
    ];
    for s in all {
        let name = s.to_string();
        assert_eq!(TcpState::from_lsof(&name), s);
        assert_eq!(TcpState::from_lsof(&name.to_lowercase()), s);
    }
}

#[test]
fn protocol_sort_keys_rank_tcp_first() {
    assert_eq!(Protocol::Tcp.sort_key(), 0);
    assert_eq!(Protocol::Tcp6.sort_key(), 1);
    assert_eq!(Protocol::Udp.sort_key(), 2);
    assert_eq!(Protocol::Udp6.sort_key(), 3);
    assert_eq!(Protocol::Unknown("SCTP".into()).sort_key(), 4);
    assert_eq!(Protocol::Udp.to_string(), "UDP");
    assert_eq!(Protocol::Tcp6.to_string(), "TCP6");
}
