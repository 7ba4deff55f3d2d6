//! The lsof backend: reading the table that `lsof -n -P` prints into socket
//! rows.
use vstd::prelude::*;
use crate::text::{
    byte_len, char_at_byte, char_index_at_byte, chars_of, find, find_chars, has_char, is_literal,
    is_space, lemma_find_from_first, lemma_rfind_skips_suffix, lemma_trimmed_plain,
    join, join_chars, longer_than, parse_uint, parse_unsigned, rfind, rfind_char, seqs,
    slice_chars, split_lines, split_words, string_of, text_lines, trim, trimmed, utf8_len, words,
};
use crate::types::{
    opt_state, opt_text, protocol_text, spec_from_lsof, touches_port, Protocol, ProtocolView, SocketInfo, SocketInfoView, TcpState,
    TcpStateView,
};

verus! {

/// One socket row of lsof's table.
#[derive(Debug)]
pub struct LsofRow {
    pub pid: u32,
    pub user: String,
    pub command: String,
    pub socket: SocketInfo,
}

pub struct LsofRowView {
    pub pid: u32,
    pub user: Seq<char>,
    pub command: Seq<char>,
    pub socket: SocketInfoView,
}

impl View for LsofRow {
    type V = LsofRowView;

    open spec fn view(&self) -> LsofRowView {
        LsofRowView { pid: self.pid, user: self.user@, command: self.command@, socket: self.socket@ }
    }
}

pub open spec fn row_views(v: Seq<LsofRow>) -> Seq<LsofRowView> {
    v.map_values(|r: LsofRow| r@)
}

/// A port number as lsof's address columns write it; anything else counts
/// as port 0.
pub open spec fn port_of(s: Seq<char>) -> u16 {
    match parse_unsigned(s, 10, 0xffff) {
        Some(p) => p as u16,
        None => 0,
    }
}

/// Host and port of `host:port`, `*:port` or `[::1]:port`.
pub open spec fn spec_split_addr(a: Seq<char>) -> (Seq<char>, u16) {
    if a.len() > 0 && a[0] == '[' && find(a, seq![']']) is Some {
        let e = find(a, seq![']'])->0;
        let port = if e + 2 <= a.len() && (a[e + 1] as u32) < 0x80 {
            port_of(a.skip(e + 2))
        } else {
            0
        };
        (a.take(e + 1), port)
    } else if rfind(a, ':') is Some {
        let c = rfind(a, ':')->0;
        (a.take(c), port_of(a.skip(c + 1)))
    } else {
        (a, 0)
    }
}

/// The parts of lsof's NAME column `local[->remote] [(STATE)]`: local
/// address, remote address and state.
pub open spec fn spec_parse_name(name: Seq<char>) -> (
    Seq<char>,
    Option<Seq<char>>,
    Option<TcpStateView>,
) {
    let o = rfind(name, '(');
    let c = rfind(name, ')');
    let has_state = o is Some && c is Some && o->0 < c->0;
    let addr_part = if has_state {
        trimmed(name.take(o->0))
    } else {
        name
    };
    let state = if has_state {
        Some(spec_from_lsof(name.subrange(o->0 + 1, c->0)))
    } else {
        None
    };
    match find(addr_part, seq!['-', '>']) {
        Some(a) => (trimmed(addr_part.take(a)), Some(trimmed(addr_part.skip(a + 2))), state),
        None => (trimmed(addr_part), None, state),
    }
}

/// The protocol of a row, from its NODE and TYPE columns.
pub open spec fn lsof_protocol(node: Seq<char>, ip_type: Seq<char>) -> ProtocolView {
    if node == "TCP"@ {
        if ip_type.contains('6') {
            ProtocolView::Tcp6
        } else {
            ProtocolView::Tcp
        }
    } else if node == "UDP"@ {
        if ip_type.contains('6') {
            ProtocolView::Udp6
        } else {
            ProtocolView::Udp
        }
    } else {
        ProtocolView::Unknown(node)
    }
}

/// The NAME column of a row: the line from byte `off` on (where the
/// header's NAME starts), trimmed, or the words from the ninth on when the
/// line is no longer than that.
pub open spec fn lsof_name(line: Seq<char>, off: nat) -> Seq<char> {
    if off < utf8_len(line) {
        trimmed(line.skip(char_at_byte(line, off as int)->0))
    } else {
        join(words(line).skip(8), seq![' '])
    }
}

/// Whether a row with local port `lp` and remote address `remote` passes the
/// port filter: one of its two ports must be the wanted one.
pub open spec fn port_matches(lp: u16, remote: Option<Seq<char>>, filter: Option<u16>) -> bool {
    match filter {
        None => true,
        Some(fp) => lp == fp || (remote is Some && spec_split_addr(remote->0).1 == fp),
    }
}

/// A line of lsof's table that is neither short (fewer than nine words) nor
/// without a numeric PID.
pub open spec fn is_data_line(line: Seq<char>) -> bool {
    words(line).len() >= 9 && parse_unsigned(words(line)[1], 10, 0xffff_ffff) is Some
}

/// The row a line of lsof's table holds, if it holds one that passes the
/// port filter.
pub open spec fn lsof_row(line: Seq<char>, off: nat, filter: Option<u16>) -> Option<LsofRowView> {
    let parts = words(line);
    if !is_data_line(line) {
        None
    } else {
        let pn = spec_parse_name(lsof_name(line, off));
        let local = spec_split_addr(pn.0);
        if !port_matches(local.1, pn.1, filter) {
            None
        } else {
            Some(
                LsofRowView {
                    pid: parse_unsigned(parts[1], 10, 0xffff_ffff)->0 as u32,
                    user: parts[2],
                    command: parts[0],
                    socket: SocketInfoView {
                        protocol: lsof_protocol(parts[7], parts[4]),
                        local_addr: local.0,
                        local_port: local.1,
                        remote_addr: match pn.1 {
                            Some(r) => Some(spec_split_addr(r).0),
                            None => None,
                        },
                        remote_port: match pn.1 {
                            Some(r) => Some(spec_split_addr(r).1),
                            None => None,
                        },
                        state: pn.2,
                        fd: parts[3],
                    },
                },
            )
        }
    }
}

/// The rows of the lines of the table body.
pub open spec fn rows_of(ls: Seq<Seq<char>>, off: nat, filter: Option<u16>) -> Seq<LsofRowView>
    decreases ls.len(),
{
    if ls.len() == 0 {
        seq![]
    } else {
        let prev = rows_of(ls.drop_last(), off, filter);
        match lsof_row(ls.last(), off, filter) {
            Some(r) => prev.push(r),
            None => prev,
        }
    }
}

/// The byte offset at which the header's NAME column starts (0 without one).
pub open spec fn header_offset(h: Seq<char>) -> nat {
    match find(h, "NAME"@) {
        Some(k) => utf8_len(h.take(k)),
        None => 0,
    }
}

/// The rows of lsof's output: the first line is the header, the others are
/// read with `lsof_row`.
pub open spec fn spec_parse_lsof(out: Seq<char>, filter: Option<u16>) -> Seq<LsofRowView> {
    let ls = text_lines(out);
    if ls.len() == 0 {
        seq![]
    } else {
        rows_of(ls.drop_first(), header_offset(ls[0]), filter)
    }
}

/// A data line that is long enough to be cut at the NAME offset has a
/// character starting there; the table is read by byte offset and would
/// otherwise be cut inside a character.
pub open spec fn cuttable(line: Seq<char>, off: nat) -> bool {
    is_data_line(line) && off < utf8_len(line) ==> char_at_byte(line, off as int) is Some
}

/// Every line of the table body can be cut at the header's NAME offset.
pub open spec fn lsof_output_ok(out: Seq<char>) -> bool {
    let ls = text_lines(out);
    ls.len() > 0 ==> forall|i: int| 1 <= i < ls.len() ==> cuttable(#[trigger] ls[i], header_offset(ls[0]))
}

/// Splits `host:port`, `*:port`, or `[::1]:port` (characters).
pub fn split_addr_chars(a: &Vec<char>) -> (r: (Vec<char>, u16))
    ensures
        r.0@ == spec_split_addr(a@).0,
        r.1 == spec_split_addr(a@).1,
{
    let n = a.len();
    if n > 0 && a[0] == '[' {
        let mut close: Vec<char> = Vec::new();
        close.push(']');
        assert(close@ =~= seq![']']);
        match find_chars(a, &close) {
            Some(e) => {
                let host = slice_chars(a, 0, e + 1);
                let port = if e + 1 < n && (a[e + 1] as u32) < 0x80 {
                    let rest = slice_chars(a, e + 2, n);
                    assert(rest@ =~= a@.skip(e + 2));
                    port_number(&rest)
                } else {
                    0
                };
                assert(host@ =~= a@.take(e + 1));
                return (host, port);
            },
            None => {},
        }
    }
    match rfind_char(a, ':') {
        Some(c) => {
            let host = slice_chars(a, 0, c);
            let rest = slice_chars(a, c + 1, n);
            assert(host@ =~= a@.take(c as int));
            assert(rest@ =~= a@.skip(c + 1));
            (host, port_number(&rest))
        },
        None => (slice_chars(a, 0, n), 0),
    }
}

/// A port number, or 0 where the text is not one.
pub fn port_number(s: &Vec<char>) -> (p: u16)
    ensures
        p == port_of(s@),
{
    match parse_uint(s, 10, 0xffff) {
        Some(v) => v as u16,
        None => 0,
    }
}

/// Splits `host:port`, `*:port`, or `[::1]:port`
pub fn split_addr(addr: &str) -> (r: (String, u16))
    ensures
        r.0@ == spec_split_addr(addr@).0,
        r.1 == spec_split_addr(addr@).1,
{
    let a = chars_of(addr);
    let (host, port) = split_addr_chars(&a);
    (string_of(&host), port)
}

/// Parses the lsof NAME field (characters).
pub fn parse_name_chars(name: &Vec<char>) -> (r: (Vec<char>, Option<Vec<char>>, Option<TcpState>))
    ensures
        r.0@ == spec_parse_name(name@).0,
        match r.1 {
            Some(v) => spec_parse_name(name@).1 == Some(v@),
            None => spec_parse_name(name@).1 is None,
        },
        opt_state(r.2) == spec_parse_name(name@).2,
{
    let o = rfind_char(name, '(');
    let c = rfind_char(name, ')');
    let (addr_part, state) = match (o, c) {
        (Some(start), Some(end)) => {
            if start < end {
                let inner = slice_chars(name, start + 1, end);
                let st = TcpState::from_lsof(string_of(&inner).as_str());
                assert(name@.subrange(0, start as int) =~= name@.take(start as int));
                (trim(&slice_chars(name, 0, start)), Some(st))
            } else {
                (slice_chars(name, 0, name.len()), None)
            }
        },
        _ => (slice_chars(name, 0, name.len()), None),
    };
    assert(name@.subrange(0, name@.len() as int) =~= name@);
    let mut arrow: Vec<char> = Vec::new();
    arrow.push('-');
    arrow.push('>');
    assert(arrow@ =~= seq!['-', '>']);
    match find_chars(&addr_part, &arrow) {
        Some(a) => {
            assert(arrow@.len() == 2);
            let n = addr_part.len();
            assert(a + 2 <= n);
            let after = a + 2;
            let local = trim(&slice_chars(&addr_part, 0, a));
            let remote = trim(&slice_chars(&addr_part, after, addr_part.len()));
            assert(addr_part@.subrange(0, a as int) =~= addr_part@.take(a as int));
            assert(addr_part@.subrange(a + 2, addr_part@.len() as int) =~= addr_part@.skip(a + 2));
            (local, Some(remote), state)
        },
        None => (trim(&addr_part), None, state),
    }
}

/// Parses the lsof NAME field: `local[->remote] [(STATE)]`
pub fn parse_name(name: &str) -> (r: (String, Option<String>, Option<TcpState>))
    ensures
        r.0@ == spec_parse_name(name@).0,
        opt_text(r.1) == spec_parse_name(name@).1,
        opt_state(r.2) == spec_parse_name(name@).2,
{
    let v = chars_of(name);
    let (local, remote, state) = parse_name_chars(&v);
    let remote_s = match remote {
        Some(r) => Some(string_of(&r)),
        None => None,
    };
    (string_of(&local), remote_s, state)
}

/// The words of a line from the `k`-th on.
fn words_from_index(parts: &Vec<Vec<char>>, k: usize) -> (r: Vec<Vec<char>>)
    requires
        k <= parts@.len(),
    ensures
        seqs(r@) == seqs(parts@).skip(k as int),
{
    let mut r: Vec<Vec<char>> = Vec::new();
    let mut i = k;
    while i < parts.len()
        invariant
            k <= i <= parts@.len(),
            seqs(r@) == seqs(parts@).subrange(k as int, i as int),
        decreases parts@.len() - i,
    {
        let ghost before = seqs(r@);
        let w = slice_chars(&parts[i], 0, parts[i].len());
        assert(w@ =~= parts@[i as int]@);
        r.push(w);
        assert(seqs(r@) =~= before.push(w@));
        assert(seqs(parts@).subrange(k as int, i + 1) =~= seqs(parts@).subrange(
            k as int,
            i as int,
        ).push(seqs(parts@)[i as int]));
        i = i + 1;
    }
    assert(seqs(parts@).subrange(k as int, parts@.len() as int) =~= seqs(parts@).skip(k as int));
    r
}

/// The protocol of a row, from its NODE and TYPE columns.
fn row_protocol(node: &Vec<char>, ip_type: &Vec<char>) -> (p: Protocol)
    ensures
        p@ == lsof_protocol(node@, ip_type@),
{
    if is_literal(node, "TCP") {
        if has_char(ip_type, '6') {
            Protocol::Tcp6
        } else {
            Protocol::Tcp
        }
    } else if is_literal(node, "UDP") {
        if has_char(ip_type, '6') {
            Protocol::Udp6
        } else {
            Protocol::Udp
        }
    } else {
        Protocol::Unknown(string_of(node))
    }
}

/// Reads one line of the table body.
pub fn parse_lsof_line(line: &Vec<char>, off: u128, port_filter: Option<u16>) -> (r: Option<LsofRow>)
    requires
        cuttable(line@, off as nat),
    ensures
        match r {
            Some(row) => lsof_row(line@, off as nat, port_filter) == Some(row@),
            None => lsof_row(line@, off as nat, port_filter) is None,
        },
{
    let parts = split_words(line);
    if parts.len() < 9 {
        return None;
    }
    assert(seqs(parts@)[1] == parts@[1]@);
    let pid = match parse_uint(&parts[1], 10, 0xffff_ffff) {
        Some(p) => p as u32,
        None => {
            return None;
        },
    };
    let name: Vec<char> = if longer_than(line, off) {
        let j = char_index_at_byte(line, off).unwrap();
        let tail = slice_chars(line, j, line.len());
        assert(tail@ =~= line@.skip(j as int));
        trim(&tail)
    } else {
        let rest = words_from_index(&parts, 8);
        join_chars(&rest, ' ')
    };
    assert(name@ == lsof_name(line@, off as nat));
    let (local, remote, state) = parse_name_chars(&name);
    let (local_addr, local_port) = split_addr_chars(&local);
    match port_filter {
        Some(fp) => {
            if local_port != fp {
                let ok = match &remote {
                    Some(r) => split_addr_chars(r).1 == fp,
                    None => false,
                };
                if !ok {
                    return None;
                }
            }
        },
        None => {},
    }
    let (remote_addr, remote_port) = match remote {
        Some(r) => {
            let (ra, rp) = split_addr_chars(&r);
            (Some(string_of(&ra)), Some(rp))
        },
        None => (None, None),
    };
    assert(seqs(parts@)[0] == parts@[0]@);
    assert(seqs(parts@)[2] == parts@[2]@);
    assert(seqs(parts@)[3] == parts@[3]@);
    assert(seqs(parts@)[4] == parts@[4]@);
    assert(seqs(parts@)[7] == parts@[7]@);
    let protocol = row_protocol(&parts[7], &parts[4]);
    let row = LsofRow {
        pid,
        user: string_of(&parts[2]),
        command: string_of(&parts[0]),
        socket: SocketInfo {
            protocol,
            local_addr: string_of(&local_addr),
            local_port,
            remote_addr,
            remote_port,
            state,
            fd: string_of(&parts[3]),
        },
    };
    Some(row)
}

/// Parse lsof output. When `port_filter` is Some, only rows on that port
/// are returned; when None, all rows are returned.
pub fn parse_lsof(output: &str, port_filter: Option<u16>) -> (rows: Vec<LsofRow>)
    requires
        lsof_output_ok(output@),
    ensures
        row_views(rows@) == spec_parse_lsof(output@, port_filter),
{
    let all = chars_of(output);
    let ls = split_lines(&all);
    let mut rows: Vec<LsofRow> = Vec::new();
    if ls.len() == 0 {
        assert(row_views(rows@) =~= Seq::<LsofRowView>::empty());
        return rows;
    }
    let ghost lines = seqs(ls@);
    assert(lines[0] == ls@[0]@);
    let pattern = chars_of("NAME");
    let off: u128 = match find_chars(&ls[0], &pattern) {
        Some(k) => {
            let head = slice_chars(&ls[0], 0, k);
            assert(head@ =~= ls@[0]@.take(k as int));
            byte_len(&head)
        },
        None => 0,
    };
    assert(off == header_offset(lines[0]));
    let mut i: usize = 1;
    assert(lines.subrange(1, 1) =~= Seq::<Seq<char>>::empty());
    assert(row_views(rows@) =~= Seq::<LsofRowView>::empty());
    while i < ls.len()
        invariant
            lines == seqs(ls@),
            lines == text_lines(output@),
            lsof_output_ok(output@),
            lines.len() > 0,
            off == header_offset(lines[0]),
            1 <= i <= ls@.len(),
            row_views(rows@) == rows_of(lines.subrange(1, i as int), off as nat, port_filter),
        decreases ls@.len() - i,
    {
        assert(lines[i as int] == ls@[i as int]@);
        assert(cuttable(text_lines(output@)[i as int], header_offset(text_lines(output@)[0])));
        let ghost before = row_views(rows@);
        assert(lines.subrange(1, i + 1).drop_last() =~= lines.subrange(1, i as int));
        match parse_lsof_line(&ls[i], off, port_filter) {
            Some(row) => {
                rows.push(row);
                assert(row_views(rows@) =~= before.push(row@));
            },
            None => {},
        }
        i = i + 1;
    }
    assert(lines.subrange(1, lines.len() as int) =~= lines.drop_first());
    rows
}

/// Whether every line of the table body can be cut at the header's NAME
/// offset (see `lsof_output_ok`).
pub fn check_lsof_output(output: &str) -> (r: bool)
    ensures
        r == lsof_output_ok(output@),
{
    let all = chars_of(output);
    let ls = split_lines(&all);
    if ls.len() == 0 {
        return true;
    }
    let ghost lines = seqs(ls@);
    assert(lines[0] == ls@[0]@);
    let pattern = chars_of("NAME");
    let off: u128 = match find_chars(&ls[0], &pattern) {
        Some(k) => {
            let head = slice_chars(&ls[0], 0, k);
            assert(head@ =~= ls@[0]@.take(k as int));
            byte_len(&head)
        },
        None => 0,
    };
    let mut i: usize = 1;
    while i < ls.len()
        invariant
            lines == seqs(ls@),
            lines == text_lines(output@),
            lines.len() > 0,
            off == header_offset(lines[0]),
            1 <= i <= ls@.len(),
            forall|t: int| 1 <= t < i ==> cuttable(#[trigger] lines[t], off as nat),
        decreases ls@.len() - i,
    {
        assert(lines[i as int] == ls@[i as int]@);
        let line = &ls[i];
        let parts = split_words(line);
        if parts.len() >= 9 {
            assert(seqs(parts@)[1] == parts@[1]@);
            if parse_uint(&parts[1], 10, 0xffff_ffff).is_some() && longer_than(line, off) {
                if char_index_at_byte(line, off).is_none() {
                    assert(!cuttable(lines[i as int], off as nat));
                    return false;
                }
            }
        }
        i = i + 1;
    }
    true
}

proof fn lemma_rows_of_touch_port(ls: Seq<Seq<char>>, off: nat, p: u16)
    ensures
        forall|i: int| 0 <= i < rows_of(ls, off, Some(p)).len() ==> touches_port(
            #[trigger] rows_of(ls, off, Some(p))[i].socket,
            p,
        ),
    decreases ls.len(),
{
    if ls.len() > 0 {
        lemma_rows_of_touch_port(ls.drop_last(), off, p);
    }
}

/// A row lies on port `p` when its local or its remote port is `p`.
pub open spec fn row_on_port(r: LsofRowView, p: u16) -> bool {
    r.socket.local_port == p || r.socket.remote_port == Some(p)
}

proof fn lemma_rows_of_port_filter(ls: Seq<Seq<char>>, off: nat, p: u16)
    ensures
        rows_of(ls, off, Some(p)) == rows_of(ls, off, None).filter(|r: LsofRowView| row_on_port(r, p)),
    decreases ls.len(),
{
    reveal(Seq::filter);
    let g = |r: LsofRowView| row_on_port(r, p);
    if ls.len() > 0 {
        lemma_rows_of_port_filter(ls.drop_last(), off, p);
        let prev = rows_of(ls.drop_last(), off, None);
        match lsof_row(ls.last(), off, None) {
            Some(r) => {
                prev.lemma_filter_push(r, g);
            },
            None => {},
        }
    }
}

/// A port filter keeps, of the rows lsof's table gives without one, exactly
/// those on the port, in the same order.
pub proof fn lemma_parse_lsof_port_filter(out: Seq<char>, p: u16)
    ensures
        spec_parse_lsof(out, Some(p)) == spec_parse_lsof(out, None).filter(
            |r: LsofRowView| row_on_port(r, p),
        ),
{
    reveal(Seq::filter);
    let ls = text_lines(out);
    if ls.len() > 0 {
        lemma_rows_of_port_filter(ls.drop_first(), header_offset(ls[0]), p);
    }
}

/// With a port filter, every row lsof's table gives has the port on one of
/// its ends.
pub proof fn lemma_parse_lsof_touches_port(out: Seq<char>, p: u16)
    ensures
        forall|i: int| 0 <= i < spec_parse_lsof(out, Some(p)).len() ==> touches_port(
            #[trigger] spec_parse_lsof(out, Some(p))[i].socket,
            p,
        ),
{
    let ls = text_lines(out);
    if ls.len() > 0 {
        lemma_rows_of_touch_port(ls.drop_first(), header_offset(ls[0]), p);
    }
}

/// Whether `s` has `->` in it.
pub open spec fn has_arrow(s: Seq<char>) -> bool {
    exists|i: int| 0 <= i < s.len() - 1 && #[trigger] s[i] == '-' && s[i + 1] == '>'
}

/// An address as lsof writes it in the NAME column: no parentheses, no
/// `->`, and no whitespace at either end.
pub open spec fn plain_address(s: Seq<char>) -> bool {
    &&& !s.contains('(')
    &&& !s.contains(')')
    &&& !has_arrow(s)
    &&& (s.len() == 0 || (!is_space(s[0]) && !is_space(s.last())))
}

/// In `base (w)`, with `w` free of parentheses, the state's parentheses are
/// the last ones.
proof fn lemma_state_suffix(base: Seq<char>, w: Seq<char>)
    requires
        !w.contains('('),
        !w.contains(')'),
    ensures
        rfind(base + seq![' ', '('] + w + seq![')'], '(') == Some(base.len() as int + 1),
        rfind(base + seq![' ', '('] + w + seq![')'], ')') == Some(base.len() as int + 2 + w.len() as int),
        (base + seq![' ', '('] + w + seq![')']).take(base.len() as int + 1) == base + seq![' '],
        (base + seq![' ', '('] + w + seq![')']).subrange(base.len() as int + 2, base.len() as int + 2 + w.len() as int)
            == w,
{
    let head = base + seq![' ', '('];
    let name = head + w + seq![')'];
    assert(name.last() == ')');
    assert(name.drop_last() =~= head + w);
    lemma_rfind_skips_suffix(head, w, '(');
    assert(head.last() == '(');
    assert(name.take(base.len() as int + 1) =~= base + seq![' ']);
    assert(name.subrange(base.len() as int + 2, base.len() as int + 2 + w.len() as int) =~= w);
}

/// `->` occurs in a plain address nowhere.
proof fn lemma_no_arrow(l: Seq<char>)
    requires
        plain_address(l),
    ensures
        find(l, seq!['-', '>']) is None,
{
    lemma_find_from_first(l, seq!['-', '>'], 0);
    if find(l, seq!['-', '>']) is Some {
        let j = find(l, seq!['-', '>'])->0;
        assert(l.subrange(j, j + 2)[0] == '-' && l.subrange(j, j + 2)[1] == '>');
        assert(l[j] == '-' && l[j + 1] == '>');
    }
}

/// `->` in `l->r` is found right after `l`.
proof fn lemma_arrow_after_local(l: Seq<char>, r: Seq<char>)
    requires
        !has_arrow(l),
    ensures
        find(l + seq!['-', '>'] + r, seq!['-', '>']) == Some(l.len() as int),
{
    let p = seq!['-', '>'];
    let a = l + p + r;
    let k = l.len() as int;
    lemma_find_from_first(a, p, 0);
    assert(a.subrange(k, k + 2) =~= p);
    if find(a, p) is None {
        assert(a.subrange(k, k + 2) != p);
    } else {
        let j = find(a, p)->0;
        if j > k {
            assert(a.subrange(k, k + 2) != p);
        } else if j < k {
            assert(a[j] == '-' && a[j + 1] == '>') by {
                assert(a.subrange(j, j + 2)[0] == a[j]);
                assert(a.subrange(j, j + 2)[1] == a[j + 1]);
            }
            if j + 1 < k {
                assert(l[j] == a[j] && l[j + 1] == a[j + 1]);
                assert(l[j] == '-' && l[j + 1] == '>');
                assert(has_arrow(l));
            } else {
                assert(a[k] == '-');
            }
        }
    }
}

/// Names written in lsof's NAME format read back: `L->R (W)` gives `L`,
/// `R` and the state of `W`; `L (W)` gives `L`, no remote end and the state
/// of `W`; `L` alone gives `L` alone (for plain addresses `L`, `R` and a
/// state text `W` without parentheses).
pub proof fn lemma_parse_name_reads_written_names(l: Seq<char>, r: Seq<char>, w: Seq<char>)
    requires
        plain_address(l),
        plain_address(r),
        !w.contains('('),
        !w.contains(')'),
    ensures
        spec_parse_name(l + seq!['-', '>'] + r + seq![' ', '('] + w + seq![')']) == (
            l,
            Some(r),
            Some(spec_from_lsof(w)),
        ),
        spec_parse_name(l + seq![' ', '('] + w + seq![')']) == (l, None::<Seq<char>>, Some(
            spec_from_lsof(w),
        )),
        spec_parse_name(l) == (l, None::<Seq<char>>, None::<TcpStateView>),
{
    lemma_trimmed_plain(l);
    lemma_trimmed_plain(r);
    lemma_no_arrow(l);
    // L->R (W)
    let base = l + seq!['-', '>'] + r;
    assert(base.len() == 0 || (!is_space(base[0]) && !is_space(base.last()))) by {
        if l.len() > 0 {
            assert(base[0] == l[0]);
        }
        if r.len() > 0 {
            assert(base.last() == r.last());
        }
    }
    lemma_trimmed_plain(base);
    lemma_state_suffix(base, w);
    lemma_arrow_after_local(l, r);
    assert(base.take(l.len() as int) =~= l);
    assert(base.skip(l.len() as int + 2) =~= r);
    // L (W)
    lemma_state_suffix(l, w);
    // L
    lemma_rfind_skips_suffix(seq![], l, '(');
    lemma_rfind_skips_suffix(seq![], l, ')');
    assert(Seq::<char>::empty() + l =~= l);
}

/// The protocol of an lsof row is named by its NODE column (`TCP` or
/// `UDP`), with `6` added when its TYPE column says IPv6 (has a `6`); it is
/// an IPv6 protocol exactly then, and a UDP one exactly for `UDP`. Any other
/// NODE is kept as the protocol's name.
pub proof fn lemma_lsof_protocol_names(node: Seq<char>, ip_type: Seq<char>)
    ensures
        (node == "TCP"@ || node == "UDP"@) ==> protocol_text(lsof_protocol(node, ip_type)) == (if ip_type.contains('6') {
            node + seq!['6']
        } else {
            node
        }),
        (node == "TCP"@ || node == "UDP"@) ==> ((lsof_protocol(node, ip_type) is Tcp6 || lsof_protocol(node, ip_type) is Udp6)
            <==> ip_type.contains('6')),
        (node == "TCP"@ || node == "UDP"@) ==> ((lsof_protocol(node, ip_type) is Udp || lsof_protocol(node, ip_type) is Udp6)
            <==> node == "UDP"@),
        !(node == "TCP"@ || node == "UDP"@) ==> lsof_protocol(node, ip_type) == ProtocolView::Unknown(node),
{
    reveal_strlit("TCP");
    reveal_strlit("UDP");
    reveal_strlit("TCP6");
    reveal_strlit("UDP6");
    assert("TCP"@ + seq!['6'] =~= "TCP6"@);
    assert("UDP"@ + seq!['6'] =~= "UDP6"@);
    assert("TCP"@[0] != "UDP"@[0]);
}

} // verus!
