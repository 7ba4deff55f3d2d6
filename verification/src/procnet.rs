//! The `/proc` backend: socket tables of `/proc/net/{tcp,tcp6,udp,udp6}`
//! and the `socket:[inode]` links under `/proc/<pid>/fd`.
use vstd::prelude::*;
use crate::text::{
    byte_len, char_at_byte, char_index_at_byte, chars_of, decimal, hexadecimal, join, parse_uint,
    parse_unsigned, pieces, push_decimal, push_hex, seqs, slice_chars, split_lines, split_on,
    split_words, string_of, text_lines, utf8_len, words,
};
use crate::types::{
    hex_state, touches_port, Protocol, ProtocolView, SocketInfo, SocketInfoView, TcpState,
};

verus! {

/// A parsed number, or 0 where the text is not one.
pub open spec fn or_zero(o: Option<u64>) -> nat {
    match o {
        Some(v) => v as nat,
        None => 0,
    }
}

/// The four bytes of a 32-bit word in the machine's byte order (what
/// `u32::to_ne_bytes` gives): least significant first on a little-endian
/// machine.
pub open spec fn word_bytes(n: nat, little_endian: bool) -> Seq<nat> {
    let b0 = n % 256;
    let b1 = (n / 256) % 256;
    let b2 = (n / 65536) % 256;
    let b3 = (n / 16777216) % 256;
    if little_endian {
        seq![b0, b1, b2, b3]
    } else {
        seq![b3, b2, b1, b0]
    }
}

/// Dotted decimal text of four octets.
pub open spec fn ipv4_text(o: Seq<nat>) -> Seq<char> {
    decimal(o[0]) + "."@ + decimal(o[1]) + "."@ + decimal(o[2]) + "."@ + decimal(o[3])
}

/// The address and port of a `/proc/net/tcp` column `AAAAAAAA:PPPP`: the
/// address word's bytes in machine order as dotted decimal; `?` and port 0
/// when the column is not two parts; 0 for a part that is not hexadecimal.
pub open spec fn spec_hex_addr_v4(raw: Seq<char>, little_endian: bool) -> (Seq<char>, u16) {
    let parts = pieces(raw, ':');
    if parts.len() != 2 {
        ("?"@, 0)
    } else {
        let ip = or_zero(parse_unsigned(parts[0], 16, 0xffff_ffff));
        let port = or_zero(parse_unsigned(parts[1], 16, 0xffff));
        (ipv4_text(word_bytes(ip, little_endian)), port as u16)
    }
}

/// Whether the characters of `s` from `j` on are eight ASCII characters.
pub open spec fn ascii_block(s: Seq<char>, j: int) -> bool {
    0 <= j && j + 8 <= s.len() && forall|t: int| j <= t < j + 8 ==> (#[trigger] s[t] as u32) < 0x80
}

/// Word `i` of the 32 hexadecimal bytes of a `/proc/net/tcp6` address: the
/// eight bytes from byte `8 i` read as hexadecimal when they are ASCII, 0
/// otherwise.
pub open spec fn hex_word(hex: Seq<char>, i: int) -> nat {
    match char_at_byte(hex, 8 * i) {
        Some(j) => if ascii_block(hex, j) {
            or_zero(parse_unsigned(hex.subrange(j, j + 8), 16, 0xffff_ffff))
        } else {
            0
        },
        None => 0,
    }
}

/// The sixteen address bytes: the four words, each in machine byte order.
pub open spec fn v6_bytes(hex: Seq<char>, little_endian: bool) -> Seq<nat> {
    word_bytes(hex_word(hex, 0), little_endian) + word_bytes(hex_word(hex, 1), little_endian)
        + word_bytes(hex_word(hex, 2), little_endian) + word_bytes(hex_word(hex, 3), little_endian)
}

/// The eight 16-bit groups of sixteen bytes, most significant byte first.
pub open spec fn groups(b: Seq<nat>) -> Seq<nat> {
    Seq::new(8, |k: int| b[2 * k] * 256 + b[2 * k + 1])
}

/// Lower-case hexadecimal groups joined by `:`.
pub open spec fn group_text(g: Seq<nat>) -> Seq<char> {
    join(g.map_values(|x: nat| hexadecimal(x)), seq![':'])
}

/// The scan for the first longest run of zero groups among the first `i`:
/// (start of the longest run, its length, start of the run ending at `i`,
/// its length).
pub open spec fn zero_scan(g: Seq<nat>, i: int) -> (int, int, int, int)
    decreases i,
{
    if i <= 0 {
        (0, 0, 0, 0)
    } else {
        let p = zero_scan(g, i - 1);
        if g[i - 1] == 0 {
            let cs = if p.3 == 0 {
                i - 1
            } else {
                p.2
            };
            let cl = p.3 + 1;
            if cl > p.1 {
                (cs, cl, cs, cl)
            } else {
                (p.0, p.1, cs, cl)
            }
        } else {
            (p.0, p.1, 0, 0)
        }
    }
}

/// The text of an IPv6 address (what `Ipv6Addr`'s `Display` writes): an
/// IPv4-mapped address as `::ffff:` and dotted decimal; otherwise the groups
/// in lower-case hexadecimal, the first longest run of two or more zero
/// groups written as `::`.
pub open spec fn ipv6_text(g: Seq<nat>) -> Seq<char> {
    if g[0] == 0 && g[1] == 0 && g[2] == 0 && g[3] == 0 && g[4] == 0 && g[5] == 0xffff {
        "::ffff:"@ + ipv4_text(seq![g[6] / 256, g[6] % 256, g[7] / 256, g[7] % 256])
    } else {
        let z = zero_scan(g, 8);
        if z.1 > 1 {
            group_text(g.take(z.0)) + "::"@ + group_text(g.skip(z.0 + z.1))
        } else {
            group_text(g)
        }
    }
}

/// The address and port of a `/proc/net/tcp6` column (32 hexadecimal digits,
/// `:`, port): `?` and port 0 when it is not two parts, `?` with the port when
/// the address part is not 32 bytes long.
pub open spec fn spec_hex_addr_v6(raw: Seq<char>, little_endian: bool) -> (Seq<char>, u16) {
    let parts = pieces(raw, ':');
    if parts.len() != 2 {
        ("?"@, 0)
    } else {
        let port = or_zero(parse_unsigned(parts[1], 16, 0xffff)) as u16;
        if utf8_len(parts[0]) != 32 {
            ("?"@, port)
        } else {
            (ipv6_text(groups(v6_bytes(parts[0], little_endian))), port)
        }
    }
}

fn word_bytes_exec(n: u64, little_endian: bool) -> (r: Vec<u64>)
    requires
        n <= 0xffff_ffff,
    ensures
        r@.map_values(|x: u64| x as nat) == word_bytes(n as nat, little_endian),
        r@.len() == 4,
        forall|k: int| 0 <= k < 4 ==> r@[k] < 256,
{
    let b0 = n % 256;
    let b1 = (n / 256) % 256;
    let b2 = (n / 65536) % 256;
    let b3 = (n / 16777216) % 256;
    let mut r: Vec<u64> = Vec::new();
    if little_endian {
        r.push(b0);
        r.push(b1);
        r.push(b2);
        r.push(b3);
    } else {
        r.push(b3);
        r.push(b2);
        r.push(b1);
        r.push(b0);
    }
    assert(r@.map_values(|x: u64| x as nat) =~= word_bytes(n as nat, little_endian));
    r
}

fn push_ipv4(out: &mut String, o: &Vec<u64>)
    requires
        o@.len() == 4,
    ensures
        final(out)@ == old(out)@ + ipv4_text(o@.map_values(|x: u64| x as nat)),
{
    push_decimal(out, o[0]);
    out.append(".");
    push_decimal(out, o[1]);
    out.append(".");
    push_decimal(out, o[2]);
    out.append(".");
    push_decimal(out, o[3]);
    assert(out@ =~= old(out)@ + ipv4_text(o@.map_values(|x: u64| x as nat)));
}

fn unknown_address() -> (r: String)
    ensures
        r@ == "?"@,
{
    String::from_str("?")
}

/// Parses a `/proc/net/tcp` address column; `little_endian` is the
/// machine's byte order.
pub fn parse_hex_addr_v4(raw: &str, little_endian: bool) -> (r: (String, u16))
    ensures
        r.0@ == spec_hex_addr_v4(raw@, little_endian).0,
        r.1 == spec_hex_addr_v4(raw@, little_endian).1,
{
    let v = chars_of(raw);
    let parts = split_on(&v, ':');
    if parts.len() != 2 {
        return (unknown_address(), 0);
    }
    assert(seqs(parts@)[0] == parts@[0]@ && seqs(parts@)[1] == parts@[1]@);
    let ip = match parse_uint(&parts[0], 16, 0xffff_ffff) {
        Some(x) => x,
        None => 0,
    };
    let port = match parse_uint(&parts[1], 16, 0xffff) {
        Some(x) => x as u16,
        None => 0,
    };
    let o = word_bytes_exec(ip, little_endian);
    let mut s = String::new();
    push_ipv4(&mut s, &o);
    assert(s@ =~= ipv4_text(word_bytes(ip as nat, little_endian)));
    (s, port)
}

pub open spec fn nats(v: Seq<u64>) -> Seq<nat> {
    v.map_values(|x: u64| x as nat)
}

/// Word `i` of the address part of a `/proc/net/tcp6` column.
fn hex_word_exec(hex: &Vec<char>, i: u64) -> (w: u64)
    requires
        i < 4,
    ensures
        w == hex_word(hex@, i as int),
        w <= 0xffff_ffff,
{
    match char_index_at_byte(hex, (8 * i) as u128) {
        Some(j) => {
            if j <= hex.len() && hex.len() - j >= 8 {
                let mut t = j;
                let mut ascii = true;
                let end = j + 8;
                while t < end
                    invariant
                        end == j + 8,
                        end <= hex@.len(),
                        j <= t <= end,
                        ascii == (forall|u: int| j <= u < t ==> (#[trigger] hex@[u] as u32) < 0x80),
                    decreases end - t,
                {
                    if (hex[t] as u32) >= 0x80 {
                        ascii = false;
                    }
                    t = t + 1;
                }
                if ascii {
                    let block = slice_chars(hex, j, end);
                    match parse_uint(&block, 16, 0xffff_ffff) {
                        Some(x) => x,
                        None => 0,
                    }
                } else {
                    0
                }
            } else {
                0
            }
        },
        None => 0,
    }
}

/// Lower-case hexadecimal groups `g[a..b]` joined by `:`.
fn push_groups(out: &mut String, g: &Vec<u64>, a: usize, b: usize)
    requires
        a <= b <= g@.len(),
    ensures
        final(out)@ == old(out)@ + group_text(nats(g@).subrange(a as int, b as int)),
{
    let ghost gs = nats(g@).subrange(a as int, b as int);
    let ghost hs = gs.map_values(|x: nat| hexadecimal(x));
    let mut i = a;
    while i < b
        invariant
            a <= i <= b <= g@.len(),
            gs == nats(g@).subrange(a as int, b as int),
            hs == gs.map_values(|x: nat| hexadecimal(x)),
            out@ == old(out)@ + join(hs.take(i - a), seq![':']),
        decreases b - i,
    {
        let ghost before = out@;
        assert(hs.take(i + 1 - a).drop_last() =~= hs.take(i - a));
        assert(hs[i - a] == hexadecimal(g@[i as int] as nat));
        if i > a {
            out.append(":");
            assert(":"@ =~= seq![':']) by {
                reveal_strlit(":");
            }
        }
        push_hex(out, g[i]);
        if i == a {
            assert(out@ =~= old(out)@ + join(hs.take(1), seq![':']));
        } else {
            assert(out@ =~= old(out)@ + (join(hs.take(i - a), seq![':']) + seq![':'] + hs[i - a]));
        }
        i = i + 1;
    }
    assert(hs.take(b - a) =~= hs);
}

/// The text of an IPv6 address given as eight 16-bit groups.
fn ipv6_string(g: &Vec<u64>) -> (r: String)
    requires
        g@.len() == 8,
        forall|k: int| 0 <= k < 8 ==> g@[k] < 65536,
    ensures
        r@ == ipv6_text(nats(g@)),
{
    let ghost gn = nats(g@);
    let mut out = String::new();
    if g[0] == 0 && g[1] == 0 && g[2] == 0 && g[3] == 0 && g[4] == 0 && g[5] == 0xffff {
        out.append("::ffff:");
        let mut o: Vec<u64> = Vec::new();
        o.push(g[6] / 256);
        o.push(g[6] % 256);
        o.push(g[7] / 256);
        o.push(g[7] % 256);
        push_ipv4(&mut out, &o);
        assert(nats(o@) =~= seq![gn[6] / 256, gn[6] % 256, gn[7] / 256, gn[7] % 256]);
        assert(out@ =~= ipv6_text(gn));
        return out;
    }
    let mut ls: usize = 0;
    let mut ll: usize = 0;
    let mut cs: usize = 0;
    let mut cl: usize = 0;
    let mut i: usize = 0;
    while i < 8
        invariant
            g@.len() == 8,
            gn == nats(g@),
            i <= 8,
            (ls as int, ll as int, cs as int, cl as int) == zero_scan(gn, i as int),
            ls + ll <= i,
            cl == 0 || cs + cl == i,
            cs <= i,
        decreases 8 - i,
    {
        if g[i] == 0 {
            if cl == 0 {
                cs = i;
            }
            cl = cl + 1;
            if cl > ll {
                ls = cs;
                ll = cl;
            }
        } else {
            cs = 0;
            cl = 0;
        }
        i = i + 1;
    }
    if ll > 1 {
        push_groups(&mut out, g, 0, ls);
        out.append("::");
        push_groups(&mut out, g, ls + ll, 8);
        assert(gn.subrange(0, ls as int) =~= gn.take(ls as int));
        assert(gn.subrange((ls + ll) as int, 8) =~= gn.skip((ls + ll) as int));
    } else {
        push_groups(&mut out, g, 0, 8);
        assert(gn.subrange(0, 8) =~= gn);
    }
    assert(out@ =~= ipv6_text(gn));
    out
}

/// Parses a `/proc/net/tcp6` address column; `little_endian` is the
/// machine's byte order.
pub fn parse_hex_addr_v6(raw: &str, little_endian: bool) -> (r: (String, u16))
    ensures
        r.0@ == spec_hex_addr_v6(raw@, little_endian).0,
        r.1 == spec_hex_addr_v6(raw@, little_endian).1,
{
    let v = chars_of(raw);
    let parts = split_on(&v, ':');
    if parts.len() != 2 {
        return (unknown_address(), 0);
    }
    assert(seqs(parts@)[0] == parts@[0]@ && seqs(parts@)[1] == parts@[1]@);
    let port = match parse_uint(&parts[1], 16, 0xffff) {
        Some(x) => x as u16,
        None => 0,
    };
    let hex = &parts[0];
    if byte_len(hex) != 32 {
        return (unknown_address(), port);
    }
    let mut bytes: Vec<u64> = Vec::new();
    let mut i: u64 = 0;
    while i < 4
        invariant
            i <= 4,
            bytes@.len() == 4 * i,
            forall|k: int| 0 <= k < bytes@.len() ==> bytes@[k] < 256,
            nats(bytes@) == (if i == 0 {
                Seq::<nat>::empty()
            } else if i == 1 {
                word_bytes(hex_word(hex@, 0), little_endian)
            } else if i == 2 {
                word_bytes(hex_word(hex@, 0), little_endian) + word_bytes(hex_word(hex@, 1), little_endian)
            } else if i == 3 {
                word_bytes(hex_word(hex@, 0), little_endian) + word_bytes(hex_word(hex@, 1), little_endian)
                    + word_bytes(hex_word(hex@, 2), little_endian)
            } else {
                v6_bytes(hex@, little_endian)
            }),
        decreases 4 - i,
    {
        let w = hex_word_exec(hex, i);
        let wb = word_bytes_exec(w, little_endian);
        let ghost before = nats(bytes@);
        let mut k: usize = 0;
        while k < 4
            invariant
                k <= 4,
                wb@.len() == 4,
                forall|t: int| 0 <= t < 4 ==> wb@[t] < 256,
                bytes@.len() == 4 * i + k,
                forall|t: int| 0 <= t < bytes@.len() ==> bytes@[t] < 256,
                nats(bytes@) == before + nats(wb@).take(k as int),
            decreases 4 - k,
        {
            let ghost prev = nats(bytes@);
            bytes.push(wb[k]);
            assert(nats(bytes@) =~= prev.push(wb@[k as int] as nat));
            assert(nats(wb@).take(k + 1) =~= nats(wb@).take(k as int).push(wb@[k as int] as nat));
            assert(nats(bytes@) =~= before + nats(wb@).take(k + 1));
            k = k + 1;
        }
        assert(nats(wb@).take(4) =~= nats(wb@));
        i = i + 1;
    }
    let mut g: Vec<u64> = Vec::new();
    let mut k: usize = 0;
    while k < 8
        invariant
            k <= 8,
            bytes@.len() == 16,
            forall|t: int| 0 <= t < 16 ==> bytes@[t] < 256,
            g@.len() == k,
            forall|t: int| 0 <= t < k ==> g@[t] < 65536,
            forall|t: int| 0 <= t < k ==> #[trigger] nats(g@)[t] == groups(nats(bytes@))[t],
        decreases 8 - k,
    {
        let ghost prev = nats(g@);
        let v = bytes[2 * k] * 256 + bytes[2 * k + 1];
        g.push(v);
        assert(nats(g@) =~= prev.push(v as nat));
        assert(nats(bytes@)[2 * k] == bytes@[2 * k] as nat);
        assert(nats(bytes@)[2 * k + 1] == bytes@[2 * k + 1] as nat);
        assert(groups(nats(bytes@))[k as int] == v as nat);
        assert forall|t: int| 0 <= t < k + 1 implies #[trigger] nats(g@)[t] == groups(nats(bytes@))[t] by {
            if t < k {
                assert(nats(g@)[t] == prev[t]);
            }
        }
        k = k + 1;
    }
    assert(nats(g@) =~= groups(nats(bytes@)));
    (ipv6_string(&g), port)
}

/// The views of socket table entries (inode, socket).
pub open spec fn entry_views(v: Seq<(u64, SocketInfo)>) -> Seq<(u64, SocketInfoView)> {
    v.map_values(|e: (u64, SocketInfo)| (e.0, e.1@))
}

/// Whether a protocol is one of the IPv6 ones.
pub open spec fn is_v6(p: ProtocolView) -> bool {
    p is Tcp6 || p is Udp6
}

/// Whether a protocol is one of the UDP ones (which have no state).
pub open spec fn is_udp(p: ProtocolView) -> bool {
    p is Udp || p is Udp6
}

/// Address and port of an address column of a table of protocol `p`.
pub open spec fn table_addr(p: ProtocolView, raw: Seq<char>, little_endian: bool) -> (Seq<char>, u16) {
    if is_v6(p) {
        spec_hex_addr_v6(raw, little_endian)
    } else {
        spec_hex_addr_v4(raw, little_endian)
    }
}

/// The (inode, socket) a line of a `/proc/net` table of protocol `p` holds:
/// lines of fewer than ten words hold none, and with a port filter only
/// sockets with the port on either end count. An inode that is not a number
/// counts as 0; a remote port of 0 means no remote end.
pub open spec fn proc_net_row(line: Seq<char>, p: ProtocolView, filter: Option<u16>, little_endian: bool) -> Option<(u64, SocketInfoView)> {
    let f = words(line);
    if f.len() < 10 {
        None
    } else {
        let local = table_addr(p, f[1], little_endian);
        let remote = table_addr(p, f[2], little_endian);
        if filter is Some && local.1 != filter->0 && remote.1 != filter->0 {
            None
        } else {
            Some(
                (
                    or_zero(parse_unsigned(f[9], 10, 0xffff_ffff_ffff_ffff)) as u64,
                    SocketInfoView {
                        protocol: p,
                        local_addr: local.0,
                        local_port: local.1,
                        remote_addr: if remote.1 == 0 {
                            None
                        } else {
                            Some(remote.0)
                        },
                        remote_port: if remote.1 == 0 {
                            None
                        } else {
                            Some(remote.1)
                        },
                        state: if is_udp(p) {
                            None
                        } else {
                            Some(hex_state(f[3]))
                        },
                        fd: seq![],
                    },
                ),
            )
        }
    }
}

/// The entries of a `/proc/net` table of protocol `p`: every line after the
/// header read with `proc_net_row`.
pub open spec fn spec_read_proc_net(content: Seq<char>, p: ProtocolView, filter: Option<u16>, little_endian: bool) -> Seq<(u64, SocketInfoView)> {
    let ls = text_lines(content);
    if ls.len() == 0 {
        seq![]
    } else {
        ls.drop_first().filter_map(|l: Seq<char>| proc_net_row(l, p, filter, little_endian))
    }
}

/// Reads one line of a `/proc/net` table.
fn proc_net_line(line: &Vec<char>, proto: &Protocol, port_filter: Option<u16>, little_endian: bool) -> (r: Option<(u64, SocketInfo)>)
    ensures
        match r {
            Some(e) => proc_net_row(line@, proto@, port_filter, little_endian) == Some((e.0, e.1@)),
            None => proc_net_row(line@, proto@, port_filter, little_endian) is None,
        },
{
    let fields = split_words(line);
    if fields.len() < 10 {
        return None;
    }
    assert(seqs(fields@)[1] == fields@[1]@ && seqs(fields@)[2] == fields@[2]@);
    assert(seqs(fields@)[3] == fields@[3]@ && seqs(fields@)[9] == fields@[9]@);
    let v6 = match proto {
        Protocol::Tcp6 | Protocol::Udp6 => true,
        _ => false,
    };
    let udp = match proto {
        Protocol::Udp | Protocol::Udp6 => true,
        _ => false,
    };
    let inode = match parse_uint(&fields[9], 10, 0xffff_ffff_ffff_ffff) {
        Some(x) => x,
        None => 0,
    };
    let local_raw = string_of(&fields[1]);
    let remote_raw = string_of(&fields[2]);
    let (local_addr, local_port) = if v6 {
        parse_hex_addr_v6(local_raw.as_str(), little_endian)
    } else {
        parse_hex_addr_v4(local_raw.as_str(), little_endian)
    };
    let (remote_addr, remote_port) = if v6 {
        parse_hex_addr_v6(remote_raw.as_str(), little_endian)
    } else {
        parse_hex_addr_v4(remote_raw.as_str(), little_endian)
    };
    match port_filter {
        Some(p) => {
            if local_port != p && remote_port != p {
                return None;
            }
        },
        None => {},
    }
    let state = if udp {
        None
    } else {
        Some(TcpState::from_hex(string_of(&fields[3]).as_str()))
    };
    let sock = SocketInfo {
        protocol: proto.clone(),
        local_addr,
        local_port,
        remote_addr: if remote_port == 0 {
            None
        } else {
            Some(remote_addr)
        },
        remote_port: if remote_port == 0 {
            None
        } else {
            Some(remote_port)
        },
        state,
        fd: String::new(),
    };
    assert(sock@.fd =~= Seq::<char>::empty());
    Some((inode, sock))
}

/// Reads a `/proc/net` table of protocol `proto` (the file's text).
pub fn read_proc_net(content: &str, proto: &Protocol, port_filter: Option<u16>, little_endian: bool) -> (r: Vec<(u64, SocketInfo)>)
    ensures
        entry_views(r@) == spec_read_proc_net(content@, proto@, port_filter, little_endian),
{
    let all = chars_of(content);
    let ls = split_lines(&all);
    let mut out: Vec<(u64, SocketInfo)> = Vec::new();
    if ls.len() == 0 {
        assert(entry_views(out@) =~= Seq::<(u64, SocketInfoView)>::empty());
        return out;
    }
    let ghost lines = seqs(ls@).drop_first();
    let ghost f = |l: Seq<char>| proc_net_row(l, proto@, port_filter, little_endian);
    let mut i: usize = 1;
    assert(lines.take(0) =~= Seq::<Seq<char>>::empty());
    assert(entry_views(out@) =~= Seq::<(u64, SocketInfoView)>::empty());
    while i < ls.len()
        invariant
            lines == seqs(ls@).drop_first(),
            f == (|l: Seq<char>| proc_net_row(l, proto@, port_filter, little_endian)),
            1 <= i <= ls@.len(),
            entry_views(out@) == lines.take(i - 1).filter_map(f),
        decreases ls@.len() - i,
    {
        assert(lines[i - 1] == ls@[i as int]@);
        proof {
            lines.lemma_filter_map_take_succ(f, i - 1);
        }
        let ghost before = entry_views(out@);
        match proc_net_line(&ls[i], proto, port_filter, little_endian) {
            Some(e) => {
                out.push(e);
                assert(entry_views(out@) =~= before + seq![(e.0, e.1@)]);
            },
            None => {},
        }
        i = i + 1;
    }
    assert(lines.take(lines.len() as int) =~= lines);
    out
}

/// Whether some entry of `s` has inode `n`.
pub open spec fn has_inode(s: Seq<(u64, SocketInfoView)>, n: u64) -> bool {
    exists|i: int| 0 <= i < s.len() && #[trigger] s[i].0 == n
}

/// The entries of `s` that no later entry replaces: for each inode, its
/// last entry (what inserting them in order into a map keeps).
pub open spec fn latest_per_inode(s: Seq<(u64, SocketInfoView)>) -> Seq<(u64, SocketInfoView)>
    decreases s.len(),
{
    if s.len() == 0 {
        seq![]
    } else {
        let rest = latest_per_inode(s.drop_first());
        if has_inode(s.drop_first(), s[0].0) {
            rest
        } else {
            seq![s[0]] + rest
        }
    }
}

/// A protocol and the text of its `/proc/net` table.
pub open spec fn table_views(v: Seq<(Protocol, String)>) -> Seq<(ProtocolView, Seq<char>)> {
    v.map_values(|t: (Protocol, String)| (t.0@, t.1@))
}

/// The entries of all tables, one table after another.
pub open spec fn all_entries(ts: Seq<(ProtocolView, Seq<char>)>, filter: Option<u16>, little_endian: bool) -> Seq<(u64, SocketInfoView)>
    decreases ts.len(),
{
    if ts.len() == 0 {
        seq![]
    } else {
        all_entries(ts.drop_last(), filter, little_endian) + spec_read_proc_net(
            ts.last().1,
            ts.last().0,
            filter,
            little_endian,
        )
    }
}

/// The sockets of all tables by inode, later tables replacing earlier
/// entries of the same inode.
pub open spec fn spec_collect_sockets(ts: Seq<(ProtocolView, Seq<char>)>, filter: Option<u16>, little_endian: bool) -> Seq<(u64, SocketInfoView)> {
    latest_per_inode(all_entries(ts, filter, little_endian))
}

/// Reads the `/proc/net` tables (TCP, TCP6, UDP, UDP6 as far as they could
/// be read) into one table of sockets by inode.
pub fn collect_sockets(tables: &Vec<(Protocol, String)>, port_filter: Option<u16>, little_endian: bool) -> (r: Vec<(u64, SocketInfo)>)
    ensures
        entry_views(r@) == spec_collect_sockets(table_views(tables@), port_filter, little_endian),
{
    let ghost ts = table_views(tables@);
    let mut all: Vec<(u64, SocketInfo)> = Vec::new();
    let mut t: usize = 0;
    assert(ts.take(0) =~= Seq::<(ProtocolView, Seq<char>)>::empty());
    assert(entry_views(all@) =~= Seq::<(u64, SocketInfoView)>::empty());
    while t < tables.len()
        invariant
            ts == table_views(tables@),
            t <= tables@.len(),
            entry_views(all@) == all_entries(ts.take(t as int), port_filter, little_endian),
        decreases tables@.len() - t,
    {
        let rows = read_proc_net(tables[t].1.as_str(), &tables[t].0, port_filter, little_endian);
        assert(ts.take(t + 1).drop_last() =~= ts.take(t as int));
        assert(ts.take(t + 1).last() == (tables@[t as int].0@, tables@[t as int].1@));
        let ghost before = entry_views(all@);
        let mut k: usize = 0;
        while k < rows.len()
            invariant
                k <= rows@.len(),
                entry_views(all@) == before + entry_views(rows@).take(k as int),
            decreases rows@.len() - k,
        {
            let e = (rows[k].0, rows[k].1.clone());
            let ghost prev = entry_views(all@);
            all.push(e);
            assert(entry_views(all@) =~= prev.push((e.0, e.1@)));
            assert(entry_views(rows@).take(k + 1) =~= entry_views(rows@).take(k as int).push(
                (e.0, e.1@),
            ));
            k = k + 1;
        }
        assert(entry_views(rows@).take(rows@.len() as int) =~= entry_views(rows@));
        t = t + 1;
    }
    assert(ts.take(tables@.len() as int) =~= ts);
    latest_entries(&all)
}

/// For each inode, its last entry, in the order of those last entries.
pub fn latest_entries(all: &Vec<(u64, SocketInfo)>) -> (r: Vec<(u64, SocketInfo)>)
    ensures
        entry_views(r@) == latest_per_inode(entry_views(all@)),
{
    let ghost s = entry_views(all@);
    let n = all.len();
    let mut out: Vec<(u64, SocketInfo)> = Vec::new();
    let mut i: usize = 0;
    assert(s.skip(0) =~= s);
    assert(entry_views(out@) + latest_per_inode(s.skip(0)) =~= latest_per_inode(s));
    while i < n
        invariant
            n == all@.len(),
            s == entry_views(all@),
            i <= n,
            entry_views(out@) + latest_per_inode(s.skip(i as int)) == latest_per_inode(s),
        decreases n - i,
    {
        let ghost rest = s.skip(i as int);
        assert(rest.drop_first() =~= s.skip(i + 1));
        assert(rest[0] == s[i as int]);
        let inode = all[i].0;
        let mut later = false;
        let mut j = i + 1;
        while j < n
            invariant
                n == all@.len(),
                s == entry_views(all@),
                i < n,
                i + 1 <= j <= n,
                later == (exists|t: int| i + 1 <= t < j && #[trigger] s[t].0 == inode),
            decreases n - j,
        {
            if all[j].0 == inode {
                later = true;
                assert(s[j as int].0 == inode);
            }
            j = j + 1;
        }
        assert(later == has_inode(s.skip(i + 1), inode)) by {
            if later {
                let t = choose|t: int| i + 1 <= t < n && #[trigger] s[t].0 == inode;
                assert(s.skip(i + 1)[t - i - 1].0 == inode);
            }
            if has_inode(s.skip(i + 1), inode) {
                let t = choose|t: int| 0 <= t < s.skip(i + 1).len() && #[trigger] s.skip(i + 1)[t].0 == inode;
                assert(s[i + 1 + t].0 == inode);
            }
        }
        if !later {
            let e = (all[i].0, all[i].1.clone());
            let ghost prev = entry_views(out@);
            out.push(e);
            assert(entry_views(out@) =~= prev.push((e.0, e.1@)));
            assert(prev.push(s[i as int]) + latest_per_inode(s.skip(i + 1)) =~= prev + (seq![s[i as int]]
                + latest_per_inode(s.skip(i + 1))));
        }
        i = i + 1;
    }
    assert(s.skip(n as int) =~= Seq::<(u64, SocketInfoView)>::empty());
    assert(entry_views(out@) + Seq::<(u64, SocketInfoView)>::empty() =~= entry_views(out@));
    out
}

/// The inode of an fd link `socket:[N]`; `None` for any other link.
pub open spec fn spec_socket_inode(link: Seq<char>) -> Option<u64> {
    let p = "socket:["@;
    if link.len() >= p.len() + 1 && link.take(p.len() as int) == p && link.last() == ']' {
        parse_unsigned(link.subrange(p.len() as int, link.len() - 1), 10, 0xffff_ffff_ffff_ffff)
    } else {
        None
    }
}

/// Reads the inode of an fd link such as `socket:[12345]`.
pub fn socket_inode(link: &str) -> (r: Option<u64>)
    ensures
        r == spec_socket_inode(link@),
{
    let v = chars_of(link);
    let p = chars_of("socket:[");
    let n = v.len();
    let m = p.len();
    if n <= m || v[n - 1] != ']' {
        return None;
    }
    let head = slice_chars(&v, 0, m);
    assert(head@ =~= link@.take(m as int));
    if !crate::text::same_chars(&head, &p) {
        return None;
    }
    let middle = slice_chars(&v, m, n - 1);
    parse_uint(&middle, 10, 0xffff_ffff_ffff_ffff)
}

/// Reads a process directory name under `/proc` as a PID.
pub fn parse_pid(name: &str) -> (r: Option<u32>)
    ensures
        match r {
            Some(p) => parse_unsigned(name@, 10, 0xffff_ffff) == Some(p as u64),
            None => parse_unsigned(name@, 10, 0xffff_ffff) is None,
        },
{
    let v = chars_of(name);
    match parse_uint(&v, 10, 0xffff_ffff) {
        Some(x) => Some(x as u32),
        None => None,
    }
}

/// The process that holds socket `inode`: the PID of the last fd link to it
/// in the order the links were found ((pid, inode) pairs).
pub open spec fn last_owner(links: Seq<(u32, u64)>, inode: u64) -> Option<u32>
    decreases links.len(),
{
    if links.len() == 0 {
        None
    } else if links.last().1 == inode {
        Some(links.last().0)
    } else {
        last_owner(links.drop_last(), inode)
    }
}

pub fn socket_owner(links: &Vec<(u32, u64)>, inode: u64) -> (r: Option<u32>)
    ensures
        r == last_owner(links@, inode),
{
    let mut i = links.len();
    assert(links@.take(i as int) =~= links@);
    while i > 0
        invariant
            i <= links@.len(),
            last_owner(links@, inode) == last_owner(links@.take(i as int), inode),
        decreases i,
    {
        assert(links@.take(i as int).drop_last() =~= links@.take(i - 1));
        assert(links@.take(i as int).last() == links@[i - 1]);
        if links[i - 1].1 == inode {
            return Some(links[i - 1].0);
        }
        i = i - 1;
    }
    None
}

/// With a port filter, every entry of a `/proc/net` table has the port on
/// one of its ends.
pub proof fn lemma_read_proc_net_touches_port(content: Seq<char>, proto: ProtocolView, p: u16, little_endian: bool)
    ensures
        forall|i: int| 0 <= i < spec_read_proc_net(content, proto, Some(p), little_endian).len() ==> touches_port(
            (#[trigger] spec_read_proc_net(content, proto, Some(p), little_endian)[i]).1,
            p,
        ),
{
    let ls = text_lines(content);
    if ls.len() > 0 {
        let f = |l: Seq<char>| proc_net_row(l, proto, Some(p), little_endian);
        let rows = ls.drop_first().filter_map(f);
        assert forall|i: int| 0 <= i < rows.len() implies touches_port(#[trigger] rows[i].1, p) by {
            assert(rows.contains(rows[i]));
            ls.drop_first().lemma_filter_map_contains(f, rows[i]);
            let t = choose|t: Seq<char>| #[trigger] ls.drop_first().contains(t) && f(t) == Some(rows[i]);
            assert(proc_net_row(t, proto, Some(p), little_endian) == Some(rows[i]));
        }
    }
}

proof fn lemma_rows_port_filter(ls: Seq<Seq<char>>, proto: ProtocolView, p: u16, little_endian: bool)
    ensures
        ls.filter_map(|l: Seq<char>| proc_net_row(l, proto, Some(p), little_endian)) == ls.filter_map(
            |l: Seq<char>| proc_net_row(l, proto, None, little_endian),
        ).filter(|e: (u64, SocketInfoView)| touches_port(e.1, p)),
    decreases ls.len(),
{
    reveal(Seq::filter);
    let fp = |l: Seq<char>| proc_net_row(l, proto, Some(p), little_endian);
    let fa = |l: Seq<char>| proc_net_row(l, proto, None, little_endian);
    let g = |e: (u64, SocketInfoView)| touches_port(e.1, p);
    if ls.len() > 0 {
        lemma_rows_port_filter(ls.drop_last(), proto, p, little_endian);
        let prev = ls.drop_last().filter_map(fa);
        match fa(ls.last()) {
            Some(e) => {
                prev.lemma_filter_push(e, g);
                assert(prev + seq![e] =~= prev.push(e));
                assert(ls.drop_last().filter_map(fp) + seq![e] =~= ls.drop_last().filter_map(fp).push(e));
            },
            None => {},
        }
    }
}

/// A port filter keeps, of a `/proc/net` table's entries, exactly those with
/// the port on one of their ends, in the same order.
pub proof fn lemma_read_proc_net_port_filter(content: Seq<char>, proto: ProtocolView, p: u16, little_endian: bool)
    ensures
        spec_read_proc_net(content, proto, Some(p), little_endian) == spec_read_proc_net(
            content,
            proto,
            None,
            little_endian,
        ).filter(|e: (u64, SocketInfoView)| touches_port(e.1, p)),
{
    reveal(Seq::filter);
    let ls = text_lines(content);
    if ls.len() > 0 {
        lemma_rows_port_filter(ls.drop_first(), proto, p, little_endian);
    }
}

pub proof fn lemma_all_entries_touch_port(ts: Seq<(ProtocolView, Seq<char>)>, p: u16, little_endian: bool)
    ensures
        forall|i: int| 0 <= i < all_entries(ts, Some(p), little_endian).len() ==> touches_port(
            (#[trigger] all_entries(ts, Some(p), little_endian)[i]).1,
            p,
        ),
    decreases ts.len(),
{
    if ts.len() > 0 {
        lemma_all_entries_touch_port(ts.drop_last(), p, little_endian);
        lemma_read_proc_net_touches_port(ts.last().1, ts.last().0, p, little_endian);
        let a = all_entries(ts.drop_last(), Some(p), little_endian);
        let b = spec_read_proc_net(ts.last().1, ts.last().0, Some(p), little_endian);
        assert forall|i: int| 0 <= i < (a + b).len() implies touches_port(#[trigger] (a + b)[i].1, p) by {
            if i < a.len() {
                assert((a + b)[i] == a[i]);
            } else {
                assert((a + b)[i] == b[i - a.len()]);
            }
        }
    }
}

/// What `latest_per_inode` keeps comes from its input.
pub proof fn lemma_latest_from_input(s: Seq<(u64, SocketInfoView)>)
    ensures
        forall|i: int| 0 <= i < latest_per_inode(s).len() ==> s.contains(#[trigger] latest_per_inode(s)[i]),
    decreases s.len(),
{
    if s.len() > 0 {
        lemma_latest_from_input(s.drop_first());
        let rest = latest_per_inode(s.drop_first());
        assert forall|i: int| 0 <= i < latest_per_inode(s).len() implies s.contains(#[trigger] latest_per_inode(s)[i]) by {
            if has_inode(s.drop_first(), s[0].0) {
                assert(s.drop_first().contains(rest[i]));
                let j = choose|j: int| 0 <= j < s.drop_first().len() && s.drop_first()[j] == rest[i];
                assert(s[j + 1] == rest[i]);
            } else if i == 0 {
                assert(latest_per_inode(s)[0] == s[0]);
            } else {
                assert(latest_per_inode(s)[i] == rest[i - 1]);
                assert(s.drop_first().contains(rest[i - 1]));
                let j = choose|j: int| 0 <= j < s.drop_first().len() && s.drop_first()[j] == rest[i - 1];
                assert(s[j + 1] == rest[i - 1]);
            }
        }
    }
}

/// The merged socket table holds each inode of its input once: no two
/// entries share an inode, and every inode of the tables is there.
pub proof fn lemma_latest_per_inode_distinct(s: Seq<(u64, SocketInfoView)>)
    ensures
        forall|i: int, j: int|
            0 <= i < j < latest_per_inode(s).len() ==> (#[trigger] latest_per_inode(s)[i]).0
                != (#[trigger] latest_per_inode(s)[j]).0,
        forall|n: u64| has_inode(s, n) <==> has_inode(latest_per_inode(s), n),
    decreases s.len(),
{
    if s.len() > 0 {
        let tail = s.drop_first();
        let rest = latest_per_inode(tail);
        lemma_latest_per_inode_distinct(tail);
        lemma_latest_from_input(tail);
        assert forall|n: u64| has_inode(s, n) <==> has_inode(latest_per_inode(s), n) by {
            if has_inode(s, n) {
                let k = choose|k: int| 0 <= k < s.len() && #[trigger] s[k].0 == n;
                if k > 0 {
                    assert(tail[k - 1].0 == n);
                    assert(has_inode(tail, n));
                    let m = choose|m: int| 0 <= m < rest.len() && #[trigger] rest[m].0 == n;
                    if !has_inode(tail, s[0].0) {
                        assert(latest_per_inode(s)[m + 1] == rest[m]);
                    }
                } else if has_inode(tail, s[0].0) {
                    let m = choose|m: int| 0 <= m < rest.len() && #[trigger] rest[m].0 == n;
                } else {
                    assert(latest_per_inode(s)[0] == s[0]);
                }
            }
            if has_inode(latest_per_inode(s), n) {
                let m = choose|m: int| 0 <= m < latest_per_inode(s).len() && #[trigger] latest_per_inode(s)[m].0 == n;
                if !has_inode(tail, s[0].0) && m == 0 {
                    assert(s[0].0 == n);
                } else {
                    let r = if has_inode(tail, s[0].0) { m } else { m - 1 };
                    assert(rest[r].0 == n);
                    assert(has_inode(rest, n));
                    let k = choose|k: int| 0 <= k < tail.len() && #[trigger] tail[k].0 == n;
                    assert(s[k + 1].0 == n);
                }
            }
        }
        if !has_inode(tail, s[0].0) {
            assert forall|i: int, j: int| 0 <= i < j < latest_per_inode(s).len() implies (#[trigger] latest_per_inode(s)[i]).0
                != (#[trigger] latest_per_inode(s)[j]).0 by {
                if i == 0 {
                    assert(latest_per_inode(s)[j] == rest[j - 1]);
                    if rest[j - 1].0 == s[0].0 {
                        assert(has_inode(rest, s[0].0));
                    }
                } else {
                    assert(latest_per_inode(s)[i] == rest[i - 1]);
                    assert(latest_per_inode(s)[j] == rest[j - 1]);
                }
            }
        }
    }
}

/// Groups `st` to `st + len` of `g` are all zero.
pub open spec fn zero_run(g: Seq<nat>, st: int, len: int) -> bool {
    &&& 0 <= st
    &&& 0 <= len
    &&& st + len <= g.len()
    &&& forall|k: int| st <= k < st + len ==> g[k] == 0
}

/// The scan finds, among the first `i` groups, the first of the longest runs
/// of zero groups (and the run of zeros that ends at `i`): so the `::` of an
/// IPv6 address's text stands for its first longest run of zero groups.
pub proof fn lemma_zero_scan_first_longest(g: Seq<nat>, i: int)
    requires
        0 <= i <= g.len(),
    ensures
        zero_run(g, zero_scan(g, i).0, zero_scan(g, i).1),
        zero_scan(g, i).0 + zero_scan(g, i).1 <= i,
        forall|st: int, len: int| st + len <= i && #[trigger] zero_run(g, st, len) ==> len <= zero_scan(g, i).1,
        forall|st: int|
            0 <= st < zero_scan(g, i).0 && st + zero_scan(g, i).1 <= i ==> !#[trigger] zero_run(
                g,
                st,
                zero_scan(g, i).1,
            ),
        zero_run(g, zero_scan(g, i).2, zero_scan(g, i).3),
        zero_scan(g, i).3 == 0 || zero_scan(g, i).2 + zero_scan(g, i).3 == i,
        forall|len: int| 0 <= len <= i && #[trigger] zero_run(g, i - len, len) ==> len <= zero_scan(g, i).3,
    decreases i,
{
    if i > 0 {
        lemma_zero_scan_first_longest(g, i - 1);
        let p = zero_scan(g, i - 1);
        let z = zero_scan(g, i);
        if g[i - 1] == 0 {
            assert forall|len: int| 0 <= len <= i && #[trigger] zero_run(g, i - len, len) implies len <= z.3 by {
                if len > 0 {
                    assert(zero_run(g, (i - 1) - (len - 1), len - 1));
                }
            }
            assert(zero_run(g, z.2, z.3)) by {
                if p.3 == 0 {
                    assert(z.2 == i - 1);
                }
            }
            assert forall|st: int, len: int| st + len <= i && #[trigger] zero_run(g, st, len) implies len <= z.1 by {
                if st + len <= i - 1 {
                    assert(zero_run(g, st, len));
                } else {
                    assert(st == i - len);
                }
            }
            assert forall|st: int| 0 <= st < z.0 && st + z.1 <= i implies !#[trigger] zero_run(g, st, z.1) by {
                if zero_run(g, st, z.1) {
                    if st + z.1 <= i - 1 {
                        if p.3 + 1 > p.1 {
                            assert(z.1 == p.3 + 1);
                        }
                    } else {
                        assert(st == i - z.1);
                    }
                }
            }
        } else {
            assert forall|len: int| 0 <= len <= i && #[trigger] zero_run(g, i - len, len) implies len <= z.3 by {
                if len > 0 {
                    assert(g[i - 1] == 0);
                }
            }
            assert forall|st: int, len: int| st + len <= i && #[trigger] zero_run(g, st, len) implies len <= z.1 by {
                if st + len == i && len > 0 {
                    assert(g[i - 1] == 0);
                }
            }
            assert forall|st: int| 0 <= st < z.0 && st + z.1 <= i implies !#[trigger] zero_run(g, st, z.1) by {
                if zero_run(g, st, z.1) && st + z.1 == i && z.1 > 0 {
                    assert(g[i - 1] == 0);
                }
            }
            assert(zero_run(g, 0, 0));
        }
    } else {
        assert(zero_run(g, 0, 0));
    }
}

/// An entry of a `/proc/net` table row takes each end from its own column:
/// the local address and port from the second word, the remote ones from
/// the third (the remote end known exactly when its port is not 0), the
/// inode from the tenth and the state from the fourth (none for UDP).
pub proof fn lemma_proc_net_row_columns(line: Seq<char>, p: ProtocolView, filter: Option<u16>, little_endian: bool)
    requires
        proc_net_row(line, p, filter, little_endian) is Some,
    ensures
        ({
            let e = proc_net_row(line, p, filter, little_endian)->0;
            let w = words(line);
            let local = if is_v6(p) {
                spec_hex_addr_v6(w[1], little_endian)
            } else {
                spec_hex_addr_v4(w[1], little_endian)
            };
            let remote = if is_v6(p) {
                spec_hex_addr_v6(w[2], little_endian)
            } else {
                spec_hex_addr_v4(w[2], little_endian)
            };
            &&& w.len() >= 10
            &&& e.1.protocol == p
            &&& e.1.local_addr == local.0
            &&& e.1.local_port == local.1
            &&& (e.1.remote_port is Some <==> remote.1 != 0)
            &&& (e.1.remote_addr is Some <==> remote.1 != 0)
            &&& (remote.1 != 0 ==> e.1.remote_port == Some(remote.1) && e.1.remote_addr == Some(remote.0))
            &&& (p is Udp || p is Udp6 <==> e.1.state is None)
            &&& (!(p is Udp || p is Udp6) ==> e.1.state == Some(hex_state(w[3])))
            &&& e.0 == (match parse_unsigned(w[9], 10, 0xffff_ffff_ffff_ffff) {
                Some(n) => n,
                None => 0,
            })
        }),
{
}

} // verus!
