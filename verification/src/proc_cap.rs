//! Which program moves how much: socket tables, packet headers, and byte counts by
//! program.
//!
//! A frame is laid to the program whose socket has the frame's local address and port.
//! Attribution is best effort: a flow that opened and closed between two looks at the
//! socket tables lands in `unknown`, and a frame without ports in `other`.
use crate::config::{matches_any, matches_one};
use crate::daemon::{longer_than, AppBytes};
use crate::text::{
    a_line_feed_ends_a_line, chars_of, decimal, fields, find_char, has_prefix, lines,
    numbers_are_read_back, only_digits_are_numbers, parse_unsigned, place_of, place_of_is_first,
    same_text, slices, split_fields, split_lines, starts_with, text_of, trim, trimmed,
    unsigned_value, values_are_not_negative,
};
use pnet::packet::Packet;
use std::collections::HashMap;
use vstd::prelude::*;
use vstd::slice::slice_subrange;
use vstd::std_specs::hash::group_hash_axioms;
use vstd::string::*;

verus! {

broadcast use group_hash_axioms;

// ---- addresses ----

/// An address, as the number that its bytes make, the first byte highest.
#[derive(Clone, Copy, PartialEq, Eq, Structural, Debug)]
pub enum Ip {
    V4(u32),
    V6(u128),
}

impl Ip {
    /// The address `a.b.c.d`.
    pub fn v4(a: u8, b: u8, c: u8, d: u8) -> (r: Ip)
        ensures
            r == Ip::V4((a * 0x100_0000 + b * 0x1_0000 + c * 0x100 + d) as u32),
    {
        Ip::V4(a as u32 * 0x100_0000 + b as u32 * 0x1_0000 + c as u32 * 0x100 + d as u32)
    }
}

/// The number whose four bytes are those of another one in reverse.
pub open spec fn swapped(n: int) -> int {
    n % 0x100 * 0x100_0000 + n / 0x100 % 0x100 * 0x1_0000 + n / 0x1_0000 % 0x100 * 0x100 + n
        / 0x100_0000 % 0x100
}

/// A word of a socket table's address, in hexadecimal digits; the kernel writes it with
/// the last byte first.
pub open spec fn address_word(s: Seq<char>) -> Option<int> {
    match unsigned_value(s, 16, u32::MAX as int) {
        Some(n) => Some(swapped(n)),
        None => None,
    }
}

/// An address of a socket table: one word, or for IPv6 four words of eight digits.
pub open spec fn address_of(s: Seq<char>, v6: bool) -> Option<Ip> {
    if !v6 {
        match address_word(s) {
            Some(n) => Some(Ip::V4(n as u32)),
            None => None,
        }
    } else if s.len() != 32 {
        None
    } else {
        match (
            address_word(s.subrange(0, 8)),
            address_word(s.subrange(8, 16)),
            address_word(s.subrange(16, 24)),
            address_word(s.subrange(24, 32)),
        ) {
            (Some(a), Some(b), Some(c), Some(d)) => Some(
                Ip::V6(
                    (a * 0x1_0000_0000_0000_0000_0000_0000 + b * 0x1_0000_0000_0000_0000 + c
                        * 0x1_0000_0000 + d) as u128,
                ),
            ),
            _ => None,
        }
    }
}

/// The local end of a socket: an address and, behind the first colon, a port in
/// hexadecimal digits.
pub open spec fn local_end(s: Seq<char>, v6: bool) -> Option<(Ip, u16)> {
    let p = place_of(s, ':') as int;
    if p >= s.len() {
        None
    } else {
        match (unsigned_value(s.skip(p + 1), 16, u16::MAX as int), address_of(s.take(p), v6)) {
            (Some(port), Some(ip)) => Some((ip, port as u16)),
            _ => None,
        }
    }
}

fn word(s: &[char]) -> (r: Option<u32>)
    ensures
        match r {
            Some(n) => address_word(s@) == Some(n as int),
            None => address_word(s@) is None,
        },
{
    match parse_unsigned(s, 16, u32::MAX as u64) {
        Some(n) => {
            let m = n as u32;
            assert(unsigned_value(s@, 16, u32::MAX as int) == Some(m as int));
            Some(
                m % 0x100 * 0x100_0000 + m / 0x100 % 0x100 * 0x1_0000 + m / 0x1_0000 % 0x100 * 0x100
                    + m / 0x100_0000 % 0x100,
            )
        },
        None => None,
    }
}

fn address(s: &[char], v6: bool) -> (r: Option<Ip>)
    ensures
        r == address_of(s@, v6),
{
    if !v6 {
        match word(s) {
            Some(n) => Some(Ip::V4(n)),
            None => None,
        }
    } else if s.len() != 32 {
        None
    } else {
        match (
            word(slice_subrange(s, 0, 8)),
            word(slice_subrange(s, 8, 16)),
            word(slice_subrange(s, 16, 24)),
            word(slice_subrange(s, 24, 32)),
        ) {
            (Some(a), Some(b), Some(c), Some(d)) => Some(
                Ip::V6(
                    a as u128 * 0x1_0000_0000_0000_0000_0000_0000 + b as u128
                        * 0x1_0000_0000_0000_0000 + c as u128 * 0x1_0000_0000 + d as u128,
                ),
            ),
            _ => None,
        }
    }
}

/// The local end of a socket, from its field in a socket table.
fn local_field(s: &[char], v6: bool) -> (r: Option<(Ip, u16)>)
    ensures
        r == local_end(s@, v6),
{
    let p = find_char(s, ':');
    if p >= s.len() {
        return None;
    }
    let tail = slice_subrange(s, p + 1, s.len());
    let head = slice_subrange(s, 0, p);
    assert(tail@ =~= s@.skip(p + 1));
    assert(head@ =~= s@.take(p as int));
    match parse_unsigned(tail, 16, u16::MAX as u64) {
        Some(port) => match address(head, v6) {
            Some(ip) => Some((ip, port as u16)),
            None => None,
        },
        None => None,
    }
}

/// The local end of a socket, from its field in a socket table.
pub fn parse_local(s: &str, v6: bool) -> (r: Option<(Ip, u16)>)
    ensures
        r == local_end(s@, v6),
{
    let chars = chars_of(s);
    local_field(chars.as_slice(), v6)
}

// ---- sockets and their programs ----

/// The number of the socket that a file descriptor leads to, where it leads to one.
pub open spec fn socket_number(link: Seq<char>) -> Option<u64> {
    if starts_with(link, "socket:["@) {
        let rest = link.skip("socket:["@.len() as int);
        if rest.len() > 0 && rest.last() == ']' {
            match unsigned_value(rest.drop_last(), 10, u64::MAX as int) {
                Some(n) => Some(n as u64),
                None => None,
            }
        } else {
            None
        }
    } else {
        None
    }
}

/// The number of the socket that a file descriptor leads to, where it leads to one.
pub fn socket_inode(link: &str) -> (r: Option<u64>)
    ensures
        r == socket_number(link@),
{
    let s = chars_of(link);
    let head = chars_of("socket:[");
    if !has_prefix(s.as_slice(), head.as_slice()) {
        return None;
    }
    let rest = slice_subrange(s.as_slice(), head.len(), s.len());
    assert(rest@ =~= link@.skip("socket:["@.len() as int));
    if rest.len() == 0 || rest[rest.len() - 1] != ']' {
        return None;
    }
    let digits = slice_subrange(rest, 0, rest.len() - 1);
    assert(digits@ =~= rest@.drop_last());
    parse_unsigned(digits, 10, u64::MAX)
}

/// The number of a process, from the name of its directory, where it is one.
pub fn process_number(name: &str) -> (r: Option<u32>)
    ensures
        match r {
            Some(n) => unsigned_value(name@, 10, u32::MAX as int) == Some(n as int),
            None => unsigned_value(name@, 10, u32::MAX as int) is None,
        },
{
    let chars = chars_of(name);
    match parse_unsigned(chars.as_slice(), 10, u32::MAX as u64) {
        Some(n) => Some(n as u32),
        None => None,
    }
}

/// A process: its number, its name as its file holds it, and where its file descriptors
/// lead to.
pub struct Process {
    pub pid: u32,
    pub comm: String,
    pub links: Vec<String>,
}

/// The sockets of some file descriptors laid to a process, where no other has them yet.
pub open spec fn claim_links(
    owned: Map<u64, (u32, Seq<char>)>,
    links: Seq<String>,
    pid: u32,
    comm: Seq<char>,
) -> Map<u64, (u32, Seq<char>)>
    decreases links.len(),
{
    if links.len() == 0 {
        owned
    } else {
        let before = claim_links(owned, links.drop_last(), pid, comm);
        match socket_number(links.last()@) {
            Some(n) if !before.contains_key(n) => before.insert(n, (pid, comm)),
            _ => before,
        }
    }
}

/// The sockets of some processes: each belongs to the first process that has it.
pub open spec fn socket_owners(processes: Seq<Process>) -> Map<u64, (u32, Seq<char>)>
    decreases processes.len(),
{
    if processes.len() == 0 {
        Map::empty()
    } else {
        let p = processes.last();
        claim_links(socket_owners(processes.drop_last()), p.links@, p.pid, trimmed(p.comm@))
    }
}

/// What a table of sockets and processes tells.
pub open spec fn owner_view(m: Map<u64, (u32, String)>) -> Map<u64, (u32, Seq<char>)> {
    m.map_values(|v: (u32, String)| (v.0, v.1@))
}

/// The process that each socket belongs to.
pub fn inode_to_pid(processes: &Vec<Process>) -> (r: HashMap<u64, (u32, String)>)
    ensures
        owner_view(r@) == socket_owners(processes@),
{
    let mut map: HashMap<u64, (u32, String)> = HashMap::new();
    let mut i: usize = 0;
    assert(owner_view(map@) =~= socket_owners(processes@.take(0)));
    while i < processes.len()
        invariant
            i <= processes.len(),
            owner_view(map@) == socket_owners(processes@.take(i as int)),
        decreases processes.len() - i,
    {
        let p = &processes[i];
        let chars = chars_of(p.comm.as_str());
        let comm = text_of(trim(chars.as_slice()));
        let ghost owned = owner_view(map@);
        let mut j: usize = 0;
        while j < p.links.len()
            invariant
                j <= p.links.len(),
                comm@ == trimmed(p.comm@),
                owner_view(map@) == claim_links(owned, p.links@.take(j as int), p.pid, comm@),
            decreases p.links.len() - j,
        {
            assert(p.links@.take(j + 1).drop_last() =~= p.links@.take(j as int));
            match socket_inode(p.links[j].as_str()) {
                Some(n) => {
                    if !map.contains_key(&n) {
                        let ghost had = map@;
                        map.insert(n, (p.pid, comm.clone()));
                        assert(owner_view(map@) =~= owner_view(had).insert(n, (p.pid, comm@)));
                    }
                },
                None => {},
            }
            j = j + 1;
        }
        proof {
            assert(p.links@.take(j as int) =~= p.links@);
            assert(processes@.take(i + 1).drop_last() =~= processes@.take(i as int));
        }
        i = i + 1;
    }
    assert(processes@.take(i as int) =~= processes@);
    map
}

/// The local end of a socket and the process that it belongs to.
pub struct Endpoint {
    pub ip: Ip,
    pub port: u16,
    pub pid: u32,
}

/// Which process has which local end of a socket, and what the processes are called.
pub struct Owners {
    pub by_ep: Vec<Endpoint>,
    pub comm: HashMap<u32, String>,
}

/// The processes by local ends; of two at one end the later one counts.
pub open spec fn end_map(v: Seq<Endpoint>) -> Map<(Ip, u16), u32>
    decreases v.len(),
{
    if v.len() == 0 {
        Map::empty()
    } else {
        end_map(v.drop_last()).insert((v.last().ip, v.last().port), v.last().pid)
    }
}

/// The names of processes.
pub open spec fn comm_map(m: Map<u32, String>) -> Map<u32, Seq<char>> {
    m.map_values(|s: String| s@)
}

proof fn end_map_update(v: Seq<Endpoint>, i: int, e: Endpoint)
    requires
        0 <= i < v.len(),
        e.ip == v[i].ip && e.port == v[i].port,
        forall|j: int|
            i < j < v.len() ==> (#[trigger] v[j]).ip != v[i].ip || v[j].port != v[i].port,
    ensures
        end_map(v.update(i, e)) == end_map(v).insert((e.ip, e.port), e.pid),
    decreases v.len(),
{
    let changed = v.update(i, e);
    if i == v.len() - 1 {
        assert(changed.drop_last() =~= v.drop_last());
        assert(end_map(changed) =~= end_map(v).insert((e.ip, e.port), e.pid));
    } else {
        end_map_update(v.drop_last(), i, e);
        assert(changed.drop_last() =~= v.drop_last().update(i, e));
        assert(v[v.len() - 1].ip != v[i].ip || v[v.len() - 1].port != v[i].port);
        assert(end_map(changed) =~= end_map(v).insert((e.ip, e.port), e.pid));
    }
}

fn put_end(v: &mut Vec<Endpoint>, e: Endpoint)
    ensures
        end_map(final(v)@) == end_map(old(v)@).insert((e.ip, e.port), e.pid),
{
    let mut i: usize = v.len();
    while i > 0
        invariant
            i <= v.len(),
            v@ == old(v)@,
            forall|j: int|
                i <= j < v.len() ==> (#[trigger] v@[j]).ip != e.ip || v@[j].port != e.port,
        decreases i,
    {
        i = i - 1;
        if v[i].ip == e.ip && v[i].port == e.port {
            proof {
                end_map_update(v@, i as int, e);
            }
            v.set(i, e);
            return;
        }
    }
    v.push(e);
    assert(v@.drop_last() =~= old(v)@);
}

fn find_end(v: &Vec<Endpoint>, ip: Ip, port: u16) -> (r: Option<u32>)
    ensures
        r is Some <==> end_map(v@).contains_key((ip, port)),
        r matches Some(pid) ==> end_map(v@)[(ip, port)] == pid,
{
    let mut i: usize = v.len();
    assert(v@.take(v@.len() as int) =~= v@);
    while i > 0
        invariant
            i <= v.len(),
            end_map(v@).contains_key((ip, port)) == end_map(v@.take(i as int)).contains_key(
                (ip, port),
            ),
            end_map(v@).contains_key((ip, port)) ==> end_map(v@)[(ip, port)] == end_map(
                v@.take(i as int),
            )[(ip, port)],
        decreases i,
    {
        assert(v@.take(i as int).drop_last() =~= v@.take(i - 1));
        assert(v@.take(i as int).last() == v@[i - 1]);
        i = i - 1;
        if v[i].ip == ip && v[i].port == port {
            return Some(v[i].pid);
        }
    }
    None
}

/// A socket table as the kernel lists it, and whether it is one of IPv6.
pub struct SocketTable {
    pub text: String,
    pub v6: bool,
}

/// What is known of local ends and processes.
pub struct Known {
    pub ends: Map<(Ip, u16), u32>,
    pub names: Map<u32, Seq<char>>,
}

/// What a line of a socket table adds: the second field is the local end, the tenth the
/// number of the socket. A socket that belongs to no process adds nothing.
pub open spec fn know_line(
    known: Known,
    line: Seq<char>,
    v6: bool,
    owned: Map<u64, (u32, Seq<char>)>,
) -> Known {
    let f = fields(line);
    if f.len() < 10 {
        known
    } else {
        match (local_end(f[1], v6), unsigned_value(f[9], 10, u64::MAX as int)) {
            (Some(end), Some(n)) => if n != 0 && owned.contains_key(n as u64) {
                let (pid, comm) = owned[n as u64];
                Known {
                    ends: known.ends.insert(end, pid),
                    names: if known.names.contains_key(pid) {
                        known.names
                    } else {
                        known.names.insert(pid, comm)
                    },
                }
            } else {
                known
            },
            _ => known,
        }
    }
}

/// What some lines of a socket table add.
pub open spec fn know_lines(
    known: Known,
    some: Seq<Seq<char>>,
    v6: bool,
    owned: Map<u64, (u32, Seq<char>)>,
) -> Known
    decreases some.len(),
{
    if some.len() == 0 {
        known
    } else {
        know_line(know_lines(known, some.drop_last(), v6, owned), some.last(), v6, owned)
    }
}

/// The lines of a socket table below its heading.
pub open spec fn body_lines(text: Seq<char>) -> Seq<Seq<char>> {
    let all = lines(text);
    if all.len() > 1 {
        all.skip(1)
    } else {
        Seq::empty()
    }
}

/// What some socket tables tell.
pub open spec fn know_tables(
    tables: Seq<SocketTable>,
    owned: Map<u64, (u32, Seq<char>)>,
) -> Known
    decreases tables.len(),
{
    if tables.len() == 0 {
        Known { ends: Map::empty(), names: Map::empty() }
    } else {
        let t = tables.last();
        know_lines(know_tables(tables.drop_last(), owned), body_lines(t.text@), t.v6, owned)
    }
}

impl Owners {
    /// What the owners are known to have.
    pub open spec fn known(self) -> Known {
        Known { ends: end_map(self.by_ep@), names: comm_map(self.comm@) }
    }

    /// No sockets and no processes.
    pub fn new() -> (r: Owners)
        ensures
            r.known() == (Known { ends: Map::empty(), names: Map::empty() }),
    {
        let r = Owners { by_ep: Vec::new(), comm: HashMap::new() };
        assert(comm_map(r.comm@) =~= Map::empty());
        r
    }

    fn learn(&mut self, line: &[char], v6: bool, inode_owner: &HashMap<u64, (u32, String)>)
        ensures
            final(self).known() == know_line(
                old(self).known(),
                line@,
                v6,
                owner_view(inode_owner@),
            ),
    {
        let f = split_fields(line);
        if f.len() < 10 {
            return;
        }
        assert(slices(f@)[1] == f@[1]@ && slices(f@)[9] == f@[9]@);
        let (ip, port) = match local_field(f[1], v6) {
            Some(end) => end,
            None => {
                return;
            },
        };
        let inode = match parse_unsigned(f[9], 10, u64::MAX) {
            Some(n) => n,
            None => {
                return;
            },
        };
        if inode == 0 {
            return;
        }
        match inode_owner.get(&inode) {
            Some((pid, comm)) => {
                put_end(&mut self.by_ep, Endpoint { ip, port, pid: *pid });
                if !self.comm.contains_key(pid) {
                    let ghost had = self.comm@;
                    self.comm.insert(*pid, comm.clone());
                    assert(comm_map(self.comm@) =~= comm_map(had).insert(*pid, comm@));
                }
            },
            None => {},
        }
    }
}

/// Which process has which local end of a socket, from the socket tables and the sockets
/// of all processes.
pub fn snapshot(
    tables: &Vec<SocketTable>,
    inode_owner: &HashMap<u64, (u32, String)>,
) -> (r: Owners)
    ensures
        r.known() == know_tables(tables@, owner_view(inode_owner@)),
{
    let mut o = Owners::new();
    let ghost owned = owner_view(inode_owner@);
    let mut i: usize = 0;
    while i < tables.len()
        invariant
            i <= tables.len(),
            owned == owner_view(inode_owner@),
            o.known() == know_tables(tables@.take(i as int), owned),
        decreases tables.len() - i,
    {
        let t = &tables[i];
        let chars = chars_of(t.text.as_str());
        let all = split_lines(chars.as_slice());
        let ghost body = body_lines(t.text@);
        let ghost start = o.known();
        let mut j: usize = 1;
        assert(body.take(0) =~= Seq::empty());
        while j < all.len()
            invariant
                1 <= j,
                all.len() > 0 ==> j <= all.len(),
                slices(all@) == lines(t.text@),
                body == body_lines(t.text@),
                owned == owner_view(inode_owner@),
                j - 1 <= body.len(),
                o.known() == know_lines(start, body.take(j - 1), t.v6, owned),
            decreases all.len() - j,
        {
            proof {
                assert(slices(all@)[j as int] == all@[j as int]@);
                assert(body[j - 1] == all@[j as int]@);
                assert(body.take(j as int).drop_last() =~= body.take(j - 1));
            }
            o.learn(all[j], t.v6, inode_owner);
            j = j + 1;
        }
        proof {
            assert(slices(all@).len() == all@.len());
            assert(body.take(j - 1) =~= body);
            assert(tables@.take(i + 1).drop_last() =~= tables@.take(i as int));
        }
        i = i + 1;
    }
    assert(tables@.take(i as int) =~= tables@);
    o
}

// ---- frames ----

/// The number in two bytes, the first one higher.
pub open spec fn be16(b: Seq<u8>, at: int) -> int {
    b[at] * 0x100 + b[at + 1]
}

/// The number in four bytes, the first one highest.
pub open spec fn be32(b: Seq<u8>, at: int) -> int {
    be16(b, at) * 0x1_0000 + be16(b, at + 2)
}

/// The number in sixteen bytes, the first one highest.
pub open spec fn be128(b: Seq<u8>, at: int) -> int {
    be32(b, at) * 0x1_0000_0000_0000_0000_0000_0000 + be32(b, at + 4) * 0x1_0000_0000_0000_0000
        + be32(b, at + 8) * 0x1_0000_0000 + be32(b, at + 12)
}

/// Up to `len` of the bytes from `start` on.
pub open spec fn window(b: Seq<u8>, start: int, len: int) -> Seq<u8> {
    if b.len() <= start {
        Seq::empty()
    } else if start + len <= b.len() {
        b.subrange(start, start + len)
    } else {
        b.skip(start)
    }
}

/// `pnet::packet::ethernet::EthernetPacket`: the type and the payload of a frame of at
/// least 14 bytes. The type stands in the bytes 12 and 13, the payload behind them.
#[verifier::external_body]
fn ethernet(frame: &[u8]) -> (r: Option<(u16, Vec<u8>)>)
    ensures
        r is Some <==> frame@.len() >= 14,
        r matches Some(x) ==> x.0 == be16(frame@, 12) && x.1@ == frame@.skip(14),
{
    let eth = pnet::packet::ethernet::EthernetPacket::new(frame)?;
    Some((eth.get_ethertype().0, eth.payload().to_vec()))
}

/// What the logic reads of a packet: the protocol above, the two addresses and the
/// payload.
pub struct IpHead {
    pub protocol: u8,
    pub source: Ip,
    pub destination: Ip,
    pub payload: Vec<u8>,
}

/// The bytes of an IPv4 header: four times the low half of its first byte.
pub open spec fn v4_header(b: Seq<u8>) -> int {
    b[0] % 16 * 4
}

/// The payload of an IPv4 packet: what its length leaves behind the header, which takes
/// up 20 bytes at least.
pub open spec fn v4_payload(b: Seq<u8>) -> Seq<u8> {
    let header = v4_header(b);
    let len = be16(b, 2) - header;
    window(
        b,
        if header > 20 {
            header
        } else {
            20
        },
        if len > 0 {
            len
        } else {
            0
        },
    )
}

/// `pnet::packet::ipv4::Ipv4Packet`: the head of a packet of at least 20 bytes. The
/// protocol is byte 9, the addresses stand from byte 12 and from byte 16 on.
#[verifier::external_body]
fn ipv4(buf: &[u8]) -> (r: Option<IpHead>)
    ensures
        r is Some <==> buf@.len() >= 20,
        r matches Some(h) ==> {
            &&& h.protocol == buf@[9]
            &&& h.source == Ip::V4(be32(buf@, 12) as u32)
            &&& h.destination == Ip::V4(be32(buf@, 16) as u32)
            &&& h.payload@ == v4_payload(buf@)
        },
{
    let ip = pnet::packet::ipv4::Ipv4Packet::new(buf)?;
    let protocol = ip.get_next_level_protocol().0;
    let source = Ip::V4(ip.get_source().into());
    let destination = Ip::V4(ip.get_destination().into());
    Some(IpHead { protocol, source, destination, payload: ip.payload().to_vec() })
}

/// `pnet::packet::ipv6::Ipv6Packet`: the head of a packet of at least 40 bytes. The next
/// header is byte 6, the addresses stand from byte 8 and from byte 24 on, and the payload
/// is as long as the bytes 4 and 5 say.
#[verifier::external_body]
fn ipv6(buf: &[u8]) -> (r: Option<IpHead>)
    ensures
        r is Some <==> buf@.len() >= 40,
        r matches Some(h) ==> {
            &&& h.protocol == buf@[6]
            &&& h.source == Ip::V6(be128(buf@, 8) as u128)
            &&& h.destination == Ip::V6(be128(buf@, 24) as u128)
            &&& h.payload@ == window(buf@, 40, be16(buf@, 4))
        },
{
    let ip = pnet::packet::ipv6::Ipv6Packet::new(buf)?;
    let protocol = ip.get_next_header().0;
    let source = Ip::V6(ip.get_source().into());
    let destination = Ip::V6(ip.get_destination().into());
    Some(IpHead { protocol, source, destination, payload: ip.payload().to_vec() })
}

/// `pnet::packet::tcp::TcpPacket`: the source and the destination port of a segment of at
/// least 20 bytes, its first four.
#[verifier::external_body]
fn tcp_ports(l4: &[u8]) -> (r: Option<(u16, u16)>)
    ensures
        r is Some <==> l4@.len() >= 20,
        r matches Some(p) ==> p.0 == be16(l4@, 0) && p.1 == be16(l4@, 2),
{
    pnet::packet::tcp::TcpPacket::new(l4).map(|t| (t.get_source(), t.get_destination()))
}

/// `pnet::packet::udp::UdpPacket`: the source and the destination port of a datagram of
/// at least 8 bytes, its first four.
#[verifier::external_body]
fn udp_ports(l4: &[u8]) -> (r: Option<(u16, u16)>)
    ensures
        r is Some <==> l4@.len() >= 8,
        r matches Some(p) ==> p.0 == be16(l4@, 0) && p.1 == be16(l4@, 2),
{
    pnet::packet::udp::UdpPacket::new(l4).map(|u| (u.get_source(), u.get_destination()))
}

/// The ports of a payload: TCP is protocol 6, UDP protocol 17; others have none.
pub open spec fn ports_of(protocol: u8, l4: Seq<u8>) -> Option<(u16, u16)> {
    if (protocol == 6 && l4.len() >= 20) || (protocol == 17 && l4.len() >= 8) {
        Some((be16(l4, 0) as u16, be16(l4, 2) as u16))
    } else {
        None
    }
}

/// The ports of a payload.
pub fn l4_ports(protocol: u8, l4: &[u8]) -> (r: Option<(u16, u16)>)
    ensures
        r == ports_of(protocol, l4@),
{
    if protocol == 6 {
        tcp_ports(l4)
    } else if protocol == 17 {
        udp_ports(l4)
    } else {
        None
    }
}

/// A frame of IPv4 or IPv6: where it comes from, where it goes to, and its ports.
pub struct Flow {
    pub source: Ip,
    pub destination: Ip,
    pub ports: Option<(u16, u16)>,
}

/// What a frame tells, where it is one of IPv4 (type 0x0800) or IPv6 (type 0x86dd).
pub open spec fn flow_of(frame: Seq<u8>) -> Option<Flow> {
    let p = frame.skip(14);
    if frame.len() < 14 {
        None
    } else if be16(frame, 12) == 0x0800 {
        if p.len() < 20 {
            None
        } else {
            Some(
                Flow {
                    source: Ip::V4(be32(p, 12) as u32),
                    destination: Ip::V4(be32(p, 16) as u32),
                    ports: ports_of(p[9], v4_payload(p)),
                },
            )
        }
    } else if be16(frame, 12) == 0x86dd {
        if p.len() < 40 {
            None
        } else {
            Some(
                Flow {
                    source: Ip::V6(be128(p, 8) as u128),
                    destination: Ip::V6(be128(p, 24) as u128),
                    ports: ports_of(p[6], window(p, 40, be16(p, 4))),
                },
            )
        }
    } else {
        None
    }
}

/// What a frame tells.
pub fn read_flow(frame: &[u8]) -> (r: Option<Flow>)
    ensures
        r == flow_of(frame@),
{
    let (kind, payload) = match ethernet(frame) {
        Some(x) => x,
        None => {
            return None;
        },
    };
    let head = if kind == 0x0800 {
        ipv4(payload.as_slice())
    } else if kind == 0x86dd {
        ipv6(payload.as_slice())
    } else {
        None
    };
    match head {
        Some(h) => Some(
            Flow {
                source: h.source,
                destination: h.destination,
                ports: l4_ports(h.protocol, h.payload.as_slice()),
            },
        ),
        None => None,
    }
}

// ---- accounting ----

/// The bytes of each process, received and sent, with the name of its program.
pub type Cum = HashMap<u32, (String, u64, u64)>;

/// Whether a frame with this source was sent from here.
pub open spec fn is_local(local: Seq<Ip>, source: Ip) -> bool {
    exists|i: int| 0 <= i < local.len() && #[trigger] local[i] == source
}

/// The process and the program that a frame is laid to: those with the local end of the
/// flow, or number 0 as `unknown`; a frame without ports is number 0 as `other`.
pub open spec fn laid_to(f: Flow, known: Known, up: bool) -> (u32, Seq<char>) {
    match f.ports {
        Some((sp, dp)) => {
            let end = if up {
                (f.source, sp)
            } else {
                (f.destination, dp)
            };
            if known.ends.contains_key(end) {
                let pid = known.ends[end];
                (
                    pid,
                    if known.names.contains_key(pid) {
                        known.names[pid]
                    } else {
                        "?"@
                    },
                )
            } else {
                (0, "unknown"@)
            }
        },
        None => (0, "other"@),
    }
}

/// Whether a name stands for a program that is not known.
pub open spec fn is_unknown(name: Seq<char>) -> bool {
    name == "?"@ || name == "unknown"@ || name == "other"@
}

/// What is counted for a process so far.
pub open spec fn so_far(
    cum: Map<u32, (String, u64, u64)>,
    pid: u32,
    comm: Seq<char>,
) -> (Seq<char>, u64, u64) {
    if cum.contains_key(pid) {
        let e = cum[pid];
        (
            if is_unknown(e.0@) {
                comm
            } else {
                e.0@
            },
            e.1,
            e.2,
        )
    } else {
        (comm, 0, 0)
    }
}

/// Whether a frame was counted: its bytes as sent or as received by the process that it
/// is laid to, which takes the name of the program if it had none that is known; all
/// other processes as they were.
pub open spec fn is_accounted(
    after: Map<u32, (String, u64, u64)>,
    before: Map<u32, (String, u64, u64)>,
    f: Flow,
    bytes: int,
    known: Known,
    up: bool,
) -> bool {
    let (pid, comm) = laid_to(f, known, up);
    let was = so_far(before, pid, comm);
    &&& after.contains_key(pid)
    &&& after == before.insert(pid, after[pid])
    &&& after[pid].0@ == was.0
    &&& after[pid].1 == was.1 + if up {
        0
    } else {
        bytes
    }
    &&& after[pid].2 == was.2 + if up {
        bytes
    } else {
        0
    }
}

/// Whether the count that a frame adds to can take its bytes.
pub open spec fn has_room(
    cum: Map<u32, (String, u64, u64)>,
    f: Flow,
    bytes: int,
    known: Known,
    up: bool,
) -> bool {
    let (pid, comm) = laid_to(f, known, up);
    let was = so_far(cum, pid, comm);
    if up {
        was.2 + bytes <= u64::MAX
    } else {
        was.1 + bytes <= u64::MAX
    }
}

fn among_local(local: &[Ip], source: Ip) -> (r: bool)
    ensures
        r == is_local(local@, source),
{
    let mut i: usize = 0;
    while i < local.len()
        invariant
            i <= local.len(),
            forall|k: int| 0 <= k < i ==> #[trigger] local@[k] != source,
        decreases local.len() - i,
    {
        if local[i] == source {
            return true;
        }
        i = i + 1;
    }
    false
}

fn owner(f: &Flow, owners: &Owners, up: bool) -> (r: (u32, String))
    ensures
        (r.0, r.1@) == laid_to(*f, owners.known(), up),
{
    match f.ports {
        Some((sp, dp)) => {
            let (ip, port) = if up {
                (f.source, sp)
            } else {
                (f.destination, dp)
            };
            match find_end(&owners.by_ep, ip, port) {
                Some(pid) => match owners.comm.get(&pid) {
                    Some(name) => (pid, name.clone()),
                    None => (pid, "?".to_owned()),
                },
                None => (0, "unknown".to_owned()),
            }
        },
        None => (0, "other".to_owned()),
    }
}

/// Counts a frame. False, and nothing done, where the count of its process has no room
/// for it; a frame that is neither IPv4 nor IPv6 counts for nothing.
pub fn account(frame: &[u8], owners: &Owners, local: &[Ip], cum: &mut Cum) -> (ok: bool)
    ensures
        is_counted(final(cum)@, old(cum)@, frame@, owners.known(), local@, ok),
        match flow_of(frame@) {
            None => ok && final(cum)@ == old(cum)@,
            Some(f) => {
                let up = is_local(local@, f.source);
                let bytes = frame@.len() as int;
                &&& ok == has_room(old(cum)@, f, bytes, owners.known(), up)
                &&& ok ==> is_accounted(
                    final(cum)@,
                    old(cum)@,
                    f,
                    bytes,
                    owners.known(),
                    up,
                )
                &&& !ok ==> final(cum)@ == old(cum)@
            },
        },
{
    let f = match read_flow(frame) {
        Some(f) => f,
        None => {
            return true;
        },
    };
    let bytes = frame.len() as u64;
    let up = among_local(local, f.source);
    let (pid, comm) = owner(&f, owners, up);
    let (name, rx, tx): (String, u64, u64) = match cum.get(&pid) {
        Some(e) => {
            let known = e.0.as_str();
            if same_text(known, "?") || same_text(known, "unknown") || same_text(known, "other") {
                (comm, e.1, e.2)
            } else {
                (e.0.clone(), e.1, e.2)
            }
        },
        None => (comm, 0, 0),
    };
    let (rx, tx): (u64, u64) = if up {
        match tx.checked_add(bytes) {
            Some(n) => (rx, n),
            None => {
                return false;
            },
        }
    } else {
        match rx.checked_add(bytes) {
            Some(n) => (n, tx),
            None => {
                return false;
            },
        }
    };
    cum.insert(pid, (name, rx, tx));
    true
}

/// Every frame that is counted adds its length, once, to one count of one process.
pub proof fn a_frame_counts_once(
    after: Map<u32, (String, u64, u64)>,
    before: Map<u32, (String, u64, u64)>,
    f: Flow,
    bytes: int,
    known: Known,
    up: bool,
)
    requires
        is_accounted(after, before, f, bytes, known, up),
    ensures
        ({
            let pid = laid_to(f, known, up).0;
            let had = if before.contains_key(pid) {
                before[pid].1 + before[pid].2
            } else {
                0
            };
            &&& after[pid].1 + after[pid].2 == had + bytes
            &&& forall|k: u32|
                k != pid ==> (after.contains_key(k) <==> before.contains_key(k)) && (
                before.contains_key(k) ==> after[k] == before[k])
        }),
{
}

// ---- the recorder ----

/// The bytes that some counts hold for a program, received and sent.
pub open spec fn program_bytes(v: Seq<AppBytes>, name: Seq<char>) -> (int, int)
    decreases v.len(),
{
    if v.len() == 0 {
        (0, 0)
    } else {
        let before = program_bytes(v.drop_last(), name);
        if v.last().comm@ == name {
            (before.0 + v.last().rx, before.1 + v.last().tx)
        } else {
            before
        }
    }
}

/// The bytes that some counts hold in all, received and sent.
pub open spec fn all_bytes(v: Seq<AppBytes>) -> (int, int)
    decreases v.len(),
{
    if v.len() == 0 {
        (0, 0)
    } else {
        let before = all_bytes(v.drop_last());
        (before.0 + v.last().rx, before.1 + v.last().tx)
    }
}

/// Whether no program is counted twice.
pub open spec fn programs_differ(v: Seq<AppBytes>) -> bool {
    forall|i: int, j: int| 0 <= i < j < v.len() ==> v[i].comm@ != v[j].comm@
}

proof fn program_bytes_update(v: Seq<AppBytes>, i: int, a: AppBytes, name: Seq<char>)
    requires
        0 <= i < v.len(),
        v[i].comm@ == a.comm@,
    ensures
        program_bytes(v.update(i, a), name) == if name == a.comm@ {
            (
                program_bytes(v, name).0 - v[i].rx + a.rx,
                program_bytes(v, name).1 - v[i].tx + a.tx,
            )
        } else {
            program_bytes(v, name)
        },
        all_bytes(v.update(i, a)) == (
            all_bytes(v).0 - v[i].rx + a.rx,
            all_bytes(v).1 - v[i].tx + a.tx,
        ),
    decreases v.len(),
{
    let changed = v.update(i, a);
    if i == v.len() - 1 {
        assert(changed.drop_last() =~= v.drop_last());
    } else {
        program_bytes_update(v.drop_last(), i, a, name);
        assert(changed.drop_last() =~= v.drop_last().update(i, a));
    }
}

/// Adds the bytes of one process to the count of its program. False, and nothing done,
/// where a count has no room for them.
fn fold_one(totals: &mut Vec<AppBytes>, app: AppBytes) -> (ok: bool)
    requires
        programs_differ(old(totals)@),
    ensures
        programs_differ(final(totals)@),
        !ok ==> final(totals)@ == old(totals)@,
        ok ==> forall|name: Seq<char>|
            #[trigger] program_bytes(final(totals)@, name) == if name == app.comm@ {
                (
                    program_bytes(old(totals)@, name).0 + app.rx,
                    program_bytes(old(totals)@, name).1 + app.tx,
                )
            } else {
                program_bytes(old(totals)@, name)
            },
        ok ==> all_bytes(final(totals)@) == (
            all_bytes(old(totals)@).0 + app.rx,
            all_bytes(old(totals)@).1 + app.tx,
        ),
        !ok ==> {
            ||| program_bytes(old(totals)@, app.comm@).0 + app.rx > u64::MAX
            ||| program_bytes(old(totals)@, app.comm@).1 + app.tx > u64::MAX
        },
{
    let mut i: usize = 0;
    while i < totals.len()
        invariant
            i <= totals.len(),
            totals@ == old(totals)@,
            programs_differ(totals@),
            forall|k: int| 0 <= k < i ==> (#[trigger] totals@[k]).comm@ != app.comm@,
        decreases totals.len() - i,
    {
        if same_text(totals[i].comm.as_str(), app.comm.as_str()) {
            proof {
                program_alone(totals@, i as int);
            }
            match (totals[i].rx.checked_add(app.rx), totals[i].tx.checked_add(app.tx)) {
                (Some(rx), Some(tx)) => {
                    let sum = AppBytes { comm: app.comm, rx, tx };
                    proof {
                        program_bytes_update(totals@, i as int, sum, sum.comm@);
                        assert forall|name: Seq<char>| #[trigger]
                            program_bytes(totals@.update(i as int, sum), name) == if name
                            == sum.comm@ {
                            (
                                program_bytes(totals@, name).0 + app.rx,
                                program_bytes(totals@, name).1 + app.tx,
                            )
                        } else {
                            program_bytes(totals@, name)
                        } by {
                            program_bytes_update(totals@, i as int, sum, name);
                        }
                    }
                    totals.set(i, sum);
                    return true;
                },
                _ => {
                    return false;
                },
            }
        }
        i = i + 1;
    }
    totals.push(app);
    assert(totals@.drop_last() =~= old(totals)@);
    true
}

proof fn program_alone(v: Seq<AppBytes>, i: int)
    requires
        0 <= i < v.len(),
        programs_differ(v),
    ensures
        program_bytes(v, v[i].comm@) == (v[i].rx as int, v[i].tx as int),
    decreases v.len(),
{
    let fewer = v.drop_last();
    let name = v[i].comm@;
    if i == v.len() - 1 {
        assert forall|k: int| 0 <= k < fewer.len() implies (#[trigger] fewer[k]).comm@ != name by {
            assert(v[k].comm@ != v[i].comm@);
        }
        program_absent(fewer, name);
    } else {
        assert(v[i].comm@ != v[v.len() - 1].comm@);
        assert(fewer[i] == v[i]);
        program_alone(fewer, i);
    }
}

proof fn program_absent(v: Seq<AppBytes>, name: Seq<char>)
    requires
        forall|k: int| 0 <= k < v.len() ==> (#[trigger] v[k]).comm@ != name,
    ensures
        program_bytes(v, name) == (0int, 0int),
    decreases v.len(),
{
    if v.len() > 0 {
        assert(v[v.len() - 1].comm@ != name);
        assert forall|k: int| 0 <= k < v.drop_last().len() implies (#[trigger] v.drop_last()[k]).comm@
            != name by {
            assert(v[k].comm@ != name);
        }
        program_absent(v.drop_last(), name);
    }
}

/// Adds the bytes of some processes, in whatever order they come, to the counts of their
/// programs: every program has gained what its processes had, and no byte is lost. False
/// where a count has no room.
pub fn fold(totals: &mut Vec<AppBytes>, scratch: Vec<AppBytes>) -> (ok: bool)
    requires
        programs_differ(old(totals)@),
    ensures
        programs_differ(final(totals)@),
        ok ==> forall|name: Seq<char>|
            #[trigger] program_bytes(final(totals)@, name) == (
                program_bytes(old(totals)@, name).0 + program_bytes(scratch@, name).0,
                program_bytes(old(totals)@, name).1 + program_bytes(scratch@, name).1,
            ),
        ok ==> all_bytes(final(totals)@) == (
            all_bytes(old(totals)@).0 + all_bytes(scratch@).0,
            all_bytes(old(totals)@).1 + all_bytes(scratch@).1,
        ),
        (forall|name: Seq<char>|
            (#[trigger] program_bytes(old(totals)@, name)).0 + program_bytes(scratch@, name).0
                <= u64::MAX && program_bytes(old(totals)@, name).1 + program_bytes(
                scratch@,
                name,
            ).1 <= u64::MAX) ==> ok,
{
    let mut rest = scratch;
    let ghost mut done: Seq<AppBytes> = Seq::empty();
    let ghost start = totals@;
    assert(done + rest@ =~= scratch@);
    while rest.len() > 0
        invariant
            programs_differ(totals@),
            start == old(totals)@,
            done + rest@ == scratch@,
            forall|name: Seq<char>|
                #[trigger] program_bytes(totals@, name) == (
                    program_bytes(start, name).0 + program_bytes(done, name).0,
                    program_bytes(start, name).1 + program_bytes(done, name).1,
                ),
            all_bytes(totals@) == (
                all_bytes(start).0 + all_bytes(done).0,
                all_bytes(start).1 + all_bytes(done).1,
            ),
        decreases rest.len(),
    {
        let app = rest.remove(0);
        let ghost next = done.push(app);
        proof {
            assert(next + rest@ =~= scratch@);
            assert(next.drop_last() =~= done);
        }
        if !fold_one(totals, app) {
            proof {
                let name = app.comm@;
                program_bytes_grow(next, rest@, name);
                assert(program_bytes(totals@, name).0 == program_bytes(start, name).0
                    + program_bytes(done, name).0);
            }
            return false;
        }
        proof {
            done = next;
        }
    }
    assert(done =~= scratch@);
    true
}

proof fn program_bytes_grow(a: Seq<AppBytes>, b: Seq<AppBytes>, name: Seq<char>)
    ensures
        program_bytes(a, name).0 <= program_bytes(a + b, name).0,
        program_bytes(a, name).1 <= program_bytes(a + b, name).1,
    decreases b.len(),
{
    if b.len() == 0 {
        assert(a + b =~= a);
    } else {
        program_bytes_grow(a, b.drop_last(), name);
        assert((a + b).drop_last() =~= a + b.drop_last());
        assert((a + b).last() == b.last());
    }
}

/// Whether an interface is listened on: it is up, no loopback, and not left out.
pub fn eligible(exclude: &Vec<String>, name: &str, up: bool, loopback: bool) -> (r: bool)
    ensures
        r == (up && !loopback && !matches_any(exclude@, name@)),
{
    up && !loopback && !matches_one(exclude, name)
}

/// The seconds to wait before the interfaces are opened anew: five after one of them has
/// died, thirty where none could be opened; nothing while all is well.
pub fn receiver_wait(open: usize, died: bool) -> (r: Option<u64>)
    ensures
        r == if died {
            Some(5u64)
        } else if open == 0 {
            Some(30u64)
        } else {
            None
        },
{
    if died {
        Some(5)
    } else if open == 0 {
        Some(30)
    } else {
        None
    }
}

/// Whether the socket tables are to be read again: more than 15 seconds after the last
/// time.
pub fn snapshot_due(secs: u64, nanos: u32) -> (r: bool)
    ensures
        r == longer_than(secs, nanos, 15),
{
    secs > 15 || (secs == 15 && nanos > 0)
}

/// Whether the counts of the processes are to be added to those of the programs: more
/// than a second after the last time, or with more than 5000 processes.
pub fn flush_due(secs: u64, nanos: u32, processes: usize) -> (r: bool)
    ensures
        r == (longer_than(secs, nanos, 1) || processes > 5000),
{
    secs > 1 || (secs == 1 && nanos > 0) || processes > 5000
}

// ---- every socket is known ----

/// The local end that a line of a socket table names, where it names one.
pub open spec fn line_end(line: Seq<char>, v6: bool) -> Option<(Ip, u16)> {
    if fields(line).len() >= 10 {
        local_end(fields(line)[1], v6)
    } else {
        None
    }
}

/// The socket that a line of a socket table names, where it names one.
pub open spec fn line_socket(line: Seq<char>) -> Option<int> {
    if fields(line).len() >= 10 {
        unsigned_value(fields(line)[9], 10, u64::MAX as int)
    } else {
        None
    }
}

/// Whether a line names a local end, and a socket that belongs to a process.
pub open spec fn names_owner(
    line: Seq<char>,
    v6: bool,
    owned: Map<u64, (u32, Seq<char>)>,
    end: (Ip, u16),
    n: int,
) -> bool {
    line_end(line, v6) == Some(end) && line_socket(line) == Some(n) && 0 < n <= u64::MAX
        && owned.contains_key(n as u64)
}

/// What was known of a local end stays known while lines are read, and unchanged where no
/// line names that end.
pub proof fn lines_forget_nothing(
    known: Known,
    some: Seq<Seq<char>>,
    v6: bool,
    owned: Map<u64, (u32, Seq<char>)>,
    end: (Ip, u16),
)
    requires
        known.ends.contains_key(end),
    ensures
        know_lines(known, some, v6, owned).ends.contains_key(end),
        (forall|k: int| 0 <= k < some.len() ==> line_end(#[trigger] some[k], v6) != Some(end))
            ==> know_lines(known, some, v6, owned).ends[end] == known.ends[end],
    decreases some.len(),
{
    if some.len() > 0 {
        let fewer = some.drop_last();
        lines_forget_nothing(known, fewer, v6, owned, end);
        if forall|k: int| 0 <= k < some.len() ==> line_end(#[trigger] some[k], v6) != Some(end) {
            assert forall|k: int| 0 <= k < fewer.len() implies line_end(
                #[trigger] fewer[k],
                v6,
            ) != Some(end) by {
                assert(fewer[k] == some[k]);
            }
            assert(line_end(some[some.len() - 1], v6) != Some(end));
        }
    }
}

/// A line that names a local end and an owned socket makes the end known, as that of the
/// owner where no later line names it.
pub proof fn lines_are_learnt(
    known: Known,
    some: Seq<Seq<char>>,
    v6: bool,
    owned: Map<u64, (u32, Seq<char>)>,
    k: int,
    end: (Ip, u16),
    n: int,
)
    requires
        0 <= k < some.len(),
        names_owner(some[k], v6, owned, end, n),
    ensures
        know_lines(known, some, v6, owned).ends.contains_key(end),
        (forall|j: int| k < j < some.len() ==> line_end(#[trigger] some[j], v6) != Some(end))
            ==> know_lines(known, some, v6, owned).ends[end] == owned[n as u64].0,
    decreases some.len(),
{
    let fewer = some.drop_last();
    if k < some.len() - 1 {
        assert(fewer[k] == some[k]);
        lines_are_learnt(known, fewer, v6, owned, k, end, n);
        if forall|j: int| k < j < some.len() ==> line_end(#[trigger] some[j], v6) != Some(end) {
            assert forall|j: int| k < j < fewer.len() implies line_end(
                #[trigger] fewer[j],
                v6,
            ) != Some(end) by {
                assert(fewer[j] == some[j]);
            }
            assert(line_end(some[some.len() - 1], v6) != Some(end));
        }
    }
}

/// Every line below the heading of every table that names a local end and an owned socket
/// makes the end known, whatever tables follow; where no later line of any table names the
/// end, it is that of the process that owns the socket.
#[verifier::spinoff_prover]
pub proof fn every_socket_is_known(
    tables: Seq<SocketTable>,
    owned: Map<u64, (u32, Seq<char>)>,
    t: int,
    k: int,
    end: (Ip, u16),
    n: int,
)
    requires
        0 <= t < tables.len(),
        0 <= k < body_lines(tables[t].text@).len(),
        names_owner(body_lines(tables[t].text@)[k], tables[t].v6, owned, end, n),
    ensures
        know_tables(tables, owned).ends.contains_key(end),
        (forall|u: int, j: int|
            t <= u < tables.len() && 0 <= j < body_lines(tables[u].text@).len() && (u > t || j > k)
                ==> line_end(#[trigger] body_lines(tables[u].text@)[j], tables[u].v6) != Some(end))
            ==> know_tables(tables, owned).ends[end] == owned[n as u64].0,
    decreases tables.len(),
{
    let fewer = tables.drop_last();
    let last = tables.len() - 1;
    let before = know_tables(fewer, owned);
    let body = body_lines(tables[last].text@);
    let later = forall|u: int, j: int|
        t <= u < tables.len() && 0 <= j < body_lines(tables[u].text@).len() && (u > t || j > k)
            ==> line_end(#[trigger] body_lines(tables[u].text@)[j], tables[u].v6) != Some(end);
    if t == last {
        lines_are_learnt(before, body, tables[last].v6, owned, k, end, n);
        if later {
            assert forall|j: int| k < j < body.len() implies line_end(
                #[trigger] body[j],
                tables[last].v6,
            ) != Some(end) by {
                assert(body_lines(tables[last].text@)[j] == body[j]);
            }
        }
    } else {
        assert(fewer[t] == tables[t]);
        every_socket_is_known(fewer, owned, t, k, end, n);
        lines_forget_nothing(before, body, tables[last].v6, owned, end);
        if later {
            assert forall|u: int, j: int|
                t <= u < fewer.len() && 0 <= j < body_lines(fewer[u].text@).len() && (u > t || j
                    > k) implies line_end(
                #[trigger] body_lines(fewer[u].text@)[j],
                fewer[u].v6,
            ) != Some(end) by {
                assert(fewer[u] == tables[u]);
                assert(body_lines(tables[u].text@)[j] == body_lines(fewer[u].text@)[j]);
            }
            assert forall|j: int| 0 <= j < body.len() implies line_end(
                #[trigger] body[j],
                tables[last].v6,
            ) != Some(end) by {
                assert(body_lines(tables[last].text@)[j] == body[j]);
            }
        }
    }
}

/// Whether a line of some table names a local end and a socket of a process.
pub open spec fn some_line_names(
    tables: Seq<SocketTable>,
    owned: Map<u64, (u32, Seq<char>)>,
    end: (Ip, u16),
    pid: u32,
) -> bool {
    exists|t: int, k: int, n: int|
        0 <= t < tables.len() && 0 <= k < body_lines(tables[t].text@).len() && #[trigger]
        names_owner(body_lines(tables[t].text@)[k], tables[t].v6, owned, end, n)
            && owned[n as u64].0 == pid
}

proof fn known_lines_are_named(
    known: Known,
    some: Seq<Seq<char>>,
    v6: bool,
    owned: Map<u64, (u32, Seq<char>)>,
    end: (Ip, u16),
)
    requires
        know_lines(known, some, v6, owned).ends.contains_key(end),
    ensures
        ({
            let pid = know_lines(known, some, v6, owned).ends[end];
            ||| known.ends.contains_key(end) && known.ends[end] == pid
            ||| exists|k: int, n: int|
                0 <= k < some.len() && #[trigger] names_owner(some[k], v6, owned, end, n)
                    && owned[n as u64].0 == pid
        }),
    decreases some.len(),
{
    if some.len() > 0 {
        let fewer = some.drop_last();
        let last = some[some.len() - 1];
        let all = know_lines(known, some, v6, owned);
        let before = know_lines(known, fewer, v6, owned);
        if before.ends.contains_key(end) && before.ends[end] == all.ends[end] {
            known_lines_are_named(known, fewer, v6, owned, end);
            let pid = all.ends[end];
            if !(known.ends.contains_key(end) && known.ends[end] == pid) {
                let (k, n) = choose|k: int, n: int|
                    0 <= k < fewer.len() && #[trigger] names_owner(fewer[k], v6, owned, end, n)
                        && owned[n as u64].0 == pid;
                assert(names_owner(some[k], v6, owned, end, n));
            }
        } else {
            let n = line_socket(last)->0;
            digits_are_not_negative(fields(last)[9], 10, u64::MAX as int);
            assert(names_owner(last, v6, owned, end, n));
        }
    }
}

proof fn digits_are_not_negative(s: Seq<char>, radix: int, max: int)
    requires
        radix == 10,
    ensures
        unsigned_value(s, radix, max) matches Some(n) ==> 0 <= n <= max,
{
    let t = if s.len() > 0 && s[0] == '+' {
        s.drop_first()
    } else {
        s
    };
    values_are_not_negative(t, radix);
}

/// No local end is known that no line of a table names with a socket of that process.
pub proof fn only_named_sockets_are_known(
    tables: Seq<SocketTable>,
    owned: Map<u64, (u32, Seq<char>)>,
    end: (Ip, u16),
)
    requires
        know_tables(tables, owned).ends.contains_key(end),
    ensures
        some_line_names(tables, owned, end, know_tables(tables, owned).ends[end]),
    decreases tables.len(),
{
    if tables.len() > 0 {
        let fewer = tables.drop_last();
        let last = tables.len() - 1;
        let before = know_tables(fewer, owned);
        let body = body_lines(tables[last].text@);
        let pid = know_tables(tables, owned).ends[end];
        known_lines_are_named(before, body, tables[last].v6, owned, end);
        if before.ends.contains_key(end) && before.ends[end] == pid {
            only_named_sockets_are_known(fewer, owned, end);
            let (t, k, n) = choose|t: int, k: int, n: int|
                0 <= t < fewer.len() && 0 <= k < body_lines(fewer[t].text@).len() && #[trigger]
                names_owner(body_lines(fewer[t].text@)[k], fewer[t].v6, owned, end, n)
                    && owned[n as u64].0 == pid;
            assert(fewer[t] == tables[t]);
            assert(names_owner(body_lines(tables[t].text@)[k], tables[t].v6, owned, end, n));
        } else {
            let (k, n) = choose|k: int, n: int|
                0 <= k < body.len() && #[trigger] names_owner(
                    body[k],
                    tables[last].v6,
                    owned,
                    end,
                    n,
                ) && owned[n as u64].0 == pid;
            assert(names_owner(body_lines(tables[last].text@)[k], tables[last].v6, owned, end, n));
        }
    }
}

/// Whether every process that is known by a local end has a name, which is that of one of
/// its sockets.
pub open spec fn ends_are_named(known: Known, owned: Map<u64, (u32, Seq<char>)>) -> bool {
    &&& forall|end: (Ip, u16)|
        #[trigger] known.ends.contains_key(end) ==> known.names.contains_key(known.ends[end])
    &&& forall|pid: u32|
        #[trigger] known.names.contains_key(pid) ==> is_name_of(known.names[pid], pid, owned)
}

/// Whether a name is that of a process that owns a socket.
pub open spec fn is_name_of(
    name: Seq<char>,
    pid: u32,
    owned: Map<u64, (u32, Seq<char>)>,
) -> bool {
    exists|n: u64| #[trigger] owned.contains_key(n) && owned[n] == (pid, name)
}

proof fn lines_keep_names(
    known: Known,
    some: Seq<Seq<char>>,
    v6: bool,
    owned: Map<u64, (u32, Seq<char>)>,
)
    requires
        ends_are_named(known, owned),
    ensures
        ends_are_named(know_lines(known, some, v6, owned), owned),
    decreases some.len(),
{
    if some.len() > 0 {
        let before = know_lines(known, some.drop_last(), v6, owned);
        let all = know_lines(known, some, v6, owned);
        lines_keep_names(known, some.drop_last(), v6, owned);
        assert forall|pid: u32| #[trigger] all.names.contains_key(pid) implies is_name_of(
            all.names[pid],
            pid,
            owned,
        ) by {
            if before.names.contains_key(pid) {
                assert(all.names[pid] == before.names[pid]);
            } else {
                let n = line_socket(some.last())->0 as u64;
                assert(owned.contains_key(n));
            }
        }
        assert forall|end: (Ip, u16)| #[trigger] all.ends.contains_key(
            end,
        ) implies all.names.contains_key(all.ends[end]) by {
            if before.ends.contains_key(end) && before.ends[end] == all.ends[end] {
                assert(before.names.contains_key(before.ends[end]));
            }
        }
    }
}

/// Every process that is known by a local end has a name, which is that of one of its
/// sockets.
pub proof fn known_processes_have_names(
    tables: Seq<SocketTable>,
    owned: Map<u64, (u32, Seq<char>)>,
)
    ensures
        ends_are_named(know_tables(tables, owned), owned),
    decreases tables.len(),
{
    if tables.len() > 0 {
        let t = tables.last();
        known_processes_have_names(tables.drop_last(), owned);
        lines_keep_names(
            know_tables(tables.drop_last(), owned),
            body_lines(t.text@),
            t.v6,
            owned,
        );
    }
}

/// The heading of a socket table counts for nothing, and every line below it is read.
pub proof fn the_heading_is_left_out(heading: Seq<char>, body: Seq<char>)
    requires
        !heading.contains('\n'),
    ensures
        body_lines(heading + seq!['\n'] + body) == lines(body),
{
    a_line_feed_ends_a_line(heading, body);
    let all = lines(heading + seq!['\n'] + body);
    if all.len() > 1 {
        assert(all.skip(1) =~= lines(body));
    } else {
        assert(lines(body) =~= Seq::empty());
    }
}

// ---- every socket has its owner ----

/// Whether a process has a file descriptor that leads to a socket.
pub open spec fn has_socket(p: Process, n: u64) -> bool {
    exists|j: int| 0 <= j < p.links@.len() && socket_number((#[trigger] p.links@[j])@) == Some(n)
}

proof fn claims(
    owned: Map<u64, (u32, Seq<char>)>,
    links: Seq<String>,
    pid: u32,
    comm: Seq<char>,
    n: u64,
)
    ensures
        ({
            let all = claim_links(owned, links, pid, comm);
            let linked = exists|j: int|
                0 <= j < links.len() && socket_number((#[trigger] links[j])@) == Some(n);
            &&& all.contains_key(n) <==> owned.contains_key(n) || linked
            &&& owned.contains_key(n) ==> all[n] == owned[n]
            &&& !owned.contains_key(n) && linked ==> all[n] == (pid, comm)
        }),
    decreases links.len(),
{
    if links.len() > 0 {
        let fewer = links.drop_last();
        claims(owned, fewer, pid, comm, n);
        if exists|j: int| 0 <= j < fewer.len() && socket_number((#[trigger] fewer[j])@) == Some(n) {
            let j = choose|j: int|
                0 <= j < fewer.len() && socket_number((#[trigger] fewer[j])@) == Some(n);
            assert(links[j] == fewer[j]);
        }
        if exists|j: int| 0 <= j < links.len() && socket_number((#[trigger] links[j])@) == Some(n) {
            let j = choose|j: int|
                0 <= j < links.len() && socket_number((#[trigger] links[j])@) == Some(n);
            if j < fewer.len() {
                assert(fewer[j] == links[j]);
            }
        }
        assert(socket_number(links.last()@) == Some(n) ==> socket_number(
            links[links.len() - 1]@,
        ) == Some(n));
    }
}

/// A socket belongs to the first process that has it, under the process's name without the
/// white space around it; a socket that no process has belongs to none.
#[verifier::spinoff_prover]
pub proof fn sockets_belong_to_the_first_process(processes: Seq<Process>, n: u64)
    ensures
        socket_owners(processes).contains_key(n) <==> exists|i: int|
            0 <= i < processes.len() && has_socket(#[trigger] processes[i], n),
        forall|i: int|
            0 <= i < processes.len() && has_socket(#[trigger] processes[i], n) && (forall|j: int|
                0 <= j < i ==> !has_socket(#[trigger] processes[j], n)) ==> socket_owners(
                processes,
            )[n] == (processes[i].pid, trimmed(processes[i].comm@)),
    decreases processes.len(),
{
    if processes.len() > 0 {
        let fewer = processes.drop_last();
        let last = processes.len() - 1;
        let p = processes[last];
        sockets_belong_to_the_first_process(fewer, n);
        claims(socket_owners(fewer), p.links@, p.pid, trimmed(p.comm@), n);
        if exists|i: int| 0 <= i < fewer.len() && has_socket(#[trigger] fewer[i], n) {
            let i = choose|i: int| 0 <= i < fewer.len() && has_socket(#[trigger] fewer[i], n);
            assert(has_socket(processes[i], n));
        }
        if exists|i: int| 0 <= i < processes.len() && has_socket(#[trigger] processes[i], n) {
            let i = choose|i: int|
                0 <= i < processes.len() && has_socket(#[trigger] processes[i], n);
            if i < last {
                assert(has_socket(fewer[i], n));
            }
        }
        assert(has_socket(p, n) ==> has_socket(processes[last], n));
        assert forall|i: int|
            0 <= i < processes.len() && has_socket(#[trigger] processes[i], n) && (forall|j: int|
                0 <= j < i ==> !has_socket(
                    #[trigger] processes[j],
                    n,
                )) implies socket_owners(processes)[n] == (
            processes[i].pid,
            trimmed(processes[i].comm@),
        ) by {
            if i < last {
                assert(has_socket(fewer[i], n));
                assert forall|j: int| 0 <= j < i implies !has_socket(#[trigger] fewer[j], n) by {
                    assert(!has_socket(processes[j], n));
                }
            } else {
                if socket_owners(fewer).contains_key(n) {
                    let j = choose|j: int|
                        0 <= j < fewer.len() && has_socket(#[trigger] fewer[j], n);
                    assert(!has_socket(processes[j], n));
                }
            }
        }
    }
}

/// A link to a socket names its number, and nothing else does.
#[verifier::spinoff_prover]
pub proof fn links_name_their_socket(n: u64, link: Seq<char>)
    ensures
        socket_number("socket:["@ + decimal(n as nat) + "]"@) == Some(n),
        socket_number(link) is Some ==> link.len() > 9 && starts_with(link, "socket:["@)
            && link.last() == ']',
{
    reveal_strlit("socket:[");
    reveal_strlit("]");
    numbers_are_read_back(n as nat, u64::MAX as int);
    let whole = "socket:["@ + decimal(n as nat) + "]"@;
    assert(whole.take("socket:["@.len() as int) =~= "socket:["@);
    let rest = whole.skip("socket:["@.len() as int);
    assert(rest =~= decimal(n as nat) + "]"@);
    assert(rest.drop_last() =~= decimal(n as nat));
    if socket_number(link) is Some {
        let tail = link.skip("socket:["@.len() as int);
        assert(tail.last() == link.last());
        only_digits_are_numbers(tail.drop_last(), 10, u64::MAX as int);
    }
}

/// The kernel's word for an address has its bytes in reverse: what stands last is the first
/// byte of the address.
pub proof fn words_are_turned_round(a: int, b: int, c: int, d: int)
    requires
        0 <= a < 256,
        0 <= b < 256,
        0 <= c < 256,
        0 <= d < 256,
    ensures
        swapped(a * 0x100_0000 + b * 0x1_0000 + c * 0x100 + d) == d * 0x100_0000 + c * 0x1_0000 + b
            * 0x100 + a,
{
    let n = a * 0x100_0000 + b * 0x1_0000 + c * 0x100 + d;
    assert(n % 0x100 == d);
    assert(n / 0x100 == a * 0x1_0000 + b * 0x100 + c);
    assert(n / 0x100 % 0x100 == c);
    assert(n / 0x1_0000 == a * 0x100 + b);
    assert(n / 0x1_0000 % 0x100 == b);
    assert(n / 0x100_0000 == a);
}

/// A local end is what stands before the first colon as the address, and what stands behind
/// it as the port, in hexadecimal digits.
pub proof fn ends_are_address_and_port(address: Seq<char>, port: Seq<char>, v6: bool)
    requires
        !address.contains(':'),
    ensures
        ({
            let end = local_end(address + seq![':'] + port, v6);
            let n = unsigned_value(port, 16, 0xffff);
            &&& end is Some <==> n is Some && address_of(address, v6) is Some
            &&& end matches Some(e) ==> address_of(address, v6) == Some(e.0) && n == Some(
                e.1 as int,
            )
        }),
{
    let s = address + seq![':'] + port;
    place_of_is_first(s, ':');
    let p = place_of(s, ':') as int;
    if p < address.len() {
        assert(address.contains(address[p]));
    }
    if p > address.len() {
        assert(s[address.len() as int] == ':');
    }
    assert(s.take(p) =~= address);
    assert(s.skip(p + 1) =~= port);
    values_are_not_negative(
        if port.len() > 0 && port[0] == '+' {
            port.drop_first()
        } else {
            port
        },
        16,
    );
}

// ---- what a frame tells ----

/// A frame of IPv4 with TCP or UDP tells the addresses and ports that stand in its bytes,
/// the source before the destination: the addresses from byte 26 on, the ports behind the
/// header, however many options it has. A payload that is too short for its protocol has no
/// ports, nor has another protocol.
#[verifier::spinoff_prover]
pub proof fn an_ipv4_frame_tells_its_ends(frame: Seq<u8>, header: int)
    requires
        frame.len() >= 34,
        frame[12] == 8 && frame[13] == 0,
        header == frame[14] % 16 * 4,
        20 <= header,
        frame.len() >= 14 + header + 20,
    ensures
        ({
            let byte = |i: int| frame[i] as int;
            let len = byte(16) * 256 + byte(17) - header;
            let full = (byte(23) == 6 && len >= 20) || (byte(23) == 17 && len >= 8);
            flow_of(frame) == Some(
                Flow {
                    source: Ip::V4(
                        (byte(26) * 0x100_0000 + byte(27) * 0x1_0000 + byte(28) * 0x100 + byte(
                            29,
                        )) as u32,
                    ),
                    destination: Ip::V4(
                        (byte(30) * 0x100_0000 + byte(31) * 0x1_0000 + byte(32) * 0x100 + byte(
                            33,
                        )) as u32,
                    ),
                    ports: if full {
                        Some(
                            (
                                (byte(14 + header) * 256 + byte(15 + header)) as u16,
                                (byte(16 + header) * 256 + byte(17 + header)) as u16,
                            ),
                        )
                    } else {
                        None
                    },
                },
            )
        }),
{
    let p = frame.skip(14);
    assert(forall|i: int| 0 <= i < p.len() ==> p[i] == frame[i + 14]);
    assert(v4_header(p) == header);
    let l4 = v4_payload(p);
    let len = frame[16] * 256 + frame[17] - header;
    if len >= 8 {
        assert(l4.len() >= 8);
        assert(l4[0] == frame[14 + header] && l4[1] == frame[15 + header]);
        assert(l4[2] == frame[16 + header] && l4[3] == frame[17 + header]);
        if len >= 20 {
            assert(l4.len() >= 20);
        } else {
            assert(l4.len() == len);
        }
    } else {
        assert(l4.len() < 8);
    }
}

/// A frame of IPv6 with UDP tells the addresses and ports that stand in its bytes: the
/// source before the destination.
#[verifier::spinoff_prover]
pub proof fn an_ipv6_frame_tells_its_ends(frame: Seq<u8>)
    requires
        frame.len() >= 62,
        frame[12] == 0x86 && frame[13] == 0xdd,
        frame[18] * 256 + frame[19] >= 8,
        frame[20] == 17,
    ensures
        flow_of(frame) matches Some(f) && {
            &&& f.source == Ip::V6(be128(frame, 22) as u128)
            &&& f.destination == Ip::V6(be128(frame, 38) as u128)
            &&& f.ports == Some(
                (
                    (frame[54] * 256 + frame[55]) as u16,
                    (frame[56] * 256 + frame[57]) as u16,
                ),
            )
        },
{
    let p = frame.skip(14);
    assert(forall|i: int| 0 <= i < p.len() ==> p[i] == frame[i + 14]);
    let l4 = window(p, 40, be16(p, 4));
    assert(l4[0] == frame[54] && l4[1] == frame[55] && l4[2] == frame[56] && l4[3] == frame[57]);
}

/// A frame that is neither of IPv4 nor of IPv6, or too short for its head, tells nothing.
pub proof fn other_frames_tell_nothing(frame: Seq<u8>)
    requires
        frame.len() < 34 || (frame[12] != 8 && frame[12] != 0x86) || (frame[12] == 8 && frame[13]
            != 0) || (frame[12] == 0x86 && frame[13] != 0xdd),
    ensures
        flow_of(frame) is None,
{
}

/// The number in sixteen bytes is each byte at its place, the first one highest.
pub proof fn bytes_make_an_address(b: Seq<u8>, at: int)
    ensures
        be32(b, at) == b[at] * 0x100_0000 + b[at + 1] * 0x1_0000 + b[at + 2] * 0x100 + b[at + 3],
        be128(b, at) == ((be32(b, at) * 0x1_0000_0000 + be32(b, at + 4)) * 0x1_0000_0000 + be32(
            b,
            at + 8,
        )) * 0x1_0000_0000 + be32(b, at + 12),
{
}

// ---- frames count for their programs ----

/// A frame that was sent from here counts as sent for the process that has the end it came
/// from, any other as received for the process that has the end it goes to; a frame whose
/// end nobody has counts for process 0.
pub proof fn frames_count_for_their_end(
    after: Map<u32, (String, u64, u64)>,
    before: Map<u32, (String, u64, u64)>,
    f: Flow,
    bytes: int,
    known: Known,
    up: bool,
    sp: u16,
    dp: u16,
)
    requires
        is_accounted(after, before, f, bytes, known, up),
        f.ports == Some((sp, dp)),
    ensures
        ({
            let end = if up {
                (f.source, sp)
            } else {
                (f.destination, dp)
            };
            let pid = if known.ends.contains_key(end) {
                known.ends[end]
            } else {
                0
            };
            let (rx, tx) = if before.contains_key(pid) {
                (before[pid].1, before[pid].2)
            } else {
                (0, 0)
            };
            &&& after.contains_key(pid)
            &&& up ==> after[pid].1 == rx && after[pid].2 == tx + bytes
            &&& !up ==> after[pid].1 == rx + bytes && after[pid].2 == tx
            &&& !known.ends.contains_key(end) && !before.contains_key(pid) ==> after[pid].0@
                == "unknown"@
            &&& known.ends.contains_key(end) && known.names.contains_key(pid)
                && !before.contains_key(pid) ==> after[pid].0@ == known.names[pid]
        }),
{
}

/// A frame without ports counts for process 0, and a program keeps the name it is known by.
pub proof fn frames_without_ports_count_too(
    after: Map<u32, (String, u64, u64)>,
    before: Map<u32, (String, u64, u64)>,
    f: Flow,
    bytes: int,
    known: Known,
    up: bool,
)
    requires
        is_accounted(after, before, f, bytes, known, up),
        f.ports is None,
    ensures
        after.contains_key(0),
        !before.contains_key(0) ==> after[0].0@ == "other"@ && after[0].1 + after[0].2 == bytes,
        before.contains_key(0) && before[0].0@ != "?"@ && before[0].0@ != "unknown"@
            && before[0].0@ != "other"@ ==> after[0].0@ == before[0].0@,
{
}

/// A frame finds room where the count that it adds to stays within 64 bits with it.
pub proof fn frames_find_room(
    cum: Map<u32, (String, u64, u64)>,
    f: Flow,
    bytes: int,
    known: Known,
    up: bool,
    sp: u16,
    dp: u16,
)
    requires
        f.ports == Some((sp, dp)),
    ensures
        ({
            let end = if up {
                (f.source, sp)
            } else {
                (f.destination, dp)
            };
            let pid = if known.ends.contains_key(end) {
                known.ends[end]
            } else {
                0
            };
            let (rx, tx) = if cum.contains_key(pid) {
                (cum[pid].1, cum[pid].2)
            } else {
                (0, 0)
            };
            &&& up ==> (has_room(cum, f, bytes, known, up) <==> tx + bytes <= u64::MAX)
            &&& !up ==> (has_room(cum, f, bytes, known, up) <==> rx + bytes <= u64::MAX)
        }),
{
}

/// A program that goes by a name keeps it, and one that does not takes the name of the
/// frame's owner.
pub proof fn known_names_are_kept(
    after: Map<u32, (String, u64, u64)>,
    before: Map<u32, (String, u64, u64)>,
    f: Flow,
    bytes: int,
    known: Known,
    up: bool,
    pid: u32,
    sp: u16,
    dp: u16,
)
    requires
        is_accounted(after, before, f, bytes, known, up),
        f.ports == Some((sp, dp)),
        before.contains_key(pid),
        known.ends.contains_key(
            if up {
                (f.source, sp)
            } else {
                (f.destination, dp)
            },
        ),
        known.ends[if up {
            (f.source, sp)
        } else {
            (f.destination, dp)
        }] == pid,
        known.names.contains_key(pid),
    ensures
        before[pid].0@ == "?"@ || before[pid].0@ == "unknown"@ || before[pid].0@ == "other"@
            ==> after[pid].0@ == known.names[pid],
        before[pid].0@ != "?"@ && before[pid].0@ != "unknown"@ && before[pid].0@ != "other"@
            ==> after[pid].0@ == before[pid].0@,
{
}

/// The last entry for a local end tells its process, and no end is known without one.
pub proof fn ends_are_found(v: Seq<Endpoint>, i: int, ip: Ip, port: u16)
    ensures
        0 <= i < v.len() && v[i].ip == ip && v[i].port == port && (forall|j: int|
            i < j < v.len() ==> (#[trigger] v[j]).ip != ip || v[j].port != port) ==> end_map(
            v,
        ).contains_key((ip, port)) && end_map(v)[(ip, port)] == v[i].pid,
        (forall|j: int| 0 <= j < v.len() ==> (#[trigger] v[j]).ip != ip || v[j].port != port)
            ==> !end_map(v).contains_key((ip, port)),
    decreases v.len(),
{
    if v.len() > 0 {
        let fewer = v.drop_last();
        let last = v.len() - 1;
        ends_are_found(fewer, i, ip, port);
        if 0 <= i < last && v[i].ip == ip && v[i].port == port && (forall|j: int|
            i < j < v.len() ==> (#[trigger] v[j]).ip != ip || v[j].port != port) {
            assert(v[last].ip != ip || v[last].port != port);
            assert(fewer[i] == v[i]);
            assert forall|j: int| i < j < fewer.len() implies (#[trigger] fewer[j]).ip != ip
                || fewer[j].port != port by {
                assert(fewer[j] == v[j]);
            }
        }
        if forall|j: int| 0 <= j < v.len() ==> (#[trigger] v[j]).ip != ip || v[j].port != port {
            assert(v[last].ip != ip || v[last].port != port);
            assert forall|j: int| 0 <= j < fewer.len() implies (#[trigger] fewer[j]).ip != ip
                || fewer[j].port != port by {
                assert(fewer[j] == v[j]);
            }
        }
    }
}

/// The bytes of counts and of more counts add up, for one program and for all; one count
/// holds its own, for its program and no other.
pub proof fn program_counts_add_up(
    a: Seq<AppBytes>,
    b: Seq<AppBytes>,
    app: AppBytes,
    name: Seq<char>,
)
    ensures
        program_bytes(a + b, name).0 == program_bytes(a, name).0 + program_bytes(b, name).0,
        program_bytes(a + b, name).1 == program_bytes(a, name).1 + program_bytes(b, name).1,
        all_bytes(a + b).0 == all_bytes(a).0 + all_bytes(b).0,
        all_bytes(a + b).1 == all_bytes(a).1 + all_bytes(b).1,
        program_bytes(seq![app], app.comm@) == (app.rx as int, app.tx as int),
        name != app.comm@ ==> program_bytes(seq![app], name) == (0int, 0int),
        all_bytes(seq![app]) == (app.rx as int, app.tx as int),
    decreases b.len(),
{
    assert(seq![app].drop_last() =~= Seq::empty());
    assert(program_bytes(Seq::empty(), name) == (0int, 0int));
    assert(program_bytes(Seq::empty(), app.comm@) == (0int, 0int));
    assert(all_bytes(Seq::empty()) == (0int, 0int));
    if b.len() == 0 {
        assert(a + b =~= a);
    } else {
        program_counts_add_up(a, b.drop_last(), app, name);
        assert((a + b).drop_last() =~= a + b.drop_last());
        assert((a + b).last() == b.last());
    }
}

/// The name that a process is first known by stays, whatever lines and tables follow.
pub proof fn first_names_stay(
    known: Known,
    some: Seq<Seq<char>>,
    v6: bool,
    owned: Map<u64, (u32, Seq<char>)>,
    pid: u32,
)
    requires
        known.names.contains_key(pid),
    ensures
        know_lines(known, some, v6, owned).names.contains_key(pid),
        know_lines(known, some, v6, owned).names[pid] == known.names[pid],
    decreases some.len(),
{
    if some.len() > 0 {
        first_names_stay(known, some.drop_last(), v6, owned, pid);
    }
}

/// Whether a frame was counted, or not, as it should be.
pub open spec fn is_counted(
    after: Map<u32, (String, u64, u64)>,
    before: Map<u32, (String, u64, u64)>,
    frame: Seq<u8>,
    known: Known,
    local: Seq<Ip>,
    ok: bool,
) -> bool {
    match flow_of(frame) {
        None => ok && after == before,
        Some(f) => {
            let up = is_local(local, f.source);
            &&& ok == has_room(before, f, frame.len() as int, known, up)
            &&& ok ==> is_accounted(after, before, f, frame.len() as int, known, up)
            &&& !ok ==> after == before
        },
    }
}

/// A frame from an address of this machine counts as sent, by its length, for the process
/// with the end that it comes from; a frame from anywhere else as received for the process
/// with the end that it goes to.
pub proof fn frames_from_here_are_sent(
    after: Map<u32, (String, u64, u64)>,
    before: Map<u32, (String, u64, u64)>,
    frame: Seq<u8>,
    known: Known,
    local: Seq<Ip>,
    f: Flow,
    sp: u16,
    dp: u16,
)
    requires
        is_counted(after, before, frame, known, local, true),
        flow_of(frame) == Some(f),
        f.ports == Some((sp, dp)),
    ensures
        local.contains(f.source) && known.ends.contains_key((f.source, sp)) ==> {
            let pid = known.ends[(f.source, sp)];
            let had = if before.contains_key(pid) {
                before[pid].2
            } else {
                0
            };
            after.contains_key(pid) && after[pid].2 == had + frame.len()
        },
        !local.contains(f.source) && known.ends.contains_key((f.destination, dp)) ==> {
            let pid = known.ends[(f.destination, dp)];
            let had = if before.contains_key(pid) {
                before[pid].1
            } else {
                0
            };
            after.contains_key(pid) && after[pid].1 == had + frame.len()
        },
{
    let up = is_local(local, f.source);
    if local.contains(f.source) {
        let i = choose|i: int| 0 <= i < local.len() && local[i] == f.source;
        assert(local[i] == f.source);
    }
    assert(up == local.contains(f.source));
    frames_count_for_their_end(after, before, f, frame.len() as int, known, up, sp, dp);
}

/// An IPv4 address of a socket table has the bytes of its word in reverse.
pub proof fn addresses_are_words_turned_round(s: Seq<char>, a: int, b: int, c: int, d: int)
    requires
        0 <= a < 256,
        0 <= b < 256,
        0 <= c < 256,
        0 <= d < 256,
        unsigned_value(s, 16, u32::MAX as int) == Some(
            a * 0x100_0000 + b * 0x1_0000 + c * 0x100 + d,
        ),
    ensures
        address_of(s, false) == Some(
            Ip::V4((d * 0x100_0000 + c * 0x1_0000 + b * 0x100 + a) as u32),
        ),
{
    words_are_turned_round(a, b, c, d);
}

/// An IPv6 address of a socket table is four such words, the first one highest; a text of
/// any other length is none.
pub proof fn long_addresses_are_four_words(
    a: Seq<char>,
    b: Seq<char>,
    c: Seq<char>,
    d: Seq<char>,
    w: (u32, u32, u32, u32),
    s: Seq<char>,
)
    requires
        a.len() == 8 && b.len() == 8 && c.len() == 8 && d.len() == 8,
        address_of(a, false) == Some(Ip::V4(w.0)),
        address_of(b, false) == Some(Ip::V4(w.1)),
        address_of(c, false) == Some(Ip::V4(w.2)),
        address_of(d, false) == Some(Ip::V4(w.3)),
    ensures
        address_of(a + b + c + d, true) == Some(
            Ip::V6(
                (((w.0 * 0x1_0000_0000 + w.1) * 0x1_0000_0000 + w.2) * 0x1_0000_0000 + w.3) as u128,
            ),
        ),
        s.len() != 32 ==> address_of(s, true) is None,
{
    let t = a + b + c + d;
    assert(t.subrange(0, 8) =~= a);
    assert(t.subrange(8, 16) =~= b);
    assert(t.subrange(16, 24) =~= c);
    assert(t.subrange(24, 32) =~= d);
    word_fits(a);
    word_fits(b);
    word_fits(c);
    word_fits(d);
}

proof fn word_fits(s: Seq<char>)
    ensures
        address_word(s) matches Some(n) ==> 0 <= n <= u32::MAX,
{
    let t = if s.len() > 0 && s[0] == '+' {
        s.drop_first()
    } else {
        s
    };
    values_are_not_negative(t, 16);
}

} // verus!
