//! IPv4 + TCP framing of segments, through etherparse's header codec.
use crate::tcp::{Segment, MAX_PAYLOAD};
use vstd::prelude::*;

verus! {

/// Time to live of every packet sent.
pub const TTL: u8 = 64;

/// Big-endian 16-bit value at `i`.
pub open spec fn be16(b: Seq<u8>, i: int) -> int {
    b[i] * 256 + b[i + 1]
}

/// Big-endian 32-bit value at `i`.
pub open spec fn be32(b: Seq<u8>, i: int) -> int {
    be16(b, i) * 65536 + be16(b, i + 2)
}

/// Bit `k` (a power of two) of `v` is set.
pub open spec fn has_bit(v: u8, k: int) -> bool {
    (v as int / k) % 2 == 1
}

/// The TCP flag byte of a segment: FIN 1, SYN 2, RST 4, ACK 16.
pub open spec fn flag_byte(s: Segment) -> int {
    (if s.fin { 1int } else { 0 }) + (if s.syn { 2int } else { 0 }) + (if s.rst { 4int } else { 0 }) + (
    if s.ack_flag {
        16int
    } else {
        0
    })
}

/// `b` is the packet for `s`: a 20-byte IPv4 header (TTL 64, protocol
/// TCP, don't-fragment), a 20-byte TCP header, then the payload. The two
/// checksum fields are left open.
pub open spec fn encodes(s: Segment, b: Seq<u8>) -> bool {
    &&& b.len() == 40 + s.payload@.len()
    &&& b[0] == 0x45 && b[1] == 0
    &&& be16(b, 2) == 40 + s.payload@.len()
    &&& b[4] == 0 && b[5] == 0 && b[6] == 0x40 && b[7] == 0
    &&& b[8] == TTL && b[9] == 6
    &&& be32(b, 12) == s.src_addr && be32(b, 16) == s.dst_addr
    &&& be16(b, 20) == s.src_port && be16(b, 22) == s.dst_port
    &&& be32(b, 24) == s.seq && be32(b, 28) == s.ack
    &&& b[32] == 0x50 && b[33] == flag_byte(s)
    &&& be16(b, 34) == s.window
    &&& b[38] == 0 && b[39] == 0
    &&& b.subrange(40, b.len() as int) == s.payload@
}

/// The IPv4 header checksum of a 20-byte header whose checksum field is zero.
pub uninterp spec fn ipv4_header_checksum(header: Seq<u8>) -> int;

/// The TCP checksum over the IPv4 pseudo-header of `src` and `dst` and a
/// segment whose checksum field is zero.
pub uninterp spec fn tcp_checksum(src: u32, dst: u32, segment: Seq<u8>) -> int;

/// The two checksum fields of the packet `b` for `s` hold the checksums of
/// the rest of it.
pub open spec fn checksums_of(s: Segment, b: Seq<u8>) -> bool {
    &&& be16(b, 10) == ipv4_header_checksum(b.subrange(0, 10) + seq![0u8, 0u8] + b.subrange(12, 20))
    &&& be16(b, 36) == tcp_checksum(
        s.src_addr,
        s.dst_addr,
        b.subrange(20, 36) + seq![0u8, 0u8] + b.subrange(38, b.len() as int),
    )
}

/// Length of the IPv4 header as its first byte gives it.
pub open spec fn ipv4_header_len(b: Seq<u8>) -> int {
    (b[0] % 16) * 4
}

/// etherparse accepts `b` as the start of an IPv4 header.
pub open spec fn ipv4_ok(b: Seq<u8>) -> bool {
    &&& b.len() >= 20
    &&& b[0] / 16 == 4
    &&& b[0] % 16 >= 5
    &&& b.len() >= ipv4_header_len(b)
    &&& be16(b, 2) >= ipv4_header_len(b)
}

/// Length of the TCP header as its data offset gives it.
pub open spec fn tcp_header_len(b: Seq<u8>) -> int {
    (b[12] / 16) * 4
}

/// etherparse accepts `b` as the start of a TCP header.
pub open spec fn tcp_ok(b: Seq<u8>) -> bool {
    &&& b.len() >= 20
    &&& b[12] / 16 >= 5
    &&& b.len() >= tcp_header_len(b)
}

/// What follows the IPv4 header.
pub open spec fn ip_rest(b: Seq<u8>) -> Seq<u8> {
    b.subrange(ipv4_header_len(b), b.len() as int)
}

/// `b` holds a TCP segment in an IPv4 packet that etherparse reads.
pub open spec fn packet_ok(b: Seq<u8>) -> bool {
    ipv4_ok(b) && b[9] == 6 && tcp_ok(ip_rest(b))
}

/// The header fields and payload that `s` holds are those read from `b`.
pub open spec fn decodes_to(b: Seq<u8>, s: Segment) -> bool {
    let t = ip_rest(b);
    &&& s.src_addr == be32(b, 12)
    &&& s.dst_addr == be32(b, 16)
    &&& s.src_port == be16(t, 0)
    &&& s.dst_port == be16(t, 2)
    &&& s.seq == be32(t, 4)
    &&& s.ack == be32(t, 8)
    &&& s.window == be16(t, 14)
    &&& s.fin == has_bit(t[13], 1)
    &&& s.syn == has_bit(t[13], 2)
    &&& s.rst == has_bit(t[13], 4)
    &&& s.ack_flag == has_bit(t[13], 16)
    &&& s.payload@ == t.subrange(tcp_header_len(t), t.len() as int)
}

/// The IPv4 header fields the connection logic reads.
pub struct Ipv4Fields {
    pub protocol: u8,
    pub src_addr: u32,
    pub dst_addr: u32,
    pub header_len: usize,
}

/// The TCP header fields the connection logic reads.
pub struct TcpFields {
    pub src_port: u16,
    pub dst_port: u16,
    pub seq: u32,
    pub ack: u32,
    pub window: u16,
    pub syn: bool,
    pub ack_flag: bool,
    pub fin: bool,
    pub rst: bool,
    pub header_len: usize,
}

/// Relies on etherparse's `Ipv4HeaderSlice::from_slice`, which checks
/// length, version, IHL and total length, and on its field getters
/// (`protocol`, `source`, `destination`, `slice`), which read fixed bytes.
#[verifier::external_body]
fn read_ipv4_header(b: &[u8]) -> (r: Option<Ipv4Fields>)
    ensures
        r is Some <==> ipv4_ok(b@),
        r matches Some(h) ==> h.protocol == b@[9] && h.src_addr == be32(b@, 12) && h.dst_addr
            == be32(b@, 16) && h.header_len == ipv4_header_len(b@),
{
    match etherparse::Ipv4HeaderSlice::from_slice(b) {
        Ok(h) => Some(Ipv4Fields {
            protocol: h.protocol(),
            src_addr: u32::from(h.source_addr()),
            dst_addr: u32::from(h.destination_addr()),
            header_len: h.slice().len(),
        }),
        Err(_) => None,
    }
}

/// Relies on etherparse's `TcpHeaderSlice::from_slice`, which checks length
/// and data offset, and on its field getters, which read fixed bytes.
#[verifier::external_body]
fn read_tcp_header(b: &[u8]) -> (r: Option<TcpFields>)
    ensures
        r is Some <==> tcp_ok(b@),
        r matches Some(h) ==> {
            &&& h.src_port == be16(b@, 0) && h.dst_port == be16(b@, 2)
            &&& h.seq == be32(b@, 4) && h.ack == be32(b@, 8)
            &&& h.window == be16(b@, 14)
            &&& h.fin == has_bit(b@[13], 1) && h.syn == has_bit(b@[13], 2)
            &&& h.rst == has_bit(b@[13], 4) && h.ack_flag == has_bit(b@[13], 16)
            &&& h.header_len == tcp_header_len(b@)
        },
{
    match etherparse::TcpHeaderSlice::from_slice(b) {
        Ok(h) => Some(TcpFields {
            src_port: h.source_port(),
            dst_port: h.destination_port(),
            seq: h.sequence_number(),
            ack: h.acknowledgment_number(),
            window: h.window_size(),
            syn: h.syn(),
            ack_flag: h.ack(),
            fin: h.fin(),
            rst: h.rst(),
            header_len: h.slice().len(),
        }),
        Err(_) => None,
    }
}

/// Relies on etherparse's `Ipv4Header` and `TcpHeader`: `new`,
/// `set_payload_len`, `calc_checksum_ipv4` and `write` lay the two headers
/// out as RFC 791 and RFC 793 do; `Ipv4Header::write` fills in the header
/// checksum and `calc_checksum_ipv4` gives the TCP one, each a function of
/// the bytes it covers.
#[verifier::external_body]
fn write_ipv4_tcp(s: &Segment, ip_payload_len: usize, ttl: u8) -> (r: Vec<u8>)
    requires
        s.payload@.len() <= MAX_PAYLOAD,
        ttl == TTL,
        ip_payload_len == 20 + s.payload@.len(),
    ensures
        encodes(*s, r@),
        be16(r@, 10) == ipv4_header_checksum(r@.subrange(0, 10) + seq![0u8, 0u8] + r@.subrange(12, 20)),
        be16(r@, 36) == tcp_checksum(
            s.src_addr,
            s.dst_addr,
            r@.subrange(20, 36) + seq![0u8, 0u8] + r@.subrange(38, r@.len() as int),
        ),
{
    let mut ip = etherparse::Ipv4Header::new(0, ttl, etherparse::IpTrafficClass::Tcp, s.src_addr.to_be_bytes(), s.dst_addr.to_be_bytes());
    ip.set_payload_len(ip_payload_len).unwrap();
    let mut tcp = etherparse::TcpHeader::new(s.src_port, s.dst_port, s.seq, s.window);
    tcp.acknowledgment_number = s.ack;
    tcp.fin = s.fin;
    tcp.syn = s.syn;
    tcp.rst = s.rst;
    tcp.ack = s.ack_flag;
    tcp.checksum = tcp.calc_checksum_ipv4(&ip, &s.payload).unwrap();
    let mut r: Vec<u8> = Vec::new();
    ip.write(&mut r).unwrap();
    tcp.write(&mut r).unwrap();
    r.extend_from_slice(&s.payload);
    r
}

/// A copy of `b[start..]`.
fn copy_from(b: &[u8], start: usize) -> (r: Vec<u8>)
    requires
        start <= b@.len(),
    ensures
        r@ == b@.subrange(start as int, b@.len() as int),
{
    let mut r: Vec<u8> = Vec::new();
    let mut i: usize = start;
    while i < b.len()
        invariant
            start <= i <= b@.len(),
            r@ == b@.subrange(start as int, i as int),
        decreases b@.len() - i,
    {
        r.push(b[i]);
        i = i + 1;
        assert(r@ =~= b@.subrange(start as int, i as int));
    }
    r
}

impl Segment {
    /// The IPv4 packet that carries this segment.
    pub fn to_packet(&self) -> (r: Vec<u8>)
        requires
            self.payload@.len() <= MAX_PAYLOAD,
        ensures
            encodes(*self, r@),
            checksums_of(*self, r@),
    {
        write_ipv4_tcp(self, 20 + self.payload.len(), TTL)
    }

    /// Reads a TCP segment out of an IPv4 packet; `None` when the packet is
    /// malformed or carries another protocol.
    pub fn from_packet(b: &[u8]) -> (r: Option<Segment>)
        ensures
            r is Some <==> packet_ok(b@),
            r matches Some(s) ==> decodes_to(b@, s),
    {
        let ip = match read_ipv4_header(b) {
            Some(h) => h,
            None => return None,
        };
        if ip.protocol != 6 {
            return None;
        }
        let rest = copy_from(b, ip.header_len);
        let tcp = match read_tcp_header(rest.as_slice()) {
            Some(h) => h,
            None => return None,
        };
        let payload = copy_from(rest.as_slice(), tcp.header_len);
        Some(
            Segment {
                src_addr: ip.src_addr,
                dst_addr: ip.dst_addr,
                src_port: tcp.src_port,
                dst_port: tcp.dst_port,
                seq: tcp.seq,
                ack: tcp.ack,
                window: tcp.window,
                syn: tcp.syn,
                ack_flag: tcp.ack_flag,
                fin: tcp.fin,
                rst: tcp.rst,
                payload,
            },
        )
    }
}


/// The flag byte of a segment reads back as its four flags.
proof fn lemma_flag_byte(s: Segment)
    ensures
        0 <= flag_byte(s) < 256,
        has_bit(flag_byte(s) as u8, 1) == s.fin,
        has_bit(flag_byte(s) as u8, 2) == s.syn,
        has_bit(flag_byte(s) as u8, 4) == s.rst,
        has_bit(flag_byte(s) as u8, 16) == s.ack_flag,
{
}

/// Reading back the packet written for a segment gives the segment's
/// header fields and payload: serialising then parsing is the identity.
pub proof fn lemma_round_trip(s: Segment, b: Seq<u8>)
    requires
        encodes(s, b),
    ensures
        packet_ok(b),
        forall|t: Segment| #[trigger] decodes_to(b, t) ==> {
            &&& t.src_addr == s.src_addr && t.dst_addr == s.dst_addr
            &&& t.src_port == s.src_port && t.dst_port == s.dst_port
            &&& t.seq == s.seq && t.ack == s.ack && t.window == s.window
            &&& t.syn == s.syn && t.ack_flag == s.ack_flag && t.fin == s.fin && t.rst == s.rst
            &&& t.payload@ == s.payload@
        },
{
    lemma_flag_byte(s);
    let t = ip_rest(b);
    assert(ipv4_header_len(b) == 20);
    assert(t.len() == 20 + s.payload@.len());
    assert(t[12] == b[32]);
    assert(t[13] == b[33]);
    assert(tcp_header_len(t) == 20);
    assert(be16(t, 0) == be16(b, 20));
    assert(be16(t, 2) == be16(b, 22));
    assert(be32(t, 4) == be32(b, 24));
    assert(be32(t, 8) == be32(b, 28));
    assert(be16(t, 14) == be16(b, 34));
    assert(t.subrange(20, t.len() as int) =~= b.subrange(40, b.len() as int));
}

} // verus!
