//! Resource records: the tagged union over the modelled record types,
//! with raw payload bytes as the catch-all, and their wire codec.

use vstd::prelude::*;
use vstd::string::StringSliceAdditionalSpecFns;
use vstd::utf8::encode_utf8;

use crate::byte_packet_buffer::{
    be16, be32, bytes_to_vec, name_wire, parse_qname_at, push_u16, push_u32, qname_end_at,
    qname_wire, spliced, u16_bytes, u32_bytes, BytePacketBuffer, QnameParse, MAX_JUMPS,
};
use crate::dns_error::DnsError;
use crate::dns_question::qname_err;
use crate::query_type::QueryType;

verus! {

/// The mathematical value of a resource record.
pub enum RecordModel {
    Unknown { domain: Seq<char>, qtype: u16, data: Seq<u8>, ttl: u32 },
    A { domain: Seq<char>, addr: u32, ttl: u32 },
    Aaaa { domain: Seq<char>, addr: u128, ttl: u32 },
    Ns { domain: Seq<char>, host: Seq<char>, ttl: u32 },
    Cname { domain: Seq<char>, host: Seq<char>, ttl: u32 },
    Mx { domain: Seq<char>, priority: u16, host: Seq<char>, ttl: u32 },
    Soa {
        domain: Seq<char>,
        m_name: Seq<char>,
        r_name: Seq<char>,
        serial: u32,
        refresh: u32,
        retry: u32,
        expire: u32,
        minimum: u32,
        ttl: u32,
    },
    Txt { domain: Seq<char>, data: Seq<u8>, ttl: u32 },
}

/// The highest 32-bit group of an IPv6 address.
pub open spec fn ipv6_g0(addr: u128) -> u32 {
    (addr / 0x1000000000000000000000000) as u32
}

pub open spec fn ipv6_g1(addr: u128) -> u32 {
    ((addr / 0x10000000000000000) % 0x100000000) as u32
}

pub open spec fn ipv6_g2(addr: u128) -> u32 {
    ((addr / 0x100000000) % 0x100000000) as u32
}

pub open spec fn ipv6_g3(addr: u128) -> u32 {
    (addr % 0x100000000) as u32
}

/// The IPv6 address with the four given 32-bit groups, highest first.
pub open spec fn ipv6_of(a0: u32, a1: u32, a2: u32, a3: u32) -> u128 {
    (a0 as int * 0x1000000000000000000000000 + a1 as int * 0x10000000000000000 + a2 as int
        * 0x100000000 + a3 as int) as u128
}

impl RecordModel {
    /// The record's owner name.
    pub open spec fn domain_of(self) -> Seq<char> {
        match self {
            RecordModel::Unknown { domain, .. } => domain,
            RecordModel::A { domain, .. } => domain,
            RecordModel::Aaaa { domain, .. } => domain,
            RecordModel::Ns { domain, .. } => domain,
            RecordModel::Cname { domain, .. } => domain,
            RecordModel::Mx { domain, .. } => domain,
            RecordModel::Soa { domain, .. } => domain,
            RecordModel::Txt { domain, .. } => domain,
        }
    }

    /// The record's time to live in seconds.
    pub open spec fn ttl_of(self) -> u32 {
        match self {
            RecordModel::Unknown { ttl, .. } => ttl,
            RecordModel::A { ttl, .. } => ttl,
            RecordModel::Aaaa { ttl, .. } => ttl,
            RecordModel::Ns { ttl, .. } => ttl,
            RecordModel::Cname { ttl, .. } => ttl,
            RecordModel::Mx { ttl, .. } => ttl,
            RecordModel::Soa { ttl, .. } => ttl,
            RecordModel::Txt { ttl, .. } => ttl,
        }
    }

    /// The 16-bit type code the record is written with.
    pub open spec fn rtype_num(self) -> u16 {
        match self {
            RecordModel::Unknown { qtype, .. } => qtype,
            RecordModel::A { .. } => 1,
            RecordModel::Aaaa { .. } => 28,
            RecordModel::Ns { .. } => 2,
            RecordModel::Cname { .. } => 5,
            RecordModel::Mx { .. } => 15,
            RecordModel::Soa { .. } => 6,
            RecordModel::Txt { .. } => 16,
        }
    }

    /// The type-specific payload bytes; `None` exactly when a payload
    /// name has a label longer than 63 bytes.
    pub open spec fn payload(self) -> Option<Seq<u8>> {
        match self {
            RecordModel::Unknown { data, .. } => Some(data),
            RecordModel::A { addr, .. } => Some(u32_bytes(addr)),
            RecordModel::Aaaa { addr, .. } => Some(
                u32_bytes(ipv6_g0(addr)) + u32_bytes(ipv6_g1(addr)) + u32_bytes(ipv6_g2(addr))
                    + u32_bytes(ipv6_g3(addr)),
            ),
            RecordModel::Ns { host, .. } => qname_wire(encode_utf8(host)),
            RecordModel::Cname { host, .. } => qname_wire(encode_utf8(host)),
            RecordModel::Mx { priority, host, .. } => match qname_wire(encode_utf8(host)) {
                None => None,
                Some(hw) => Some(u16_bytes(priority) + hw),
            },
            RecordModel::Soa { m_name, r_name, serial, refresh, retry, expire, minimum, .. } => {
                match qname_wire(encode_utf8(m_name)) {
                    None => None,
                    Some(mw) => match qname_wire(encode_utf8(r_name)) {
                        None => None,
                        Some(rw) => Some(
                            mw + rw + u32_bytes(serial) + u32_bytes(refresh) + u32_bytes(retry)
                                + u32_bytes(expire) + u32_bytes(minimum),
                        ),
                    },
                }
            },
            RecordModel::Txt { data, .. } => Some(data),
        }
    }

    /// The record's full wire bytes: owner name, type code, class 1,
    /// TTL, payload length, payload.  `None` exactly when a name label
    /// is longer than 63 bytes or the payload does not fit its 16-bit
    /// length field.
    pub open spec fn wire(self) -> Option<Seq<u8>> {
        match qname_wire(encode_utf8(self.domain_of())) {
            None => None,
            Some(nw) => match self.payload() {
                None => None,
                Some(pl) => if pl.len() > 0xFFFF {
                    None
                } else {
                    Some(
                        nw + u16_bytes(self.rtype_num()) + u16_bytes(1) + u32_bytes(self.ttl_of())
                            + u16_bytes(pl.len() as u16) + pl,
                    )
                },
            },
        }
    }
}

/// The record encoded at position `p` of `buf`, with the cursor
/// position after it, or the error the decoder reports.
pub open spec fn spec_parse_record(buf: Seq<u8>, p: int) -> Result<(RecordModel, int), DnsError> {
    match parse_qname_at(buf, p, MAX_JUMPS as nat) {
        QnameParse::Name(domain) => {
            let e = qname_end_at(buf, p);
            if e + 10 <= 512 {
                let qt = be16(buf[e], buf[e + 1]);
                let ttl = be32(buf[e + 4], buf[e + 5], buf[e + 6], buf[e + 7]);
                let dl = be16(buf[e + 8], buf[e + 9]) as int;
                let s = e + 10;
                match QueryType::spec_from_num(qt) {
                    QueryType::A => if s + 4 <= 512 {
                        Ok(
                            (
                                RecordModel::A {
                                    domain,
                                    addr: be32(buf[s], buf[s + 1], buf[s + 2], buf[s + 3]),
                                    ttl,
                                },
                                s + 4,
                            ),
                        )
                    } else {
                        Err(DnsError::BufferBounds)
                    },
                    QueryType::AAAA => if s + 16 <= 512 {
                        Ok(
                            (
                                RecordModel::Aaaa {
                                    domain,
                                    addr: ipv6_of(
                                        be32(buf[s], buf[s + 1], buf[s + 2], buf[s + 3]),
                                        be32(buf[s + 4], buf[s + 5], buf[s + 6], buf[s + 7]),
                                        be32(buf[s + 8], buf[s + 9], buf[s + 10], buf[s + 11]),
                                        be32(buf[s + 12], buf[s + 13], buf[s + 14], buf[s + 15]),
                                    ),
                                    ttl,
                                },
                                s + 16,
                            ),
                        )
                    } else {
                        Err(DnsError::BufferBounds)
                    },
                    QueryType::NS => match parse_qname_at(buf, s, MAX_JUMPS as nat) {
                        QnameParse::Name(host) => Ok(
                            (RecordModel::Ns { domain, host, ttl }, qname_end_at(buf, s)),
                        ),
                        q => Err(qname_err(q)),
                    },
                    QueryType::CNAME => match parse_qname_at(buf, s, MAX_JUMPS as nat) {
                        QnameParse::Name(host) => Ok(
                            (RecordModel::Cname { domain, host, ttl }, qname_end_at(buf, s)),
                        ),
                        q => Err(qname_err(q)),
                    },
                    QueryType::MX => if s + 2 <= 512 {
                        match parse_qname_at(buf, s + 2, MAX_JUMPS as nat) {
                            QnameParse::Name(host) => Ok(
                                (
                                    RecordModel::Mx {
                                        domain,
                                        priority: be16(buf[s], buf[s + 1]),
                                        host,
                                        ttl,
                                    },
                                    qname_end_at(buf, s + 2),
                                ),
                            ),
                            q => Err(qname_err(q)),
                        }
                    } else {
                        Err(DnsError::BufferBounds)
                    },
                    QueryType::SOA => match parse_qname_at(buf, s, MAX_JUMPS as nat) {
                        QnameParse::Name(m_name) => {
                            let em = qname_end_at(buf, s);
                            match parse_qname_at(buf, em, MAX_JUMPS as nat) {
                                QnameParse::Name(r_name) => {
                                    let er = qname_end_at(buf, em);
                                    if er + 20 <= 512 {
                                        Ok(
                                            (
                                                RecordModel::Soa {
                                                    domain,
                                                    m_name,
                                                    r_name,
                                                    serial: be32(
                                                        buf[er],
                                                        buf[er + 1],
                                                        buf[er + 2],
                                                        buf[er + 3],
                                                    ),
                                                    refresh: be32(
                                                        buf[er + 4],
                                                        buf[er + 5],
                                                        buf[er + 6],
                                                        buf[er + 7],
                                                    ),
                                                    retry: be32(
                                                        buf[er + 8],
                                                        buf[er + 9],
                                                        buf[er + 10],
                                                        buf[er + 11],
                                                    ),
                                                    expire: be32(
                                                        buf[er + 12],
                                                        buf[er + 13],
                                                        buf[er + 14],
                                                        buf[er + 15],
                                                    ),
                                                    minimum: be32(
                                                        buf[er + 16],
                                                        buf[er + 17],
                                                        buf[er + 18],
                                                        buf[er + 19],
                                                    ),
                                                    ttl,
                                                },
                                                er + 20,
                                            ),
                                        )
                                    } else {
                                        Err(DnsError::BufferBounds)
                                    }
                                },
                                q => Err(qname_err(q)),
                            }
                        },
                        q => Err(qname_err(q)),
                    },
                    QueryType::TXT => if s + dl <= 512 {
                        Ok((RecordModel::Txt { domain, data: buf.subrange(s, s + dl), ttl }, s + dl))
                    } else {
                        Err(DnsError::BufferBounds)
                    },
                    QueryType::UNKNOWN(x) => if s + dl <= 512 {
                        Ok(
                            (
                                RecordModel::Unknown {
                                    domain,
                                    qtype: x,
                                    data: buf.subrange(s, s + dl),
                                    ttl,
                                },
                                s + dl,
                            ),
                        )
                    } else {
                        Err(DnsError::BufferBounds)
                    },
                }
            } else {
                Err(DnsError::BufferBounds)
            }
        },
        q => Err(qname_err(q)),
    }
}

/// Decoding inverts encoding for address records: wherever a packet
/// holds the wire bytes of a well-formed A record, the record parser
/// reads back exactly that record and stops right after it.
pub proof fn lemma_a_record_round_trip(domain: Seq<char>, addr: u32, ttl: u32, buf: Seq<u8>, at: int)
    requires
        crate::byte_packet_buffer::wf_name(domain),
        (RecordModel::A { domain, addr, ttl }).wire() is Some,
        buf.len() == 512,
        0 <= at,
        at + (RecordModel::A { domain, addr, ttl }).wire()->Some_0.len() <= 512,
        buf.subrange(at, at + (RecordModel::A { domain, addr, ttl }).wire()->Some_0.len()) == (
        RecordModel::A { domain, addr, ttl }).wire()->Some_0,
    ensures
        spec_parse_record(buf, at) == Ok::<(RecordModel, int), DnsError>(
            (
                RecordModel::A { domain, addr, ttl },
                at + (RecordModel::A { domain, addr, ttl }).wire()->Some_0.len(),
            ),
        ),
{
    let m = RecordModel::A { domain, addr, ttl };
    let w = m.wire()->Some_0;
    let nw = qname_wire(encode_utf8(domain))->Some_0;
    assert(forall|i: int| 0 <= i < w.len() ==> buf[at + i] == #[trigger] w[i]) by {
        assert(forall|i: int|
            0 <= i < w.len() ==> #[trigger] w[i] == buf.subrange(at, at + w.len())[i]);
    }
    assert(buf.subrange(at, at + nw.len()) =~= nw) by {
        assert forall|i: int| 0 <= i < nw.len() implies buf.subrange(at, at + nw.len())[i]
            == nw[i] by {
            assert(buf[at + i] == w[i]);
        }
    }
    crate::byte_packet_buffer::lemma_qname_round_trip(domain, buf, at, MAX_JUMPS as nat);
    let e = at + nw.len();
    let k = nw.len() as int;
    assert(w.len() == k + 14);
    assert(buf[at + (k + 0)] == w[k + 0] && buf[at + (k + 1)] == w[k + 1]);
    assert(w[k + 0] == u16_bytes(1)[0] && w[k + 1] == u16_bytes(1)[1]);
    crate::byte_packet_buffer::lemma_be16_of_u16_bytes(1);
    assert(be16(buf[e], buf[e + 1]) == 1);
    assert(QueryType::spec_from_num(1) == QueryType::A);
    assert(buf[at + (k + 4)] == w[k + 4] && buf[at + (k + 5)] == w[k + 5] && buf[at + (k + 6)]
        == w[k + 6] && buf[at + (k + 7)] == w[k + 7]);
    assert(w[k + 4] == u32_bytes(ttl)[0] && w[k + 5] == u32_bytes(ttl)[1] && w[k + 6]
        == u32_bytes(ttl)[2] && w[k + 7] == u32_bytes(ttl)[3]);
    crate::byte_packet_buffer::lemma_be32_of_u32_bytes(ttl);
    assert(be32(buf[e + 4], buf[e + 5], buf[e + 6], buf[e + 7]) == ttl);
    let s = e + 10;
    assert(buf[at + (k + 10)] == w[k + 10] && buf[at + (k + 11)] == w[k + 11] && buf[at + (k
        + 12)] == w[k + 12] && buf[at + (k + 13)] == w[k + 13]);
    assert(w[k + 10] == u32_bytes(addr)[0] && w[k + 11] == u32_bytes(addr)[1] && w[k + 12]
        == u32_bytes(addr)[2] && w[k + 13] == u32_bytes(addr)[3]);
    crate::byte_packet_buffer::lemma_be32_of_u32_bytes(addr);
    assert(be32(buf[s], buf[s + 1], buf[s + 2], buf[s + 3]) == addr);
}

/// One resource record, keyed by its wire type code; types without a
/// modelled payload keep their raw bytes under `UNKNOWN`.
#[derive(Debug, PartialEq, Eq, Clone)]
pub enum DnsRecord {
    UNKNOWN { domain: String, qtype: u16, data: Vec<u8>, ttl: u32 },
    A { domain: String, addr: u32, ttl: u32 },
    AAAA { domain: String, addr: u128, ttl: u32 },
    NS { domain: String, host: String, ttl: u32 },
    CNAME { domain: String, host: String, ttl: u32 },
    MX { domain: String, priority: u16, host: String, ttl: u32 },
    SOA {
        domain: String,
        m_name: String,
        r_name: String,
        serial: u32,
        refresh: u32,
        retry: u32,
        expire: u32,
        minimum: u32,
        ttl: u32,
    },
    TXT { domain: String, data: Vec<u8>, ttl: u32 },
}

impl View for DnsRecord {
    type V = RecordModel;

    open spec fn view(&self) -> RecordModel {
        match self {
            DnsRecord::UNKNOWN { domain, qtype, data, ttl } => RecordModel::Unknown {
                domain: domain@,
                qtype: *qtype,
                data: data@,
                ttl: *ttl,
            },
            DnsRecord::A { domain, addr, ttl } => RecordModel::A {
                domain: domain@,
                addr: *addr,
                ttl: *ttl,
            },
            DnsRecord::AAAA { domain, addr, ttl } => RecordModel::Aaaa {
                domain: domain@,
                addr: *addr,
                ttl: *ttl,
            },
            DnsRecord::NS { domain, host, ttl } => RecordModel::Ns {
                domain: domain@,
                host: host@,
                ttl: *ttl,
            },
            DnsRecord::CNAME { domain, host, ttl } => RecordModel::Cname {
                domain: domain@,
                host: host@,
                ttl: *ttl,
            },
            DnsRecord::MX { domain, priority, host, ttl } => RecordModel::Mx {
                domain: domain@,
                priority: *priority,
                host: host@,
                ttl: *ttl,
            },
            DnsRecord::SOA { domain, m_name, r_name, serial, refresh, retry, expire, minimum, ttl } => RecordModel::Soa {
                domain: domain@,
                m_name: m_name@,
                r_name: r_name@,
                serial: *serial,
                refresh: *refresh,
                retry: *retry,
                expire: *expire,
                minimum: *minimum,
                ttl: *ttl,
            },
            DnsRecord::TXT { domain, data, ttl } => RecordModel::Txt {
                domain: domain@,
                data: data@,
                ttl: *ttl,
            },
        }
    }
}

/// Writes one record frame at the cursor — name, type code, class 1,
/// TTL, then a placeholder length, the payload, and a patch of the
/// placeholder with the payload's byte count.
fn write_record_parts(
    buffer: &mut BytePacketBuffer,
    qname: &str,
    rtype: u16,
    ttl: u32,
    payload: &[u8],
) -> (r: Result<(), DnsError>)
    requires
        old(buffer).wf(),
    ensures
        final(buffer).wf(),
        payload@.len() <= 0xFFFF ==> match qname_wire(qname.spec_bytes()) {
            Some(nw) => {
                let w = nw + u16_bytes(rtype) + u16_bytes(1) + u32_bytes(ttl) + u16_bytes(
                    payload@.len() as u16,
                ) + payload@;
                (old(buffer).pos + w.len() <= 512 ==> r is Ok
                    && final(buffer).buf@ == spliced(old(buffer).buf@, old(buffer).pos as int, w)
                    && final(buffer).pos == old(buffer).pos + w.len()) && (old(buffer).pos
                    + w.len() > 512 ==> r == Err::<(), DnsError>(DnsError::BufferBounds))
            },
            None => r == Err::<(), DnsError>(DnsError::LabelTooLong),
        },
        payload@.len() > 0xFFFF ==> r == Err::<(), DnsError>(DnsError::BufferBounds),
    {
    if payload.len() > 0xFFFF {
        return Err(DnsError::BufferBounds);
    }
    let ghost buf0 = buffer.buf@;
    let ghost p = buffer.pos as int;
    buffer.write_qname(qname)?;
    buffer.write_u16(rtype)?;
    buffer.write_u16(1)?;
    buffer.write_u32(ttl)?;
    let len_pos = buffer.pos();
    buffer.write_u16(0)?;
    buffer.write_bytes(payload)?;
    let size = buffer.pos() - (len_pos + 2);
    let ghost nw = qname_wire(qname.spec_bytes())->Some_0;
    let ghost head = nw + u16_bytes(rtype) + u16_bytes(1) + u32_bytes(ttl);
    proof {
        crate::byte_packet_buffer::lemma_spliced_concat(buf0, p, nw, u16_bytes(rtype));
        crate::byte_packet_buffer::lemma_spliced_concat(
            buf0,
            p,
            nw + u16_bytes(rtype),
            u16_bytes(1),
        );
        crate::byte_packet_buffer::lemma_spliced_concat(
            buf0,
            p,
            nw + u16_bytes(rtype) + u16_bytes(1),
            u32_bytes(ttl),
        );
        crate::byte_packet_buffer::lemma_spliced_concat(buf0, p, head, u16_bytes(0));
        crate::byte_packet_buffer::lemma_spliced_concat(
            buf0,
            p,
            head + u16_bytes(0),
            payload@,
        );
        assert(head + u16_bytes(0) + payload@ =~= head + seq![0u8, 0u8] + payload@);
        assert(buffer.buf@ == spliced(buf0, p, head + seq![0u8, 0u8] + payload@));
        crate::byte_packet_buffer::lemma_patch_len(buf0, p, head, payload@, buffer.buf@);
    }
    buffer.set_u16(len_pos, size as u16)?;
    Ok(())
}

impl DnsRecord {
    /// A copy carrying the same model value.
    pub fn duplicate(&self) -> (r: DnsRecord)
        ensures
            r@ == self@,
    {
        match self {
            DnsRecord::UNKNOWN { domain, qtype, data, ttl } => DnsRecord::UNKNOWN {
                domain: domain.clone(),
                qtype: *qtype,
                data: bytes_to_vec(data.as_slice()),
                ttl: *ttl,
            },
            DnsRecord::A { domain, addr, ttl } => DnsRecord::A {
                domain: domain.clone(),
                addr: *addr,
                ttl: *ttl,
            },
            DnsRecord::AAAA { domain, addr, ttl } => DnsRecord::AAAA {
                domain: domain.clone(),
                addr: *addr,
                ttl: *ttl,
            },
            DnsRecord::NS { domain, host, ttl } => DnsRecord::NS {
                domain: domain.clone(),
                host: host.clone(),
                ttl: *ttl,
            },
            DnsRecord::CNAME { domain, host, ttl } => DnsRecord::CNAME {
                domain: domain.clone(),
                host: host.clone(),
                ttl: *ttl,
            },
            DnsRecord::MX { domain, priority, host, ttl } => DnsRecord::MX {
                domain: domain.clone(),
                priority: *priority,
                host: host.clone(),
                ttl: *ttl,
            },
            DnsRecord::SOA {
                domain,
                m_name,
                r_name,
                serial,
                refresh,
                retry,
                expire,
                minimum,
                ttl,
            } => DnsRecord::SOA {
                domain: domain.clone(),
                m_name: m_name.clone(),
                r_name: r_name.clone(),
                serial: *serial,
                refresh: *refresh,
                retry: *retry,
                expire: *expire,
                minimum: *minimum,
                ttl: *ttl,
            },
            DnsRecord::TXT { domain, data, ttl } => DnsRecord::TXT {
                domain: domain.clone(),
                data: bytes_to_vec(data.as_slice()),
                ttl: *ttl,
            },
        }
    }

    /// Reads the record at the cursor.
    pub fn read(buffer: &mut BytePacketBuffer) -> (r: Result<DnsRecord, DnsError>)
        requires
            old(buffer).wf(),
        ensures
            final(buffer).wf(),
            final(buffer).buf@ == old(buffer).buf@,
            match spec_parse_record(old(buffer).buf@, old(buffer).pos as int) {
                Ok((m, end)) => r is Ok && r->Ok_0@ == m && final(buffer).pos == end,
                Err(e) => r == Err::<DnsRecord, DnsError>(e),
            },
    {
        let mut domain = String::new();
        buffer.read_qname(&mut domain)?;
        let qt_num = buffer.read_u16()?;
        let qtype = QueryType::from_num(qt_num);
        let _class = buffer.read_u16()?;
        let ttl = buffer.read_u32()?;
        let data_len = buffer.read_u16()?;
        match qtype {
            QueryType::A => {
                let addr = buffer.read_u32()?;
                Ok(DnsRecord::A { domain, addr, ttl })
            },
            QueryType::AAAA => {
                let a0 = buffer.read_u32()?;
                let a1 = buffer.read_u32()?;
                let a2 = buffer.read_u32()?;
                let a3 = buffer.read_u32()?;
                let addr = a0 as u128 * 0x1000000000000000000000000 + a1 as u128
                    * 0x10000000000000000 + a2 as u128 * 0x100000000 + a3 as u128;
                Ok(DnsRecord::AAAA { domain, addr, ttl })
            },
            QueryType::NS => {
                let mut host = String::new();
                buffer.read_qname(&mut host)?;
                Ok(DnsRecord::NS { domain, host, ttl })
            },
            QueryType::CNAME => {
                let mut host = String::new();
                buffer.read_qname(&mut host)?;
                Ok(DnsRecord::CNAME { domain, host, ttl })
            },
            QueryType::MX => {
                let priority = buffer.read_u16()?;
                let mut host = String::new();
                buffer.read_qname(&mut host)?;
                Ok(DnsRecord::MX { domain, priority, host, ttl })
            },
            QueryType::SOA => {
                let mut m_name = String::new();
                buffer.read_qname(&mut m_name)?;
                let mut r_name = String::new();
                buffer.read_qname(&mut r_name)?;
                let serial = buffer.read_u32()?;
                let refresh = buffer.read_u32()?;
                let retry = buffer.read_u32()?;
                let expire = buffer.read_u32()?;
                let minimum = buffer.read_u32()?;
                Ok(
                    DnsRecord::SOA {
                        domain,
                        m_name,
                        r_name,
                        serial,
                        refresh,
                        retry,
                        expire,
                        minimum,
                        ttl,
                    },
                )
            },
            QueryType::TXT => {
                let start = buffer.pos();
                let sl = buffer.get_range(start, data_len as usize)?;
                let data = bytes_to_vec(sl);
                buffer.step(data_len as usize)?;
                Ok(DnsRecord::TXT { domain, data, ttl })
            },
            QueryType::UNKNOWN(x) => {
                let start = buffer.pos();
                let sl = buffer.get_range(start, data_len as usize)?;
                let data = bytes_to_vec(sl);
                buffer.step(data_len as usize)?;
                Ok(DnsRecord::UNKNOWN { domain, qtype: x, data, ttl })
            },
        }
    }

    /// Writes the record at the cursor, backfilling the payload length
    /// once the payload is written.  A name label longer than 63 bytes
    /// gives `LabelTooLong`; bytes that would not fit give
    /// `BufferBounds`.
    pub fn write(&self, buffer: &mut BytePacketBuffer) -> (r: Result<(), DnsError>)
        requires
            old(buffer).wf(),
        ensures
            final(buffer).wf(),
            match self@.wire() {
                Some(w) => (old(buffer).pos + w.len() <= 512 ==> r is Ok
                    && final(buffer).buf@ == spliced(old(buffer).buf@, old(buffer).pos as int, w)
                    && final(buffer).pos == old(buffer).pos + w.len()) && (old(buffer).pos
                    + w.len() > 512 ==> r == Err::<(), DnsError>(DnsError::BufferBounds)),
                None => r == Err::<(), DnsError>(DnsError::LabelTooLong) || r == Err::<
                    (),
                    DnsError,
                >(DnsError::BufferBounds),
            },
    {
        match self {
            DnsRecord::A { domain, addr, ttl } => {
                let mut pl: Vec<u8> = Vec::new();
                push_u32(&mut pl, *addr);
                write_record_parts(buffer, domain.as_str(), 1, *ttl, pl.as_slice())
            },
            DnsRecord::AAAA { domain, addr, ttl } => {
                let mut pl: Vec<u8> = Vec::new();
                push_u32(&mut pl, (*addr / 0x1000000000000000000000000) as u32);
                push_u32(&mut pl, ((*addr / 0x10000000000000000) % 0x100000000) as u32);
                push_u32(&mut pl, ((*addr / 0x100000000) % 0x100000000) as u32);
                push_u32(&mut pl, (*addr % 0x100000000) as u32);
                write_record_parts(buffer, domain.as_str(), 28, *ttl, pl.as_slice())
            },
            DnsRecord::NS { domain, host, ttl } => {
                let pl = name_wire(host.as_str().as_bytes())?;
                write_record_parts(buffer, domain.as_str(), 2, *ttl, pl.as_slice())
            },
            DnsRecord::CNAME { domain, host, ttl } => {
                let pl = name_wire(host.as_str().as_bytes())?;
                write_record_parts(buffer, domain.as_str(), 5, *ttl, pl.as_slice())
            },
            DnsRecord::MX { domain, priority, host, ttl } => {
                let hw = name_wire(host.as_str().as_bytes())?;
                let mut pl: Vec<u8> = Vec::new();
                push_u16(&mut pl, *priority);
                let mut hv = hw;
                pl.append(&mut hv);
                write_record_parts(buffer, domain.as_str(), 15, *ttl, pl.as_slice())
            },
            DnsRecord::SOA {
                domain,
                m_name,
                r_name,
                serial,
                refresh,
                retry,
                expire,
                minimum,
                ttl,
            } => {
                let mw = name_wire(m_name.as_str().as_bytes())?;
                let rw = name_wire(r_name.as_str().as_bytes())?;
                let mut pl = mw;
                let mut rv = rw;
                pl.append(&mut rv);
                push_u32(&mut pl, *serial);
                push_u32(&mut pl, *refresh);
                push_u32(&mut pl, *retry);
                push_u32(&mut pl, *expire);
                push_u32(&mut pl, *minimum);
                write_record_parts(buffer, domain.as_str(), 6, *ttl, pl.as_slice())
            },
            DnsRecord::TXT { domain, data, ttl } => {
                write_record_parts(buffer, domain.as_str(), 16, *ttl, data.as_slice())
            },
            DnsRecord::UNKNOWN { domain, qtype, data, ttl } => {
                write_record_parts(buffer, domain.as_str(), *qtype, *ttl, data.as_slice())
            },
        }
    }
}

} // verus!
