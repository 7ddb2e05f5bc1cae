//! The 12-byte DNS message header: transaction id, flag bits and the
//! four section counts.

use vstd::prelude::*;

use crate::byte_packet_buffer::{be16, spliced, u16_bytes, BytePacketBuffer};
use crate::dns_error::DnsError;
use crate::result_code::ResultCode;

verus! {

/// The decoded header.  The four counts describe how many entries each
/// section of the message holds on the wire; when a whole message is
/// encoded they are recomputed from the section lengths.
#[derive(Clone, Copy, Debug, PartialEq, Eq, Structural)]
pub struct DnsHeader {
    pub id: u16,
    pub recursion_desired: bool,
    pub truncated_message: bool,
    pub authoritative_answer: bool,
    pub opcode: u8,
    pub response: bool,
    pub rescode: ResultCode,
    pub checking_disabled: bool,
    pub authed_data: bool,
    pub z: bool,
    pub recursion_available: bool,
    pub questions: u16,
    pub answers: u16,
    pub authoritative_entries: u16,
    pub resource_entries: u16,
}

/// 1 if the flag is set, 0 otherwise, placed at its bit weight.
pub open spec fn flag_bit(b: bool, weight: u8) -> u8 {
    if b {
        weight
    } else {
        0
    }
}

impl DnsHeader {
    /// The opcode is a 4-bit field.
    pub open spec fn wf(self) -> bool {
        self.opcode < 16
    }

    /// The upper flags byte: recursion-desired, truncation,
    /// authoritative-answer, opcode and the response bit.
    pub open spec fn flags_hi(self) -> u8 {
        (flag_bit(self.recursion_desired, 1) + flag_bit(self.truncated_message, 2) + flag_bit(
            self.authoritative_answer,
            4,
        ) + self.opcode * 8 + flag_bit(self.response, 128)) as u8
    }

    /// The lower flags byte: result code, checking-disabled,
    /// authenticated-data, the reserved bit and recursion-available.
    pub open spec fn flags_lo(self) -> u8 {
        (self.rescode.spec_to_num() + flag_bit(self.checking_disabled, 16) + flag_bit(
            self.authed_data,
            32,
        ) + flag_bit(self.z, 64) + flag_bit(self.recursion_available, 128)) as u8
    }

    /// The 12 wire bytes of the header.
    pub open spec fn wire(self) -> Seq<u8> {
        u16_bytes(self.id) + seq![self.flags_hi(), self.flags_lo()] + u16_bytes(self.questions)
            + u16_bytes(self.answers) + u16_bytes(self.authoritative_entries) + u16_bytes(
            self.resource_entries,
        )
    }

    /// The header encoded at position `p` of `buf`.
    pub open spec fn parse(buf: Seq<u8>, p: int) -> DnsHeader
        recommends
            0 <= p,
            p + 12 <= buf.len(),
    {
        let hi = buf[p + 2];
        let lo = buf[p + 3];
        DnsHeader {
            id: be16(buf[p], buf[p + 1]),
            recursion_desired: hi % 2 == 1,
            truncated_message: (hi / 2) % 2 == 1,
            authoritative_answer: (hi / 4) % 2 == 1,
            opcode: ((hi / 8) % 16) as u8,
            response: (hi / 128) % 2 == 1,
            rescode: ResultCode::spec_from_num((lo % 16) as u8),
            checking_disabled: (lo / 16) % 2 == 1,
            authed_data: (lo / 32) % 2 == 1,
            z: (lo / 64) % 2 == 1,
            recursion_available: (lo / 128) % 2 == 1,
            questions: be16(buf[p + 4], buf[p + 5]),
            answers: be16(buf[p + 6], buf[p + 7]),
            authoritative_entries: be16(buf[p + 8], buf[p + 9]),
            resource_entries: be16(buf[p + 10], buf[p + 11]),
        }
    }

    /// A fresh header: zero id, all flags clear, `NOERROR`, zero counts.
    pub fn new() -> (r: DnsHeader)
        ensures
            r == DnsHeader::default_spec(),
    {
        DnsHeader {
            id: 0,
            recursion_desired: false,
            truncated_message: false,
            authoritative_answer: false,
            opcode: 0,
            response: false,
            rescode: ResultCode::NOERROR,
            checking_disabled: false,
            authed_data: false,
            z: false,
            recursion_available: false,
            questions: 0,
            answers: 0,
            authoritative_entries: 0,
            resource_entries: 0,
        }
    }

    /// The value `new` returns.
    pub open spec fn default_spec() -> DnsHeader {
        DnsHeader {
            id: 0,
            recursion_desired: false,
            truncated_message: false,
            authoritative_answer: false,
            opcode: 0,
            response: false,
            rescode: ResultCode::NOERROR,
            checking_disabled: false,
            authed_data: false,
            z: false,
            recursion_available: false,
            questions: 0,
            answers: 0,
            authoritative_entries: 0,
            resource_entries: 0,
        }
    }

    /// Reads the header at the cursor into `self`; fails with
    /// `BufferBounds` exactly when fewer than 12 bytes remain.
    pub fn read(&mut self, buffer: &mut BytePacketBuffer) -> (r: Result<(), DnsError>)
        requires
            old(buffer).wf(),
        ensures
            final(buffer).wf(),
            final(buffer).buf@ == old(buffer).buf@,
            old(buffer).pos + 12 <= 512 ==> r is Ok
                && *final(self) == DnsHeader::parse(old(buffer).buf@, old(buffer).pos as int)
                && final(buffer).pos == old(buffer).pos + 12,
            old(buffer).pos + 12 > 512 ==> r == Err::<(), DnsError>(DnsError::BufferBounds)
                && final(buffer).pos == old(buffer).pos && *final(self) == *old(self),
    {
        if buffer.pos > 500 {
            return Err(DnsError::BufferBounds);
        }
        let ghost buf0 = buffer.buf@;
        let ghost p = buffer.pos as int;
        let id = buffer.read_u16()?;
        let flags = buffer.read_u16()?;
        let hi = (flags / 256) as u8;
        let lo = (flags % 256) as u8;
        proof {
            assert(flags == buf0[p + 2] as int * 256 + buf0[p + 3] as int);
            assert(flags as int / 256 == buf0[p + 2] as int) by (nonlinear_arith)
                requires
                    flags == buf0[p + 2] as int * 256 + buf0[p + 3] as int,
                    buf0[p + 3] < 256,
                    buf0[p + 2] < 256,
            ;
            assert(flags as int % 256 == buf0[p + 3] as int) by (nonlinear_arith)
                requires
                    flags == buf0[p + 2] as int * 256 + buf0[p + 3] as int,
                    buf0[p + 3] < 256,
                    buf0[p + 2] < 256,
            ;
        }
        self.id = id;
        self.recursion_desired = hi % 2 == 1;
        self.truncated_message = (hi / 2) % 2 == 1;
        self.authoritative_answer = (hi / 4) % 2 == 1;
        self.opcode = (hi / 8) % 16;
        self.response = (hi / 128) % 2 == 1;
        self.rescode = ResultCode::from_num(lo % 16);
        self.checking_disabled = (lo / 16) % 2 == 1;
        self.authed_data = (lo / 32) % 2 == 1;
        self.z = (lo / 64) % 2 == 1;
        self.recursion_available = (lo / 128) % 2 == 1;
        self.questions = buffer.read_u16()?;
        self.answers = buffer.read_u16()?;
        self.authoritative_entries = buffer.read_u16()?;
        self.resource_entries = buffer.read_u16()?;
        Ok(())
    }

    /// Writes the 12 header bytes at the cursor; fails with
    /// `BufferBounds` exactly when they would not fit, and then changes
    /// nothing.
    pub fn write(&self, buffer: &mut BytePacketBuffer) -> (r: Result<(), DnsError>)
        requires
            old(buffer).wf(),
            self.wf(),
        ensures
            final(buffer).wf(),
            old(buffer).pos + 12 <= 512 ==> r is Ok
                && final(buffer).buf@ == spliced(old(buffer).buf@, old(buffer).pos as int, self.wire())
                && final(buffer).pos == old(buffer).pos + 12,
            old(buffer).pos + 12 > 512 ==> r == Err::<(), DnsError>(DnsError::BufferBounds)
                && final(buffer).buf@ == old(buffer).buf@ && final(buffer).pos == old(buffer).pos,
    {
        if buffer.pos > 500 {
            return Err(DnsError::BufferBounds);
        }
        let ghost buf0 = buffer.buf@;
        let ghost p = buffer.pos as int;
        buffer.write_u16(self.id)?;
        let hi = (if self.recursion_desired { 1u8 } else { 0u8 })
            + (if self.truncated_message { 2u8 } else { 0u8 })
            + (if self.authoritative_answer { 4u8 } else { 0u8 })
            + self.opcode * 8
            + (if self.response { 128u8 } else { 0u8 });
        let lo = self.rescode.to_num()
            + (if self.checking_disabled { 16u8 } else { 0u8 })
            + (if self.authed_data { 32u8 } else { 0u8 })
            + (if self.z { 64u8 } else { 0u8 })
            + (if self.recursion_available { 128u8 } else { 0u8 });
        buffer.write_u8(hi)?;
        buffer.write_u8(lo)?;
        buffer.write_u16(self.questions)?;
        buffer.write_u16(self.answers)?;
        buffer.write_u16(self.authoritative_entries)?;
        buffer.write_u16(self.resource_entries)?;
        proof {
            let w1 = u16_bytes(self.id);
            let w2 = w1 + seq![self.flags_hi()];
            let w3 = w2 + seq![self.flags_lo()];
            let w4 = w3 + u16_bytes(self.questions);
            let w5 = w4 + u16_bytes(self.answers);
            let w6 = w5 + u16_bytes(self.authoritative_entries);
            let w7 = w6 + u16_bytes(self.resource_entries);
            crate::byte_packet_buffer::lemma_spliced_concat(buf0, p, w1, seq![self.flags_hi()]);
            crate::byte_packet_buffer::lemma_spliced_concat(buf0, p, w2, seq![self.flags_lo()]);
            crate::byte_packet_buffer::lemma_spliced_concat(buf0, p, w3, u16_bytes(self.questions));
            crate::byte_packet_buffer::lemma_spliced_concat(buf0, p, w4, u16_bytes(self.answers));
            crate::byte_packet_buffer::lemma_spliced_concat(
                buf0,
                p,
                w5,
                u16_bytes(self.authoritative_entries),
            );
            crate::byte_packet_buffer::lemma_spliced_concat(
                buf0,
                p,
                w6,
                u16_bytes(self.resource_entries),
            );
            assert(buffer.buf@ == spliced(buf0, p, w7));
            assert(w7 =~= self.wire());
        }
        Ok(())
    }
}

/// Decoding inverts encoding: parsing the 12 wire bytes of any
/// well-formed header yields that header again.
pub proof fn lemma_header_round_trip(h: DnsHeader, buf: Seq<u8>, p: int)
    requires
        h.wf(),
        buf.len() == 512,
        0 <= p,
        p + 12 <= 512,
        buf.subrange(p, p + 12) == h.wire(),
    ensures
        DnsHeader::parse(buf, p) == h,
{
    let w = h.wire();
    assert(buf[p] == w[0] && buf[p + 1] == w[1] && buf[p + 2] == w[2] && buf[p + 3] == w[3]
        && buf[p + 4] == w[4] && buf[p + 5] == w[5] && buf[p + 6] == w[6] && buf[p + 7] == w[7]
        && buf[p + 8] == w[8] && buf[p + 9] == w[9] && buf[p + 10] == w[10]
        && buf[p + 11] == w[11]) by {
        assert(buf.subrange(p, p + 12) == w);
        assert(forall|i: int| 0 <= i < 12 ==> #[trigger] buf.subrange(p, p + 12)[i] == buf[p + i]);
    }
    lemma_flags_hi_fields(h);
    lemma_flags_lo_fields(h);
    crate::byte_packet_buffer::lemma_be16_of_u16_bytes(h.id);
    crate::byte_packet_buffer::lemma_be16_of_u16_bytes(h.questions);
    crate::byte_packet_buffer::lemma_be16_of_u16_bytes(h.answers);
    crate::byte_packet_buffer::lemma_be16_of_u16_bytes(h.authoritative_entries);
    crate::byte_packet_buffer::lemma_be16_of_u16_bytes(h.resource_entries);
    crate::result_code::lemma_result_code_round_trip(h.rescode);
}

/// Each flag of the upper flags byte is recovered by its bit position.
pub proof fn lemma_flags_hi_fields(h: DnsHeader)
    requires
        h.wf(),
    ensures
        h.flags_hi() % 2 == 1 <==> h.recursion_desired,
        (h.flags_hi() / 2) % 2 == 1 <==> h.truncated_message,
        (h.flags_hi() / 4) % 2 == 1 <==> h.authoritative_answer,
        (h.flags_hi() / 8) % 16 == h.opcode,
        (h.flags_hi() / 128) % 2 == 1 <==> h.response,
{
    let r: u8 = if h.recursion_desired { 1 } else { 0 };
    let t: u8 = if h.truncated_message { 1 } else { 0 };
    let a: u8 = if h.authoritative_answer { 1 } else { 0 };
    let o: u8 = h.opcode;
    let q: u8 = if h.response { 1 } else { 0 };
    let x: u8 = (r + t * 2 + a * 4 + o * 8 + q * 128) as u8;
    assert(x % 2 == r && (x / 2) % 2 == t && (x / 4) % 2 == a && (x / 8) % 16 == o && (x / 128)
        % 2 == q) by (bit_vector)
        requires
            r <= 1 && t <= 1 && a <= 1 && o < 16 && q <= 1 && x == (r + t * 2 + a * 4 + o * 8 + q
                * 128) as u8,
    ;
}

/// Each field of the lower flags byte is recovered by its bit position.
pub proof fn lemma_flags_lo_fields(h: DnsHeader)
    ensures
        (h.flags_lo() % 16) as u8 == h.rescode.spec_to_num(),
        (h.flags_lo() / 16) % 2 == 1 <==> h.checking_disabled,
        (h.flags_lo() / 32) % 2 == 1 <==> h.authed_data,
        (h.flags_lo() / 64) % 2 == 1 <==> h.z,
        (h.flags_lo() / 128) % 2 == 1 <==> h.recursion_available,
{
    let n: u8 = h.rescode.spec_to_num();
    let c: u8 = if h.checking_disabled { 1 } else { 0 };
    let d: u8 = if h.authed_data { 1 } else { 0 };
    let z: u8 = if h.z { 1 } else { 0 };
    let v: u8 = if h.recursion_available { 1 } else { 0 };
    let x: u8 = (n + c * 16 + d * 32 + z * 64 + v * 128) as u8;
    assert(x % 16 == n && (x / 16) % 2 == c && (x / 32) % 2 == d && (x / 64) % 2 == z && (x / 128)
        % 2 == v) by (bit_vector)
        requires
            n < 16 && c <= 1 && d <= 1 && z <= 1 && v <= 1 && x == (n + c * 16 + d * 32 + z * 64
                + v * 128) as u8,
    ;
}

} // verus!
