//! One entry of a message's question section: a domain name, a query
//! type, and the (always Internet) class.

use vstd::prelude::*;
use vstd::string::StringSliceAdditionalSpecFns;
use vstd::utf8::encode_utf8;

use crate::byte_packet_buffer::{
    be16, parse_qname_at, qname_end_at, qname_wire, spliced, u16_bytes, BytePacketBuffer,
    QnameParse, MAX_JUMPS,
};
use crate::dns_error::DnsError;
use crate::query_type::QueryType;

verus! {

/// The mathematical value of a question: its name's characters and its
/// query type.
pub struct QuestionModel {
    pub name: Seq<char>,
    pub qtype: QueryType,
}

impl QuestionModel {
    /// The question's wire bytes: the uncompressed name, the type code
    /// and the Internet class code.  `None` exactly when a name label
    /// is longer than 63 bytes.
    pub open spec fn wire(self) -> Option<Seq<u8>> {
        match qname_wire(encode_utf8(self.name)) {
            None => None,
            Some(nw) => Some(nw + u16_bytes(self.qtype.spec_to_num()) + u16_bytes(1)),
        }
    }
}

/// The codec error a failed name parse surfaces as.
pub open spec fn qname_err(q: QnameParse) -> DnsError {
    match q {
        QnameParse::TooManyJumps => DnsError::MalformedMessage,
        _ => DnsError::BufferBounds,
    }
}

/// The question encoded at position `p` of `buf`, with the cursor
/// position after it, or the error the decoder reports.
pub open spec fn spec_parse_question(buf: Seq<u8>, p: int) -> Result<(QuestionModel, int), DnsError> {
    match parse_qname_at(buf, p, MAX_JUMPS as nat) {
        QnameParse::Name(n) => {
            let e = qname_end_at(buf, p);
            if e + 4 <= 512 {
                Ok(
                    (
                        QuestionModel {
                            name: n,
                            qtype: QueryType::spec_from_num(be16(buf[e], buf[e + 1])),
                        },
                        e + 4,
                    ),
                )
            } else {
                Err(DnsError::BufferBounds)
            }
        },
        q => Err(qname_err(q)),
    }
}

/// Decoding inverts encoding for questions: wherever a packet holds
/// the wire bytes of a well-formed question, the question parser reads
/// back exactly that question and stops right after it.
pub proof fn lemma_question_round_trip(q: QuestionModel, buf: Seq<u8>, at: int)
    requires
        crate::byte_packet_buffer::wf_name(q.name),
        q.qtype.wf(),
        q.wire() is Some,
        buf.len() == 512,
        0 <= at,
        at + q.wire()->Some_0.len() <= 512,
        buf.subrange(at, at + q.wire()->Some_0.len()) == q.wire()->Some_0,
    ensures
        spec_parse_question(buf, at) == Ok::<(QuestionModel, int), DnsError>(
            (q, at + q.wire()->Some_0.len()),
        ),
{
    let w = q.wire()->Some_0;
    let nw = qname_wire(encode_utf8(q.name))->Some_0;
    let num = q.qtype.spec_to_num();
    assert(forall|i: int| 0 <= i < w.len() ==> buf[at + i] == #[trigger] w[i]) by {
        assert(forall|i: int|
            0 <= i < w.len() ==> #[trigger] w[i] == buf.subrange(at, at + w.len())[i]);
    }
    assert(buf.subrange(at, at + nw.len()) =~= nw) by {
        assert forall|i: int| 0 <= i < nw.len() implies buf.subrange(at, at + nw.len())[i]
            == nw[i] by {
            assert(buf[at + i] == w[i]);
        }
    }
    crate::byte_packet_buffer::lemma_qname_round_trip(q.name, buf, at, MAX_JUMPS as nat);
    let e = at + nw.len();
    let k = nw.len() as int;
    assert(buf[at + (k + 0)] == w[k + 0]);
    assert(buf[at + (k + 1)] == w[k + 1]);
    assert(w[k + 0] == u16_bytes(num)[0]);
    assert(w[k + 1] == u16_bytes(num)[1]);
    crate::byte_packet_buffer::lemma_be16_of_u16_bytes(num);
    assert(be16(buf[e], buf[e + 1]) == num);
    crate::query_type::lemma_query_type_round_trip(q.qtype);
}

/// One question: a domain name and the type asked for.
#[derive(Debug, PartialEq, Eq, Clone)]
pub struct DnsQuestion {
    pub name: String,
    pub qtype: QueryType,
}

impl View for DnsQuestion {
    type V = QuestionModel;

    open spec fn view(&self) -> QuestionModel {
        QuestionModel { name: self.name@, qtype: self.qtype }
    }
}

impl DnsQuestion {
    pub fn new(name: String, qtype: QueryType) -> (r: DnsQuestion)
        ensures
            r@ == (QuestionModel { name: name@, qtype }),
    {
        DnsQuestion { name, qtype }
    }

    /// A copy with the same name characters and query type.
    pub fn duplicate(&self) -> (r: DnsQuestion)
        ensures
            r@ == self@,
    {
        DnsQuestion { name: self.name.clone(), qtype: self.qtype }
    }

    /// Reads the question at the cursor into `self`.  The class field
    /// is read and ignored.
    pub fn read(&mut self, buffer: &mut BytePacketBuffer) -> (r: Result<(), DnsError>)
        requires
            old(buffer).wf(),
        ensures
            final(buffer).wf(),
            final(buffer).buf@ == old(buffer).buf@,
            match spec_parse_question(old(buffer).buf@, old(buffer).pos as int) {
                Ok((q, end)) => r is Ok && final(self)@ == q && final(buffer).pos == end,
                Err(e) => r == Err::<(), DnsError>(e),
            },
    {
        let mut name = String::new();
        buffer.read_qname(&mut name)?;
        let qt_num = buffer.read_u16()?;
        let _class = buffer.read_u16()?;
        self.name = name;
        self.qtype = QueryType::from_num(qt_num);
        Ok(())
    }

    /// Writes the question at the cursor: name, type code, class 1.  A
    /// name label longer than 63 bytes gives `LabelTooLong`; bytes that
    /// would not fit give `BufferBounds`.
    pub fn write(&self, buffer: &mut BytePacketBuffer) -> (r: Result<(), DnsError>)
        requires
            old(buffer).wf(),
        ensures
            final(buffer).wf(),
            match self@.wire() {
                Some(w) => (old(buffer).pos + w.len() <= 512 ==> r is Ok
                    && final(buffer).buf@ == spliced(old(buffer).buf@, old(buffer).pos as int, w)
                    && final(buffer).pos == old(buffer).pos + w.len()) && (old(buffer).pos
                    + w.len() > 512 ==> r == Err::<(), DnsError>(DnsError::BufferBounds)),
                None => r == Err::<(), DnsError>(DnsError::LabelTooLong),
            },
    {
        let ghost buf0 = buffer.buf@;
        let ghost p = buffer.pos as int;
        buffer.write_qname(self.name.as_str())?;
        buffer.write_u16(self.qtype.to_num())?;
        buffer.write_u16(1)?;
        proof {
            if let Some(nw) = qname_wire(encode_utf8(self.name@)) {
                let w2 = nw + u16_bytes(self.qtype.spec_to_num());
                crate::byte_packet_buffer::lemma_spliced_concat(
                    buf0,
                    p,
                    nw,
                    u16_bytes(self.qtype.spec_to_num()),
                );
                crate::byte_packet_buffer::lemma_spliced_concat(buf0, p, w2, u16_bytes(1));
                assert(w2 + u16_bytes(1) =~= self@.wire()->Some_0);
            }
        }
        Ok(())
    }
}

} // verus!
