//! A whole DNS message: header plus the four record sections, with the
//! codec between message values and wire bytes, and the referral
//! queries the resolver asks of a response.

use vstd::prelude::*;
use vstd::string::StringSliceAdditionalSpecFns;
use vstd::utf8::encode_utf8;

use crate::byte_packet_buffer::{spliced, BytePacketBuffer};
use crate::dns_error::DnsError;
use crate::dns_header::DnsHeader;
use crate::dns_question::{spec_parse_question, DnsQuestion, QuestionModel};
use crate::dns_record::{spec_parse_record, DnsRecord, RecordModel};
use crate::query_type::QueryType;

verus! {

/// Whether the UTF-8 bytes of `s` end with those of `t`; over DNS names
/// this is the subdomain test the referral search uses.
pub fn name_ends_with(s: &str, t: &str) -> (r: bool)
    ensures
        r == bytes_ends_with(s.spec_bytes(), t.spec_bytes()),
{
    let sb = s.as_bytes();
    let tb = t.as_bytes();
    if tb.len() > sb.len() {
        return false;
    }
    let off = sb.len() - tb.len();
    let mut j: usize = 0;
    while j < tb.len()
        invariant
            sb@ == s.spec_bytes(),
            tb@ == t.spec_bytes(),
            tb@.len() <= sb@.len(),
            sb@.len() <= usize::MAX,
            off == sb@.len() - tb@.len(),
            j <= tb@.len(),
            forall|k: int| 0 <= k < j ==> sb@[off + k] == tb@[k],
        decreases tb@.len() - j,
    {
        if sb[off + j] != tb[j] {
            proof {
                assert(sb@.skip(off as int)[j as int] != tb@[j as int]);
            }
            return false;
        }
        j += 1;
    }
    proof {
        assert(sb@.skip(off as int) =~= tb@);
    }
    true
}

/// Whether two names hold the same characters, decided by comparing
/// their UTF-8 bytes.
pub fn names_equal(a: &str, b: &str) -> (r: bool)
    ensures
        r == (a@ == b@),
{
    let ab = a.as_bytes();
    let bb = b.as_bytes();
    if ab.len() != bb.len() {
        proof {
            assert(a@ != b@);
        }
        return false;
    }
    let mut j: usize = 0;
    while j < ab.len()
        invariant
            ab@ == a.spec_bytes(),
            bb@ == b.spec_bytes(),
            ab@.len() == bb@.len(),
            j <= ab@.len(),
            forall|k: int| 0 <= k < j ==> ab@[k] == bb@[k],
        decreases ab@.len() - j,
    {
        if ab[j] != bb[j] {
            proof {
                assert(a@ != b@);
            }
            return false;
        }
        j += 1;
    }
    proof {
        assert(ab@ =~= bb@);
        vstd::utf8::encode_utf8_decode_utf8(a@);
        vstd::utf8::encode_utf8_decode_utf8(b@);
    }
    true
}

/// The models of a vector of questions, in order.
pub open spec fn question_views(v: Seq<DnsQuestion>) -> Seq<QuestionModel> {
    v.map_values(|q: DnsQuestion| q@)
}

/// The models of a vector of records, in order.
pub open spec fn record_views(v: Seq<DnsRecord>) -> Seq<RecordModel> {
    v.map_values(|x: DnsRecord| x@)
}

/// The mathematical value of a message.
pub struct PacketModel {
    pub header: DnsHeader,
    pub questions: Seq<QuestionModel>,
    pub answers: Seq<RecordModel>,
    pub authorities: Seq<RecordModel>,
    pub resources: Seq<RecordModel>,
}

/// `n` questions decoded in order from position `p`.
pub open spec fn spec_parse_questions(buf: Seq<u8>, p: int, n: int) -> Result<
    (Seq<QuestionModel>, int),
    DnsError,
>
    decreases n,
{
    if n <= 0 {
        Ok((Seq::empty(), p))
    } else {
        match spec_parse_question(buf, p) {
            Err(e) => Err(e),
            Ok((q, e)) => match spec_parse_questions(buf, e, n - 1) {
                Err(er) => Err(er),
                Ok((rest, end)) => Ok((seq![q] + rest, end)),
            },
        }
    }
}

/// `n` records decoded in order from position `p`.
pub open spec fn spec_parse_records(buf: Seq<u8>, p: int, n: int) -> Result<
    (Seq<RecordModel>, int),
    DnsError,
>
    decreases n,
{
    if n <= 0 {
        Ok((Seq::empty(), p))
    } else {
        match spec_parse_record(buf, p) {
            Err(e) => Err(e),
            Ok((r, e)) => match spec_parse_records(buf, e, n - 1) {
                Err(er) => Err(er),
                Ok((rest, end)) => Ok((seq![r] + rest, end)),
            },
        }
    }
}

/// The message encoded in a 512-byte packet: the header at position 0,
/// then the four sections, each with as many entries as the header's
/// corresponding count claims.
pub open spec fn spec_parse_packet(buf: Seq<u8>) -> Result<PacketModel, DnsError> {
    let h = DnsHeader::parse(buf, 0);
    match spec_parse_questions(buf, 12, h.questions as int) {
        Err(e) => Err(e),
        Ok((qs, p1)) => match spec_parse_records(buf, p1, h.answers as int) {
            Err(e) => Err(e),
            Ok((ans, p2)) => match spec_parse_records(buf, p2, h.authoritative_entries as int) {
                Err(e) => Err(e),
                Ok((auth, p3)) => match spec_parse_records(buf, p3, h.resource_entries as int) {
                    Err(e) => Err(e),
                    Ok((res, _p4)) => Ok(
                        PacketModel {
                            header: h,
                            questions: qs,
                            answers: ans,
                            authorities: auth,
                            resources: res,
                        },
                    ),
                },
            },
        },
    }
}

/// The concatenated wire bytes of a question section.
pub open spec fn questions_wire(qs: Seq<QuestionModel>) -> Option<Seq<u8>>
    decreases qs.len(),
{
    if qs.len() == 0 {
        Some(Seq::empty())
    } else {
        match qs[0].wire() {
            None => None,
            Some(w) => match questions_wire(qs.drop_first()) {
                None => None,
                Some(rest) => Some(w + rest),
            },
        }
    }
}

/// The concatenated wire bytes of a record section.
pub open spec fn records_wire(rs: Seq<RecordModel>) -> Option<Seq<u8>>
    decreases rs.len(),
{
    if rs.len() == 0 {
        Some(Seq::empty())
    } else {
        match rs[0].wire() {
            None => None,
            Some(w) => match records_wire(rs.drop_first()) {
                None => None,
                Some(rest) => Some(w + rest),
            },
        }
    }
}

/// The concatenated wire bytes of the four sections in order.
pub open spec fn sections_wire_of(
    q: Seq<QuestionModel>,
    a: Seq<RecordModel>,
    u: Seq<RecordModel>,
    r: Seq<RecordModel>,
) -> Option<Seq<u8>> {
    match questions_wire(q) {
        None => None,
        Some(qw) => match records_wire(a) {
            None => None,
            Some(aw) => match records_wire(u) {
                None => None,
                Some(uw) => match records_wire(r) {
                    None => None,
                    Some(rw) => Some(qw + aw + uw + rw),
                },
            },
        },
    }
}

/// The wire bytes of a whole message given its written header and the
/// models of its four sections.
pub open spec fn message_wire(
    h: DnsHeader,
    q: Seq<QuestionModel>,
    a: Seq<RecordModel>,
    u: Seq<RecordModel>,
    r: Seq<RecordModel>,
) -> Option<Seq<u8>> {
    match sections_wire_of(q, a, u, r) {
        None => None,
        Some(sw) => Some(h.wire() + sw),
    }
}

/// `s` ends with `t`.
pub open spec fn bytes_ends_with(s: Seq<u8>, t: Seq<u8>) -> bool {
    t.len() <= s.len() && s.skip(s.len() - t.len()) == t
}

/// The host named by the first authority-section NS entry whose zone
/// the queried name falls under.
pub open spec fn find_ns_host(auths: Seq<RecordModel>, qb: Seq<u8>) -> Option<Seq<char>>
    decreases auths.len(),
{
    if auths.len() == 0 {
        None
    } else {
        match auths[0] {
            RecordModel::Ns { domain, host, .. } => if bytes_ends_with(qb, encode_utf8(domain)) {
                Some(host)
            } else {
                find_ns_host(auths.drop_first(), qb)
            },
            _ => find_ns_host(auths.drop_first(), qb),
        }
    }
}

/// The address of the first A record owned by `host`.
pub open spec fn find_a_for(rs: Seq<RecordModel>, host: Seq<char>) -> Option<u32>
    decreases rs.len(),
{
    if rs.len() == 0 {
        None
    } else {
        match rs[0] {
            RecordModel::A { domain, addr, .. } => if domain == host {
                Some(addr)
            } else {
                find_a_for(rs.drop_first(), host)
            },
            _ => find_a_for(rs.drop_first(), host),
        }
    }
}

/// The glue address of the first matching NS entry that has one: walks
/// the authority section in order and, per matching NS entry, looks for
/// an A record of that host in the additional section.
pub open spec fn find_glued_ns(auths: Seq<RecordModel>, res: Seq<RecordModel>, qb: Seq<u8>) -> Option<u32>
    decreases auths.len(),
{
    if auths.len() == 0 {
        None
    } else {
        match auths[0] {
            RecordModel::Ns { domain, host, .. } => if bytes_ends_with(qb, encode_utf8(domain)) {
                match find_a_for(res, host) {
                    Some(addr) => Some(addr),
                    None => find_glued_ns(auths.drop_first(), res, qb),
                }
            } else {
                find_glued_ns(auths.drop_first(), res, qb)
            },
            _ => find_glued_ns(auths.drop_first(), res, qb),
        }
    }
}

/// The address of the first A record in a sequence of answers.
pub open spec fn first_a_addr(rs: Seq<RecordModel>) -> Option<u32>
    decreases rs.len(),
{
    if rs.len() == 0 {
        None
    } else {
        match rs[0] {
            RecordModel::A { addr, .. } => Some(addr),
            _ => first_a_addr(rs.drop_first()),
        }
    }
}

/// A whole message: header, questions, answers, authorities and
/// additional records.
#[derive(Debug, PartialEq, Eq, Clone)]
pub struct DnsPacket {
    pub header: DnsHeader,
    pub questions: Vec<DnsQuestion>,
    pub answers: Vec<DnsRecord>,
    pub authorities: Vec<DnsRecord>,
    pub resources: Vec<DnsRecord>,
}

impl View for DnsPacket {
    type V = PacketModel;

    open spec fn view(&self) -> PacketModel {
        PacketModel {
            header: self.header,
            questions: question_views(self.questions@),
            answers: record_views(self.answers@),
            authorities: record_views(self.authorities@),
            resources: record_views(self.resources@),
        }
    }
}

impl PacketModel {
    /// The header that is actually written: the stored header with the
    /// four counts recomputed from the section lengths.
    pub open spec fn counted_header(self) -> DnsHeader {
        DnsHeader {
            questions: self.questions.len() as u16,
            answers: self.answers.len() as u16,
            authoritative_entries: self.authorities.len() as u16,
            resource_entries: self.resources.len() as u16,
            ..self.header
        }
    }

    /// The message's wire bytes; `None` exactly when some name label is
    /// longer than 63 bytes or some record payload overflows its length
    /// field.
    pub open spec fn wire(self) -> Option<Seq<u8>> {
        message_wire(
            self.counted_header(),
            self.questions,
            self.answers,
            self.authorities,
            self.resources,
        )
    }
}

/// Reads `n` questions in order from the cursor.
fn read_questions(buffer: &mut BytePacketBuffer, n: u16) -> (r: Result<Vec<DnsQuestion>, DnsError>)
    requires
        old(buffer).wf(),
    ensures
        final(buffer).wf(),
        final(buffer).buf@ == old(buffer).buf@,
        match spec_parse_questions(old(buffer).buf@, old(buffer).pos as int, n as int) {
            Ok((models, end)) => r is Ok && question_views(r->Ok_0@) == models
                && final(buffer).pos == end,
            Err(e) => r == Err::<Vec<DnsQuestion>, DnsError>(e),
        },
{
    let ghost buf0 = buffer.buf@;
    let ghost pos0 = buffer.pos as int;
    let mut out: Vec<DnsQuestion> = Vec::new();
    let mut i: u16 = 0;
    while i < n
        invariant
            buf0 == old(buffer).buf@,
            pos0 == old(buffer).pos as int,
            buffer.wf(),
            buffer.buf@ == buf0,
            i <= n,
            out@.len() == i as int,
            match spec_parse_questions(buf0, buffer.pos as int, n - i) {
                Ok((rest, end)) => spec_parse_questions(buf0, pos0, n as int) == Ok::<
                    _,
                    DnsError,
                >((question_views(out@) + rest, end)),
                Err(e) => spec_parse_questions(buf0, pos0, n as int) == Err::<
                    (Seq<QuestionModel>, int),
                    _,
                >(e),
            },
        decreases n - i,
    {
        let ghost models0 = question_views(out@);
        let mut question = DnsQuestion::new(String::new(), QueryType::UNKNOWN(0));
        question.read(buffer)?;
        out.push(question);
        i += 1;
        proof {
            let models1 = question_views(out@);
            assert(models1 =~= models0 + seq![question@]);
            if let Ok((rest, end)) = spec_parse_questions(buf0, buffer.pos as int, n - i) {
                assert(models0 + (seq![question@] + rest) =~= models1 + rest);
            }
        }
    }
    proof {
        assert(question_views(out@) + Seq::<QuestionModel>::empty() =~= question_views(out@));
    }
    Ok(out)
}

/// Reads `n` records in order from the cursor.
fn read_records(buffer: &mut BytePacketBuffer, n: u16) -> (r: Result<Vec<DnsRecord>, DnsError>)
    requires
        old(buffer).wf(),
    ensures
        final(buffer).wf(),
        final(buffer).buf@ == old(buffer).buf@,
        match spec_parse_records(old(buffer).buf@, old(buffer).pos as int, n as int) {
            Ok((models, end)) => r is Ok && record_views(r->Ok_0@) == models
                && final(buffer).pos == end,
            Err(e) => r == Err::<Vec<DnsRecord>, DnsError>(e),
        },
{
    let ghost buf0 = buffer.buf@;
    let ghost pos0 = buffer.pos as int;
    let mut out: Vec<DnsRecord> = Vec::new();
    let mut i: u16 = 0;
    while i < n
        invariant
            buf0 == old(buffer).buf@,
            pos0 == old(buffer).pos as int,
            buffer.wf(),
            buffer.buf@ == buf0,
            i <= n,
            out@.len() == i as int,
            match spec_parse_records(buf0, buffer.pos as int, n - i) {
                Ok((rest, end)) => spec_parse_records(buf0, pos0, n as int) == Ok::<
                    _,
                    DnsError,
                >((record_views(out@) + rest, end)),
                Err(e) => spec_parse_records(buf0, pos0, n as int) == Err::<
                    (Seq<RecordModel>, int),
                    _,
                >(e),
            },
        decreases n - i,
    {
        let ghost models0 = record_views(out@);
        let rec = DnsRecord::read(buffer)?;
        out.push(rec);
        i += 1;
        proof {
            let models1 = record_views(out@);
            assert(models1 =~= models0 + seq![rec@]);
            if let Ok((rest, end)) = spec_parse_records(buf0, buffer.pos as int, n - i) {
                assert(models0 + (seq![rec@] + rest) =~= models1 + rest);
            }
        }
    }
    proof {
        assert(record_views(out@) + Seq::<RecordModel>::empty() =~= record_views(out@));
    }
    Ok(out)
}

/// Writes every question of a section in order at the cursor.
#[verifier::rlimit(100)]
#[verifier::spinoff_prover]
fn write_questions(buffer: &mut BytePacketBuffer, qs: &Vec<DnsQuestion>) -> (r: Result<
    (),
    DnsError,
>)
    requires
        old(buffer).wf(),
        old(buffer).pos <= 512,
    ensures
        final(buffer).wf(),
        match questions_wire(question_views(qs@)) {
            Some(w) => (old(buffer).pos + w.len() <= 512 ==> r is Ok
                && final(buffer).buf@ == spliced(old(buffer).buf@, old(buffer).pos as int, w)
                && final(buffer).pos == old(buffer).pos + w.len()) && (old(buffer).pos + w.len()
                > 512 ==> r == Err::<(), DnsError>(DnsError::BufferBounds)),
            None => r == Err::<(), DnsError>(DnsError::LabelTooLong) || r == Err::<
                (),
                DnsError,
            >(DnsError::BufferBounds),
        },
{
    let ghost buf0 = buffer.buf@;
    let ghost pos0 = buffer.pos as int;
    let ghost models = question_views(qs@);
    let ghost mut ws: Seq<u8> = Seq::empty();
    let mut i: usize = 0;
    proof {
        assert(spliced(buf0, pos0, Seq::<u8>::empty()) =~= buf0);
        assert(models.skip(0) =~= models);
    }
    while i < qs.len()
        invariant
            buf0 == old(buffer).buf@,
            pos0 == old(buffer).pos as int,
            models == question_views(qs@),
            buffer.wf(),
            i <= qs@.len(),
            pos0 + ws.len() <= 512,
            buffer.pos as int == pos0 + ws.len(),
            buffer.buf@ == spliced(buf0, pos0, ws),
            match questions_wire(models.skip(i as int)) {
                Some(rest) => questions_wire(models) == Some(ws + rest),
                None => questions_wire(models) is None,
            },
        decreases qs@.len() - i,
    {
        match qs[i].write(buffer) {
            Ok(()) => {},
            Err(e) => {
                proof {
                    assert(models.skip(i as int)[0] == models[i as int]);
                    assert(models.skip(i as int).drop_first() =~= models.skip(i as int + 1));
                    if let Some(w) = questions_wire(models) {
                        let wi = models[i as int].wire()->Some_0;
                        let rest = questions_wire(models.skip(i as int + 1))->Some_0;
                        assert(w == ws + (wi + rest));
                        assert(w.len() >= ws.len() + wi.len());
                        assert(pos0 + w.len() > 512);
                    }
                }
                return Err(e);
            },
        }
        proof {
            let qm = models[i as int];
            assert(models.skip(i as int)[0] == qm);
            assert(models.skip(i as int).drop_first() =~= models.skip(i as int + 1));
            let wi = qm.wire()->Some_0;
            crate::byte_packet_buffer::lemma_spliced_concat(buf0, pos0, ws, wi);
            ws = ws + wi;
            if let Some(rest) = questions_wire(models.skip(i as int + 1)) {
                assert((ws.subrange(0, ws.len() - wi.len()) + (wi + rest)) =~= ws + rest);
            }
        }
        i += 1;
    }
    proof {
        assert(models.skip(models.len() as int) =~= Seq::<QuestionModel>::empty());
        if let Some(rest) = questions_wire(models.skip(models.len() as int)) {
            assert(ws + rest =~= ws);
        }
    }
    Ok(())
}

/// Writes every record of a section in order at the cursor.
#[verifier::rlimit(100)]
#[verifier::spinoff_prover]
fn write_records(buffer: &mut BytePacketBuffer, rs: &Vec<DnsRecord>) -> (r: Result<(), DnsError>)
    requires
        old(buffer).wf(),
        old(buffer).pos <= 512,
    ensures
        final(buffer).wf(),
        match records_wire(record_views(rs@)) {
            Some(w) => (old(buffer).pos + w.len() <= 512 ==> r is Ok
                && final(buffer).buf@ == spliced(old(buffer).buf@, old(buffer).pos as int, w)
                && final(buffer).pos == old(buffer).pos + w.len()) && (old(buffer).pos + w.len()
                > 512 ==> r == Err::<(), DnsError>(DnsError::BufferBounds)),
            None => r == Err::<(), DnsError>(DnsError::LabelTooLong) || r == Err::<
                (),
                DnsError,
            >(DnsError::BufferBounds),
        },
{
    let ghost buf0 = buffer.buf@;
    let ghost pos0 = buffer.pos as int;
    let ghost models = record_views(rs@);
    let ghost mut ws: Seq<u8> = Seq::empty();
    let mut i: usize = 0;
    proof {
        assert(spliced(buf0, pos0, Seq::<u8>::empty()) =~= buf0);
        assert(models.skip(0) =~= models);
    }
    while i < rs.len()
        invariant
            buf0 == old(buffer).buf@,
            pos0 == old(buffer).pos as int,
            models == record_views(rs@),
            buffer.wf(),
            i <= rs@.len(),
            pos0 + ws.len() <= 512,
            buffer.pos as int == pos0 + ws.len(),
            buffer.buf@ == spliced(buf0, pos0, ws),
            match records_wire(models.skip(i as int)) {
                Some(rest) => records_wire(models) == Some(ws + rest),
                None => records_wire(models) is None,
            },
        decreases rs@.len() - i,
    {
        match rs[i].write(buffer) {
            Ok(()) => {},
            Err(e) => {
                proof {
                    assert(models.skip(i as int)[0] == models[i as int]);
                    assert(models.skip(i as int).drop_first() =~= models.skip(i as int + 1));
                    if let Some(w) = records_wire(models) {
                        let wi = models[i as int].wire()->Some_0;
                        let rest = records_wire(models.skip(i as int + 1))->Some_0;
                        assert(w == ws + (wi + rest));
                        assert(w.len() >= ws.len() + wi.len());
                        assert(pos0 + w.len() > 512);
                    }
                }
                return Err(e);
            },
        }
        proof {
            let rm = models[i as int];
            assert(models.skip(i as int)[0] == rm);
            assert(models.skip(i as int).drop_first() =~= models.skip(i as int + 1));
            let wi = rm.wire()->Some_0;
            crate::byte_packet_buffer::lemma_spliced_concat(buf0, pos0, ws, wi);
            ws = ws + wi;
            if let Some(rest) = records_wire(models.skip(i as int + 1)) {
                assert((ws.subrange(0, ws.len() - wi.len()) + (wi + rest)) =~= ws + rest);
            }
        }
        i += 1;
    }
    proof {
        assert(models.skip(models.len() as int) =~= Seq::<RecordModel>::empty());
        if let Some(rest) = records_wire(models.skip(models.len() as int)) {
            assert(ws + rest =~= ws);
        }
    }
    Ok(())
}

/// Writes the four sections in order at the cursor.
#[verifier::rlimit(100)]
#[verifier::spinoff_prover]
fn write_sections(
    buffer: &mut BytePacketBuffer,
    qs: &Vec<DnsQuestion>,
    ans: &Vec<DnsRecord>,
    auth: &Vec<DnsRecord>,
    res: &Vec<DnsRecord>,
) -> (r: Result<(), DnsError>)
    requires
        old(buffer).wf(),
        old(buffer).pos <= 512,
    ensures
        final(buffer).wf(),
        match sections_wire_of(
            question_views(qs@),
            record_views(ans@),
            record_views(auth@),
            record_views(res@),
        ) {
            Some(w) => (old(buffer).pos + w.len() <= 512 ==> r is Ok
                && final(buffer).buf@ == spliced(old(buffer).buf@, old(buffer).pos as int, w)
                && final(buffer).pos == old(buffer).pos + w.len()) && (old(buffer).pos + w.len()
                > 512 ==> r == Err::<(), DnsError>(DnsError::BufferBounds)),
            None => r == Err::<(), DnsError>(DnsError::LabelTooLong) || r == Err::<
                (),
                DnsError,
            >(DnsError::BufferBounds),
        },
{
    let ghost buf0 = buffer.buf@;
    let ghost p = buffer.pos as int;
    write_questions(buffer, qs)?;
    write_records(buffer, ans)?;
    write_records(buffer, auth)?;
    write_records(buffer, res)?;
    proof {
        if let Some(qw) = questions_wire(question_views(qs@)) {
            if let Some(aw) = records_wire(record_views(ans@)) {
                if let Some(uw) = records_wire(record_views(auth@)) {
                    if let Some(rw) = records_wire(record_views(res@)) {
                        crate::byte_packet_buffer::lemma_spliced_concat(buf0, p, qw, aw);
                        crate::byte_packet_buffer::lemma_spliced_concat(buf0, p, qw + aw, uw);
                        crate::byte_packet_buffer::lemma_spliced_concat(
                            buf0,
                            p,
                            qw + aw + uw,
                            rw,
                        );
                    }
                }
            }
        }
    }
    Ok(())
}

/// Writes a whole message at the cursor: the given header, then the
/// four sections in order.
#[verifier::rlimit(100)]
#[verifier::spinoff_prover]
fn write_message(
    buffer: &mut BytePacketBuffer,
    h: &DnsHeader,
    qs: &Vec<DnsQuestion>,
    ans: &Vec<DnsRecord>,
    auth: &Vec<DnsRecord>,
    res: &Vec<DnsRecord>,
) -> (r: Result<(), DnsError>)
    requires
        old(buffer).wf(),
        h.wf(),
    ensures
        final(buffer).wf(),
        match message_wire(
            *h,
            question_views(qs@),
            record_views(ans@),
            record_views(auth@),
            record_views(res@),
        ) {
            Some(w) => (old(buffer).pos + w.len() <= 512 ==> r is Ok
                && final(buffer).buf@ == spliced(old(buffer).buf@, old(buffer).pos as int, w)
                && final(buffer).pos == old(buffer).pos + w.len()) && (old(buffer).pos + w.len()
                > 512 ==> r == Err::<(), DnsError>(DnsError::BufferBounds)),
            None => r == Err::<(), DnsError>(DnsError::LabelTooLong) || r == Err::<
                (),
                DnsError,
            >(DnsError::BufferBounds),
        },
{
    let ghost buf0 = buffer.buf@;
    let ghost p = buffer.pos as int;
    h.write(buffer)?;
    write_sections(buffer, qs, ans, auth, res)?;
    proof {
        if let Some(sw) = sections_wire_of(
            question_views(qs@),
            record_views(ans@),
            record_views(auth@),
            record_views(res@),
        ) {
            crate::byte_packet_buffer::lemma_spliced_concat(buf0, p, h.wire(), sw);
        }
    }
    Ok(())
}

impl DnsPacket {
    /// An empty message with a fresh header.
    pub fn new() -> (r: DnsPacket)
        ensures
            r@.header == DnsHeader::default_spec(),
            r@.questions.len() == 0,
            r@.answers.len() == 0,
            r@.authorities.len() == 0,
            r@.resources.len() == 0,
    {
        let p = DnsPacket {
            header: DnsHeader::new(),
            questions: Vec::new(),
            answers: Vec::new(),
            authorities: Vec::new(),
            resources: Vec::new(),
        };
        proof {
            assert(p@.questions =~= Seq::<QuestionModel>::empty());
            assert(p@.answers =~= Seq::<RecordModel>::empty());
            assert(p@.authorities =~= Seq::<RecordModel>::empty());
            assert(p@.resources =~= Seq::<RecordModel>::empty());
        }
        p
    }

    /// Decodes the message held in `buffer`, whose cursor must sit at
    /// the start of the packet: header first, then each section with as
    /// many entries as its header count says.
    pub fn from_buffer(buffer: &mut BytePacketBuffer) -> (r: Result<DnsPacket, DnsError>)
        requires
            old(buffer).wf(),
            old(buffer).pos == 0,
        ensures
            final(buffer).wf(),
            final(buffer).buf@ == old(buffer).buf@,
            match spec_parse_packet(old(buffer).buf@) {
                Ok(m) => r is Ok && r->Ok_0@ == m,
                Err(e) => r == Err::<DnsPacket, DnsError>(e),
            },
    {
        let mut result = DnsPacket::new();
        result.header.read(buffer)?;
        result.questions = read_questions(buffer, result.header.questions)?;
        result.answers = read_records(buffer, result.header.answers)?;
        result.authorities = read_records(buffer, result.header.authoritative_entries)?;
        result.resources = read_records(buffer, result.header.resource_entries)?;
        Ok(result)
    }

    /// Recomputes the header counts from the section lengths and
    /// encodes the message at the cursor.  A name label longer than 63
    /// bytes gives `LabelTooLong`; bytes that would not fit in the
    /// packet give `BufferBounds`.
    pub fn write(&mut self, buffer: &mut BytePacketBuffer) -> (r: Result<(), DnsError>)
        requires
            old(buffer).wf(),
            old(self).header.wf(),
            old(self).questions@.len() <= 0xFFFF,
            old(self).answers@.len() <= 0xFFFF,
            old(self).authorities@.len() <= 0xFFFF,
            old(self).resources@.len() <= 0xFFFF,
        ensures
            final(buffer).wf(),
            final(self).header == old(self)@.counted_header(),
            final(self).questions == old(self).questions,
            final(self).answers == old(self).answers,
            final(self).authorities == old(self).authorities,
            final(self).resources == old(self).resources,
            match old(self)@.wire() {
                Some(w) => (old(buffer).pos + w.len() <= 512 ==> r is Ok
                    && final(buffer).buf@ == spliced(old(buffer).buf@, old(buffer).pos as int, w)
                    && final(buffer).pos == old(buffer).pos + w.len()) && (old(buffer).pos
                    + w.len() > 512 ==> r == Err::<(), DnsError>(DnsError::BufferBounds)),
                None => r == Err::<(), DnsError>(DnsError::LabelTooLong) || r == Err::<
                    (),
                    DnsError,
                >(DnsError::BufferBounds),
            },
    {
        self.header.questions = self.questions.len() as u16;
        self.header.answers = self.answers.len() as u16;
        self.header.authoritative_entries = self.authorities.len() as u16;
        self.header.resource_entries = self.resources.len() as u16;
        proof {
            assert(self.header == old(self)@.counted_header());
            assert(question_views(self.questions@) == old(self)@.questions);
            assert(record_views(self.answers@) == old(self)@.answers);
            assert(record_views(self.authorities@) == old(self)@.authorities);
            assert(record_views(self.resources@) == old(self)@.resources);
        }
        let h = self.header;
        write_message(buffer, &h, &self.questions, &self.answers, &self.authorities, &self.resources)
    }

    /// The address of the first A record in the additional section
    /// owned by `host`.
    pub fn glue_a_for(&self, host: &String) -> (r: Option<u32>)
        ensures
            r == find_a_for(self@.resources, host@),
    {
        let mut j: usize = 0;
        proof {
            assert(self@.resources.skip(0) =~= self@.resources);
        }
        while j < self.resources.len()
            invariant
                j <= self.resources@.len(),
                find_a_for(self@.resources, host@) == find_a_for(
                    self@.resources.skip(j as int),
                    host@,
                ),
            decreases self.resources@.len() - j,
        {
            proof {
                assert(self@.resources[j as int] == self.resources@[j as int]@);
                assert(self@.resources.skip(j as int)[0] == self@.resources[j as int]);
                assert(self@.resources.skip(j as int).drop_first() =~= self@.resources.skip(
                    j as int + 1,
                ));
            }
            match &self.resources[j] {
                DnsRecord::A { domain, addr, .. } => {
                    if names_equal(domain.as_str(), host.as_str()) {
                        return Some(*addr);
                    }
                },
                _ => {},
            }
            j += 1;
        }
        proof {
            assert(self@.resources.skip(self@.resources.len() as int) =~= Seq::<
                RecordModel,
            >::empty());
        }
        None
    }

    /// The glue address of the first authority-section NS entry for the
    /// queried name that has an A record in the additional section.
    pub fn get_resolved_ns(&self, qname: &str) -> (r: Option<u32>)
        ensures
            r == find_glued_ns(self@.authorities, self@.resources, qname.spec_bytes()),
    {
        let mut i: usize = 0;
        proof {
            assert(self@.authorities.skip(0) =~= self@.authorities);
        }
        while i < self.authorities.len()
            invariant
                i <= self.authorities@.len(),
                find_glued_ns(self@.authorities, self@.resources, qname.spec_bytes())
                    == find_glued_ns(
                    self@.authorities.skip(i as int),
                    self@.resources,
                    qname.spec_bytes(),
                ),
            decreases self.authorities@.len() - i,
        {
            proof {
                assert(self@.authorities[i as int] == self.authorities@[i as int]@);
                assert(self@.authorities.skip(i as int)[0] == self@.authorities[i as int]);
                assert(self@.authorities.skip(i as int).drop_first() =~= self@.authorities.skip(
                    i as int + 1,
                ));
            }
            match &self.authorities[i] {
                DnsRecord::NS { host, domain, .. } => {
                    if name_ends_with(qname, domain.as_str()) {
                        match self.glue_a_for(host) {
                            Some(addr) => {
                                return Some(addr);
                            },
                            None => {},
                        }
                    }
                },
                _ => {},
            }
            i += 1;
        }
        proof {
            assert(self@.authorities.skip(self@.authorities.len() as int) =~= Seq::<
                RecordModel,
            >::empty());
        }
        None
    }

    /// The host named by the first authority-section NS entry for the
    /// queried name, glued or not.
    pub fn get_unresolved_ns(&self, qname: &str) -> (r: Option<String>)
        ensures
            match find_ns_host(self@.authorities, qname.spec_bytes()) {
                Some(h) => r is Some && r->0@ == h,
                None => r is None,
            },
    {
        let mut i: usize = 0;
        proof {
            assert(self@.authorities.skip(0) =~= self@.authorities);
        }
        while i < self.authorities.len()
            invariant
                i <= self.authorities@.len(),
                find_ns_host(self@.authorities, qname.spec_bytes()) == find_ns_host(
                    self@.authorities.skip(i as int),
                    qname.spec_bytes(),
                ),
            decreases self.authorities@.len() - i,
        {
            proof {
                assert(self@.authorities[i as int] == self.authorities@[i as int]@);
                assert(self@.authorities.skip(i as int)[0] == self@.authorities[i as int]);
                assert(self@.authorities.skip(i as int).drop_first() =~= self@.authorities.skip(
                    i as int + 1,
                ));
            }
            match &self.authorities[i] {
                DnsRecord::NS { host, domain, .. } => {
                    if name_ends_with(qname, domain.as_str()) {
                        return Some(host.clone());
                    }
                },
                _ => {},
            }
            i += 1;
        }
        proof {
            assert(self@.authorities.skip(self@.authorities.len() as int) =~= Seq::<
                RecordModel,
            >::empty());
        }
        None
    }

    /// The address of the first A record in the answer section, if
    /// any.  Any answer would serve; taking the first keeps the walk
    /// deterministic.
    pub fn get_random_a(&self) -> (r: Option<u32>)
        ensures
            r == first_a_addr(self@.answers),
    {
        let mut i: usize = 0;
        proof {
            assert(self@.answers.skip(0) =~= self@.answers);
        }
        while i < self.answers.len()
            invariant
                i <= self.answers@.len(),
                first_a_addr(self@.answers) == first_a_addr(
                    self@.answers.skip(i as int),
                ),
            decreases self.answers@.len() - i,
        {
            proof {
                assert(self@.answers.skip(i as int)[0] == self@.answers[i as int]);
                assert(self@.answers.skip(i as int).drop_first() =~= self@.answers.skip(
                    i as int + 1,
                ));
            }
            match &self.answers[i] {
                DnsRecord::A { addr, .. } => {
                    return Some(*addr);
                },
                _ => {},
            }
            i += 1;
        }
        proof {
            assert(self@.answers.skip(self@.answers.len() as int) =~= Seq::<RecordModel>::empty());
        }
        None
    }
}

} // verus!
