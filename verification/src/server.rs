//! The per-query server dispatch: what to resolve for an inbound
//! request and how to assemble the response.  The surrounding loop —
//! sockets, datagrams, logging — lives outside the library; these
//! functions carry the rules it applies.

use vstd::prelude::*;

use crate::dns_packet::{question_views, record_views, DnsPacket};
use crate::dns_question::DnsQuestion;
use crate::dns_record::DnsRecord;
use crate::result_code::ResultCode;

verus! {

/// Copies of the records of one section, in order.
fn duplicate_records(v: &Vec<DnsRecord>) -> (r: Vec<DnsRecord>)
    ensures
        record_views(r@) == record_views(v@),
{
    let mut out: Vec<DnsRecord> = Vec::new();
    let mut i: usize = 0;
    while i < v.len()
        invariant
            i <= v@.len(),
            out@.len() == i,
            forall|k: int| 0 <= k < i ==> out@[k]@ == v@[k]@,
        decreases v@.len() - i,
    {
        out.push(v[i].duplicate());
        i += 1;
    }
    proof {
        assert(record_views(out@) =~= record_views(v@));
    }
    out
}

/// The question the server resolves for this request: the first one;
/// `None` exactly when the request carries no question at all, in
/// which case the response is `FORMERR` and nothing is resolved.
/// Further questions, if present, are ignored.
pub fn query_of(request: &DnsPacket) -> (r: Option<DnsQuestion>)
    ensures
        request@.questions.len() > 0 <==> r is Some,
        r is Some ==> r->0@ == request@.questions[0],
    {
    if request.questions.len() > 0 {
        Some(request.questions[0].duplicate())
    } else {
        None
    }
}

/// Assembles the response to `request`.  The transaction id is echoed;
/// the response, recursion-desired and recursion-available flags are
/// set.  With no question the result code is `FORMERR`; with a failed
/// resolution (`outcome` of `None`) it is `SERVFAIL`; in both cases
/// every section is empty.  On success the first question is echoed,
/// the upstream result code is propagated and all three record
/// sections are copied verbatim.
pub fn build_response(request: &DnsPacket, outcome: Option<&DnsPacket>) -> (r: DnsPacket)
    ensures
        r@.header.id == request@.header.id,
        r@.header.response && r@.header.recursion_desired && r@.header.recursion_available,
        !r@.header.authoritative_answer && !r@.header.truncated_message && r@.header.opcode == 0
            && !r@.header.z && !r@.header.authed_data && !r@.header.checking_disabled,
        r@.header.wf(),
        request@.questions.len() == 0 ==> r@.header.rescode == ResultCode::FORMERR
            && r@.questions.len() == 0 && r@.answers.len() == 0 && r@.authorities.len() == 0
            && r@.resources.len() == 0,
        request@.questions.len() > 0 && outcome is None ==> r@.header.rescode
            == ResultCode::SERVFAIL && r@.questions.len() == 0 && r@.answers.len() == 0
            && r@.authorities.len() == 0 && r@.resources.len() == 0,
        request@.questions.len() > 0 ==> match outcome {
            Some(res) => r@.header.rescode == res@.header.rescode && r@.questions == seq![
                request@.questions[0],
            ] && r@.answers == res@.answers && r@.authorities == res@.authorities
                && r@.resources == res@.resources,
            None => true,
        },
    {
    let mut packet = DnsPacket::new();
    packet.header.id = request.header.id;
    packet.header.recursion_desired = true;
    packet.header.recursion_available = true;
    packet.header.response = true;
    if request.questions.len() == 0 {
        packet.header.rescode = ResultCode::FORMERR;
    } else {
        match outcome {
            Some(result) => {
                packet.questions.push(request.questions[0].duplicate());
                packet.header.rescode = result.header.rescode;
                packet.answers = duplicate_records(&result.answers);
                packet.authorities = duplicate_records(&result.authorities);
                packet.resources = duplicate_records(&result.resources);
                proof {
                    assert(question_views(packet.questions@) =~= seq![request@.questions[0]]);
                }
            },
            None => {
                packet.header.rescode = ResultCode::SERVFAIL;
            },
        }
    }
    packet
}

} // verus!
