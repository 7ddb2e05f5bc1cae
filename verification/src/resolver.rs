//! The delegation-walk engine: a state machine that decides, from each
//! upstream response, whether the walk is finished, which nameserver to
//! ask next, or which nameserver address must itself be resolved first.
//! The caller performs one send/receive round trip per emitted query
//! and hands the decoded response back; a transport failure aborts the
//! whole walk.

use vstd::prelude::*;
use vstd::string::StringSliceAdditionalSpecFns;
use vstd::utf8::encode_utf8;

use crate::dns_packet::{
    find_glued_ns, find_ns_host, first_a_addr, DnsPacket, PacketModel,
};
use crate::query_type::QueryType;
use crate::result_code::ResultCode;

verus! {

/// How deep nested nameserver lookups may stack before the walk gives
/// up and returns its best response; defends against adversarial
/// delegation chains.
pub const MAX_DEPTH: usize = 16;

/// What one response means for the walk, in the order the rules are
/// tried.
pub enum HopDecision {
    /// Non-empty answer section with `NOERROR`: success terminal.
    Answer,
    /// `NXDOMAIN`: the name does not exist, terminal.
    NameError,
    /// A referral whose nameserver address is in the additional
    /// section: ask that address next.
    Follow(u32),
    /// A referral without a glue address: resolve the nameserver's own
    /// A record first.
    Recurse(Seq<char>),
    /// No referral information at all: best-effort terminal.
    GiveUp,
}

/// The decision the walk takes on `resp` for the query name whose
/// UTF-8 bytes are `qb`.
pub open spec fn decide_hop(resp: PacketModel, qb: Seq<u8>) -> HopDecision {
    if resp.answers.len() > 0 && resp.header.rescode == ResultCode::NOERROR {
        HopDecision::Answer
    } else if resp.header.rescode == ResultCode::NXDOMAIN {
        HopDecision::NameError
    } else if find_glued_ns(resp.authorities, resp.resources, qb) is Some {
        HopDecision::Follow(find_glued_ns(resp.authorities, resp.resources, qb)->Some_0)
    } else if find_ns_host(resp.authorities, qb) is Some {
        HopDecision::Recurse(find_ns_host(resp.authorities, qb)->Some_0)
    } else {
        HopDecision::GiveUp
    }
}

/// One suspended lookup: the name and type asked for, the nameserver
/// address the next query goes to, and — while a nested nameserver
/// lookup runs — the response that caused it.
pub struct Frame {
    pub qname: String,
    pub qtype: QueryType,
    pub ns: u32,
    pub saved: Option<DnsPacket>,
}

/// The mathematical value of a frame.
pub struct FrameModel {
    pub qname: Seq<char>,
    pub qtype: QueryType,
    pub ns: u32,
    pub saved: Option<PacketModel>,
}

impl View for Frame {
    type V = FrameModel;

    open spec fn view(&self) -> FrameModel {
        FrameModel {
            qname: self.qname@,
            qtype: self.qtype,
            ns: self.ns,
            saved: match self.saved {
                None => None,
                Some(p) => Some(p@),
            },
        }
    }
}

/// The models of a stack of frames, bottom first.
pub open spec fn frame_views(v: Seq<Frame>) -> Seq<FrameModel> {
    v.map_values(|f: Frame| f@)
}

/// The top frame of `frames` has finished with `resp`: frames unwind
/// until one regains an address to continue with, or the stack empties
/// and `resp` is the walk's result.  A parent whose nested lookup
/// yielded no address continues unwinding with its own saved response.
pub open spec fn complete_rec(frames: Seq<FrameModel>, resp: PacketModel) -> (
    Seq<FrameModel>,
    Option<PacketModel>,
)
    decreases frames.len(),
{
    if frames.len() <= 1 {
        (Seq::empty(), Some(resp))
    } else {
        let rest = frames.drop_last();
        let parent = rest.last();
        match first_a_addr(resp.answers) {
            Some(addr) => (
                rest.update(
                    rest.len() - 1,
                    FrameModel { ns: addr, saved: None, ..parent },
                ),
                None,
            ),
            None => match parent.saved {
                Some(s) => complete_rec(rest, s),
                None => (rest, Some(resp)),
            },
        }
    }
}

/// The walk's transition on one response: decide the hop for the top
/// frame, then follow, recurse (unless the stack is at its depth cap)
/// or unwind.
pub open spec fn step_spec(root: u32, frames: Seq<FrameModel>, resp: PacketModel) -> (
    Seq<FrameModel>,
    Option<PacketModel>,
)
    recommends
        frames.len() >= 1,
{
    let top = frames.last();
    match decide_hop(resp, encode_utf8(top.qname)) {
        HopDecision::Follow(addr) => (
            frames.update(frames.len() - 1, FrameModel { ns: addr, ..top }),
            None,
        ),
        HopDecision::Recurse(host) => if frames.len() >= MAX_DEPTH as int {
            complete_rec(frames, resp)
        } else {
            (
                frames.update(frames.len() - 1, FrameModel { saved: Some(resp), ..top }).push(
                    FrameModel { qname: host, qtype: QueryType::A, ns: root, saved: None },
                ),
                None,
            )
        },
        _ => complete_rec(frames, resp),
    }
}

/// The exec form of a hop decision.
pub enum Decision {
    Answer,
    NameError,
    Follow(u32),
    Recurse(String),
    GiveUp,
}

impl Decision {
    /// The decision this value stands for.
    pub open spec fn view_hop(self) -> HopDecision {
        match self {
            Decision::Answer => HopDecision::Answer,
            Decision::NameError => HopDecision::NameError,
            Decision::Follow(a) => HopDecision::Follow(a),
            Decision::Recurse(h) => HopDecision::Recurse(h@),
            Decision::GiveUp => HopDecision::GiveUp,
        }
    }
}

/// Decides what one response means for the walk of `qname`: success
/// and name-error terminals first, then a glued referral, then an
/// unglued one, then giving up.
pub fn decide(resp: &DnsPacket, qname: &str) -> (r: Decision)
    ensures
        r.view_hop() == decide_hop(resp@, qname.spec_bytes()),
{
    if resp.answers.len() > 0 && resp.header.rescode == ResultCode::NOERROR {
        return Decision::Answer;
    }
    if resp.header.rescode == ResultCode::NXDOMAIN {
        return Decision::NameError;
    }
    match resp.get_resolved_ns(qname) {
        Some(addr) => {
            return Decision::Follow(addr);
        },
        None => {},
    }
    match resp.get_unresolved_ns(qname) {
        Some(host) => {
            return Decision::Recurse(host);
        },
        None => {},
    }
    Decision::GiveUp
}

/// The delegation walk's state: a stack of lookups, innermost last,
/// and the root-server address nested lookups start from.
pub struct Resolver {
    pub frames: Vec<Frame>,
    pub root: u32,
}

impl Resolver {
    /// An active walk holds at least one frame, and every frame below
    /// the top is suspended on a nested lookup it saved its response
    /// for.
    pub open spec fn wf(&self) -> bool {
        self.frames@.len() >= 1 && forall|i: int|
            0 <= i < self.frames@.len() - 1 ==> frame_views(self.frames@)[i].saved is Some
    }

    /// Starts a walk of `qname` at the given root-server address.  The
    /// first query to send is `current()`.
    pub fn new(qname: String, qtype: QueryType, root: u32) -> (r: Resolver)
        ensures
            r.wf(),
            r.root == root,
            frame_views(r.frames@) =~= seq![
                FrameModel { qname: qname@, qtype, ns: root, saved: None },
            ],
    {
        let mut frames: Vec<Frame> = Vec::new();
        frames.push(Frame { qname, qtype, ns: root, saved: None });
        let r = Resolver { frames, root };
        proof {
            assert(frame_views(r.frames@) =~= seq![r.frames@[0]@]);
        }
        r
    }

    /// The query to send now: the top frame's nameserver address, name
    /// and type.
    pub fn current(&self) -> (r: (u32, String, QueryType))
        requires
            self.wf(),
        ensures
            ({
                let top = frame_views(self.frames@).last();
                r.0 == top.ns && r.1@ == top.qname && r.2 == top.qtype
            }),
    {
        let top = &self.frames[self.frames.len() - 1];
        proof {
            assert(frame_views(self.frames@).last() == self.frames@.last()@);
        }
        (top.ns, top.qname.clone(), top.qtype)
    }

    /// Feeds the walk the decoded response to its current query.
    /// `Some` is the walk's final response; `None` means another round
    /// trip is owed, with the query `current()` then describes.
    pub fn on_response(&mut self, resp: DnsPacket) -> (r: Option<DnsPacket>)
        requires
            old(self).wf(),
        ensures
            final(self).root == old(self).root,
            ({
                let (fs, out) = step_spec(old(self).root, frame_views(old(self).frames@), resp@);
                frame_views(final(self).frames@) == fs && (match (r, out) {
                    (Some(p), Some(m)) => p@ == m,
                    (None, None) => true,
                    _ => false,
                })
            }),
            r is None ==> final(self).wf(),
    {
        let ghost frames0 = frame_views(self.frames@);
        let n = self.frames.len();
        let d = decide(&resp, self.frames[n - 1].qname.as_str());
        proof {
            assert(frames0.last() == self.frames@.last()@);
        }
        match d {
            Decision::Follow(addr) => {
                let mut top = self.frames.pop().unwrap();
                top.ns = addr;
                self.frames.push(top);
                proof {
                    assert(frame_views(self.frames@) =~= frames0.update(
                        frames0.len() - 1,
                        FrameModel { ns: addr, ..frames0.last() },
                    ));
                }
                None
            },
            Decision::Recurse(host) => {
                if self.frames.len() >= MAX_DEPTH {
                    self.complete(resp)
                } else {
                    let mut top = self.frames.pop().unwrap();
                    top.saved = Some(resp);
                    self.frames.push(top);
                    self.frames.push(
                        Frame { qname: host, qtype: QueryType::A, ns: self.root, saved: None },
                    );
                    proof {
                        assert(frame_views(self.frames@) =~= frames0.update(
                            frames0.len() - 1,
                            FrameModel { saved: Some(resp@), ..frames0.last() },
                        ).push(
                            FrameModel {
                                qname: host@,
                                qtype: QueryType::A,
                                ns: old(self).root,
                                saved: None,
                            },
                        ));
                    }
                    None
                }
            },
            _ => self.complete(resp),
        }
    }

    /// Unwinds finished lookups: pops the finished frame, hands its
    /// result's first A address to the parent, and keeps unwinding
    /// parents whose nested lookup yielded none.
    fn complete(&mut self, resp: DnsPacket) -> (r: Option<DnsPacket>)
        requires
            old(self).wf(),
        ensures
            final(self).root == old(self).root,
            ({
                let (fs, out) = complete_rec(frame_views(old(self).frames@), resp@);
                frame_views(final(self).frames@) == fs && (match (r, out) {
                    (Some(p), Some(m)) => p@ == m,
                    (None, None) => true,
                    _ => false,
                })
            }),
            r is None ==> final(self).wf(),
    {
        let mut cur_resp = resp;
        loop
            invariant_except_break
                self.frames@.len() >= 1,
            invariant
                self.root == old(self).root,
                forall|i: int|
                    0 <= i < self.frames@.len() - 1 ==> frame_views(self.frames@)[i].saved
                        is Some,
                complete_rec(frame_views(old(self).frames@), resp@) == complete_rec(
                    frame_views(self.frames@),
                    cur_resp@,
                ),
            ensures
                self.root == old(self).root,
                self.frames@.len() == 0,
                complete_rec(frame_views(old(self).frames@), resp@) == (
                    frame_views(self.frames@),
                    Some(cur_resp@),
                ),
            decreases self.frames@.len(),
        {
            let ghost frames_pre = frame_views(self.frames@);
            let ghost prev_resp = cur_resp@;
            let _finished = self.frames.pop().unwrap();
            proof {
                assert(frame_views(self.frames@) =~= frames_pre.drop_last());
            }
            if self.frames.len() == 0 {
                proof {
                    assert(complete_rec(frames_pre, prev_resp) == (
                        Seq::<FrameModel>::empty(),
                        Some(prev_resp),
                    ));
                    assert(frame_views(self.frames@) =~= Seq::<FrameModel>::empty());
                }
                break;
            }
            let ghost rest = frames_pre.drop_last();
            let addr_opt = cur_resp.get_random_a();
            match addr_opt {
                Some(addr) => {
                    let mut parent = self.frames.pop().unwrap();
                    proof {
                        assert(rest.last() == parent@);
                    }
                    parent.ns = addr;
                    parent.saved = None;
                    self.frames.push(parent);
                    proof {
                        let cur = frame_views(self.frames@);
                        assert(cur =~= rest.update(
                            rest.len() - 1,
                            FrameModel { ns: addr, saved: None, ..rest.last() },
                        ));
                        assert(complete_rec(frames_pre, prev_resp) == (cur, None::<PacketModel>));
                        assert forall|i: int| 0 <= i < cur.len() - 1 implies cur[i].saved
                            is Some by {
                            assert(cur[i] == rest[i]);
                            assert(rest[i] == frames_pre[i]);
                        }
                    }
                    return None;
                },
                None => {
                    let mut parent = self.frames.pop().unwrap();
                    proof {
                        assert(rest.last() == parent@);
                    }
                    let saved = parent.saved;
                    parent.saved = None;
                    match saved {
                        Some(s) => {
                            cur_resp = s;
                            self.frames.push(parent);
                            proof {
                                let cur = frame_views(self.frames@);
                                assert(rest.last().saved == Some(cur_resp@));
                                assert(complete_rec(frames_pre, prev_resp) == complete_rec(
                                    rest,
                                    cur_resp@,
                                ));
                                assert(cur.drop_last() =~= rest.drop_last());
                                assert(cur.len() == rest.len());
                                if cur.len() > 1 {
                                    assert(cur.drop_last() == rest.drop_last());
                                    assert(complete_rec(cur, cur_resp@) == complete_rec(
                                        rest,
                                        cur_resp@,
                                    ));
                                } else {
                                    assert(complete_rec(cur, cur_resp@) == complete_rec(
                                        rest,
                                        cur_resp@,
                                    ));
                                }
                                assert forall|i: int| 0 <= i < cur.len() - 1 implies cur[i].saved
                                    is Some by {
                                    assert(cur[i] == cur.drop_last()[i]);
                                    assert(rest[i] == rest.drop_last()[i]);
                                    assert(rest[i] == frames_pre[i]);
                                }
                            }
                        },
                        None => {
                            proof {
                                assert(frames_pre[frames_pre.len() - 2].saved is Some);
                                assert(false);
                            }
                            return None;
                        },
                    }
                },
            }
        }
        Some(cur_resp)
    }
}

} // verus!
