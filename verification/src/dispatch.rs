//! The event loop's decision core: classify one event, update the registry
//! and the outbound queue, and say what the surrounding loop must do next.
//!
//! The loop around it performs the I/O: it decodes datagrams, runs the
//! handler when told to, pumps the outbound queue to the socket, and feeds
//! timer firings back in. One handler invocation is in flight at a time.

use vstd::prelude::*;
use crate::codec::{Packet, PacketView, MessageType, METHOD_GET, METHOD_PUT, spec_uri_path, uri_path};
use crate::observer::{
    Peer, Registry, RegView, FilterResult, MAX_NOW, MAX_JITTER_MS, wf_reg,
    is_register, is_deregister, has_sub, has_res, sub_idx, res_idx, reply_packet, prev_seq,
    mk_sub, spec_add_sub, spec_deregister, spec_notify, spec_set_payload, first_reply_idx,
    spec_clear_at, spec_retrans, out_view, all_acked, con_due, con_exhausted, retransmitted,
};

verus! {

/// A decoded request on its way to the application handler.
pub struct Request {
    pub packet: Packet,
    pub peer: Peer,
    pub path: Vec<u8>,
}

#[verifier::ext_equal]
pub struct RequestView {
    pub packet: PacketView,
    pub peer: Peer,
    pub path: Seq<u8>,
}

impl View for Request {
    type V = RequestView;

    open spec fn view(&self) -> RequestView {
        RequestView { packet: self.packet@, peer: self.peer, path: self.path@ }
    }
}

impl Request {
    /// Wrap a packet for delivery: the resource path is the slash-joined
    /// concatenation of the packet's Uri-Path option values, in option
    /// order.
    pub fn from_packet(packet: Packet, peer: Peer) -> (r: Request)
        ensures
            r@.packet == packet@,
            r@.peer == peer,
            r@.path == spec_uri_path(packet@),
    {
        let path = uri_path(&packet);
        Request { packet, peer, path }
    }
}

/// Run state of the event loop.
#[derive(Clone, Copy, PartialEq, Eq, Structural, Debug)]
pub enum RunState {
    Running,
    Draining,
    Terminated,
}

/// What the surrounding loop must do after a step.
pub enum Action {
    Continue,
    Deliver(Request),
}

/// One thing that happened: a datagram arrived, the handler returned, the
/// observer timer fired, or a stop was requested. Handler completion and
/// timer events carry the clock reading; handler completion also carries
/// the random spread for retransmission deadlines.
pub enum Event {
    Inbound(Packet, Peer),
    HandlerDone(Option<Packet>, u64, u64),
    Timer(u64),
    Stop,
}

/// An ACK or RST, which settles an outstanding confirmable notification
/// rather than reaching the handler.
pub open spec fn is_reply_type(p: PacketView) -> bool {
    p.mtype == MessageType::Acknowledgement || p.mtype == MessageType::Reset
}

/// The dispatcher: registry, outbound queue, run state, and the request the
/// handler is working on, if any.
pub struct Core {
    pub registry: Registry,
    pub outbound: Vec<(Packet, Peer)>,
    pub state: RunState,
    pub pending: Option<Request>,
}

#[verifier::ext_equal]
pub struct CoreView {
    pub registry: RegView,
    pub outbound: Seq<(PacketView, Peer)>,
    pub state: RunState,
    pub pending: Option<RequestView>,
}

impl View for Core {
    type V = CoreView;

    open spec fn view(&self) -> CoreView {
        CoreView {
            registry: self.registry@,
            outbound: out_view(self.outbound@),
            state: self.state,
            pending: match self.pending {
                Some(ref q) => Some(q@),
                None => None,
            },
        }
    }
}

impl Core {
    /// A core with an empty registry and an empty queue, running.
    pub fn new() -> (r: Core)
        ensures
            wf_reg(r@.registry),
            r@.registry.subs.len() == 0,
            r@.registry.resources.len() == 0,
            r@.outbound.len() == 0,
            r@.state == RunState::Running,
            r@.pending is None,
    {
        Core {
            registry: Registry::new(),
            outbound: Vec::new(),
            state: RunState::Running,
            pending: None,
        }
    }

    /// Process one event. An admitted request is handed to the handler
    /// exactly once, untouched; replies to notifications settle
    /// retransmission state; Observe requests register — answered from
    /// stored state, or through the handler when the resource is new — or
    /// deregister; a completed PUT stores its body and notifies the path's
    /// subscribers; responses and notifications join the outbound queue at
    /// its back, never reordering what is already queued.
    #[verifier::rlimit(100)]
    pub fn step(&mut self, event: Event) -> (r: Action)
        requires
            wf_reg(old(self)@.registry),
            event matches Event::Inbound(p, peer) ==> old(self)@.pending is None,
            event matches Event::HandlerDone(resp, now, jitter) ==> old(self)@.pending is Some
                && now <= MAX_NOW && jitter <= MAX_JITTER_MS,
            event matches Event::Timer(now) ==> now <= MAX_NOW,
        ensures
            wf_reg(final(self)@.registry),
            // the queue only grows at the back: what was enqueued stays, in order
            final(self)@.outbound.len() >= old(self)@.outbound.len(),
            forall|i: int|
                0 <= i < old(self)@.outbound.len() ==> #[trigger] final(self)@.outbound[i] == old(self)@.outbound[i],
            // an admitted request — no Observe option, or one the registry
            // does not act on — is delivered to the handler, as is
            event matches Event::Inbound(p, peer) ==> ((!is_reply_type(p@) && !is_register(p@)
                && !is_deregister(p@)) ==> (match r {
                Action::Deliver(q) => q@ == RequestView {
                    packet: p@,
                    peer: peer,
                    path: spec_uri_path(p@),
                } && final(self)@.pending == Some(q@),
                Action::Continue => false,
            }) && final(self)@.registry == old(self)@.registry && final(self)@.outbound == old(self)@.outbound && final(self)@.state == old(self)@.state),
            // an ACK or RST goes to reply correlation, never to the handler
            event matches Event::Inbound(p, peer) ==> (is_reply_type(p@) ==> r is Continue && final(self)@.pending is None && final(self)@.outbound == old(self)@.outbound && final(self)@.registry == (match first_reply_idx(old(self)@.registry.subs, peer, p@.message_id) {
                None => old(self)@.registry,
                Some(i) => if p@.mtype == MessageType::Reset {
                    spec_deregister(old(self)@.registry, peer, old(self)@.registry.subs[i].token)
                } else {
                    spec_clear_at(old(self)@.registry, i)
                },
            })),
            // a deregistration is consumed
            event matches Event::Inbound(p, peer) ==> ((!is_reply_type(p@) && is_deregister(p@))
                ==> r is Continue && final(self)@.registry == spec_deregister(
                old(self)@.registry,
                peer,
                p@.token,
            ) && final(self)@.outbound == old(self)@.outbound && final(self)@.pending is None),
            // a registration refresh is answered from stored state and consumed
            event matches Event::Inbound(p, peer) ==> ((!is_reply_type(p@) && is_register(p@)
                && has_sub(old(self)@.registry, peer, p@.token)) ==> ({
                let s = old(self)@.registry.subs[sub_idx(old(self)@.registry, peer, p@.token)];
                let pl = if has_res(old(self)@.registry, s.resource) {
                    old(self)@.registry.resources[res_idx(old(self)@.registry, s.resource)].payload
                } else {
                    seq![]
                };
                r is Continue && final(self)@.registry == old(self)@.registry && final(self)@.pending is None && final(self)@.outbound == old(self)@.outbound + seq![
                    (reply_packet(p@, prev_seq(s.next_seq), pl), peer),
                ]
            })),
            // a first registration on a known resource subscribes the key and
            // answers with the stored payload under Observe = next_seq - 1
            event matches Event::Inbound(p, peer) ==> ((!is_reply_type(p@) && is_register(p@)
                && !has_sub(old(self)@.registry, peer, p@.token) && has_res(
                old(self)@.registry,
                spec_uri_path(p@),
            )) ==> ({
                let path = spec_uri_path(p@);
                let tmpl = reply_packet(
                    p@,
                    1,
                    old(self)@.registry.resources[res_idx(old(self)@.registry, path)].payload,
                );
                r is Continue && final(self)@.registry == spec_add_sub(
                    old(self)@.registry,
                    mk_sub(peer, p@, path, 0, tmpl),
                ) && final(self)@.pending is None && final(self)@.outbound == old(self)@.outbound
                    + seq![(tmpl, peer)]
            })),
            // a registration naming an unknown resource subscribes the key and
            // is delivered, so the handler can produce the first payload
            event matches Event::Inbound(p, peer) ==> ((!is_reply_type(p@) && is_register(p@)
                && !has_sub(old(self)@.registry, peer, p@.token) && !has_res(
                old(self)@.registry,
                spec_uri_path(p@),
            )) ==> ({
                let path = spec_uri_path(p@);
                (match r {
                    Action::Deliver(q) => q@ == RequestView { packet: p@, peer: peer, path: path }
                        && final(self)@.pending == Some(q@),
                    Action::Continue => false,
                }) && final(self)@.registry == spec_add_sub(
                    old(self)@.registry,
                    mk_sub(peer, p@, path, 0, reply_packet(p@, 1, seq![])),
                ) && final(self)@.outbound == old(self)@.outbound
            })),
            // handler completion clears the in-flight request; its response,
            // if any, is queued immediately behind what was already queued
            event matches Event::HandlerDone(resp, now, jitter) ==> final(self)@.pending is None
                && final(self)@.state == old(self)@.state && (resp is None ==> final(self)@.registry == old(self)@.registry && final(self)@.outbound == old(self)@.outbound),
            // a response answers exactly one request: a PUT then stores its
            // body and notifies the path's subscribers behind the response; a
            // first registration is answered with a synthesized 2.05 carrying
            // Observe = 1 and the materialized payload; nothing else is sent
            event matches Event::HandlerDone(resp, now, jitter) ==> (resp matches Some(rp) ==> ({
                let req = old(self)@.pending.unwrap();
                if is_register(req.packet) {
                    final(self)@.outbound == old(self)@.outbound + seq![
                        (reply_packet(req.packet, 1, rp@.payload), req.peer),
                    ] && final(self)@.registry.resources == spec_set_payload(
                        old(self)@.registry,
                        req.path,
                        rp@.payload,
                    ) && final(self)@.registry.subs == old(self)@.registry.subs && final(self)@.registry.next_mid == old(self)@.registry.next_mid
                } else if req.packet.code == METHOD_PUT {
                    let n = spec_notify(
                        old(self)@.registry.subs,
                        req.path,
                        req.packet.payload,
                        old(self)@.registry.next_mid,
                        now,
                        jitter,
                    );
                    final(self)@.outbound == old(self)@.outbound + seq![(rp@, req.peer)] + n.out
                        && final(self)@.registry.resources == spec_set_payload(
                        old(self)@.registry,
                        req.path,
                        req.packet.payload,
                    ) && final(self)@.registry.subs == n.subs && final(self)@.registry.next_mid
                        == n.mid
                } else {
                    final(self)@.outbound == old(self)@.outbound + seq![(rp@, req.peer)] && final(self)@.registry == old(self)@.registry
                }
            })),
            // the timer touches neither the in-flight request nor the run
            // state; the due retransmissions join the queue at its back
            event matches Event::Timer(now) ==> final(self)@.pending == old(self)@.pending
                && final(self)@.state == old(self)@.state && final(self)@.outbound == old(self)@.outbound + spec_retrans(old(self)@.registry.subs, now)
                && final(self)@.registry.next_mid == old(self)@.registry.next_mid && final(self)@.registry.resources.len() == old(self)@.registry.resources.len(),
            // after a timer firing: resource state is untouched, exhausted
            // subscriptions are destroyed, due ones advance their backoff,
            // the rest stand as they were
            event matches Event::Timer(now) ==> (forall|ri: int|
                0 <= ri < old(self)@.registry.resources.len() ==> (#[trigger] final(self)@.registry.resources[ri]).path == old(self)@.registry.resources[ri].path && final(self)@.registry.resources[ri].payload == old(self)@.registry.resources[ri].payload),
            event matches Event::Timer(now) ==> (forall|i: int|
                0 <= i < old(self)@.registry.subs.len() && con_exhausted(
                    #[trigger] old(self)@.registry.subs[i],
                    now,
                ) ==> !has_sub(
                    final(self)@.registry,
                    old(self)@.registry.subs[i].peer,
                    old(self)@.registry.subs[i].token,
                )),
            event matches Event::Timer(now) ==> (forall|i: int|
                0 <= i < old(self)@.registry.subs.len() && con_due(
                    #[trigger] old(self)@.registry.subs[i],
                    now,
                ) && !con_exhausted(old(self)@.registry.subs[i], now) ==> has_sub(
                    final(self)@.registry,
                    old(self)@.registry.subs[i].peer,
                    old(self)@.registry.subs[i].token,
                ) && final(self)@.registry.subs[sub_idx(
                    final(self)@.registry,
                    old(self)@.registry.subs[i].peer,
                    old(self)@.registry.subs[i].token,
                )] == retransmitted(old(self)@.registry.subs[i], now)),
            event matches Event::Timer(now) ==> (forall|i: int|
                0 <= i < old(self)@.registry.subs.len() && !con_due(
                    #[trigger] old(self)@.registry.subs[i],
                    now,
                ) ==> has_sub(
                    final(self)@.registry,
                    old(self)@.registry.subs[i].peer,
                    old(self)@.registry.subs[i].token,
                ) && final(self)@.registry.subs[sub_idx(
                    final(self)@.registry,
                    old(self)@.registry.subs[i].peer,
                    old(self)@.registry.subs[i].token,
                )] == old(self)@.registry.subs[i]),
            // a stop request drains; nothing else moves
            event matches Event::Stop ==> r is Continue && final(self)@.registry == old(self)@.registry && final(self)@.outbound == old(self)@.outbound && final(self)@.state == (
            if old(self)@.state == RunState::Running {
                RunState::Draining
            } else {
                old(self)@.state
            }),
    {
        match event {
            Event::Inbound(p, peer) => {
                let is_reply = match p.mtype {
                    MessageType::Acknowledgement => true,
                    MessageType::Reset => true,
                    _ => false,
                };
                if is_reply {
                    let is_rst = match p.mtype {
                        MessageType::Reset => true,
                        _ => false,
                    };
                    self.registry.on_reply(peer, p.message_id, is_rst);
                    Action::Continue
                } else {
                    let (fr, replies) = self.registry.filter(&p, peer, 0);
                    let ghost ob0 = self@.outbound;
                    let ghost rv = out_view(replies@);
                    append_out(&mut self.outbound, &replies);
                    proof {
                        assert(self@.outbound =~= ob0 + rv);
                    }
                    match fr {
                        FilterResult::Admit => {
                            let q = Request::from_packet(p, peer);
                            let q2 = Request {
                                packet: crate::observer::clone_packet(&q.packet),
                                peer: q.peer,
                                path: crate::observer::clone_bytes(&q.path),
                            };
                            proof {
                                assert(q2@ =~= q@);
                            }
                            self.pending = Some(q2);
                            Action::Deliver(q)
                        },
                        FilterResult::Consumed => Action::Continue,
                    }
                }
            },
            Event::HandlerDone(resp, now, jitter) => {
                let req = match self.pending.take() {
                    Some(q) => q,
                    None => {
                        return Action::Continue;
                    },
                };
                match resp {
                    None => Action::Continue,
                    Some(response) => {
                        let ghost ob0 = self@.outbound;
                        let obs_reg = {
                            let obs = crate::observer::observe_value(&req.packet);
                            match obs {
                                Some(v) => v == 0 && req.packet.code == METHOD_GET,
                                None => false,
                            }
                        };
                        proof {
                            assert(obs_reg == is_register(req.packet@));
                        }
                        if obs_reg {
                            // a first registration: the handler's payload
                            // materializes the resource, and the reply is the
                            // synthesized 2.05 carrying Observe = next_seq - 1
                            let reply = crate::observer::build_reply(&req.packet, 1, &response.payload);
                            let ghost rpv = (reply@, req.peer);
                            self.registry.set_payload(&req.path, &response.payload);
                            self.outbound.push((reply, req.peer));
                            proof {
                                assert(self@.outbound =~= ob0 + seq![rpv]);
                            }
                        } else if req.packet.code == METHOD_PUT {
                            // a write: answer it, store the request body, and
                            // notify every subscriber of the path
                            let rp = (response, req.peer);
                            let ghost rpv = (rp.0@, rp.1);
                            self.outbound.push(rp);
                            let ghost ob1 = self@.outbound;
                            proof {
                                assert(ob1 =~= ob0 + seq![rpv]);
                            }
                            let notifs = self.registry.write_resource(
                                &req.path,
                                &req.packet.payload,
                                now,
                                jitter,
                            );
                            let ghost nv = out_view(notifs@);
                            append_out(&mut self.outbound, &notifs);
                            proof {
                                assert(self@.outbound =~= ob1 + nv);
                                assert(self@.outbound =~= (ob0 + seq![rpv]) + nv);
                            }
                        } else {
                            let rp = (response, req.peer);
                            let ghost rpv = (rp.0@, rp.1);
                            self.outbound.push(rp);
                            proof {
                                assert(self@.outbound =~= ob0 + seq![rpv]);
                            }
                        }
                        Action::Continue
                    },
                }
            },
            Event::Timer(now) => {
                let ghost ob0 = self@.outbound;
                let retrans = self.registry.tick(now);
                let ghost rv = out_view(retrans@);
                append_out(&mut self.outbound, &retrans);
                proof {
                    assert(self@.outbound =~= ob0 + rv);
                }
                Action::Continue
            },
            Event::Stop => {
                let next = match self.state {
                    RunState::Running => RunState::Draining,
                    RunState::Draining => RunState::Draining,
                    RunState::Terminated => RunState::Terminated,
                };
                self.state = next;
                Action::Continue
            },
        }
    }

    /// Hand the next datagram to the wire: the queue's front leaves first.
    /// An empty queue in the draining state with nothing unacknowledged
    /// terminates the loop; any pending acknowledgement keeps it draining.
    pub fn pop_outbound(&mut self) -> (r: Option<(Packet, Peer)>)
        ensures
            final(self)@.registry == old(self)@.registry,
            final(self)@.pending == old(self)@.pending,
            match r {
                Some(pp) => old(self)@.outbound.len() > 0 && (pp.0@, pp.1) == old(self)@.outbound[0] && final(self)@.outbound == old(self)@.outbound.drop_first()
                    && final(self)@.state == old(self)@.state,
                None => old(self)@.outbound.len() == 0 && final(self)@.outbound == old(self)@.outbound
                    && final(self)@.state == (if old(self)@.state == RunState::Draining
                    && all_acked(old(self)@.registry.subs) {
                    RunState::Terminated
                } else {
                    old(self)@.state
                }),
            },
    {
        if self.outbound.len() > 0 {
            let ghost ob0 = self@.outbound;
            let pp = self.outbound.remove(0);
            proof {
                assert(self@.outbound =~= ob0.drop_first());
            }
            Some(pp)
        } else {
            let draining = match self.state {
                RunState::Draining => true,
                _ => false,
            };
            if draining {
                let mut all_clear = true;
                let mut i: usize = 0;
                while i < self.registry.subs.len()
                    invariant
                        self@ == old(self)@,
                        i <= self.registry.subs.len(),
                        all_clear == (forall|k: int|
                            0 <= k < i ==> (#[trigger] self@.registry.subs[k]).unacked is None),
                    decreases self.registry.subs.len() - i,
                {
                    assert(self@.registry.subs[i as int] == self.registry.subs@[i as int]@);
                    match &self.registry.subs[i].unacked {
                        Some(_) => {
                            all_clear = false;
                        },
                        None => {},
                    }
                    i = i + 1;
                }
                if all_clear {
                    assert(all_acked(self@.registry.subs));
                    self.state = RunState::Terminated;
                } else {
                    assert(!all_acked(self@.registry.subs));
                }
            }
            None
        }
    }
}

fn append_out(dst: &mut Vec<(Packet, Peer)>, src: &Vec<(Packet, Peer)>)
    ensures
        out_view(final(dst)@) == out_view(old(dst)@) + out_view(src@),
{
    let ghost d0 = dst@;
    let ghost s0 = src@;
    let mut i: usize = 0;
    while i < src.len()
        invariant
            i <= src.len(),
            src@ == s0,
            dst@.len() == d0.len() + i,
            forall|k: int| 0 <= k < d0.len() ==> #[trigger] out_view(dst@)[k] == out_view(d0)[k],
            forall|k: int|
                0 <= k < i ==> #[trigger] out_view(dst@)[d0.len() + k] == out_view(s0)[k],
        decreases src.len() - i,
    {
        let ghost dpre = dst@;
        let pp = &src[i];
        dst.push((crate::observer::clone_packet(&pp.0), pp.1));
        proof {
            assert(forall|k: int|
                0 <= k < dpre.len() ==> #[trigger] out_view(dst@)[k] == out_view(dpre)[k]);
            assert(dst@[d0.len() + i as int].0@ == s0[i as int].0@);
            assert(out_view(dst@)[d0.len() + i as int] == out_view(s0)[i as int]);
        }
        i = i + 1;
    }
    proof {
        assert forall|j: int| d0.len() <= j < dst@.len() implies out_view(dst@)[j] == out_view(
            s0,
        )[j - d0.len()] by {
            assert(out_view(dst@)[d0.len() + (j - d0.len())] == out_view(s0)[j - d0.len()]);
        };
        assert(out_view(dst@) =~= out_view(d0) + out_view(s0));
    }
}

/// Popping `k` times emits exactly the first `k` queued items, in the order
/// they were enqueued: the queue is first-in, first-out.
pub open spec fn pops_emitted(q: Seq<(PacketView, Peer)>, k: int) -> Seq<(PacketView, Peer)>
    decreases k,
{
    if k <= 0 {
        seq![]
    } else {
        pops_emitted(q, k - 1).push(q.skip(k - 1)[0])
    }
}

pub proof fn lemma_outbound_fifo(q: Seq<(PacketView, Peer)>, k: int)
    requires
        0 <= k <= q.len(),
    ensures
        pops_emitted(q, k) == q.take(k),
    decreases k,
{
    if k > 0 {
        lemma_outbound_fifo(q, k - 1);
        assert(q.skip(k - 1)[0] == q[k - 1]);
        assert(pops_emitted(q, k) =~= q.take(k));
    } else {
        assert(pops_emitted(q, k) =~= q.take(k));
    }
}

} // verus!
