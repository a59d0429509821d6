//! Observer registry: subscriptions per resource, notification sequencing,
//! and confirmable-notification retransmission state.
//!
//! The registry keeps every subscription keyed by `(peer, token)` and, per
//! resource, the set of subscriber keys. The two structures are kept
//! consistent at every operation boundary.

use vstd::prelude::*;
use crate::codec::{Packet, PacketView, MessageType, OPT_OBSERVE, CODE_CONTENT, METHOD_GET, opts_view, spec_uri_path, uri_path};

verus! {

/// Milliseconds before the first retransmission of a confirmable
/// notification, before the random spread is added.
pub const ACK_TIMEOUT_MS: u64 = 2000;
/// Largest random spread, in milliseconds, a caller may add to the base
/// acknowledgement timeout (half of it: factor 1.0 to 1.5).
pub const MAX_JITTER_MS: u64 = 1000;
/// A confirmable notification is retransmitted at most this many times.
pub const MAX_RETRANSMIT: u8 = 4;
/// Observe sequence numbers live below 2^24.
pub const SEQ_MODULUS: u32 = 16777216;
/// Upper bound on clock readings handed to the registry, far beyond any real
/// clock, leaving room for timeout arithmetic below u64::MAX.
pub const MAX_NOW: u64 = 0x1000000000000000;

/// A network endpoint: address bits and port. Equality is by the full
/// socket address.
#[derive(Clone, Copy, PartialEq, Eq, Structural, Hash, Debug)]
pub struct Peer {
    pub ip_hi: u64,
    pub ip_lo: u64,
    pub port: u16,
    pub v6: bool,
}

/// Retransmission state of the last confirmable notification of one
/// subscription.
pub struct PendingCon {
    pub packet: Packet,
    pub message_id: u16,
    pub deadline: u64,
    pub timeout: u64,
    pub attempts: u8,
}

/// One Observe subscription.
pub struct Subscription {
    pub peer: Peer,
    pub token: Vec<u8>,
    pub resource: Vec<u8>,
    pub register_time: u64,
    pub next_seq: u32,
    pub unacked: Option<PendingCon>,
    pub template: Packet,
}

/// Per-resource state: current payload and the keys subscribed to it.
pub struct ResourceEntry {
    pub path: Vec<u8>,
    pub payload: Vec<u8>,
    pub subscribers: Vec<(Peer, Vec<u8>)>,
}

/// The observer registry.
pub struct Registry {
    pub subs: Vec<Subscription>,
    pub resources: Vec<ResourceEntry>,
    pub next_mid: u16,
}

#[verifier::ext_equal]
pub struct PendingView {
    pub packet: PacketView,
    pub message_id: u16,
    pub deadline: u64,
    pub timeout: u64,
    pub attempts: u8,
}

#[verifier::ext_equal]
pub struct SubView {
    pub peer: Peer,
    pub token: Seq<u8>,
    pub resource: Seq<u8>,
    pub register_time: u64,
    pub next_seq: u32,
    pub unacked: Option<PendingView>,
    pub template: PacketView,
}

#[verifier::ext_equal]
pub struct ResView {
    pub path: Seq<u8>,
    pub payload: Seq<u8>,
    pub subscribers: Seq<(Peer, Seq<u8>)>,
}

#[verifier::ext_equal]
pub struct RegView {
    pub subs: Seq<SubView>,
    pub resources: Seq<ResView>,
    pub next_mid: u16,
}

impl View for PendingCon {
    type V = PendingView;

    open spec fn view(&self) -> PendingView {
        PendingView {
            packet: self.packet@,
            message_id: self.message_id,
            deadline: self.deadline,
            timeout: self.timeout,
            attempts: self.attempts,
        }
    }
}

impl View for Subscription {
    type V = SubView;

    open spec fn view(&self) -> SubView {
        SubView {
            peer: self.peer,
            token: self.token@,
            resource: self.resource@,
            register_time: self.register_time,
            next_seq: self.next_seq,
            unacked: match self.unacked {
                Some(u) => Some(u@),
                None => None,
            },
            template: self.template@,
        }
    }
}

pub open spec fn subsc_view(s: Seq<(Peer, Vec<u8>)>) -> Seq<(Peer, Seq<u8>)> {
    Seq::new(s.len(), |i: int| (s[i].0, s[i].1@))
}

impl View for ResourceEntry {
    type V = ResView;

    open spec fn view(&self) -> ResView {
        ResView {
            path: self.path@,
            payload: self.payload@,
            subscribers: subsc_view(self.subscribers@),
        }
    }
}

pub open spec fn subs_view(s: Seq<Subscription>) -> Seq<SubView> {
    Seq::new(s.len(), |i: int| s[i]@)
}

pub open spec fn res_view(s: Seq<ResourceEntry>) -> Seq<ResView> {
    Seq::new(s.len(), |i: int| s[i]@)
}

pub open spec fn out_view(s: Seq<(Packet, Peer)>) -> Seq<(PacketView, Peer)> {
    Seq::new(s.len(), |i: int| (s[i].0@, s[i].1))
}

impl View for Registry {
    type V = RegView;

    open spec fn view(&self) -> RegView {
        RegView {
            subs: subs_view(self.subs@),
            resources: res_view(self.resources@),
            next_mid: self.next_mid,
        }
    }
}

pub open spec fn sub_key(s: SubView) -> (Peer, Seq<u8>) {
    (s.peer, s.token)
}

/// Bound on the retransmission timeout after a given number of attempts:
/// the initial spread below 3000 ms, doubled at each attempt.
pub open spec fn timeout_cap(a: u8) -> int {
    if a == 0 {
        3000
    } else if a == 1 {
        6000
    } else if a == 2 {
        12000
    } else if a == 3 {
        24000
    } else {
        48000
    }
}

pub open spec fn wf_sub(s: SubView) -> bool {
    &&& s.next_seq < SEQ_MODULUS
    &&& match s.unacked {
        Some(u) => u.attempts <= MAX_RETRANSMIT && u.timeout <= timeout_cap(u.attempts),
        None => true,
    }
}

/// At most one subscription per `(peer, token)` key.
pub open spec fn wf_subs_unique(r: RegView) -> bool {
    forall|i: int, j: int|
        0 <= i < j < r.subs.len() ==> sub_key(#[trigger] r.subs[i]) != sub_key(
            #[trigger] r.subs[j],
        )
}

/// Resource paths are unique.
pub open spec fn wf_paths_unique(r: RegView) -> bool {
    forall|i: int, j: int|
        0 <= i < j < r.resources.len() ==> (#[trigger] r.resources[i]).path != (
        #[trigger] r.resources[j]).path
}

/// Every subscription is internally well-formed.
pub open spec fn wf_subs_each(r: RegView) -> bool {
    forall|i: int| 0 <= i < r.subs.len() ==> wf_sub(#[trigger] r.subs[i])
}

/// The key of a subscription at index `i` sits in the subscriber set of the
/// entry for its resource.
pub open spec fn sub_covered(r: RegView, i: int) -> bool {
    exists|ri: int|
        0 <= ri < r.resources.len() && (#[trigger] r.resources[ri]).path == r.subs[i].resource
            && r.resources[ri].subscribers.contains(sub_key(r.subs[i]))
}

pub open spec fn wf_sub_to_res(r: RegView) -> bool {
    forall|i: int| 0 <= i < r.subs.len() ==> #[trigger] sub_covered(r, i)
}

/// The subscriber key at `(ri, ki)` belongs to a subscription on that path.
pub open spec fn key_covered(r: RegView, ri: int, ki: int) -> bool {
    exists|i: int|
        0 <= i < r.subs.len() && sub_key(#[trigger] r.subs[i]) == r.resources[ri].subscribers[ki]
            && r.subs[i].resource == r.resources[ri].path
}

pub open spec fn wf_res_to_sub(r: RegView) -> bool {
    forall|ri: int, ki: int|
        0 <= ri < r.resources.len() && 0 <= ki < r.resources[ri].subscribers.len()
            ==> #[trigger] key_covered(r, ri, ki)
}

/// No key repeats inside one subscriber set.
pub open spec fn wf_subsc_unique(r: RegView) -> bool {
    forall|ri: int, ki: int, kj: int|
        0 <= ri < r.resources.len() && 0 <= ki < kj < r.resources[ri].subscribers.len() ==> (
        #[trigger] r.resources[ri].subscribers[ki]) != (
        #[trigger] r.resources[ri].subscribers[kj])
}

/// Registry well-formedness: at most one subscription per key, unique
/// resource paths, and the per-resource subscriber sets exactly mirror the
/// subscriptions.
pub open spec fn wf_reg(r: RegView) -> bool {
    &&& wf_subs_unique(r)
    &&& wf_paths_unique(r)
    &&& wf_subs_each(r)
    &&& wf_sub_to_res(r)
    &&& wf_res_to_sub(r)
    &&& wf_subsc_unique(r)
}

pub open spec fn has_sub(r: RegView, peer: Peer, token: Seq<u8>) -> bool {
    exists|i: int| 0 <= i < r.subs.len() && sub_key(#[trigger] r.subs[i]) == (peer, token)
}

pub open spec fn sub_idx(r: RegView, peer: Peer, token: Seq<u8>) -> int {
    choose|i: int| 0 <= i < r.subs.len() && sub_key(#[trigger] r.subs[i]) == (peer, token)
}

pub open spec fn has_res(r: RegView, path: Seq<u8>) -> bool {
    exists|ri: int| 0 <= ri < r.resources.len() && (#[trigger] r.resources[ri]).path == path
}

pub open spec fn res_idx(r: RegView, path: Seq<u8>) -> int {
    choose|ri: int| 0 <= ri < r.resources.len() && (#[trigger] r.resources[ri]).path == path
}

/// Adding a subscription: it is appended, and its key joins the subscriber
/// set of its resource, the resource entry being created with an empty
/// payload when the path is new.
pub open spec fn spec_add_sub(r: RegView, s: SubView) -> RegView {
    let rs = if has_res(r, s.resource) {
        let ri = res_idx(r, s.resource);
        r.resources.update(
            ri,
            ResView { subscribers: r.resources[ri].subscribers.push(sub_key(s)), ..r.resources[ri] },
        )
    } else {
        r.resources.push(ResView { path: s.resource, payload: seq![], subscribers: seq![sub_key(s)] })
    };
    RegView { subs: r.subs.push(s), resources: rs, ..r }
}

pub open spec fn remove_key(ks: Seq<(Peer, Seq<u8>)>, key: (Peer, Seq<u8>)) -> Seq<(Peer, Seq<u8>)> {
    if ks.contains(key) {
        ks.remove(ks.index_of(key))
    } else {
        ks
    }
}

/// Removing a subscription by key: it leaves the subscription list and its
/// key leaves the subscriber set of its resource.
pub open spec fn spec_deregister(r: RegView, peer: Peer, token: Seq<u8>) -> RegView {
    if !has_sub(r, peer, token) {
        r
    } else {
        let i = sub_idx(r, peer, token);
        let path = r.subs[i].resource;
        let rs = if has_res(r, path) {
            let ri = res_idx(r, path);
            r.resources.update(
                ri,
                ResView {
                    subscribers: remove_key(r.resources[ri].subscribers, (peer, token)),
                    ..r.resources[ri]
                },
            )
        } else {
            r.resources
        };
        RegView { subs: r.subs.remove(i), resources: rs, ..r }
    }
}

/// Adding a fresh subscription keeps the registry well-formed.
pub proof fn lemma_add_sub_wf(r: RegView, s: SubView)
    requires
        wf_reg(r),
        wf_sub(s),
        !has_sub(r, s.peer, s.token),
    ensures
        wf_reg(spec_add_sub(r, s)),
{
    let r2 = spec_add_sub(r, s);
    let nsub = r.subs.len() as int;
    assert(r2.subs[nsub] == s);
    assert forall|i: int, j: int| 0 <= i < j < r2.subs.len() implies sub_key(#[trigger] r2.subs[i])
        != sub_key(#[trigger] r2.subs[j]) by {
        if j == nsub {
            assert(r2.subs[i] == r.subs[i]);
            if sub_key(r.subs[i]) == sub_key(s) {
                assert(has_sub(r, s.peer, s.token));
            }
        } else {
            assert(r2.subs[i] == r.subs[i] && r2.subs[j] == r.subs[j]);
        }
    };
    assert(wf_subs_unique(r2));
    assert forall|j: int| 0 <= j < r2.subs.len() implies wf_sub(#[trigger] r2.subs[j]) by {
        if j < nsub {
            assert(r2.subs[j] == r.subs[j]);
        } else {
            assert(r2.subs[j] == s);
        }
    };
    assert(wf_subs_each(r2));
    if has_res(r, s.resource) {
        let ri = res_idx(r, s.resource);
        assert(0 <= ri < r.resources.len() && r.resources[ri].path == s.resource);
        let oldks = r.resources[ri].subscribers;
        let newks = oldks.push(sub_key(s));
        assert(r2.resources[ri].subscribers == newks);
        assert(newks[oldks.len() as int] == sub_key(s));
        assert(forall|x: int|
            0 <= x < r2.resources.len() ==> (#[trigger] r2.resources[x]).path
                == r.resources[x].path);
        assert forall|x: int, y: int| 0 <= x < y < r2.resources.len() implies (
        #[trigger] r2.resources[x]).path != (#[trigger] r2.resources[y]).path by {
            assert(r.resources[x].path != r.resources[y].path);
        };
        assert(wf_paths_unique(r2));
        // the new key was in no subscriber set
        assert forall|ki: int| 0 <= ki < oldks.len() implies oldks[ki] != sub_key(s) by {
            if oldks[ki] == sub_key(s) {
                assert(key_covered(r, ri, ki));
                let x = choose|x: int|
                    0 <= x < r.subs.len() && sub_key(#[trigger] r.subs[x])
                        == r.resources[ri].subscribers[ki] && r.subs[x].resource
                        == r.resources[ri].path;
                assert(has_sub(r, s.peer, s.token));
            }
        };
        assert forall|i: int| 0 <= i < r2.subs.len() implies #[trigger] sub_covered(r2, i) by {
            if i == nsub {
                assert(r2.resources[ri].path == s.resource);
                assert(r2.resources[ri].subscribers[oldks.len() as int] == sub_key(s));
                assert(r2.resources[ri].subscribers.contains(sub_key(s)));
            } else {
                assert(sub_covered(r, i));
                let rj = choose|rj: int|
                    0 <= rj < r.resources.len() && (#[trigger] r.resources[rj]).path
                        == r.subs[i].resource && r.resources[rj].subscribers.contains(
                        sub_key(r.subs[i]),
                    );
                assert(r2.subs[i] == r.subs[i]);
                if rj == ri {
                    let ki = oldks.index_of(sub_key(r.subs[i]));
                    assert(newks[ki] == sub_key(r.subs[i]));
                    assert(r2.resources[rj].subscribers.contains(sub_key(r2.subs[i])));
                } else {
                    assert(r2.resources[rj] == r.resources[rj]);
                    assert(r2.resources[rj].subscribers.contains(sub_key(r2.subs[i])));
                }
            }
        };
        assert(wf_sub_to_res(r2));
        assert forall|rj: int, ki: int|
            0 <= rj < r2.resources.len() && 0 <= ki
                < r2.resources[rj].subscribers.len() implies #[trigger] key_covered(
            r2,
            rj,
            ki,
        ) by {
            if rj == ri && ki == oldks.len() {
                assert(r2.subs[nsub] == s && r2.resources[rj].subscribers[ki] == sub_key(s));
            } else {
                assert(r2.resources[rj].subscribers[ki] == r.resources[rj].subscribers[ki]);
                assert(key_covered(r, rj, ki));
                let i = choose|i: int|
                    0 <= i < r.subs.len() && sub_key(#[trigger] r.subs[i])
                        == r.resources[rj].subscribers[ki] && r.subs[i].resource
                        == r.resources[rj].path;
                assert(r2.subs[i] == r.subs[i]);
            }
        };
        assert(wf_res_to_sub(r2));
        assert forall|rj: int, ki: int, kj: int|
            0 <= rj < r2.resources.len() && 0 <= ki < kj < r2.resources[rj].subscribers.len()
            implies (#[trigger] r2.resources[rj].subscribers[ki]) != (
        #[trigger] r2.resources[rj].subscribers[kj]) by {
            if rj == ri && kj == oldks.len() {
                assert(r2.resources[rj].subscribers[ki] == oldks[ki]);
            }
        };
        assert(wf_subsc_unique(r2));
    } else {
        let nres = r.resources.len() as int;
        assert(r2.resources[nres].path == s.resource);
        assert(r2.resources[nres].subscribers == seq![sub_key(s)]);
        assert forall|x: int, y: int| 0 <= x < y < r2.resources.len() implies (
        #[trigger] r2.resources[x]).path != (#[trigger] r2.resources[y]).path by {
            if y == nres {
                assert(r2.resources[x] == r.resources[x]);
                if r.resources[x].path == s.resource {
                    assert(has_res(r, s.resource));
                }
            } else {
                assert(r2.resources[x] == r.resources[x] && r2.resources[y] == r.resources[y]);
            }
        };
        assert(wf_paths_unique(r2));
        assert forall|i: int| 0 <= i < r2.subs.len() implies #[trigger] sub_covered(r2, i) by {
            if i == nsub {
                assert(r2.resources[nres].subscribers[0] == sub_key(s));
                assert(r2.resources[nres].subscribers.contains(sub_key(s)));
            } else {
                assert(sub_covered(r, i));
                let rj = choose|rj: int|
                    0 <= rj < r.resources.len() && (#[trigger] r.resources[rj]).path
                        == r.subs[i].resource && r.resources[rj].subscribers.contains(
                        sub_key(r.subs[i]),
                    );
                assert(r2.subs[i] == r.subs[i]);
                assert(r2.resources[rj] == r.resources[rj]);
                assert(r2.resources[rj].subscribers.contains(sub_key(r2.subs[i])));
            }
        };
        assert(wf_sub_to_res(r2));
        assert forall|rj: int, ki: int|
            0 <= rj < r2.resources.len() && 0 <= ki
                < r2.resources[rj].subscribers.len() implies #[trigger] key_covered(
            r2,
            rj,
            ki,
        ) by {
            if rj == nres {
                assert(r2.resources[rj].subscribers[ki] == sub_key(s));
                assert(r2.subs[nsub] == s);
            } else {
                assert(0 <= rj < r.resources.len());
                assert(r2.resources[rj] == r.resources[rj]);
                assert(0 <= ki < r.resources[rj].subscribers.len());
                assert(r2.resources[rj].subscribers[ki] == r.resources[rj].subscribers[ki]);
                assert(key_covered(r, rj, ki));
                let i = choose|i: int|
                    0 <= i < r.subs.len() && sub_key(#[trigger] r.subs[i])
                        == r.resources[rj].subscribers[ki] && r.subs[i].resource
                        == r.resources[rj].path;
                assert(r2.subs[i] == r.subs[i]);
            }
        };
        assert(wf_res_to_sub(r2));
        assert forall|rj: int, ki: int, kj: int|
            0 <= rj < r2.resources.len() && 0 <= ki < kj < r2.resources[rj].subscribers.len()
            implies (#[trigger] r2.resources[rj].subscribers[ki]) != (
        #[trigger] r2.resources[rj].subscribers[kj]) by {
            if rj == nres {
                assert(r2.resources[rj].subscribers.len() == 1);
            } else {
                assert(r2.resources[rj] == r.resources[rj]);
            }
        };
        assert(wf_subsc_unique(r2));
    }
}

/// Removing a subscription by key keeps the registry well-formed.
#[verifier::rlimit(100)]
pub proof fn lemma_deregister_wf(r: RegView, peer: Peer, token: Seq<u8>)
    requires
        wf_reg(r),
    ensures
        wf_reg(spec_deregister(r, peer, token)),
{
    if !has_sub(r, peer, token) {
        return ;
    }
    let r2 = spec_deregister(r, peer, token);
    let i = sub_idx(r, peer, token);
    assert(0 <= i < r.subs.len() && sub_key(r.subs[i]) == (peer, token));
    let path = r.subs[i].resource;
    assert(sub_covered(r, i));
    let ri0 = choose|rj: int|
        0 <= rj < r.resources.len() && (#[trigger] r.resources[rj]).path == r.subs[i].resource
            && r.resources[rj].subscribers.contains(sub_key(r.subs[i]));
    assert(has_res(r, path));
    let ri = res_idx(r, path);
    assert(0 <= ri < r.resources.len() && r.resources[ri].path == path);
    assert(ri == ri0);
    let oldks = r.resources[ri].subscribers;
    assert(oldks.contains((peer, token)));
    let k0 = oldks.index_of((peer, token));
    assert(0 <= k0 < oldks.len() && oldks[k0] == (peer, token));
    let newks = oldks.remove(k0);
    assert(r2.resources[ri].subscribers == newks);
    assert(r2.subs == r.subs.remove(i));
    // index mappings
    assert(forall|j: int| 0 <= j < i ==> #[trigger] r2.subs[j] == r.subs[j]);
    assert(forall|j: int| i <= j < r2.subs.len() ==> #[trigger] r2.subs[j] == r.subs[j + 1]);
    assert(forall|k: int| 0 <= k < k0 ==> #[trigger] newks[k] == oldks[k]);
    assert(forall|k: int| k0 <= k < newks.len() ==> #[trigger] newks[k] == oldks[k + 1]);
    // a key other than the removed one still has its subscription
    assert forall|j2: int| 0 <= j2 < r2.subs.len() implies #[trigger] sub_covered(r2, j2) by {
        let oj = if j2 < i {
            j2
        } else {
            j2 + 1
        };
        assert(r2.subs[j2] == r.subs[oj]);
        assert(oj != i);
        assert(sub_key(r.subs[oj]) != (peer, token));
        assert(sub_covered(r, oj));
        let rj = choose|rj: int|
            0 <= rj < r.resources.len() && (#[trigger] r.resources[rj]).path
                == r.subs[oj].resource && r.resources[rj].subscribers.contains(
                sub_key(r.subs[oj]),
            );
        if rj == ri {
            let k = oldks.index_of(sub_key(r.subs[oj]));
            assert(0 <= k < oldks.len() && oldks[k] == sub_key(r.subs[oj]));
            assert(k != k0);
            if k < k0 {
                assert(newks[k] == sub_key(r.subs[oj]));
            } else {
                assert(newks[k - 1] == sub_key(r.subs[oj]));
            }
            assert(r2.resources[rj].subscribers.contains(sub_key(r2.subs[j2])));
        } else {
            assert(r2.resources[rj] == r.resources[rj]);
            assert(r2.resources[rj].subscribers.contains(sub_key(r2.subs[j2])));
        }
    };
    assert(wf_sub_to_res(r2));
    // every remaining subscriber key still has its subscription
    assert forall|rj: int, ki: int|
        0 <= rj < r2.resources.len() && 0 <= ki
            < r2.resources[rj].subscribers.len() implies #[trigger] key_covered(r2, rj, ki) by {
        let key2 = r2.resources[rj].subscribers[ki];
        let oki = if rj == ri && ki >= k0 {
            ki + 1
        } else {
            ki
        };
        assert(key2 == r.resources[rj].subscribers[oki]);
        assert(key_covered(r, rj, oki));
        let oj = choose|oj: int|
            0 <= oj < r.subs.len() && sub_key(#[trigger] r.subs[oj])
                == r.resources[rj].subscribers[oki] && r.subs[oj].resource
                == r.resources[rj].path;
        if oj == i {
            // then key2 is the removed key; it cannot remain anywhere
            assert(key2 == (peer, token));
            if rj == ri {
                assert(oki != k0);
                assert(oldks[oki] == oldks[k0]);
                assert(false);
            } else {
                // the same key sits in another resource entry: its
                // subscription is i, whose resource is path, so the entries
                // share a path and must be the same entry
                assert(r.resources[rj].path == r.subs[i].resource);
                assert(r.resources[rj].path == r.resources[ri].path);
                assert(rj == ri);
                assert(false);
            }
        } else {
            let j2 = if oj < i {
                oj
            } else {
                oj - 1
            };
            assert(r2.subs[j2] == r.subs[oj]);
        }
    };
    assert(wf_res_to_sub(r2));
    assert forall|rj: int, ki: int, kj: int|
        0 <= rj < r2.resources.len() && 0 <= ki < kj < r2.resources[rj].subscribers.len() implies (
    #[trigger] r2.resources[rj].subscribers[ki]) != (
    #[trigger] r2.resources[rj].subscribers[kj]) by {
        if rj == ri {
            let oki = if ki >= k0 {
                ki + 1
            } else {
                ki
            };
            let okj = if kj >= k0 {
                kj + 1
            } else {
                kj
            };
            assert(newks[ki] == oldks[oki] && newks[kj] == oldks[okj]);
            assert(oldks[oki] != oldks[okj]);
        } else {
            assert(r2.resources[rj] == r.resources[rj]);
        }
    };
    assert(wf_subsc_unique(r2));
    assert forall|i2: int, j2: int| 0 <= i2 < j2 < r2.subs.len() implies sub_key(
        #[trigger] r2.subs[i2],
    ) != sub_key(#[trigger] r2.subs[j2]) by {
        let oi = if i2 < i {
            i2
        } else {
            i2 + 1
        };
        let oj = if j2 < i {
            j2
        } else {
            j2 + 1
        };
        assert(r2.subs[i2] == r.subs[oi] && r2.subs[j2] == r.subs[oj]);
        assert(sub_key(r.subs[oi]) != sub_key(r.subs[oj]));
    };
    assert(wf_subs_unique(r2));
    assert forall|j2: int| 0 <= j2 < r2.subs.len() implies wf_sub(#[trigger] r2.subs[j2]) by {
        let oj = if j2 < i {
            j2
        } else {
            j2 + 1
        };
        assert(r2.subs[j2] == r.subs[oj]);
        assert(wf_sub(r.subs[oj]));
    };
    assert(wf_subs_each(r2));
    assert(forall|ri2: int|
        0 <= ri2 < r2.resources.len() ==> (#[trigger] r2.resources[ri2]).path
            == r.resources[ri2].path);
    assert forall|ri2: int, rj2: int| 0 <= ri2 < rj2 < r2.resources.len() implies (
    #[trigger] r2.resources[ri2]).path != (#[trigger] r2.resources[rj2]).path by {
        assert(r.resources[ri2].path != r.resources[rj2].path);
    };
    assert(wf_paths_unique(r2));
}

fn bytes_eq(a: &Vec<u8>, b: &Vec<u8>) -> (r: bool)
    ensures
        r == (a@ == b@),
{
    if a.len() != b.len() {
        assert(a@ != b@);
        return false;
    }
    let mut i: usize = 0;
    while i < a.len()
        invariant
            i <= a.len(),
            a.len() == b.len(),
            forall|k: int| 0 <= k < i ==> a@[k] == b@[k],
        decreases a.len() - i,
    {
        if a[i] != b[i] {
            return false;
        }
        i = i + 1;
    }
    assert(a@ =~= b@);
    true
}

pub fn clone_bytes(a: &Vec<u8>) -> (r: Vec<u8>)
    ensures
        r@ == a@,
{
    let mut r: Vec<u8> = Vec::new();
    let mut i: usize = 0;
    while i < a.len()
        invariant
            i <= a.len(),
            r@ == a@.take(i as int),
        decreases a.len() - i,
    {
        r.push(a[i]);
        i = i + 1;
        assert(r@ =~= a@.take(i as int));
    }
    assert(r@ =~= a@);
    r
}

impl Registry {
    /// An empty registry.
    pub fn new() -> (r: Registry)
        ensures
            r@.subs.len() == 0,
            r@.resources.len() == 0,
            r@.next_mid == 1,
            wf_reg(r@),
    {
        Registry { subs: Vec::new(), resources: Vec::new(), next_mid: 1 }
    }

    fn find_sub(&self, peer: &Peer, token: &Vec<u8>) -> (r: Option<usize>)
        ensures
            match r {
                Some(i) => i < self@.subs.len() && sub_key(self@.subs[i as int]) == (
                *peer,
                token@,
                ),
                None => !has_sub(self@, *peer, token@),
            },
    {
        let mut i: usize = 0;
        while i < self.subs.len()
            invariant
                i <= self@.subs.len(),
                self@.subs.len() == self.subs@.len(),
                forall|k: int| 0 <= k < i ==> sub_key(#[trigger] self@.subs[k]) != (*peer, token@),
            decreases self.subs.len() - i,
        {
            assert(self@.subs[i as int] == self.subs@[i as int]@);
            if self.subs[i].peer == *peer && bytes_eq(&self.subs[i].token, token) {
                return Some(i);
            }
            i = i + 1;
        }
        None
    }

    fn find_res(&self, path: &Vec<u8>) -> (r: Option<usize>)
        ensures
            match r {
                Some(ri) => ri < self@.resources.len() && self@.resources[ri as int].path == path@,
                None => !has_res(self@, path@),
            },
    {
        let mut i: usize = 0;
        while i < self.resources.len()
            invariant
                i <= self@.resources.len(),
                self@.resources.len() == self.resources@.len(),
                forall|k: int| 0 <= k < i ==> (#[trigger] self@.resources[k]).path != path@,
            decreases self.resources.len() - i,
        {
            assert(self@.resources[i as int] == self.resources@[i as int]@);
            if bytes_eq(&self.resources[i].path, path) {
                return Some(i);
            }
            i = i + 1;
        }
        None
    }

    fn add_sub(&mut self, s: Subscription)
        requires
            wf_reg(old(self)@),
            wf_sub(s@),
            !has_sub(old(self)@, s.peer, s.token@),
        ensures
            final(self)@ == spec_add_sub(old(self)@, s@),
            wf_reg(final(self)@),
    {
        let ghost r0 = self@;
        let ghost sv = s@;
        proof {
            lemma_add_sub_wf(r0, sv);
        }
        let key_token = clone_bytes(&s.token);
        let speer = s.peer;
        let found = self.find_res(&s.resource);
        match found {
            Some(ri) => {
                proof {
                    assert(has_res(r0, sv.resource));
                    let rj = res_idx(r0, sv.resource);
                    assert(0 <= rj < r0.resources.len() && r0.resources[rj].path == sv.resource);
                    if ri as int != rj {
                        assert(r0.resources[ri as int].path != r0.resources[rj].path);
                    }
                    assert(ri as int == rj);
                }
                let mut entry = self.resources.remove(ri);
                entry.subscribers.push((speer, key_token));
                self.resources.insert(ri, entry);
                self.subs.push(s);
                proof {
                    assert(subsc_view(self.resources@[ri as int].subscribers@) =~= r0.resources[ri as int].subscribers.push((speer, sv.token)));
                    assert(self@.resources =~~= spec_add_sub(r0, sv).resources);
                    assert(self@.subs =~~= spec_add_sub(r0, sv).subs);
                    assert(self@ =~~= spec_add_sub(r0, sv));
                }
            },
            None => {
                let mut subsc: Vec<(Peer, Vec<u8>)> = Vec::new();
                subsc.push((speer, key_token));
                let path_c = clone_bytes(&s.resource);
                self.resources.push(
                    ResourceEntry { path: path_c, payload: Vec::new(), subscribers: subsc },
                );
                self.subs.push(s);
                proof {
                    assert(subsc_view(self.resources@[r0.resources.len() as int].subscribers@)
                        =~= seq![(speer, sv.token)]);
                    assert(self@.resources =~~= spec_add_sub(r0, sv).resources);
                    assert(self@.subs =~~= spec_add_sub(r0, sv).subs);
                    assert(self@ =~~= spec_add_sub(r0, sv));
                }
            },
        }
    }

    /// Remove the subscription keyed `(peer, token)`, if any, keeping the
    /// subscriber sets consistent.
    pub fn deregister(&mut self, peer: Peer, token: &Vec<u8>)
        requires
            wf_reg(old(self)@),
        ensures
            final(self)@ == spec_deregister(old(self)@, peer, token@),
            wf_reg(final(self)@),
    {
        let ghost r0 = self@;
        proof {
            lemma_deregister_wf(r0, peer, token@);
        }
        let found = self.find_sub(&peer, token);
        match found {
            None => {
                proof {
                    assert(self@ == spec_deregister(r0, peer, token@));
                }
            },
            Some(i) => {
                proof {
                    assert(has_sub(r0, peer, token@));
                    let j = sub_idx(r0, peer, token@);
                    assert(0 <= j < r0.subs.len() && sub_key(r0.subs[j]) == (peer, token@));
                    if i as int != j {
                        assert(sub_key(r0.subs[i as int]) != sub_key(r0.subs[j]));
                    }
                    assert(i as int == j);
                }
                let sub = self.subs.remove(i);
                let ghost path = r0.subs[i as int].resource;
                proof {
                    assert(sub_covered(r0, i as int));
                    assert(has_res(r0, path));
                }
                let found_res = self.find_res(&sub.resource);
                match found_res {
                    None => {
                        proof {
                            // the entry for this path exists and is untouched
                            // by the subscription removal
                            let rj = res_idx(r0, path);
                            assert(0 <= rj < r0.resources.len() && r0.resources[rj].path == path);
                            assert(self@.resources[rj] == r0.resources[rj]);
                            assert(false);
                        }
                    },
                    Some(ri) => {
                        proof {
                            let rj = res_idx(r0, path);
                            assert(0 <= rj < r0.resources.len() && r0.resources[rj].path == path);
                            if ri as int != rj {
                                assert(r0.resources[ri as int].path != r0.resources[rj].path);
                            }
                            assert(ri as int == rj);
                        }
                        let mut entry = self.resources.remove(ri);
                        let fk = find_key(&entry.subscribers, &peer, token);
                        match fk {
                            None => {
                                proof {
                                    let ks = r0.resources[ri as int].subscribers;
                                    assert(ks.contains((peer, token@)));
                                    let k = ks.index_of((peer, token@));
                                    assert(subsc_view(entry.subscribers@)[k] == (peer, token@));
                                    assert(false);
                                }
                            },
                            Some(k) => {
                                entry.subscribers.remove(k);
                                proof {
                                    let ks = r0.resources[ri as int].subscribers;
                                    assert(ks.contains((peer, token@)));
                                    let k0 = ks.index_of((peer, token@));
                                    if k as int != k0 {
                                        assert(ks[k as int] != ks[k0]);
                                    }
                                    assert(k as int == k0);
                                    assert(subsc_view(entry.subscribers@) =~= remove_key(
                                        ks,
                                        (peer, token@),
                                    ));
                                }
                            },
                        }
                        self.resources.insert(ri, entry);
                        proof {
                            assert(self@.resources =~~= spec_deregister(
                                r0,
                                peer,
                                token@,
                            ).resources);
                            assert(self@.subs =~~= spec_deregister(r0, peer, token@).subs);
                            assert(self@ =~~= spec_deregister(r0, peer, token@));
                        }
                    },
                }
            },
        }
    }
}

/// The minimal big-endian encoding of an Observe sequence number.
pub open spec fn obs_bytes(n: u32) -> Seq<u8> {
    if n == 0 {
        seq![]
    } else if n < 256 {
        seq![n as u8]
    } else if n < 65536 {
        seq![(n / 256) as u8, (n % 256) as u8]
    } else {
        seq![(n / 65536) as u8, ((n / 256) % 256) as u8, (n % 256) as u8]
    }
}

/// The Observe sequence number after `n`: one more, modulo 2^24.
pub open spec fn succ_seq(n: u32) -> u32 {
    if n + 1 == SEQ_MODULUS {
        0
    } else {
        (n + 1) as u32
    }
}

pub open spec fn wrap_mid(m: u16) -> u16 {
    if m == 0xffff {
        0
    } else {
        (m + 1) as u16
    }
}

/// RFC 7641 freshness order on Observe sequence numbers: `v2` was sent
/// after `v1`.
pub open spec fn seq_fresher(v1: u32, v2: u32) -> bool {
    (v1 < v2 && v2 - v1 < 8388608) || (v1 > v2 && v1 - v2 > 8388608)
}

/// Each notification carries a sequence number that is fresher, in the RFC
/// 7641 order, than the one before it, across the wrap at 2^24.
pub proof fn lemma_next_seq_fresher(v: u32)
    requires
        v < SEQ_MODULUS,
    ensures
        seq_fresher(v, succ_seq(v)),
{
}

/// The confirmable notification sent to subscription `s` when its resource
/// takes `payload`: it carries the subscription's token, the next sequence
/// number as its Observe option, and a fresh message id.
pub open spec fn notif_packet(s: SubView, payload: Seq<u8>, mid: u16) -> PacketView {
    PacketView {
        version: 1,
        mtype: MessageType::Confirmable,
        code: CODE_CONTENT,
        message_id: mid,
        token: s.token,
        options: seq![(OPT_OBSERVE, obs_bytes(s.next_seq))],
        payload,
    }
}

#[verifier::ext_equal]
pub struct NotifyOut {
    pub subs: Seq<SubView>,
    pub out: Seq<(PacketView, Peer)>,
    pub mid: u16,
}

/// Writing `payload` to `path`: every subscription on that path gets one
/// confirmable notification with its own next sequence number, its sequence
/// number advances, and its retransmission state is armed.
pub open spec fn spec_notify(
    subs: Seq<SubView>,
    path: Seq<u8>,
    payload: Seq<u8>,
    mid0: u16,
    now: u64,
    jitter: u64,
) -> NotifyOut
    decreases subs.len(),
{
    if subs.len() == 0 {
        NotifyOut { subs: seq![], out: seq![], mid: mid0 }
    } else {
        let s0 = subs[0];
        if s0.resource == path {
            let pkt = notif_packet(s0, payload, mid0);
            let s0p = SubView {
                next_seq: succ_seq(s0.next_seq),
                unacked: Some(
                    PendingView {
                        packet: pkt,
                        message_id: mid0,
                        deadline: (now + ACK_TIMEOUT_MS + jitter) as u64,
                        timeout: (ACK_TIMEOUT_MS + jitter) as u64,
                        attempts: 0,
                    },
                ),
                ..s0
            };
            let rest = spec_notify(subs.drop_first(), path, payload, wrap_mid(mid0), now, jitter);
            NotifyOut {
                subs: seq![s0p] + rest.subs,
                out: seq![(pkt, s0.peer)] + rest.out,
                mid: rest.mid,
            }
        } else {
            let rest = spec_notify(subs.drop_first(), path, payload, mid0, now, jitter);
            NotifyOut { subs: seq![s0] + rest.subs, out: rest.out, mid: rest.mid }
        }
    }
}

/// Notifying changes neither keys nor resources of the subscriptions, and
/// keeps each well-formed.
pub proof fn lemma_notify_preserves(
    subs: Seq<SubView>,
    path: Seq<u8>,
    payload: Seq<u8>,
    mid0: u16,
    now: u64,
    jitter: u64,
)
    requires
        now <= MAX_NOW,
        jitter <= MAX_JITTER_MS,
    ensures
        ({
            let n = spec_notify(subs, path, payload, mid0, now, jitter);
            &&& n.subs.len() == subs.len()
            &&& forall|i: int|
                0 <= i < subs.len() ==> sub_key(#[trigger] n.subs[i]) == sub_key(subs[i])
                    && n.subs[i].resource == subs[i].resource && (wf_sub(subs[i]) ==> wf_sub(
                    n.subs[i],
                ))
        }),
    decreases subs.len(),
{
    let n = spec_notify(subs, path, payload, mid0, now, jitter);
    if subs.len() == 0 {
    } else {
        let s0 = subs[0];
        let mid1 = if s0.resource == path {
            wrap_mid(mid0)
        } else {
            mid0
        };
        lemma_notify_preserves(subs.drop_first(), path, payload, mid1, now, jitter);
        let rest = spec_notify(subs.drop_first(), path, payload, mid1, now, jitter);
        assert forall|i: int|
            0 <= i < subs.len() implies sub_key(#[trigger] n.subs[i]) == sub_key(subs[i])
            && n.subs[i].resource == subs[i].resource && (wf_sub(subs[i]) ==> wf_sub(
            n.subs[i],
        )) by {
            if i == 0 {
            } else {
                assert(n.subs[i] == rest.subs[i - 1]);
                assert(subs[i] == subs.drop_first()[i - 1]);
            }
        };
    }
}

/// Setting the payload of a resource, the entry being created when the path
/// is new; subscriber sets are untouched.
pub open spec fn spec_set_payload(r: RegView, path: Seq<u8>, payload: Seq<u8>) -> Seq<ResView> {
    if has_res(r, path) {
        let ri = res_idx(r, path);
        r.resources.update(ri, ResView { payload, ..r.resources[ri] })
    } else {
        r.resources.push(ResView { path, payload, subscribers: seq![] })
    }
}

/// Well-formedness survives any step that keeps every subscription's key and
/// resource, keeps every existing resource entry's path and subscriber set,
/// and appends at most one fresh entry with no subscribers.
pub proof fn lemma_wf_preserved_shape(r: RegView, r2: RegView)
    requires
        wf_reg(r),
        r2.subs.len() == r.subs.len(),
        forall|i: int|
            0 <= i < r.subs.len() ==> sub_key(#[trigger] r2.subs[i]) == sub_key(r.subs[i])
                && r2.subs[i].resource == r.subs[i].resource && wf_sub(r2.subs[i]),
        r.resources.len() <= r2.resources.len() <= r.resources.len() + 1,
        forall|ri: int|
            0 <= ri < r.resources.len() ==> (#[trigger] r2.resources[ri]).path
                == r.resources[ri].path && r2.resources[ri].subscribers
                == r.resources[ri].subscribers,
        r2.resources.len() == r.resources.len() + 1 ==> r2.resources[r.resources.len() as int].subscribers.len()
            == 0 && !has_res(r, r2.resources[r.resources.len() as int].path),
    ensures
        wf_reg(r2),
{
    let nres = r.resources.len() as int;
    assert forall|i: int, j: int| 0 <= i < j < r2.subs.len() implies sub_key(#[trigger] r2.subs[i])
        != sub_key(#[trigger] r2.subs[j]) by {
        assert(sub_key(r.subs[i]) != sub_key(r.subs[j]));
    };
    assert(wf_subs_unique(r2));
    assert(wf_subs_each(r2));
    assert forall|x: int, y: int| 0 <= x < y < r2.resources.len() implies (
    #[trigger] r2.resources[x]).path != (#[trigger] r2.resources[y]).path by {
        if y == nres {
            if r.resources[x].path == r2.resources[y].path {
                assert(has_res(r, r2.resources[y].path));
            }
        } else {
            assert(r.resources[x].path != r.resources[y].path);
        }
    };
    assert(wf_paths_unique(r2));
    assert forall|i: int| 0 <= i < r2.subs.len() implies #[trigger] sub_covered(r2, i) by {
        assert(sub_covered(r, i));
        let rj = choose|rj: int|
            0 <= rj < r.resources.len() && (#[trigger] r.resources[rj]).path == r.subs[i].resource
                && r.resources[rj].subscribers.contains(sub_key(r.subs[i]));
        assert(r2.resources[rj].path == r2.subs[i].resource);
        assert(r2.resources[rj].subscribers.contains(sub_key(r2.subs[i])));
    };
    assert(wf_sub_to_res(r2));
    assert forall|rj: int, ki: int|
        0 <= rj < r2.resources.len() && 0 <= ki
            < r2.resources[rj].subscribers.len() implies #[trigger] key_covered(r2, rj, ki) by {
        assert(rj < nres);
        assert(r2.resources[rj].subscribers[ki] == r.resources[rj].subscribers[ki]);
        assert(key_covered(r, rj, ki));
        let i = choose|i: int|
            0 <= i < r.subs.len() && sub_key(#[trigger] r.subs[i])
                == r.resources[rj].subscribers[ki] && r.subs[i].resource == r.resources[rj].path;
        assert(sub_key(r2.subs[i]) == r2.resources[rj].subscribers[ki]);
        assert(r2.subs[i].resource == r2.resources[rj].path);
    };
    assert(wf_res_to_sub(r2));
    assert forall|rj: int, ki: int, kj: int|
        0 <= rj < r2.resources.len() && 0 <= ki < kj < r2.resources[rj].subscribers.len() implies (
    #[trigger] r2.resources[rj].subscribers[ki]) != (
    #[trigger] r2.resources[rj].subscribers[kj]) by {
        assert(rj < nres);
        assert(r.resources[rj].subscribers[ki] != r.resources[rj].subscribers[kj]);
    };
    assert(wf_subsc_unique(r2));
}

fn clone_options(o: &Vec<(u32, Vec<u8>)>) -> (r: Vec<(u32, Vec<u8>)>)
    ensures
        opts_view(r@) == opts_view(o@),
{
    let mut r: Vec<(u32, Vec<u8>)> = Vec::new();
    let mut i: usize = 0;
    while i < o.len()
        invariant
            i <= o.len(),
            r@.len() == i,
            forall|k: int| 0 <= k < i ==> (#[trigger] r@[k]).0 == o@[k].0 && r@[k].1@ == o@[k].1@,
        decreases o.len() - i,
    {
        r.push((o[i].0, clone_bytes(&o[i].1)));
        i = i + 1;
    }
    assert(opts_view(r@) =~= opts_view(o@));
    r
}

/// A deep copy of a packet.
pub fn clone_packet(p: &Packet) -> (r: Packet)
    ensures
        r@ == p@,
{
    let r = Packet {
        version: p.version,
        mtype: p.mtype,
        code: p.code,
        message_id: p.message_id,
        token: clone_bytes(&p.token),
        options: clone_options(&p.options),
        payload: clone_bytes(&p.payload),
    };
    assert(r@ =~= p@);
    r
}

fn obs_bytes_exec(n: u32) -> (r: Vec<u8>)
    requires
        n < SEQ_MODULUS,
    ensures
        r@ == obs_bytes(n),
{
    let mut r: Vec<u8> = Vec::new();
    if n == 0 {
    } else if n < 256 {
        r.push(n as u8);
    } else if n < 65536 {
        r.push((n / 256) as u8);
        r.push((n % 256) as u8);
    } else {
        r.push((n / 65536) as u8);
        r.push(((n / 256) % 256) as u8);
        r.push((n % 256) as u8);
    }
    assert(r@ =~= obs_bytes(n));
    r
}

fn build_notif(s: &Subscription, payload: &Vec<u8>, mid: u16) -> (r: Packet)
    requires
        s@.next_seq < SEQ_MODULUS,
    ensures
        r@ == notif_packet(s@, payload@, mid),
{
    let mut options: Vec<(u32, Vec<u8>)> = Vec::new();
    options.push((OPT_OBSERVE, obs_bytes_exec(s.next_seq)));
    let r = Packet {
        version: 1,
        mtype: MessageType::Confirmable,
        code: CODE_CONTENT,
        message_id: mid,
        token: clone_bytes(&s.token),
        options,
        payload: clone_bytes(payload),
    };
    assert(opts_view(r.options@) =~= seq![(OPT_OBSERVE, obs_bytes(s@.next_seq))]);
    assert(r@ =~= notif_packet(s@, payload@, mid));
    r
}

fn clone_sub(s: &Subscription) -> (r: Subscription)
    ensures
        r@ == s@,
{
    let unacked = match &s.unacked {
        Some(u) => Some(
            PendingCon {
                packet: clone_packet(&u.packet),
                message_id: u.message_id,
                deadline: u.deadline,
                timeout: u.timeout,
                attempts: u.attempts,
            },
        ),
        None => None,
    };
    let r = Subscription {
        peer: s.peer,
        token: clone_bytes(&s.token),
        resource: clone_bytes(&s.resource),
        register_time: s.register_time,
        next_seq: s.next_seq,
        unacked,
        template: clone_packet(&s.template),
    };
    assert(r@ =~= s@);
    r
}

impl Registry {
    /// Set the stored payload of `path`, the entry created when the path is
    /// new; subscriptions, sequence state and message ids are untouched.
    pub fn set_payload(&mut self, path: &Vec<u8>, payload: &Vec<u8>)
        requires
            wf_reg(old(self)@),
        ensures
            wf_reg(final(self)@),
            final(self)@.resources == spec_set_payload(old(self)@, path@, payload@),
            final(self)@.subs == old(self)@.subs,
            final(self)@.next_mid == old(self)@.next_mid,
    {
        let ghost r0 = self@;
        let fr = self.find_res(path);
        match fr {
            Some(ri) => {
                proof {
                    assert(has_res(r0, path@));
                    let rj = res_idx(r0, path@);
                    assert(0 <= rj < r0.resources.len() && r0.resources[rj].path == path@);
                    if ri as int != rj {
                        assert(r0.resources[ri as int].path != r0.resources[rj].path);
                    }
                    assert(ri as int == rj);
                }
                let mut entry = self.resources.remove(ri);
                entry.payload = clone_bytes(payload);
                self.resources.insert(ri, entry);
                proof {
                    assert(self@.resources =~~= spec_set_payload(r0, path@, payload@));
                }
            },
            None => {
                self.resources.push(
                    ResourceEntry {
                        path: clone_bytes(path),
                        payload: clone_bytes(payload),
                        subscribers: Vec::new(),
                    },
                );
                proof {
                    assert(subsc_view(Seq::<(Peer, Vec<u8>)>::empty()) =~= Seq::<
                        (Peer, Seq<u8>),
                    >::empty());
                    assert(self@.resources =~~= spec_set_payload(r0, path@, payload@));
                }
            },
        }
        proof {
            lemma_wf_preserved_shape(r0, self@);
        }
    }

    /// Write `payload` to the resource at `path`: the stored payload is
    /// replaced (the entry created when the path is new) and one confirmable
    /// notification per subscription on the path is produced, in
    /// subscription order, each with its own advancing sequence number.
    pub fn write_resource(
        &mut self,
        path: &Vec<u8>,
        payload: &Vec<u8>,
        now: u64,
        jitter: u64,
    ) -> (out: Vec<(Packet, Peer)>)
        requires
            wf_reg(old(self)@),
            now <= MAX_NOW,
            jitter <= MAX_JITTER_MS,
        ensures
            wf_reg(final(self)@),
            final(self)@.resources == spec_set_payload(old(self)@, path@, payload@),
            ({
                let n = spec_notify(
                    old(self)@.subs,
                    path@,
                    payload@,
                    old(self)@.next_mid,
                    now,
                    jitter,
                );
                final(self)@.subs == n.subs && out_view(out@) == n.out && final(self)@.next_mid
                    == n.mid
            }),
    {
        let ghost r0 = self@;
        self.set_payload(path, payload);
        let ghost subs0 = r0.subs;
        assert(subs_view(self.subs@) == subs0);
        let mut new_subs: Vec<Subscription> = Vec::new();
        let mut out: Vec<(Packet, Peer)> = Vec::new();
        let mut mid: u16 = self.next_mid;
        let mut i: usize = 0;
        proof {
            assert(subs0.skip(0) =~= subs0);
            assert(subs_view(new_subs@) + spec_notify(subs0, path@, payload@, mid, now, jitter).subs
                =~= spec_notify(subs0, path@, payload@, mid, now, jitter).subs);
            assert(out_view(out@) + spec_notify(subs0, path@, payload@, mid, now, jitter).out
                =~= spec_notify(subs0, path@, payload@, mid, now, jitter).out);
        }
        while i < self.subs.len()
            invariant
                i <= self.subs.len(),
                subs_view(self.subs@) == subs0,
                forall|k: int| 0 <= k < subs0.len() ==> wf_sub(#[trigger] subs0[k]),
                now <= MAX_NOW,
                jitter <= MAX_JITTER_MS,
                ({
                    let full = spec_notify(subs0, path@, payload@, r0.next_mid, now, jitter);
                    let rest = spec_notify(subs0.skip(i as int), path@, payload@, mid, now, jitter);
                    full.subs == subs_view(new_subs@) + rest.subs && full.out == out_view(out@)
                        + rest.out && full.mid == rest.mid
                }),
            decreases self.subs.len() - i,
        {
            let ghost rest_pre = spec_notify(
                subs0.skip(i as int),
                path@,
                payload@,
                mid,
                now,
                jitter,
            );
            let ghost ns0 = new_subs@;
            let ghost out0 = out@;
            proof {
                assert(subs0.skip(i as int)[0] == subs0[i as int]);
                assert(subs0.skip(i as int).drop_first() =~= subs0.skip(i + 1));
                assert(self.subs@[i as int]@ == subs0[i as int]);
                assert(wf_sub(subs0[i as int]));
            }
            let is_match = bytes_eq(&self.subs[i].resource, path);
            if is_match {
                let pkt_out = build_notif(&self.subs[i], payload, mid);
                let pkt_store = build_notif(&self.subs[i], payload, mid);
                let timeout: u64 = ACK_TIMEOUT_MS + jitter;
                let deadline: u64 = now + timeout;
                let nseq: u32 = if self.subs[i].next_seq == SEQ_MODULUS - 1 {
                    0
                } else {
                    self.subs[i].next_seq + 1
                };
                let s = &self.subs[i];
                new_subs.push(
                    Subscription {
                        peer: s.peer,
                        token: clone_bytes(&s.token),
                        resource: clone_bytes(&s.resource),
                        register_time: s.register_time,
                        next_seq: nseq,
                        unacked: Some(
                            PendingCon {
                                packet: pkt_store,
                                message_id: mid,
                                deadline,
                                timeout,
                                attempts: 0,
                            },
                        ),
                        template: clone_packet(&s.template),
                    },
                );
                out.push((pkt_out, s.peer));
                proof {
                    let s0 = subs0[i as int];
                    let pkt = notif_packet(s0, payload@, mid);
                    let s0p = SubView {
                        next_seq: succ_seq(s0.next_seq),
                        unacked: Some(
                            PendingView {
                                packet: pkt,
                                message_id: mid,
                                deadline: (now + ACK_TIMEOUT_MS + jitter) as u64,
                                timeout: (ACK_TIMEOUT_MS + jitter) as u64,
                                attempts: 0,
                            },
                        ),
                        ..s0
                    };
                    assert(nseq == succ_seq(s0.next_seq));
                    assert(new_subs@[ns0.len() as int]@ =~= s0p);
                    assert(subs_view(new_subs@) =~= subs_view(ns0) + seq![s0p]);
                    assert(out_view(out@) =~= out_view(out0) + seq![(pkt, s0.peer)]);
                    assert(rest_pre.subs == seq![s0p] + spec_notify(
                        subs0.skip(i + 1),
                        path@,
                        payload@,
                        wrap_mid(mid),
                        now,
                        jitter,
                    ).subs);
                    assert((subs_view(ns0) + seq![s0p]) + spec_notify(
                        subs0.skip(i + 1),
                        path@,
                        payload@,
                        wrap_mid(mid),
                        now,
                        jitter,
                    ).subs =~= subs_view(ns0) + rest_pre.subs);
                    assert((out_view(out0) + seq![(pkt, s0.peer)]) + spec_notify(
                        subs0.skip(i + 1),
                        path@,
                        payload@,
                        wrap_mid(mid),
                        now,
                        jitter,
                    ).out =~= out_view(out0) + rest_pre.out);
                }
                mid = if mid == 0xffff {
                    0
                } else {
                    mid + 1
                };
            } else {
                new_subs.push(clone_sub(&self.subs[i]));
                proof {
                    let s0 = subs0[i as int];
                    assert(new_subs@[ns0.len() as int]@ == s0);
                    assert(subs_view(new_subs@) =~= subs_view(ns0) + seq![s0]);
                    assert((subs_view(ns0) + seq![s0]) + spec_notify(
                        subs0.skip(i + 1),
                        path@,
                        payload@,
                        mid,
                        now,
                        jitter,
                    ).subs =~= subs_view(ns0) + rest_pre.subs);
                }
            }
            i = i + 1;
        }
        proof {
            assert(subs0.skip(subs0.len() as int) =~= Seq::<SubView>::empty());
            let full = spec_notify(subs0, path@, payload@, r0.next_mid, now, jitter);
            assert(full.subs =~= subs_view(new_subs@));
            assert(full.out =~= out_view(out@));
        }
        self.subs = new_subs;
        self.next_mid = mid;
        proof {
            lemma_notify_preserves(subs0, path@, payload@, r0.next_mid, now, jitter);
            lemma_wf_preserved_shape(r0, self@);
        }
        out
    }
}

/// An inbound ACK or RST from `peer` with this message id settles the
/// pending confirmable notification of this subscription.
pub open spec fn reply_match(s: SubView, peer: Peer, mid: u16) -> bool {
    s.peer == peer && match s.unacked {
        Some(u) => u.message_id == mid,
        None => false,
    }
}

pub open spec fn cleared(s: SubView) -> SubView {
    SubView { unacked: None, ..s }
}

/// The registry after the pending notification of the subscription at `i`
/// is acknowledged.
pub open spec fn spec_clear_at(r: RegView, i: int) -> RegView {
    RegView { subs: r.subs.update(i, cleared(r.subs[i])), ..r }
}

/// The earliest subscription whose pending notification the reply settles.
pub open spec fn first_reply_idx(subs: Seq<SubView>, peer: Peer, mid: u16) -> Option<int>
    decreases subs.len(),
{
    if subs.len() == 0 {
        None
    } else if reply_match(subs[0], peer, mid) {
        Some(0int)
    } else {
        match first_reply_idx(subs.drop_first(), peer, mid) {
            Some(k) => Some(k + 1),
            None => None,
        }
    }
}

proof fn lemma_first_reply_at(subs: Seq<SubView>, peer: Peer, mid: u16, i: int)
    requires
        0 <= i < subs.len(),
        reply_match(subs[i], peer, mid),
        forall|k: int| 0 <= k < i ==> !reply_match(#[trigger] subs[k], peer, mid),
    ensures
        first_reply_idx(subs, peer, mid) == Some(i),
    decreases i,
{
    if i == 0 {
    } else {
        assert(!reply_match(subs[0], peer, mid));
        lemma_first_reply_at(subs.drop_first(), peer, mid, i - 1);
    }
}

proof fn lemma_first_reply_none(subs: Seq<SubView>, peer: Peer, mid: u16)
    requires
        forall|k: int| 0 <= k < subs.len() ==> !reply_match(#[trigger] subs[k], peer, mid),
    ensures
        first_reply_idx(subs, peer, mid) is None,
    decreases subs.len(),
{
    if subs.len() > 0 {
        lemma_first_reply_none(subs.drop_first(), peer, mid);
    }
}

/// The earliest pending retransmission deadline, if any notification is
/// unacknowledged.
pub open spec fn spec_min_deadline(subs: Seq<SubView>) -> Option<u64>
    decreases subs.len(),
{
    if subs.len() == 0 {
        None
    } else {
        let rest = spec_min_deadline(subs.drop_first());
        match subs[0].unacked {
            Some(u) => match rest {
                Some(d) => if u.deadline <= d {
                    Some(u.deadline)
                } else {
                    Some(d)
                },
                None => Some(u.deadline),
            },
            None => rest,
        }
    }
}

impl Registry {
    /// Correlate an inbound ACK or RST with the subscription awaiting it:
    /// an ACK clears the pending notification; an RST also removes the
    /// subscription. The earliest matching subscription settles the reply;
    /// without a match nothing changes.
    pub fn on_reply(&mut self, peer: Peer, mid: u16, is_rst: bool)
        requires
            wf_reg(old(self)@),
        ensures
            wf_reg(final(self)@),
            ({
                match first_reply_idx(old(self)@.subs, peer, mid) {
                    None => final(self)@ == old(self)@,
                    Some(i) => final(self)@ == (if is_rst {
                        spec_deregister(old(self)@, peer, old(self)@.subs[i].token)
                    } else {
                        spec_clear_at(old(self)@, i)
                    }),
                }
            }),
    {
        let ghost r0 = self@;
        let mut i: usize = 0;
        while i < self.subs.len()
            invariant
                r0 == old(self)@,
                wf_reg(self@),
                self@ == r0,
                i <= self.subs.len(),
                forall|k: int| 0 <= k < i ==> !reply_match(#[trigger] r0.subs[k], peer, mid),
            decreases self.subs.len() - i,
        {
            assert(self.subs@[i as int]@ == r0.subs[i as int]);
            let hit = self.subs[i].peer == peer && (match &self.subs[i].unacked {
                Some(u) => u.message_id == mid,
                None => false,
            });
            if hit {
                assert(reply_match(r0.subs[i as int], peer, mid));
                if is_rst {
                    let tok = clone_bytes(&self.subs[i].token);
                    assert(tok@ == r0.subs[i as int].token);
                    proof {
                        lemma_first_reply_at(r0.subs, peer, mid, i as int);
                    }
                    self.deregister(peer, &tok);
                    return ;
                } else {
                    let mut s = self.subs.remove(i);
                    s.unacked = None;
                    self.subs.insert(i, s);
                    proof {
                        assert(self@.subs =~~= r0.subs.update(
                            i as int,
                            cleared(r0.subs[i as int]),
                        ));
                        assert(self@ =~~= spec_clear_at(r0, i as int));
                        assert forall|k: int|
                            0 <= k < r0.subs.len() implies sub_key(#[trigger] self@.subs[k])
                            == sub_key(r0.subs[k]) && self@.subs[k].resource == r0.subs[k].resource
                            && wf_sub(self@.subs[k]) by {
                            if k != i {
                                assert(self@.subs[k] == r0.subs[k]);
                            }
                        };
                        lemma_wf_preserved_shape(r0, self@);
                        lemma_first_reply_at(r0.subs, peer, mid, i as int);
                    }
                    return ;
                }
            }
            i = i + 1;
        }
        proof {
            lemma_first_reply_none(r0.subs, peer, mid);
        }
    }

    /// The observer timer fired: every subscription whose retransmission
    /// deadline has passed either goes out again, with a doubled timeout and
    /// the same packet and message id, or, with no attempts left, is removed
    /// as unreachable. Resource payloads are untouched.
    #[verifier::rlimit(100)]
    pub fn tick(&mut self, now: u64) -> (out: Vec<(Packet, Peer)>)
        requires
            wf_reg(old(self)@),
            now <= MAX_NOW,
        ensures
            wf_reg(final(self)@),
            final(self)@.next_mid == old(self)@.next_mid,
            final(self)@.resources.len() == old(self)@.resources.len(),
            forall|ri: int|
                0 <= ri < old(self)@.resources.len() ==> (#[trigger] final(self)@.resources[ri]).path == old(self)@.resources[ri].path && final(self)@.resources[ri].payload == old(self)@.resources[ri].payload,
            forall|i: int|
                0 <= i < old(self)@.subs.len() && con_exhausted(#[trigger] old(self)@.subs[i], now)
                    ==> !has_sub(final(self)@, old(self)@.subs[i].peer, old(self)@.subs[i].token),
            forall|i: int|
                0 <= i < old(self)@.subs.len() && con_due(#[trigger] old(self)@.subs[i], now)
                    && !con_exhausted(old(self)@.subs[i], now) ==> has_sub(
                    final(self)@,
                    old(self)@.subs[i].peer,
                    old(self)@.subs[i].token,
                ) && final(self)@.subs[sub_idx(
                    final(self)@,
                    old(self)@.subs[i].peer,
                    old(self)@.subs[i].token,
                )] == retransmitted(old(self)@.subs[i], now),
            forall|i: int|
                0 <= i < old(self)@.subs.len() && !con_due(#[trigger] old(self)@.subs[i], now)
                    ==> has_sub(final(self)@, old(self)@.subs[i].peer, old(self)@.subs[i].token)
                    && final(self)@.subs[sub_idx(
                    final(self)@,
                    old(self)@.subs[i].peer,
                    old(self)@.subs[i].token,
                )] == old(self)@.subs[i],
            out_view(out@) == spec_retrans(old(self)@.subs, now),
    {
        let ghost r0 = self@;
        let ghost subs0 = r0.subs;
        let mut new_subs: Vec<Subscription> = Vec::new();
        let mut out: Vec<(Packet, Peer)> = Vec::new();
        let mut drops: Vec<(Peer, Vec<u8>)> = Vec::new();
        let ghost mut drop_idx: Seq<int> = Seq::empty();
        proof {
            assert(subs0.skip(0) =~= subs0);
            assert(out_view(out@) + spec_retrans(subs0, now) =~= spec_retrans(subs0, now));
        }
        let mut i: usize = 0;
        while i < self.subs.len()
            invariant
                r0 == old(self)@,
                self@ == r0,
                subs0 == r0.subs,
                wf_reg(r0),
                now <= MAX_NOW,
                i <= subs0.len(),
                self.subs@.len() == subs0.len(),
                new_subs@.len() == i,
                forall|k: int|
                    0 <= k < i ==> #[trigger] subs_view(new_subs@)[k] == (if con_due(subs0[k], now)
                        && !con_exhausted(subs0[k], now) {
                        retransmitted(subs0[k], now)
                    } else {
                        subs0[k]
                    }),
                spec_retrans(subs0, now) == out_view(out@) + spec_retrans(
                    subs0.skip(i as int),
                    now,
                ),
                drop_idx.len() == drops@.len(),
                forall|d: int|
                    0 <= d < drop_idx.len() ==> 0 <= #[trigger] drop_idx[d] < i && con_exhausted(
                        subs0[drop_idx[d]],
                        now,
                    ) && subsc_view(drops@)[d] == sub_key(subs0[drop_idx[d]]),
                forall|d1: int, d2: int|
                    0 <= d1 < d2 < drop_idx.len() ==> #[trigger] drop_idx[d1] < #[trigger] drop_idx[d2],
                forall|k: int|
                    0 <= k < i && con_exhausted(#[trigger] subs0[k], now) ==> exists|d: int|
                        0 <= d < drop_idx.len() && drop_idx[d] == k,
            decreases self.subs.len() - i,
        {
            let ghost out_pre = out@;
            let ghost ns_pre = new_subs@;
            let ghost di_pre = drop_idx;
            assert(self.subs@[i as int]@ == subs0[i as int]);
            assert(wf_sub(subs0[i as int]));
            proof {
                assert(subs0.skip(i as int)[0] == subs0[i as int]);
                assert(subs0.skip(i as int).drop_first() =~= subs0.skip(i + 1));
            }
            let s = &self.subs[i];
            let mut due = false;
            let mut exhausted = false;
            match &s.unacked {
                Some(u) => {
                    if u.deadline <= now {
                        due = true;
                        if u.attempts >= MAX_RETRANSMIT {
                            exhausted = true;
                        }
                    }
                },
                None => {},
            }
            assert(due == con_due(subs0[i as int], now));
            assert(exhausted == con_exhausted(subs0[i as int], now));
            if due && !exhausted {
                match &s.unacked {
                    Some(u) => {
                        out.push((clone_packet(&u.packet), s.peer));
                        let t2 = u.timeout * 2;
                        let nd = now + t2;
                        new_subs.push(
                            Subscription {
                                peer: s.peer,
                                token: clone_bytes(&s.token),
                                resource: clone_bytes(&s.resource),
                                register_time: s.register_time,
                                next_seq: s.next_seq,
                                unacked: Some(
                                    PendingCon {
                                        packet: clone_packet(&u.packet),
                                        message_id: u.message_id,
                                        deadline: nd,
                                        timeout: t2,
                                        attempts: u.attempts + 1,
                                    },
                                ),
                                template: clone_packet(&s.template),
                            },
                        );
                        proof {
                            assert(new_subs@[i as int]@ =~= retransmitted(subs0[i as int], now));
                            assert(out_view(out@) =~= out_view(out_pre).push(
                                (subs0[i as int].unacked.unwrap().packet, subs0[i as int].peer),
                            ));
                                                        let x = (
                                subs0[i as int].unacked.unwrap().packet,
                                subs0[i as int].peer,
                            );
                            assert(out_view(out@) =~= out_view(out_pre) + seq![x]);
                            assert((out_view(out_pre) + seq![x]) + spec_retrans(
                                subs0.skip(i + 1),
                                now,
                            ) =~= out_view(out_pre) + (seq![x] + spec_retrans(
                                subs0.skip(i + 1),
                                now,
                            )));
                        }
                    },
                    None => {
                        proof {
                            assert(false);
                        }
                    },
                }
            } else if exhausted {
                new_subs.push(clone_sub(s));
                drops.push((s.peer, clone_bytes(&s.token)));
                proof {
                                        drop_idx = drop_idx.push(i as int);
                    assert(subsc_view(drops@)[drop_idx.len() - 1] == sub_key(subs0[i as int]));
                    assert(new_subs@[i as int]@ == subs0[i as int]);
                    assert forall|k: int|
                        0 <= k < i + 1 && con_exhausted(#[trigger] subs0[k], now) implies exists|
                        dd: int,
                    | 0 <= dd < drop_idx.len() && drop_idx[dd] == k by {
                        if k < i {
                            let dd = choose|dd: int|
                                0 <= dd < di_pre.len() && di_pre[dd] == k;
                            assert(drop_idx[dd] == k);
                        } else {
                            assert(drop_idx[drop_idx.len() - 1] == i as int);
                        }
                    };
                }
            } else {
                new_subs.push(clone_sub(s));
                proof {
                    assert(new_subs@[i as int]@ == subs0[i as int]);
                                    }
            }
            proof {
                assert(forall|k: int|
                    0 <= k < i ==> #[trigger] subs_view(new_subs@)[k] == subs_view(ns_pre)[k]);
                assert(subs_view(new_subs@)[i as int] == new_subs@[i as int]@);
            }
            i = i + 1;
        }
        proof {
            assert(subs0.skip(subs0.len() as int) =~= Seq::<SubView>::empty());
            assert(out_view(out@) + Seq::<(PacketView, Peer)>::empty() =~= out_view(out@));
        }
        self.subs = new_subs;
        let ghost r1 = self@;
        proof {
            assert forall|k: int|
                0 <= k < r0.subs.len() implies sub_key(#[trigger] r1.subs[k]) == sub_key(
                r0.subs[k],
            ) && r1.subs[k].resource == r0.subs[k].resource && wf_sub(r1.subs[k]) by {
                assert(wf_sub(subs0[k]));
                if con_due(subs0[k], now) && !con_exhausted(subs0[k], now) {
                    let u = subs0[k].unacked.unwrap();
                    assert(u.attempts < MAX_RETRANSMIT);
                    assert(u.timeout * 2 <= timeout_cap((u.attempts + 1) as u8));
                }
            };
            lemma_wf_preserved_shape(r0, r1);
            assert forall|k: int|
                0 <= k < subs0.len() && !con_exhausted(#[trigger] subs0[k], now) implies has_sub(
                r1,
                subs0[k].peer,
                subs0[k].token,
            ) && r1.subs[sub_idx(r1, subs0[k].peer, subs0[k].token)] == r1.subs[k] by {
                assert(sub_key(r1.subs[k]) == sub_key(subs0[k]));
                assert(sub_key(r1.subs[k]) == (subs0[k].peer, subs0[k].token));
                assert(has_sub(r1, subs0[k].peer, subs0[k].token));
                let j = sub_idx(r1, subs0[k].peer, subs0[k].token);
                assert(0 <= j < r1.subs.len() && sub_key(r1.subs[j]) == (
                subs0[k].peer,
                subs0[k].token,
                ));
                if j != k {
                    assert(sub_key(r1.subs[j]) != sub_key(r1.subs[k]));
                }
                assert(j == k);
            };
        }
        let mut d: usize = 0;
        while d < drops.len()
            invariant
                r0 == old(self)@,
                subs0 == r0.subs,
                wf_reg(r0),
                wf_reg(self@),
                now <= MAX_NOW,
                d <= drops@.len(),
                self@.next_mid == r0.next_mid,
                self@.resources.len() == r0.resources.len(),
                forall|ri: int|
                    0 <= ri < r0.resources.len() ==> (#[trigger] self@.resources[ri]).path
                        == r0.resources[ri].path && self@.resources[ri].payload
                        == r0.resources[ri].payload,
                r1.subs.len() == subs0.len(),
                forall|k: int|
                    0 <= k < subs0.len() ==> #[trigger] r1.subs[k] == (if con_due(subs0[k], now)
                        && !con_exhausted(subs0[k], now) {
                        retransmitted(subs0[k], now)
                    } else {
                        subs0[k]
                    }),
                forall|k: int|
                    0 <= k < subs0.len() ==> sub_key(#[trigger] r1.subs[k]) == sub_key(subs0[k]),
                drop_idx.len() == drops@.len(),
                forall|dd: int|
                    0 <= dd < drop_idx.len() ==> 0 <= #[trigger] drop_idx[dd] < subs0.len()
                        && con_exhausted(subs0[drop_idx[dd]], now) && subsc_view(drops@)[dd]
                        == sub_key(subs0[drop_idx[dd]]),
                forall|d1: int, d2: int|
                    0 <= d1 < d2 < drop_idx.len() ==> #[trigger] drop_idx[d1] < #[trigger] drop_idx[d2],
                forall|k: int|
                    0 <= k < subs0.len() && con_exhausted(#[trigger] subs0[k], now) ==> exists|
                        dd: int,
                    |
                        0 <= dd < drop_idx.len() && drop_idx[dd] == k,
                forall|k: int|
                    0 <= k < subs0.len() && !con_exhausted(#[trigger] subs0[k], now) ==> has_sub(
                        self@,
                        subs0[k].peer,
                        subs0[k].token,
                    ) && self@.subs[sub_idx(self@, subs0[k].peer, subs0[k].token)] == r1.subs[k],
                forall|dd: int|
                    0 <= dd < d ==> !has_sub(
                        self@,
                        (#[trigger] subsc_view(drops@)[dd]).0,
                        subsc_view(drops@)[dd].1,
                    ),
                out_view(out@) == spec_retrans(subs0, now),
            decreases drops.len() - d,
        {
            let ghost rcur = self@;
            let ghost key_d = subsc_view(drops@)[d as int];
            proof {
                lemma_deregister_frame(rcur, drops@[d as int].0, drops@[d as int].1@);
            }
            assert(subsc_view(drops@)[d as int] == (drops@[d as int].0, drops@[d as int].1@));
            self.deregister(drops[d].0, &drops[d].1);
            proof {
                assert forall|k: int|
                    0 <= k < subs0.len() && !con_exhausted(#[trigger] subs0[k], now) implies has_sub(
                    self@,
                    subs0[k].peer,
                    subs0[k].token,
                ) && self@.subs[sub_idx(self@, subs0[k].peer, subs0[k].token)] == r1.subs[k] by {
                    let kd = drop_idx[d as int];
                    assert(con_exhausted(subs0[kd], now));
                    assert(k != kd);
                    if sub_key(subs0[k]) == sub_key(subs0[kd]) {
                        assert(wf_subs_unique(r0));
                        assert(sub_key(r0.subs[k]) != sub_key(r0.subs[kd]));
                        assert(false);
                    }
                    assert(!(subs0[k].peer == key_d.0 && subs0[k].token == key_d.1));
                    assert(has_sub(rcur, subs0[k].peer, subs0[k].token));
                };
                assert forall|dd: int| 0 <= dd < d + 1 implies !has_sub(
                    self@,
                    (#[trigger] subsc_view(drops@)[dd]).0,
                    subsc_view(drops@)[dd].1,
                ) by {
                    if dd < d {
                        let k1 = drop_idx[dd];
                        let k2 = drop_idx[d as int];
                        assert(k1 < k2);
                        if sub_key(subs0[k1]) == sub_key(subs0[k2]) {
                            assert(sub_key(r0.subs[k1]) != sub_key(r0.subs[k2]));
                            assert(false);
                        }
                        assert(!has_sub(rcur, subsc_view(drops@)[dd].0, subsc_view(drops@)[dd].1));
                    }
                };
            }
            d = d + 1;
        }
        proof {
            assert forall|i2: int|
                0 <= i2 < subs0.len() && con_exhausted(#[trigger] subs0[i2], now) implies !has_sub(
                self@,
                subs0[i2].peer,
                subs0[i2].token,
            ) by {
                let dd = choose|dd: int| 0 <= dd < drop_idx.len() && drop_idx[dd] == i2;
                assert(subsc_view(drops@)[dd] == sub_key(subs0[i2]));
            };
        }
        out
    }

    /// The earliest deadline among pending confirmable notifications; `None`
    /// disarms the observer timer.
    pub fn next_deadline(&self) -> (r: Option<u64>)
        ensures
            r == spec_min_deadline(self@.subs),
    {
        proof {
            assert(subs_view(self.subs@).skip(0) =~= self@.subs);
        }
        min_deadline_from(&self.subs, 0)
    }
}

fn min_deadline_from(subs: &Vec<Subscription>, i: usize) -> (r: Option<u64>)
    requires
        i <= subs.len(),
    ensures
        r == spec_min_deadline(subs_view(subs@).skip(i as int)),
    decreases subs.len() - i,
{
    let ghost sv = subs_view(subs@).skip(i as int);
    if i == subs.len() {
        return None;
    }
    assert(sv[0] == subs@[i as int]@);
    assert(sv.drop_first() =~= subs_view(subs@).skip(i + 1));
    let rest = min_deadline_from(subs, i + 1);
    match &subs[i].unacked {
        Some(u) => match rest {
            Some(d) => if u.deadline <= d {
                Some(u.deadline)
            } else {
                Some(d)
            },
            None => Some(u.deadline),
        },
        None => rest,
    }
}

/// The value of the first option with the given number, if any.
pub open spec fn first_opt(opts: Seq<(u32, Seq<u8>)>, num: u32) -> Option<Seq<u8>>
    decreases opts.len(),
{
    if opts.len() == 0 {
        None
    } else if opts[0].0 == num {
        Some(opts[0].1)
    } else {
        first_opt(opts.drop_first(), num)
    }
}

/// The Observe option of a request read as a small integer: absent, 0
/// (register), 1 (deregister), or 256 standing for any longer value, which
/// is neither.
pub open spec fn observe_of(p: PacketView) -> Option<int> {
    match first_opt(p.options, OPT_OBSERVE) {
        None => None,
        Some(v) => if v.len() == 0 {
            Some(0int)
        } else if v.len() == 1 {
            Some(v[0] as int)
        } else {
            Some(256int)
        },
    }
}

/// A GET carrying Observe=0: the peer registers.
pub open spec fn is_register(p: PacketView) -> bool {
    observe_of(p) == Some(0int) && p.code == METHOD_GET
}

/// A GET carrying Observe=1: the peer deregisters.
pub open spec fn is_deregister(p: PacketView) -> bool {
    observe_of(p) == Some(1int) && p.code == METHOD_GET
}

/// The sequence number before `n`, modulo 2^24.
pub open spec fn prev_seq(n: u32) -> u32 {
    if n == 0 {
        (SEQ_MODULUS - 1) as u32
    } else {
        (n - 1) as u32
    }
}

/// The synthesized reply to a registration: a piggybacked 2.05 echoing the
/// request's message id and token, with the sequence number as its Observe
/// option and the resource payload as its body.
pub open spec fn reply_packet(req: PacketView, obs: u32, payload: Seq<u8>) -> PacketView {
    PacketView {
        version: 1,
        mtype: if req.mtype == MessageType::Confirmable {
            MessageType::Acknowledgement
        } else {
            MessageType::NonConfirmable
        },
        code: CODE_CONTENT,
        message_id: req.message_id,
        token: req.token,
        options: seq![(OPT_OBSERVE, obs_bytes(obs))],
        payload,
    }
}

/// The subscription a register request creates.
pub open spec fn mk_sub(peer: Peer, req: PacketView, path: Seq<u8>, now: u64, tmpl: PacketView) -> SubView {
    SubView {
        peer,
        token: req.token,
        resource: path,
        register_time: now,
        next_seq: 2,
        unacked: None,
        template: tmpl,
    }
}

/// What `filter` decided about a request.
#[derive(Clone, Copy, PartialEq, Eq, Structural, Debug)]
pub enum FilterResult {
    Admit,
    Consumed,
}

fn find_first_opt(opts: &Vec<(u32, Vec<u8>)>, i: usize, num: u32) -> (r: Option<usize>)
    requires
        i <= opts.len(),
    ensures
        match r {
            Some(j) => i <= j < opts.len() && opts@[j as int].0 == num && first_opt(
                opts_view(opts@).skip(i as int),
                num,
            ) == Some(opts@[j as int].1@),
            None => first_opt(opts_view(opts@).skip(i as int), num) is None,
        },
    decreases opts.len() - i,
{
    let ghost ov = opts_view(opts@).skip(i as int);
    if i == opts.len() {
        return None;
    }
    assert(ov[0] == (opts@[i as int].0, opts@[i as int].1@));
    assert(ov.drop_first() =~= opts_view(opts@).skip(i + 1));
    if opts[i].0 == num {
        Some(i)
    } else {
        find_first_opt(opts, i + 1, num)
    }
}

pub(crate) fn build_reply(req: &Packet, obs: u32, payload: &Vec<u8>) -> (r: Packet)
    requires
        obs < SEQ_MODULUS,
    ensures
        r@ == reply_packet(req@, obs, payload@),
{
    let mut options: Vec<(u32, Vec<u8>)> = Vec::new();
    options.push((OPT_OBSERVE, obs_bytes_exec(obs)));
    let mtype = match req.mtype {
        MessageType::Confirmable => MessageType::Acknowledgement,
        _ => MessageType::NonConfirmable,
    };
    let r = Packet {
        version: 1,
        mtype,
        code: CODE_CONTENT,
        message_id: req.message_id,
        token: clone_bytes(&req.token),
        options,
        payload: clone_bytes(payload),
    };
    assert(opts_view(r.options@) =~= seq![(OPT_OBSERVE, obs_bytes(obs))]);
    assert(r@ =~= reply_packet(req@, obs, payload@));
    r
}


/// Read the Observe option of a packet, as `filter` interprets it.
pub fn observe_value(p: &Packet) -> (r: Option<u32>)
    ensures
        match r {
            Some(v) => observe_of(p@) == Some(v as int),
            None => observe_of(p@) is None,
        },
{
    proof {
        assert(opts_view(p.options@).skip(0) =~= p@.options);
    }
    let obs_idx = find_first_opt(&p.options, 0, OPT_OBSERVE);
    match obs_idx {
        None => None,
        Some(j) => {
            let v = &p.options[j].1;
            proof {
                assert(first_opt(p@.options, OPT_OBSERVE) == Some(p.options@[j as int].1@));
            }
            if v.len() == 0 {
                Some(0)
            } else if v.len() == 1 {
                assert(v@[0] == p.options@[j as int].1@[0]);
                Some(v[0] as u32)
            } else {
                Some(256)
            }
        },
    }
}

impl Registry {
    /// Inspect a request's Observe option, as the dispatcher's gatekeeper.
    /// Without one, or with one on a non-GET, the request is admitted to the
    /// handler untouched. Observe=1 removes the subscription. Observe=0 on a
    /// GET subscribes the key and answers from the stored resource state;
    /// only when the resource is still unknown is the request admitted, so
    /// that the handler can produce its first payload.
    pub fn filter(&mut self, packet: &Packet, peer: Peer, now: u64) -> (r: (
        FilterResult,
        Vec<(Packet, Peer)>,
    ))
        requires
            wf_reg(old(self)@),
        ensures
            wf_reg(final(self)@),
            observe_of(packet@) is None ==> r.0 == FilterResult::Admit && r.1@.len() == 0 && final(self)@ == old(self)@,
            (observe_of(packet@) is Some && !is_register(packet@) && !is_deregister(packet@))
                ==> r.0 == FilterResult::Admit && r.1@.len() == 0 && final(self)@ == old(self)@,
            is_deregister(packet@) ==> r.0 == FilterResult::Consumed && r.1@.len() == 0 && final(self)@ == spec_deregister(old(self)@, peer, packet@.token),
            is_register(packet@) && has_sub(old(self)@, peer, packet@.token) ==> ({
                let s = old(self)@.subs[sub_idx(old(self)@, peer, packet@.token)];
                let pl = if has_res(old(self)@, s.resource) {
                    old(self)@.resources[res_idx(old(self)@, s.resource)].payload
                } else {
                    seq![]
                };
                r.0 == FilterResult::Consumed && final(self)@ == old(self)@ && out_view(r.1@)
                    == seq![(reply_packet(packet@, prev_seq(s.next_seq), pl), peer)]
            }),
            is_register(packet@) && !has_sub(old(self)@, peer, packet@.token) && has_res(
                old(self)@,
                spec_uri_path(packet@),
            ) ==> ({
                let path = spec_uri_path(packet@);
                let tmpl = reply_packet(
                    packet@,
                    1,
                    old(self)@.resources[res_idx(old(self)@, path)].payload,
                );
                r.0 == FilterResult::Consumed && final(self)@ == spec_add_sub(
                    old(self)@,
                    mk_sub(peer, packet@, path, now, tmpl),
                ) && out_view(r.1@) == seq![(tmpl, peer)]
            }),
            is_register(packet@) && !has_sub(old(self)@, peer, packet@.token) && !has_res(
                old(self)@,
                spec_uri_path(packet@),
            ) ==> ({
                let path = spec_uri_path(packet@);
                r.0 == FilterResult::Admit && r.1@.len() == 0 && final(self)@ == spec_add_sub(
                    old(self)@,
                    mk_sub(peer, packet@, path, now, reply_packet(packet@, 1, seq![])),
                )
            }),
    {
        let ghost r0 = self@;
        let mut out: Vec<(Packet, Peer)> = Vec::new();
        proof {
            assert(opts_view(packet.options@).skip(0) =~= packet@.options);
        }
        let obs_idx = find_first_opt(&packet.options, 0, OPT_OBSERVE);
        let obs: Option<u32> = match obs_idx {
            None => None,
            Some(j) => {
                let v = &packet.options[j].1;
                proof {
                    assert(first_opt(packet@.options, OPT_OBSERVE) == Some(
                        packet.options@[j as int].1@,
                    ));
                }
                if v.len() == 0 {
                    Some(0)
                } else if v.len() == 1 {
                    assert(v@[0] == packet.options@[j as int].1@[0]);
                    Some(v[0] as u32)
                } else {
                    Some(256)
                }
            },
        };
        match obs {
            None => {
                assert(observe_of(packet@) is None);
                (FilterResult::Admit, out)
            },
            Some(val) => {
                assert(observe_of(packet@) == Some(val as int));
                if packet.code != METHOD_GET || val >= 2 {
                    assert(!is_register(packet@) && !is_deregister(packet@));
                    (FilterResult::Admit, out)
                } else if val == 1 {
                    assert(is_deregister(packet@));
                    self.deregister(peer, &packet.token);
                    (FilterResult::Consumed, out)
                } else {
                    assert(is_register(packet@));
                    let path = uri_path(packet);
                    let found = self.find_sub(&peer, &packet.token);
                    match found {
                        Some(si) => {
                            proof {
                                assert(has_sub(r0, peer, packet@.token));
                                let j = sub_idx(r0, peer, packet@.token);
                                assert(0 <= j < r0.subs.len() && sub_key(r0.subs[j]) == (
                                peer,
                                packet@.token,
                                ));
                                if si as int != j {
                                    assert(sub_key(r0.subs[si as int]) != sub_key(r0.subs[j]));
                                }
                                assert(si as int == j);
                                assert(sub_covered(r0, si as int));
                            }
                            let prev: u32 = if self.subs[si].next_seq == 0 {
                                SEQ_MODULUS - 1
                            } else {
                                self.subs[si].next_seq - 1
                            };
                            assert(prev == prev_seq(r0.subs[si as int].next_seq));
                            let fr = self.find_res(&self.subs[si].resource);
                            match fr {
                                Some(ri) => {
                                    proof {
                                        let rj = res_idx(r0, r0.subs[si as int].resource);
                                        assert(0 <= rj < r0.resources.len() && r0.resources[rj].path
                                            == r0.subs[si as int].resource);
                                        if ri as int != rj {
                                            assert(r0.resources[ri as int].path
                                                != r0.resources[rj].path);
                                        }
                                        assert(ri as int == rj);
                                    }
                                    let reply = build_reply(packet, prev, &self.resources[ri].payload);
                                    out.push((reply, peer));
                                    proof {
                                        let s = r0.subs[sub_idx(r0, peer, packet@.token)];
                                        let pl = r0.resources[res_idx(r0, s.resource)].payload;
                                        assert(out_view(out@) =~= seq![
                                            (reply_packet(packet@, prev_seq(s.next_seq), pl), peer),
                                        ]);
                                    }
                                    (FilterResult::Consumed, out)
                                },
                                None => {
                                    proof {
                                        let rj = res_idx(r0, r0.subs[si as int].resource);
                                        assert(0 <= rj < r0.resources.len() && r0.resources[rj].path
                                            == r0.subs[si as int].resource);
                                        assert(false);
                                    }
                                    (FilterResult::Consumed, out)
                                },
                            }
                        },
                        None => {
                            let fr = self.find_res(&path);
                            match fr {
                                Some(ri) => {
                                    proof {
                                        let rj = res_idx(r0, path@);
                                        assert(0 <= rj < r0.resources.len() && r0.resources[rj].path
                                            == path@);
                                        if ri as int != rj {
                                            assert(r0.resources[ri as int].path
                                                != r0.resources[rj].path);
                                        }
                                        assert(ri as int == rj);
                                    }
                                    let reply = build_reply(packet, 1, &self.resources[ri].payload);
                                    let tmpl = clone_packet(&reply);
                                    let sub = Subscription {
                                        peer,
                                        token: clone_bytes(&packet.token),
                                        resource: clone_bytes(&path),
                                        register_time: now,
                                        next_seq: 2,
                                        unacked: None,
                                        template: tmpl,
                                    };
                                    assert(sub@ =~= mk_sub(
                                        peer,
                                        packet@,
                                        path@,
                                        now,
                                        reply_packet(
                                            packet@,
                                            1,
                                            r0.resources[res_idx(r0, path@)].payload,
                                        ),
                                    ));
                                    self.add_sub(sub);
                                    out.push((reply, peer));
                                    proof {
                                        let tv = reply_packet(
                                            packet@,
                                            1,
                                            r0.resources[res_idx(r0, path@)].payload,
                                        );
                                        assert(out_view(out@) =~= seq![(tv, peer)]);
                                    }
                                    (FilterResult::Consumed, out)
                                },
                                None => {
                                    let empty: Vec<u8> = Vec::new();
                                    let reply = build_reply(packet, 1, &empty);
                                    let sub = Subscription {
                                        peer,
                                        token: clone_bytes(&packet.token),
                                        resource: clone_bytes(&path),
                                        register_time: now,
                                        next_seq: 2,
                                        unacked: None,
                                        template: reply,
                                    };
                                    assert(sub@ =~= mk_sub(
                                        peer,
                                        packet@,
                                        path@,
                                        now,
                                        reply_packet(packet@, 1, seq![]),
                                    ));
                                    self.add_sub(sub);
                                    (FilterResult::Admit, out)
                                },
                            }
                        },
                    }
                }
            },
        }
    }
}

/// Registering a fresh key and then deregistering the same key restores the
/// subscription list exactly; when no subscription existed at all, a
/// subsequent write to any resource then emits no notification.
pub proof fn lemma_register_deregister(r: RegView, s: SubView)
    requires
        wf_reg(r),
        wf_sub(s),
        !has_sub(r, s.peer, s.token),
    ensures
        spec_deregister(spec_add_sub(r, s), s.peer, s.token).subs =~= r.subs,
        r.subs.len() == 0 ==> forall|
            path: Seq<u8>,
            payload: Seq<u8>,
            mid: u16,
            now: u64,
            jitter: u64,
        |
            #[trigger] spec_notify(
                spec_deregister(spec_add_sub(r, s), s.peer, s.token).subs,
                path,
                payload,
                mid,
                now,
                jitter,
            ).out.len() == 0,
{
    lemma_add_sub_wf(r, s);
    let r1 = spec_add_sub(r, s);
    let n = r.subs.len() as int;
    assert(r1.subs[n] == s);
    assert(has_sub(r1, s.peer, s.token));
    let i = sub_idx(r1, s.peer, s.token);
    assert(0 <= i < r1.subs.len() && sub_key(r1.subs[i]) == (s.peer, s.token));
    if i != n {
        assert(r1.subs[i] == r.subs[i]);
        assert(has_sub(r, s.peer, s.token));
    }
    assert(i == n);
    assert(spec_deregister(r1, s.peer, s.token).subs =~= r.subs);
}

/// No subscription is waiting on an acknowledgement.
pub open spec fn all_acked(subs: Seq<SubView>) -> bool {
    forall|i: int| 0 <= i < subs.len() ==> (#[trigger] subs[i]).unacked is None
}

/// The retransmission deadline of this subscription has passed.
pub open spec fn con_due(s: SubView, now: u64) -> bool {
    match s.unacked {
        Some(u) => u.deadline <= now,
        None => false,
    }
}

/// The deadline has passed with no retransmissions left: the peer is
/// considered unreachable.
pub open spec fn con_exhausted(s: SubView, now: u64) -> bool {
    con_due(s, now) && s.unacked.unwrap().attempts >= MAX_RETRANSMIT
}

/// One more attempt: the timeout doubles and the same packet goes out again
/// under the same message id.
pub open spec fn retransmitted(s: SubView, now: u64) -> SubView {
    let u = s.unacked.unwrap();
    SubView {
        unacked: Some(
            PendingView {
                deadline: (now + u.timeout * 2) as u64,
                timeout: (u.timeout * 2) as u64,
                attempts: (u.attempts + 1) as u8,
                ..u
            },
        ),
        ..s
    }
}

/// The retransmissions a timer firing sends: one per subscription whose
/// deadline has passed with attempts left, in subscription order, each the
/// stored packet to the stored peer.
pub open spec fn spec_retrans(subs: Seq<SubView>, now: u64) -> Seq<(PacketView, Peer)>
    decreases subs.len(),
{
    if subs.len() == 0 {
        seq![]
    } else {
        let rest = spec_retrans(subs.drop_first(), now);
        if con_due(subs[0], now) && !con_exhausted(subs[0], now) {
            seq![(subs[0].unacked.unwrap().packet, subs[0].peer)] + rest
        } else {
            rest
        }
    }
}

/// Removing one key touches no other subscription, no resource payload, and
/// never adds a subscription.
pub proof fn lemma_deregister_frame(r: RegView, peer: Peer, token: Seq<u8>)
    requires
        wf_reg(r),
    ensures
        spec_deregister(r, peer, token).next_mid == r.next_mid,
        spec_deregister(r, peer, token).resources.len() == r.resources.len(),
        forall|ri: int|
            0 <= ri < r.resources.len() ==> (#[trigger] spec_deregister(
                r,
                peer,
                token,
            ).resources[ri]).path == r.resources[ri].path && spec_deregister(
                r,
                peer,
                token,
            ).resources[ri].payload == r.resources[ri].payload,
        !has_sub(spec_deregister(r, peer, token), peer, token),
        forall|p2: Peer, t2: Seq<u8>|
            !(p2 == peer && t2 == token) ==> #[trigger] has_sub(
                spec_deregister(r, peer, token),
                p2,
                t2,
            ) == has_sub(r, p2, t2),
        forall|p2: Peer, t2: Seq<u8>|
            !(p2 == peer && t2 == token) && has_sub(r, p2, t2) ==> #[trigger] spec_deregister(
                r,
                peer,
                token,
            ).subs[sub_idx(spec_deregister(r, peer, token), p2, t2)] == r.subs[sub_idx(r, p2, t2)],
{
    let r2 = spec_deregister(r, peer, token);
    if !has_sub(r, peer, token) {
        assert(r2 == r);
        return ;
    }
    let i = sub_idx(r, peer, token);
    assert(0 <= i < r.subs.len() && sub_key(r.subs[i]) == (peer, token));
    assert(r2.subs == r.subs.remove(i));
    assert(forall|j: int| 0 <= j < i ==> #[trigger] r2.subs[j] == r.subs[j]);
    assert(forall|j: int| i <= j < r2.subs.len() ==> #[trigger] r2.subs[j] == r.subs[j + 1]);
    assert forall|p2: Peer, t2: Seq<u8>| !(p2 == peer && t2 == token) implies #[trigger] has_sub(
        r2,
        p2,
        t2,
    ) == has_sub(r, p2, t2) by {
        if has_sub(r2, p2, t2) {
            let j2 = sub_idx(r2, p2, t2);
            assert(0 <= j2 < r2.subs.len() && sub_key(r2.subs[j2]) == (p2, t2));
            let oj = if j2 < i {
                j2
            } else {
                j2 + 1
            };
            assert(sub_key(r.subs[oj]) == (p2, t2));
            assert(has_sub(r, p2, t2));
        }
        if has_sub(r, p2, t2) {
            let j = sub_idx(r, p2, t2);
            assert(0 <= j < r.subs.len() && sub_key(r.subs[j]) == (p2, t2));
            assert(j != i);
            let j2 = if j < i {
                j
            } else {
                j - 1
            };
            assert(sub_key(r2.subs[j2]) == (p2, t2));
            assert(has_sub(r2, p2, t2));
        }
    };
    assert forall|p2: Peer, t2: Seq<u8>|
        !(p2 == peer && t2 == token) && has_sub(r, p2, t2) implies #[trigger] r2.subs[sub_idx(
        r2,
        p2,
        t2,
    )] == r.subs[sub_idx(r, p2, t2)] by {
        let j = sub_idx(r, p2, t2);
        assert(0 <= j < r.subs.len() && sub_key(r.subs[j]) == (p2, t2));
        assert(j != i);
        let j2 = if j < i {
            j
        } else {
            j - 1
        };
        assert(sub_key(r2.subs[j2]) == (p2, t2));
        assert(has_sub(r2, p2, t2));
        let jj = sub_idx(r2, p2, t2);
        assert(0 <= jj < r2.subs.len() && sub_key(r2.subs[jj]) == (p2, t2));
        let ojj = if jj < i {
            jj
        } else {
            jj + 1
        };
        assert(sub_key(r.subs[ojj]) == (p2, t2));
        if ojj != j {
            assert(sub_key(r.subs[ojj]) != sub_key(r.subs[j]));
        }
        assert(ojj == j);
        assert(r2.subs[jj] == r.subs[j]);
    };
    if has_sub(r2, peer, token) {
        let j2 = sub_idx(r2, peer, token);
        assert(0 <= j2 < r2.subs.len() && sub_key(r2.subs[j2]) == (peer, token));
        let oj = if j2 < i {
            j2
        } else {
            j2 + 1
        };
        assert(sub_key(r.subs[oj]) == (peer, token));
        assert(oj != i ==> sub_key(r.subs[oj]) != sub_key(r.subs[i]));
        assert(false);
    }
}

fn find_key(list: &Vec<(Peer, Vec<u8>)>, peer: &Peer, token: &Vec<u8>) -> (r: Option<usize>)
    ensures
        match r {
            Some(k) => k < list@.len() && subsc_view(list@)[k as int] == (*peer, token@),
            None => forall|k: int|
                0 <= k < list@.len() ==> #[trigger] subsc_view(list@)[k] != (*peer, token@),
        },
{
    let mut i: usize = 0;
    while i < list.len()
        invariant
            i <= list@.len(),
            forall|k: int| 0 <= k < i ==> #[trigger] subsc_view(list@)[k] != (*peer, token@),
        decreases list.len() - i,
    {
        assert(subsc_view(list@)[i as int] == (list@[i as int].0, list@[i as int].1@));
        if list[i].0 == *peer && bytes_eq(&list[i].1, token) {
            return Some(i);
        }
        i = i + 1;
    }
    None
}

} // verus!
