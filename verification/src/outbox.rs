//! Message queues of the peer-to-peer transport.
//!
//! [`Outbox`] holds reliable messages that could not be sent yet, per peer and in
//! sending order, so that none is lost and none overtakes an older one; a queue that
//! stays unsendable for long keeps only the newest [`PENDING_MAX`] messages.
//! [`Inbox`] holds a received batch and hands its messages out one at a time, counting
//! them by their first byte.

use vstd::prelude::*;
use std::collections::{HashMap, VecDeque};
use vstd::std_specs::hash::group_hash_axioms;
use vstd::slice::slice_to_vec;

verus! {

/// Most messages kept waiting for one peer; beyond it the oldest is dropped.
pub const PENDING_MAX: usize = 1024;

/// The contents of a queue of messages.
pub open spec fn msgs_view(q: Seq<Vec<u8>>) -> Seq<Seq<u8>> {
    q.map_values(|m: Vec<u8>| m@)
}

/// What to do with a new reliable message.
#[derive(Clone, Copy, Debug, PartialEq, Eq, Structural)]
pub enum SendPlan {
    /// Send it at once.
    Direct,
    /// Queue it behind the messages already waiting.
    Queue,
}

/// Reliable messages waiting to be sent, per peer, oldest first.
pub struct Outbox {
    pending: HashMap<u64, VecDeque<Vec<u8>>>,
    /// The peers that have a queue, each once, in the order their queues were opened.
    order: Vec<u64>,
}

/// Removes the one occurrence of `id` from a list of distinct peers.
fn forget_peer(order: &mut Vec<u64>, id: u64)
    requires
        old(order)@.no_duplicates(),
        old(order)@.contains(id),
    ensures
        final(order)@.no_duplicates(),
        forall|p: u64| #[trigger] final(order)@.contains(p) <==> (old(order)@.contains(p) && p != id),
{
    let mut k: usize = 0;
    while k < order.len()
        invariant
            order@ == old(order)@,
            k <= order@.len(),
            forall|j: int| 0 <= j < k ==> order@[j] != id,
        ensures
            k <= order@.len(),
            k < order@.len() ==> order@[k as int] == id,
            forall|j: int| 0 <= j < k ==> order@[j] != id,
        decreases order@.len() - k,
    {
        if order[k] == id {
            break;
        }
        k = k + 1;
    }
    assert(k < order@.len() && order@[k as int] == id);
    let ghost before = order@;
    order.remove(k);
    assert(order@ =~= before.remove(k as int));
    assert forall|p: u64| #[trigger] order@.contains(p) <==> (before.contains(p) && p != id) by {
        if order@.contains(p) {
            let j = choose|j: int| 0 <= j < order@.len() && order@[j] == p;
            if j < k {
                assert(before[j] == p);
            } else {
                assert(before[j + 1] == p);
            }
        }
        if before.contains(p) && p != id {
            let j = choose|j: int| 0 <= j < before.len() && before[j] == p;
            if j < k {
                assert(order@[j] == p);
            } else {
                assert(j != k);
                assert(order@[j - 1] == p);
            }
        }
    }
}

impl Outbox {
    /// The messages waiting for peer `id`, oldest first.
    pub closed spec fn pending_of(&self, id: u64) -> Seq<Seq<u8>> {
        if self.pending@.contains_key(id) {
            msgs_view(self.pending@[id]@)
        } else {
            Seq::empty()
        }
    }

    /// Every stored queue holds between one and [`PENDING_MAX`] messages.
    #[verifier::type_invariant]
    spec fn inv(self) -> bool {
        &&& forall|id: u64|
            #[trigger] self.pending@.contains_key(id) ==> 0 < self.pending@[id]@.len() <= PENDING_MAX
        &&& self.order@.no_duplicates()
        &&& forall|id: u64| #[trigger] self.order@.contains(id) <==> self.pending@.contains_key(id)
    }

    /// No queue ever holds more than [`PENDING_MAX`] messages.
    pub fn bounded(&self, id: u64)
        ensures
            self.pending_of(id).len() <= PENDING_MAX,
    {
        proof {
            use_type_invariant(self);
        }
    }

    /// An outbox with nothing waiting.
    pub fn new() -> (r: Outbox)
        ensures
            forall|id: u64| #[trigger] r.pending_of(id) == Seq::<Seq<u8>>::empty(),
    {
        broadcast use group_hash_axioms;

        Outbox { pending: HashMap::new(), order: Vec::new() }
    }

    /// Whether messages are waiting for peer `id`; a new message for it must then queue
    /// behind them rather than be sent directly, or it would overtake them.
    pub fn has_pending(&self, id: u64) -> (r: bool)
        ensures
            r == (self.pending_of(id).len() > 0),
    {
        broadcast use group_hash_axioms;

        proof {
            use_type_invariant(self);
        }
        match self.pending.get(&id) {
            Some(q) => q.len() > 0,
            None => false,
        }
    }

    /// Queues a message for peer `id` behind those already waiting. When [`PENDING_MAX`]
    /// are waiting, the oldest is dropped first; the result says whether that happened.
    pub fn push(&mut self, id: u64, bytes: &[u8]) -> (dropped: bool)
        ensures
            dropped == (old(self).pending_of(id).len() >= PENDING_MAX),
            final(self).pending_of(id) == (if dropped {
                old(self).pending_of(id).drop_first()
            } else {
                old(self).pending_of(id)
            }).push(bytes@),
            forall|other: u64|
                other != id ==> #[trigger] final(self).pending_of(other) == old(self).pending_of(other),
    {
        broadcast use group_hash_axioms;

        let mut taken = Outbox::new();
        std::mem::swap(&mut taken, self);
        proof {
            use_type_invariant(&taken);
        }
        let ghost old_self = taken;
        let Outbox { mut pending, mut order } = taken;
        let ghost before = old_self.pending_of(id);
        let ghost had = old_self.pending@.contains_key(id);
        let mut q = match pending.remove(&id) {
            Some(q) => q,
            None => {
                order.push(id);
                VecDeque::new()
            },
        };
        assert(msgs_view(q@) == before);
        let mut dropped = false;
        if q.len() >= PENDING_MAX {
            q.pop_front();
            dropped = true;
            assert(msgs_view(q@) =~= before.drop_first());
        }
        let ghost kept = msgs_view(q@);
        let m = slice_to_vec(bytes);
        q.push_back(m);
        assert(msgs_view(q@) =~= kept.push(bytes@));
        pending.insert(id, q);
        proof {
            if !had {
                assert(!old_self.order@.contains(id));
                assert(order@ == old_self.order@.push(id));
                assert(order@.no_duplicates()) by {
                    assert forall|i: int, j: int| 0 <= i < j < order@.len() implies order@[i] != order@[j] by {
                        if j == order@.len() - 1 {
                            assert(old_self.order@.contains(order@[i]));
                        }
                    }
                }
            }
            assert forall|p: u64| #[trigger] order@.contains(p) <==> pending@.contains_key(p) by {
                if !had && p != id {
                    if order@.contains(p) {
                        let j = choose|j: int| 0 <= j < order@.len() && order@[j] == p;
                        assert(old_self.order@[j] == p);
                    }
                    if old_self.order@.contains(p) {
                        let j = choose|j: int| 0 <= j < old_self.order@.len() && old_self.order@[j] == p;
                        assert(order@[j] == p);
                    }
                }
                if !had && p == id {
                    assert(order@[order@.len() - 1] == id);
                }
            }
        }
        *self = Outbox { pending, order };
        proof {
            assert forall|other: u64| other != id implies #[trigger] self.pending_of(other) == old_self.pending_of(other) by {
                assert(pending@.contains_key(other) == old_self.pending@.contains_key(other));
            }
        }
        dropped
    }

    /// A copy of the oldest message waiting for peer `id`, if any.
    pub fn head(&self, id: u64) -> (r: Option<Vec<u8>>)
        ensures
            match r {
                Some(m) => self.pending_of(id).len() > 0 && m@ == self.pending_of(id)[0],
                None => self.pending_of(id).len() == 0,
            },
    {
        broadcast use group_hash_axioms;

        proof {
            use_type_invariant(self);
        }
        match self.pending.get(&id) {
            Some(q) => {
                if q.len() > 0 {
                    Some(slice_to_vec(q[0].as_slice()))
                } else {
                    None
                }
            },
            None => None,
        }
    }

    /// Records that the oldest message for peer `id` has been sent: it leaves the queue,
    /// and a queue left empty is forgotten.
    pub fn sent_head(&mut self, id: u64)
        ensures
            final(self).pending_of(id) == (if old(self).pending_of(id).len() > 0 {
                old(self).pending_of(id).drop_first()
            } else {
                old(self).pending_of(id)
            }),
            forall|other: u64|
                other != id ==> #[trigger] final(self).pending_of(other) == old(self).pending_of(other),
    {
        broadcast use group_hash_axioms;

        let mut taken = Outbox::new();
        std::mem::swap(&mut taken, self);
        proof {
            use_type_invariant(&taken);
        }
        let ghost old_self = taken;
        let Outbox { mut pending, mut order } = taken;
        let ghost before = old_self.pending_of(id);
        match pending.remove(&id) {
            Some(mut q) => {
                q.pop_front();
                assert(msgs_view(q@) =~= before.drop_first());
                if q.len() > 0 {
                    pending.insert(id, q);
                } else {
                    forget_peer(&mut order, id);
                }
            },
            None => {},
        }
        *self = Outbox { pending, order };
        proof {
            assert forall|other: u64| other != id implies #[trigger] self.pending_of(other) == old_self.pending_of(other) by {
                assert(pending@.contains_key(other) == old_self.pending@.contains_key(other));
            }
        }
    }

    /// The decision of a reliable send to `id`: while older messages to that peer are
    /// waiting, a new one queues behind them (sending it at once would overtake them);
    /// otherwise it is sent at once.
    pub fn plan_send(&self, id: u64) -> (r: SendPlan)
        ensures
            r == (if self.pending_of(id).len() > 0 { SendPlan::Queue } else { SendPlan::Direct }),
    {
        if self.has_pending(id) {
            SendPlan::Queue
        } else {
            SendPlan::Direct
        }
    }

    /// After a direct send of `bytes` to `id`: a message that went out leaves the outbox
    /// as it was; one that could not go out is queued for re-sending, as [`Outbox::push`]
    /// does. The result says whether an old message was dropped to make room.
    pub fn settle_send(&mut self, id: u64, bytes: &[u8], sent: bool) -> (dropped: bool)
        ensures
            sent ==> !dropped && forall|p: u64| #[trigger] final(self).pending_of(p) == old(self).pending_of(p),
            !sent ==> dropped == (old(self).pending_of(id).len() >= PENDING_MAX),
            !sent ==> final(self).pending_of(id) == (if dropped {
                old(self).pending_of(id).drop_first()
            } else {
                old(self).pending_of(id)
            }).push(bytes@),
            !sent ==> forall|other: u64|
                other != id ==> #[trigger] final(self).pending_of(other) == old(self).pending_of(other),
    {
        if sent {
            false
        } else {
            self.push(id, bytes)
        }
    }

    /// One step of re-sending the queue of `id`: `sent` says whether its oldest message
    /// went out. If it did, it leaves the queue and re-sending goes on with the next one;
    /// if not, nothing changes and re-sending to that peer stops for now, so later
    /// messages never overtake it. The result says whether to go on.
    pub fn settle_resend(&mut self, id: u64, sent: bool) -> (go_on: bool)
        ensures
            go_on == sent,
            sent ==> final(self).pending_of(id) == (if old(self).pending_of(id).len() > 0 {
                old(self).pending_of(id).drop_first()
            } else {
                old(self).pending_of(id)
            }),
            sent ==> forall|other: u64|
                other != id ==> #[trigger] final(self).pending_of(other) == old(self).pending_of(other),
            !sent ==> forall|p: u64| #[trigger] final(self).pending_of(p) == old(self).pending_of(p),
    {
        if sent {
            self.sent_head(id);
        }
        sent
    }

    /// The peers with messages waiting, each once, in the order their queues were opened.
    pub fn peers(&self) -> (r: Vec<u64>)
        ensures
            r@.no_duplicates(),
            forall|id: u64| r@.contains(id) <==> self.pending_of(id).len() > 0,
    {
        broadcast use group_hash_axioms;

        proof {
            use_type_invariant(self);
        }
        let r = self.order.clone();
        assert(r@ == self.order@);
        r
    }
}

/// First byte of a player-configuration message.
pub const TAG_PLAYER_CFG: u8 = 8;
/// First byte of a room-state message.
pub const TAG_ROOM_STATE: u8 = 16;

/// The number of messages in `s` whose first byte is `tag`.
pub open spec fn count_tag(s: Seq<(u64, Seq<u8>)>, tag: u8) -> nat
    decreases s.len(),
{
    if s.len() == 0 {
        0
    } else {
        count_tag(s.drop_last(), tag) + (if s.last().1.len() > 0 && s.last().1[0] == tag { 1nat } else { 0nat })
    }
}

/// The contents of a queue of received messages: sender and bytes.
pub open spec fn inbox_view(q: Seq<(u64, Vec<u8>)>) -> Seq<(u64, Seq<u8>)> {
    q.map_values(|e: (u64, Vec<u8>)| (e.0, e.1@))
}

/// Received messages waiting to be handed out, oldest first, with running counts.
pub struct Inbox {
    queue: VecDeque<(u64, Vec<u8>)>,
    received: u64,
    player_cfg: u64,
    room_state: u64,
}

impl Inbox {
    /// The messages waiting, oldest first.
    pub closed spec fn messages(&self) -> Seq<(u64, Seq<u8>)> {
        inbox_view(self.queue@)
    }

    /// Messages received so far.
    pub closed spec fn received(&self) -> u64 {
        self.received
    }

    /// Player-configuration messages handed out so far.
    pub closed spec fn player_cfg(&self) -> u64 {
        self.player_cfg
    }

    /// Room-state messages handed out so far.
    pub closed spec fn room_state(&self) -> u64 {
        self.room_state
    }

    /// The three counts: received, player-configuration and room-state messages.
    pub fn counts(&self) -> (r: (u64, u64, u64))
        ensures
            r == (self.received(), self.player_cfg(), self.room_state()),
    {
        (self.received, self.player_cfg, self.room_state)
    }

    /// An inbox with nothing waiting and every count at zero.
    pub fn new() -> (r: Inbox)
        ensures
            r.messages() == Seq::<(u64, Seq<u8>)>::empty(),
            r.received() == 0,
            r.player_cfg() == 0,
            r.room_state() == 0,
    {
        let r = Inbox { queue: VecDeque::new(), received: 0, player_cfg: 0, room_state: 0 };
        assert(r.messages() =~= Seq::<(u64, Seq<u8>)>::empty());
        r
    }

    /// The number of messages waiting.
    pub fn len(&self) -> (r: usize)
        ensures
            r == self.messages().len(),
    {
        self.queue.len()
    }

    /// Whether nothing is waiting.
    pub fn is_empty(&self) -> (r: bool)
        ensures
            r == (self.messages().len() == 0),
    {
        self.queue.len() == 0
    }

    /// Counts one received message and, when its sender is known, queues it.
    pub fn receive(&mut self, from: Option<u64>, data: Vec<u8>)
        requires
            old(self).received() < u64::MAX,
        ensures
            final(self).received() == old(self).received() + 1,
            final(self).messages() == (match from {
                Some(id) => old(self).messages().push((id, data@)),
                None => old(self).messages(),
            }),
            final(self).player_cfg() == old(self).player_cfg(),
            final(self).room_state() == old(self).room_state(),
    {
        self.received = self.received + 1;
        match from {
            Some(id) => {
                let ghost before = self.messages();
                let ghost d = data@;
                self.queue.push_back((id, data));
                assert(self.messages() =~= before.push((id, d)));
            },
            None => {},
        }
    }

    /// Hands out the oldest waiting message that fits in `cap` bytes; older ones that do
    /// not fit are dropped. Every message taken from the queue is counted by its first
    /// byte. `None` when no waiting message fits, and then the queue is empty.
    pub fn deliver(&mut self, cap: usize) -> (r: Option<(u64, Vec<u8>)>)
        requires
            old(self).player_cfg() + old(self).messages().len() <= u64::MAX,
            old(self).room_state() + old(self).messages().len() <= u64::MAX,
        ensures
            final(self).received() == old(self).received(),
            ({
                let s = old(self).messages();
                match r {
                    Some(m) => exists|k: int|
                        {
                            &&& 0 <= k < s.len()
                            &&& #[trigger] s[k] == (m.0, m.1@)
                            &&& s[k].1.len() <= cap
                            &&& forall|j: int| 0 <= j < k ==> s[j].1.len() > cap
                            &&& final(self).messages() == s.skip(k + 1)
                            &&& final(self).player_cfg() == old(self).player_cfg() + count_tag(s.take(k + 1), TAG_PLAYER_CFG)
                            &&& final(self).room_state() == old(self).room_state() + count_tag(s.take(k + 1), TAG_ROOM_STATE)
                        },
                    None => {
                        &&& forall|j: int| 0 <= j < s.len() ==> s[j].1.len() > cap
                        &&& final(self).messages() == Seq::<(u64, Seq<u8>)>::empty()
                        &&& final(self).player_cfg() == old(self).player_cfg() + count_tag(s, TAG_PLAYER_CFG)
                        &&& final(self).room_state() == old(self).room_state() + count_tag(s, TAG_ROOM_STATE)
                    },
                }
            }),
    {
        let ghost s = self.messages();
        let ghost c8 = self.player_cfg;
        let ghost c16 = self.room_state;
        let n0 = self.queue.len();
        assert(s.len() == n0);
        let mut k: usize = 0;
        while self.queue.len() > 0
            invariant
                k <= s.len(),
                self.messages() == s.skip(k as int),
                forall|j: int| 0 <= j < k ==> s[j].1.len() > cap,
                self.player_cfg == c8 + count_tag(s.take(k as int), TAG_PLAYER_CFG),
                self.room_state == c16 + count_tag(s.take(k as int), TAG_ROOM_STATE),
                count_tag(s.take(k as int), TAG_PLAYER_CFG) <= k,
                count_tag(s.take(k as int), TAG_ROOM_STATE) <= k,
                c8 + s.len() <= u64::MAX,
                c16 + s.len() <= u64::MAX,
                s.len() == n0,
                s == old(self).messages(),
                c8 == old(self).player_cfg,
                c16 == old(self).room_state,
                self.received == old(self).received(),
            decreases self.queue@.len(),
        {
            proof {
                assert(self.messages().len() == self.queue@.len());
                assert(k < s.len());
                assert(self.messages()[0] == s[k as int]);
            }
            let ghost mb = self.messages();
            let (pid, data) = self.queue.pop_front().unwrap();
            proof {
                assert(self.messages() =~= mb.skip(1));
                assert(mb.skip(1) =~= s.skip(k as int + 1));
            }
            proof {
                assert(s.take(k as int + 1).drop_last() =~= s.take(k as int));
                assert(s[k as int] == (pid, data@));
            }
            if data.len() > 0 && data[0] == TAG_PLAYER_CFG {
                self.player_cfg = self.player_cfg + 1;
            }
            if data.len() > 0 && data[0] == TAG_ROOM_STATE {
                self.room_state = self.room_state + 1;
            }
            if data.len() <= cap {
                proof {
                    let kk = k as int;
                    assert(s[kk] == (pid, data@));
                    assert(self.messages() == s.skip(kk + 1));
                    assert(self.player_cfg == c8 + count_tag(s.take(kk + 1), TAG_PLAYER_CFG));
                    assert(self.room_state == c16 + count_tag(s.take(kk + 1), TAG_ROOM_STATE));
                }
                return Some((pid, data));
            }
            k = k + 1;
        }
        proof {
            assert(k == s.len());
            assert(s.take(k as int) =~= s);
            assert(self.messages() =~= Seq::<(u64, Seq<u8>)>::empty());
        }
        None
    }
}

} // verus!
