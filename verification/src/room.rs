//! The broadcast hub: a registry of live connections keyed by monotonically
//! increasing ids, and a first-in-first-out queue of messages awaiting
//! fan-out to every registered connection.

use vstd::prelude::*;
use crate::message::{Message, MessageModel};

verus! {

broadcast use vstd::seq_lib::group_seq_properties;

/// The hub's mathematical model: the next fresh id, the registered ids in
/// registration order, and the queued messages in publish order.
#[verifier::ext_equal]
pub ghost struct RoomModel {
    pub next_id: u64,
    pub ids: Seq<u64>,
    pub queue: Seq<MessageModel>,
}

/// No two registered ids are alike.
pub open spec fn distinct_ids(ids: Seq<u64>) -> bool {
    forall|i: int, j: int| 0 <= i < j < ids.len() ==> ids[i] != ids[j]
}

/// The broadcast hub.
pub struct Room {
    next_id: u64,
    ids: Vec<u64>,
    queue: Vec<Message>,
}

impl View for Room {
    type V = RoomModel;

    closed spec fn view(&self) -> RoomModel {
        RoomModel {
            next_id: self.next_id,
            ids: self.ids@,
            queue: Seq::new(self.queue@.len(), |i: int| self.queue@[i]@),
        }
    }
}

impl Room {
    /// Every registered id is below the next fresh one — so ids are never
    /// reused — and no id is registered twice.
    pub open spec fn wf(&self) -> bool {
        &&& forall|i: int| 0 <= i < self@.ids.len() ==> #[trigger] self@.ids[i] < self@.next_id
        &&& distinct_ids(self@.ids)
    }

    /// An empty hub: no connections, nothing queued, ids starting at zero.
    pub fn new() -> (r: Room)
        ensures
            r@ == (RoomModel { next_id: 0, ids: Seq::empty(), queue: Seq::empty() }),
            r.wf(),
    {
        let r = Room { next_id: 0, ids: Vec::new(), queue: Vec::new() };
        proof {
            assert(r@ =~~= RoomModel { next_id: 0, ids: Seq::empty(), queue: Seq::empty() });
        }
        r
    }

    /// Admits one connection: hands out the next id — fresh for the whole
    /// run — and records it.
    pub fn register(&mut self) -> (id: u64)
        requires
            old(self).wf(),
            old(self)@.next_id < u64::MAX,
        ensures
            final(self).wf(),
            id == old(self)@.next_id,
            !old(self)@.ids.contains(id),
            final(self)@.ids == old(self)@.ids.push(id),
            final(self)@.next_id == old(self)@.next_id + 1,
            final(self)@.queue == old(self)@.queue,
    {
        let id = self.next_id;
        self.ids.push(id);
        self.next_id = self.next_id + 1;
        proof {
            if old(self)@.ids.contains(id) {
                let k = choose|k: int| 0 <= k < old(self)@.ids.len() && old(self)@.ids[k] == id;
                assert(old(self)@.ids[k] < id);
                assert(false);
            }
            assert(self@.queue =~= old(self)@.queue);
        }
        id
    }

    /// Removes one registered connection; its id is never seen again.
    pub fn deregister(&mut self, id: u64)
        requires
            old(self).wf(),
            old(self)@.ids.contains(id),
        ensures
            final(self).wf(),
            final(self)@.ids == old(self)@.ids.remove_value(id),
            !final(self)@.ids.contains(id),
            final(self)@.next_id == old(self)@.next_id,
            final(self)@.queue == old(self)@.queue,
    {
        proof {
            old(self)@.ids.index_of_first_ensures(id);
        }
        let n = self.ids.len();
        let mut i: usize = 0;
        while i < n
            invariant
                old(self).wf(),
                self@ == old(self)@,
                i <= n,
                n == self@.ids.len(),
                forall|j: int| 0 <= j < i ==> self@.ids[j] != id,
                old(self)@.ids.contains(id),
            decreases n - i,
        {
            if self.ids[i] == id {
                proof {
                    self@.ids.index_of_first_ensures(id);
                    assert(self@.ids.index_of_first(id) == Some(i as int));
                }
                let ghost before = self@;
                self.ids.remove(i);
                proof {
                    assert(self@.queue =~= before.queue);
                    assert(self@.ids == before.ids.remove(i as int));
                    assert forall|k: int|
                        0 <= k < self@.ids.len() implies #[trigger] self@.ids[k]
                        < self@.next_id by {
                        if k < i {
                            assert(self@.ids[k] == before.ids[k]);
                        } else {
                            assert(self@.ids[k] == before.ids[k + 1]);
                        }
                    }
                    assert(distinct_ids(self@.ids)) by {
                        assert forall|p: int, q: int|
                            0 <= p < q < self@.ids.len() implies self@.ids[p]
                            != self@.ids[q] by {
                            let bp: int = if p < i {
                                p
                            } else {
                                p + 1
                            };
                            let bq: int = if q < i {
                                q
                            } else {
                                q + 1
                            };
                            assert(self@.ids[p] == before.ids[bp]);
                            assert(self@.ids[q] == before.ids[bq]);
                        }
                    }
                    if self@.ids.contains(id) {
                        let k = choose|k: int|
                            0 <= k < self@.ids.len() && self@.ids[k] == id;
                        let bk: int = if k < i {
                            k
                        } else {
                            k + 1
                        };
                        assert(before.ids[bk] == id);
                        assert(before.ids[i as int] == id);
                        assert(false);
                    }
                }
                return ;
            }
            i = i + 1;
        }
        proof {
            let k = choose|k: int| 0 <= k < self@.ids.len() && self@.ids[k] == id;
            assert(self@.ids[k] != id);
            assert(false);
        }
    }

    /// Appends one message to the broadcast queue; broadcast order is
    /// publish order.
    pub fn publish(&mut self, msg: Message)
        requires
            old(self).wf(),
        ensures
            final(self).wf(),
            final(self)@.queue == old(self)@.queue.push(msg@),
            final(self)@.ids == old(self)@.ids,
            final(self)@.next_id == old(self)@.next_id,
    {
        self.queue.push(msg);
        proof {
            assert(self@.queue =~= old(self)@.queue.push(msg@));
        }
    }

    /// The id the next registration will hand out.
    pub fn next_id(&self) -> (r: u64)
        ensures
            r == self@.next_id,
    {
        self.next_id
    }

    /// The ids registered right now, in registration order: the fan-out
    /// targets of the message being broadcast.
    pub fn snapshot(&self) -> (r: Vec<u64>)
        ensures
            r@ == self@.ids,
    {
        let n = self.ids.len();
        let mut out: Vec<u64> = Vec::new();
        let mut i: usize = 0;
        while i < n
            invariant
                i <= n,
                n == self.ids@.len(),
                out@ == self.ids@.take(i as int),
            decreases n - i,
        {
            let v = self.ids[i];
            out.push(v);
            proof {
                assert(out@ =~= self.ids@.take(i + 1));
            }
            i = i + 1;
        }
        proof {
            assert(self.ids@.take(n as int) =~= self@.ids);
        }
        out
    }

    /// One broadcast: dequeues the oldest queued message, if any, together
    /// with the snapshot of ids it is to be delivered to — each exactly
    /// once. A connection deregistered after this step may thus still be in
    /// the current snapshot; one registered after it is not.
    pub fn broadcast_step(&mut self) -> (r: Option<(Message, Vec<u64>)>)
        requires
            old(self).wf(),
        ensures
            final(self).wf(),
            old(self)@.queue.len() == 0 ==> r is None && final(self)@ == old(self)@,
            old(self)@.queue.len() > 0 ==> (r matches Some(p) && p.0@ == old(self)@.queue[0]
                && p.1@ == old(self)@.ids && final(self)@.queue == old(self)@.queue.skip(1)
                && final(self)@.ids == old(self)@.ids && final(self)@.next_id == old(
                self,
            )@.next_id),
    {
        if self.queue.len() == 0 {
            proof {
                assert(self@ =~~= old(self)@);
            }
            return None;
        }
        let targets = self.snapshot();
        let msg = self.queue.remove(0);
        proof {
            assert(self@.queue =~= old(self)@.queue.skip(1));
        }
        Some((msg, targets))
    }
}

/// Fan-out is exactly-once: with distinct registered ids, every registered
/// connection stands at exactly one position of the broadcast snapshot, so
/// one broadcast delivers to it exactly once.
pub proof fn lemma_fanout_exactly_once(ids: Seq<u64>, id: u64)
    requires
        distinct_ids(ids),
        ids.contains(id),
    ensures
        exists|i: int|
            0 <= i < ids.len() && ids[i] == id && (forall|j: int|
                0 <= j < ids.len() && ids[j] == id ==> j == i),
{
    let i = choose|i: int| 0 <= i < ids.len() && ids[i] == id;
    assert(0 <= i < ids.len() && ids[i] == id && (forall|j: int|
        0 <= j < ids.len() && ids[j] == id ==> j == i));
}

/// Broadcast order is publish order: each broadcast step hands out the
/// front of the queue and leaves the rest, so after `k` steps over a queue
/// of published messages the `k`-th published message is the one delivered
/// next, for every `k`.
pub proof fn lemma_broadcast_in_publish_order(q: Seq<MessageModel>, k: int)
    requires
        0 <= k < q.len(),
    ensures
        q.skip(k)[0] == q[k],
        q.skip(k).skip(1) == q.skip(k + 1),
{
    assert(q.skip(k).skip(1) =~= q.skip(k + 1));
}

/// Deregistration: once an id is removed from a hub with distinct ids, it
/// is in no later snapshot, so a subsequent publish never attempts delivery
/// to it — and the broadcast itself still goes through.
pub proof fn lemma_no_delivery_after_deregister(ids: Seq<u64>, id: u64)
    requires
        distinct_ids(ids),
    ensures
        !ids.remove_value(id).contains(id),
{
    ids.index_of_first_ensures(id);
    match ids.index_of_first(id) {
        None => {
            assert(ids.remove_value(id) == ids);
        },
        Some(i) => {
            let after = ids.remove(i);
            if after.contains(id) {
                let k = choose|k: int| 0 <= k < after.len() && after[k] == id;
                let bk: int = if k < i {
                    k
                } else {
                    k + 1
                };
                assert(after[k] == ids[bk]);
                assert(ids[i] == id && ids[bk] == id && bk != i);
                assert(false);
            }
        },
    }
}

} // verus!
