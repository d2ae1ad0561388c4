//! The shared registry: the single source of truth mapping connected
//! peers to their delivery queues. A peer's delivery queue is an ordered,
//! unbounded buffer of outbound frames, filled by every other peer's
//! broadcasts and drained by that peer's own write duty.

use vstd::prelude::*;
use vstd::std_specs::vec::vec_index_mut;

verus! {

/// One registered peer: its connection identity and its pending
/// deliveries, oldest first.
#[verifier::ext_equal]
pub ghost struct EntryView {
    pub id: u64,
    pub queue: Seq<Seq<u8>>,
}

/// Some peer in `s` carries identity `id`.
pub open spec fn reg_has(s: Seq<EntryView>, id: u64) -> bool {
    exists|i: int| 0 <= i < s.len() && s[i].id == id
}

/// The index of the peer with identity `id`; meaningful only under
/// `reg_has` and `unique_ids`.
pub open spec fn reg_index(s: Seq<EntryView>, id: u64) -> int {
    choose|i: int| 0 <= i < s.len() && s[i].id == id
}

/// The delivery queue of the peer with identity `id`.
pub open spec fn reg_queue(s: Seq<EntryView>, id: u64) -> Seq<Seq<u8>> {
    s[reg_index(s, id)].queue
}

/// At most one entry per identity.
pub open spec fn unique_ids(s: Seq<EntryView>) -> bool {
    forall|i: int, j: int| 0 <= i < j < s.len() ==> s[i].id != s[j].id
}

/// Registration: a fresh, empty delivery queue for `id`. A duplicate
/// identity cannot normally occur; if it does, its entry is overwritten
/// in place.
pub open spec fn reg_register(s: Seq<EntryView>, id: u64) -> Seq<EntryView> {
    if reg_has(s, id) {
        s.update(reg_index(s, id), EntryView { id, queue: Seq::empty() })
    } else {
        s.push(EntryView { id, queue: Seq::empty() })
    }
}

/// Unregistration: the entry for `id` is removed if present; removing an
/// absent identity changes nothing.
pub open spec fn reg_unregister(s: Seq<EntryView>, id: u64) -> Seq<EntryView> {
    if reg_has(s, id) {
        s.remove(reg_index(s, id))
    } else {
        s
    }
}

/// Fan-out: `frame` is appended to every delivery queue except the
/// origin's own.
pub open spec fn reg_broadcast(s: Seq<EntryView>, origin: u64, frame: Seq<u8>) -> Seq<EntryView> {
    s.map_values(
        |e: EntryView|
            if e.id == origin {
                e
            } else {
                EntryView { id: e.id, queue: e.queue.push(frame) }
            },
    )
}

/// Taking the oldest delivery of `id` off its queue.
pub open spec fn reg_pop(s: Seq<EntryView>, id: u64) -> Seq<EntryView> {
    if reg_has(s, id) && reg_queue(s, id).len() > 0 {
        s.update(reg_index(s, id), EntryView { id, queue: reg_queue(s, id).drop_first() })
    } else {
        s
    }
}

/// Fan-out delivers to every other peer exactly once and to the origin
/// never: each non-origin queue grows by exactly one copy of the frame,
/// appended at the end, the origin's queue is untouched, and no peer
/// appears or disappears.
pub proof fn lemma_broadcast_fanout(s: Seq<EntryView>, origin: u64, frame: Seq<u8>)
    ensures
        reg_broadcast(s, origin, frame).len() == s.len(),
        forall|j: int|
            0 <= j < s.len() ==> #[trigger] reg_broadcast(s, origin, frame)[j].id == s[j].id,
        forall|j: int|
            0 <= j < s.len() && s[j].id != origin ==> #[trigger] reg_broadcast(
                s,
                origin,
                frame,
            )[j].queue == s[j].queue.push(frame),
        forall|j: int|
            0 <= j < s.len() && s[j].id != origin ==> (#[trigger] reg_broadcast(
                s,
                origin,
                frame,
            )[j].queue).to_multiset().count(frame) == s[j].queue.to_multiset().count(frame) + 1,
        forall|j: int|
            0 <= j < s.len() && s[j].id == origin ==> #[trigger] reg_broadcast(
                s,
                origin,
                frame,
            )[j] == s[j],
        unique_ids(s) ==> unique_ids(reg_broadcast(s, origin, frame)),
{
    broadcast use vstd::seq_lib::group_to_multiset_ensures;

    assert forall|j: int|
        0 <= j < s.len() && s[j].id != origin implies (#[trigger] reg_broadcast(
        s,
        origin,
        frame,
    )[j].queue).to_multiset().count(frame) == s[j].queue.to_multiset().count(frame) + 1 by {
        let q = s[j].queue;
        assert(q.push(frame).to_multiset() =~= q.to_multiset().insert(frame));
    }
}

/// Once a peer is unregistered it is gone for good as far as delivery is
/// concerned: its entry no longer exists, every other peer keeps its
/// place and its queue, and no later broadcast can reach the removed
/// identity, because fan-out never adds entries.
pub proof fn lemma_unregister_is_final(s: Seq<EntryView>, id: u64, origin: u64, frame: Seq<u8>)
    requires
        unique_ids(s),
    ensures
        !reg_has(reg_unregister(s, id), id),
        unique_ids(reg_unregister(s, id)),
        !reg_has(reg_broadcast(reg_unregister(s, id), origin, frame), id),
        reg_has(s, id) ==> reg_unregister(s, id).len() == s.len() - 1,
        !reg_has(s, id) ==> reg_unregister(s, id) == s,
        forall|other: u64|
            other != id ==> (#[trigger] reg_has(reg_unregister(s, id), other)) == reg_has(
                s,
                other,
            ),
        forall|other: u64|
            other != id && reg_has(s, other) ==> #[trigger] reg_queue(
                reg_unregister(s, id),
                other,
            ) == reg_queue(s, other),
{
    let t = reg_unregister(s, id);
    if reg_has(s, id) {
        let i = reg_index(s, id);
        assert(0 <= i < s.len() && s[i].id == id);
        assert forall|j: int| 0 <= j < t.len() implies t[j].id != id by {
            if j < i {
                assert(t[j] == s[j]);
            } else {
                assert(t[j] == s[j + 1]);
            }
        }
        assert(!reg_has(t, id));
        assert forall|other: u64| other != id implies (#[trigger] reg_has(t, other)) == reg_has(
            s,
            other,
        ) by {
            if reg_has(s, other) {
                let j = reg_index(s, other);
                if j < i {
                    assert(t[j] == s[j]);
                } else {
                    assert(j > i);
                    assert(t[j - 1] == s[j]);
                }
                assert(reg_has(t, other));
            }
            if reg_has(t, other) {
                let j = reg_index(t, other);
                if j < i {
                    assert(s[j] == t[j]);
                } else {
                    assert(s[j + 1] == t[j]);
                }
                assert(reg_has(s, other));
            }
        }
        assert forall|other: u64| other != id && reg_has(s, other) implies #[trigger] reg_queue(
            t,
            other,
        ) == reg_queue(s, other) by {
            let j = reg_index(s, other);
            assert(0 <= j < s.len() && s[j].id == other);
            let j2 = if j < i {
                j
            } else {
                j - 1
            };
            assert(t[j2].id == other);
            Registry::lemma_position_is_index(t, other, j2);
            assert(t[j2].queue == s[j].queue);
        }
    }
    assert forall|j: int|
        0 <= j < reg_broadcast(t, origin, frame).len() implies #[trigger] reg_broadcast(
        t,
        origin,
        frame,
    )[j].id != id by {
        assert(reg_broadcast(t, origin, frame)[j].id == t[j].id);
        assert(!reg_has(t, id));
    }
}

/// One registered peer as stored: identity and queued frames.
struct RegEntry {
    id: u64,
    queue: Vec<Vec<u8>>,
}

impl View for RegEntry {
    type V = EntryView;

    closed spec fn view(&self) -> EntryView {
        EntryView { id: self.id, queue: self.queue.deep_view() }
    }
}

impl DeepView for RegEntry {
    type V = EntryView;

    closed spec fn deep_view(&self) -> EntryView {
        self.view()
    }
}

/// The registry itself. All mutation goes through `register`,
/// `unregister`, `broadcast` and `pop_front`; a host that shares it
/// between connections guards it with one exclusive lock, so every
/// operation sees and leaves a consistent snapshot.
pub struct Registry {
    entries: Vec<RegEntry>,
}

impl View for Registry {
    type V = Seq<EntryView>;

    closed spec fn view(&self) -> Seq<EntryView> {
        self.entries.deep_view()
    }
}

impl Registry {
    /// Entries carry pairwise distinct identities.
    pub open spec fn wf(&self) -> bool {
        unique_ids(self@)
    }

    /// An empty registry.
    pub fn new() -> (r: Registry)
        ensures
            r.wf(),
            r@ == Seq::<EntryView>::empty(),
    {
        let r = Registry { entries: Vec::new() };
        proof {
            assert(r@ =~= Seq::<EntryView>::empty());
        }
        r
    }

    /// Number of registered peers.
    pub fn peer_count(&self) -> (r: usize)
        ensures
            r == self@.len(),
    {
        self.entries.len()
    }

    /// Whether `id` is currently registered.
    pub fn contains(&self, id: u64) -> (r: bool)
        ensures
            r == reg_has(self@, id),
    {
        match self.position_of(id) {
            Some(_) => true,
            None => false,
        }
    }

    /// The position of `id` among the entries, scanning from the front.
    fn position_of(&self, id: u64) -> (r: Option<usize>)
        ensures
            (match r {
                Some(j) => {
                    &&& j < self@.len()
                    &&& self@[j as int].id == id
                    &&& forall|k: int| 0 <= k < j ==> self@[k].id != id
                    &&& reg_has(self@, id)
                },
                None => !reg_has(self@, id),
            }),
    {
        let n = self.entries.len();
        let mut j: usize = 0;
        while j < n
            invariant
                n == self@.len(),
                n == self.entries@.len(),
                j <= n,
                forall|k: int| 0 <= k < j ==> self@[k].id != id,
            decreases n - j,
        {
            if self.entries[j].id == id {
                return Some(j);
            }
            j += 1;
        }
        None
    }

    /// Under `unique_ids`, a found position is the `reg_index`.
    proof fn lemma_position_is_index(s: Seq<EntryView>, id: u64, j: int)
        requires
            unique_ids(s),
            0 <= j < s.len(),
            s[j].id == id,
        ensures
            reg_has(s, id),
            reg_index(s, id) == j,
    {
        assert(reg_has(s, id));
        let i = reg_index(s, id);
        if i != j {
            assert(s[i].id == s[j].id);
            assert(false);
        }
    }

    /// Insert a fresh, empty delivery queue for `id`. A duplicate
    /// identity cannot normally occur, since identities are unique
    /// connection endpoints; if one occurs anyway the entry is
    /// overwritten, never a crash.
    pub fn register(&mut self, id: u64)
        requires
            old(self).wf(),
        ensures
            final(self).wf(),
            final(self)@ == reg_register(old(self)@, id),
    {
        match self.position_of(id) {
            Some(j) => {
                proof {
                    Self::lemma_position_is_index(self@, id, j as int);
                }
                let slot = vec_index_mut(&mut self.entries, j);
                *slot = RegEntry { id, queue: Vec::new() };
                proof {
                    assert(self@ =~~= reg_register(old(self)@, id));
                }
            },
            None => {
                self.entries.push(RegEntry { id, queue: Vec::new() });
                proof {
                    assert(self@ =~~= reg_register(old(self)@, id));
                }
            },
        }
    }

    /// Remove the entry for `id` if present; a silent no-op when absent,
    /// so a racing or repeated cleanup is harmless.
    pub fn unregister(&mut self, id: u64)
        requires
            old(self).wf(),
        ensures
            final(self).wf(),
            final(self)@ == reg_unregister(old(self)@, id),
    {
        match self.position_of(id) {
            Some(j) => {
                proof {
                    Self::lemma_position_is_index(self@, id, j as int);
                }
                let gone = self.entries.remove(j);
                let _ = gone;
                proof {
                    assert(self@ =~~= reg_unregister(old(self)@, id));
                }
            },
            None => {},
        }
    }

    /// Append `frame` to the delivery queue of every peer but the origin.
    /// The push never blocks: queues are unbounded by design, so a slow
    /// peer cannot stall a broadcaster.
    pub fn broadcast(&mut self, origin: u64, frame: &[u8])
        requires
            old(self).wf(),
        ensures
            final(self).wf(),
            final(self)@ == reg_broadcast(old(self)@, origin, frame@),
    {
        let n = self.entries.len();
        let mut i: usize = 0;
        while i < n
            invariant
                n == self@.len(),
                i <= n,
                self@.len() == old(self)@.len(),
                forall|j: int| i <= j < n ==> self@[j] == old(self)@[j],
                forall|j: int|
                    0 <= j < i ==> self@[j] == (if old(self)@[j].id == origin {
                        old(self)@[j]
                    } else {
                        EntryView {
                            id: old(self)@[j].id,
                            queue: old(self)@[j].queue.push(frame@),
                        }
                    }),
            decreases n - i,
        {
            let ghost pre = self@;
            let entry = vec_index_mut(&mut self.entries, i);
            let ghost e0 = entry@;
            proof {
                assert(e0 == pre[i as int]);
            }
            if entry.id != origin {
                entry.queue.push(vstd::slice::slice_to_vec(frame));
                proof {
                    assert(entry.queue.deep_view() =~~= e0.queue.push(frame@));
                }
            }
            let ghost e1 = entry@;
            proof {
                assert(self@ =~= pre.update(i as int, e1));
                if pre[i as int].id != origin {
                    assert(e1 =~~= (EntryView {
                        id: pre[i as int].id,
                        queue: pre[i as int].queue.push(frame@),
                    }));
                }
            }
            i += 1;
        }
        proof {
            assert(self@ =~~= reg_broadcast(old(self)@, origin, frame@));
        }
    }

    /// Take the oldest pending delivery for `id`, if any. Frames come out
    /// in the order broadcasts put them in. Polling an absent identity
    /// yields nothing.
    pub fn pop_front(&mut self, id: u64) -> (r: Option<Vec<u8>>)
        requires
            old(self).wf(),
        ensures
            final(self).wf(),
            final(self)@ == reg_pop(old(self)@, id),
            (if reg_has(old(self)@, id) && reg_queue(old(self)@, id).len() > 0 {
                r is Some && r->Some_0@ == reg_queue(old(self)@, id)[0]
            } else {
                r is None
            }),
    {
        match self.position_of(id) {
            Some(j) => {
                proof {
                    Self::lemma_position_is_index(self@, id, j as int);
                }
                let ghost pre = self@;
                let entry = vec_index_mut(&mut self.entries, j);
                if entry.queue.len() == 0 {
                    proof {
                        assert(reg_queue(pre, id).len() == 0);
                        assert(self@ =~~= pre);
                        assert(self@ =~~= reg_pop(old(self)@, id));
                    }
                    None
                } else {
                    let ghost qpre = entry.queue.deep_view();
                    let front = entry.queue.remove(0);
                    proof {
                        assert(entry.queue.deep_view() =~~= qpre.drop_first());
                        assert(front.deep_view() == qpre[0]);
                        assert(front@ =~~= qpre[0]);
                        assert(self@ =~~= reg_pop(old(self)@, id));
                    }
                    Some(front)
                }
            },
            None => {
                proof {
                    assert(self@ =~~= reg_pop(old(self)@, id));
                }
                None
            },
        }
    }
}

} // verus!
