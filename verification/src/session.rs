//! The peer session: one client connection's lifecycle. The session
//! decodes the handshake line (the peer's declared name), registers the
//! peer, relays its inbound lines to all other peers, drains its own
//! delivery queue into the write buffer, and guarantees exactly one
//! unregistration on the way out, whichever exit path is taken.
//!
//! The host owns the socket and the scheduling; it reports bytes read,
//! bytes written and end-of-stream here, and this module decides what
//! follows. Construction covers the connecting step (the codec exists as
//! soon as the session does), and `disconnect` performs the whole closing
//! step, through to `Closed`, in one call.

use vstd::prelude::*;
use crate::codec::{find_term, framed_spec, frame_line, LineCodec};
use crate::registry::{
    reg_broadcast, reg_has, reg_index, reg_queue, reg_register, reg_unregister, EntryView,
    Registry,
};

verus! {

/// Where a session stands in its lifecycle.
#[derive(Clone, Copy, PartialEq, Eq, Structural, Debug)]
pub enum SessionPhase {
    /// Connected, first line (the display name) not yet received.
    AwaitingHandshake,
    /// Named and registered; lines flow in both directions.
    Active,
    /// Torn down; the registry entry, if one was made, is gone.
    Closed,
}

/// The state of a session: identity, declared name, lifecycle phase, and
/// the codec's two buffers.
#[verifier::ext_equal]
pub ghost struct SessionView {
    pub id: u64,
    pub name: Seq<u8>,
    pub phase: SessionPhase,
    pub rd: Seq<u8>,
    pub wr: Seq<u8>,
}

/// The effect of one decoded line. A handshake line becomes the peer's
/// name and registers it; a line from an active peer is framed with the
/// name and fanned out to everyone else; a closed session lets the line
/// fall on the floor.
pub open spec fn apply_line_spec(sv: SessionView, rv: Seq<EntryView>, line: Seq<u8>) -> (
    SessionView,
    Seq<EntryView>,
) {
    match sv.phase {
        SessionPhase::AwaitingHandshake => (
            SessionView { name: line, phase: SessionPhase::Active, ..sv },
            reg_register(rv, sv.id),
        ),
        SessionPhase::Active => (sv, reg_broadcast(rv, sv.id, framed_spec(sv.name, line))),
        SessionPhase::Closed => (sv, rv),
    }
}

/// The effect of decoding and applying every complete line in the read
/// buffer, in order, leaving any partial trailing line to await more
/// bytes.
pub open spec fn run_lines_spec(sv: SessionView, rv: Seq<EntryView>) -> (
    SessionView,
    Seq<EntryView>,
)
    decreases sv.rd.len(),
{
    match find_term(sv.rd) {
        None => (sv, rv),
        Some(i) => if 0 <= i && i + 2 <= sv.rd.len() {
            let line = sv.rd.take(i);
            let stepped = apply_line_spec(
                SessionView { rd: sv.rd.skip(i + 2), ..sv },
                rv,
                line,
            );
            run_lines_spec(stepped.0, stepped.1)
        } else {
            // `find_term` only ever returns in-bounds indices; this arm
            // exists so the recursion is well-founded by construction.
            (sv, rv)
        },
    }
}

/// One active connection: identity, declared name, phase and codec.
pub struct Session {
    id: u64,
    name: Vec<u8>,
    phase: SessionPhase,
    codec: LineCodec,
}

impl View for Session {
    type V = SessionView;

    closed spec fn view(&self) -> SessionView {
        SessionView {
            id: self.id,
            name: self.name@,
            phase: self.phase,
            rd: self.codec@.rd,
            wr: self.codec@.wr,
        }
    }
}

impl Session {
    /// A session for a freshly accepted connection, awaiting its
    /// handshake. Nothing is registered yet: a client that goes away
    /// without ever sending a line leaves no trace.
    pub fn new(id: u64) -> (r: Session)
        ensures
            r@ == (SessionView {
                id,
                name: Seq::<u8>::empty(),
                phase: SessionPhase::AwaitingHandshake,
                rd: Seq::<u8>::empty(),
                wr: Seq::<u8>::empty(),
            }),
    {
        let r = Session {
            id,
            name: Vec::new(),
            phase: SessionPhase::AwaitingHandshake,
            codec: LineCodec::new(),
        };
        proof {
            assert(r@ =~= (SessionView {
                id,
                name: Seq::<u8>::empty(),
                phase: SessionPhase::AwaitingHandshake,
                rd: Seq::<u8>::empty(),
                wr: Seq::<u8>::empty(),
            }));
        }
        r
    }

    /// The connection identity this session was created with.
    pub fn id(&self) -> (r: u64)
        ensures
            r == self@.id,
    {
        self.id
    }

    /// The current lifecycle phase.
    pub fn phase(&self) -> (r: SessionPhase)
        ensures
            r == self@.phase,
    {
        self.phase
    }

    /// The declared display name; empty until the handshake line arrived.
    pub fn name(&self) -> (r: &Vec<u8>)
        ensures
            r@ == self@.name,
    {
        &self.name
    }

    /// Apply one decoded line to the session and the registry.
    pub fn on_line(&mut self, reg: &mut Registry, line: Vec<u8>)
        requires
            old(reg).wf(),
        ensures
            final(reg).wf(),
            (final(self)@, final(reg)@) == apply_line_spec(old(self)@, old(reg)@, line@),
    {
        match self.phase {
            SessionPhase::AwaitingHandshake => {
                self.name = line;
                self.phase = SessionPhase::Active;
                reg.register(self.id);
                proof {
                    assert(self@ =~= apply_line_spec(old(self)@, old(reg)@, line@).0);
                }
            },
            SessionPhase::Active => {
                let framed = frame_line(&self.name, &line);
                reg.broadcast(self.id, framed.as_slice());
                proof {
                    assert(self@ =~= old(self)@);
                }
            },
            SessionPhase::Closed => {
                proof {
                    assert(self@ =~= old(self)@);
                }
            },
        }
    }

    /// Bytes arrived from the connection: feed them to the codec, then
    /// decode and apply every complete line they finish. The first
    /// complete line ever seen is the handshake; later ones are
    /// broadcast; a partial trailing line stays buffered.
    pub fn on_bytes(&mut self, reg: &mut Registry, data: &[u8])
        requires
            old(reg).wf(),
        ensures
            final(reg).wf(),
            (final(self)@, final(reg)@) == run_lines_spec(
                (SessionView { rd: old(self)@.rd + data@, ..old(self)@ }),
                old(reg)@,
            ),
    {
        self.codec.feed(data);
        let ghost target = run_lines_spec(self@, reg@);
        proof {
            assert(self@ =~= (SessionView { rd: old(self)@.rd + data@, ..old(self)@ }));
        }
        loop
            invariant
                reg.wf(),
                run_lines_spec(self@, reg@) == target,
            ensures
                reg.wf(),
                (self@, reg@) == target,
            decreases self@.rd.len(),
        {
            let ghost svpre = self@;
            let ghost rvpre = reg@;
            let decoded = self.codec.decode_next();
            match decoded {
                Some(line) => {
                    proof {
                        crate::codec::lemma_find_term_spec(svpre.rd);
                        let i = find_term(svpre.rd)->Some_0;
                        assert(self@ =~= (SessionView { rd: svpre.rd.skip(i + 2), ..svpre }));
                    }
                    self.on_line(reg, line);
                    proof {
                        assert(run_lines_spec(self@, reg@) == run_lines_spec(svpre, rvpre));
                    }
                },
                None => {
                    proof {
                        assert(self@ =~= svpre);
                        assert(run_lines_spec(svpre, rvpre) == (svpre, rvpre));
                        assert((self@, reg@) == target);
                    }
                    break;
                },
            }
        }
    }

    /// The connection is gone — clean end-of-stream, read error or write
    /// error alike. An active session unregisters, exactly once; a
    /// session still awaiting its handshake leaves no registry entry and
    /// no traffic; a closed session stays closed, so a repeated teardown
    /// changes nothing.
    pub fn disconnect(&mut self, reg: &mut Registry)
        requires
            old(reg).wf(),
        ensures
            final(reg).wf(),
            final(self)@ == (SessionView { phase: SessionPhase::Closed, ..old(self)@ }),
            final(reg)@ == (if old(self)@.phase == SessionPhase::Active {
                reg_unregister(old(reg)@, old(self)@.id)
            } else {
                old(reg)@
            }),
    {
        match self.phase {
            SessionPhase::Active => {
                reg.unregister(self.id);
            },
            _ => {},
        }
        self.phase = SessionPhase::Closed;
        proof {
            assert(self@ =~= (SessionView { phase: SessionPhase::Closed, ..old(self)@ }));
        }
    }

    /// Drain duty: move every frame pending in this peer's delivery queue
    /// into the codec's write buffer, oldest first, ready for the host to
    /// flush.
    pub fn pump_deliveries(&mut self, reg: &mut Registry)
        requires
            old(reg).wf(),
        ensures
            final(reg).wf(),
            final(self)@ == (SessionView {
                wr: old(self)@.wr + (if reg_has(old(reg)@, old(self)@.id) {
                    reg_queue(old(reg)@, old(self)@.id).flatten()
                } else {
                    Seq::<u8>::empty()
                }),
                ..old(self)@
            }),
            final(reg)@ == (if reg_has(old(reg)@, old(self)@.id) {
                old(reg)@.update(
                    reg_index(old(reg)@, old(self)@.id),
                    (EntryView { id: old(self)@.id, queue: Seq::empty() }),
                )
            } else {
                old(reg)@
            }),
    {
        loop
            invariant
                reg.wf(),
                self@.id == old(self)@.id,
                self@.rd == old(self)@.rd,
                self@.name == old(self)@.name,
                self@.phase == old(self)@.phase,
                reg_has(reg@, self@.id) == reg_has(old(reg)@, self@.id),
                reg_has(reg@, self@.id) ==> {
                    &&& reg_index(reg@, self@.id) == reg_index(old(reg)@, self@.id)
                    &&& old(self)@.wr + reg_queue(old(reg)@, self@.id).flatten() == self@.wr
                        + reg_queue(reg@, self@.id).flatten()
                    &&& reg@ == old(reg)@.update(
                        reg_index(old(reg)@, self@.id),
                        (EntryView { id: self@.id, queue: reg_queue(reg@, self@.id) }),
                    )
                },
                !reg_has(reg@, self@.id) ==> reg@ == old(reg)@ && self@.wr == old(self)@.wr,
            ensures
                reg.wf(),
                self@ == (SessionView {
                    wr: old(self)@.wr + (if reg_has(old(reg)@, old(self)@.id) {
                        reg_queue(old(reg)@, old(self)@.id).flatten()
                    } else {
                        Seq::<u8>::empty()
                    }),
                    ..old(self)@
                }),
                reg@ == (if reg_has(old(reg)@, old(self)@.id) {
                    old(reg)@.update(
                        reg_index(old(reg)@, old(self)@.id),
                        (EntryView { id: old(self)@.id, queue: Seq::empty() }),
                    )
                } else {
                    old(reg)@
                }),
            decreases (if reg_has(reg@, self@.id) {
                reg_queue(reg@, self@.id).len()
            } else {
                0
            }),
        {
            let ghost rvpre = reg@;
            let ghost svpre = self@;
            let next = reg.pop_front(self.id);
            match next {
                Some(frame) => {
                    self.codec.buffer(frame.as_slice());
                    proof {
                        lemma_pump_step(svpre, rvpre, self@, reg@, frame@);
                    }
                },
                None => {
                    proof {
                        if reg_has(rvpre, svpre.id) {
                            assert(reg_queue(rvpre, svpre.id).len() == 0);
                            assert(reg_queue(rvpre, svpre.id).flatten()
                                =~= Seq::<u8>::empty());
                        }
                        assert(self@ =~= (SessionView {
                            wr: old(self)@.wr + (if reg_has(old(reg)@, old(self)@.id) {
                                reg_queue(old(reg)@, old(self)@.id).flatten()
                            } else {
                                Seq::<u8>::empty()
                            }),
                            ..old(self)@
                        }));
                        if reg_has(old(reg)@, old(self)@.id) {
                            assert(reg@ =~~= old(reg)@.update(
                                reg_index(old(reg)@, old(self)@.id),
                                (EntryView { id: old(self)@.id, queue: Seq::empty() }),
                            ));
                        }
                    }
                    break;
                },
            }
        }
    }

    /// The host reports how many buffered bytes the stream accepted. A
    /// write that accepts zero bytes while data remains buffered breaks
    /// the stream's contract and is fatal to this session alone: the
    /// session tears down as on any other error. Otherwise the accepted
    /// prefix is dropped and the rest stays queued, never discarded.
    pub fn on_write_result(&mut self, reg: &mut Registry, n: usize)
        requires
            old(reg).wf(),
            n <= old(self)@.wr.len(),
        ensures
            final(reg).wf(),
            (if n == 0 && old(self)@.wr.len() > 0 {
                &&& final(self)@ == (SessionView { phase: SessionPhase::Closed, ..old(self)@ })
                &&& final(reg)@ == (if old(self)@.phase == SessionPhase::Active {
                    reg_unregister(old(reg)@, old(self)@.id)
                } else {
                    old(reg)@
                })
            } else {
                &&& final(self)@ == (SessionView { wr: old(self)@.wr.skip(n as int), ..old(self)@ })
                &&& final(reg)@ == old(reg)@
            }),
    {
        if n == 0 && self.codec.pending_len() > 0 {
            self.disconnect(reg);
        } else {
            self.codec.advance_write(n);
            proof {
                assert(self@ =~= (SessionView { wr: old(self)@.wr.skip(n as int), ..old(self)@ }));
            }
        }
    }

    /// Copy of the bytes awaiting transmission, for the host to hand to
    /// the stream.
    pub fn outgoing(&self) -> (r: Vec<u8>)
        ensures
            r@ == self@.wr,
    {
        self.codec.pending()
    }

}

/// A line sent by an active peer is delivered to every other registered
/// peer exactly once, prefixed with the sender's declared name and the
/// terminator, and is never delivered to the sender itself. The session
/// itself is left untouched by its own send.
pub proof fn lemma_line_delivery(sv: SessionView, rv: Seq<EntryView>, line: Seq<u8>)
    requires
        sv.phase == SessionPhase::Active,
    ensures
        apply_line_spec(sv, rv, line).0 == sv,
        apply_line_spec(sv, rv, line).1.len() == rv.len(),
        forall|j: int|
            0 <= j < rv.len() ==> #[trigger] apply_line_spec(sv, rv, line).1[j].id == rv[j].id,
        forall|j: int|
            0 <= j < rv.len() && rv[j].id != sv.id ==> #[trigger] apply_line_spec(
                sv,
                rv,
                line,
            ).1[j].queue == rv[j].queue.push(framed_spec(sv.name, line)),
        forall|j: int|
            0 <= j < rv.len() && rv[j].id != sv.id ==> (#[trigger] apply_line_spec(
                sv,
                rv,
                line,
            ).1[j].queue).to_multiset().count(framed_spec(sv.name, line)) == rv[j].queue.to_multiset().count(
                framed_spec(sv.name, line),
            ) + 1,
        forall|j: int|
            0 <= j < rv.len() && rv[j].id == sv.id ==> #[trigger] apply_line_spec(
                sv,
                rv,
                line,
            ).1[j] == rv[j],
{
    crate::registry::lemma_broadcast_fanout(rv, sv.id, framed_spec(sv.name, line));
}

/// End to end for one send: an active peer with a clean buffer that
/// receives exactly one terminated line relays it to every other
/// registered peer — the fan-out of the line framed with the sender's
/// name — and is itself left as it was.
pub proof fn lemma_relay_one_line(sv: SessionView, rv: Seq<EntryView>, line: Seq<u8>)
    requires
        sv.phase == SessionPhase::Active,
        sv.rd == Seq::<u8>::empty(),
        find_term(line) is None,
    ensures
        run_lines_spec((SessionView { rd: line + crate::codec::term_seq(), ..sv }), rv) == (
            sv,
            reg_broadcast(rv, sv.id, framed_spec(sv.name, line)),
        ),
{
    let fed = SessionView { rd: line + crate::codec::term_seq(), ..sv };
    assert(fed.rd =~= line + crate::codec::term_seq() + Seq::<u8>::empty());
    crate::codec::lemma_find_term_of_framed(line, Seq::empty());
    let i = line.len() as int;
    assert(find_term(fed.rd) == Some(i));
    assert(fed.rd.take(i) =~= line);
    assert(fed.rd.skip(i + 2) =~= Seq::<u8>::empty());
    let stepped = apply_line_spec((SessionView { rd: fed.rd.skip(i + 2), ..fed }), rv, line);
    assert(stepped.0 =~= sv);
    assert(find_term(stepped.0.rd) is None);
    assert(run_lines_spec(stepped.0, stepped.1) == (stepped.0, stepped.1));
}

/// A connection that goes away before completing a name line leaves no
/// trace: however its bytes were chunked, if they never finished a line,
/// processing them moves nothing, and tearing the session down before it
/// became active leaves the registry exactly as it was.
pub proof fn lemma_silent_disconnect(sv: SessionView, rv: Seq<EntryView>)
    requires
        find_term(sv.rd) is None,
    ensures
        run_lines_spec(sv, rv) == (sv, rv),
{
}

/// One pop-and-buffer step of the drain duty keeps the combined
/// "already moved plus still queued" bytes and the registry shape stable.
proof fn lemma_pump_step(
    svpre: SessionView,
    rvpre: Seq<EntryView>,
    svpost: SessionView,
    rvpost: Seq<EntryView>,
    frame: Seq<u8>,
)
    requires
        reg_has(rvpre, svpre.id),
        reg_queue(rvpre, svpre.id).len() > 0,
        frame == reg_queue(rvpre, svpre.id)[0],
        rvpost == crate::registry::reg_pop(rvpre, svpre.id),
        svpost == (SessionView { wr: svpre.wr + frame, ..svpre }),
        crate::registry::unique_ids(rvpre),
    ensures
        reg_has(rvpost, svpost.id),
        svpost.id == svpre.id,
        reg_index(rvpost, svpost.id) == reg_index(rvpre, svpre.id),
        svpre.wr + reg_queue(rvpre, svpre.id).flatten() == svpost.wr + reg_queue(
            rvpost,
            svpost.id,
        ).flatten(),
        reg_queue(rvpost, svpost.id).len() == reg_queue(rvpre, svpre.id).len() - 1,
        rvpost == rvpre.update(
            reg_index(rvpre, svpre.id),
            (EntryView { id: svpre.id, queue: reg_queue(rvpost, svpost.id) }),
        ),
{
    let id = svpre.id;
    let i = reg_index(rvpre, id);
    assert(0 <= i < rvpre.len() && rvpre[i].id == id);
    assert(rvpost[i].id == id);
    assert(reg_has(rvpost, id));
    let j = reg_index(rvpost, id);
    assert(0 <= j < rvpost.len() && rvpost[j].id == id);
    if j != i {
        assert(rvpre[j].id == id);
        assert(false);
    }
    let q = reg_queue(rvpre, id);
    assert(reg_queue(rvpost, id) == q.drop_first());
    assert(q.flatten() == q.first() + q.drop_first().flatten());
    assert(svpre.wr + q.flatten() =~= svpost.wr + q.drop_first().flatten());
}

} // verus!
