//! Split-HTTP server side: the session registry and the ordered reassembly of
//! upload packets.
//!
//! Uploads arrive as independent HTTP requests and may be reordered in
//! flight. Each session keeps the pending packets in a priority queue ordered
//! by sequence number and writes payloads to the upstream socket strictly in
//! sequence order: a packet is written only when its number equals `next_seq`;
//! packets from the future wait in the queue; packets from the past are
//! duplicates and are discarded.

use vstd::prelude::*;

verus! {

/// One upload packet: its sequence number and its payload.
pub struct Packet {
    pub seq: u64,
    pub data: Vec<u8>,
}

/// The views of a sequence of payloads.
pub open spec fn payloads(s: Seq<Vec<u8>>) -> Seq<Seq<u8>> {
    s.map_values(|v: Vec<u8>| v@)
}

/// Pending packets ordered by sequence number, largest first, so that the
/// smallest pending number sits at the tail and pops first.
pub open spec fn sorted_desc(q: Seq<(int, Seq<u8>)>) -> bool {
    forall|a: int, b: int| 0 <= a <= b < q.len() ==> (#[trigger] q[a]).0 >= (#[trigger] q[b]).0
}

/// Inserts a packet in descending order. A packet with an already-queued
/// sequence number goes in front of its namesakes, so the earlier arrival is
/// popped (and delivered) first.
pub open spec fn insert_desc(q: Seq<(int, Seq<u8>)>, p: (int, Seq<u8>)) -> Seq<(int, Seq<u8>)>
    decreases q.len(),
{
    if q.len() == 0 {
        seq![p]
    } else if p.0 >= q[0].0 {
        seq![p] + q
    } else {
        seq![q[0]] + insert_desc(q.drop_first(), p)
    }
}

/// Delivery: pop pending packets while the smallest sequence number does not
/// exceed `next`; a packet matching `next` exactly is delivered and advances
/// `next`, a smaller one is a duplicate and is dropped. Returns the advanced
/// `next`, the remaining queue and the delivered payloads in order.
pub open spec fn drain(next: int, q: Seq<(int, Seq<u8>)>) -> (int, Seq<(int, Seq<u8>)>, Seq<Seq<u8>>)
    decreases q.len(),
{
    if q.len() == 0 || q.last().0 > next {
        (next, q, seq![])
    } else if q.last().0 == next {
        let r = drain(next + 1, q.drop_last());
        (r.0, r.1, seq![q.last().1] + r.2)
    } else {
        drain(next, q.drop_last())
    }
}

/// What one upload request does to a session: queue the packet, then deliver
/// everything that became ready.
pub open spec fn spec_enqueue(next: int, q: Seq<(int, Seq<u8>)>, p: (int, Seq<u8>)) -> (
    int,
    Seq<(int, Seq<u8>)>,
    Seq<Seq<u8>>,
) {
    drain(next, insert_desc(q, p))
}

/// A session as the contracts see it: whether the download half is still
/// unclaimed, the next sequence number owed upstream, the pending queue, and
/// everything delivered so far.
pub struct SessionModel {
    pub reader_present: bool,
    pub next: int,
    pub queue: Seq<(int, Seq<u8>)>,
    pub delivered: Seq<Seq<u8>>,
}

/// One session: the two halves of its upstream socket (owned here, opaque to
/// the reassembly logic), the download half's availability, and the upload
/// reassembly state.
pub struct Session<R, W> {
    reader: Option<R>,
    writer: W,
    next_seq: u64,
    seq_exhausted: bool,
    queue: Vec<Packet>,
    delivered: Ghost<Seq<Seq<u8>>>,
}

impl<R, W> Session<R, W> {
    /// The pending packets, largest sequence number first.
    pub closed spec fn queue_model(&self) -> Seq<(int, Seq<u8>)> {
        self.queue@.map_values(|p: Packet| (p.seq as int, p.data@))
    }

    /// The next sequence number owed to the upstream socket; one past the
    /// largest representable number once that has been delivered.
    pub closed spec fn next(&self) -> int {
        if self.seq_exhausted {
            0x1_0000_0000_0000_0000
        } else {
            self.next_seq as int
        }
    }

    /// The download half, while nobody has claimed it.
    pub closed spec fn download_half(&self) -> Option<R> {
        self.reader
    }

    /// Whether the download half is still here to be taken.
    pub closed spec fn reader_present(&self) -> bool {
        self.reader is Some
    }

    /// Every payload handed out for upstream delivery so far, in order.
    pub closed spec fn delivered(&self) -> Seq<Seq<u8>> {
        self.delivered@
    }

    pub open spec fn wf(&self) -> bool {
        sorted_desc(self.queue_model())
    }

    /// The whole session state the contracts speak of.
    pub open spec fn model(&self) -> SessionModel {
        SessionModel {
            reader_present: self.reader_present(),
            next: self.next(),
            queue: self.queue_model(),
            delivered: self.delivered(),
        }
    }

    /// A fresh session around a newly opened upstream socket: nothing queued,
    /// nothing delivered, the reader not yet claimed.
    pub fn new(reader: R, writer: W) -> (s: Session<R, W>)
        ensures
            s.wf(),
            s.reader_present(),
            s.download_half() == Some(reader),
            s.next() == 0,
            s.queue_model() == Seq::<(int, Seq<u8>)>::empty(),
            s.delivered() == Seq::<Seq<u8>>::empty(),
    {
        let s = Session {
            reader: Some(reader),
            writer,
            next_seq: 0,
            seq_exhausted: false,
            queue: Vec::new(),
            delivered: Ghost(Seq::empty()),
        };
        proof {
            assert(s.queue_model() =~= Seq::<(int, Seq<u8>)>::empty());
        }
        s
    }

    /// Claims the download half. Only the first caller gets it: the session
    /// hands its reader out exactly once.
    pub fn take_reader(&mut self) -> (r: Option<R>)
        ensures
            r == old(self).download_half(),
            r is Some <==> old(self).reader_present(),
            !final(self).reader_present(),
            final(self).wf() == old(self).wf(),
            final(self).next() == old(self).next(),
            final(self).queue_model() == old(self).queue_model(),
            final(self).delivered() == old(self).delivered(),
    {
        self.reader.take()
    }

    /// The write half of the upstream socket.
    pub fn writer_ref(&self) -> &W {
        &self.writer
    }

    /// Accepts one upload packet and returns the payloads that are now ready
    /// for the upstream socket, in sequence order: exactly what the drain
    /// discipline delivers, nothing reordered, duplicates dropped.
    pub fn enqueue(&mut self, packet: Packet) -> (out: Vec<Vec<u8>>)
        requires
            old(self).wf(),
        ensures
            final(self).wf(),
            final(self).reader_present() == old(self).reader_present(),
            final(self).download_half() == old(self).download_half(),
            final(self).next() == spec_enqueue(
                old(self).next(),
                old(self).queue_model(),
                (packet.seq as int, packet.data@),
            ).0,
            final(self).queue_model() == spec_enqueue(
                old(self).next(),
                old(self).queue_model(),
                (packet.seq as int, packet.data@),
            ).1,
            payloads(out@) == spec_enqueue(
                old(self).next(),
                old(self).queue_model(),
                (packet.seq as int, packet.data@),
            ).2,
            final(self).delivered() == old(self).delivered() + payloads(out@),
    {
        let ghost q0 = self.queue_model();
        let ghost next0 = self.next();
        let ghost delivered0 = self.delivered@;
        let ghost pm = (packet.seq as int, packet.data@);
        let ghost reader0 = self.download_half();

        // Insert in descending order, in front of any packet with the same
        // sequence number.
        let mut pos: usize = 0;
        while pos < self.queue.len() && self.queue[pos].seq > packet.seq
            invariant
                pos <= self.queue@.len(),
                pm == (packet.seq as int, packet.data@),
                self.queue_model() == q0,
                self.next() == next0,
                self.delivered@ == delivered0,
                self.download_half() == reader0,
                forall|t: int| 0 <= t < pos ==> (#[trigger] q0[t]).0 > pm.0,
            decreases self.queue@.len() - pos,
        {
            proof {
                assert(q0[pos as int].0 == self.queue@[pos as int].seq as int);
            }
            pos += 1;
        }
        proof {
            lemma_insert_desc_at(q0, pm, pos as int);
            lemma_insert_desc_sorted(q0, pm, pos as int);
        }
        self.queue.insert(pos, packet);
        let ghost q1 = insert_desc(q0, pm);
        proof {
            assert(self.queue_model() =~= q0.insert(pos as int, pm));
        }

        // Deliver everything that is ready, smallest number first.
        let mut out: Vec<Vec<u8>> = Vec::new();
        proof {
            assert(payloads(out@) =~= Seq::<Seq<u8>>::empty());
        }
        while self.queue.len() > 0 && (self.seq_exhausted || self.queue[self.queue.len() - 1].seq
            <= self.next_seq)
            invariant
                sorted_desc(self.queue_model()),
                self.delivered@ == delivered0,
                self.download_half() == reader0,
                drain(next0, q1).0 == drain(self.next(), self.queue_model()).0,
                drain(next0, q1).1 == drain(self.next(), self.queue_model()).1,
                drain(next0, q1).2 == payloads(out@) + drain(self.next(), self.queue_model()).2,
            decreases self.queue@.len(),
        {
            let ghost qcur = self.queue_model();
            let ghost ncur = self.next();
            proof {
                assert(qcur.last() == (self.queue@.last().seq as int, self.queue@.last().data@));
            }
            let pkt = self.queue.pop().unwrap();
            proof {
                assert(self.queue_model() =~= qcur.drop_last());
            }
            if !self.seq_exhausted && pkt.seq == self.next_seq {
                proof {
                    assert(qcur.last().0 == ncur);
                    assert(payloads(out@.push(pkt.data)) =~= payloads(out@).push(pkt.data@));
                    assert(seq![qcur.last().1] + drain(ncur + 1, qcur.drop_last()).2
                        =~= (seq![qcur.last().1] + drain(ncur + 1, qcur.drop_last()).2));
                }
                out.push(pkt.data);
                if self.next_seq == u64::MAX {
                    self.seq_exhausted = true;
                } else {
                    self.next_seq = self.next_seq + 1;
                }
                proof {
                    assert(self.next() == ncur + 1);
                    assert(drain(ncur, qcur).2 =~= seq![qcur.last().1] + drain(ncur + 1,
                        qcur.drop_last()).2);
                    assert(payloads(out@) =~= (payloads(out@).drop_last()).push(pkt.data@));
                    assert(payloads(out@).drop_last() + (seq![qcur.last().1] + drain(self.next(),
                        self.queue_model()).2) =~= payloads(out@) + drain(self.next(),
                        self.queue_model()).2);
                }
            } else {
                proof {
                    assert(qcur.last().0 < ncur);
                    assert(drain(ncur, qcur) == drain(ncur, qcur.drop_last()));
                }
            }
        }
        proof {
            assert(drain(self.next(), self.queue_model()) == (self.next(), self.queue_model(),
                Seq::<Seq<u8>>::empty()));
            assert(payloads(out@) + Seq::<Seq<u8>>::empty() =~= payloads(out@));
        }
        self.delivered = Ghost(delivered0 + payloads(out@));
        out
    }
}

/// Some queued packet carries sequence number `s`.
pub open spec fn has_seq(q: Seq<(int, Seq<u8>)>, s: int) -> bool {
    exists|t: int| 0 <= t < q.len() && (#[trigger] q[t]).0 == s
}

/// The payload of the queued packet with sequence number `s` (any one of
/// them, if several; unique when the numbers are distinct).
pub open spec fn payload_at(q: Seq<(int, Seq<u8>)>, s: int) -> Seq<u8> {
    q[choose|t: int| 0 <= t < q.len() && (#[trigger] q[t]).0 == s].1
}

/// No two queued packets share a sequence number.
pub open spec fn distinct_seqs(q: Seq<(int, Seq<u8>)>) -> bool {
    forall|a: int, b: int| 0 <= a < b < q.len() ==> (#[trigger] q[a]).0 != (#[trigger] q[b]).0
}

/// The session state (next number owed, pending queue, delivered payloads)
/// after the given packets arrive, in order, at a fresh session.
pub open spec fn run_uploads(packets: Seq<(int, Seq<u8>)>) -> (
    int,
    Seq<(int, Seq<u8>)>,
    Seq<Seq<u8>>,
)
    decreases packets.len(),
{
    if packets.len() == 0 {
        (0, seq![], seq![])
    } else {
        let r = run_uploads(packets.drop_last());
        let e = spec_enqueue(r.0, r.1, packets.last());
        (e.0, e.1, r.2 + e.2)
    }
}

/// The outcome of claiming a session's download half: the session may be
/// unknown, already streaming to an earlier caller, or free.
pub enum TakeOutcome<R> {
    NoSession,
    AlreadyTaken,
    Reader(R),
}

/// The model of a session that was just installed.
pub open spec fn fresh_session_model() -> SessionModel {
    SessionModel { reader_present: true, next: 0, queue: Seq::empty(), delivered: Seq::empty() }
}

/// Some entry carries identifier `x`.
spec fn id_in<R, W>(s: Seq<(String, Session<R, W>)>, x: Seq<char>) -> bool {
    exists|t: int| 0 <= t < s.len() && (#[trigger] s[t]).0@ == x
}

/// The session of the entry carrying identifier `x` (unique when identifiers
/// are).
spec fn session_of<R, W>(s: Seq<(String, Session<R, W>)>, x: Seq<char>) -> Session<R, W> {
    s[choose|t: int| 0 <= t < s.len() && (#[trigger] s[t]).0@ == x].1
}

/// The process-wide session registry: one session per identifier.
pub struct Registry<R, W> {
    entries: Vec<(String, Session<R, W>)>,
}

impl<R, W> Registry<R, W> {
    /// A session with this identifier exists.
    pub closed spec fn contains_id(&self, id: Seq<char>) -> bool {
        id_in(self.entries@, id)
    }

    /// The state of the session with this identifier.
    pub closed spec fn session(&self, id: Seq<char>) -> SessionModel {
        session_of(self.entries@, id).model()
    }

    /// The identified session's unclaimed download half.
    pub closed spec fn download_half(&self, id: Seq<char>) -> Option<R> {
        session_of(self.entries@, id).download_half()
    }

    /// Identifiers are unique and every queue is ordered.
    pub closed spec fn wf(&self) -> bool {
        &&& forall|a: int, b: int| 0 <= a < b < self.entries@.len()
            ==> (#[trigger] self.entries@[a]).0@ != (#[trigger] self.entries@[b]).0@
        &&& forall|i: int| 0 <= i < self.entries@.len() ==> (#[trigger] self.entries@[i]).1.wf()
    }

    /// An empty registry.
    pub fn new() -> (r: Registry<R, W>)
        ensures
            r.wf(),
            forall|x: Seq<char>| !r.contains_id(x),
    {
        Registry { entries: Vec::new() }
    }

    /// The index of the entry with this identifier.
    fn find(&self, id: &String) -> (r: Option<usize>)
        requires
            self.wf(),
        ensures
            match r {
                Some(i) => {
                    &&& i < self.entries@.len()
                    &&& self.entries@[i as int].0@ == id@
                    &&& self.contains_id(id@)
                    &&& self.session(id@) == self.entries@[i as int].1.model()
                },
                None => !self.contains_id(id@),
            },
    {
        let mut i: usize = 0;
        while i < self.entries.len()
            invariant
                i <= self.entries@.len(),
                self.wf(),
                forall|t: int| 0 <= t < i ==> (#[trigger] self.entries@[t]).0@ != id@,
            decreases self.entries@.len() - i,
        {
            if self.entries[i].0 == *id {
                proof {
                    let w = choose|t: int|
                        0 <= t < self.entries@.len() && (#[trigger] self.entries@[t]).0@ == id@;
                    assert(self.entries@[i as int].0@ == id@);
                    assert(w == i);
                }
                return Some(i);
            }
            i += 1;
        }
        None
    }

    /// Whether a session with this identifier exists.
    pub fn contains(&self, id: &String) -> (r: bool)
        requires
            self.wf(),
        ensures
            r == self.contains_id(id@),
    {
        self.find(id).is_some()
    }

    /// Installs a fresh session around a newly opened upstream socket, unless
    /// one with this identifier is already there — insertion races keep
    /// whichever session was installed first, and the loser gets its socket
    /// halves back to discard.
    pub fn install(&mut self, id: String, reader: R, writer: W) -> (spare: Option<(R, W)>)
        requires
            old(self).wf(),
        ensures
            final(self).wf(),
            final(self).contains_id(id@),
            spare == (if old(self).contains_id(id@) {
                Some((reader, writer))
            } else {
                None
            }),
            forall|x: Seq<char>| #[trigger] final(self).contains_id(x) == (old(self).contains_id(x)
                || x == id@),
            forall|x: Seq<char>| old(self).contains_id(x) ==> #[trigger] final(self).session(x)
                == old(self).session(x),
            !old(self).contains_id(id@) ==> final(self).session(id@) == fresh_session_model(),
            !old(self).contains_id(id@) ==> final(self).download_half(id@) == Some(reader),
    {
        match self.find(&id) {
            Some(_) => Some((reader, writer)),
            None => {
                let ghost pre = self.entries@;
                let session = Session::new(reader, writer);
                proof {
                    assert forall|t: int| 0 <= t < pre.len() implies (#[trigger] pre[t]).0@
                        != id@ by {
                        if pre[t].0@ == id@ {
                            assert(self.contains_id(id@));
                        }
                    }
                }
                self.entries.push((id, session));
                proof {
                    let post = self.entries@;
                    assert(post[post.len() - 1].0@ == id@);
                    assert(id_in(post, id@));
                    assert forall|x: Seq<char>| #[trigger] id_in(post, x) implies (id_in(pre, x)
                        || x == id@) by {
                        let w = choose|i: int|
                            0 <= i < post.len() && (#[trigger] post[i]).0@ == x;
                        if w < pre.len() {
                            assert(pre[w].0@ == x);
                        }
                    }
                    assert forall|x: Seq<char>| #[trigger] id_in(pre, x) implies id_in(post, x) by {
                        let w = choose|i: int| 0 <= i < pre.len() && (#[trigger] pre[i]).0@ == x;
                        assert(post[w].0@ == x);
                    }
                    assert forall|x: Seq<char>| #[trigger] id_in(pre, x) implies session_of(post, x)
                        == session_of(pre, x) by {
                        let w1 = choose|i: int| 0 <= i < pre.len() && (#[trigger] pre[i]).0@ == x;
                        assert(post[w1].0@ == x);
                        assert(id_in(post, x));
                        let w2 = choose|i: int|
                            0 <= i < post.len() && (#[trigger] post[i]).0@ == x;
                        assert(pre[w1].0@ == x);
                        assert(w2 < pre.len() ==> pre[w2].0@ == x);
                        assert(w2 < pre.len()) by {
                            if w2 == post.len() - 1 {
                                assert(id_in(pre, id@));
                            }
                        }
                        assert(w2 == w1);
                    }
                    let w = choose|i: int| 0 <= i < post.len() && (#[trigger] post[i]).0@ == id@;
                    assert(w == post.len() - 1);
                }
                None
            },
        }
    }

    /// Claims the download half of the identified session; only the first
    /// claim succeeds, so at most one caller ever owns it.
    pub fn take_reader(&mut self, id: &String) -> (r: TakeOutcome<R>)
        requires
            old(self).wf(),
        ensures
            final(self).wf(),
            forall|x: Seq<char>| #[trigger] final(self).contains_id(x) == old(self).contains_id(x),
            r is NoSession <==> !old(self).contains_id(id@),
            old(self).contains_id(id@) ==> {
                let m = old(self).session(id@);
                &&& (r is Reader <==> spec_take(m).1)
                &&& (r is AlreadyTaken <==> !spec_take(m).1)
                &&& final(self).session(id@) == spec_take(m).0
            },
            r matches TakeOutcome::Reader(reader) ==> old(self).download_half(id@) == Some(reader),
            forall|x: Seq<char>| x != id@ && old(self).contains_id(x)
                ==> #[trigger] final(self).session(x) == old(self).session(x),
            !old(self).contains_id(id@) ==> *final(self) == *old(self),
    {
        match self.find(id) {
            None => TakeOutcome::NoSession,
            Some(i) => {
                let ghost pre = self.entries@;
                proof {
                    let w = choose|t: int| 0 <= t < pre.len() && (#[trigger] pre[t]).0@ == id@;
                    assert(pre[i as int].0@ == id@);
                    assert(w == i);
                    assert(session_of(pre, id@) == pre[i as int].1);
                }
                let taken = self.entries[i].1.take_reader();
                proof {
                    lemma_entry_session_update(pre, self.entries@, i as int, id@);
                }
                match taken {
                    Some(reader) => TakeOutcome::Reader(reader),
                    None => TakeOutcome::AlreadyTaken,
                }
            },
        }
    }

    /// Drops the identified session; its upstream socket halves go with it.
    /// Afterwards the identifier is absent from the registry, whoever else
    /// still holds the session's streams.
    pub fn remove(&mut self, id: &String)
        requires
            old(self).wf(),
        ensures
            final(self).wf(),
            !final(self).contains_id(id@),
            forall|x: Seq<char>| x != id@ ==> #[trigger] final(self).contains_id(x)
                == old(self).contains_id(x),
            forall|x: Seq<char>| x != id@ && old(self).contains_id(x)
                ==> #[trigger] final(self).session(x) == old(self).session(x),
    {
        match self.find(id) {
            None => {
            },
            Some(i) => {
                let ghost pre = self.entries@;
                let _ = self.entries.remove(i);
                proof {
                    lemma_entry_remove(pre, self.entries@, i as int, id@);
                }
            },
        }
    }

    /// Feeds one upload packet to the identified session and returns the
    /// payloads now owed to its upstream socket, in sequence order.
    pub fn enqueue(&mut self, id: &String, packet: Packet) -> (r: Option<Vec<Vec<u8>>>)
        requires
            old(self).wf(),
        ensures
            final(self).wf(),
            forall|x: Seq<char>| #[trigger] final(self).contains_id(x) == old(self).contains_id(x),
            r is Some <==> old(self).contains_id(id@),
            old(self).contains_id(id@) ==> ({
                let m = old(self).session(id@);
                let e = spec_enqueue(m.next, m.queue, (packet.seq as int, packet.data@));
                &&& final(self).session(id@) == (SessionModel {
                    next: e.0,
                    queue: e.1,
                    delivered: m.delivered + e.2,
                    reader_present: m.reader_present,
                })
                &&& payloads(r.unwrap()@) == e.2
            }),
            forall|x: Seq<char>| x != id@ && old(self).contains_id(x)
                ==> #[trigger] final(self).session(x) == old(self).session(x),
            !old(self).contains_id(id@) ==> *final(self) == *old(self),
    {
        match self.find(id) {
            None => None,
            Some(i) => {
                let ghost pre = self.entries@;
                let out = self.entries[i].1.enqueue(packet);
                proof {
                    lemma_entry_session_update(pre, self.entries@, i as int, id@);
                }
                Some(out)
            },
        }
    }

}

impl<R, W: Clone> Registry<R, W> {
    /// A handle to the identified session's upstream write half. The sessions
    /// keep a shareable handle (a reference-counted lock around the socket in
    /// the application), so handing out a copy touches no session state.
    pub fn writer_handle(&self, id: &String) -> (r: Option<W>)
        requires
            self.wf(),
        ensures
            r is Some <==> self.contains_id(id@),
    {
        match self.find(id) {
            Some(i) => Some(self.entries[i].1.writer_ref().clone()),
            None => None,
        }
    }
}

/// What claiming the download half does to a session: it loses the reader,
/// and the claim succeeds exactly when the reader was still present.
pub open spec fn spec_take(m: SessionModel) -> (SessionModel, bool) {
    (SessionModel { reader_present: false, ..m }, m.reader_present)
}

/// Exactly one claim on a session's download half ever succeeds: whatever
/// state the session is in, the state after any claim refuses every further
/// claim, so a second download request on the same session is turned away.
pub proof fn lemma_download_claimed_once(m: SessionModel)
    ensures
        !spec_take(m).0.reader_present,
        !spec_take(spec_take(m).0).1,
{
}

/// When one entry's session changes and everything else stays, the registry's
/// per-identifier view changes only at that entry's identifier.
proof fn lemma_entry_session_update<R, W>(
    pre: Seq<(String, Session<R, W>)>,
    post: Seq<(String, Session<R, W>)>,
    i: int,
    id: Seq<char>,
)
    requires
        0 <= i < pre.len(),
        post.len() == pre.len(),
        pre[i].0@ == id,
        forall|a: int, b: int| 0 <= a < b < pre.len() ==> (#[trigger] pre[a]).0@
            != (#[trigger] pre[b]).0@,
        forall|t: int| 0 <= t < post.len() ==> (#[trigger] post[t]).0@ == pre[t].0@,
        forall|t: int| 0 <= t < post.len() && t != i ==> #[trigger] post[t] == pre[t],
    ensures
        forall|a: int, b: int| 0 <= a < b < post.len() ==> (#[trigger] post[a]).0@
            != (#[trigger] post[b]).0@,
        forall|x: Seq<char>| #[trigger] id_in(post, x) <==> id_in(pre, x),
        session_of(post, id) == post[i].1,
        forall|x: Seq<char>| x != id && #[trigger] id_in(pre, x) ==> session_of(post, x)
            == session_of(pre, x),
{
    assert forall|x: Seq<char>| #[trigger] id_in(post, x) implies id_in(pre, x) by {
        let w = choose|t: int| 0 <= t < post.len() && (#[trigger] post[t]).0@ == x;
        assert(pre[w].0@ == x);
    }
    assert forall|x: Seq<char>| #[trigger] id_in(pre, x) implies id_in(post, x) by {
        let w = choose|t: int| 0 <= t < pre.len() && (#[trigger] pre[t]).0@ == x;
        assert(post[w].0@ == x);
    }
    assert(post[i].0@ == id);
    let wi = choose|t: int| 0 <= t < post.len() && (#[trigger] post[t]).0@ == id;
    assert(wi == i);
    assert forall|x: Seq<char>| x != id && #[trigger] id_in(pre, x) implies session_of(post, x)
        == session_of(pre, x) by {
        let w1 = choose|t: int| 0 <= t < pre.len() && (#[trigger] pre[t]).0@ == x;
        assert(post[w1].0@ == x);
        assert(id_in(post, x));
        let w2 = choose|t: int| 0 <= t < post.len() && (#[trigger] post[t]).0@ == x;
        assert(pre[w2].0@ == x);
        assert(w1 == w2);
        assert(w1 != i);
    }
}

/// Removing one entry removes its identifier and leaves the rest untouched.
proof fn lemma_entry_remove<R, W>(
    pre: Seq<(String, Session<R, W>)>,
    post: Seq<(String, Session<R, W>)>,
    i: int,
    id: Seq<char>,
)
    requires
        0 <= i < pre.len(),
        pre[i].0@ == id,
        post == pre.remove(i),
        forall|a: int, b: int| 0 <= a < b < pre.len() ==> (#[trigger] pre[a]).0@
            != (#[trigger] pre[b]).0@,
    ensures
        forall|a: int, b: int| 0 <= a < b < post.len() ==> (#[trigger] post[a]).0@
            != (#[trigger] post[b]).0@,
        forall|t: int| 0 <= t < post.len() ==> exists|u: int| 0 <= u < pre.len()
            && #[trigger] post[t] == pre[u],
        !id_in(post, id),
        forall|x: Seq<char>| x != id ==> (#[trigger] id_in(post, x) <==> id_in(pre, x)),
        forall|x: Seq<char>| x != id && #[trigger] id_in(pre, x) ==> session_of(post, x)
            == session_of(pre, x),
{
    assert forall|t: int| 0 <= t < post.len() implies exists|u: int| 0 <= u < pre.len()
        && #[trigger] post[t] == pre[u] by {
        if t < i {
            assert(post[t] == pre[t]);
        } else {
            assert(post[t] == pre[t + 1]);
        }
    }
    assert(!id_in(post, id)) by {
        if id_in(post, id) {
            let w = choose|t: int| 0 <= t < post.len() && (#[trigger] post[t]).0@ == id;
            if w < i {
                assert(pre[w].0@ == id);
            } else {
                assert(pre[w + 1].0@ == id);
            }
        }
    }
    assert forall|x: Seq<char>| x != id && #[trigger] id_in(pre, x) implies id_in(post, x) by {
        let w = choose|t: int| 0 <= t < pre.len() && (#[trigger] pre[t]).0@ == x;
        if w < i {
            assert(post[w].0@ == x);
        } else {
            assert(w != i);
            assert(post[w - 1].0@ == x);
        }
    }
    assert forall|x: Seq<char>| x != id && #[trigger] id_in(post, x) implies id_in(pre, x) by {
        let w = choose|t: int| 0 <= t < post.len() && (#[trigger] post[t]).0@ == x;
        if w < i {
            assert(pre[w].0@ == x);
        } else {
            assert(pre[w + 1].0@ == x);
        }
    }
    assert forall|x: Seq<char>| x != id && #[trigger] id_in(pre, x) implies session_of(post, x)
        == session_of(pre, x) by {
        let w1 = choose|t: int| 0 <= t < pre.len() && (#[trigger] pre[t]).0@ == x;
        assert(id_in(post, x));
        let w2 = choose|t: int| 0 <= t < post.len() && (#[trigger] post[t]).0@ == x;
        if w2 < i {
            assert(pre[w2].0@ == x);
            assert(w1 == w2);
        } else {
            assert(pre[w2 + 1].0@ == x);
            assert(w1 == w2 + 1);
        }
    }
}

/// What the download handler answers: no upstream to be had, a rejected
/// second download, or a live stream (with the `ok` sentinel first exactly
/// when the request carried no `x_padding` query parameter).
pub enum DownResponse {
    UpstreamUnavailable,
    DuplicateDownload,
    Stream { sentinel: bool },
}

impl DownResponse {
    /// The HTTP status this answer carries.
    pub open spec fn spec_status(&self) -> u16 {
        match self {
            DownResponse::Stream { .. } => 200,
            _ => 502,
        }
    }

    pub fn status(&self) -> (s: u16)
        ensures
            s == self.spec_status(),
    {
        match self {
            DownResponse::Stream { .. } => 200,
            _ => 502,
        }
    }
}

/// Decides the download handler's answer from the attempt to claim the
/// session's reader: a missing session means the upstream could not be
/// reached, a claimed reader means a duplicate download, and a fresh reader
/// starts the stream, prefixed with the sentinel only for clients that did
/// not send `x_padding`.
pub fn down_response<R>(take: TakeOutcome<R>, x_padding_present: bool) -> (r: (
    DownResponse,
    Option<R>,
))
    ensures
        match take {
            TakeOutcome::NoSession => r.0 is UpstreamUnavailable && r.1 is None,
            TakeOutcome::AlreadyTaken => r.0 is DuplicateDownload && r.1 is None,
            TakeOutcome::Reader(reader) => {
                &&& r.0 == (DownResponse::Stream { sentinel: !x_padding_present })
                &&& r.1 == Some(reader)
            },
        },
{
    match take {
        TakeOutcome::NoSession => (DownResponse::UpstreamUnavailable, None),
        TakeOutcome::AlreadyTaken => (DownResponse::DuplicateDownload, None),
        TakeOutcome::Reader(reader) => (
            DownResponse::Stream { sentinel: !x_padding_present },
            Some(reader),
        ),
    }
}

/// How one upload request ends.
pub enum UpOutcome {
    NoUpstream,
    WriteFailed,
    Delivered,
}

/// The HTTP status of one upload request: success only when every ready
/// payload reached the upstream socket.
pub fn up_status(outcome: &UpOutcome) -> (s: u16)
    ensures
        s == 200 <==> outcome is Delivered,
        s == 200 || s == 502,
{
    match outcome {
        UpOutcome::Delivered => 200,
        _ => 502,
    }
}

/// The sentinel chunk that precedes the download stream for clients that did
/// not announce themselves with `x_padding`: the literal bytes `ok`.
pub fn sentinel_chunk() -> (r: Vec<u8>)
    ensures
        r@ == seq![111u8, 107u8],
        r@.len() == 2,
{
    let mut v: Vec<u8> = Vec::new();
    v.push(111);
    v.push(107);
    proof {
        assert(v@ =~= seq![111u8, 107u8]);
    }
    v
}

/// Inserting at the found position is what the ordered insert means.
proof fn lemma_insert_desc_at(q: Seq<(int, Seq<u8>)>, p: (int, Seq<u8>), i: int)
    requires
        0 <= i <= q.len(),
        forall|t: int| 0 <= t < i ==> q[t].0 > p.0,
        i < q.len() ==> p.0 >= q[i].0,
    ensures
        insert_desc(q, p) == q.insert(i, p),
    decreases i,
{
    if i == 0 {
        if q.len() == 0 {
            assert(insert_desc(q, p) =~= q.insert(0, p));
        } else {
            assert(seq![p] + q =~= q.insert(0, p));
        }
    } else {
        lemma_insert_desc_at(q.drop_first(), p, i - 1);
        assert(seq![q[0]] + q.drop_first().insert(i - 1, p) =~= q.insert(i, p));
    }
}

/// The ordered insert keeps the queue ordered.
proof fn lemma_insert_desc_sorted(q: Seq<(int, Seq<u8>)>, p: (int, Seq<u8>), i: int)
    requires
        sorted_desc(q),
        0 <= i <= q.len(),
        forall|t: int| 0 <= t < i ==> q[t].0 > p.0,
        i < q.len() ==> p.0 >= q[i].0,
    ensures
        sorted_desc(q.insert(i, p)),
{
    lemma_insert_desc_at(q, p, i);
    let q2 = q.insert(i, p);
    assert forall|a: int, b: int| 0 <= a <= b < q2.len() implies (#[trigger] q2[a]).0
        >= (#[trigger] q2[b]).0 by {
        if a < i {
            assert(q2[a] == q[a]);
        } else if a == i {
            assert(q2[a] == p);
        } else {
            assert(q2[a] == q[a - 1]);
        }
        if b < i {
            assert(q2[b] == q[b]);
        } else if b == i {
            assert(q2[b] == p);
        } else {
            assert(q2[b] == q[b - 1]);
        }
    }
}

/// Where the ordered insert places a packet in an ordered queue.
spec fn find_pos(q: Seq<(int, Seq<u8>)>, p: (int, Seq<u8>)) -> int
    decreases q.len(),
{
    if q.len() == 0 {
        0
    } else if p.0 >= q[0].0 {
        0
    } else {
        1 + find_pos(q.drop_first(), p)
    }
}

proof fn lemma_find_pos(q: Seq<(int, Seq<u8>)>, p: (int, Seq<u8>))
    requires
        sorted_desc(q),
    ensures
        0 <= find_pos(q, p) <= q.len(),
        forall|t: int| 0 <= t < find_pos(q, p) ==> (#[trigger] q[t]).0 > p.0,
        find_pos(q, p) < q.len() ==> p.0 >= q[find_pos(q, p)].0,
    decreases q.len(),
{
    if q.len() > 0 && p.0 < q[0].0 {
        assert(sorted_desc(q.drop_first())) by {
            assert(forall|a: int, b: int| 0 <= a <= b < q.len() - 1 ==> (#[trigger] q.drop_first()[a]).0
                >= (#[trigger] q.drop_first()[b]).0);
        }
        lemma_find_pos(q.drop_first(), p);
        assert(forall|t: int| 1 <= t < find_pos(q, p) ==> (#[trigger] q[t]).0
            == q.drop_first()[t - 1].0);
    }
}

/// In a queue without repeated numbers, the packet at index `t` is the one
/// its number selects.
proof fn lemma_payload_at_index(q: Seq<(int, Seq<u8>)>, t: int)
    requires
        distinct_seqs(q),
        0 <= t < q.len(),
    ensures
        has_seq(q, q[t].0),
        payload_at(q, q[t].0) == q[t].1,
{
    let s = q[t].0;
    assert(has_seq(q, s));
    let w = choose|u: int| 0 <= u < q.len() && (#[trigger] q[u]).0 == s;
    assert(w == t);
}

/// What the ordered insert does to the queue's contents.
proof fn lemma_insert_desc_contents(q: Seq<(int, Seq<u8>)>, p: (int, Seq<u8>))
    requires
        sorted_desc(q),
        distinct_seqs(q),
        !has_seq(q, p.0),
    ensures
        sorted_desc(insert_desc(q, p)),
        distinct_seqs(insert_desc(q, p)),
        insert_desc(q, p).len() == q.len() + 1,
        forall|s: int| #[trigger] has_seq(insert_desc(q, p), s) <==> (has_seq(q, s) || s == p.0),
        payload_at(insert_desc(q, p), p.0) == p.1,
        forall|s: int| s != p.0 && has_seq(q, s) ==> #[trigger] payload_at(insert_desc(q, p), s)
            == payload_at(q, s),
{
    lemma_find_pos(q, p);
    let i = find_pos(q, p);
    assert(i < q.len() ==> p.0 >= q[i].0 && p.0 != q[i].0) by {
        if i < q.len() && p.0 == q[i].0 {
            assert(has_seq(q, p.0));
        }
    }
    lemma_insert_desc_at(q, p, i);
    lemma_insert_desc_sorted(q, p, i);
    let q2 = q.insert(i, p);
    assert forall|t: int| 0 <= t < q2.len() implies #[trigger] q2[t] == (if t < i {
        q[t]
    } else if t == i {
        p
    } else {
        q[t - 1]
    }) by {}
    assert(distinct_seqs(q2)) by {
        assert forall|a: int, b: int| 0 <= a < b < q2.len() implies (#[trigger] q2[a]).0
            != (#[trigger] q2[b]).0 by {
            if q2[a].0 == q2[b].0 {
                if a == i {
                    assert(has_seq(q, q2[b].0)) by {
                        assert(q2[b] == q[b - 1]);
                    }
                } else if b == i {
                    assert(has_seq(q, q2[a].0)) by {
                        assert(q2[a] == q[a]);
                    }
                }
            }
        }
    }
    assert forall|s: int| #[trigger] has_seq(q2, s) implies (has_seq(q, s) || s == p.0) by {
        let t = choose|t: int| 0 <= t < q2.len() && (#[trigger] q2[t]).0 == s;
        if t < i {
            assert(q[t].0 == s);
        } else if t > i {
            assert(q[t - 1].0 == s);
        }
    }
    assert forall|s: int| has_seq(q, s) || s == p.0 implies #[trigger] has_seq(q2, s) by {
        if s == p.0 {
            assert(q2[i].0 == s);
        } else {
            let t = choose|t: int| 0 <= t < q.len() && (#[trigger] q[t]).0 == s;
            if t < i {
                assert(q2[t].0 == s);
            } else {
                assert(q2[t + 1].0 == s);
            }
        }
    }
    lemma_payload_at_index(q2, i);
    assert forall|s: int| s != p.0 && has_seq(q, s) implies #[trigger] payload_at(q2, s)
        == payload_at(q, s) by {
        let t = choose|t: int| 0 <= t < q.len() && (#[trigger] q[t]).0 == s;
        lemma_payload_at_index(q, t);
        if t < i {
            lemma_payload_at_index(q2, t);
        } else {
            lemma_payload_at_index(q2, t + 1);
        }
    }
}

/// What one more arriving packet does to the arrival history's contents.
proof fn lemma_push_contents(pre: Seq<(int, Seq<u8>)>, p: (int, Seq<u8>))
    requires
        distinct_seqs(pre),
        !has_seq(pre, p.0),
    ensures
        distinct_seqs(pre.push(p)),
        forall|s: int| #[trigger] has_seq(pre.push(p), s) <==> (has_seq(pre, s) || s == p.0),
        payload_at(pre.push(p), p.0) == p.1,
        forall|s: int| s != p.0 && has_seq(pre, s) ==> #[trigger] payload_at(pre.push(p), s)
            == payload_at(pre, s),
{
    let q2 = pre.push(p);
    assert(distinct_seqs(q2)) by {
        assert forall|a: int, b: int| 0 <= a < b < q2.len() implies (#[trigger] q2[a]).0
            != (#[trigger] q2[b]).0 by {
            if b == q2.len() - 1 {
                if q2[a].0 == q2[b].0 {
                    assert(pre[a].0 == p.0);
                    assert(has_seq(pre, p.0));
                }
            }
        }
    }
    assert forall|s: int| #[trigger] has_seq(q2, s) implies (has_seq(pre, s) || s == p.0) by {
        let t = choose|t: int| 0 <= t < q2.len() && (#[trigger] q2[t]).0 == s;
        if t < pre.len() {
            assert(pre[t].0 == s);
        }
    }
    assert forall|s: int| has_seq(pre, s) || s == p.0 implies #[trigger] has_seq(q2, s) by {
        if s == p.0 {
            assert(q2[pre.len() as int].0 == s);
        } else {
            let t = choose|t: int| 0 <= t < pre.len() && (#[trigger] pre[t]).0 == s;
            assert(q2[t].0 == s);
        }
    }
    lemma_payload_at_index(q2, pre.len() as int);
    assert forall|s: int| s != p.0 && has_seq(pre, s) implies #[trigger] payload_at(q2, s)
        == payload_at(pre, s) by {
        let t = choose|t: int| 0 <= t < pre.len() && (#[trigger] pre[t]).0 == s;
        lemma_payload_at_index(pre, t);
        lemma_payload_at_index(q2, t);
    }
}

/// What the drain delivers: the maximal consecutive run present in the queue,
/// starting at `next`, each payload in its place; the rest stays queued.
proof fn lemma_drain_run(next: int, q: Seq<(int, Seq<u8>)>)
    requires
        sorted_desc(q),
        distinct_seqs(q),
        forall|s: int| #[trigger] has_seq(q, s) ==> s >= next,
    ensures
        ({
            let r = drain(next, q);
            &&& r.0 >= next
            &&& forall|i: int| next <= i < r.0 ==> #[trigger] has_seq(q, i)
            &&& !has_seq(q, r.0)
            &&& sorted_desc(r.1)
            &&& distinct_seqs(r.1)
            &&& forall|s: int| #[trigger] has_seq(r.1, s) <==> (has_seq(q, s) && s > r.0)
            &&& forall|s: int| #[trigger] has_seq(r.1, s) ==> payload_at(r.1, s) == payload_at(q, s)
            &&& r.1.len() == q.len() - (r.0 - next)
            &&& r.2.len() == r.0 - next
            &&& forall|i: int| 0 <= i < r.2.len() ==> #[trigger] r.2[i] == payload_at(q, next + i)
        }),
    decreases q.len(),
{
    if q.len() == 0 {
        assert(!has_seq(q, next));
    } else {
        assert(forall|t: int| 0 <= t < q.len() ==> (#[trigger] q[t]).0 >= q.last().0);
        assert(has_seq(q, q.last().0)) by {
            assert(q[q.len() - 1].0 == q.last().0);
        }
        if q.last().0 > next {
            assert(!has_seq(q, next)) by {
                if has_seq(q, next) {
                    let t = choose|t: int| 0 <= t < q.len() && (#[trigger] q[t]).0 == next;
                    assert(q[t].0 >= q.last().0);
                }
            }
        } else {
            assert(q.last().0 == next);
            let qd = q.drop_last();
            assert(sorted_desc(qd) && distinct_seqs(qd)) by {
                assert(forall|t: int| 0 <= t < qd.len() ==> #[trigger] qd[t] == q[t]);
            }
            assert forall|s: int| #[trigger] has_seq(qd, s) implies s >= next + 1 by {
                let t = choose|t: int| 0 <= t < qd.len() && (#[trigger] qd[t]).0 == s;
                assert(q[t].0 == s);
                assert(has_seq(q, s));
                assert(s != next) by {
                    if s == next {
                        assert(q[t].0 == q[q.len() - 1].0);
                    }
                }
            }
            lemma_drain_run(next + 1, qd);
            let r = drain(next, q);
            let rr = drain(next + 1, qd);
            assert(r.0 == rr.0 && r.1 == rr.1 && r.2 == seq![q.last().1] + rr.2);
            assert forall|i: int| next <= i < r.0 implies #[trigger] has_seq(q, i) by {
                if i == next {
                    assert(has_seq(q, q.last().0));
                } else {
                    assert(has_seq(qd, i));
                    let t = choose|t: int| 0 <= t < qd.len() && (#[trigger] qd[t]).0 == i;
                    assert(q[t].0 == i);
                }
            }
            assert(!has_seq(q, r.0)) by {
                if has_seq(q, r.0) {
                    let t = choose|t: int| 0 <= t < q.len() && (#[trigger] q[t]).0 == r.0;
                    assert(r.0 != next);
                    assert(t != q.len() - 1);
                    assert(qd[t].0 == r.0);
                    assert(has_seq(qd, r.0));
                }
            }
            assert forall|s: int| #[trigger] has_seq(r.1, s) implies (has_seq(q, s) && s > r.0) by {
                assert(has_seq(qd, s) && s > r.0);
                let t = choose|t: int| 0 <= t < qd.len() && (#[trigger] qd[t]).0 == s;
                assert(q[t].0 == s);
            }
            assert forall|s: int| has_seq(q, s) && s > r.0 implies #[trigger] has_seq(r.1, s) by {
                let t = choose|t: int| 0 <= t < q.len() && (#[trigger] q[t]).0 == s;
                assert(s != next);
                assert(t != q.len() - 1);
                assert(qd[t].0 == s);
                assert(has_seq(qd, s));
            }
            assert forall|s: int| #[trigger] has_seq(r.1, s) implies payload_at(r.1, s)
                == payload_at(q, s) by {
                assert(has_seq(qd, s) && s > r.0);
                let t = choose|t: int| 0 <= t < qd.len() && (#[trigger] qd[t]).0 == s;
                lemma_payload_at_index(qd, t);
                lemma_payload_at_index(q, t);
            }
            lemma_payload_at_index(q, q.len() - 1);
            assert forall|i: int| 0 <= i < r.2.len() implies #[trigger] r.2[i] == payload_at(q, next
                + i) by {
                if i == 0 {
                    assert(r.2[0] == q.last().1);
                } else {
                    assert(r.2[i] == rr.2[i - 1]);
                    assert(rr.2[i - 1] == payload_at(qd, next + i));
                    assert(has_seq(qd, next + i)) by {
                        assert(next + 1 <= next + i < rr.0);
                    }
                    let t = choose|t: int| 0 <= t < qd.len() && (#[trigger] qd[t]).0 == next + i;
                    lemma_payload_at_index(qd, t);
                    lemma_payload_at_index(q, t);
                }
            }
        }
    }
}

/// Strictly descending numbers span at least their count.
proof fn lemma_strict_span(q: Seq<(int, Seq<u8>)>)
    requires
        sorted_desc(q),
        distinct_seqs(q),
        q.len() >= 1,
    ensures
        q[0].0 >= q.last().0 + q.len() - 1,
    decreases q.len(),
{
    if q.len() > 1 {
        let qd = q.drop_first();
        assert(sorted_desc(qd) && distinct_seqs(qd)) by {
            assert(forall|t: int| 0 <= t < qd.len() ==> #[trigger] qd[t] == q[t + 1]);
        }
        lemma_strict_span(qd);
        assert(q[0].0 > q[1].0) by {
            assert(q[0].0 >= q[1].0);
        }
        assert(qd.last() == q.last());
    }
}

/// The state invariant of a session fed distinct sequence numbers: `next` is
/// the least number never yet seen, everything below it has been delivered in
/// order, everything above it waits in the queue.
proof fn lemma_run_uploads_state(packets: Seq<(int, Seq<u8>)>)
    requires
        distinct_seqs(packets),
        forall|j: int| 0 <= j < packets.len() ==> (#[trigger] packets[j]).0 >= 0,
    ensures
        ({
            let r = run_uploads(packets);
            &&& r.0 >= 0
            &&& sorted_desc(r.1)
            &&& distinct_seqs(r.1)
            &&& forall|i: int| 0 <= i < r.0 ==> #[trigger] has_seq(packets, i)
            &&& !has_seq(packets, r.0)
            &&& forall|s: int| #[trigger] has_seq(r.1, s) <==> (has_seq(packets, s) && s > r.0)
            &&& forall|s: int| #[trigger] has_seq(r.1, s) ==> payload_at(r.1, s) == payload_at(
                packets,
                s,
            )
            &&& r.1.len() + r.0 == packets.len()
            &&& r.2.len() == r.0
            &&& forall|i: int| 0 <= i < r.0 ==> #[trigger] r.2[i] == payload_at(packets, i)
        }),
    decreases packets.len(),
{
    if packets.len() == 0 {
        let r = run_uploads(packets);
        assert(r.0 == 0 && r.1 =~= seq![] && r.2 =~= seq![]);
        assert(!has_seq(packets, 0));
    } else {
        let pre = packets.drop_last();
        let p = packets.last();
        assert(distinct_seqs(pre)) by {
            assert(forall|t: int| 0 <= t < pre.len() ==> #[trigger] pre[t] == packets[t]);
        }
        assert(forall|j: int| 0 <= j < pre.len() ==> (#[trigger] pre[j]).0 >= 0);
        lemma_run_uploads_state(pre);
        assert(!has_seq(pre, p.0)) by {
            if has_seq(pre, p.0) {
                let t = choose|t: int| 0 <= t < pre.len() && (#[trigger] pre[t]).0 == p.0;
                assert(packets[t].0 == packets[packets.len() - 1].0);
            }
        }
        assert(pre.push(p) =~= packets);
        lemma_push_contents(pre, p);
        let r = run_uploads(pre);
        assert(!has_seq(r.1, p.0));
        lemma_insert_desc_contents(r.1, p);
        let q1 = insert_desc(r.1, p);
        assert(p.0 >= r.0) by {
            if p.0 < r.0 {
                assert(has_seq(pre, p.0));
            }
        }
        assert forall|s: int| #[trigger] has_seq(q1, s) implies s >= r.0 by {
            if s != p.0 {
                assert(has_seq(r.1, s));
            }
        }
        lemma_drain_run(r.0, q1);
        let e = spec_enqueue(r.0, r.1, p);
        let rn = run_uploads(packets);
        assert(rn.0 == e.0 && rn.1 == e.1 && rn.2 == r.2 + e.2);

        assert forall|i: int| 0 <= i < rn.0 implies #[trigger] has_seq(packets, i) by {
            if i < r.0 {
                assert(has_seq(pre, i));
            } else {
                assert(has_seq(q1, i));
            }
        }
        assert(!has_seq(packets, rn.0)) by {
            if has_seq(packets, rn.0) {
                if rn.0 == p.0 {
                    assert(has_seq(q1, p.0));
                } else {
                    assert(has_seq(pre, rn.0));
                    if rn.0 == r.0 {
                        assert(false);
                    } else {
                        assert(rn.0 > r.0);
                        assert(has_seq(r.1, rn.0));
                        assert(has_seq(q1, rn.0));
                    }
                }
            }
        }
        assert forall|s: int| #[trigger] has_seq(rn.1, s) implies (has_seq(packets, s) && s
            > rn.0) by {
            assert(has_seq(q1, s) && s > rn.0);
        }
        assert forall|s: int| has_seq(packets, s) && s > rn.0 implies #[trigger] has_seq(
            rn.1,
            s,
        ) by {
            assert(has_seq(q1, s)) by {
                if s != p.0 {
                    assert(has_seq(pre, s));
                    assert(s > r.0);
                }
            }
        }
        assert forall|s: int| #[trigger] has_seq(rn.1, s) implies payload_at(rn.1, s) == payload_at(
            packets,
            s,
        ) by {
            assert(has_seq(q1, s) && s > rn.0);
            assert(payload_at(rn.1, s) == payload_at(q1, s));
            if s == p.0 {
                assert(payload_at(q1, p.0) == p.1);
                assert(payload_at(packets, p.0) == p.1);
            } else {
                assert(has_seq(r.1, s));
                assert(payload_at(q1, s) == payload_at(r.1, s));
                assert(payload_at(r.1, s) == payload_at(pre, s));
                assert(has_seq(pre, s));
                assert(payload_at(packets, s) == payload_at(pre, s));
            }
        }
        assert(rn.1.len() + rn.0 == packets.len()) by {
            assert(q1.len() == r.1.len() + 1);
            assert(rn.1.len() == q1.len() - (rn.0 - r.0));
            assert(r.1.len() + r.0 == pre.len());
        }
        assert(rn.2.len() == rn.0);
        assert forall|i: int| 0 <= i < rn.0 implies #[trigger] rn.2[i] == payload_at(
            packets,
            i,
        ) by {
            if i < r.0 {
                assert(rn.2[i] == r.2[i]);
                assert(r.2[i] == payload_at(pre, i));
                assert(has_seq(pre, i));
                assert(i != p.0);
                assert(payload_at(packets, i) == payload_at(pre, i));
            } else {
                assert(rn.2[i] == e.2[i - r.0]);
                assert(e.2[i - r.0] == payload_at(q1, r.0 + (i - r.0)));
                if i == p.0 {
                    assert(payload_at(q1, p.0) == p.1);
                    assert(payload_at(packets, p.0) == p.1);
                } else {
                    assert(has_seq(q1, i)) by {
                        assert(r.0 <= i < rn.0);
                    }
                    assert(has_seq(r.1, i) || i == p.0);
                    assert(payload_at(q1, i) == payload_at(r.1, i));
                    assert(payload_at(r.1, i) == payload_at(pre, i));
                    assert(has_seq(r.1, i));
                    assert(has_seq(pre, i));
                    assert(payload_at(packets, i) == payload_at(pre, i));
                }
            }
        }
    }
}

/// Reordered uploads deliver in order: feed a fresh session any permutation
/// of packets numbered `0` to `n - 1` and the payloads handed to the upstream
/// socket are exactly the payloads in sequence-number order — nothing
/// missing, nothing duplicated, nothing out of place — with the queue empty
/// and `next_seq` at `n` afterwards.
pub proof fn lemma_uploads_reassembled_in_order(packets: Seq<(int, Seq<u8>)>)
    requires
        forall|j: int| 0 <= j < packets.len() ==> 0 <= (#[trigger] packets[j]).0 < packets.len(),
        forall|a: int, b: int| 0 <= a < b < packets.len() ==> (#[trigger] packets[a]).0
            != (#[trigger] packets[b]).0,
    ensures
        run_uploads(packets).0 == packets.len(),
        run_uploads(packets).1.len() == 0,
        run_uploads(packets).2 == Seq::new(packets.len(), |i: int| payload_at(packets, i)),
{
    lemma_run_uploads_state(packets);
    let r = run_uploads(packets);
    let n = packets.len() as int;
    assert(r.0 <= n) by {
        if r.0 > n {
            assert(has_seq(packets, n));
            let t = choose|t: int| 0 <= t < packets.len() && (#[trigger] packets[t]).0 == n;
        }
    }
    if r.1.len() > 0 {
        lemma_strict_span(r.1);
        assert(has_seq(r.1, r.1[0].0)) by {
            assert(r.1[0].0 == r.1[0].0);
        }
        assert(has_seq(r.1, r.1.last().0)) by {
            assert(r.1[r.1.len() - 1].0 == r.1.last().0);
        }
        assert(r.1[0].0 < n) by {
            assert(has_seq(packets, r.1[0].0));
            let t = choose|t: int| 0 <= t < packets.len() && (#[trigger] packets[t]).0 == r.1[0].0;
        }
        assert(r.1.last().0 > r.0);
        assert(r.1[0].0 >= r.0 + 1 + r.1.len() - 1);
        assert(r.1.len() == n - r.0);
        assert(false);
    }
    assert(r.0 == n);
    assert(r.2 =~= Seq::new(packets.len(), |i: int| payload_at(packets, i)));
}

} // verus!
