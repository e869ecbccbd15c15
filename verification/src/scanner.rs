//! Boundary scanner: a stateful substring detector over a stream of read
//! buffers.
//!
//! Given a fixed byte pattern, the scanner consumes the downstream byte stream
//! one buffer at a time and reports, per buffer, where a packet boundary must
//! be forced: immediately after an occurrence of the pattern. A partial match
//! at the end of one buffer is carried into the next one, so occurrences that
//! straddle buffer boundaries are still found. At most one split is reported
//! per buffer: a second occurrence that begins inside the same buffer is only
//! discovered on a later buffer.

use vstd::prelude::*;
use vstd::slice::{slice_subrange, slice_to_vec};

verus! {

/// The pattern `pat` occurs in `hay` at index `i`.
pub open spec fn pattern_at(hay: Seq<u8>, pat: Seq<u8>, i: int) -> bool {
    &&& 0 <= i
    &&& i + pat.len() <= hay.len()
    &&& hay.subrange(i, i + pat.len() as int) == pat
}

/// `s` ends with `suffix`.
pub open spec fn ends_with(s: Seq<u8>, suffix: Seq<u8>) -> bool {
    &&& suffix.len() <= s.len()
    &&& s.skip(s.len() - suffix.len()) == suffix
}

/// Index of the leftmost occurrence of `pat` in `hay` at or after `from`.
pub open spec fn first_match_from(hay: Seq<u8>, pat: Seq<u8>, from: nat) -> Option<nat>
    decreases hay.len() - from,
    when from <= hay.len()
{
    if from + pat.len() > hay.len() {
        None
    } else if pattern_at(hay, pat, from as int) {
        Some(from)
    } else if from < hay.len() {
        first_match_from(hay, pat, from + 1)
    } else {
        None
    }
}

/// The largest `l <= start` such that the last `l` bytes of `b` equal the
/// first `l` bytes of `p`; `0` if no such `l` exists.
pub open spec fn suffix_overlap(b: Seq<u8>, p: Seq<u8>, start: nat) -> nat
    decreases start,
{
    if start == 0 {
        0
    } else if start <= b.len() && start <= p.len() && ends_with(b, p.take(start as int)) {
        start
    } else {
        suffix_overlap(b, p, (start - 1) as nat)
    }
}

/// Where the hunt for a trailing pattern prefix begins: one byte short of the
/// shorter of buffer and pattern, so only proper prefixes are considered.
pub open spec fn overlap_start(b: Seq<u8>, p: Seq<u8>) -> nat {
    let m = if b.len() <= p.len() { b.len() } else { p.len() };
    if m == 0 { 0 } else { (m - 1) as nat }
}

/// How many bytes of `b` a pending partial match would still need to inspect:
/// the rest of the pattern, or the whole buffer if that is shorter.
pub open spec fn straddle_len(p: Seq<u8>, k: nat, b: Seq<u8>) -> int {
    if p.len() - k <= b.len() { p.len() - k } else { b.len() as int }
}

/// What one buffer does to the scan state: where the split falls (a byte
/// index into the buffer, right after the occurrence) and which pattern
/// prefix is left pending for the next buffer.
pub struct ScanStep {
    pub split: Option<int>,
    pub offset: nat,
}

/// The scan of one buffer `b` with pattern `p` and `k` pattern bytes already
/// matched at the end of the stream so far. Three mutually exclusive cases:
/// continuing a straddling match, a whole occurrence inside `b`, and priming
/// the next buffer with the longest trailing pattern prefix.
pub open spec fn scan_spec(p: Seq<u8>, k: nat, b: Seq<u8>) -> ScanStep {
    let m = straddle_len(p, k, b);
    if p.subrange(k as int, k + m) == b.take(m) {
        if k + m == p.len() {
            ScanStep { split: Some(m), offset: 0 }
        } else {
            ScanStep { split: None, offset: (k + m) as nat }
        }
    } else if first_match_from(b, p, 0) is Some {
        ScanStep { split: Some(first_match_from(b, p, 0).unwrap() + p.len() as int), offset: 0 }
    } else {
        ScanStep { split: None, offset: suffix_overlap(b, p, overlap_start(b, p)) }
    }
}

/// What the caller must do with one scanned buffer: either forward it whole,
/// or forward `head`, wait out the inter-packet delay, then forward `tail`.
pub enum ScanOutcome {
    Split { head: Vec<u8>, tail: Vec<u8> },
    NoSplit { data: Vec<u8> },
}

/// Streaming detector for one connection: the pattern and how much of it the
/// stream consumed so far ends with.
pub struct Scanner {
    pattern: Vec<u8>,
    match_offset: usize,
    history: Ghost<Seq<u8>>,
}

proof fn lemma_first_match_witness(hay: Seq<u8>, pat: Seq<u8>, from: nat, i: nat)
    requires
        from <= i,
        pattern_at(hay, pat, i as int),
        forall|t: int| from <= t < i ==> !pattern_at(hay, pat, t),
    ensures
        first_match_from(hay, pat, from) == Some(i),
    decreases i - from,
{
    if from < i {
        lemma_first_match_witness(hay, pat, from + 1, i);
    }
}

proof fn lemma_first_match_none(hay: Seq<u8>, pat: Seq<u8>, from: nat)
    requires
        from <= hay.len(),
        forall|t: int| from <= t ==> !pattern_at(hay, pat, t),
    ensures
        first_match_from(hay, pat, from) is None,
    decreases hay.len() - from,
{
    if from + pat.len() <= hay.len() && from < hay.len() {
        lemma_first_match_none(hay, pat, from + 1);
    }
}

impl Scanner {
    /// The pattern after which a packet boundary is forced.
    pub closed spec fn pattern(&self) -> Seq<u8> {
        self.pattern@
    }

    /// How many pattern bytes the consumed stream currently ends with.
    pub closed spec fn pending(&self) -> nat {
        self.match_offset as nat
    }

    /// Every byte handed to `scan` so far, in order.
    pub closed spec fn consumed(&self) -> Seq<u8> {
        self.history@
    }

    /// The scan state is meaningful: the pattern is non-empty and bounded,
    /// and the pending count truly describes a pattern prefix at the end of
    /// the consumed stream.
    pub open spec fn wf(&self) -> bool {
        &&& 1 <= self.pattern().len() <= 4096
        &&& self.pending() < self.pattern().len()
        &&& ends_with(self.consumed(), self.pattern().take(self.pending() as int))
    }

    /// A fresh scanner: nothing consumed, no partial match pending.
    pub fn new(pattern: Vec<u8>) -> (r: Scanner)
        requires
            1 <= pattern@.len() <= 4096,
        ensures
            r.wf(),
            r.pattern() == pattern@,
            r.pending() == 0,
            r.consumed() == Seq::<u8>::empty(),
    {
        let r = Scanner { pattern, match_offset: 0, history: Ghost(Seq::empty()) };
        proof {
            assert(r.consumed().skip(0) =~= r.pattern().take(0));
        }
        r
    }

    /// Scans one read buffer.
    ///
    /// The buffer is returned in full, split in two exactly when a pattern
    /// occurrence completes inside it. A recorded split always closes an
    /// occurrence: the stream up to the split point ends with the pattern.
    /// Conversely, an occurrence lying wholly inside this buffer is always
    /// found. An occurrence that straddles buffers is found when its final
    /// byte arrives, provided the scanner committed to its prefix; a prefix
    /// abandoned for a failed longer candidate is an accepted miss, as is a
    /// second occurrence beginning inside the same buffer.
    pub fn scan(&mut self, buf: &[u8]) -> (out: ScanOutcome)
        requires
            old(self).wf(),
        ensures
            final(self).wf(),
            final(self).pattern() == old(self).pattern(),
            final(self).consumed() == old(self).consumed() + buf@,
            final(self).pending() == scan_spec(old(self).pattern(), old(self).pending(), buf@).offset,
            ({
                let step = scan_spec(old(self).pattern(), old(self).pending(), buf@);
                match out {
                    ScanOutcome::Split { head, tail } => {
                        &&& step.split is Some
                        &&& 0 <= step.split.unwrap() <= buf@.len()
                        &&& head@ == buf@.take(step.split.unwrap())
                        &&& tail@ == buf@.skip(step.split.unwrap())
                        &&& head@ + tail@ == buf@
                        &&& ends_with(old(self).consumed() + head@, old(self).pattern())
                    },
                    ScanOutcome::NoSplit { data } => {
                        &&& step.split is None
                        &&& data@ == buf@
                    },
                }
            }),
            (exists|i: int| #[trigger] pattern_at(buf@, old(self).pattern(), i)) ==> out is Split,
    {
        let ghost p = self.pattern@;
        let ghost b = buf@;
        let ghost k0 = self.match_offset as nat;
        let ghost consumed0 = self.history@;
        let plen = self.pattern.len();
        let blen = buf.len();
        let k = self.match_offset;
        proof {
            self.history@ = consumed0 + b;
        }

        // Step 1: does the buffer continue (or complete) a pattern match that
        // begins at the start of the buffer, `k` bytes of which are already
        // committed?
        let m = if plen - k <= blen { plen - k } else { blen };
        let mut j: usize = 0;
        let mut straddle = true;
        while j < m
            invariant_except_break
                straddle,
            invariant
                j <= m,
                m == straddle_len(p, k0, b),
                k == k0,
                k0 < p.len() <= 4096,
                m <= blen,
                b.len() == blen,
                p.len() == plen,
                self.pattern@ == p,
                self.match_offset == k,
                self.history@ == consumed0 + b,
                buf@ == b,
                forall|t: int| 0 <= t < j ==> p[k0 + t] == b[t],
            ensures
                straddle ==> (forall|t: int| 0 <= t < m ==> p[k0 + t] == b[t]),
                !straddle ==> p.subrange(k0 as int, k0 + m as int) != b.take(m as int),
            decreases m - j,
        {
            if self.pattern[k + j] != buf[j] {
                proof {
                    assert(p.subrange(k0 as int, k0 + m as int)[j as int] != b.take(m as int)[j as int]);
                }
                straddle = false;
                break;
            }
            j += 1;
        }

        if straddle {
            proof {
                assert(p.subrange(k0 as int, k0 + m as int) =~= b.take(m as int));
            }
            if k + m == plen {
                // The pattern just completed: split right after its last byte.
                self.match_offset = 0;
                let head = slice_to_vec(slice_subrange(buf, 0, m));
                let tail = slice_to_vec(slice_subrange(buf, m, blen));
                proof {
                    assert(scan_spec(p, k0, b) == ScanStep { split: Some(m as int), offset: 0nat });
                    assert((consumed0 + head@).skip(consumed0.len() - k0) =~= p.take(k0 as int)
                        + p.subrange(k0 as int, k0 + m as int)) by {
                        assert(consumed0.skip(consumed0.len() - k0) == p.take(k0 as int));
                    }
                    assert(p.take(k0 as int) + p.subrange(k0 as int, k0 + m as int) =~= p);
                    assert(ends_with(consumed0 + head@, p));
                    assert(ends_with(self.consumed(), p.take(0))) by {
                        assert(self.consumed().skip(self.consumed().len() as int) =~= p.take(0));
                    }
                }
                return ScanOutcome::Split { head, tail };
            } else {
                // The whole buffer is part of a still-incomplete match.
                proof {
                    assert(m == blen);
                    assert(b.len() < p.len());
                    assert(forall|i: int| !pattern_at(b, p, i));
                    assert(scan_spec(p, k0, b).split is None);
                    assert(scan_spec(p, k0, b).offset == k0 + m);
                    assert((consumed0 + b).skip(consumed0.len() + b.len() - (k0 + m))
                        =~= p.take(k0 as int) + b.take(m as int)) by {
                        assert(consumed0.skip(consumed0.len() - k0) == p.take(k0 as int));
                    }
                    assert(p.take(k0 as int) + p.subrange(k0 as int, k0 + m as int)
                        =~= p.take(k0 + m as int));
                    assert(ends_with(self.consumed(), p.take(k0 + m as int)));
                }
                self.match_offset = k + m;
                return ScanOutcome::NoSplit { data: slice_to_vec(buf) };
            }
        }

        // Step 2: hunt for a whole occurrence inside the buffer.
        if plen <= blen {
            let last = blen - plen;
            let mut i: usize = 0;
            while i <= last
                invariant
                    i <= last + 1,
                    last == blen - plen,
                    plen <= blen,
                    plen == p.len(),
                    blen == b.len(),
                    1 <= plen <= 4096,
                    k0 < p.len(),
                    m == straddle_len(p, k0, b),
                    p.subrange(k0 as int, k0 + m as int) != b.take(m as int),
                    self.pattern@ == p,
                    self.match_offset == k,
                    self.history@ == consumed0 + b,
                    old(self).pattern() == p,
                    old(self).pending() == k0,
                    old(self).consumed() == consumed0,
                    buf@ == b,
                    forall|t: int| 0 <= t < i ==> !pattern_at(b, p, t),
                decreases blen - i,
            {
                let mut j2: usize = 0;
                let mut hit = true;
                while j2 < plen
                    invariant_except_break
                        hit,
                    invariant
                        j2 <= plen,
                        i + plen <= blen,
                        plen == p.len(),
                        blen == b.len(),
                        self.pattern@ == p,
                        buf@ == b,
                        forall|t: int| 0 <= t < j2 ==> b[i + t] == p[t],
                    ensures
                        hit ==> (forall|t: int| 0 <= t < plen ==> b[i + t] == p[t]),
                        !hit ==> !pattern_at(b, p, i as int),
                    decreases plen - j2,
                {
                    if buf[i + j2] != self.pattern[j2] {
                        proof {
                            assert(b.subrange(i as int, i + plen as int)[j2 as int] != p[j2 as int]);
                        }
                        hit = false;
                        break;
                    }
                    j2 += 1;
                }
                if hit {
                    // Leftmost occurrence found: split right after it.
                    proof {
                        assert(b.subrange(i as int, i + plen as int) =~= p);
                        assert(pattern_at(b, p, i as int));
                        lemma_first_match_witness(b, p, 0, i as nat);
                        assert(scan_spec(p, k0, b).split == Some(i + plen as int));
                    }
                    self.match_offset = 0;
                    let pos = i + plen;
                    let head = slice_to_vec(slice_subrange(buf, 0, pos));
                    let tail = slice_to_vec(slice_subrange(buf, pos, blen));
                    proof {
                        assert((consumed0 + head@).skip(consumed0.len() + i) =~= p) by {
                            assert(head@ == b.take(pos as int));
                            assert(b.take(pos as int).skip(i as int)
                                =~= b.subrange(i as int, i + plen as int));
                        }
                        assert(ends_with(consumed0 + head@, p));
                        assert(ends_with(self.consumed(), p.take(0))) by {
                            assert(self.consumed().skip(self.consumed().len() as int) =~= p.take(0));
                        }
                    }
                    return ScanOutcome::Split { head, tail };
                }
                i += 1;
            }
            proof {
                assert(forall|t: int| !pattern_at(b, p, t));
                lemma_first_match_none(b, p, 0);
            }
        } else {
            proof {
                assert(forall|t: int| !pattern_at(b, p, t));
                lemma_first_match_none(b, p, 0);
            }
        }

        // Step 3: no occurrence; prime the next buffer with the longest
        // trailing prefix of the pattern.
        let start = if blen <= plen { blen } else { plen };
        let mut l: usize = if start == 0 { 0 } else { start - 1 };
        let ghost l0 = l as nat;
        proof {
            assert(l0 == overlap_start(b, p));
        }
        while l >= 1
            invariant
                l <= l0,
                l0 < p.len(),
                l0 <= b.len(),
                plen == p.len(),
                blen == b.len(),
                1 <= plen <= 4096,
                self.pattern@ == p,
                self.match_offset == k,
                self.history@ == consumed0 + b,
                buf@ == b,
                suffix_overlap(b, p, l0) == suffix_overlap(b, p, l as nat),
            ensures
                l >= 1 ==> (suffix_overlap(b, p, l0) == l && ends_with(b, p.take(l as int))),
                l == 0 ==> suffix_overlap(b, p, l0) == 0,
            decreases l,
        {
            let mut j3: usize = 0;
            let mut tailhit = true;
            while j3 < l
                invariant_except_break
                    tailhit,
                invariant
                    j3 <= l,
                    1 <= l <= l0,
                    l0 < p.len(),
                    l0 <= b.len(),
                    blen == b.len(),
                    self.pattern@ == p,
                    buf@ == b,
                    forall|t: int| 0 <= t < j3 ==> b[b.len() - l + t] == p[t],
                ensures
                    tailhit ==> (forall|t: int| 0 <= t < l ==> b[b.len() - l + t] == p[t]),
                    !tailhit ==> !ends_with(b, p.take(l as int)),
                decreases l - j3,
            {
                if buf[blen - l + j3] != self.pattern[j3] {
                    proof {
                        assert(b.skip(b.len() - l) [j3 as int] != p.take(l as int)[j3 as int]);
                    }
                    tailhit = false;
                    break;
                }
                j3 += 1;
            }
            if tailhit {
                proof {
                    assert(b.skip(b.len() - l) =~= p.take(l as int));
                    assert(suffix_overlap(b, p, l as nat) == l);
                }
                break;
            }
            proof {
                assert(suffix_overlap(b, p, l as nat) == suffix_overlap(b, p, (l - 1) as nat));
            }
            l -= 1;
        }
        self.match_offset = l;
        proof {
            assert(scan_spec(p, k0, b).split is None);
            assert(scan_spec(p, k0, b).offset == l);
            if l >= 1 {
                assert((consumed0 + b).skip(consumed0.len() + b.len() - l)
                    =~= b.skip(b.len() - l));
                assert(ends_with(self.consumed(), p.take(l as int)));
            } else {
                assert(self.consumed().skip(self.consumed().len() as int) =~= p.take(0));
                assert(ends_with(self.consumed(), p.take(0)));
            }
        }
        ScanOutcome::NoSplit { data: slice_to_vec(buf) }
    }
}

/// The views of a sequence of byte buffers.
pub open spec fn views(s: Seq<Vec<u8>>) -> Seq<Seq<u8>> {
    s.map_values(|v: Vec<u8>| v@)
}

/// The byte stream that a sequence of buffers carries, in order.
pub open spec fn stream_bytes(s: Seq<Vec<u8>>) -> Seq<u8> {
    views(s).flatten()
}

/// The nonempty pieces one scanned buffer is forwarded in.
pub open spec fn step_pieces(b: Seq<u8>, step: ScanStep) -> Seq<Seq<u8>> {
    match step.split {
        Some(pos) => {
            let head = b.take(pos);
            let tail = b.skip(pos);
            (if head.len() > 0 {
                seq![head]
            } else {
                Seq::empty()
            }) + (if tail.len() > 0 {
                seq![tail]
            } else {
                Seq::empty()
            })
        },
        None => if b.len() > 0 {
            seq![b]
        } else {
            Seq::empty()
        },
    }
}

/// The whole downstream-to-upstream direction of one connection: every read
/// buffer scanned in turn, yielding the forwarded pieces, the number of
/// inter-packet delays (one per split), and the pattern prefix still pending.
pub open spec fn fragment_spec(p: Seq<u8>, k: nat, buffers: Seq<Seq<u8>>) -> (
    Seq<Seq<u8>>,
    nat,
    nat,
)
    decreases buffers.len(),
{
    if buffers.len() == 0 {
        (Seq::empty(), 0, k)
    } else {
        let step = scan_spec(p, k, buffers[0]);
        let rest = fragment_spec(p, step.offset, buffers.drop_first());
        (
            step_pieces(buffers[0], step) + rest.0,
            (if step.split is Some {
                1nat
            } else {
                0nat
            }) + rest.1,
            rest.2,
        )
    }
}

/// Scans a whole connection's worth of downstream reads and returns the
/// pieces forwarded upstream, in order, together with how many inter-packet
/// delays were inserted (one after the head piece of every split).
///
/// The pieces and the delay count are exactly what the per-buffer scan
/// dictates, and the upstream byte stream equals the downstream byte stream:
/// no byte is lost, duplicated or reordered, whatever the pattern and however
/// the reads are fragmented. At most one delay is inserted per read buffer.
pub fn fragment_stream(pattern: &[u8], buffers: &Vec<Vec<u8>>) -> (r: (Vec<Vec<u8>>, usize))
    requires
        1 <= pattern@.len() <= 4096,
    ensures
        views(r.0@) == fragment_spec(pattern@, 0, views(buffers@)).0,
        r.1 == fragment_spec(pattern@, 0, views(buffers@)).1,
        stream_bytes(r.0@) == stream_bytes(buffers@),
        r.1 <= buffers@.len(),
        forall|t: int| 0 <= t < r.0@.len() ==> r.0@[t]@.len() > 0,
{
    let mut detector = Scanner::new(slice_to_vec(pattern));
    let mut pieces: Vec<Vec<u8>> = Vec::new();
    let mut delays: usize = 0;
    let mut idx: usize = 0;
    let ghost whole = fragment_spec(pattern@, 0, views(buffers@));
    proof {
        assert(views(pieces@) =~= Seq::<Seq<u8>>::empty());
        assert(views(buffers@.take(0)) =~= Seq::<Seq<u8>>::empty());
        assert(Seq::<Seq<u8>>::empty().flatten() =~= Seq::<u8>::empty());
        assert(views(buffers@).skip(0) =~= views(buffers@));
        assert(Seq::<Seq<u8>>::empty() + whole.0 =~= whole.0);
    }
    while idx < buffers.len()
        invariant
            detector.wf(),
            detector.pattern() == pattern@,
            delays <= idx <= buffers@.len(),
            whole == fragment_spec(pattern@, 0, views(buffers@)),
            stream_bytes(pieces@) == detector.consumed(),
            detector.consumed() == stream_bytes(buffers@.take(idx as int)),
            whole.0 == views(pieces@) + fragment_spec(
                pattern@,
                detector.pending(),
                views(buffers@).skip(idx as int),
            ).0,
            whole.1 == delays + fragment_spec(
                pattern@,
                detector.pending(),
                views(buffers@).skip(idx as int),
            ).1,
            forall|t: int| 0 <= t < pieces@.len() ==> pieces@[t]@.len() > 0,
        decreases buffers@.len() - idx,
    {
        let ghost k = detector.pending();
        let ghost rem = views(buffers@).skip(idx as int);
        let ghost b = buffers@[idx as int]@;
        proof {
            assert(rem[0] == b);
            assert(rem.drop_first() =~= views(buffers@).skip(idx as int + 1));
        }
        let ghost step = scan_spec(pattern@, k, b);
        let out = detector.scan(buffers[idx].as_slice());
        match out {
            ScanOutcome::Split { head, tail } => {
                proof {
                    lemma_stream_bytes_push(pieces@, head);
                    assert(head@ + tail@ =~= b);
                }
                let ghost before = views(pieces@);
                if head.len() > 0 {
                    pieces.push(head);
                }
                delays += 1;
                proof {
                    lemma_stream_bytes_push(pieces@, tail);
                    assert(views(pieces@) =~= before + (if head@.len() > 0 {
                        seq![head@]
                    } else {
                        Seq::<Seq<u8>>::empty()
                    }));
                }
                let ghost mid = views(pieces@);
                if tail.len() > 0 {
                    pieces.push(tail);
                }
                proof {
                    assert(views(pieces@) =~= mid + (if tail@.len() > 0 {
                        seq![tail@]
                    } else {
                        Seq::<Seq<u8>>::empty()
                    }));
                    assert(views(pieces@) =~= before + step_pieces(b, step));
                }
            },
            ScanOutcome::NoSplit { data } => {
                proof {
                    lemma_stream_bytes_push(pieces@, data);
                    assert(views(pieces@.push(data)) =~= views(pieces@) + seq![data@]);
                    if data.len() == 0 {
                        assert(views(pieces@) + step_pieces(b, step) =~= views(pieces@));
                    }
                }
                let ghost before = views(pieces@);
                if data.len() > 0 {
                    pieces.push(data);
                }
                proof {
                    assert(views(pieces@) =~= before + step_pieces(b, step));
                }
            },
        }
        proof {
            lemma_stream_bytes_take_step(buffers@, idx as int);
            assert(views(pieces@) + fragment_spec(pattern@, detector.pending(), rem.drop_first()).0
                =~= whole.0);
        }
        idx += 1;
    }
    proof {
        assert(buffers@.take(buffers@.len() as int) =~= buffers@);
        assert(views(buffers@).skip(buffers@.len() as int) =~= Seq::<Seq<u8>>::empty());
        assert(views(pieces@) + Seq::<Seq<u8>>::empty() =~= views(pieces@));
    }
    (pieces, delays)
}

/// Appending one buffer appends its bytes to the stream; an empty buffer
/// appends nothing.
proof fn lemma_stream_bytes_push(s: Seq<Vec<u8>>, v: Vec<u8>)
    ensures
        stream_bytes(s.push(v)) == stream_bytes(s) + v@,
        v@.len() == 0 ==> stream_bytes(s.push(v)) == stream_bytes(s),
{
    assert(views(s.push(v)) =~= views(s).push(v@));
    views(s).lemma_flatten_push(v@);
    if v@.len() == 0 {
        assert(stream_bytes(s) + v@ =~= stream_bytes(s));
    }
}

/// One more buffer of the input stream extends its bytes by that buffer.
proof fn lemma_stream_bytes_take_step(s: Seq<Vec<u8>>, i: int)
    requires
        0 <= i < s.len(),
    ensures
        stream_bytes(s.take(i + 1)) == stream_bytes(s.take(i)) + s[i]@,
{
    assert(s.take(i + 1) =~= s.take(i).push(s[i]));
    lemma_stream_bytes_push(s.take(i), s[i]);
}

} // verus!
