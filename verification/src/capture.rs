//! Packet-ordering front end.
//!
//! The capture socket hands the machine one payload per datagram, in
//! arrival order. The machine enforces monotonic delivery with a
//! bounded reorder window: a payload at the expected count is forwarded
//! at once together with any consecutive run it releases from the
//! backlog; a payload from the past is dropped; a payload running
//! moderately ahead waits in the backlog; a payload far in the future
//! flushes the backlog and restarts the sequence at its own count.

use vstd::prelude::*;

use crate::common::{Payload, PAYLOAD_SIZE};

verus! {

/// How far ahead of the next expected count a payload may run and
/// still wait in the backlog.
pub const BACKLOG_BUFFER_PAYLOADS: u64 = 1024;

/// Errors that captures can produce.
#[derive(Debug)]
pub enum Error {
    /// A datagram arrived whose length was not `PAYLOAD_SIZE`.
    SizeMismatch(usize),
    /// The socket receive buffer could not be set to the requested
    /// size; check `sysctl net.core.rmem_max`.
    SetRecvBufferFailed { expected: usize, found: usize },
}

/// Counters pushed periodically to the monitoring thread.
#[derive(Clone, Copy, Debug, Default)]
pub struct Stats {
    pub drops: u64,
    pub processed: u64,
    pub shuffled: u64,
}

/// A datagram of any length other than `PAYLOAD_SIZE` is a fatal
/// protocol error.
pub fn check_datagram_len(n: usize) -> (r: Result<(), Error>)
    ensures
        r is Ok <==> n == PAYLOAD_SIZE,
        r is Err ==> r == Err::<(), Error>(Error::SizeMismatch(n)),
{
    if n == PAYLOAD_SIZE {
        Ok(())
    } else {
        Err(Error::SizeMismatch(n))
    }
}

/// Setting the socket receive buffer must be confirmed by the kernel;
/// any other reported size is a fatal startup error.
pub fn check_recv_buffer(expected: usize, found: usize) -> (r: Result<(), Error>)
    ensures
        r is Ok <==> found == expected,
        r is Err ==> r == Err::<(), Error>(Error::SetRecvBufferFailed { expected, found }),
{
    if found == expected {
        Ok(())
    } else {
        Err(Error::SetRecvBufferFailed { expected, found })
    }
}

/// Length of the consecutive run at the head of the backlog that a new
/// next-expected count `next` releases.
pub open spec fn drain_count(b: Seq<Payload>, next: int) -> int
    decreases b.len(),
{
    if b.len() > 0 && b[0].count == next {
        1 + drain_count(b.drop_first(), next + 1)
    } else {
        0
    }
}

/// Index at which a payload of count `c` enters a backlog sorted by
/// count: the first slot whose count is not below `c`.
pub open spec fn insert_pos(b: Seq<Payload>, c: u64) -> int
    decreases b.len(),
{
    if b.len() == 0 {
        0
    } else if b[0].count >= c {
        0
    } else {
        1 + insert_pos(b.drop_first(), c)
    }
}

/// The backlog after inserting `p`, keeping counts sorted and unique;
/// a payload with an already-present count replaces the old entry.
pub open spec fn backlog_insert(b: Seq<Payload>, p: Payload) -> Seq<Payload> {
    let pos = insert_pos(b, p.count);
    if pos < b.len() && b[pos].count == p.count {
        b.update(pos, p)
    } else {
        b.take(pos) + seq![p] + b.skip(pos)
    }
}

/// The ordering state machine of the capture front end.
pub struct Capture {
    /// True until the first payload has been accepted.
    pub first_payload: bool,
    /// The count the machine will forward next.
    pub next_expected_count: u64,
    /// Payloads that ran ahead, sorted by count, waiting for the gap
    /// before them to fill.
    pub backlog: Vec<Payload>,
    /// Counts skipped over by far-future jumps.
    pub drops: u64,
    /// Payloads from the past that were dropped.
    pub shuffled: u64,
    /// Payloads handled in total.
    pub processed: u64,
    /// Count of the first payload ever accepted, recorded once for
    /// later wall-clock alignment.
    pub first_count: u64,
    /// All payloads ever handed to the machine, in arrival order.
    pub arrivals: Ghost<Seq<Payload>>,
    /// All payloads ever forwarded downstream, in emission order.
    pub emitted: Ghost<Seq<Payload>>,
    /// Backlog entries thrown away by far-future flushes.
    pub discarded: Ghost<nat>,
}

impl Capture {
    pub open spec fn wf(self) -> bool {
        let b = self.backlog@;
        let em = self.emitted@;
        &&& forall|i: int, j: int|
            0 <= i < j < b.len() ==> #[trigger] b[i].count < #[trigger] b[j].count
        &&& forall|i: int| 0 <= i < b.len() ==> (#[trigger] b[i])@.wf()
        &&& forall|i: int| 0 <= i < b.len() ==> #[trigger] b[i].count < u64::MAX
        &&& forall|i: int|
            0 <= i < b.len() ==> self.next_expected_count < #[trigger] b[i].count
                && b[i].count <= self.next_expected_count + BACKLOG_BUFFER_PAYLOADS
        &&& forall|i: int| 0 <= i < b.len() ==> self.arrivals@.contains(#[trigger] b[i])
        &&& forall|i: int| 0 <= i < em.len() ==> self.arrivals@.contains(#[trigger] em[i])
        &&& forall|i: int| 0 <= i < em.len() ==> (#[trigger] em[i])@.wf()
        &&& forall|i: int, j: int|
            0 <= i < j < em.len() ==> #[trigger] em[i].count < #[trigger] em[j].count
        &&& self.processed == self.arrivals@.len()
        &&& em.len() + self.shuffled + self.discarded@ + b.len() == self.arrivals@.len()
        &&& if self.first_payload {
            self.arrivals@.len() == 0 && self.drops == 0
        } else {
            &&& em.len() > 0
            &&& em.last().count == self.next_expected_count - 1
            &&& self.first_count <= self.next_expected_count
            &&& self.drops + em.len() == self.next_expected_count - self.first_count
        }
    }

    /// A fresh machine that has seen nothing.
    pub fn new() -> (c: Capture)
        ensures
            c.wf(),
            c.first_payload,
            c.arrivals@ =~= Seq::<Payload>::empty(),
            c.emitted@ =~= Seq::<Payload>::empty(),
            c.drops == 0 && c.shuffled == 0 && c.processed == 0,
    {
        Capture {
            first_payload: true,
            next_expected_count: 0,
            backlog: Vec::new(),
            drops: 0,
            shuffled: 0,
            processed: 0,
            first_count: 0,
            arrivals: Ghost(Seq::empty()),
            emitted: Ghost(Seq::empty()),
            discarded: Ghost(0nat),
        }
    }

    /// The counters as a monitoring record.
    pub fn stats(&self) -> (s: Stats)
        ensures
            s.drops == self.drops && s.processed == self.processed && s.shuffled == self.shuffled,
    {
        Stats { drops: self.drops, processed: self.processed, shuffled: self.shuffled }
    }

    /// Feed one arriving payload to the machine; the returned payloads
    /// are what it forwards downstream, in order.
    ///
    /// The two count bounds are machine limits: at the steady packet
    /// cadence a `u64` of packets outlives the hardware by far.
    #[verifier::loop_isolation(false)]
    pub fn accept(&mut self, p: Payload) -> (out: Vec<Payload>)
        requires
            old(self).wf(),
            p@.wf(),
            p.count < u64::MAX,
            old(self).processed < u64::MAX,
        ensures
            final(self).wf(),
            final(self).arrivals@ =~= old(self).arrivals@.push(p),
            final(self).processed == old(self).processed + 1,
            final(self).emitted@ =~= old(self).emitted@ + out@,
            final(self).first_payload == false,
            ({
                let c = p.count;
                let s = *old(self);
                let t = *final(self);
                if s.first_payload {
                    &&& out@ =~= seq![p]
                    &&& t.next_expected_count == c + 1
                    &&& t.first_count == c
                    &&& t.backlog@ =~= s.backlog@
                    &&& t.drops == s.drops && t.shuffled == s.shuffled
                } else if c == s.next_expected_count {
                    let k = drain_count(s.backlog@, c + 1);
                    &&& out@ =~= seq![p] + s.backlog@.take(k)
                    &&& t.backlog@ =~= s.backlog@.skip(k)
                    &&& t.next_expected_count == c + 1 + k
                    &&& t.drops == s.drops && t.shuffled == s.shuffled
                    &&& t.first_count == s.first_count
                } else if c < s.next_expected_count {
                    &&& out@ =~= Seq::<Payload>::empty()
                    &&& t.shuffled == s.shuffled + 1
                    &&& t.drops == s.drops
                    &&& t.backlog@ =~= s.backlog@
                    &&& t.next_expected_count == s.next_expected_count
                    &&& t.first_count == s.first_count
                } else if c <= s.next_expected_count + BACKLOG_BUFFER_PAYLOADS {
                    &&& out@ =~= Seq::<Payload>::empty()
                    &&& t.backlog@ =~= backlog_insert(s.backlog@, p)
                    &&& t.drops == s.drops && t.shuffled == s.shuffled
                    &&& t.next_expected_count == s.next_expected_count
                    &&& t.first_count == s.first_count
                } else {
                    &&& out@ =~= seq![p]
                    &&& t.backlog@ =~= Seq::<Payload>::empty()
                    &&& t.next_expected_count == c + 1
                    &&& t.drops == s.drops + (c - s.next_expected_count)
                    &&& t.shuffled == s.shuffled
                    &&& t.first_count == s.first_count
                }
            }),
    {
        let ghost p0 = p;
        let ghost s0 = *old(self);
        proof {
            self.arrivals = Ghost(self.arrivals@.push(p0));
            lemma_contains_after_push(s0.backlog@, s0.arrivals@, p0);
            lemma_contains_after_push(s0.emitted@, s0.arrivals@, p0);
            assert(self.arrivals@.last() == p0);
            assert(self.arrivals@.contains(p0));
        }
        self.processed = self.processed + 1;
        let c = p.count;
        if self.first_payload {
            self.first_payload = false;
            self.first_count = c;
            self.next_expected_count = c + 1;
            proof {
                self.emitted = Ghost(self.emitted@.push(p0));
            }
            let mut out: Vec<Payload> = Vec::new();
            out.push(p);
            proof {
                assert(s0.emitted@.len() == 0);
                assert(s0.backlog@.len() == 0);
                assert(self.emitted@ =~= s0.emitted@ + out@);
                assert(self.emitted@[0] == p0);
                assert(self.wf());
            }
            out
        } else if c == self.next_expected_count {
            self.next_expected_count = c + 1;
            proof {
                self.emitted = Ghost(self.emitted@.push(p0));
            }
            let mut out: Vec<Payload> = Vec::new();
            out.push(p);
            let ghost b0 = s0.backlog@;
            let ghost em1 = self.emitted@;
            let mut j: usize = 0;
            while self.backlog.len() > 0 && self.backlog[0].count == self.next_expected_count
                invariant
                    j <= b0.len(),
                    self.backlog@ =~= b0.skip(j as int),
                    forall|i: int| 0 <= i < j ==> #[trigger] b0[i].count == c + 1 + i,
                    self.next_expected_count == c + 1 + j,
                    out@ =~= seq![p0] + b0.take(j as int),
                    self.emitted@ =~= em1 + b0.take(j as int),
                    self.first_payload == false,
                    self.drops == s0.drops,
                    self.shuffled == s0.shuffled,
                    self.processed == s0.processed + 1,
                    self.first_count == s0.first_count,
                    self.arrivals@ =~= s0.arrivals@.push(p0),
                    self.discarded@ == s0.discarded@,
                decreases b0.len() - j,
            {
                let q = self.backlog.remove(0);
                self.next_expected_count = self.next_expected_count + 1;
                proof {
                    self.emitted = Ghost(self.emitted@.push(q));
                    assert(q == b0[j as int]);
                    assert(b0.take(j as int).push(q) =~= b0.take(j + 1));
                    assert(self.backlog@ =~= b0.skip(j + 1));
                }
                out.push(q);
                j = j + 1;
            }
            proof {
                lemma_drain_count_unique(b0, c as int + 1, j as int);
                lemma_sorted_skip_bound(b0, c as int, j as int);
                assert(self.emitted@ =~= s0.emitted@ + out@);
                lemma_take_contains(b0, self.arrivals@, j as int);
                lemma_skip_wf(b0, self.arrivals@, j as int);
                let em = self.emitted@;
                let n0 = s0.emitted@.len() as int;
                assert forall|i: int|
                    0 <= i < em.len() implies self.arrivals@.contains(#[trigger] em[i])
                    && em[i]@.wf() && (if i < n0 {
                    em[i].count <= c - 1
                } else {
                    em[i].count == c + (i - n0)
                }) by {
                    if i < n0 {
                        assert(em[i] == s0.emitted@[i]);
                        if i < n0 - 1 {
                            assert(s0.emitted@[i].count < s0.emitted@[n0 - 1].count);
                        }
                        assert(s0.emitted@.last().count == c - 1);
                    } else if i == n0 {
                        assert(em[i] == p0);
                    } else {
                        assert(em[i] == b0.take(j as int)[i - n0 - 1]);
                        assert(b0.take(j as int)[i - n0 - 1] == b0[i - n0 - 1]);
                    }
                }
                assert forall|i: int, k: int|
                    0 <= i < k < em.len() implies #[trigger] em[i].count
                    < #[trigger] em[k].count by {
                    if i < n0 && k < n0 {
                        assert(em[i] == s0.emitted@[i] && em[k] == s0.emitted@[k]);
                    }
                }
                assert(em.last() == em[em.len() - 1]);
                assert(em.last().count == self.next_expected_count - 1);
                let b1 = self.backlog@;
                assert forall|i: int|
                    0 <= i < b1.len() implies (#[trigger] b1[i]).count < u64::MAX && b1[i].count
                    <= self.next_expected_count + BACKLOG_BUFFER_PAYLOADS by {
                    assert(b1[i] == b0[i + j]);
                }
                assert forall|i: int, k: int|
                    0 <= i < k < b1.len() implies #[trigger] b1[i].count
                    < #[trigger] b1[k].count by {
                    assert(b1[i] == b0[i + j] && b1[k] == b0[k + j]);
                }
                assert(self.wf());
            }
            out
        } else if c < self.next_expected_count {
            self.shuffled = self.shuffled + 1;
            let out: Vec<Payload> = Vec::new();
            proof {
                assert(self.emitted@ =~= s0.emitted@ + out@);
                assert(self.wf());
            }
            out
        } else if c - self.next_expected_count <= BACKLOG_BUFFER_PAYLOADS {
            let ghost b0 = s0.backlog@;
            let mut pos: usize = 0;
            while pos < self.backlog.len() && self.backlog[pos].count < c
                invariant
                    pos <= b0.len(),
                    self.backlog@ =~= b0,
                    forall|i: int| 0 <= i < pos ==> #[trigger] b0[i].count < c,
                    forall|i: int, k: int|
                        0 <= i < k < b0.len() ==> #[trigger] b0[i].count < #[trigger] b0[k].count,
                decreases b0.len() - pos,
            {
                pos = pos + 1;
            }
            proof {
                lemma_insert_pos_unique(b0, c, pos as int);
            }
            if pos < self.backlog.len() && self.backlog[pos].count == c {
                // A payload with this count already waits here; the
                // newcomer replaces it and the old entry is discarded.
                self.backlog[pos] = p;
                proof {
                    self.discarded = Ghost((self.discarded@ + 1) as nat);
                    assert(self.backlog@ =~= backlog_insert(b0, p0));
                    lemma_update_preserves_contains(b0, self.arrivals@, pos as int, p0);
                    let b1 = self.backlog@;
                    assert forall|i: int, k: int|
                        0 <= i < k < b1.len() implies #[trigger] b1[i].count
                        < #[trigger] b1[k].count by {
                        assert(b1[i].count == b0[i].count && b1[k].count == b0[k].count);
                    }
                    assert forall|i: int|
                        0 <= i < b1.len() implies (#[trigger] b1[i])@.wf() && b1[i].count
                        < u64::MAX && self.next_expected_count < b1[i].count && b1[i].count
                        <= self.next_expected_count + BACKLOG_BUFFER_PAYLOADS by {
                        if i != pos {
                            assert(b1[i] == b0[i]);
                        }
                    }
                }
            } else {
                self.backlog.insert(pos, p);
                proof {
                    assert(self.backlog@ =~= b0.take(pos as int) + seq![p0] + b0.skip(pos as int));
                    assert(self.backlog@ =~= backlog_insert(b0, p0));
                    lemma_insert_preserves_contains(b0, self.arrivals@, pos as int, p0);
                    let b1 = self.backlog@;
                    assert forall|i: int|
                        0 <= i < b1.len() implies (#[trigger] b1[i])@.wf() && b1[i].count
                        < u64::MAX && self.next_expected_count < b1[i].count && b1[i].count
                            <= self.next_expected_count + BACKLOG_BUFFER_PAYLOADS && (if i
                            < pos {
                        b1[i] == b0[i]
                    } else if i == pos {
                        b1[i] == p0
                    } else {
                        b1[i] == b0[i - 1]
                    }) by {
                        if i < pos {
                            assert(b1[i] == b0[i]);
                        } else if i == pos {
                            assert(b1[i] == p0);
                        } else {
                            assert(b1[i] == b0[i - 1]);
                        }
                    }
                    assert forall|i: int, k: int|
                        0 <= i < k < b1.len() implies #[trigger] b1[i].count
                        < #[trigger] b1[k].count by {
                        if pos < b0.len() {
                            assert(b0[pos as int].count > c);
                        }
                    }
                }
            }
            let out: Vec<Payload> = Vec::new();
            proof {
                assert(self.emitted@ =~= s0.emitted@ + out@);
                assert(self.wf());
            }
            out
        } else {
            // Far-future jump: every count from the expected one up to
            // (but not including) the incoming one is recorded dropped;
            // whatever waited in the backlog lay inside that gap and is
            // discarded with it.
            proof {
                self.discarded = Ghost((self.discarded@ + self.backlog@.len()) as nat);
            }
            self.backlog.clear();
            self.drops = self.drops + (c - self.next_expected_count);
            self.next_expected_count = c + 1;
            proof {
                self.emitted = Ghost(self.emitted@.push(p0));
            }
            let mut out: Vec<Payload> = Vec::new();
            out.push(p);
            proof {
                assert(self.emitted@ =~= s0.emitted@ + out@);
                let em = self.emitted@;
                let n0 = s0.emitted@.len() as int;
                assert(em[n0] == p0);
                assert forall|i: int, k: int|
                    0 <= i < k < em.len() implies #[trigger] em[i].count
                    < #[trigger] em[k].count by {
                    if k < n0 {
                        assert(em[i] == s0.emitted@[i] && em[k] == s0.emitted@[k]);
                    } else {
                        assert(em[i] == s0.emitted@[i]);
                        if i < n0 - 1 {
                            assert(s0.emitted@[i].count < s0.emitted@[n0 - 1].count);
                        }
                        assert(s0.emitted@.last().count == s0.next_expected_count - 1);
                    }
                }
                assert(em.last() == em[em.len() - 1]);
                assert(self.wf());
            }
            out
        }
    }
}

/// For any sequence of arrivals fed to a well-formed capture machine:
/// the forwarded payloads have strictly increasing counts; each of them
/// is one of the arrivals (the machine invents none); every arrival is
/// accounted for exactly once — forwarded, dropped as an anachronism,
/// discarded in a far-future flush, or still waiting in the backlog;
/// and every count between the first accepted one and the next
/// expected one was either forwarded or recorded in the drop counter.
pub proof fn lemma_capture_accounting(cap: Capture)
    requires
        cap.wf(),
    ensures
        forall|i: int, j: int|
            0 <= i < j < cap.emitted@.len() ==> #[trigger] cap.emitted@[i].count
                < #[trigger] cap.emitted@[j].count,
        forall|i: int|
            0 <= i < cap.emitted@.len() ==> cap.arrivals@.contains(#[trigger] cap.emitted@[i]),
        cap.emitted@.len() + cap.shuffled + cap.discarded@ + cap.backlog@.len()
            == cap.arrivals@.len(),
        !cap.first_payload ==> cap.drops + cap.emitted@.len() == cap.next_expected_count
            - cap.first_count,
{
}

/// Membership in a sequence survives pushing another element.
proof fn lemma_contains_after_push(b: Seq<Payload>, arr: Seq<Payload>, p: Payload)
    requires
        forall|i: int| 0 <= i < b.len() ==> arr.contains(#[trigger] b[i]),
    ensures
        forall|i: int| 0 <= i < b.len() ==> arr.push(p).contains(#[trigger] b[i]),
{
    assert forall|i: int| 0 <= i < b.len() implies arr.push(p).contains(b[i]) by {
        let j = choose|j: int| 0 <= j < arr.len() && arr[j] == b[i];
        assert(arr.push(p)[j] == b[i]);
    }
}

/// The first `n` elements of a sequence whose elements a set contains
/// are still contained.
proof fn lemma_take_contains(b: Seq<Payload>, arr: Seq<Payload>, n: int)
    requires
        0 <= n <= b.len(),
        forall|i: int| 0 <= i < b.len() ==> arr.contains(#[trigger] b[i]),
    ensures
        forall|i: int| 0 <= i < n ==> arr.contains(#[trigger] b.take(n)[i]),
{
    assert forall|i: int| 0 <= i < n implies arr.contains(b.take(n)[i]) by {
        assert(b.take(n)[i] == b[i]);
    }
}

/// Containment and well-formedness restricted to a suffix.
proof fn lemma_skip_wf(b: Seq<Payload>, arr: Seq<Payload>, n: int)
    requires
        0 <= n <= b.len(),
        forall|i: int| 0 <= i < b.len() ==> arr.contains(#[trigger] b[i]),
        forall|i: int| 0 <= i < b.len() ==> (#[trigger] b[i])@.wf(),
    ensures
        forall|i: int| 0 <= i < b.len() - n ==> arr.contains(#[trigger] b.skip(n)[i]),
        forall|i: int| 0 <= i < b.len() - n ==> (#[trigger] b.skip(n)[i])@.wf(),
{
    assert forall|i: int| 0 <= i < b.len() - n implies arr.contains(b.skip(n)[i]) && (b.skip(
        n,
    )[i])@.wf() by {
        assert(b.skip(n)[i] == b[i + n]);
    }
}

/// Updating one backlog slot with a payload from the arrivals keeps
/// every slot contained in the arrivals.
proof fn lemma_update_preserves_contains(b: Seq<Payload>, arr: Seq<Payload>, pos: int, p: Payload)
    requires
        0 <= pos < b.len(),
        arr.contains(p),
        forall|i: int| 0 <= i < b.len() ==> arr.contains(#[trigger] b[i]),
    ensures
        forall|i: int| 0 <= i < b.len() ==> arr.contains(#[trigger] b.update(pos, p)[i]),
{
    assert forall|i: int| 0 <= i < b.len() implies arr.contains(b.update(pos, p)[i]) by {
        if i != pos {
            assert(b.update(pos, p)[i] == b[i]);
        }
    }
}

/// Inserting a payload from the arrivals keeps every slot contained in
/// the arrivals.
proof fn lemma_insert_preserves_contains(b: Seq<Payload>, arr: Seq<Payload>, pos: int, p: Payload)
    requires
        0 <= pos <= b.len(),
        arr.contains(p),
        forall|i: int| 0 <= i < b.len() ==> arr.contains(#[trigger] b[i]),
    ensures
        forall|i: int|
            0 <= i < b.len() + 1 ==> arr.contains(
                #[trigger] (b.take(pos) + seq![p] + b.skip(pos))[i],
            ),
{
    let r = b.take(pos) + seq![p] + b.skip(pos);
    assert forall|i: int| 0 <= i < b.len() + 1 implies arr.contains(r[i]) by {
        if i < pos {
            assert(r[i] == b[i]);
        } else if i == pos {
            assert(r[i] == p);
        } else {
            assert(r[i] == b[i - 1]);
        }
    }
}

/// A drain that stopped is exactly `drain_count` long: the prefix it
/// removed was consecutive, and the next entry (if any) does not
/// continue the run.
proof fn lemma_drain_count_unique(b: Seq<Payload>, next: int, j: int)
    requires
        0 <= j <= b.len(),
        forall|i: int| 0 <= i < j ==> #[trigger] b[i].count == next + i,
        j < b.len() ==> b[j].count != next + j,
    ensures
        j == drain_count(b, next),
    decreases b.len(),
{
    if j == 0 {
        if b.len() > 0 {
            assert(b[0].count != next);
        }
    } else {
        assert(b[0].count == next);
        assert forall|i: int| 0 <= i < j - 1 implies #[trigger] b.drop_first()[i].count == next + 1
            + i by {
            assert(b.drop_first()[i] == b[i + 1]);
        }
        if j - 1 < b.drop_first().len() {
            assert(b.drop_first()[j - 1] == b[j]);
        }
        lemma_drain_count_unique(b.drop_first(), next + 1, j - 1);
    }
}

/// After removing a consecutive prefix of length `j` released by count
/// `c + 1`, every remaining backlog entry still lies strictly above the
/// new next expected count `c + 1 + j`.
proof fn lemma_sorted_skip_bound(b: Seq<Payload>, c: int, j: int)
    requires
        0 <= j <= b.len(),
        forall|i: int, k: int| 0 <= i < k < b.len() ==> #[trigger] b[i].count < #[trigger] b[k].count,
        forall|i: int| 0 <= i < b.len() ==> c < #[trigger] b[i].count,
        forall|i: int| 0 <= i < j ==> #[trigger] b[i].count == c + 1 + i,
        j < b.len() ==> b[j].count != c + 1 + j,
    ensures
        forall|i: int| 0 <= i < b.len() - j ==> c + 1 + j < #[trigger] b.skip(j)[i].count,
{
    assert forall|i: int| 0 <= i < b.len() - j implies c + 1 + j < b.skip(j)[i].count by {
        assert(b.skip(j)[i] == b[i + j]);
        lemma_sorted_min_gap(b, c, j + i);
        if i == 0 {
            assert(b[j].count != c + 1 + j);
        } else {
            assert(b[j + i].count > b[j].count);
            lemma_sorted_min_gap(b, c, j);
            assert(b[j].count >= c + 1 + j);
        }
    }
}

/// In a strictly sorted backlog whose counts all exceed `c`, the entry
/// at index `i` is at least `c + 1 + i`.
proof fn lemma_sorted_min_gap(b: Seq<Payload>, c: int, i: int)
    requires
        0 <= i < b.len(),
        forall|x: int, y: int| 0 <= x < y < b.len() ==> #[trigger] b[x].count < #[trigger] b[y].count,
        forall|x: int| 0 <= x < b.len() ==> c < #[trigger] b[x].count,
    ensures
        b[i].count >= c + 1 + i,
    decreases i,
{
    if i > 0 {
        lemma_sorted_min_gap(b, c, i - 1);
        assert(b[i - 1].count < b[i].count);
    }
}

/// A scan that stopped at `pos` found exactly `insert_pos`.
proof fn lemma_insert_pos_unique(b: Seq<Payload>, c: u64, pos: int)
    requires
        0 <= pos <= b.len(),
        forall|i: int| 0 <= i < pos ==> #[trigger] b[i].count < c,
        pos < b.len() ==> b[pos].count >= c,
    ensures
        pos == insert_pos(b, c),
    decreases b.len(),
{
    if pos == 0 {
    } else {
        assert(b[0].count < c);
        assert forall|i: int| 0 <= i < pos - 1 implies #[trigger] b.drop_first()[i].count < c by {
            assert(b.drop_first()[i] == b[i + 1]);
        }
        if pos - 1 < b.drop_first().len() {
            assert(b.drop_first()[pos - 1] == b[pos]);
        }
        lemma_insert_pos_unique(b.drop_first(), c, pos - 1);
    }
}

} // verus!
