//! The triggered voltage ring buffer.
//!
//! The ring holds the `N = 2^v` most recently pushed payloads. A push
//! overwrites the oldest slot and advances the write index modulo `N`.
//! A dump reads the ring in time order, oldest slot first; slots never
//! written since startup read as zero payloads. Writing the snapshot to
//! a self-describing on-disk file is file-format work outside the
//! library.

use vstd::prelude::*;
use vstd::arithmetic::div_mod::{
    lemma_add_mod_noop, lemma_fundamental_div_mod, lemma_fundamental_div_mod_converse,
    lemma_mod_add_multiples_vanish, lemma_mod_bound, lemma_mod_equivalence, lemma_small_mod,
};

use crate::common::{Payload, PayloadView};

verus! {

/// The snapshot a dump of the ring denotes: entry `t` is the payload
/// pushed `N - t` pushes ago, or the zero payload where fewer than
/// `N - t` pushes have happened.
pub open spec fn dump_view(hist: Seq<PayloadView>, n: int) -> Seq<PayloadView>
    recommends
        n >= 1,
{
    Seq::new(
        n as nat,
        |t: int|
            if hist.len() + t < n {
                PayloadView::zero()
            } else {
                hist[hist.len() + t - n]
            },
    )
}

/// Fixed-capacity ring of the most recent payloads.
pub struct DumpRing {
    /// Capacity `N = 2^v`.
    pub capacity: usize,
    /// The backing slots, length `N` for the process lifetime.
    pub container: Vec<Payload>,
    /// Slot the next push writes, always `pushes % N`.
    pub write_index: usize,
    /// Every payload ever pushed, in push order.
    pub hist: Ghost<Seq<PayloadView>>,
}

impl DumpRing {
    pub open spec fn wf(self) -> bool {
        let n = self.capacity as int;
        let m = self.hist@.len() as int;
        &&& n >= 1
        &&& n <= 0x8000_0000
        &&& self.container@.len() == n
        &&& self.write_index == m % n
        &&& forall|i: int|
            m - n <= i < m && 0 <= i ==> (#[trigger] self.container@[i % n])@ == self.hist@[i]
        &&& forall|j: int| m <= j < n ==> (#[trigger] self.container@[j])@ == PayloadView::zero()
        &&& forall|i: int| 0 <= i < n ==> (#[trigger] self.container@[i])@.wf()
    }

    /// A fresh ring of capacity `2^size_power`, all slots zero. The
    /// bound on the exponent is a machine limit: a ring of `2^32`
    /// payloads would not fit in memory.
    pub fn new(size_power: u32) -> (r: DumpRing)
        requires
            size_power < 32,
        ensures
            r.wf(),
            r.capacity == (1u32 << size_power) as usize,
            r.hist@ =~= Seq::<PayloadView>::empty(),
            r.write_index == 0,
    {
        proof {
            let v = size_power;
            assert(v < 32 ==> 1u32 <= (1u32 << v) && (1u32 << v) <= 0x8000_0000u32)
                by (bit_vector);
        }
        let cap32: u32 = 1u32 << size_power;
        let cap = cap32 as usize;
        let mut container: Vec<Payload> = Vec::new();
        let mut i: usize = 0;
        while i < cap
            invariant
                i <= cap,
                container@.len() == i,
                forall|j: int| 0 <= j < i ==> (#[trigger] container@[j])@ =~= PayloadView::zero(),
            decreases cap - i,
        {
            container.push(Payload::default());
            i = i + 1;
        }
        let r = DumpRing { capacity: cap, container, write_index: 0, hist: Ghost(Seq::empty()) };
        proof {
            lemma_small_mod(0nat, cap as nat);
            assert(PayloadView::zero().wf());
        }
        r
    }

    /// Overwrite the oldest slot with `p` and advance the write index.
    pub fn push(&mut self, p: Payload)
        requires
            old(self).wf(),
            p@.wf(),
        ensures
            final(self).wf(),
            final(self).hist@ =~= old(self).hist@.push(p@),
            final(self).capacity == old(self).capacity,
    {
        let ghost s0 = *old(self);
        let ghost n = self.capacity as int;
        let ghost m = self.hist@.len() as int;
        let ghost p0 = p;
        let w = self.write_index;
        proof {
            lemma_mod_bound(m, n);
            self.hist = Ghost(self.hist@.push(p@));
        }
        self.container[w] = p;
        // advance modulo the capacity
        if self.write_index + 1 == self.capacity {
            self.write_index = 0;
            proof {
                lemma_fundamental_div_mod(m, n);
                assert((m / n) * n + n == (m / n + 1) * n) by (nonlinear_arith);
                lemma_fundamental_div_mod_converse(m + 1, n, m / n + 1, 0);
            }
        } else {
            self.write_index = self.write_index + 1;
            proof {
                lemma_fundamental_div_mod(m, n);
                assert(n * (m / n) == (m / n) * n) by (nonlinear_arith);
                lemma_fundamental_div_mod_converse(m + 1, n, m / n, m % n + 1);
            }
        }
        proof {
            let h1 = self.hist@;
            assert forall|i: int|
                m + 1 - n <= i < m + 1 && 0 <= i implies (#[trigger] self.container@[i % n])@
                == h1[i] by {
                if i == m {
                    lemma_small_mod((m % n) as nat, n as nat);
                    assert((m % n) % n == m % n);
                } else {
                    lemma_mod_ne_in_window(i, m, n);
                    lemma_mod_bound(i, n);
                    assert(self.container@[i % n] == s0.container@[i % n]);
                }
            }
            assert forall|j: int| m + 1 <= j < n implies (#[trigger] self.container@[j])@
                == PayloadView::zero() by {
                lemma_small_mod(m as nat, n as nat);
                assert(self.container@[j] == s0.container@[j]);
            }
            assert(self.wf());
        }
    }

    /// Read the ring in time order, oldest slot first: the dump that a
    /// trigger streams to disk.
    #[verifier::loop_isolation(false)]
    pub fn dump(&self) -> (out: Vec<Payload>)
        requires
            self.wf(),
        ensures
            out@.len() == self.capacity,
            forall|t: int| 0 <= t < self.capacity ==> (#[trigger] out@[t])@ == dump_view(
                self.hist@,
                self.capacity as int,
            )[t],
    {
        let ghost n = self.capacity as int;
        let ghost m = self.hist@.len() as int;
        let mut out: Vec<Payload> = Vec::new();
        let mut t: usize = 0;
        while t < self.capacity
            invariant
                t <= self.capacity,
                self.wf(),
                out@.len() == t,
                forall|q: int| 0 <= q < t ==> (#[trigger] out@[q])@ == dump_view(
                    self.hist@,
                    self.capacity as int,
                )[q],
            decreases self.capacity - t,
        {
            let idx = (self.write_index + t) % self.capacity;
            proof {
                lemma_mod_bound(self.write_index + t, n);
                lemma_add_mod_noop(m, t as int, n);
                lemma_small_mod(t as nat, n as nat);
                assert(idx == (m + t) % n);
                if m + t < n {
                    lemma_small_mod((m + t) as nat, n as nat);
                    assert(idx == m + t);
                } else {
                    let i = m + t - n;
                    lemma_mod_add_multiples_vanish(i, n);
                    assert((m + t) % n == i % n);
                }
            }
            out.push(self.container[idx].duplicate());
            t = t + 1;
        }
        out
    }
}

/// Two indices less than one period apart have different remainders.
proof fn lemma_mod_ne_in_window(i: int, m: int, n: int)
    requires
        n >= 1,
        m - n < i < m,
    ensures
        i % n != m % n,
{
    lemma_mod_equivalence(i, m, n);
    lemma_mod_add_multiples_vanish(i - m, n);
    lemma_small_mod((i - m + n) as nat, n as nat);
}

/// After at least `N` pushes, a dump yields exactly the last `N`
/// pushed payloads, in push order.
pub proof fn lemma_dump_full(hist: Seq<PayloadView>, n: int)
    requires
        n >= 1,
        hist.len() >= n,
    ensures
        dump_view(hist, n) =~= hist.subrange(hist.len() - n, hist.len() as int),
{
}

/// After fewer than `N` pushes, the first `N - M` dump entries are
/// zero payloads and the rest are the `M` pushes in order.
pub proof fn lemma_dump_partial(hist: Seq<PayloadView>, n: int)
    requires
        n >= 1,
        hist.len() < n,
    ensures
        dump_view(hist, n) =~= Seq::new((n - hist.len()) as nat, |t: int| PayloadView::zero())
            + hist,
{
}

} // verus!
