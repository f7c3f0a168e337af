//! Stokes-I downsampling: every payload becomes a Stokes-I vector, and
//! `D = 2^d` consecutive vectors are summed into one emitted window.
//!
//! All accumulation is exact integer arithmetic on the Q8.14 Stokes
//! numerators. The divide by `D * 2^14` that turns an emitted window
//! into the elementwise mean of fractional Stokes values is exact in
//! binary floating point and is performed outside the library, at the
//! exfil edge.

use vstd::prelude::*;
use vstd::arithmetic::div_mod::{
    lemma_fundamental_div_mod, lemma_fundamental_div_mod_converse, lemma_mod_bound,
};
use vstd::arithmetic::mul::lemma_mul_inequality;

use crate::common::{PayloadView, Payload, CHANNELS};

verus! {

/// Elementwise sum of two channel vectors.
pub open spec fn seq_add(a: Seq<int>, b: Seq<int>) -> Seq<int> {
    Seq::new(a.len(), |i: int| a[i] + b[i])
}

/// Elementwise sum of the Stokes-I numerators of a run of payloads.
pub open spec fn window_sum(ps: Seq<PayloadView>) -> Seq<int>
    decreases ps.len(),
{
    if ps.len() == 0 {
        Seq::new(CHANNELS as nat, |i: int| 0)
    } else {
        seq_add(window_sum(ps.drop_last()), ps.last().stokes())
    }
}

/// The windows a payload sequence yields under window length `d`:
/// window `j` covers payloads `j*d .. (j+1)*d`.
pub open spec fn windows_of(ps: Seq<PayloadView>, d: int) -> Seq<Seq<int>>
    recommends
        d >= 1,
{
    Seq::new((ps.len() as int / d) as nat, |j: int| window_sum(ps.subrange(j * d, (j + 1) * d)))
}

/// Every Stokes-I numerator lies in `[0, 65536]`.
pub proof fn lemma_stokes_bound(p: PayloadView)
    requires
        p.wf(),
    ensures
        forall|i: int| 0 <= i < CHANNELS ==> 0 <= #[trigger] p.stokes()[i] <= 65536,
{
    assert forall|i: int| 0 <= i < CHANNELS implies 0 <= #[trigger] p.stokes()[i] <= 65536 by {
        let a = p.pol_a[i];
        let b = p.pol_b[i];
        assert(0 <= a.re * a.re <= 16384 && 0 <= a.im * a.im <= 16384 && 0 <= b.re * b.re <= 16384
            && 0 <= b.im * b.im <= 16384) by (nonlinear_arith)
            requires
                -128 <= a.re <= 127,
                -128 <= a.im <= 127,
                -128 <= b.re <= 127,
                -128 <= b.im <= 127,
        ;
    }
}

/// The window sum of a run is bounded by its length times the
/// per-payload bound.
pub proof fn lemma_window_sum_bound(ps: Seq<PayloadView>)
    requires
        forall|i: int| 0 <= i < ps.len() ==> (#[trigger] ps[i]).wf(),
    ensures
        window_sum(ps).len() == CHANNELS,
        forall|i: int|
            0 <= i < CHANNELS ==> 0 <= #[trigger] window_sum(ps)[i] <= ps.len() * 65536,
    decreases ps.len(),
{
    if ps.len() == 0 {
    } else {
        lemma_window_sum_bound(ps.drop_last());
        lemma_stokes_bound(ps.last());
        assert forall|i: int|
            0 <= i < CHANNELS implies 0 <= #[trigger] window_sum(ps)[i] <= ps.len() * 65536 by {
            assert(window_sum(ps)[i] == window_sum(ps.drop_last())[i] + ps.last().stokes()[i]);
            assert((ps.len() - 1) * 65536 + 65536 == ps.len() * 65536) by (nonlinear_arith);
        }
    }
}

/// The time-domain downsampler: accumulates the Stokes-I numerators of
/// `window` consecutive payloads and emits each finished sum.
pub struct Downsampler {
    /// Number of payloads per emitted window, `D = 2^d`.
    pub window: u32,
    /// Per-channel running sums over the current, unfinished window.
    pub acc: Vec<u32>,
    /// How many payloads the current window holds so far.
    pub count: u32,
    /// Every payload fed so far, in order.
    pub hist: Ghost<Seq<PayloadView>>,
    /// Every window emitted so far, in order.
    pub emitted: Ghost<Seq<Seq<int>>>,
}

impl Downsampler {
    pub open spec fn wf(self) -> bool {
        let d = self.window as int;
        let tail = self.hist@.skip(self.hist@.len() - self.count);
        &&& 1 <= self.window <= 512
        &&& self.acc@.len() == CHANNELS
        &&& forall|i: int| 0 <= i < self.hist@.len() ==> (#[trigger] self.hist@[i]).wf()
        &&& self.count == self.hist@.len() as int % d
        &&& forall|i: int| 0 <= i < CHANNELS ==> #[trigger] self.acc@[i] == window_sum(tail)[i]
        &&& self.emitted@ == windows_of(self.hist@, d)
    }

    /// A fresh downsampler for window length `2^downsample_power`.
    pub fn new(downsample_power: u32) -> (ds: Downsampler)
        requires
            downsample_power <= 9,
        ensures
            ds.wf(),
            ds.window == 1u32 << downsample_power,
            ds.hist@ =~= Seq::<PayloadView>::empty(),
            ds.emitted@ =~~= Seq::<Seq<int>>::empty(),
            ds.count == 0,
    {
        let w: u32 = 1u32 << downsample_power;
        proof {
            let dp = downsample_power;
            assert(dp <= 9 ==> 1u32 <= (1u32 << dp) <= 512) by (bit_vector);
        }
        let ds = Downsampler {
            window: w,
            acc: vec![0u32; CHANNELS],
            count: 0,
            hist: Ghost(Seq::empty()),
            emitted: Ghost(Seq::empty()),
        };
        proof {
            assert(ds.emitted@ =~~= windows_of(ds.hist@, ds.window as int));
            assert(ds.hist@.skip(0) =~= ds.hist@);
        }
        ds
    }

    /// Feed one payload. When it completes a window, the elementwise
    /// sum over that window's `window` payloads is returned and the
    /// accumulator starts afresh.
    #[verifier::loop_isolation(false)]
    pub fn push(&mut self, p: &Payload) -> (r: Option<Vec<u32>>)
        requires
            old(self).wf(),
            p@.wf(),
        ensures
            final(self).wf(),
            final(self).hist@ =~= old(self).hist@.push(p@),
            final(self).window == old(self).window,
            ({
                let h1 = old(self).hist@.push(p@);
                let d = old(self).window as int;
                if old(self).count + 1 == old(self).window {
                    &&& r is Some
                    &&& r.unwrap()@.len() == CHANNELS
                    &&& forall|i: int|
                        0 <= i < CHANNELS ==> #[trigger] r.unwrap()@[i] == window_sum(
                            h1.skip(h1.len() - d),
                        )[i]
                    &&& final(self).emitted@ =~~= old(self).emitted@.push(
                        window_sum(h1.skip(h1.len() - d)),
                    )
                    &&& final(self).count == 0
                } else {
                    &&& r is None
                    &&& final(self).count == old(self).count + 1
                    &&& final(self).emitted@ =~~= old(self).emitted@
                }
            }),
    {
        let ghost s0 = *old(self);
        let ghost d = self.window as int;
        let ghost h0 = self.hist@;
        let ghost h1 = self.hist@.push(p@);
        let ghost tail0 = h0.skip(h0.len() - s0.count);
        let ghost tail1 = h1.skip(h1.len() - (s0.count + 1));
        proof {
            self.hist = Ghost(h1);
            lemma_mod_bound(h0.len() as int, d);
            lemma_fundamental_div_mod(h0.len() as int, d);
            assert(tail1.drop_last() =~= tail0);
            assert(tail1.last() == p@);
            assert(window_sum(tail1) =~= seq_add(window_sum(tail0), p@.stokes()));
            lemma_window_sum_bound(tail0);
            lemma_stokes_bound(p@);
            assert(tail0.len() * 65536 == s0.count * 65536);
        }
        let s = p.stokes_i();
        let mut i: usize = 0;
        while i < CHANNELS
            invariant
                i <= CHANNELS,
                self.acc@.len() == CHANNELS,
                forall|k: int| 0 <= k < i ==> #[trigger] self.acc@[k] == window_sum(tail1)[k],
                forall|k: int| i <= k < CHANNELS ==> #[trigger] self.acc@[k] == window_sum(tail0)[k],
                self.window == s0.window,
                self.count == s0.count,
                self.hist@ == h1,
                self.emitted@ == s0.emitted@,
            decreases CHANNELS - i,
        {
            proof {
                assert(self.acc@[i as int] == window_sum(tail0)[i as int]);
                assert(0 <= window_sum(tail0)[i as int] <= s0.count * 65536);
                assert(s0.count * 65536 + 65536 <= 512 * 65536) by (nonlinear_arith)
                    requires
                        s0.count <= 511,
                ;
            }
            let v = self.acc[i] + s[i];
            self.acc[i] = v;
            i = i + 1;
        }
        self.count = self.count + 1;
        if self.count == self.window {
            proof {
                // the finished window closes at a multiple of d
                let q = h0.len() as int / d;
                assert((q + 1) * d == q * d + d) by (nonlinear_arith);
                assert(d * q == q * d) by (nonlinear_arith);
                lemma_fundamental_div_mod_converse(
                    h1.len() as int,
                    d,
                    h0.len() as int / d + 1,
                    0,
                );
                self.emitted = Ghost(self.emitted@.push(window_sum(tail1)));
                lemma_windows_extend(h0, p@, d);
                assert(tail1 =~= h1.skip(h1.len() - d));
            }
            let mut out: Vec<u32> = Vec::new();
            let mut k: usize = 0;
            while k < CHANNELS
                invariant
                    k <= CHANNELS,
                    out@.len() == k,
                    self.acc@.len() == CHANNELS,
                    forall|t: int| 0 <= t < k ==> #[trigger] out@[t] == self.acc@[t],
                decreases CHANNELS - k,
            {
                out.push(self.acc[k]);
                k = k + 1;
            }
            self.acc = vec![0u32; CHANNELS];
            self.count = 0;
            proof {
                assert(h1.skip(h1.len() - 0) =~= Seq::<PayloadView>::empty());
                assert(self.wf());
            }
            Some(out)
        } else {
            proof {
                let q = h0.len() as int / d;
                assert(d * q == q * d) by (nonlinear_arith);
                lemma_fundamental_div_mod_converse(
                    h1.len() as int,
                    d,
                    h0.len() as int / d,
                    s0.count + 1,
                );
                lemma_windows_same(h0, p@, d);
                assert(self.wf());
            }
            None
        }
    }
}

/// Appending a payload that does not complete a window leaves the
/// emitted windows unchanged.
proof fn lemma_windows_same(h0: Seq<PayloadView>, p: PayloadView, d: int)
    requires
        d >= 1,
        (h0.len() + 1) as int % d != 0,
        (h0.len() + 1) as int / d == h0.len() as int / d,
    ensures
        windows_of(h0.push(p), d) =~~= windows_of(h0, d),
{
    let h1 = h0.push(p);
    assert forall|j: int| 0 <= j < h0.len() as int / d implies windows_of(h1, d)[j] =~= windows_of(
        h0,
        d,
    )[j] by {
        lemma_window_in_range(h0, j, d);
        assert(h1.subrange(j * d, (j + 1) * d) =~= h0.subrange(j * d, (j + 1) * d));
    }
}

/// Appending a payload that completes a window appends exactly one
/// window: the sum over the last `d` payloads.
proof fn lemma_windows_extend(h0: Seq<PayloadView>, p: PayloadView, d: int)
    requires
        d >= 1,
        (h0.len() + 1) as int % d == 0,
        (h0.len() + 1) as int / d == h0.len() as int / d + 1,
        h0.len() as int % d == d - 1,
    ensures
        windows_of(h0.push(p), d) =~~= windows_of(h0, d).push(
            window_sum(h0.push(p).skip(h0.len() + 1 - d)),
        ),
{
    let h1 = h0.push(p);
    let k = h0.len() as int / d;
    lemma_fundamental_div_mod(h0.len() as int, d);
    assert forall|j: int| 0 <= j < k + 1 implies windows_of(h1, d)[j] =~= windows_of(h0, d).push(
        window_sum(h1.skip(h1.len() - d)),
    )[j] by {
        if j < k {
            lemma_window_in_range(h0, j, d);
            assert(h1.subrange(j * d, (j + 1) * d) =~= h0.subrange(j * d, (j + 1) * d));
        } else {
            assert(j * d == h1.len() - d) by {
                assert(d * k == k * d) by (nonlinear_arith);
                assert(k * d + (d - 1) == h0.len());
            }
            assert(j * d + d == (j + 1) * d) by (nonlinear_arith);
            assert(h1.subrange(j * d, (j + 1) * d) =~= h1.skip(h1.len() - d));
        }
    }
}

/// A window index below `len / d` covers payloads inside the sequence.
proof fn lemma_window_in_range(h0: Seq<PayloadView>, j: int, d: int)
    requires
        d >= 1,
        0 <= j < h0.len() as int / d,
    ensures
        0 <= j * d,
        j * d + d == (j + 1) * d,
        (j + 1) * d <= h0.len(),
{
    lemma_fundamental_div_mod(h0.len() as int, d);
    lemma_mod_bound(h0.len() as int, d);
    lemma_mul_inequality(j + 1, h0.len() as int / d, d);
    let q = h0.len() as int / d;
    assert(d * q == q * d) by (nonlinear_arith);
    assert(0 <= j * d && j * d + d == (j + 1) * d) by (nonlinear_arith)
        requires
            j >= 0 && d >= 1,
    ;
}

/// Feeding exactly `k * D` payloads yields exactly `k` emitted windows,
/// and window `j` is the elementwise Stokes-I sum over payloads
/// `j*D .. (j+1)*D` — the elementwise mean times `D`.
pub proof fn lemma_downsample_emission(ds: Downsampler, k: int)
    requires
        ds.wf(),
        k >= 0,
        ds.hist@.len() == k * (ds.window as int),
    ensures
        ds.emitted@.len() == k,
        forall|j: int|
            0 <= j < k ==> ds.emitted@[j] =~= window_sum(
                ds.hist@.subrange(j * (ds.window as int), (j + 1) * (ds.window as int)),
            ),
{
    let d = ds.window as int;
    lemma_fundamental_div_mod_converse(ds.hist@.len() as int, d, k, 0);
}

} // verus!
