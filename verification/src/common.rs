//! Shared data model: frequency channels, payloads and Stokes-I power.

use vstd::prelude::*;

verus! {

/// Number of frequency channels produced by the channelizer (set by gateware).
pub const CHANNELS: usize = 2048;
/// Size in bytes of the packet-count header of a datagram.
pub const TIMESTAMP_SIZE: usize = 8;
/// Size in bytes of the voltage block of a datagram.
pub const SPECTRA_SIZE: usize = 8192;
/// Total size in bytes of one datagram on the wire.
pub const PAYLOAD_SIZE: usize = TIMESTAMP_SIZE + SPECTRA_SIZE;
/// Nanoseconds between consecutive payloads (8.192 microseconds per packet).
pub const PACKET_CADENCE_NS: u64 = 8192;

/// The complex voltage of a single channel, Q1.7 fixed point.
#[derive(Clone, Copy, Debug, PartialEq, Eq, Structural)]
pub struct Channel {
    pub re: i8,
    pub im: i8,
}

impl Channel {
    /// Squared magnitude as unbounded arithmetic: `re^2 + im^2`.
    pub open spec fn abs2(self) -> int {
        self.re * self.re + self.im * self.im
    }

    pub fn new(re: i8, im: i8) -> (c: Channel)
        ensures
            c == (Channel { re, im }),
    {
        Channel { re, im }
    }

    /// Squared magnitude; at most `2 * 128^2 = 32768`, so it fits a `u16`.
    pub fn abs_squared(&self) -> (r: u16)
        ensures
            r == self.abs2(),
    {
        let re = self.re as i32;
        let im = self.im as i32;
        proof {
            lemma_i8_square_bounds(self.re);
            lemma_i8_square_bounds(self.im);
        }
        (re * re + im * im) as u16
    }
}

/// The square of an `i8` lies in `[0, 16384]`.
proof fn lemma_i8_square_bounds(x: i8)
    ensures
        0 <= x * x <= 16384,
{
    assert(0 <= x * x <= 16384) by (nonlinear_arith)
        requires
            -128 <= x <= 127,
    ;
}

/// The mathematical value of a payload: a packet count and one voltage
/// per channel for each polarization.
#[verifier::ext_equal]
pub ghost struct PayloadView {
    pub count: u64,
    pub pol_a: Seq<Channel>,
    pub pol_b: Seq<Channel>,
}

impl PayloadView {
    pub open spec fn wf(self) -> bool {
        self.pol_a.len() == CHANNELS && self.pol_b.len() == CHANNELS
    }

    /// The all-zero payload; its bit pattern is a valid payload and is
    /// used for gap fill and for ring slots never written.
    pub open spec fn zero() -> PayloadView {
        PayloadView {
            count: 0,
            pol_a: Seq::new(CHANNELS as nat, |i: int| Channel { re: 0, im: 0 }),
            pol_b: Seq::new(CHANNELS as nat, |i: int| Channel { re: 0, im: 0 }),
        }
    }

    /// Stokes-I numerators per channel: `|A|^2 + |B|^2`. The fractional
    /// Stokes value of the specification is this divided by `2^14`; the
    /// divide is exact in binary and is performed outside the library.
    pub open spec fn stokes(self) -> Seq<int> {
        Seq::new(CHANNELS as nat, |i: int| self.pol_a[i].abs2() + self.pol_b[i].abs2())
    }
}

/// One UDP datagram's worth of channelized voltages for both
/// polarizations, plus a monotone packet count.
///
/// `clone` carries no specification; verified code copies payloads
/// through [`Payload::duplicate`], whose contract says the value is
/// kept.
#[derive(Clone)]
pub struct Payload {
    /// Number of packets since the packet flow was triggered.
    pub count: u64,
    pub pol_a: Vec<Channel>,
    pub pol_b: Vec<Channel>,
}

impl View for Payload {
    type V = PayloadView;

    open spec fn view(&self) -> PayloadView {
        PayloadView { count: self.count, pol_a: self.pol_a@, pol_b: self.pol_b@ }
    }
}

impl DeepView for Payload {
    type V = PayloadView;

    open spec fn deep_view(&self) -> PayloadView {
        self.view()
    }
}

impl Default for Payload {
    /// The zero payload.
    fn default() -> (p: Payload)
        ensures
            p@ =~= PayloadView::zero(),
    {
        Payload {
            count: 0,
            pol_a: vec![Channel { re: 0, im: 0 }; CHANNELS],
            pol_b: vec![Channel { re: 0, im: 0 }; CHANNELS],
        }
    }
}

impl Payload {
    /// An owned copy with the same mathematical value.
    pub fn duplicate(&self) -> (p: Payload)
        ensures
            p@ =~= self@,
    {
        Payload {
            count: self.count,
            pol_a: copy_channels(&self.pol_a),
            pol_b: copy_channels(&self.pol_b),
        }
    }

    /// Stokes-I numerators of this payload.
    pub fn stokes_i(&self) -> (s: Vec<u32>)
        requires
            self@.wf(),
        ensures
            s@.len() == CHANNELS,
            forall|i: int| 0 <= i < CHANNELS ==> s@[i] == self@.stokes()[i],
    {
        stokes_i(&self.pol_a, &self.pol_b)
    }

    /// The two polarizations as packed re/im byte pairs, the layout in
    /// which the dump file stores voltages.
    pub fn packed_pols(&self) -> (r: (Vec<i8>, Vec<i8>))
        requires
            self@.wf(),
        ensures
            r.0@.len() == 2 * CHANNELS,
            r.1@.len() == 2 * CHANNELS,
            forall|i: int|
                0 <= i < CHANNELS ==> r.0@[2 * i] == self@.pol_a[i].re && r.0@[2 * i + 1]
                    == self@.pol_a[i].im,
            forall|i: int|
                0 <= i < CHANNELS ==> r.1@[2 * i] == self@.pol_b[i].re && r.1@[2 * i + 1]
                    == self@.pol_b[i].im,
    {
        (pack_pol(&self.pol_a), pack_pol(&self.pol_b))
    }

    /// Nanoseconds between the reference epoch and this payload:
    /// `count * 8192`. Wall-clock alignment (epoch plus this offset) is
    /// time-library work outside the library.
    pub fn offset_ns(&self) -> (r: u128)
        ensures
            r == self.count * PACKET_CADENCE_NS,
    {
        proof {
            assert((self.count as int) * (PACKET_CADENCE_NS as int) <= (u64::MAX as int) * (
            PACKET_CADENCE_NS as int)) by (nonlinear_arith)
                requires
                    self.count <= u64::MAX,
            ;
        }
        (self.count as u128) * (PACKET_CADENCE_NS as u128)
    }
}

fn copy_channels(v: &Vec<Channel>) -> (r: Vec<Channel>)
    ensures
        r@ =~= v@,
{
    let mut r: Vec<Channel> = Vec::new();
    let mut i: usize = 0;
    while i < v.len()
        invariant
            i <= v@.len(),
            r@ =~= v@.take(i as int),
        decreases v@.len() - i,
    {
        r.push(v[i]);
        i = i + 1;
        proof {
            assert(r@ =~= v@.take(i as int));
        }
    }
    proof {
        assert(v@.take(v@.len() as int) =~= v@);
    }
    r
}

fn pack_pol(v: &Vec<Channel>) -> (r: Vec<i8>)
    ensures
        r@.len() == 2 * v@.len(),
        forall|i: int| 0 <= i < v@.len() ==> r@[2 * i] == v@[i].re && r@[2 * i + 1] == v@[i].im,
{
    let mut r: Vec<i8> = Vec::new();
    let mut i: usize = 0;
    while i < v.len()
        invariant
            i <= v@.len(),
            r@.len() == 2 * i,
            forall|j: int| 0 <= j < i ==> r@[2 * j] == v@[j].re && r@[2 * j + 1] == v@[j].im,
        decreases v@.len() - i,
    {
        r.push(v[i].re);
        r.push(v[i].im);
        i = i + 1;
    }
    r
}

/// Stokes-I numerators of one pair of polarization vectors. Each entry
/// is `|A_i|^2 + |B_i|^2 <= 65536` and fits a `u32` with room to spare.
pub fn stokes_i(a: &Vec<Channel>, b: &Vec<Channel>) -> (s: Vec<u32>)
    requires
        a@.len() == CHANNELS,
        b@.len() == CHANNELS,
    ensures
        s@.len() == CHANNELS,
        forall|i: int| 0 <= i < CHANNELS ==> s@[i] == a@[i].abs2() + b@[i].abs2(),
{
    let mut s: Vec<u32> = Vec::new();
    let mut i: usize = 0;
    while i < CHANNELS
        invariant
            i <= CHANNELS,
            a@.len() == CHANNELS,
            b@.len() == CHANNELS,
            s@.len() == i,
            forall|j: int| 0 <= j < i ==> s@[j] == a@[j].abs2() + b@[j].abs2(),
        decreases CHANNELS - i,
    {
        let pa = a[i].abs_squared();
        let pb = b[i].abs_squared();
        s.push(pa as u32 + pb as u32);
        i = i + 1;
    }
    s
}

/// Stokes-I of the zero payload is the zero vector.
pub proof fn lemma_stokes_zero()
    ensures
        forall|i: int| 0 <= i < CHANNELS ==> PayloadView::zero().stokes()[i] == 0,
{
}

} // verus!
