//! Pulse-injection state machine.
//!
//! On a configured cadence the injector overlays one pre-recorded
//! synthetic pulse onto the voltage stream, one time sample per
//! payload, then returns to pass-through. The machine decides, for each
//! payload, which pulse file to load and which sample column to
//! overlay; reading the files and the phase-preserving magnitude
//! addition are floating-point work done by the unverified rim that
//! drives this machine.

use vstd::prelude::*;

verus! {

/// What the stream should do with one payload.
#[derive(Clone, Copy, Debug, PartialEq, Eq, Structural)]
pub enum Action {
    /// Forward the payload unchanged.
    Pass,
    /// Open pulse file `pulse` and overlay its sample column `sample`
    /// (always 0) onto this payload.
    Load { pulse: usize, sample: usize },
    /// Overlay sample column `sample` of the already-loaded pulse.
    Overlay { sample: usize },
}

/// The injection state: which pulse plays, and where in it we are.
#[derive(Clone, Copy, Debug, PartialEq, Eq, Structural)]
pub struct Injector {
    /// Pulse files available; zero leaves the stream untouched.
    pub num_pulses: usize,
    /// Index of the pulse file the next injection will load.
    pub next_pulse: usize,
    /// Time samples in the currently loaded pulse.
    pub pulse_len: usize,
    /// Whether a pulse is currently being overlaid.
    pub active: bool,
    /// The next sample column to overlay.
    pub sample_i: usize,
}

impl Injector {
    pub open spec fn wf(self) -> bool {
        &&& (self.num_pulses == 0 ==> !self.active)
        &&& (self.num_pulses > 0 ==> self.next_pulse < self.num_pulses)
        &&& (self.active ==> self.sample_i < self.pulse_len)
    }

    /// A fresh injector over `num_pulses` pulse files.
    pub fn new(num_pulses: usize) -> (inj: Injector)
        ensures
            inj.wf(),
            inj.num_pulses == num_pulses,
            !inj.active,
    {
        Injector { num_pulses, next_pulse: 0, pulse_len: 0, active: false, sample_i: 0 }
    }
}

/// One step of the machine: `cadence_elapsed` says whether the
/// injection cadence has passed since the last injection began, and
/// `next_len` is the sample length of the pulse file that would be
/// loaded next. Returns the state after the payload and the action to
/// apply to it.
pub open spec fn step_spec(s: Injector, cadence_elapsed: bool, next_len: usize) -> (Injector, Action) {
    if s.num_pulses == 0 {
        (s, Action::Pass)
    } else if cadence_elapsed && !s.active {
        // A zero-length pulse overlays nothing and ends at once.
        if next_len == 0 {
            (
                Injector {
                    next_pulse: ((s.next_pulse + 1) as usize % s.num_pulses) as usize,
                    pulse_len: 0,
                    active: false,
                    sample_i: 0,
                    ..s
                },
                Action::Pass,
            )
        } else {
            let s1 = Injector {
                next_pulse: ((s.next_pulse + 1) as usize % s.num_pulses) as usize,
                pulse_len: next_len,
                active: next_len > 1,
                sample_i: if next_len > 1 {
                    1usize
                } else {
                    0usize
                },
                ..s
            };
            (s1, Action::Load { pulse: s.next_pulse, sample: 0 })
        }
    } else if s.active {
        let done = s.sample_i + 1 >= s.pulse_len;
        let s1 = Injector {
            active: !done,
            sample_i: if done {
                0usize
            } else {
                (s.sample_i + 1) as usize
            },
            ..s
        };
        (s1, Action::Overlay { sample: s.sample_i })
    } else {
        (s, Action::Pass)
    }
}

impl Injector {
    /// Decide what happens to one payload and advance the machine.
    pub fn step(&mut self, cadence_elapsed: bool, next_len: usize) -> (r: Action)
        requires
            old(self).wf(),
        ensures
            final(self).wf(),
            (*final(self), r) == step_spec(*old(self), cadence_elapsed, next_len),
            final(self).num_pulses == old(self).num_pulses,
    {
        if self.num_pulses == 0 {
            Action::Pass
        } else if cadence_elapsed && !self.active {
            let pulse = self.next_pulse;
            self.next_pulse = (self.next_pulse + 1) % self.num_pulses;
            if next_len == 0 {
                self.pulse_len = 0;
                self.active = false;
                self.sample_i = 0;
                Action::Pass
            } else {
                self.pulse_len = next_len;
                if next_len > 1 {
                    self.active = true;
                    self.sample_i = 1;
                } else {
                    self.active = false;
                    self.sample_i = 0;
                }
                Action::Load { pulse, sample: 0 }
            }
        } else if self.active {
            let sample = self.sample_i;
            if self.sample_i + 1 >= self.pulse_len {
                self.active = false;
                self.sample_i = 0;
            } else {
                self.sample_i = self.sample_i + 1;
            }
            Action::Overlay { sample }
        } else {
            Action::Pass
        }
    }
}

/// The state after running the machine over a sequence of events.
pub open spec fn run_state(s: Injector, events: Seq<(bool, usize)>) -> Injector
    decreases events.len(),
{
    if events.len() == 0 {
        s
    } else {
        run_state(step_spec(s, events[0].0, events[0].1).0, events.drop_first())
    }
}

/// The actions the machine takes over a sequence of events.
pub open spec fn run_actions(s: Injector, events: Seq<(bool, usize)>) -> Seq<Action>
    decreases events.len(),
{
    if events.len() == 0 {
        Seq::empty()
    } else {
        seq![step_spec(s, events[0].0, events[0].1).1] + run_actions(
            step_spec(s, events[0].0, events[0].1).0,
            events.drop_first(),
        )
    }
}

/// The machine takes exactly one action per event.
pub proof fn lemma_run_actions_len(s: Injector, events: Seq<(bool, usize)>)
    ensures
        run_actions(s, events).len() == events.len(),
    decreases events.len(),
{
    if events.len() > 0 {
        lemma_run_actions_len(step_spec(s, events[0].0, events[0].1).0, events.drop_first());
    }
}

/// With no pulse files, the injector is a no-op: every payload passes
/// through unchanged and the state never moves.
pub proof fn lemma_injector_no_pulses(s: Injector, events: Seq<(bool, usize)>)
    requires
        s.num_pulses == 0,
    ensures
        run_state(s, events) == s,
        forall|i: int| 0 <= i < events.len() ==> run_actions(s, events)[i] == Action::Pass,
        run_actions(s, events).len() == events.len(),
    decreases events.len(),
{
    lemma_run_actions_len(s, events);
    if events.len() > 0 {
        lemma_injector_no_pulses(s, events.drop_first());
        assert forall|i: int|
            0 <= i < events.len() implies run_actions(s, events)[i] == Action::Pass by {
            if i > 0 {
                assert(run_actions(s, events)[i] == run_actions(s, events.drop_first())[i - 1]);
            }
        }
    }
}

/// A pulse of length `L` injects exactly `L` consecutive overlays:
/// from the payload that loads the pulse, the next `L` payloads (and
/// no more) receive its sample columns `0 .. L`, in order, whatever
/// the cadence does meanwhile; then the machine is idle again.
pub proof fn lemma_injector_pulse_span(s: Injector, events: Seq<(bool, usize)>, cadence: bool, next_len: usize)
    requires
        s.wf(),
        s.num_pulses > 0,
        !s.active,
        cadence,
        next_len > 0,
        events.len() >= next_len - 1,
    ensures
        ({
            let first = step_spec(s, cadence, next_len);
            let acts = seq![first.1] + run_actions(first.0, events);
            &&& acts[0] == (Action::Load { pulse: s.next_pulse, sample: 0 })
            &&& forall|i: int| 1 <= i < next_len ==> acts[i] == (Action::Overlay { sample: i as usize })
            &&& !run_state(first.0, events.take(next_len - 1)).active
        }),
{
    let first = step_spec(s, cadence, next_len);
    lemma_run_actions_len(first.0, events);
    if next_len == 1 {
        assert(first.0.active == false);
        assert(run_state(first.0, events.take(0)) == first.0);
    } else {
        lemma_overlay_span(first.0, events);
        let acts = seq![first.1] + run_actions(first.0, events);
        assert forall|i: int| 1 <= i < next_len implies acts[i] == (Action::Overlay {
            sample: i as usize,
        }) by {
            assert(acts[i] == run_actions(first.0, events)[i - 1]);
        }
    }
}

/// While a pulse plays, each successive payload receives the next
/// sample column, and after the last one the machine goes idle.
proof fn lemma_overlay_span(s: Injector, events: Seq<(bool, usize)>)
    requires
        s.wf(),
        s.active,
        events.len() >= s.pulse_len - s.sample_i,
    ensures
        forall|i: int|
            0 <= i < s.pulse_len - s.sample_i ==> run_actions(s, events)[i] == (Action::Overlay {
                sample: (s.sample_i + i) as usize,
            }),
        !run_state(s, events.take(s.pulse_len - s.sample_i)).active,
    decreases s.pulse_len - s.sample_i,
{
    let rem = s.pulse_len - s.sample_i;
    lemma_run_actions_len(s, events);
    let s1 = step_spec(s, events[0].0, events[0].1).0;
    assert(run_actions(s, events)[0] == (Action::Overlay { sample: s.sample_i }));
    if rem == 1 {
        assert(!s1.active);
        assert(run_state(s, events.take(1)) == run_state(s1, events.take(1).drop_first()));
        assert(events.take(1).drop_first() =~= Seq::<(bool, usize)>::empty());
    } else {
        assert(s1.active && s1.sample_i == s.sample_i + 1 && s1.pulse_len == s.pulse_len);
        lemma_overlay_span(s1, events.drop_first());
        assert forall|i: int|
            0 <= i < rem implies run_actions(s, events)[i] == (Action::Overlay {
            sample: (s.sample_i + i) as usize,
        }) by {
            if i > 0 {
                assert(run_actions(s, events)[i] == run_actions(s1, events.drop_first())[i - 1]);
            }
        }
        assert(events.take(rem).drop_first() =~= events.drop_first().take(rem - 1));
        assert(run_state(s, events.take(rem)) == run_state(
            s1,
            events.drop_first().take(rem - 1),
        ));
    }
}

} // verus!
