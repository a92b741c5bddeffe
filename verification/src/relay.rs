use vstd::prelude::*;

use crate::compiler::{NRef, SRef};

verus! {

/// Immutable wiring of one relay: the net its coil reads and the two
/// switch states its contacts drive.
#[derive(Debug, Clone)]
pub struct Spec {
    pub coil: NRef,
    pub a: SRef,
    pub b: SRef,
}

/// Level a relay holds after reading `coil_now`, given its previous settled
/// level and whether it was mid-transition: a transitioning relay settles
/// on the current reading; a settled one keeps its level this tick.
pub open spec fn step_level(level: bool, is_middle: bool, coil_now: bool) -> bool {
    if is_middle {
        coil_now
    } else {
        level
    }
}

/// Whether a relay is mid-transition after reading `coil_now`: a
/// transitioning relay settles; a settled one starts a transition exactly
/// when the reading moved away from its level.
pub open spec fn step_middle(level: bool, is_middle: bool, coil_now: bool) -> bool {
    if is_middle {
        false
    } else {
        level != coil_now
    }
}

/// Contact `a` conducts only when the relay is settled at a high level.
pub open spec fn out_a(level: bool, is_middle: bool) -> bool {
    !is_middle && level
}

/// Contact `b` conducts only when the relay is settled at a low level.
pub open spec fn out_b(level: bool, is_middle: bool) -> bool {
    !is_middle && !level
}

/// Actuation delay: when the coil reading moves away from a settled
/// relay's level, both contacts are open for exactly that tick; one more
/// tick with the same reading settles the relay on the new level, the
/// matching contact alone conducts, and further such ticks change nothing.
pub proof fn lemma_actuation_delay(level: bool, coil: bool)
    requires
        coil != level,
    ensures
        step_middle(level, false, coil),
        !out_a(step_level(level, false, coil), step_middle(level, false, coil)),
        !out_b(step_level(level, false, coil), step_middle(level, false, coil)),
        ({
            let l1 = step_level(level, false, coil);
            let m1 = step_middle(level, false, coil);
            let l2 = step_level(l1, m1, coil);
            let m2 = step_middle(l1, m1, coil);
            &&& l2 == coil
            &&& !m2
            &&& out_a(l2, m2) == coil
            &&& out_b(l2, m2) == !coil
            &&& step_level(l2, m2, coil) == l2
            &&& step_middle(l2, m2, coil) == m2
        }),
{
}

/// A settled relay whose coil reading matches its level neither moves nor
/// changes its contact drives.
pub proof fn lemma_settled_stable(level: bool, coil: bool)
    requires
        coil == level,
    ensures
        step_level(level, false, coil) == level,
        !step_middle(level, false, coil),
        out_a(level, false) == level,
        out_b(level, false) == !level,
{
}

impl Spec {
    /// A fresh runtime for this wiring: settled at a low level.
    pub fn build<'a>(&'a self) -> (r: Relay<'a>)
        ensures
            r.spec == self,
            r.level == false,
            r.is_middle == false,
    {
        Relay { spec: self, level: false, is_middle: false }
    }
}

/// Mutable per-relay runtime state: the last settled coil reading and the
/// mid-transition flag.
#[derive(Debug, Clone, Copy)]
pub struct Relay<'a> {
    pub spec: &'a Spec,
    pub level: bool,
    pub is_middle: bool,
}

impl<'a> Relay<'a> {
    /// Contact `a`'s current drive.
    pub fn a(&self) -> (r: bool)
        ensures
            r == out_a(self.level, self.is_middle),
    {
        !self.is_middle && self.level
    }

    /// Contact `b`'s current drive.
    pub fn b(&self) -> (r: bool)
        ensures
            r == out_b(self.level, self.is_middle),
    {
        !self.is_middle && !self.level
    }

    /// One tick: read the coil net, advance the actuation state machine,
    /// then write both contact drives into the shared switch-state vector
    /// (`a` first, then `b`).
    pub fn update(&mut self, state: &mut Vec<bool>, net: &Vec<bool>)
        requires
            old(self).spec.coil.0 < net.len(),
            old(self).spec.a.0 < old(state).len(),
            old(self).spec.b.0 < old(state).len(),
        ensures
            final(self).spec == old(self).spec,
            final(self).level == step_level(
                old(self).level,
                old(self).is_middle,
                net@[old(self).spec.coil.0 as int],
            ),
            final(self).is_middle == step_middle(
                old(self).level,
                old(self).is_middle,
                net@[old(self).spec.coil.0 as int],
            ),
            final(state)@ == old(state)@.update(
                old(self).spec.a.0 as int,
                out_a(final(self).level, final(self).is_middle),
            ).update(
                old(self).spec.b.0 as int,
                out_b(final(self).level, final(self).is_middle),
            ),
    {
        let level = self.spec.coil.get(net);
        if self.is_middle {
            self.level = level;
            self.is_middle = false;
        } else if self.level != level {
            self.is_middle = true;
        }
        let va = self.a();
        self.spec.a.set(state, va);
        let vb = self.b();
        self.spec.b.set(state, vb);
    }
}

} // verus!
