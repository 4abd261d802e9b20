//! What the channels take on trust about `atom` and `pulse`.
//!
//! The cells of `atom` are atomic pointers and can be written through a shared
//! reference. Here each of them sits in a private field, and every wrapper that
//! writes one borrows it exclusively, so what a cell holds is a function of the
//! cell between two writes, and the contracts below can name it.
use atom::{Atom, AtomSetOnce};
use pulse::{Pulse, Signal};
use vstd::prelude::*;

verus! {

/// The waiting side of a wake-up; its inside is not looked at.
#[verifier::external_type_specification]
#[verifier::external_body]
pub struct ExSignal(pulse::Signal);

/// The firing side of a wake-up; its inside is not looked at.
#[verifier::external_type_specification]
#[verifier::external_body]
pub struct ExPulse(pulse::Pulse);

/// A link that is written at most once: the index of whatever comes next.
#[verifier::external_body]
pub struct Link {
    cell: AtomSetOnce<Box<usize>>,
}

/// The cell in which a block keeps the signal that its readers wait on.
#[verifier::external_body]
pub struct SignalSlot {
    cell: AtomSetOnce<Signal>,
}

/// The cell in which a block keeps the pulse that has not been fired yet.
#[verifier::external_body]
pub struct PulseSlot {
    cell: Atom<Pulse>,
}

/// What a link points to, if it has been written.
pub uninterp spec fn link_target(link: Link) -> Option<usize>;

/// The signal that a slot holds, if it has been written.
pub uninterp spec fn slot_signal(slot: SignalSlot) -> Option<Signal>;

/// The pulse that a slot holds.
pub uninterp spec fn slot_pulse(slot: PulseSlot) -> Option<Pulse>;

/// The signal that is released when `pulse` fires.
pub uninterp spec fn signal_of(pulse: Pulse) -> Signal;

/// The signals that were made and the pulses that were fired, in order. This is a
/// record for the contracts: only [`Pulses::create`] and [`Pulses::fire`] add to
/// it, and nothing of it is there when the crate runs.
pub struct Pulses {
    made: Ghost<Set<Signal>>,
    fired: Ghost<Seq<Pulse>>,
}

impl Pulses {
    /// The signals that were made.
    pub closed spec fn made(&self) -> Set<Signal> {
        self.made@
    }

    /// The pulses that were fired, in order.
    pub closed spec fn fired(&self) -> Seq<Pulse> {
        self.fired@
    }

    /// Nothing has been made or fired yet.
    pub(crate) fn none() -> (pulses: Pulses)
        ensures
            pulses.made() == Set::<Signal>::empty(),
            pulses.fired() == Seq::<Pulse>::empty(),
    {
        Pulses { made: Ghost(Set::empty()), fired: Ghost(Seq::empty()) }
    }

    /// `pulse::Signal::new`: a new signal together with the pulse that releases it.
    /// It is none of the signals that were made before: a signal has an identity of
    /// its own, by which it can be told from others. There is always one more, since
    /// only so many were made before.
    #[verifier::external_body]
    pub(crate) fn create(&mut self) -> (pair: (Signal, Pulse))
        requires
            old(self).made().finite(),
        ensures
            final(self).made().finite(),
            pair.0 == signal_of(pair.1),
            !old(self).made().contains(pair.0),
            final(self).made() == old(self).made().insert(pair.0),
            final(self).fired() == old(self).fired(),
    {
        Signal::new()
    }

    /// `pulse::Pulse::pulse`: fires the pulse, which puts its signal out of the
    /// pending state for good and releases everyone who waits on it.
    ///
    /// The contract says that this pulse is the one that is fired. It says
    /// nothing of the threads that were parked on the signal, which no value of
    /// this crate holds.
    #[verifier::external_body]
    pub(crate) fn fire(&mut self, pulse: Pulse)
        ensures
            final(self).fired() == old(self).fired().push(pulse),
            final(self).made() == old(self).made(),
    {
        pulse.pulse()
    }
}

impl Link {
    /// `atom::AtomSetOnce::empty`: a link that has not been written.
    #[verifier::external_body]
    pub(crate) fn empty() -> (link: Link)
        ensures
            link_target(link) is None,
    {
        Link { cell: AtomSetOnce::empty() }
    }

    /// `atom::AtomSetOnce::set_if_none`: writes the link if nobody has yet and
    /// then returns nothing; otherwise leaves it and hands `target` back.
    #[verifier::external_body]
    pub(crate) fn set_if_none(&mut self, target: usize) -> (refused: Option<usize>)
        ensures
            link_target(*old(self)) is None ==> {
                &&& refused is None
                &&& link_target(*final(self)) == Some(target)
            },
            link_target(*old(self)) is Some ==> {
                &&& refused == Some(target)
                &&& link_target(*final(self)) == link_target(*old(self))
            },
    {
        self.cell.set_if_none(Box::new(target)).map(|b| *b)
    }

    /// `atom::AtomSetOnce::dup`: a copy of what was written.
    #[verifier::external_body]
    pub(crate) fn dup(&self) -> (target: Option<usize>)
        ensures
            target == link_target(*self),
    {
        self.cell.dup().map(|b| *b)
    }

    /// `atom::AtomSetOnce::is_none`: whether the link is still unwritten.
    #[verifier::external_body]
    pub(crate) fn is_none(&self) -> (unwritten: bool)
        ensures
            unwritten == (link_target(*self) is None),
    {
        self.cell.is_none()
    }
}

impl SignalSlot {
    /// `atom::AtomSetOnce::empty`: a slot without a signal.
    #[verifier::external_body]
    pub(crate) fn empty() -> (slot: SignalSlot)
        ensures
            slot_signal(slot) is None,
    {
        SignalSlot { cell: AtomSetOnce::empty() }
    }

    /// `atom::AtomSetOnce::set_if_none`: stores the signal if the slot is empty
    /// and then returns nothing; otherwise leaves the slot and hands it back.
    #[verifier::external_body]
    pub(crate) fn set_if_none(&mut self, signal: Signal) -> (refused: Option<Signal>)
        ensures
            slot_signal(*old(self)) is None ==> {
                &&& refused is None
                &&& slot_signal(*final(self)) == Some(signal)
            },
            slot_signal(*old(self)) is Some ==> {
                &&& refused == Some(signal)
                &&& slot_signal(*final(self)) == slot_signal(*old(self))
            },
    {
        self.cell.set_if_none(signal)
    }

    /// `atom::AtomSetOnce::dup`: another handle on the stored signal.
    #[verifier::external_body]
    pub(crate) fn dup(&self) -> (signal: Option<Signal>)
        ensures
            signal == slot_signal(*self),
    {
        self.cell.dup()
    }
}

impl PulseSlot {
    /// `atom::Atom::empty`: a slot without a pulse.
    #[verifier::external_body]
    pub(crate) fn empty() -> (slot: PulseSlot)
        ensures
            slot_pulse(slot) is None,
    {
        PulseSlot { cell: Atom::empty() }
    }

    /// `atom::Atom::swap`: stores the pulse and returns what was there before.
    #[verifier::external_body]
    pub(crate) fn swap(&mut self, pulse: Pulse) -> (before: Option<Pulse>)
        ensures
            before == slot_pulse(*old(self)),
            slot_pulse(*final(self)) == Some(pulse),
    {
        self.cell.swap(pulse)
    }

    /// `atom::Atom::take`: empties the slot and returns what was there.
    #[verifier::external_body]
    pub(crate) fn take(&mut self) -> (pulse: Option<Pulse>)
        ensures
            pulse == slot_pulse(*old(self)),
            slot_pulse(*final(self)) is None,
    {
        self.cell.take()
    }
}

} // verus!
