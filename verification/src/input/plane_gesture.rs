//! Which plane gesture is going on: a pan, a pinch, or none.
//!
//! At most one gesture runs at a time. Ending a pan ends whatever gesture runs and reports the
//! pan, if it was one; ending a pinch does the same for pinches.
use vstd::prelude::*;

verus! {

/// A running gesture with what it tracks.
pub enum ActiveGesture<P, Q> {
    Pan(P),
    Pinch(Q),
}

/// The gesture state of the plane.
pub struct PlaneGesture<P, Q> {
    active: Option<ActiveGesture<P, Q>>,
}

impl<P, Q> PlaneGesture<P, Q> {
    /// The running gesture, if any.
    pub closed spec fn active(&self) -> Option<ActiveGesture<P, Q>> {
        self.active
    }

    /// No gesture runs.
    pub fn new() -> (gesture: Self)
        ensures
            gesture.active().is_none(),
    {
        PlaneGesture { active: None }
    }

    /// Starts a pan, replacing any running gesture.
    pub fn begin_pan(&mut self, pan: P)
        ensures
            final(self).active() == Some(ActiveGesture::<P, Q>::Pan(pan)),
    {
        self.active = Some(ActiveGesture::Pan(pan));
    }

    /// Starts a pinch, replacing any running gesture.
    pub fn begin_pinch(&mut self, pinch: Q)
        ensures
            final(self).active() == Some(ActiveGesture::<P, Q>::Pinch(pinch)),
    {
        self.active = Some(ActiveGesture::Pinch(pinch));
    }

    /// Takes the running pan out to update it; any other state is left alone.
    pub fn take_pan(&mut self) -> (pan: Option<P>)
        ensures
            match old(self).active() {
                Some(ActiveGesture::Pan(p)) => pan == Some(p) && final(self).active().is_none(),
                _ => pan.is_none() && final(self).active() == old(self).active(),
            },
    {
        match self.active.take() {
            Some(ActiveGesture::Pan(p)) => Some(p),
            other => {
                self.active = other;
                None
            },
        }
    }

    /// Takes the running pinch out to update it; any other state is left alone.
    pub fn take_pinch(&mut self) -> (pinch: Option<Q>)
        ensures
            match old(self).active() {
                Some(ActiveGesture::Pinch(q)) => pinch == Some(q) && final(self).active().is_none(),
                _ => pinch.is_none() && final(self).active() == old(self).active(),
            },
    {
        match self.active.take() {
            Some(ActiveGesture::Pinch(q)) => Some(q),
            other => {
                self.active = other;
                None
            },
        }
    }

    /// Ends the running gesture and gives back the pan if it was one.
    pub fn end_pan(&mut self) -> (pan: Option<P>)
        ensures
            final(self).active().is_none(),
            pan == (match old(self).active() {
                Some(ActiveGesture::Pan(p)) => Some(p),
                _ => None,
            }),
    {
        match self.active.take() {
            Some(ActiveGesture::Pan(p)) => Some(p),
            _ => None,
        }
    }

    /// Ends the running gesture and gives back the pinch if it was one.
    pub fn end_pinch(&mut self) -> (pinch: Option<Q>)
        ensures
            final(self).active().is_none(),
            pinch == (match old(self).active() {
                Some(ActiveGesture::Pinch(q)) => Some(q),
                _ => None,
            }),
    {
        match self.active.take() {
            Some(ActiveGesture::Pinch(q)) => Some(q),
            _ => None,
        }
    }
}

impl<P, Q> Default for PlaneGesture<P, Q> {
    fn default() -> (gesture: Self)
        ensures
            gesture.active().is_none(),
    {
        PlaneGesture { active: None }
    }
}

} // verus!
