//! Values whose initialization is tracked at run time.
use vstd::prelude::*;

verus! {

/// A slot that is either unset or holds a value of type `T`.
///
/// The state of the slot is part of its contract: reading, clearing or taking is only allowed
/// while the slot is set, and setting is only allowed while it is unset.
#[derive(Clone, Copy, Debug)]
pub struct MaybeUnset<T>(Option<T>);

impl<T> View for MaybeUnset<T> {
    type V = Option<T>;

    closed spec fn view(&self) -> Option<T> {
        self.0
    }
}

impl<T> Default for MaybeUnset<T> {
    /// An unset slot.
    fn default() -> (r: MaybeUnset<T>)
        ensures
            r@ is None,
    {
        MaybeUnset(None)
    }
}

impl<T> MaybeUnset<T> {
    /// Whether the slot holds a value.
    pub open spec fn is_set(&self) -> bool {
        self@ is Some
    }

    /// Stores `x` in an unset slot.
    pub fn set(&mut self, x: T)
        requires
            !old(self).is_set(),
        ensures
            final(self)@ == Some(x),
    {
        self.0 = Some(x);
    }

    /// Empties a slot that is set.
    pub fn clear(&mut self)
        requires
            old(self).is_set(),
        ensures
            final(self)@ is None,
    {
        self.0 = None;
    }

    /// The value of a slot that is set.
    pub fn get(&self) -> (r: &T)
        requires
            self.is_set(),
        ensures
            self@ == Some(*r),
    {
        self.0.as_ref().expect("value is not set")
    }

    /// Mutable access to the value of a slot that is set.
    pub fn get_mut(&mut self) -> (r: &mut T)
        requires
            old(self).is_set(),
        ensures
            old(self)@ == Some(*r),
            final(self)@ == Some(*final(r)),
    {
        self.0.as_mut().expect("value is not set")
    }

    /// Moves the value out of a slot that is set, and leaves the slot unset.
    pub fn take(&mut self) -> (r: T)
        requires
            old(self).is_set(),
        ensures
            old(self)@ == Some(r),
            final(self)@ is None,
    {
        self.0.take().expect("value is not set")
    }
}

} // verus!
