use vstd::prelude::*;

verus! {

/// A two-state switch; each click flips it.
pub struct Toggle {
    pub on: bool,
}

impl Toggle {
    pub fn new(on: bool) -> (r: Self)
        ensures
            r.on == on,
    {
        Toggle { on }
    }

    /// A click: the switch flips.
    pub fn click(&mut self)
        ensures
            final(self).on == !old(self).on,
    {
        self.on = !self.on;
    }
}

} // verus!
