//! Equal-division-of-the-octave schemes: a division count paired with
//! a step index. Plain value data with no algorithm of its own.

use vstd::prelude::*;

verus! {

/// An equal division of the octave into `divisions` steps.
#[derive(Clone, Copy, Debug, PartialEq, Eq, Structural)]
pub struct Edo {
    pub divisions: usize,
}

/// A number of steps within one equal division scheme.
#[derive(Clone, Copy, Debug, PartialEq)]
pub struct EdoInterval<'a> {
    pub edo: &'a Edo,
    pub steps: usize,
}

impl Edo {
    /// A scheme that divides the octave into `divisions` equal steps.
    pub fn new(divisions: usize) -> (e: Edo)
        ensures
            e == (Edo { divisions }),
    {
        Edo { divisions }
    }

    /// The interval `steps` steps wide within this scheme.
    pub fn interval(&self, steps: usize) -> (i: EdoInterval<'_>)
        ensures
            i.edo == self,
            i.steps == steps,
    {
        EdoInterval { edo: self, steps }
    }
}

} // verus!
