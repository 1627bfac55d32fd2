//! A reorderable list widget core: an ordered list of items that can be
//! selected (singly or as a range), grabbed, dragged into a new position and
//! dropped, with every displayed position animated toward its layout target.
//!
//! The crate holds the interaction engine only: the list model, the drag
//! state machine, the split-point and commit computations, and the slew
//! animator. A host UI is expected to feed pointer positions and discrete
//! input events in, and to draw each item at the position the model reports.

use vstd::prelude::*;

pub mod drag;
pub mod model;
pub mod slew;

verus! {

} // verus!
