// The decisions of a small Monte-Carlo ray tracer, proved: when a light path
// stops bouncing and what it then contributes (`bounce`), and which surface a
// ray meets first, on one sphere and across a scene (`nearest`). The geometry
// itself is computed by the caller and handed in as plain values.
use vstd::prelude::*;

pub mod bounce;
pub mod nearest;

verus! {

} // verus!
