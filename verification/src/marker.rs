//! Map marker and area kinds.

use vstd::prelude::*;

verus! {

/// Shape of an Arma map marker.
#[derive(Debug, Copy, Clone, PartialEq, Eq, Structural)]
pub enum MarkerShape {
    Icon,
    Rectangle,
    Ellipse,
    Hexagon,
    Polyline,
}

/// Shape of a map area.
#[derive(Debug, Copy, Clone, PartialEq, Eq, Structural)]
pub enum AreaKind {
    Rectangle,
    Ellipse,
    Hexagon,
}

} // verus!
