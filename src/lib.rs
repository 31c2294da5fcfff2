// Geometry of convex polygons on the integer lattice: containment,
// collision queries between polygons, cutting a polygon in two, and the
// corrections that keep a polygon inside a rectangular boundary.

pub mod arith;
pub mod intersect;
pub mod laws;
pub mod outline;
pub mod point;
pub mod polygon;
pub mod rect;
