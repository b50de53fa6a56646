//! An adaptive octree over point particles in a 3-D domain, answering
//! axis-aligned box range queries. Boxes may wrap around the periodic
//! seam of the domain on any axis (low bound above high bound).

mod geom;
mod tree;

pub use geom::Bound;
pub use geom::Vec3;
pub use geom::subdivision_index;
pub use tree::Particle;
pub use tree::Tree;
