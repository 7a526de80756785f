//! Scene logic of a small orbital simulator: which object the user has
//! selected, which object the camera follows, which planet serves as the
//! reference frame, and in which order the planets of a star system are
//! placed relative to their parents.

pub mod hierarchy;
pub mod placement_depth;
pub mod selection;
pub mod targeting;
