//! Motion-illusion noise: a random colour texture relaxed toward one in which
//! no two neighbouring pixels share a colour (white excepted), the rule that
//! recolours such pixels where the picture moves, and the pixel plumbing that
//! moves frames into a display buffer.

pub mod config;
pub mod palette;
pub mod grid;
pub mod frame;
pub mod random;
pub mod noise;
pub mod relief;
pub mod session;
