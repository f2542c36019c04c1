//! Formulas over complex numbers: reading them into trees, the table of
//! defined names, and the pixel arithmetic of drawing on a plane.
pub mod complex_func;
pub mod complex_plane;
