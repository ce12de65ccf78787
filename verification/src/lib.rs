//! Verified core of a pixel-drawing ("Pixelflut"-style) protocol client: a
//! snake-shaped figure is kept as a list of points with a direction, rendered
//! into colored pixels, and encoded into the wire text format.  Networking and
//! threads live outside the library; everything here is pure state and text.

pub mod codec;
pub mod raster;
pub mod snake;
