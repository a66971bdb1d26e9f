//! The discrete core of a path tracer: the order in which a render visits
//! pixels and samples, the bounce budget of a light path, and the text of
//! the image that comes out.

pub mod path;
pub mod ppm;
pub mod sweep;
