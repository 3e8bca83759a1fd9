//! Float-free core of a sphere-tracing renderer: the scene graph, the per-lane
//! hit bookkeeping of the ray-marching kernel, and the layout of the frame.
pub mod scene;
pub mod march;
pub mod frame;
pub mod shade;
pub mod controls;
