//! A small software rasterizer on an owned pixel surface.
//!
//! A `Drawer` holds a rectangle of packed colors and a depth for each
//! position. Lines and triangles are drawn into it pixel by pixel; a scene of
//! triangle meshes is rendered face by face, each face in one gray that
//! depends on how it faces the light.
//!
//! All geometry is exact: screen points have whole pixel coordinates and
//! whole depths, model space is fixed point, and barycentric weights and
//! the depths between the corners of a triangle are kept as fractions of
//! whole numbers. Nothing is rounded except where a contract says so.
//!
//! Positions count `y` upward while the picture is stored top-down: the
//! position `(x, y)` is stored in the row `height - y`. Heights `1` to
//! `height` are therefore the rows of the picture, and a pixel written at
//! height `0` lands nowhere.
pub mod arith;
pub mod color;
pub mod depth;
pub mod vector;
pub mod surface;
pub mod geometry;
pub mod line;
pub mod triangle;
pub mod scene;
