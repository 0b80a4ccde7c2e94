//! A small image-blitting pipeline: tiles pushed by a decoder are composed
//! into a fixed frame buffer, the buffer is exposed as little-endian RGB565
//! bytes, and each frame is drawn at a random origin that keeps the whole
//! image on the display.
pub mod compositor;
pub mod demo;
pub mod pixels;
pub mod placement;
pub mod session;
