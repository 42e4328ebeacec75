//! Catalog persistence and image-asset placement for a desktop game launcher.
//!
//! The library decides; the caller performs the file-system work that the
//! returned plans and byte buffers describe.
pub mod error;
pub mod text;
pub mod assets;
pub mod game;
pub mod codec;
pub mod layout;
