//! A shared pixel canvas: an overwrite store of coloured cells, an ordered
//! change log, and the fan-out of every committed change to live observers.

pub mod assoc;
pub mod broadcast;
pub mod engine;
pub mod laws;
pub mod log;
pub mod registry;
pub mod store;
pub mod types;

pub use crate::engine::send_pixel;
pub use crate::engine::Canvas;
pub use crate::types::NewPixel;
pub use crate::types::Pixel;
