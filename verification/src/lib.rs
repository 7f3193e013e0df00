pub mod codec;
pub mod error;
pub mod laws;
pub mod model;
pub mod render;
pub mod session;
pub mod text;
pub mod trusted;
