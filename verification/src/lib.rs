pub mod frame;
pub mod digits;
pub mod wire;
pub mod codec;
pub mod laws;
pub mod backend;
pub mod cmd;
