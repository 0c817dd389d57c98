pub mod compact;
pub mod engine;
pub mod header;
pub mod sync;
pub mod u256;
