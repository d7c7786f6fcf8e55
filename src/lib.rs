pub mod seq;
pub mod tcp;
pub mod manager;
pub mod codec;
