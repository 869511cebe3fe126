pub mod alert;
pub mod cli;
pub mod codec;
pub mod store;
