pub mod error;
pub mod varint;
pub mod framer;
pub mod packet;
pub mod connection;
pub mod idle;
pub mod config;
pub mod status;
