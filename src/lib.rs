//! An IRC server core: message codec, line framing, registration state
//! machine, channel state and channel policy, and the dispatcher that ties
//! them together.
pub mod text;
pub mod command;
pub mod message;
pub mod user;
pub mod misc;
pub mod mode;
pub mod framer;
pub mod registration;
pub mod client;
pub mod channel;
pub mod handler;
pub mod server;
pub mod outbound;
