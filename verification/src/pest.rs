//! The first draft of the pest control protocol's messages.
pub mod msg;
