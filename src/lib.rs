//! A bridge from a CoE contact sensor to alarm calls through the Asterisk
//! manager interface: framing of the manager protocol, the session's life,
//! and the decision when to call.

pub mod alarm;
pub mod ami;
pub mod config;
pub mod session;
