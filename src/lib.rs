//! An encrypted credential vault with tamper detection and a lockout log
//! that throttles repeated failed unlock attempts.

pub mod commands;
pub mod crypto;
pub mod encoding;
pub mod logger;
pub mod vault;
