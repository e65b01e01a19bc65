//! Bridges to other chat services.
pub mod telegram;
