//! Prompt cache accounting and proxy configuration, with their contracts
//! proved by Verus.

pub mod anthropic;
pub mod model;
pub mod text;
