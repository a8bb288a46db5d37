//! A packed key-value parameter store: single-byte keys and byte-string
//! values held as `key=value` lines in one buffer, and the login settings
//! record that is kept in a configuration backend.

pub mod param;
pub mod number;
pub mod login_param;
pub mod laws;
