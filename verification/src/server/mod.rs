//! Server process decisions: control-socket dispatch and startup options.

pub mod dispatch;
pub mod options;
