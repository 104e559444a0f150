//! A live log viewer's logic: which bytes of a growing file are shown, how a
//! line is cut into coloured severity tags and plain text, and which keys quit.

pub mod banner;
pub mod keys;
pub mod render;
pub mod watch;
