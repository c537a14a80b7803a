//! Global keyboard shortcuts bound to launchable targets: key combinations,
//! the binding registry, the press/release dispatcher and target discovery.

pub mod combo;
pub mod discovery;
pub mod dispatch;
pub mod error;
pub mod persist;
pub mod registry;
pub mod store;
