//! Bookkeeping for a replication server: which client controls which
//! replicated objects, and who is authoritative over each object.
//!
//! The server keeps one record per connected client. Each record holds the
//! set of objects that the client controls. The sets are filled from the
//! objects' control targets, emptied again before an object is dropped, and
//! handed out for despawning when the client disconnects.

pub mod authority;
pub mod clients;
pub mod controlled;
pub mod object;
pub mod target;

pub use authority::{AuthorityChange, AuthorityError, AuthorityOwner, AuthorityRegistry};
pub use clients::{ClientView, Clients};
pub use controlled::ControlledEntities;
pub use object::ObjectId;
pub use target::{ClientId, ControlledBy, NetworkTarget};
