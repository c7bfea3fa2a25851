//! Entity-bound event handlers declared inline in a component bundle.
//!
//! A bundle author attaches an [`observer::Observers`] marker component to an
//! entity. When the marker is inserted, an insertion hook empties its list of
//! unbound observer definitions, binds each definition to the freshly known
//! entity identifier, and enqueues two deferred commands: spawn the bound
//! observers as standalone entities, and remove the marker from the
//! triggering entity. The commands take effect at the next flush, so no
//! structural mutation happens while the insertion is still in progress.

pub mod laws;
pub mod model;
pub mod observer;
pub mod world;

pub use observer::BoundObserver;
pub use observer::Observers;
pub use observer::ObserverDef;
pub use world::World;
