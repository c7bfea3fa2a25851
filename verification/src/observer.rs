//! Observer definitions and the transient marker component that carries them.

use vstd::prelude::*;

verus! {

/// An unbound observer definition: an event filter plus a handler, not yet
/// tied to any entity.
///
/// The filter is the identifier of the event type the observer reacts to.
/// The handler is modelled as "add `delta` to the data component `component`
/// of the target entity" (wrapping on overflow).
#[derive(Clone, Copy, PartialEq, Eq, Structural, Debug)]
pub struct ObserverDef {
    /// Identifier of the event type this observer's filter matches.
    pub event: u64,
    /// Identifier of the data component the handler updates.
    pub component: u64,
    /// Amount the handler adds to that component's value (wrapping).
    pub delta: u64,
}

/// An observer definition bound to the entity whose events it reacts to.
#[derive(Clone, Copy, PartialEq, Eq, Structural, Debug)]
pub struct BoundObserver {
    /// The entity whose targeted events this observer handles.
    pub target: u64,
    /// The definition that was bound.
    pub def: ObserverDef,
}

/// The transient marker component: an ordered sequence of unbound observer
/// definitions, attached to an entity only between its insertion and the
/// flush of the insertion hook's deferred commands.
pub struct Observers(pub Vec<ObserverDef>);

impl View for Observers {
    type V = Seq<ObserverDef>;

    open spec fn view(&self) -> Seq<ObserverDef> {
        self.0@
    }
}

impl Observers {
    /// Declarative construction helper: build the marker from a list of
    /// definitions, kept in the given order.
    pub fn new(defs: Vec<ObserverDef>) -> (r: Observers)
        ensures
            r@ == defs@,
    {
        Observers(defs)
    }
}

/// Binding a whole sequence of definitions to one target entity, in order.
pub open spec fn bind_all(defs: Seq<ObserverDef>, target: u64) -> Seq<BoundObserver> {
    defs.map_values(|d: ObserverDef| BoundObserver { target, def: d })
}

} // verus!
