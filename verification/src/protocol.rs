use vstd::prelude::*;

verus! {

/// The role a protocol item plays at the boundary.
#[derive(Clone, Copy, Debug, PartialEq, Eq, Hash, Structural)]
pub enum ProtocolKind {
    /// A state-changing request.
    Command,
    /// A read-only request.
    Query,
    /// An authoritative fact emitted after a state transition.
    Event,
    /// A boundary-facing data structure.
    Dto,
}

/// Metadata of a protocol item: its stable name and its kind.
pub trait ProtocolMeta {
    /// The stable protocol name of this item.
    fn name() -> String;

    /// The protocol kind of this item.
    fn kind() -> ProtocolKind;
}

/// Marks a protocol command type (a state-changing request).
pub trait Command {}

/// Marks a protocol query type (a read-only request).
pub trait ProtocolQuery {}

/// Marks a protocol event type (an authoritative fact).
pub trait Event {}

/// Marks a protocol DTO type (a boundary-facing data structure).
pub trait Dto {}

} // verus!
