use vstd::prelude::*;

verus! {

/// A message that names the machine it belongs to.
pub trait StateMachineMessage: Sized {
    /// The identifier of the owning machine, as text: what `id` returns.
    /// (The body is there only so that impls written outside Verus need not
    /// give one; the empty text names no machine of an orchestrator.)
    open spec fn spec_key(&self) -> Seq<char> {
        Seq::empty()
    }

    /// The identifier of the owning machine.
    fn id(&self) -> (r: &String)
        ensures
            r@ == self.spec_key(),
    ;

    /// Consumes the message and hands back its contents.
    fn unpack(self) -> Self;
}

/// Binds the inbound and outbound message types of one family of machines.
pub trait StateType {
    type In: StateMachineMessage;
    type Out: StateMachineMessage;
}

/// A message type for machines that take or produce no messages.
#[derive(Debug, Clone)]
pub struct NoMessage(pub String);

impl StateMachineMessage for NoMessage {
    open spec fn spec_key(&self) -> Seq<char> {
        self.0@
    }

    fn id(&self) -> (r: &String) {
        &self.0
    }

    fn unpack(self) -> (r: NoMessage)
        ensures
            r.0@ == Seq::<char>::empty(),
    {
        NoMessage(String::new())
    }
}

/// Outcome of handing one inbound message to a state.
pub enum DeliveryStatus<M, E> {
    Delivered,
    /// The state declined the message; it is handed back.
    Unexpected(M),
    Error(E),
}

/// What a state asks of its machine after the queued messages were delivered.
pub enum Transition<S> {
    Same,
    /// Replace the active state with the one given.
    Next(S),
    /// The machine has no further work.
    Terminal,
}

/// The behaviour of one family of states. A family is usually a closed enum
/// of state kinds, so that a transition can hand over any kind by value.
/// A state that announces nothing returns an empty `Vec` from `initialize`;
/// one that takes no messages returns `Unexpected` from `deliver`.
pub trait State<Types: StateType>: Sized {
    /// The messages that `initialize` returns. (Each spec function here has
    /// a body only so that impls written outside Verus need not give one.)
    open spec fn spec_initialize(&self) -> Seq<Types::Out> {
        Seq::empty()
    }

    /// The state after `deliver(message)`, and its outcome.
    open spec fn spec_deliver(&self, message: Types::In) -> (Self, DeliveryStatus<Types::In, String>) {
        (*self, DeliveryStatus::Unexpected(message))
    }

    /// What `advance` returns.
    open spec fn spec_advance(&self) -> Result<Transition<Self>, String> {
        Ok(Transition::Same)
    }

    /// Called once when the state becomes active, before any delivery; the
    /// messages returned are sent out in order.
    fn initialize(&self) -> (r: Vec<Types::Out>)
        ensures
            r@ == self.spec_initialize(),
    ;

    /// Called once for each queued inbound message, oldest first.
    fn deliver(&mut self, message: Types::In) -> (r: DeliveryStatus<Types::In, String>)
        ensures
            (*final(self), r) == old(self).spec_deliver(message),
    ;

    /// Called once per step, after the queue was drained.
    fn advance(&self) -> (r: Result<Transition<Self>, String>)
        ensures
            r == self.spec_advance(),
    ;
}

/// A typed view of one kind inside a family of states.
pub trait AsVariant<T> {
    /// The value of kind `T` that `as_variant` returns. (The body is there
    /// only so that impls written outside Verus need not give one.)
    open spec fn spec_variant(&self) -> Option<&T> {
        None
    }

    /// The value of kind `T`, if the state is of that kind.
    fn as_variant(&self) -> (r: Option<&T>)
        ensures
            r == self.spec_variant(),
    ;
}

} // verus!
