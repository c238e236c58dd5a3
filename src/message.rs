use vstd::prelude::*;

verus! {

/// A payload tagged with the identifier of the machine that owns it.
pub struct StateMachineMessage<T> {
    state_machine_id: String,
    message: T,
}

impl<T> StateMachineMessage<T> {
    /// The identifier this message is addressed to.
    pub closed spec fn spec_machine_id(&self) -> Seq<char> {
        self.state_machine_id@
    }

    /// The payload carried by this message.
    pub closed spec fn payload(&self) -> T {
        self.message
    }

    pub fn new(state_machine_id: String, message: T) -> (r: Self)
        ensures
            r.spec_machine_id() == state_machine_id@,
            r.payload() == message,
    {
        StateMachineMessage { state_machine_id, message }
    }

    pub fn state_machine_id(&self) -> (r: &str)
        ensures
            r@ == self.spec_machine_id(),
    {
        self.state_machine_id.as_str()
    }

    /// Consumes the message and hands back its payload.
    pub fn unwrap(self) -> (r: T)
        ensures
            r == self.payload(),
    {
        self.message
    }
}

} // verus!
