use vstd::prelude::*;


pub mod in_memory_kv;
pub mod noop_state_machine;
pub mod string_append_state_machine;

verus! {

/// A command that a user state machine understands.
pub trait Message: Sized {
    /// Reads a command from command-line words; `Ok(None)` when the type has
    /// no command-line form.
    fn from_cli(input: Vec<String>) -> Result<Option<Self>, String>;
}

/// The replicated application: it observes entries as they arrive and applies
/// them once committed.
pub trait StateMachine {
    type MessageType: Message;
    type ApplyResult;

    /// The commands applied so far, oldest first.
    spec fn applied(&self) -> Seq<Self::MessageType>;

    /// Called when an entry is first seen in the log, committed or not; it
    /// applies nothing.
    fn visit(&mut self, m: &Self::MessageType)
        ensures
            final(self).applied() == old(self).applied(),
    ;

    /// Called once the entry is committed; the result goes to the waiting client.
    fn apply(&mut self, m: &Self::MessageType) -> (r: Self::ApplyResult)
        ensures
            final(self).applied() == old(self).applied().push(*m),
    ;
}

} // verus!
