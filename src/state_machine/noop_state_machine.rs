use vstd::prelude::*;

use crate::state_machine::{Message, StateMachine};

verus! {

/// A state machine that ignores every command.
#[derive(Clone, Copy)]
pub struct NoopStateMachine {
    history: Ghost<Seq<()>>,
}

impl Default for NoopStateMachine {
    fn default() -> (r: Self)
        ensures
            r.applied() == Seq::<()>::empty(),
    {
        NoopStateMachine { history: Ghost(Seq::empty()) }
    }
}

impl Message for () {
    fn from_cli(input: Vec<String>) -> (r: Result<Option<()>, String>) {
        Ok(None)
    }
}

impl StateMachine for NoopStateMachine {
    type MessageType = ();
    type ApplyResult = ();

    closed spec fn applied(&self) -> Seq<()> {
        self.history@
    }

    fn visit(&mut self, m: &()) {
    }

    fn apply(&mut self, m: &()) -> (r: ()) {
        self.history = Ghost(self.history@.push(*m));
    }
}

} // verus!
