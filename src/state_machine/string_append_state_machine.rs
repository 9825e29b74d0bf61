use vstd::prelude::*;

use crate::state_machine::{Message, StateMachine};

verus! {

/// A state machine whose state is the list of strings applied so far.
#[derive(Debug, Default)]
pub struct StringAppendStateMachine {
    state: Vec<String>,
}

/// A string to append.
#[derive(Debug, Clone)]
pub struct StringAppendMessage(pub String);

/// The words joined by single spaces.
pub open spec fn joined_words(words: Seq<String>) -> Seq<char>
    decreases words.len(),
{
    if words.len() == 0 {
        Seq::empty()
    } else if words.len() == 1 {
        words[0]@
    } else {
        joined_words(words.drop_last()) + seq![' '] + words.last()@
    }
}

impl StringAppendMessage {
    /// The command-line words joined by single spaces.
    pub fn from_words(input: &Vec<String>) -> (r: Self)
        ensures
            r.0@ == joined_words(input@),
    {
        let mut out = String::new();
        let mut k: usize = 0;
        proof {
            reveal_strlit(" ");
        }
        while k < input.len()
            invariant
                k <= input@.len(),
                out@ == joined_words(input@.take(k as int)),
            decreases input@.len() - k,
        {
            proof {
                reveal_strlit(" ");
            }
            assert(input@.take(k + 1).drop_last() =~= input@.take(k as int));
            assert(input@.take(k + 1).last() == input@[k as int]);
            if k > 0 {
                out.append(" ");
            }
            out.append(input[k].as_str());
            k = k + 1;
        }
        assert(input@.take(k as int) =~= input@);
        StringAppendMessage(out)
    }
}

impl Message for StringAppendMessage {
    fn from_cli(input: Vec<String>) -> (r: Result<Option<Self>, String>) {
        Ok(Some(StringAppendMessage::from_words(&input)))
    }
}

impl View for StringAppendStateMachine {
    type V = Seq<String>;

    closed spec fn view(&self) -> Seq<String> {
        self.state@
    }
}

impl StringAppendStateMachine {
    /// The strings applied so far, in order.
    pub fn state(&self) -> (r: &Vec<String>)
        ensures
            r@ == self@,
    {
        &self.state
    }

    /// Appends the message's string and returns the whole list.
    pub fn do_apply(&mut self, m: &StringAppendMessage) -> (r: Vec<String>)
        ensures
            final(self)@ == old(self)@.push(m.0),
            r@ == final(self)@,
    {
        self.state.push(m.0.clone());
        let out = self.state.clone();
        assert(out@ =~= self.state@);
        out
    }
}

impl StateMachine for StringAppendStateMachine {
    type MessageType = StringAppendMessage;
    type ApplyResult = Vec<String>;

    closed spec fn applied(&self) -> Seq<StringAppendMessage> {
        self@.map_values(|s: String| StringAppendMessage(s))
    }

    fn visit(&mut self, m: &StringAppendMessage) {
    }

    fn apply(&mut self, m: &StringAppendMessage) -> (r: Vec<String>)
        ensures
            final(self)@ == old(self)@.push(m.0),
            r@ == final(self)@,
    {
        let r = self.do_apply(m);
        assert(self.applied() =~= old(self).applied().push(*m));
        r
    }
}

} // verus!
