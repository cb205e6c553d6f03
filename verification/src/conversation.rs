//! Append-only, per-group ordered log of plaintext application messages.
//! Storage is unbounded; reads expose only the most recent messages.

use vstd::prelude::*;

verus! {

/// One group's conversation history, in arrival order.
pub struct Conversation {
    messages: Vec<String>,
}

impl View for Conversation {
    type V = Seq<String>;

    closed spec fn view(&self) -> Seq<String> {
        self.messages@
    }
}

impl Conversation {
    pub fn new() -> (r: Conversation)
        ensures
            r@ == Seq::<String>::empty(),
    {
        Conversation { messages: Vec::new() }
    }

    /// Append one message at the end; nothing already logged moves or changes.
    pub fn add(&mut self, message: String)
        ensures
            final(self)@ == old(self)@.push(message),
    {
        self.messages.push(message);
    }

    pub fn len(&self) -> (r: usize)
        ensures
            r == self@.len(),
    {
        self.messages.len()
    }

    /// The most recent `count` messages (all of them if fewer are logged),
    /// in their original arrival order.
    pub fn get(&self, count: usize) -> (r: Vec<String>)
        ensures
            r@ == self@.skip(if self@.len() <= count { 0int } else { self@.len() - count }),
    {
        let len = self.messages.len();
        let start = if len <= count { 0 } else { len - count };
        let mut out: Vec<String> = Vec::new();
        let mut i: usize = start;
        while i < len
            invariant
                start <= i <= len,
                len == self@.len(),
                out@ == self@.subrange(start as int, i as int),
            decreases len - i,
        {
            out.push(self.messages[i].clone());
            proof {
                assert(self@.subrange(start as int, i + 1int) =~= self@.subrange(
                    start as int,
                    i as int,
                ).push(self@[i as int]));
            }
            i += 1;
        }
        proof {
            assert(self@.subrange(start as int, len as int) =~= self@.skip(start as int));
        }
        out
    }
}

} // verus!
