use vstd::prelude::*;

verus! {

/// A text addressed to one client of the relay.
pub struct Message {
    /// Identifier of the client that is to receive the text.
    pub client_id: usize,
    /// The text itself.
    pub content: String,
}

impl Message {
    /// Builds a message for `client_id` holding `content`.
    pub fn new(client_id: usize, content: String) -> (r: Message)
        ensures
            r.client_id == client_id,
            r.content@ == content@,
    {
        Message { client_id, content }
    }
}

} // verus!
