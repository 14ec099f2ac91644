//! The chats that are under way, and the means to cancel each.

use vstd::prelude::*;

use crate::string_map::StringMap;

verus! {

/// What cancels the chats that are under way, by request id.
#[derive(Debug)]
pub struct Cancels<T> {
    senders: StringMap<T>,
}

impl<T> View for Cancels<T> {
    type V = Map<Seq<char>, T>;

    closed spec fn view(&self) -> Map<Seq<char>, T> {
        self.senders@
    }
}

impl<T> Cancels<T> {
    /// No chat is under way.
    pub fn new() -> (r: Self)
        ensures
            r@ == Map::<Seq<char>, T>::empty(),
    {
        Cancels { senders: StringMap::new() }
    }

    /// A chat begins.
    pub fn begin(&mut self, request_id: &str, sender: T)
        ensures
            final(self)@ == old(self)@.insert(request_id@, sender),
    {
        self.senders.insert(request_id.to_owned(), sender);
    }

    /// A chat ended: nothing cancels it any more.
    pub fn end(&mut self, request_id: &str)
        ensures
            final(self)@ == old(self)@.remove(request_id@),
            !final(self)@.contains_key(request_id@),
    {
        let _ = self.senders.remove(request_id);
    }

    /// A chat is to be cancelled: gives what does it, once, if the chat is under
    /// way.
    pub fn cancel(&mut self, request_id: &str) -> (r: Option<T>)
        ensures
            final(self)@ == old(self)@.remove(request_id@),
            match r {
                Some(sender) => old(self)@.contains_key(request_id@) && sender
                    == old(self)@[request_id@],
                None => !old(self)@.contains_key(request_id@),
            },
    {
        self.senders.remove(request_id)
    }
}

/// A chat that began and ended leaves no trace: its id is not under way, and
/// every other chat is as it was.
pub proof fn lemma_chat_leaves_no_trace<T>(
    before: Map<Seq<char>, T>,
    request_id: Seq<char>,
    sender: T,
)
    ensures
        before.insert(request_id, sender).remove(request_id) == before.remove(request_id),
        !before.insert(request_id, sender).remove(request_id).contains_key(request_id),
{
    assert(before.insert(request_id, sender).remove(request_id) =~= before.remove(request_id));
}

} // verus!
