//! What a conversation is made of.

use vstd::prelude::*;

verus! {

/// Who speaks in a turn.
#[derive(Debug, Clone, Copy, PartialEq, Eq, Structural)]
pub enum Role {
    User,
    Assistant,
    System,
}

impl Role {
    /// The role's name.
    pub open spec fn name(self) -> Seq<char> {
        match self {
            Role::User => "user"@,
            Role::Assistant => "assistant"@,
            Role::System => "system"@,
        }
    }

    /// The role's name on the wire.
    pub fn as_str(&self) -> (r: &'static str)
        ensures
            r@ == self.name(),
    {
        match self {
            Role::User => "user",
            Role::Assistant => "assistant",
            Role::System => "system",
        }
    }
}

/// A file that goes with a message, its content in base 64.
#[derive(Debug)]
pub struct AttachedFile {
    pub name: String,
    pub mime: String,
    pub base64: String,
}

/// What an attached file is.
pub struct File {
    pub name: Seq<char>,
    pub mime: Seq<char>,
    pub base64: Seq<char>,
}

impl View for AttachedFile {
    type V = File;

    open spec fn view(&self) -> File {
        File { name: self.name@, mime: self.mime@, base64: self.base64@ }
    }
}

/// What a sequence of attached files is.
pub open spec fn files(v: Seq<AttachedFile>) -> Seq<File> {
    v.map_values(|f: AttachedFile| f@)
}

} // verus!
