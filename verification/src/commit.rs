//! A commit as the version-control tool reports it.
use vstd::prelude::*;
use vstd::string::StringExecFns;

verus! {

/// A commit: its hash and its message.
#[derive(Debug, Clone)]
pub struct Commit {
    hash: String,
    message: String,
}

impl Commit {
    /// The hash as text.
    pub closed spec fn hash_text(&self) -> Seq<char> {
        self.hash@
    }

    /// The message as text.
    pub closed spec fn message_text(&self) -> Seq<char> {
        self.message@
    }

    /// The commit of the given hash and message.
    pub fn new(hash: &str, message: &str) -> (r: Self)
        ensures
            r.hash_text() == hash@,
            r.message_text() == message@,
    {
        Self { hash: String::from_str(hash), message: String::from_str(message) }
    }

    /// The hash.
    pub fn hash(&self) -> (r: &String)
        ensures
            r@ == self.hash_text(),
    {
        &self.hash
    }

    /// The message.
    pub fn message(&self) -> (r: &String)
        ensures
            r@ == self.message_text(),
    {
        &self.message
    }
}

} // verus!
