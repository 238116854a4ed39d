//! The errors of the interface to the version-control tool.
use vstd::prelude::*;
use vstd::string::StringExecFns;
use crate::node_type::WrongNodeTypeError;

verus! {

/// The version-control tool was asked for what the model does not allow, or
/// answered with a failure.
#[derive(Debug, Clone)]
pub struct GitInterfaceError {
    msg: String,
}

impl GitInterfaceError {
    /// The message as text.
    pub closed spec fn message(&self) -> Seq<char> {
        self.msg@
    }

    /// An error with the given message.
    pub fn new(msg: &str) -> (r: GitInterfaceError)
        ensures
            r.message() == msg@,
    {
        GitInterfaceError { msg: String::from_str(msg) }
    }

    /// The message.
    pub fn to_string(&self) -> (r: String)
        ensures
            r@ == self.message(),
    {
        self.msg.clone()
    }
}

/// A command cannot do its work where it was called.
#[derive(Debug, Clone)]
pub struct CommandError {
    msg: String,
}

impl CommandError {
    /// The message as text.
    pub closed spec fn message(&self) -> Seq<char> {
        self.msg@
    }

    /// An error with the given message.
    pub fn new(msg: &str) -> (r: CommandError)
        ensures
            r.message() == msg@,
    {
        CommandError { msg: String::from_str(msg) }
    }

    /// The message.
    pub fn to_string(&self) -> (r: String)
        ensures
            r@ == self.message(),
    {
        self.msg.clone()
    }
}

/// What can go wrong when the tool is driven: the tool could not be run, the
/// interface refused or failed, or the tree rejected a path.
#[derive(Debug)]
pub enum GitError {
    /// The tool could not be run; the text says why.
    Io(String),
    GitInterface(GitInterfaceError),
    WrongNodeType(WrongNodeTypeError),
}

impl GitError {
    /// The message of the error.
    pub open spec fn message(&self) -> Seq<char> {
        match self {
            GitError::Io(text) => text@,
            GitError::GitInterface(err) => err.message(),
            GitError::WrongNodeType(err) => err.message(),
        }
    }

    /// The message of the error.
    pub fn to_string(&self) -> (r: String)
        ensures
            r@ == self.message(),
    {
        match self {
            GitError::Io(text) => text.clone(),
            GitError::GitInterface(err) => err.to_string(),
            GitError::WrongNodeType(err) => err.to_string(),
        }
    }

    /// The same error once more.
    pub fn duplicate(&self) -> (r: GitError)
        ensures
            r.message() == self.message(),
            r is Io == self is Io,
            r is GitInterface == self is GitInterface,
            r is WrongNodeType == self is WrongNodeType,
    {
        match self {
            GitError::Io(text) => GitError::Io(text.clone()),
            GitError::GitInterface(err) => GitError::GitInterface(
                GitInterfaceError::new(err.to_string().as_str()),
            ),
            GitError::WrongNodeType(err) => GitError::WrongNodeType(
                WrongNodeTypeError::new(err.to_string().as_str()),
            ),
        }
    }
}

impl From<GitInterfaceError> for GitError {
    fn from(value: GitInterfaceError) -> (r: Self)
        ensures
            r == GitError::GitInterface(value),
    {
        GitError::GitInterface(value)
    }
}

impl vstd::std_specs::convert::FromSpecImpl<GitInterfaceError> for GitError {
    open spec fn obeys_from_spec() -> bool {
        true
    }

    open spec fn from_spec(v: GitInterfaceError) -> Self {
        GitError::GitInterface(v)
    }
}

impl From<WrongNodeTypeError> for GitError {
    fn from(value: WrongNodeTypeError) -> (r: Self)
        ensures
            r == GitError::WrongNodeType(value),
    {
        GitError::WrongNodeType(value)
    }
}

impl vstd::std_specs::convert::FromSpecImpl<WrongNodeTypeError> for GitError {
    open spec fn obeys_from_spec() -> bool {
        true
    }

    open spec fn from_spec(v: WrongNodeTypeError) -> Self {
        GitError::WrongNodeType(v)
    }
}

} // verus!
