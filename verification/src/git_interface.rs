//! What is decided around the version-control tool: the model built from its
//! branch listing, the arguments of the commands to run, and what a finished
//! command changes in the model. Running the tool is left to the caller.
use vstd::prelude::*;
use vstd::string::StringExecFns;
use crate::error::{GitError, GitInterfaceError};
use crate::node_path::NodePath;
use crate::node_type::{AnyNodeType, Area};
use crate::qualified_path::{decode, encode, path_views, QualifiedPath};
use crate::text::{join, split, split_text, strip_chars, trim, trim_text, views, without};
use crate::tree::{TreeDataModel, TreeView};

verus! {

/// The native names of the paths, one by one.
pub open spec fn natives(paths: Seq<Seq<Seq<char>>>) -> Seq<Seq<char>> {
    Seq::new(paths.len(), |i: int| encode(paths[i]))
}

/// The lines without surrounding whitespace, one by one.
pub open spec fn trimmed_lines(lines: Seq<Seq<char>>) -> Seq<Seq<char>> {
    Seq::new(lines.len(), |i: int| trim(lines[i]))
}

/// The message of the error for a checkout of a path without a branch.
pub open spec fn no_such_branch_message(path: Seq<Seq<char>>) -> Seq<char> {
    "Cannot checkout branch "@ + join(path, '/') + ": does not exist"@
}

/// The model of the branches of a repository, and the commands that act on
/// them.
#[derive(Debug)]
pub struct GitInterface {
    model: TreeDataModel,
}

impl View for GitInterface {
    type V = TreeView;

    closed spec fn view(&self) -> TreeView {
        self.model@
    }
}

impl Clone for GitInterface {
    /// A copy of the interface with a copy of its model.
    fn clone(&self) -> (r: Self)
        ensures
            r@ == self@,
    {
        Self { model: self.model.clone() }
    }
}

impl GitInterface {
    /// The interface over the model built from `listing`, the output of the
    /// tool for its branches, one per line.
    pub fn new(listing: &str) -> (r: Result<Self, GitError>)
        ensures
            match r {
                Ok(g) => TreeView::empty().replay(split(listing@, '\n')).1 is None && g@
                    == TreeView::empty().replay(split(listing@, '\n')).0 && g@.well_formed(),
                Err(e) => e is WrongNodeType && TreeView::empty().replay(split(listing@, '\n')).1
                    == Some(e.message()),
            },
    {
        let mut interface = Self { model: TreeDataModel::new() };
        match interface.update_complete_model(listing) {
            Ok(()) => Ok(interface),
            Err(e) => Err(e),
        }
    }

    /// Records every line of `listing` in the model, up to the first line
    /// that the tree rejects.
    pub fn update_complete_model(&mut self, listing: &str) -> (r: Result<(), GitError>)
        ensures
            final(self)@ == old(self)@.replay(split(listing@, '\n')).0,
            match r {
                Ok(()) => old(self)@.replay(split(listing@, '\n')).1 is None,
                Err(e) => e is WrongNodeType && old(self)@.replay(split(listing@, '\n')).1 == Some(
                    e.message(),
                ),
            },
            old(self)@.well_formed() ==> final(self)@.well_formed(),
    {
        let lines = split_text(listing, '\n');
        match self.model.insert_native_branches(&lines) {
            Ok(()) => Ok(()),
            Err(e) => Err(GitError::WrongNodeType(e)),
        }
    }

    /// The names in `listing`, the output of the tool for its branches: the
    /// lines without checkout marks and surrounding whitespace.
    pub fn get_all_branches(&self, listing: &str) -> (r: Vec<String>)
        ensures
            views(r@) == trimmed_lines(split(without(listing@, '*', '*'), '\n')),
    {
        let unmarked = strip_chars(listing, '*', '*');
        let lines = split_text(unmarked.as_str(), '\n');
        let mut out: Vec<String> = Vec::new();
        let mut i: usize = 0;
        while i < lines.len()
            invariant
                i <= lines.len(),
                out@.len() == i,
                forall|k: int| 0 <= k < i ==> (#[trigger] out@[k])@ == trim(lines@[k]@),
            decreases lines.len() - i,
        {
            out.push(trim_text(lines[i].as_str()));
            i += 1;
        }
        assert(views(out@) =~= trimmed_lines(views(lines@)));
        out
    }

    /// The model.
    pub fn get_model(&self) -> (r: &TreeDataModel)
        ensures
            r@ == self@,
    {
        &self.model
    }

    /// The path of the branch that the tool reports as checked out.
    pub fn get_current_qualified_path(&self, current_branch: &str) -> (r: QualifiedPath)
        ensures
            r@ == decode(current_branch@),
    {
        QualifiedPath::from_native(current_branch)
    }

    /// The chain down to the node of the branch that the tool reports as
    /// checked out, if the model has that node.
    pub fn get_current_node_path<'a>(&'a self, current_branch: &str) -> (r: Option<
        NodePath<'a, AnyNodeType>,
    >)
        ensures
            match r {
                Some(p) => decode(current_branch@).len() > 0 && self@.root.find(
                    decode(current_branch@),
                ) == Some(p@.last()) && p@ == seq![self@.root] + self@.root.trail(
                    decode(current_branch@),
                ),
                None => decode(current_branch@).len() == 0 || self@.root.find(
                    decode(current_branch@),
                ) is None,
            },
    {
        let current = self.get_current_qualified_path(current_branch);
        self.model.get_node_path(&current)
    }

    /// The chain down to the area of the branch that the tool reports as
    /// checked out, if the model has that area.
    pub fn get_current_area<'a>(&'a self, current_branch: &str) -> (r: Option<NodePath<'a, Area>>)
        ensures
            match r {
                Some(p) => decode(current_branch@).len() > 0 && self@.root.child(
                    decode(current_branch@)[0],
                ) == Some(p@.last()) && p@ == seq![self@.root, p@.last()],
                None => decode(current_branch@).len() == 0 || self@.root.child(
                    decode(current_branch@)[0],
                ) is None,
            },
    {
        let current = self.get_current_qualified_path(current_branch);
        self.model.get_area(&current)
    }

    /// The arguments that list the branches.
    pub fn list_branches(&self) -> (r: Vec<String>)
        ensures
            views(r@) == seq!["branch"@],
    {
        let mut args: Vec<String> = Vec::new();
        args.push(String::from_str("branch"));
        assert(views(args@) =~= seq!["branch"@]);
        args
    }

    /// The arguments that show the branch checked out.
    pub fn show_current_branch(&self) -> (r: Vec<String>)
        ensures
            views(r@) == seq!["branch"@, "--show-current"@],
    {
        let mut args: Vec<String> = Vec::new();
        args.push(String::from_str("branch"));
        args.push(String::from_str("--show-current"));
        assert(views(args@) =~= seq!["branch"@, "--show-current"@]);
        args
    }

    /// The arguments that create a repository.
    pub fn initialize_repo(&self) -> (r: Vec<String>)
        ensures
            views(r@) == seq!["init"@, "--initial-branch=main"@],
    {
        let mut args: Vec<String> = Vec::new();
        args.push(String::from_str("init"));
        args.push(String::from_str("--initial-branch=main"));
        assert(views(args@) =~= seq!["init"@, "--initial-branch=main"@]);
        args
    }

    /// The arguments that show the state of the working tree.
    pub fn status(&self) -> (r: Vec<String>)
        ensures
            views(r@) == seq!["status"@],
    {
        let mut args: Vec<String> = Vec::new();
        args.push(String::from_str("status"));
        assert(views(args@) =~= seq!["status"@]);
        args
    }

    /// The arguments that check out the branch at `path`, or the error that
    /// the model knows no branch there.
    pub fn checkout(&self, path: &QualifiedPath) -> (r: Result<Vec<String>, GitError>)
        ensures
            match r {
                Ok(args) => self@.index.contains(path@) && views(args@) == seq![
                    "checkout"@,
                    encode(path@),
                ],
                Err(e) => !self@.index.contains(path@) && e is GitInterface && e.message()
                    == no_such_branch_message(path@),
            },
    {
        if !self.model.has_branch(path) {
            let mut msg = String::from_str("Cannot checkout branch ");
            msg.append(path.to_string().as_str());
            msg.append(": does not exist");
            return Err(GitError::GitInterface(GitInterfaceError::new(msg.as_str())));
        }
        let mut args: Vec<String> = Vec::new();
        args.push(String::from_str("checkout"));
        args.push(path.to_git_branch());
        assert(views(args@) =~= seq!["checkout"@, encode(path@)]);
        Ok(args)
    }

    /// The arguments that check out the branch at `path`, whether or not the
    /// model knows a branch there.
    pub fn checkout_raw(&self, path: &QualifiedPath) -> (r: Vec<String>)
        ensures
            views(r@) == seq!["checkout"@, encode(path@)],
    {
        let mut args: Vec<String> = Vec::new();
        args.push(String::from_str("checkout"));
        args.push(path.to_git_branch());
        assert(views(args@) =~= seq!["checkout"@, encode(path@)]);
        args
    }

    /// The arguments that create a branch at `path`, or the error that the
    /// tree rejects the path. Nothing is recorded yet.
    pub fn create_branch(&self, path: &QualifiedPath) -> (r: Result<Vec<String>, GitError>)
        ensures
            match r {
                Ok(args) => self@.root.rejection(path@, false) is None && views(args@)
                    == seq!["branch"@, encode(path@)],
                Err(e) => e is WrongNodeType && self@.root.rejection(path@, false) == Some(
                    e.message(),
                ),
            },
    {
        match self.model.check_qualified_path(path) {
            Ok(()) => {
                let args = self.create_branch_no_mut(path);
                Ok(args)
            },
            Err(e) => Err(GitError::WrongNodeType(e)),
        }
    }

    /// The arguments that create a branch at `path`, which will not be
    /// recorded in the model.
    pub fn create_branch_no_mut(&self, path: &QualifiedPath) -> (r: Vec<String>)
        ensures
            views(r@) == seq!["branch"@, encode(path@)],
    {
        let mut args: Vec<String> = Vec::new();
        args.push(String::from_str("branch"));
        args.push(path.to_git_branch());
        assert(views(args@) =~= seq!["branch"@, encode(path@)]);
        args
    }

    /// Takes note of how the creation of a branch at `path` ended: a branch
    /// that was created is recorded in the model, and a failure of the tool
    /// is returned with what the tool wrote about it.
    pub fn branch_created(&mut self, path: QualifiedPath, success: bool, stderr: &str) -> (r: Result<
        (),
        GitError,
    >)
        ensures
            match r {
                Ok(()) => success && old(self)@.root.rejection(path@, false) is None && final(self)@
                    == old(self)@.with_branch(path@),
                Err(e) => final(self)@ == old(self)@ && if success {
                    e is WrongNodeType && old(self)@.root.rejection(path@, false) == Some(
                        e.message(),
                    )
                } else {
                    e is GitInterface && e.message() == stderr@
                },
            },
            old(self)@.well_formed() ==> final(self)@.well_formed(),
    {
        if success {
            match self.model.insert_qualified_path(path) {
                Ok(()) => Ok(()),
                Err(e) => Err(GitError::WrongNodeType(e)),
            }
        } else {
            Err(GitError::GitInterface(GitInterfaceError::new(stderr)))
        }
    }

    /// The arguments that delete the branch at `path`.
    pub fn delete_branch(&self, path: &QualifiedPath) -> (r: Vec<String>)
        ensures
            views(r@) == seq!["branch"@, "-D"@, encode(path@)],
    {
        let mut args: Vec<String> = Vec::new();
        args.push(String::from_str("branch"));
        args.push(String::from_str("-D"));
        args.push(path.to_git_branch());
        assert(views(args@) =~= seq!["branch"@, "-D"@, encode(path@)]);
        args
    }

    /// Takes note that the branch at `path` was deleted: it is gone from the
    /// tree and from the index.
    pub fn branch_deleted(&mut self, path: &QualifiedPath)
        ensures
            final(self)@ == old(self)@.without_branch(path@),
            old(self)@.well_formed() ==> final(self)@.well_formed(),
    {
        self.model.remove_qualified_path(path);
    }

    /// The arguments that merge the branches at `paths` into the branch
    /// checked out.
    pub fn merge(&self, paths: &Vec<QualifiedPath>) -> (r: Vec<String>)
        ensures
            views(r@) == seq!["merge"@] + natives(path_views(paths@)),
    {
        let mut args: Vec<String> = Vec::new();
        args.push(String::from_str("merge"));
        let mut i: usize = 0;
        proof {
            assert(views(args@) =~= seq!["merge"@] + natives(path_views(paths@)).take(0));
        }
        while i < paths.len()
            invariant
                i <= paths.len(),
                views(args@) == seq!["merge"@] + natives(path_views(paths@)).take(i as int),
            decreases paths.len() - i,
        {
            let ghost before = views(args@);
            let native = paths[i].to_git_branch();
            args.push(native);
            proof {
                assert(views(args@) =~= before.push(native@));
                assert(natives(path_views(paths@)).take(i + 1) =~= natives(
                    path_views(paths@),
                ).take(i as int).push(native@));
                assert(views(args@) =~= seq!["merge"@] + natives(path_views(paths@)).take(i + 1));
            }
            i += 1;
        }
        assert(natives(path_views(paths@)).take(paths@.len() as int) =~= natives(
            path_views(paths@),
        ));
        args
    }

    /// The arguments that give up a merge in progress.
    pub fn abort_merge(&self) -> (r: Vec<String>)
        ensures
            views(r@) == seq!["merge"@, "--abort"@],
    {
        let mut args: Vec<String> = Vec::new();
        args.push(String::from_str("merge"));
        args.push(String::from_str("--abort"));
        assert(views(args@) =~= seq!["merge"@, "--abort"@]);
        args
    }
}

} // verus!
