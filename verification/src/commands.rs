//! What the commands decide before they turn to the version-control tool:
//! the paths they act on, and what they offer for completion.
use vstd::prelude::*;
use vstd::string::StringExecFns;
use crate::commit::Commit;
use crate::display::drawing;
use crate::error::CommandError;
use crate::node_path::{NodePath, NodePathType};
use crate::node_type::{
    feature_root_name, product_root_name, AnyNodeType, Area, NodeType, Product,
};
use crate::qualified_path::{path_views, QualifiedPath};
use crate::text::{join, occurs_in, split, text_contains, text_ends_with, views};
use crate::tree_model::names;

verus! {

/// The message of the error for a new feature asked for where the branch
/// checked out is neither an area nor a feature.
pub open spec fn no_feature_here_message() -> Seq<char> {
    "Cannot create feature: Current branch is not a feature or area branch"@
}

/// The message of the error for a command that needs a product branch
/// checked out.
pub open spec fn no_product_here_message() -> Seq<char> {
    "Not on product branch"@
}

/// The mark that the message of a commit carries where it ends a derivation.
pub open spec fn derivation_mark() -> Seq<char> {
    "DERIVATION FINISHED"@
}

/// The path of a new feature `feature`, asked for while the branch at the
/// end of `current` is checked out: under the feature root of an area, or
/// under a feature. Elsewhere no feature can be created.
pub fn feature_target(current: NodePathType, feature: &QualifiedPath) -> (r: Result<
    QualifiedPath,
    CommandError,
>)
    ensures
        match r {
            Ok(target) => match current.role() {
                NodeType::Area => target@ == names(current.chain().skip(1)).push(
                    feature_root_name(),
                ) + feature@,
                NodeType::Feature => target@ == names(current.chain().skip(1)) + feature@,
                _ => false,
            },
            Err(e) => current.role() != NodeType::Area && current.role() != NodeType::Feature
                && e.message() == no_feature_here_message(),
        },
{
    let current_path = match current {
        NodePathType::Area(path) => path.get_path_to_feature_root(),
        NodePathType::Feature(path) => path.get_qualified_path(),
        _ => {
            return Err(
                CommandError::new(
                    "Cannot create feature: Current branch is not a feature or area branch",
                ),
            );
        },
    };
    Ok(current_path.concat(feature))
}

/// What is said when the feature at `target` was created: the path is
/// named without its area.
pub fn created_feature_message(target: &QualifiedPath) -> (r: String)
    ensures
        r@ == "Created new feature "@ + join(
            if target@.len() > 0 {
                target@.skip(1)
            } else {
                target@
            },
            '/',
        ),
{
    let mut text = String::from_str("Created new feature ");
    let shown = if target.len() > 0 {
        target.trim_n_left(1)
    } else {
        target.clone()
    };
    text.append(shown.to_string().as_str());
    text
}

/// The path of the feature `feature` of the area at the end of `area`.
pub fn feature_path(area: &NodePath<Area>, feature: &QualifiedPath) -> (r: QualifiedPath)
    ensures
        r@ == names(area@.skip(1)).push(feature_root_name()) + feature@,
{
    area.get_path_to_feature_root().concat(feature)
}

/// The subtree of the feature root of the area drawn as text, if the area
/// has a feature root.
pub fn feature_tree(area: NodePath<Area>, show_tags: bool) -> (r: Option<String>)
    ensures
        match r {
            Some(text) => match area@.last().child(feature_root_name()) {
                Some(c) => c.role == NodeType::FeatureRoot && text@ == drawing(c.shown(show_tags)),
                None => false,
            },
            None => match area@.last().child(feature_root_name()) {
                Some(c) => c.role != NodeType::FeatureRoot,
                None => true,
            },
        },
{
    match area.to_feature_root() {
        Some(path) => Some(path.display_tree(show_tags)),
        None => None,
    }
}

/// The written paths as features of the area, one by one.
pub open spec fn feature_paths(area: Seq<Seq<char>>, features: Seq<Seq<char>>) -> Seq<
    Seq<Seq<char>>,
> {
    Seq::new(
        features.len(),
        |i: int| area.push(feature_root_name()) + split(features[i], '/'),
    )
}

/// The paths of a derivation in the area at the end of `area`: that of the
/// product `product` to derive, and those of the features to derive it from.
pub fn derive_paths(area: &NodePath<Area>, product: &str, features: &Vec<String>) -> (r: (
    QualifiedPath,
    Vec<QualifiedPath>,
))
    ensures
        r.0@ == names(area@.skip(1)).push(product_root_name()) + split(product@, '/'),
        path_views(r.1@) == feature_paths(names(area@.skip(1)), views(features@)),
{
    let target = area.get_path_to_product_root().concat(&QualifiedPath::from_text(product));
    let root = area.get_path_to_feature_root();
    let mut all: Vec<QualifiedPath> = Vec::new();
    let mut i: usize = 0;
    while i < features.len()
        invariant
            i <= features.len(),
            root@ == names(area@.skip(1)).push(feature_root_name()),
            all@.len() == i,
            forall|j: int|
                0 <= j < i ==> (#[trigger] all@[j])@ == root@ + split(features@[j]@, '/'),
        decreases features.len() - i,
    {
        all.push(root.concat(&QualifiedPath::from_text(features[i].as_str())));
        i += 1;
    }
    assert(path_views(all@) =~= feature_paths(names(area@.skip(1)), views(features@)));
    (target, all)
}

/// The chain to the product checked out, or the error that the branch
/// checked out is no product.
pub fn require_product<'a>(current: NodePathType<'a>) -> (r: Result<
    NodePath<'a, Product>,
    CommandError,
>)
    ensures
        match r {
            Ok(path) => current.role() == NodeType::Product && path@ == current.chain(),
            Err(e) => current.role() != NodeType::Product && e.message()
                == no_product_here_message(),
        },
{
    match current {
        NodePathType::Product(path) => Ok(path),
        _ => Err(CommandError::new("Not on product branch")),
    }
}

/// The hash and the message of each commit, one by one.
pub open spec fn commit_views(history: Seq<Commit>) -> Seq<(Seq<char>, Seq<char>)> {
    Seq::new(history.len(), |i: int| (history[i].hash_text(), history[i].message_text()))
}

/// The commits whose message carries the mark of a finished derivation, in
/// order.
pub open spec fn marked(all: Seq<(Seq<char>, Seq<char>)>) -> Seq<(Seq<char>, Seq<char>)>
    decreases all.len(),
{
    if all.len() == 0 {
        Seq::empty()
    } else if occurs_in(all.last().1, derivation_mark()) {
        marked(all.drop_last()).push(all.last())
    } else {
        marked(all.drop_last())
    }
}

/// The commits of the history that end a derivation, in order.
pub fn derivation_commits(history: &Vec<Commit>) -> (r: Vec<Commit>)
    ensures
        commit_views(r@) == marked(commit_views(history@)),
{
    let ghost all = commit_views(history@);
    let mut out: Vec<Commit> = Vec::new();
    let mut i: usize = 0;
    proof {
        assert(all.take(0) =~= Seq::empty());
        assert(commit_views(out@) =~= Seq::empty());
    }
    while i < history.len()
        invariant
            i <= history.len(),
            all == commit_views(history@),
            commit_views(out@) == marked(all.take(i as int)),
        decreases history.len() - i,
    {
        let commit = &history[i];
        proof {
            assert(all.take(i + 1).drop_last() =~= all.take(i as int));
            assert(all.take(i + 1).last() == (commit.hash_text(), commit.message_text()));
        }
        if text_contains(commit.message().as_str(), "DERIVATION FINISHED") {
            let ghost before = commit_views(out@);
            let copy = Commit::new(commit.hash().as_str(), commit.message().as_str());
            out.push(copy);
            assert(commit_views(out@) =~= before.push(
                (commit.hash_text(), commit.message_text()),
            ));
        }
        i += 1;
    }
    assert(all.take(all.len() as int) =~= all);
    out
}

/// The chain under which features are completed while the branch at the
/// end of `current` is checked out: the feature root of an area, a feature
/// root or a feature itself. Elsewhere no feature is completed.
pub fn feature_completion_root<'a>(current: NodePathType<'a>) -> (r: Option<
    NodePath<'a, AnyNodeType>,
>)
    ensures
        match r {
            Some(path) => match current.role() {
                NodeType::Area => current.chain().last().child(feature_root_name()) == Some(
                    path@.last(),
                ) && path@.last().role == NodeType::FeatureRoot && path@ == current.chain().push(
                    path@.last(),
                ),
                NodeType::FeatureRoot | NodeType::Feature => path@ == current.chain(),
                _ => false,
            },
            None => match current.role() {
                NodeType::Area => match current.chain().last().child(feature_root_name()) {
                    Some(c) => c.role != NodeType::FeatureRoot,
                    None => true,
                },
                NodeType::FeatureRoot | NodeType::Feature => false,
                _ => true,
            },
        },
{
    match current {
        NodePathType::Area(path) => match path.to_feature_root() {
            Some(root) => Some(root.to_any_type()),
            None => None,
        },
        NodePathType::FeatureRoot(path) => Some(path.to_any_type()),
        NodePathType::Feature(path) => Some(path.to_any_type()),
        _ => None,
    }
}

/// The text followed by the separator, unless it ends with it already.
pub open spec fn as_step(text: Seq<char>) -> Seq<char> {
    if seq!['/'].is_suffix_of(text) {
        text
    } else {
        text.push('/')
    }
}

/// The texts as steps, one by one.
pub open spec fn as_steps(texts: Seq<Seq<char>>) -> Seq<Seq<char>> {
    Seq::new(texts.len(), |i: int| as_step(texts[i]))
}

/// What is offered for a new feature: the features that exist, each as a
/// step to go on from, and then the places without a branch.
pub fn feature_completions(with_branch: &Vec<String>, without_branch: &Vec<String>) -> (r: Vec<
    String,
>)
    ensures
        views(r@) == as_steps(views(with_branch@)) + views(without_branch@),
{
    let mut out: Vec<String> = Vec::new();
    let mut i: usize = 0;
    while i < with_branch.len()
        invariant
            i <= with_branch.len(),
            out@.len() == i,
            forall|j: int| 0 <= j < i ==> (#[trigger] out@[j])@ == as_step(with_branch@[j]@),
        decreases with_branch.len() - i,
    {
        let mut text = with_branch[i].clone();
        proof {
            reveal_strlit("/");
            assert("/"@ =~= seq!['/']);
        }
        if !text_ends_with(text.as_str(), "/") {
            text.push('/');
        }
        out.push(text);
        i += 1;
    }
    let ghost steps = views(out@);
    assert(steps =~= as_steps(views(with_branch@)));
    let mut j: usize = 0;
    while j < without_branch.len()
        invariant
            j <= without_branch.len(),
            views(out@) == steps + views(without_branch@).take(j as int),
        decreases without_branch.len() - j,
    {
        let ghost before = views(out@);
        out.push(without_branch[j].clone());
        proof {
            assert(views(out@) =~= before.push(without_branch@[j as int]@));
            assert(views(without_branch@).take(j + 1) =~= views(without_branch@).take(
                j as int,
            ).push(without_branch@[j as int]@));
        }
        j += 1;
    }
    assert(views(without_branch@).take(without_branch@.len() as int) =~= views(without_branch@));
    out
}

} // verus!
