//! The roles of tree nodes and the rule for the role of a child.
use vstd::prelude::*;
use vstd::string::StringExecFns;
use crate::text::same_text;

verus! {

/// Marks a handle whose tip is expected to be a feature.
pub struct Feature;

/// Marks a handle whose tip is expected to be the root of an area's features.
pub struct FeatureRoot;

/// Marks a handle whose tip is expected to be a product.
pub struct Product;

/// Marks a handle whose tip is expected to be the root of an area's products.
pub struct ProductRoot;

/// Marks a handle whose tip is expected to be an area.
pub struct Area;

/// Marks a handle whose tip is expected to be the virtual root.
pub struct VirtualRoot;

/// Marks a handle whose tip is expected to be a tag.
pub struct Tag;

/// Marks a handle of which no role is expected.
pub struct AnyNodeType;

/// The name of the child of an area that roots its features.
pub open spec fn feature_root_name() -> Seq<char> {
    "feature"@
}

/// The name of the child of an area that roots its products.
pub open spec fn product_root_name() -> Seq<char> {
    "product"@
}

/// The constant names of the model.
pub struct ModelConstants;

impl ModelConstants {
    /// The name of a feature root.
    pub fn feature_prefix() -> (r: String)
        ensures
            r@ == feature_root_name(),
    {
        String::from_str("feature")
    }

    /// The name of a product root.
    pub fn product_prefix() -> (r: String)
        ensures
            r@ == product_root_name(),
    {
        String::from_str("product")
    }

    /// The name of a feature root, followed by the separator.
    pub fn feature_path_prefix() -> (r: String)
        ensures
            r@ == feature_root_name().push('/'),
    {
        let mut r = String::from_str("feature");
        r.push('/');
        r
    }

    /// The name of a product root, followed by the separator.
    pub fn product_path_prefix() -> (r: String)
        ensures
            r@ == product_root_name().push('/'),
    {
        let mut r = String::from_str("product");
        r.push('/');
        r
    }
}

/// A child was asked for that the role of its parent does not admit.
#[derive(Debug, Clone)]
pub struct WrongNodeTypeError {
    msg: String,
}

impl WrongNodeTypeError {
    /// The message as text.
    pub closed spec fn message(&self) -> Seq<char> {
        self.msg@
    }

    /// An error with the given message.
    pub fn new(msg: &str) -> (r: WrongNodeTypeError)
        ensures
            r.message() == msg@,
    {
        WrongNodeTypeError { msg: String::from_str(msg) }
    }

    /// The message.
    pub fn to_string(&self) -> (r: String)
        ensures
            r@ == self.message(),
    {
        self.msg.clone()
    }
}

/// The role of a node in the tree.
#[derive(Clone, Copy, Debug, PartialEq, Eq, Structural)]
pub enum NodeType {
    Feature,
    Product,
    FeatureRoot,
    ProductRoot,
    Area,
    VirtualRoot,
    Tag,
}

/// The role of a child named `name` under a parent of role `role`, where the
/// parent admits such a child.
pub open spec fn child_role(role: NodeType, name: Seq<char>) -> Option<NodeType> {
    match role {
        NodeType::Feature | NodeType::FeatureRoot => Some(NodeType::Feature),
        NodeType::Product | NodeType::ProductRoot => Some(NodeType::Product),
        NodeType::VirtualRoot => Some(NodeType::Area),
        NodeType::Area => if name == feature_root_name() {
            Some(NodeType::FeatureRoot)
        } else if name == product_root_name() {
            Some(NodeType::ProductRoot)
        } else {
            None
        },
        NodeType::Tag => None,
    }
}

/// The message of the error for a child of an area that is neither its
/// feature root nor its product root.
pub open spec fn no_area_child_message(name: Seq<char>) -> Seq<char> {
    "'"@ + name + "' is no valid child of an area node. Valid childs include: feature, product"@
}

/// The message of the error for a child of a tag.
pub open spec fn tag_child_message() -> Seq<char> {
    "Tags cannot have children"@
}

/// The message of the error for a child named `name` under a parent of role
/// `role` that does not admit it.
pub open spec fn role_violation_message(role: NodeType, name: Seq<char>) -> Seq<char> {
    if role == NodeType::Tag {
        tag_child_message()
    } else {
        no_area_child_message(name)
    }
}

impl NodeType {
    /// The role of a child named `name`, or the error that this role admits no
    /// such child.
    pub fn build_child_from_name(&mut self, name: &str) -> (r: Result<NodeType, WrongNodeTypeError>)
        ensures
            *final(self) == *old(self),
            match r {
                Ok(t) => child_role(*old(self), name@) == Some(t),
                Err(e) => child_role(*old(self), name@) is None && e.message()
                    == role_violation_message(*old(self), name@),
            },
    {
        match self {
            NodeType::Feature => Ok(NodeType::Feature),
            NodeType::Product => Ok(NodeType::Product),
            NodeType::FeatureRoot => Ok(NodeType::Feature),
            NodeType::ProductRoot => Ok(NodeType::Product),
            NodeType::VirtualRoot => Ok(NodeType::Area),
            NodeType::Area => {
                if same_text(name, "feature") {
                    Ok(NodeType::FeatureRoot)
                } else if same_text(name, "product") {
                    Ok(NodeType::ProductRoot)
                } else {
                    let mut msg = String::from_str("'");
                    msg.append(name);
                    msg.append(
                        "' is no valid child of an area node. Valid childs include: feature, product",
                    );
                    Err(WrongNodeTypeError { msg })
                }
            },
            NodeType::Tag => Err(WrongNodeTypeError::new("Tags cannot have children")),
        }
    }
}

} // verus!
