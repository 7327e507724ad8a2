//! Generic depth-first traversal: a visitor is offered each node and
//! either declines to descend or hands back the visitor to use for that
//! node's children.

use vstd::prelude::*;
use crate::ast::Node;

verus! {

/// A traversal capability: `visit` returns the visitor for the node's
/// children, or `None` to skip the subtree.
pub trait Visitor {
    fn visit(&self, node: &Node) -> Option<&Self>;
}

/// Depth-first walk from `node`: offers the node to the visitor and, if
/// it accepts, walks the children with the visitor it handed back.
pub fn walk<V: Visitor>(v: &V, node: &Node)
    decreases *node, 0int,
{
    if let Some(v2) = v.visit(node) {
        match node {
            Node::Loop(n) => {
                walk(v2, &*n.body);
            },
            Node::Program(n) => {
                walk(v2, &*n.body);
            },
            Node::Body(n) => {
                walk_for_list(v2, &n.list);
            },
            _ => {},
        }
    }
}

/// Walks each sibling in order.
fn walk_for_list<V: Visitor>(v: &V, list: &Vec<Node>)
    decreases *list, 1int,
{
    let n = list.len();
    let mut i: usize = 0;
    while i < n
        invariant
            n == list@.len(),
            i <= n,
        decreases n - i,
    {
        walk(v, &list[i]);
        i += 1;
    }
}

} // verus!
