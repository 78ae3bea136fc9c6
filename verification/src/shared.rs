//! The kinds of virtual node, without what they hold, and the interface of
//! a root that can be rendered into.

use vstd::prelude::*;

verus! {

/// The shape of a tree of virtual nodes: components, host elements by tag,
/// and lists.
#[derive(Debug)]
pub enum ReactNodeList {
    FunctionComponent,
    HostElement(&'static str),
    List(Vec<ReactNodeList>),
}

/// A root that content can be rendered into. A root that does not say what
/// rendering means renders nothing.
pub trait RootType {
    fn render(&self, children: ReactNodeList) {
    }
}

} // verus!
