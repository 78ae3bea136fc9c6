//! Tags that classify fibers and the changes that a commit makes, and the
//! summary of a fiber by tag and key.

use vstd::prelude::*;
use crate::host::HostNode;

verus! {

/// What kind of work a fiber stands for.
#[derive(Clone, Copy, Debug, PartialEq, Eq, Structural)]
pub enum WorkTag {
    /// A component, expanded by its render.
    FunctionComponent,
    /// Anything that is mounted as it stands.
    HostRoot,
}

/// The kind of change that a commit makes to the host tree.
#[derive(Clone, Copy, Debug, PartialEq, Eq, Structural)]
pub enum EffectTag {
    /// A host node is attached as the last child of its host parent.
    Insert,
    /// A host node is brought up to date in place.
    Update,
    /// A host node is taken off its host parent.
    Delete,
}

/// A fiber by what identifies it: its tag, and a key where it has one.
#[derive(Clone, Copy, Debug, PartialEq, Eq, Structural)]
pub struct Fiber {
    pub key: Option<usize>,
    pub work_tag: WorkTag,
}

impl Fiber {
    pub fn new(work_tag: WorkTag, key: Option<usize>) -> (fiber: Fiber)
        ensures
            fiber == (Fiber { key, work_tag }),
    {
        Fiber { key, work_tag }
    }
}

/// A root by what identifies it: its container, the fiber that is
/// committed and the fiber that is in progress.
#[derive(Debug)]
pub struct FiberRoot {
    pub container: HostNode,
    pub current: Option<Fiber>,
    pub wip: Option<Fiber>,
}

} // verus!
