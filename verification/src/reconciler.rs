//! Making the fibers that a root starts from.

pub mod internal;

use vstd::prelude::*;
use crate::host::HostNode;
use crate::reconciler::internal::types::{Fiber, FiberRoot, WorkTag};
use crate::shared::ReactNodeList;

verus! {

/// The tag of the fiber that stands for `element`: a component is expanded
/// by its render, everything else is mounted as it stands.
pub open spec fn tag_of(element: ReactNodeList) -> WorkTag {
    match element {
        ReactNodeList::FunctionComponent => WorkTag::FunctionComponent,
        _ => WorkTag::HostRoot,
    }
}

/// The root for `container`: nothing is committed yet, and the work in
/// progress is one keyless fiber for the host root.
pub fn create_root_fiber(container: HostNode) -> (root: FiberRoot)
    ensures
        root.container@ == container@,
        root.current is None,
        root.wip == Some(Fiber { key: None, work_tag: WorkTag::HostRoot }),
{
    let current = Fiber::new(WorkTag::HostRoot, None);
    FiberRoot { container, current: None, wip: Some(current) }
}

/// A keyless fiber for `element`, tagged by the element's kind.
pub fn create_fiber(element: ReactNodeList) -> (fiber: Fiber)
    ensures
        fiber == (Fiber { key: None, work_tag: tag_of(element) }),
{
    Fiber::new(
        match element {
            ReactNodeList::FunctionComponent => WorkTag::FunctionComponent,
            _ => WorkTag::HostRoot,
        },
        None,
    )
}

} // verus!
