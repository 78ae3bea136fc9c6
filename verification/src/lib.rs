//! A fiber reconciler: it renders a tree of virtual nodes into a tree of
//! host nodes, one unit of work at a time.
//!
//! A render pass turns the virtual tree into a fiber tree ([`fiber`]), one
//! fiber per visit of a virtual node, in units of work that a caller runs
//! whenever it has time ([`react`]). Fibers for elements and text produce a
//! host node ([`host`], [`dom`]) with the attributes that the element
//! declares ([`props`]). When the last unit is done the pass is committed:
//! the commit names, in order, the host nodes to take off the container and
//! the host nodes to attach, each to the host node of the nearest fiber above
//! that owns one. The platform layer builds the concrete nodes and carries
//! the commit out; until then nothing of a pass touches the platform.
//!
//! [`traversal`] states what holds of a pass in flight and proves that a
//! finished fiber tree is the image of the virtual tree it was rendered from.
//! [`passes`] proves that a tree without components renders the same way
//! every time and that a commit replaces what the last one attached.
//! [`shared`] and [`reconciler`] describe trees and fibers by kind alone, for
//! callers that classify without rendering.

pub mod dom;
pub mod fiber;
pub mod host;
pub mod passes;
pub mod props;
pub mod react;
pub mod reconciler;
pub mod shared;
pub mod traversal;
