//! The reconciliation engine: virtual nodes, the unit of work that turns one
//! of them into fibers, and the commit that attaches what was produced.

use vstd::prelude::*;
use vstd::string::StringExecFns;
use std::rc::Rc;
use crate::fiber::{
    attached_to_root, chain_from, child_elements, child_fiber, committable,
    lemma_committable_below_root, lemma_committable_parts, dom_after, grown, host_parent,
    lemma_grown_linked, lemma_placements_unfold,
    lemma_with_dom_linked, linked, links_fit, next_above, next_unit, performed, placements,
    placements_of, removals, with_dom, FiberView,
};
use crate::host::{HostNode, HostNodeView};
use crate::reconciler::internal::types::EffectTag;
use crate::traversal::{
    in_progress, lemma_complete, lemma_settled_tree_mirrors, lemma_unit_keeps_progress, mirrors,
    node_at, pending, settled, untouched,
};

pub use crate::dom::{create_dom, create_text, is_gone, is_new, update_dom};
pub use crate::fiber::{Effect, Fiber, FiberNode, FiberTree};
pub use crate::props::{Attribute, EventListener, HostAttribute, HostProps, StringAttr};

verus! {

/// Why a render pass was given up.
#[derive(Clone, Copy, Debug, PartialEq, Eq, Structural)]
pub enum RenderError {
    /// The platform rejected an element, text or attribute operation.
    HostPlatform,
    /// A component could not produce its subtree.
    ComponentRender,
}

/// A component: given nothing but itself, it produces a fresh subtree of
/// virtual nodes, or fails.
pub trait FunctionComponent: Sized {
    fn render(&self) -> Result<ReactNodeList<Self>, RenderError>;
}

/// A virtual node: the description of what should exist.
#[derive(Debug)]
pub enum ReactNodeList<C> {
    /// The top of a render pass, around exactly one child.
    Root(Rc<ReactNodeList<C>>),
    /// Siblings, in order.
    List(Vec<Rc<ReactNodeList<C>>>),
    /// A host element: tag, attributes, and at most one child.
    Host(&'static str, HostProps, Option<Rc<ReactNodeList<C>>>),
    /// A run of text.
    Text(String),
    /// A component, expanded when its fiber is visited.
    FunctionComponent(C),
}

impl<C> ReactNodeList<C> {
    /// The name that `get_name` gives a node.
    pub open spec fn name(self) -> Seq<char> {
        match self {
            ReactNodeList::Root(_) => "ROOT"@,
            ReactNodeList::Host(tag, _, _) => tag@ + " (host)"@,
            ReactNodeList::Text(content) => content@ + " (text)"@,
            ReactNodeList::FunctionComponent(_) => "FunctionComponent"@,
            ReactNodeList::List(_) => "_"@,
        }
    }

    /// A short name for the node: `ROOT`, the tag followed by ` (host)`, the
    /// text followed by ` (text)`, `FunctionComponent`, or `_` for a list.
    pub fn get_name(&self) -> (name: String)
        ensures
            name@ == self.name(),
    {
        match self {
            ReactNodeList::Root(_) => String::from_str("ROOT"),
            ReactNodeList::Host(tag, _, _) => String::from_str(tag).concat(" (host)"),
            ReactNodeList::Text(content) => content.clone().concat(" (text)"),
            ReactNodeList::FunctionComponent(_) => String::from_str("FunctionComponent"),
            ReactNodeList::List(_) => String::from_str("_"),
        }
    }
}

/// A second pointer to the node behind `node`; the node itself is not
/// copied.
pub(crate) fn share<C>(node: &Rc<ReactNodeList<C>>) -> (shared: Rc<ReactNodeList<C>>)
    ensures
        shared == *node,
{
    Rc::clone(node)
}

/// Adds one fiber per entry of `children` to the tree, in order, and links
/// them as the children of `wip_fiber`: the first becomes its `child`, each
/// one the `sibling` of the one before, the last has no sibling, and all have
/// `wip_fiber` as parent.
pub fn reconcile_children<C>(
    tree: &mut FiberTree<C>,
    wip_fiber: Fiber,
    children: &Vec<Rc<ReactNodeList<C>>>,
)
    requires
        wip_fiber < old(tree)@.len(),
    ensures
        final(tree)@ == grown(old(tree)@, wip_fiber as int, children@),
{
    let ghost before = tree@;
    let base = tree.nodes.len();
    let count = children.len();
    if count == 0 {
        tree.nodes[wip_fiber].child = None;
        assert(tree@ =~= grown(before, wip_fiber as int, children@));
        return ;
    }
    tree.nodes[wip_fiber].child = Some(base);
    let ghost started = tree@;
    assert(started =~= grown(before, wip_fiber as int, children@).take(base as int));
    let mut i: usize = 0;
    while i < count
        invariant
            i <= count,
            count == children@.len(),
            count > 0,
            base == before.len(),
            wip_fiber < base,
            tree.nodes@.len() == base + i,
            tree@.take(base as int) == started,
            started == grown(before, wip_fiber as int, children@).take(base as int),
            forall|k: int|
                0 <= k < i ==> #[trigger] tree@[base + k] == (FiberView {
                    sibling: if k + 1 < i {
                        Some((base + k + 1) as usize)
                    } else {
                        None
                    },
                    ..child_fiber(children@[k], wip_fiber as int, base as int, k, count as int)
                }),
        decreases count - i,
    {
        let ghost prev = tree@;
        let mut fiber = FiberNode::new(share(&children[i]));
        fiber.parent = Some(wip_fiber);
        let index = tree.nodes.len();
        if i > 0 {
            tree.nodes[index - 1].sibling = Some(index);
        }
        tree.nodes.push(fiber);
        proof {
            assert(tree@.take(base as int) =~= prev.take(base as int));
            assert forall|k: int| 0 <= k < i + 1 implies #[trigger] tree@[base + k] == (FiberView {
                sibling: if k + 1 < i + 1 {
                    Some((base + k + 1) as usize)
                } else {
                    None
                },
                ..child_fiber(children@[k], wip_fiber as int, base as int, k, count as int)
            }) by {
                if k < i {
                    assert(prev[base + k] == (FiberView {
                        sibling: if k + 1 < i {
                            Some((base + k + 1) as usize)
                        } else {
                            None
                        },
                        ..child_fiber(children@[k], wip_fiber as int, base as int, k, count as int)
                    }));
                }
            }
        }
        i += 1;
    }
    proof {
        let goal = grown(before, wip_fiber as int, children@);
        assert(tree@.len() == goal.len());
        assert forall|j: int| 0 <= j < goal.len() implies tree@[j] == goal[j] by {
            if j < base {
                assert(tree@[j] == tree@.take(base as int)[j]);
                assert(goal[j] == goal.take(base as int)[j]);
            } else {
                assert(tree@[base + (j - base)] == goal[j]);
            }
        }
        assert(tree@ =~= goal);
    }
}

/// The virtual nodes that became the children of fiber `f` in its unit of
/// work: what its node holds, or for a component the one node that its
/// render produced, read off the fiber that was added for it.
pub open spec fn unit_kids<C>(before: Seq<FiberView<C>>, after: Seq<FiberView<C>>, f: int) -> Seq<
    Rc<ReactNodeList<C>>,
> {
    match *before[f].element {
        ReactNodeList::FunctionComponent(_) => seq![after[before.len() as int].element],
        _ => child_elements(*before[f].element),
    }
}

/// Whether `outcome` is what the render of the component `element` gave:
/// whatever the component's own contract says of its render holds of it.
pub open spec fn rendered_by<C: FunctionComponent>(
    element: ReactNodeList<C>,
    outcome: Result<ReactNodeList<C>, RenderError>,
) -> bool {
    &&& element is FunctionComponent
    &&& call_ensures(C::render, (&element->FunctionComponent_0,), outcome)
}

/// Finishes the unit of work of a component fiber, given what its render
/// gave.
///
/// A node that was rendered becomes the fiber's one child: it gets a fiber
/// of its own at the end of the tree, with `fiber` as parent and no sibling,
/// and the unit that follows is returned. A failure is handed on as it came
/// and the tree stays as it was.
pub fn expand_component<C>(
    tree: &mut FiberTree<C>,
    fiber: Fiber,
    rendered: Result<ReactNodeList<C>, RenderError>,
) -> (result: Result<Option<Fiber>, RenderError>)
    requires
        linked(old(tree)@),
        fiber < old(tree)@.len(),
    ensures
        linked(final(tree)@),
        match rendered {
            Ok(node) => {
                &&& final(tree)@ == grown(old(tree)@, fiber as int, seq![Rc::new(node)])
                &&& result == Ok::<Option<Fiber>, RenderError>(
                    next_unit(final(tree)@, fiber as int),
                )
            },
            Err(error) => {
                &&& final(tree)@ == old(tree)@
                &&& result == Err::<Option<Fiber>, RenderError>(error)
            },
        },
{
    match rendered {
        Ok(node) => {
            let ghost before = tree@;
            let child = vec![Rc::new(node)];
            reconcile_children(tree, fiber, &child);
            proof {
                assert(tree.nodes.len() == tree@.len());
                lemma_grown_linked(before, fiber as int, child@);
                assert(child@ =~= seq![Rc::new(node)]);
            }
            Ok(unit_after(tree, fiber))
        },
        Err(error) => Err(error),
    }
}

/// Performs the unit of work of `fiber` and returns the unit that follows.
///
/// The fiber's host node is produced where its kind has one, its children
/// are added to the tree, and the next unit is its first child, else the
/// next sibling of the nearest fiber at or above it that has one, else
/// nothing: the traversal is complete. A component is rendered, and what it
/// rendered becomes its one child; where its render fails, the tree is left
/// as it was and the failure is returned as it came. No other fiber fails.
pub fn perform_unit_of_work<C: FunctionComponent>(tree: &mut FiberTree<C>, fiber: Fiber) -> (result:
    Result<Option<Fiber>, RenderError>)
    requires
        linked(old(tree)@),
        fiber < old(tree)@.len(),
    ensures
        linked(final(tree)@),
        match result {
            Ok(next) => {
                &&& final(tree)@ == performed(
                    old(tree)@,
                    fiber as int,
                    unit_kids(old(tree)@, final(tree)@, fiber as int),
                )
                &&& *old(tree)@[fiber as int].element is FunctionComponent ==> final(tree)@.len()
                    == old(tree)@.len() + 1
                &&& next == next_unit(final(tree)@, fiber as int)
            },
            Err(error) => {
                &&& rendered_by(
                    *old(tree)@[fiber as int].element,
                    Err::<ReactNodeList<C>, RenderError>(error),
                )
                &&& final(tree)@ == old(tree)@
            },
        },
        (*old(tree)@[fiber as int].element is FunctionComponent && result is Ok) ==> rendered_by(
            *old(tree)@[fiber as int].element,
            Ok::<ReactNodeList<C>, RenderError>(
                *final(tree)@[old(tree)@.len() as int].element,
            ),
        ),
{
    let ghost before = tree@;
    let element = share(&tree.nodes[fiber].element);
    if let ReactNodeList::FunctionComponent(component) = &*element {
        let rendered = component.render();
        let result = expand_component(tree, fiber, rendered);
        proof {
            if rendered is Ok {
                let kids = seq![Rc::new(rendered->Ok_0)];
                assert(before =~= with_dom(before, fiber as int, dom_after(before[fiber as int])));
                assert(kids =~= unit_kids(before, tree@, fiber as int));
            }
        }
        return result;
    }
    // The host node of the fiber, and its child where it has exactly one.
    let only_child: Option<Rc<ReactNodeList<C>>> = match &*element {
        ReactNodeList::Root(child) => Some(share(child)),
        ReactNodeList::Host(_, _, child) => {
            if tree.nodes[fiber].dom.is_none() {
                let node = create_dom(&tree.nodes[fiber]);
                tree.nodes[fiber].dom = Some(node);
            }
            match child {
                Some(child) => Some(share(child)),
                None => None,
            }
        },
        ReactNodeList::List(_) => None,
        ReactNodeList::Text(text) => {
            tree.nodes[fiber].dom = Some(create_text(text.as_str()));
            None
        },
        ReactNodeList::FunctionComponent(_) => None,
    };
    let ghost prepared = tree@;
    proof {
        assert(prepared =~= with_dom(before, fiber as int, dom_after(before[fiber as int])));
        lemma_with_dom_linked(before, fiber as int, dom_after(before[fiber as int]));
    }
    let ghost kids;
    match &*element {
        ReactNodeList::List(items) => {
            reconcile_children(tree, fiber, items);
            proof {
                kids = items@;
            }
        },
        _ => {
            let one_or_none = match only_child {
                Some(child) => vec![child],
                None => Vec::new(),
            };
            reconcile_children(tree, fiber, &one_or_none);
            proof {
                kids = one_or_none@;
            }
        },
    }
    proof {
        assert(tree.nodes.len() == tree@.len());
        lemma_grown_linked(prepared, fiber as int, kids);
        assert(kids =~= unit_kids(before, tree@, fiber as int));
    }
    Ok(unit_after(tree, fiber))
}

/// The unit of work that follows `fiber` in a tree that holds its children.
fn unit_after<C>(tree: &FiberTree<C>, fiber: Fiber) -> (next: Option<Fiber>)
    requires
        linked(tree@),
        fiber < tree@.len(),
    ensures
        next == next_unit(tree@, fiber as int),
{
    if let Some(child) = tree.nodes[fiber].child {
        return Some(child);
    }
    let mut current = fiber;
    loop
        invariant
            linked(tree@),
            current < tree@.len(),
            next_above(tree@, current as int) == next_above(tree@, fiber as int),
            tree@[fiber as int].child is None,
        decreases current,
    {
        assert(links_fit(tree@, current as int));
        if let Some(sibling) = tree.nodes[current].sibling {
            return Some(sibling);
        }
        match tree.nodes[current].parent {
            Some(parent) => {
                current = parent;
            },
            None => {
                return None;
            },
        }
    }
}

/// The nearest fiber above `fiber` that owns a host node.
fn find_host_parent<C>(tree: &FiberTree<C>, fiber: Fiber) -> (found: Fiber)
    requires
        linked(tree@),
        fiber < tree@.len(),
        host_parent(tree@, fiber as int) is Some,
    ensures
        host_parent(tree@, fiber as int) == Some(found),
        found < fiber,
        tree@[found as int].dom is Some,
{
    assert(links_fit(tree@, fiber as int));
    let mut current = match tree.nodes[fiber].parent {
        Some(parent) => parent,
        None => 0,
    };
    while tree.nodes[current].dom.is_none()
        invariant
            linked(tree@),
            current < fiber < tree@.len(),
            host_parent(tree@, fiber as int) is Some,
            host_parent(tree@, fiber as int) == (if tree@[current as int].dom is Some {
                Some(current)
            } else {
                host_parent(tree@, current as int)
            }),
        decreases current,
    {
        assert(links_fit(tree@, current as int));
        let ghost below = current;
        current = match tree.nodes[current].parent {
            Some(parent) => parent,
            None => 0,
        };
        assert(links_fit(tree@, current as int));
        assert(current < below);
    }
    current
}

/// Commits from `fiber`: in pre-order over the fiber, everything below it
/// and its later siblings, each fiber that owns a host node has it attached
/// as the last child of the host node of the nearest fiber above that owns
/// one. Fibers without a host node add nothing and are passed through; only
/// a fiber that owns a host node needs a fiber above it that owns one.
pub fn commit_work<C>(tree: &FiberTree<C>, fiber: Fiber, effects: &mut Vec<Effect>)
    requires
        linked(tree@),
        fiber < tree@.len(),
        committable(tree@, fiber as int),
    ensures
        final(effects)@ == old(effects)@ + placements(tree@, fiber as int),
    decreases tree@.len() - fiber,
{
    proof {
        lemma_placements_unfold(tree@, fiber as int);
        lemma_committable_parts(tree@, fiber as int);
        assert(links_fit(tree@, fiber as int));
    }
    let ghost start = effects@;
    if tree.nodes[fiber].dom.is_some() {
        let dom_parent = find_host_parent(tree, fiber);
        effects.push(Effect { tag: EffectTag::Insert, parent: dom_parent, child: fiber });
    }
    if let Some(child) = tree.nodes[fiber].child {
        commit_work(tree, child, effects);
    }
    if let Some(sibling) = tree.nodes[fiber].sibling {
        commit_work(tree, sibling, effects);
    }
    assert(effects@ =~= start + placements(tree@, fiber as int));
}

/// Where a fiber root stands with its render pass.
#[derive(Clone, Copy, Debug, PartialEq, Eq, Structural)]
pub enum WorkStatus {
    /// No pass is in flight.
    Idle,
    /// A pass is in flight and units of work remain.
    Pending,
    /// Every unit of the pass is done; the pass awaits its commit.
    Complete,
    /// The pass was given up; nothing of it was committed.
    Failed(RenderError),
}

/// The handle of one mount point: the container, the tree that was committed
/// last and the tree of the pass in flight.
#[derive(Debug)]
pub struct FiberRootNode<C> {
    /// The virtual node of the pass that was begun last, under its `Root`.
    pub element: Option<Rc<ReactNodeList<C>>>,
    /// The host node that rendered content is attached under.
    pub dom: HostNode,
    /// The tree of the pass that was committed last; empty before the first.
    pub current: FiberTree<C>,
    /// The fibers of `current` whose host nodes hang directly under `dom`.
    pub mounted: Vec<Fiber>,
    /// The tree of the pass in flight; empty where there is none.
    pub wip_root: FiberTree<C>,
    pub next_unit_of_work: Option<Fiber>,
    pub status: WorkStatus,
}

/// Whether `fibers` is the tree of a pass under `container`: its root stands
/// for a `Root` node and owns the container.
pub open spec fn rooted<C>(fibers: Seq<FiberView<C>>, container: HostNodeView) -> bool {
    &&& fibers.len() > 0
    &&& *fibers[0].element is Root
    &&& fibers[0].dom == Some(container)
}

/// The one fiber of a pass that has just begun on `children`.
pub open spec fn root_fiber<C>(
    children: ReactNodeList<C>,
    container: HostNodeView,
) -> FiberView<C> {
    FiberView {
        element: Rc::new(ReactNodeList::Root(Rc::new(children))),
        dom: Some(container),
        child: None,
        sibling: None,
        parent: None,
    }
}

impl<C> FiberRootNode<C> {
    /// Well-formedness: a pass in flight is a traversal in flight of a tree
    /// under the container, with a next unit exactly while units remain;
    /// without a pass there is no tree in flight. The committed tree, where
    /// there is one, is a finished tree under the container, and `mounted`
    /// names what it attached to the container.
    pub open spec fn well_formed(&self) -> bool {
        &&& match self.status {
            WorkStatus::Pending => {
                &&& self.next_unit_of_work is Some
                &&& in_progress(self.wip_root@, self.next_unit_of_work)
                &&& rooted(self.wip_root@, self.dom@)
                &&& self.element == Some(self.wip_root@[0].element)
            },
            WorkStatus::Complete => {
                &&& self.next_unit_of_work is None
                &&& in_progress(self.wip_root@, None)
                &&& rooted(self.wip_root@, self.dom@)
                &&& self.element == Some(self.wip_root@[0].element)
            },
            _ => self.next_unit_of_work is None && self.wip_root@.len() == 0,
        }
        &&& if self.current@.len() > 0 {
            &&& in_progress(self.current@, None)
            &&& rooted(self.current@, self.dom@)
            &&& self.mounted@ == attached_to_root(self.current@)
        } else {
            self.mounted@.len() == 0
        }
    }

    fn new(dom: HostNode) -> (root: FiberRootNode<C>)
        ensures
            root.well_formed(),
            root.dom@ == dom@,
            root.status == WorkStatus::Idle,
            root.current@.len() == 0,
    {
        FiberRootNode {
            element: None,
            dom,
            current: FiberTree { nodes: Vec::new() },
            mounted: Vec::new(),
            wip_root: FiberTree { nodes: Vec::new() },
            next_unit_of_work: None,
            status: WorkStatus::Idle,
        }
    }

    /// Begins a render pass on `children`. A pass that was in flight is
    /// dropped: nothing of it was committed. The new pass has one fiber, the
    /// root, which owns the container and is the next unit of work. What was
    /// committed before stays as it is until the new pass is committed.
    pub fn render(&mut self, children: ReactNodeList<C>)
        requires
            old(self).well_formed(),
        ensures
            final(self).well_formed(),
            final(self).status == WorkStatus::Pending,
            final(self).next_unit_of_work == Some(0usize),
            final(self).wip_root@ == seq![root_fiber(children, old(self).dom@)],
            final(self).element == Some(Rc::new(ReactNodeList::Root(Rc::new(children)))),
            final(self).dom@ == old(self).dom@,
            final(self).current@ == old(self).current@,
            final(self).mounted@ == old(self).mounted@,
    {
        let element = Rc::new(ReactNodeList::Root(Rc::new(children)));
        self.element = Some(share(&element));
        let mut fiber = FiberNode::new(element);
        fiber.dom = Some(self.dom.duplicate());
        let mut nodes: Vec<FiberNode<C>> = Vec::new();
        nodes.push(fiber);
        self.wip_root = FiberTree { nodes };
        self.next_unit_of_work = Some(0);
        self.status = WorkStatus::Pending;
        proof {
            let fibers = self.wip_root@;
            assert(fibers =~= seq![root_fiber(children, old(self).dom@)]);
            assert(links_fit(fibers, 0));
            assert forall|g: int| 0 <= g < fibers.len() implies if #[trigger] pending(
                fibers,
                Some(0usize),
                g,
            ) {
                untouched(fibers, g)
            } else {
                settled(fibers, g)
            } by {
                assert(chain_from(fibers, 0)[0] == 0);
            }
        }
    }

    /// Gives up the pass in flight because of `error`. Nothing of the pass is
    /// committed and what was committed before stays as it is. Without a pass
    /// in flight nothing changes.
    pub fn abort(&mut self, error: RenderError)
        requires
            old(self).well_formed(),
        ensures
            final(self).well_formed(),
            final(self).element == old(self).element,
            final(self).dom@ == old(self).dom@,
            final(self).current@ == old(self).current@,
            final(self).mounted@ == old(self).mounted@,
            final(self).next_unit_of_work is None,
            final(self).wip_root@.len() == 0,
            final(self).status == (match old(self).status {
                WorkStatus::Pending => WorkStatus::Failed(error),
                WorkStatus::Complete => WorkStatus::Failed(error),
                other => other,
            }),
    {
        match self.status {
            WorkStatus::Pending => {
                self.status = WorkStatus::Failed(error);
            },
            WorkStatus::Complete => {
                self.status = WorkStatus::Failed(error);
            },
            _ => {},
        }
        self.wip_root = FiberTree { nodes: Vec::new() };
        self.next_unit_of_work = None;
    }
}

impl<C> FiberRootNode<C> {
    /// What a commit has to ask of the platform where the pass is complete,
    /// and nothing where it is not.
    pub open spec fn planned(&self) -> Seq<Effect> {
        if self.status == WorkStatus::Complete {
            removals(self.mounted@) + placements_of(self.wip_root@, self.wip_root@[0].child)
        } else {
            Seq::empty()
        }
    }

    /// The removals and the attachments that the commit of the complete pass
    /// is made of.
    fn plan(&self) -> (parts: (Vec<Effect>, Vec<Effect>))
        requires
            self.well_formed(),
            self.status == WorkStatus::Complete,
        ensures
            parts.0@ == removals(self.mounted@),
            parts.1@ == placements_of(self.wip_root@, self.wip_root@[0].child),
    {
        let mut effects: Vec<Effect> = Vec::new();
        let mut i: usize = 0;
        while i < self.mounted.len()
            invariant
                i <= self.mounted@.len(),
                effects@ == removals(self.mounted@.take(i as int)),
            decreases self.mounted@.len() - i,
        {
            effects.push(Effect { tag: EffectTag::Delete, parent: 0, child: self.mounted[i] });
            assert(self.mounted@.take(i + 1) =~= self.mounted@.take(i as int).push(
                self.mounted@[i as int],
            ));
            assert(effects@ =~= removals(self.mounted@.take(i + 1)));
            i += 1;
        }
        assert(self.mounted@.take(i as int) =~= self.mounted@);
        let mut placed: Vec<Effect> = Vec::new();
        assert(links_fit(self.wip_root@, 0));
        if let Some(child) = self.wip_root.nodes[0].child {
            proof {
                lemma_committable_below_root(self.wip_root@, child as int);
            }
            commit_work(&self.wip_root, child, &mut placed);
        }
        assert(placed@ =~= placements_of(self.wip_root@, self.wip_root@[0].child));
        (effects, placed)
    }

    /// What the commit of the pass in flight will ask of the platform, in
    /// order, without committing: first the host nodes that the last commit
    /// attached to the container are taken off it, then the host nodes of the
    /// new tree are attached, each to its host parent, in pre-order. Where no
    /// pass is complete there is nothing to do.
    pub fn pending_effects(&self) -> (effects: Vec<Effect>)
        requires
            self.well_formed(),
        ensures
            effects@ == self.planned(),
    {
        match self.status {
            WorkStatus::Complete => {
                let (mut effects, mut placed) = self.plan();
                effects.append(&mut placed);
                effects
            },
            _ => Vec::new(),
        }
    }

    /// Commits the pass that is complete and returns what the platform has to
    /// do, in order: first the host nodes that the last commit attached to
    /// the container are taken off it, then the host nodes of the new tree
    /// are attached, each to its host parent, in pre-order. The new tree is
    /// then the committed one. Where no pass is complete there is nothing to
    /// do and nothing changes.
    pub fn commit(&mut self) -> (effects: Vec<Effect>)
        requires
            old(self).well_formed(),
        ensures
            final(self).well_formed(),
            final(self).element == old(self).element,
            final(self).dom@ == old(self).dom@,
            effects@ == old(self).planned(),
            old(self).status == WorkStatus::Complete ==> {
                &&& final(self).current@ == old(self).wip_root@
                &&& final(self).mounted@ == attached_to_root(old(self).wip_root@)
                &&& final(self).wip_root@.len() == 0
                &&& final(self).next_unit_of_work is None
                &&& final(self).status == WorkStatus::Idle
            },
            old(self).status != WorkStatus::Complete ==> {
                &&& final(self).current@ == old(self).current@
                &&& final(self).mounted@ == old(self).mounted@
                &&& final(self).wip_root@ == old(self).wip_root@
                &&& final(self).next_unit_of_work == old(self).next_unit_of_work
                &&& final(self).status == old(self).status
            },
    {
        match self.status {
            WorkStatus::Complete => {},
            _ => {
                return Vec::new();
            },
        }
        let (mut effects, mut placed) = self.plan();
        let ghost under_root = |e: Effect| e.parent == 0;
        let ghost child_of = |e: Effect| e.child;
        let mut mounted: Vec<Fiber> = Vec::new();
        let mut j: usize = 0;
        while j < placed.len()
            invariant
                j <= placed@.len(),
                under_root == (|e: Effect| e.parent == 0),
                child_of == (|e: Effect| e.child),
                mounted@ == placed@.take(j as int).filter(under_root).map_values(child_of),
            decreases placed@.len() - j,
        {
            proof {
                assert(placed@.take(j + 1) =~= placed@.take(j as int).push(placed@[j as int]));
                placed@.take(j as int).lemma_filter_push(placed@[j as int], under_root);
            }
            if placed[j].parent == 0 {
                mounted.push(placed[j].child);
                assert(mounted@ =~= placed@.take(j + 1).filter(under_root).map_values(child_of));
            }
            j += 1;
        }
        assert(placed@.take(j as int) =~= placed@);
        effects.append(&mut placed);
        self.mounted = mounted;
        let mut finished = FiberTree { nodes: Vec::new() };
        std::mem::swap(&mut self.wip_root, &mut finished);
        self.current = finished;
        self.status = WorkStatus::Idle;
        effects
    }
}

/// The pass in flight, as units of work see it: the tree, the next unit and
/// the status.
pub struct Pass<C> {
    pub fibers: Seq<FiberView<C>>,
    pub next: Option<Fiber>,
    pub status: WorkStatus,
}

/// Whether one unit of work leads from `before` to `after`.
///
/// A pending pass has the unit of its next fiber performed: the tree grows
/// by the fiber's children, for a component by the node that its render
/// gave, and the unit that follows becomes the next; after the last unit the
/// pass is complete. Where the fiber is a component whose render fails, the
/// pass is failed with that failure and its tree dropped. A pass that is not
/// pending stays as it is.
pub open spec fn unit_step<C: FunctionComponent>(before: Pass<C>, after: Pass<C>) -> bool {
    match before.status {
        WorkStatus::Pending => {
            let unit = before.next.unwrap() as int;
            let element = *before.fibers[unit].element;
            match after.status {
                WorkStatus::Failed(error) => {
                    &&& rendered_by(element, Err::<ReactNodeList<C>, RenderError>(error))
                    &&& after.fibers.len() == 0
                    &&& after.next is None
                },
                _ => {
                    &&& after.fibers == performed(
                        before.fibers,
                        unit,
                        unit_kids(before.fibers, after.fibers, unit),
                    )
                    &&& element is FunctionComponent ==> rendered_by(
                        element,
                        Ok::<ReactNodeList<C>, RenderError>(
                            *after.fibers[before.fibers.len() as int].element,
                        ),
                    )
                    &&& after.next == next_unit(after.fibers, unit)
                    &&& after.status == (if after.next is None {
                        WorkStatus::Complete
                    } else {
                        WorkStatus::Pending
                    })
                },
            }
        },
        _ => after == before,
    }
}

/// Whether `trace` is a run of units of work: each state but the last is
/// pending with its next unit in the tree, and one unit leads from it to the
/// state after it.
pub open spec fn is_run<C: FunctionComponent>(trace: Seq<Pass<C>>) -> bool {
    forall|i: int|
        0 <= i < trace.len() - 1 ==> {
            &&& (#[trigger] trace[i]).status == WorkStatus::Pending
            &&& trace[i].next matches Some(unit) && unit < trace[i].fibers.len()
            &&& unit_step(trace[i], trace[i + 1])
        }
}

impl<C> FiberRootNode<C> {
    /// The pass in flight.
    pub open spec fn pass(&self) -> Pass<C> {
        Pass { fibers: self.wip_root@, next: self.next_unit_of_work, status: self.status }
    }
}

impl<C: FunctionComponent> FiberRootNode<C> {
    /// Performs the next unit of work of the pass in flight, exactly one.
    ///
    /// While units remain the status stays `Pending`; after the last one it
    /// is `Complete` and the pass awaits its commit. Where a component fails
    /// to render, the pass is given up with that failure. Where no unit is
    /// pending nothing changes.
    pub fn perform_work(&mut self) -> (status: WorkStatus)
        requires
            old(self).well_formed(),
        ensures
            final(self).well_formed(),
            status == final(self).status,
            unit_step(old(self).pass(), final(self).pass()),
            final(self).element == old(self).element,
            final(self).dom@ == old(self).dom@,
            final(self).current@ == old(self).current@,
            final(self).mounted@ == old(self).mounted@,
    {
        let unit = match (self.status, self.next_unit_of_work) {
            (WorkStatus::Pending, Some(unit)) => unit,
            _ => {
                return self.status;
            },
        };
        let ghost before = self.wip_root@;
        match perform_unit_of_work(&mut self.wip_root, unit) {
            Ok(next) => {
                proof {
                    assert(self.wip_root.nodes.len() == self.wip_root@.len());
                    lemma_unit_keeps_progress(
                        before,
                        unit as int,
                        unit_kids(before, self.wip_root@, unit as int),
                    );
                }
                self.next_unit_of_work = next;
                self.status = if next.is_none() {
                    WorkStatus::Complete
                } else {
                    WorkStatus::Pending
                };
            },
            Err(error) => {
                self.wip_root = FiberTree { nodes: Vec::new() };
                self.next_unit_of_work = None;
                self.status = WorkStatus::Failed(error);
            },
        }
        self.status
    }

    /// Performs units of work of the pass in flight, one after the other, for
    /// as long as units are pending and the budget of `budget` units lasts,
    /// and returns how many it performed. It stops short of the budget only
    /// when the pass is no longer pending.
    pub fn work_loop(&mut self, budget: usize) -> (done: usize)
        requires
            old(self).well_formed(),
        ensures
            final(self).well_formed(),
            done <= budget,
            done < budget ==> final(self).status != WorkStatus::Pending,
            exists|trace: Seq<Pass<C>>|
                #![trigger is_run(trace)]
                {
                    &&& is_run(trace)
                    &&& trace.len() == done + 1
                    &&& trace[0] == old(self).pass()
                    &&& trace[done as int] == final(self).pass()
                },
            final(self).element == old(self).element,
            final(self).dom@ == old(self).dom@,
            final(self).current@ == old(self).current@,
            final(self).mounted@ == old(self).mounted@,
    {
        let mut done: usize = 0;
        let ghost mut trace = seq![self.pass()];
        while done < budget && self.status == WorkStatus::Pending
            invariant
                self.well_formed(),
                done <= budget,
                is_run(trace),
                trace.len() == done + 1,
                trace[0] == old(self).pass(),
                trace[done as int] == self.pass(),
                self.element == old(self).element,
                self.dom@ == old(self).dom@,
                self.current@ == old(self).current@,
                self.mounted@ == old(self).mounted@,
            decreases budget - done,
        {
            let ghost before = trace;
            self.perform_work();
            done += 1;
            proof {
                trace = before.push(self.pass());
                assert forall|i: int| 0 <= i < trace.len() - 1 implies {
                    &&& (#[trigger] trace[i]).status == WorkStatus::Pending
                    &&& trace[i].next matches Some(unit) && unit < trace[i].fibers.len()
                    &&& unit_step(trace[i], trace[i + 1])
                } by {
                    if i < before.len() - 1 {
                        assert(trace[i] == before[i]);
                        assert(trace[i + 1] == before[i + 1]);
                    }
                }
            }
        }
        done
    }
}

/// A fiber root for the mount point `container`, with nothing rendered.
pub fn create_root<C>(container: HostNode) -> (root: FiberRootNode<C>)
    ensures
        root.well_formed(),
        root.dom@ == container@,
        root.status == WorkStatus::Idle,
        root.current@.len() == 0,
{
    FiberRootNode::new(container)
}

/// When a pass is complete, its fiber tree is the image of the virtual tree
/// that was rendered: fiber for node, child for child and sibling after
/// sibling in the order of the nodes, each fiber with the host node of its
/// kind. Of what lies below a component the virtual tree says nothing, and
/// neither does this.
pub proof fn lemma_complete_pass_mirrors<C>(root: FiberRootNode<C>)
    requires
        root.well_formed(),
        root.status == WorkStatus::Complete,
    ensures
        root.element is Some,
        mirrors(root.wip_root@, 0, *root.element.unwrap()),
{
    lemma_complete(root.wip_root@);
    lemma_settled_tree_mirrors(root.wip_root@, 0);
    assert(node_at(root.wip_root@, 0) == *root.element.unwrap());
}

} // verus!
