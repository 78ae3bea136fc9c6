//! The fiber tree: an arena of fibers that name each other by index.
//!
//! Fiber 0 is the root. A fiber's `child` is its first child, `sibling` the
//! next child of its parent. Fibers are added when their parent is expanded,
//! so every link to a child or a sibling points to a larger index and every
//! link to a parent to a smaller one.

use vstd::prelude::*;
use std::rc::Rc;
use crate::dom::mounted_element;
use crate::host::{HostKind, HostNode, HostNodeView};
use crate::react::ReactNodeList;
use crate::reconciler::internal::types::EffectTag;

verus! {

/// A fiber is named by its index in the tree that holds it.
pub type Fiber = usize;

/// One unit of work: a virtual node, the host node produced for it, and the
/// links to the fibers around it.
#[derive(Debug)]
pub struct FiberNode<C> {
    pub element: Rc<ReactNodeList<C>>,
    pub dom: Option<HostNode>,
    pub child: Option<Fiber>,
    pub sibling: Option<Fiber>,
    pub parent: Option<Fiber>,
}

/// Model of a fiber: the host node is taken by its view.
pub struct FiberView<C> {
    pub element: Rc<ReactNodeList<C>>,
    pub dom: Option<HostNodeView>,
    pub child: Option<Fiber>,
    pub sibling: Option<Fiber>,
    pub parent: Option<Fiber>,
}

impl<C> View for FiberNode<C> {
    type V = FiberView<C>;

    open spec fn view(&self) -> FiberView<C> {
        FiberView {
            element: self.element,
            dom: match self.dom {
                Some(node) => Some(node@),
                None => None,
            },
            child: self.child,
            sibling: self.sibling,
            parent: self.parent,
        }
    }
}

impl<C> FiberNode<C> {
    /// A fiber for `element` with no host node and no links.
    pub fn new(element: Rc<ReactNodeList<C>>) -> (fiber: FiberNode<C>)
        ensures
            fiber@ == (FiberView {
                element,
                dom: None,
                child: None,
                sibling: None,
                parent: None,
            }),
    {
        FiberNode { element, dom: None, child: None, sibling: None, parent: None }
    }
}

/// The arena of fibers of one render pass.
#[derive(Debug)]
pub struct FiberTree<C> {
    pub nodes: Vec<FiberNode<C>>,
}

impl<C> View for FiberTree<C> {
    type V = Seq<FiberView<C>>;

    open spec fn view(&self) -> Seq<FiberView<C>> {
        Seq::new(self.nodes@.len(), |i: int| self.nodes@[i]@)
    }
}

/// The virtual nodes that become the children of a fiber for `element`, in
/// order. What a component expands to cannot be read off the node: for a
/// component this is empty.
pub open spec fn child_elements<C>(element: ReactNodeList<C>) -> Seq<Rc<ReactNodeList<C>>> {
    match element {
        ReactNodeList::Root(child) => seq![child],
        ReactNodeList::List(items) => items@,
        ReactNodeList::Host(_, _, Some(child)) => seq![child],
        ReactNodeList::Host(_, _, None) => Seq::empty(),
        ReactNodeList::Text(_) => Seq::empty(),
        ReactNodeList::FunctionComponent(_) => Seq::empty(),
    }
}

/// The host node that a fiber for `element` produces: elements and text
/// produce one, every other kind is transparent.
pub open spec fn host_of<C>(element: ReactNodeList<C>) -> Option<HostNodeView> {
    match element {
        ReactNodeList::Host(tag, props, _) => Some(mounted_element(tag@, props@)),
        ReactNodeList::Text(text) => Some(HostNodeView::bare(HostKind::Text, text@)),
        _ => None,
    }
}

/// The links of fiber `i` fit the arena: the root alone has no parent, a
/// parent comes before its children, a first child and a next sibling come
/// later, a child names its parent and siblings share theirs.
pub open spec fn links_fit<C>(fibers: Seq<FiberView<C>>, i: int) -> bool {
    &&& (i == 0 <==> fibers[i].parent is None)
    &&& (fibers[i].parent matches Some(p) ==> p < i)
    &&& (fibers[i].child matches Some(c) ==> i < c < fibers.len() && fibers[c as int].parent
        == Some(i as usize))
    &&& (fibers[i].sibling matches Some(s) ==> i < s < fibers.len() && fibers[s as int].parent
        == fibers[i].parent)
}

/// Well-formedness of a fiber tree: there is a root and every fiber's links
/// fit.
pub open spec fn linked<C>(fibers: Seq<FiberView<C>>) -> bool {
    &&& fibers.len() > 0
    &&& forall|i: int| 0 <= i < fibers.len() ==> #[trigger] links_fit(fibers, i)
}

/// The fibers reached from fiber `s` by following `sibling` links, in order,
/// `s` first.
pub open spec fn chain_from<C>(fibers: Seq<FiberView<C>>, s: int) -> Seq<int>
    decreases fibers.len() - s,
{
    if 0 <= s < fibers.len() {
        match fibers[s].sibling {
            Some(n) => if s < n < fibers.len() {
                seq![s] + chain_from(fibers, n as int)
            } else {
                seq![s]
            },
            None => seq![s],
        }
    } else {
        seq![s]
    }
}

/// The fibers reached from `start` by following `sibling` links, in order.
pub open spec fn chain<C>(fibers: Seq<FiberView<C>>, start: Option<Fiber>) -> Seq<int> {
    match start {
        None => Seq::empty(),
        Some(s) => chain_from(fibers, s as int),
    }
}

/// The children of fiber `f`, in order.
pub open spec fn children<C>(fibers: Seq<FiberView<C>>, f: int) -> Seq<int> {
    chain(fibers, fibers[f].child)
}

/// The fiber that expansion of fiber `parent` adds for the `k`-th of `count`
/// children, where the arena held `base` fibers before.
pub open spec fn child_fiber<C>(
    element: Rc<ReactNodeList<C>>,
    parent: int,
    base: int,
    k: int,
    count: int,
) -> FiberView<C> {
    FiberView {
        element,
        dom: None,
        child: None,
        sibling: if k + 1 < count {
            Some((base + k + 1) as usize)
        } else {
            None
        },
        parent: Some(parent as usize),
    }
}

/// The arena after fiber `f` was expanded with the children `kids`: one new
/// fiber per entry is added at the end, in order, each linked to the next,
/// all with parent `f`; `f` gets the first as its child, or no child where
/// `kids` is empty. Nothing else changes.
pub open spec fn grown<C>(
    fibers: Seq<FiberView<C>>,
    f: int,
    kids: Seq<Rc<ReactNodeList<C>>>,
) -> Seq<FiberView<C>> {
    fibers.update(
        f,
        FiberView {
            child: if kids.len() > 0 {
                Some(fibers.len() as usize)
            } else {
                None
            },
            ..fibers[f]
        },
    ) + Seq::new(
        kids.len(),
        |k: int| child_fiber(kids[k], f, fibers.len() as int, k, kids.len() as int),
    )
}

/// The arena with the host node of fiber `f` set to `dom`.
pub open spec fn with_dom<C>(fibers: Seq<FiberView<C>>, f: int, dom: Option<HostNodeView>) -> Seq<
    FiberView<C>,
> {
    fibers.update(f, FiberView { dom, ..fibers[f] })
}

/// The nearest fiber at or above `f` that has a next sibling gives that
/// sibling; where there is none up to the root, the result is `None`.
pub open spec fn next_above<C>(fibers: Seq<FiberView<C>>, f: int) -> Option<Fiber>
    decreases f,
{
    if fibers[f].sibling is Some {
        fibers[f].sibling
    } else {
        match fibers[f].parent {
            Some(p) => if p < f {
                next_above(fibers, p as int)
            } else {
                None
            },
            None => None,
        }
    }
}

/// The unit of work that follows fiber `f`: its first child, else the next
/// sibling of the nearest fiber at or above it that has one.
pub open spec fn next_unit<C>(fibers: Seq<FiberView<C>>, f: int) -> Option<Fiber> {
    if fibers[f].child is Some {
        fibers[f].child
    } else {
        next_above(fibers, f)
    }
}

/// The host node of a fiber for `element` after its unit of work: text gets
/// its text node, an element that has no host node yet gets its element, and
/// every other fiber keeps what it had.
pub open spec fn dom_after<C>(fiber: FiberView<C>) -> Option<HostNodeView> {
    match *fiber.element {
        ReactNodeList::Text(_) => host_of(*fiber.element),
        ReactNodeList::Host(_, _, _) => if fiber.dom is None {
            host_of(*fiber.element)
        } else {
            fiber.dom
        },
        _ => fiber.dom,
    }
}

/// The arena after the unit of work of fiber `f`, where `kids` are the
/// virtual nodes that become its children.
pub open spec fn performed<C>(
    fibers: Seq<FiberView<C>>,
    f: int,
    kids: Seq<Rc<ReactNodeList<C>>>,
) -> Seq<FiberView<C>> {
    grown(with_dom(fibers, f, dom_after(fibers[f])), f, kids)
}

/// Expanding a fiber of a well-formed tree leaves the tree well-formed.
pub proof fn lemma_grown_linked<C>(
    fibers: Seq<FiberView<C>>,
    f: int,
    kids: Seq<Rc<ReactNodeList<C>>>,
)
    requires
        linked(fibers),
        0 <= f < fibers.len(),
        fibers.len() + kids.len() <= usize::MAX,
    ensures
        linked(grown(fibers, f, kids)),
{
    let after = grown(fibers, f, kids);
    let base = fibers.len() as int;
    assert(after.len() == base + kids.len());
    assert forall|i: int| 0 <= i < after.len() implies #[trigger] links_fit(after, i) by {
        if i < base {
            assert(links_fit(fibers, i));
            assert(after[i].parent == fibers[i].parent);
            assert(after[i].sibling == fibers[i].sibling);
            if i == f {
                if kids.len() > 0 {
                    assert(after[i].child == Some(base as usize));
                    assert(after[base] == child_fiber(kids[0], f, base, 0, kids.len() as int));
                } else {
                    assert(after[i].child is None);
                }
            } else {
                assert(after[i] == fibers[i]);
                if fibers[i].child is Some {
                    let c = fibers[i].child.unwrap() as int;
                    assert(after[c].parent == fibers[c].parent);
                }
            }
            if fibers[i].sibling is Some {
                let s = fibers[i].sibling.unwrap() as int;
                assert(after[s].parent == fibers[s].parent);
            }
        } else {
            let k = i - base;
            assert(after[i] == child_fiber(kids[k], f, base, k, kids.len() as int));
            if k + 1 < kids.len() {
                assert(after[i + 1] == child_fiber(
                    kids[k + 1],
                    f,
                    base,
                    k + 1,
                    kids.len() as int,
                ));
            }
        }
    }
}

/// Setting a fiber's host node leaves a well-formed tree well-formed.
pub proof fn lemma_with_dom_linked<C>(fibers: Seq<FiberView<C>>, f: int, dom: Option<HostNodeView>)
    requires
        linked(fibers),
        0 <= f < fibers.len(),
    ensures
        linked(with_dom(fibers, f, dom)),
{
    let after = with_dom(fibers, f, dom);
    assert(after.len() == fibers.len());
    assert forall|i: int| 0 <= i < after.len() implies #[trigger] links_fit(after, i) by {
        assert(links_fit(fibers, i));
        assert(after[i].parent == fibers[i].parent);
        assert(after[i].child == fibers[i].child);
        assert(after[i].sibling == fibers[i].sibling);
        if fibers[i].child is Some {
            let c = fibers[i].child.unwrap() as int;
            assert(after[c].parent == fibers[c].parent);
        }
        if fibers[i].sibling is Some {
            let s = fibers[i].sibling.unwrap() as int;
            if s == f {
                assert(after[s] == (FiberView { dom, ..fibers[f] }));
            } else {
                assert(after[s] == fibers[s]);
            }
        }
    }
}

/// One change to the host tree. Fibers stand for the host nodes they own.
#[derive(Clone, Copy, Debug, PartialEq, Eq, Structural)]
pub struct Effect {
    pub tag: EffectTag,
    /// The fiber whose host node is the parent.
    pub parent: Fiber,
    /// The fiber whose host node is attached or taken off.
    pub child: Fiber,
}

/// The nearest fiber above `f` that owns a host node.
pub open spec fn host_parent<C>(fibers: Seq<FiberView<C>>, f: int) -> Option<Fiber>
    decreases f,
{
    match fibers[f].parent {
        Some(p) => if p < f {
            if fibers[p as int].dom is Some {
                Some(p)
            } else {
                host_parent(fibers, p as int)
            }
        } else {
            None
        },
        None => None,
    }
}

/// Pre-order traversal from fiber `f`: the fiber, then everything below it,
/// then its later siblings with everything below them.
pub open spec fn preorder<C>(fibers: Seq<FiberView<C>>, f: int) -> Seq<int>
    decreases fibers.len() - f,
{
    if 0 <= f < fibers.len() {
        let below = match fibers[f].child {
            Some(c) => if f < c < fibers.len() {
                preorder(fibers, c as int)
            } else {
                Seq::empty()
            },
            None => Seq::empty(),
        };
        let beside = match fibers[f].sibling {
            Some(s) => if f < s < fibers.len() {
                preorder(fibers, s as int)
            } else {
                Seq::empty()
            },
            None => Seq::empty(),
        };
        seq![f] + below + beside
    } else {
        Seq::empty()
    }
}

/// The attachment of the host node of fiber `g` to its host parent.
pub open spec fn placement<C>(fibers: Seq<FiberView<C>>, g: int) -> Effect {
    Effect {
        tag: EffectTag::Insert,
        parent: host_parent(fibers, g).unwrap(),
        child: g as usize,
    }
}

/// What committing from fiber `f` does: in pre-order, each fiber that owns a
/// host node has it attached to the host node of its host parent.
pub open spec fn placements<C>(fibers: Seq<FiberView<C>>, f: int) -> Seq<Effect> {
    preorder(fibers, f).filter(|g: int| fibers[g].dom is Some).map_values(
        |g: int| placement(fibers, g),
    )
}

/// What committing from the fiber that a link names does; nothing where
/// there is no link.
pub open spec fn placements_of<C>(fibers: Seq<FiberView<C>>, next: Option<Fiber>) -> Seq<Effect> {
    match next {
        Some(n) => placements(fibers, n as int),
        None => Seq::empty(),
    }
}

/// Below a root that owns a host node, every fiber has a host parent.
pub proof fn lemma_host_parent_exists<C>(fibers: Seq<FiberView<C>>, f: int)
    requires
        linked(fibers),
        fibers[0].dom is Some,
        0 < f < fibers.len(),
    ensures
        host_parent(fibers, f) matches Some(p) && p < f && fibers[p as int].dom is Some,
    decreases f,
{
    assert(links_fit(fibers, f));
    let p = fibers[f].parent.unwrap();
    if fibers[p as int].dom is None {
        lemma_host_parent_exists(fibers, p as int);
    }
}

/// Committing from a fiber is: its own attachment where it owns a host node,
/// then the commit from its first child, then the commit from its next
/// sibling.
pub proof fn lemma_placements_unfold<C>(fibers: Seq<FiberView<C>>, f: int)
    requires
        linked(fibers),
        0 <= f < fibers.len(),
    ensures
        placements(fibers, f) == (if fibers[f].dom is Some {
            seq![placement(fibers, f)]
        } else {
            Seq::empty()
        }) + placements_of(fibers, fibers[f].child) + placements_of(fibers, fibers[f].sibling),
{
    assert(links_fit(fibers, f));
    let owns = |g: int| fibers[g].dom is Some;
    let place = |g: int| placement(fibers, g);
    let below = match fibers[f].child {
        Some(c) => preorder(fibers, c as int),
        None => Seq::empty(),
    };
    let beside = match fibers[f].sibling {
        Some(s) => preorder(fibers, s as int),
        None => Seq::empty(),
    };
    assert(preorder(fibers, f) == seq![f] + below + beside);
    Seq::filter_distributes_over_add(seq![f] + below, beside, owns);
    Seq::filter_distributes_over_add(seq![f], below, owns);
    let head = seq![f].filter(owns);
    assert(head == if fibers[f].dom is Some {
        seq![f]
    } else {
        Seq::<int>::empty()
    }) by {
        reveal(Seq::filter);
        assert(seq![f].drop_last() =~= Seq::<int>::empty());
        assert(Seq::<int>::empty().filter(owns) =~= Seq::<int>::empty());
        assert(seq![f].last() == f);
        assert(Seq::<int>::empty().push(f) =~= seq![f]);
    }
    let a = head.map_values(place);
    let b = below.filter(owns).map_values(place);
    let c = beside.filter(owns).map_values(place);
    assert((head + below.filter(owns) + beside.filter(owns)).map_values(place) =~= a + b + c);
    assert(a =~= if fibers[f].dom is Some {
        seq![placement(fibers, f)]
    } else {
        Seq::empty()
    });
    assert(b =~= placements_of(fibers, fibers[f].child));
    assert(c =~= placements_of(fibers, fibers[f].sibling));
}

/// The fibers whose host nodes a commit of the whole tree attaches to the
/// host node of the root, in the order of their attachment.
pub open spec fn attached_to_root<C>(fibers: Seq<FiberView<C>>) -> Seq<Fiber> {
    placements_of(fibers, fibers[0].child).filter(|e: Effect| e.parent == 0).map_values(
        |e: Effect| e.child,
    )
}

/// The removal of the host node of fiber `child` from the host node of the
/// root.
pub open spec fn removal(child: Fiber) -> Effect {
    Effect { tag: EffectTag::Delete, parent: 0, child }
}

/// The removals that take the host nodes of the fibers `mounted` off the
/// host node of the root, in order.
pub open spec fn removals(mounted: Seq<Fiber>) -> Seq<Effect> {
    mounted.map_values(|child: Fiber| removal(child))
}

/// The children that an expansion gives a fiber are linked as the entries
/// are ordered: the fiber's `child` is the fiber of the first entry, the
/// fiber of each later entry is the `sibling` of the fiber of the entry
/// before it, the fiber of the last entry has no sibling, and every one of
/// them stands for its entry and has the expanded fiber as parent.
pub proof fn lemma_children_linked_in_order<C>(
    fibers: Seq<FiberView<C>>,
    f: int,
    kids: Seq<Rc<ReactNodeList<C>>>,
)
    requires
        0 <= f < fibers.len(),
        fibers.len() + kids.len() <= usize::MAX,
    ensures
        ({
            let after = grown(fibers, f, kids);
            let entry = |i: int| fibers.len() + i;
            &&& after.len() == fibers.len() + kids.len()
            &&& kids.len() == 0 ==> after[f].child is None
            &&& kids.len() > 0 ==> after[f].child == Some(entry(0) as usize)
            &&& forall|i: int|
                0 <= i < kids.len() ==> (#[trigger] after[entry(i)]).element == kids[i]
                    && after[entry(i)].parent == Some(f as usize)
            &&& forall|i: int|
                0 < i < kids.len() ==> (#[trigger] after[entry(i - 1)]).sibling == Some(
                    entry(i) as usize,
                )
            &&& kids.len() > 0 ==> after[entry(kids.len() - 1)].sibling is None
        }),
{
    let after = grown(fibers, f, kids);
    let base = fibers.len() as int;
    assert forall|i: int| 0 <= i < kids.len() implies after[base + i] == child_fiber(
        kids[i],
        f,
        base,
        i,
        kids.len() as int,
    ) by {}
}

/// Whether a commit from fiber `f` can attach every host node it meets: each
/// fiber of the pre-order from `f` that owns a host node has a fiber above
/// it that owns one.
pub open spec fn committable<C>(fibers: Seq<FiberView<C>>, f: int) -> bool {
    forall|g: int|
        #![trigger preorder(fibers, f).contains(g)]
        preorder(fibers, f).contains(g) && fibers[g].dom is Some ==> host_parent(fibers, g)
            is Some
}

/// The pre-order from a fiber holds the fiber itself, the pre-order from its
/// first child and the pre-order from its next sibling, and nothing else.
pub proof fn lemma_preorder_parts<C>(fibers: Seq<FiberView<C>>, f: int, g: int)
    requires
        linked(fibers),
        0 <= f < fibers.len(),
    ensures
        preorder(fibers, f).contains(g) <==> (g == f || (fibers[f].child is Some && preorder(
            fibers,
            fibers[f].child.unwrap() as int,
        ).contains(g)) || (fibers[f].sibling is Some && preorder(
            fibers,
            fibers[f].sibling.unwrap() as int,
        ).contains(g))),
{
    assert(links_fit(fibers, f));
    let below = match fibers[f].child {
        Some(c) => preorder(fibers, c as int),
        None => Seq::empty(),
    };
    let beside = match fibers[f].sibling {
        Some(s) => preorder(fibers, s as int),
        None => Seq::empty(),
    };
    let order = preorder(fibers, f);
    assert(order == seq![f] + below + beside);
    if order.contains(g) {
        let i = choose|i: int| 0 <= i < order.len() && order[i] == g;
        if i == 0 {
        } else if i - 1 < below.len() {
            assert(below[i - 1] == g);
        } else {
            assert(beside[i - 1 - below.len()] == g);
        }
    }
    if g == f {
        assert(order[0] == g);
    }
    if below.contains(g) {
        let i = choose|i: int| 0 <= i < below.len() && below[i] == g;
        assert(order[i + 1] == g);
    }
    if beside.contains(g) {
        let i = choose|i: int| 0 <= i < beside.len() && beside[i] == g;
        assert(order[i + 1 + below.len()] == g);
    }
}

/// The pre-order from a fiber stays within the tree and does not go back.
pub proof fn lemma_preorder_members<C>(fibers: Seq<FiberView<C>>, f: int, g: int)
    requires
        linked(fibers),
        0 <= f < fibers.len(),
        preorder(fibers, f).contains(g),
    ensures
        f <= g < fibers.len(),
    decreases fibers.len() - f,
{
    assert(links_fit(fibers, f));
    lemma_preorder_parts(fibers, f, g);
    if g != f {
        if fibers[f].child is Some && preorder(fibers, fibers[f].child.unwrap() as int).contains(
            g,
        ) {
            lemma_preorder_members(fibers, fibers[f].child.unwrap() as int, g);
        } else {
            lemma_preorder_members(fibers, fibers[f].sibling.unwrap() as int, g);
        }
    }
}

/// Below a root that owns a host node, a commit can start at any fiber.
pub proof fn lemma_committable_below_root<C>(fibers: Seq<FiberView<C>>, f: int)
    requires
        linked(fibers),
        fibers[0].dom is Some,
        0 < f < fibers.len(),
    ensures
        committable(fibers, f),
{
    assert forall|g: int|
        #![trigger preorder(fibers, f).contains(g)]
        preorder(fibers, f).contains(g) && fibers[g].dom is Some implies host_parent(fibers, g)
            is Some by {
        lemma_preorder_members(fibers, f, g);
        lemma_host_parent_exists(fibers, g);
    }
}

/// A commit that can start at a fiber can go on at the fiber's first child
/// and at its next sibling.
pub proof fn lemma_committable_parts<C>(fibers: Seq<FiberView<C>>, f: int)
    requires
        linked(fibers),
        0 <= f < fibers.len(),
        committable(fibers, f),
    ensures
        fibers[f].dom is Some ==> host_parent(fibers, f) is Some,
        fibers[f].child matches Some(c) ==> committable(fibers, c as int),
        fibers[f].sibling matches Some(s) ==> committable(fibers, s as int),
{
    lemma_preorder_parts(fibers, f, f);
    if fibers[f].child is Some {
        let c = fibers[f].child.unwrap() as int;
        assert forall|g: int|
            #![trigger preorder(fibers, c).contains(g)]
            preorder(fibers, c).contains(g) && fibers[g].dom is Some implies host_parent(
                fibers,
                g,
            ) is Some by {
            lemma_preorder_parts(fibers, f, g);
            assert(preorder(fibers, f).contains(g));
        }
    }
    if fibers[f].sibling is Some {
        let s = fibers[f].sibling.unwrap() as int;
        assert forall|g: int|
            #![trigger preorder(fibers, s).contains(g)]
            preorder(fibers, s).contains(g) && fibers[g].dom is Some implies host_parent(
                fibers,
                g,
            ) is Some by {
            lemma_preorder_parts(fibers, f, g);
            assert(preorder(fibers, f).contains(g));
        }
    }
}

} // verus!
