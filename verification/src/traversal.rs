//! The state of a traversal in flight: which fibers still await their unit
//! of work, what holds of the others, and why one unit keeps this up.

use vstd::prelude::*;
use std::rc::Rc;
use crate::fiber::{
    chain, chain_from, child_elements, child_fiber, children, dom_after, grown, host_of,
    lemma_grown_linked, lemma_with_dom_linked, linked, links_fit, next_above, next_unit,
    performed, preorder, with_dom, Fiber, FiberView,
};
use crate::react::ReactNodeList;

verus! {

/// Whether fiber `g` is among the fibers that a traversal standing at fiber
/// `at` has yet to visit: `at` itself where `from_self` holds, its later
/// siblings, and the later siblings of every fiber above it.
pub open spec fn awaits<C>(fibers: Seq<FiberView<C>>, at: int, from_self: bool, g: int) -> bool
    decreases at,
{
    ||| chain(
        fibers,
        if from_self {
            Some(at as usize)
        } else {
            fibers[at].sibling
        },
    ).contains(g)
    ||| (fibers[at].parent matches Some(p) && p < at && awaits(fibers, p as int, false, g))
}

/// Whether fiber `g` still awaits its unit of work when `next` is the next
/// unit.
pub open spec fn pending<C>(fibers: Seq<FiberView<C>>, next: Option<Fiber>, g: int) -> bool {
    match next {
        Some(n) => awaits(fibers, n as int, true, g),
        None => false,
    }
}

/// Fiber `f` has the children that its virtual node asks for, in order. Of
/// a component the node does not say what it expands to: it has one child.
pub open spec fn expanded<C>(fibers: Seq<FiberView<C>>, f: int) -> bool {
    let kids = children(fibers, f);
    match *fibers[f].element {
        ReactNodeList::FunctionComponent(_) => kids.len() == 1,
        _ => kids.map_values(|g: int| fibers[g].element) == child_elements(*fibers[f].element),
    }
}

/// The unit of work of fiber `f` is done: it has its children, and below the
/// root it owns exactly the host node that its kind produces.
pub open spec fn settled<C>(fibers: Seq<FiberView<C>>, f: int) -> bool {
    &&& expanded(fibers, f)
    &&& (f != 0 ==> fibers[f].dom == host_of(*fibers[f].element))
}

/// Fiber `f` is as it was created: no child, and below the root no host
/// node.
pub open spec fn untouched<C>(fibers: Seq<FiberView<C>>, f: int) -> bool {
    &&& fibers[f].child is None
    &&& (f != 0 ==> fibers[f].dom is None)
}

/// A traversal in flight: the tree is well-formed, the fibers that await
/// their unit are as they were created, and all others are done.
pub open spec fn in_progress<C>(fibers: Seq<FiberView<C>>, next: Option<Fiber>) -> bool {
    &&& linked(fibers)
    &&& (next matches Some(n) ==> n < fibers.len())
    &&& forall|g: int|
        0 <= g < fibers.len() ==> if #[trigger] pending(fibers, next, g) {
            untouched(fibers, g)
        } else {
            settled(fibers, g)
        }
}

/// A sibling chain stays within the tree, does not go back, and keeps to one
/// parent.
pub proof fn lemma_chain_members<C>(fibers: Seq<FiberView<C>>, s: int, g: int)
    requires
        linked(fibers),
        0 <= s < fibers.len(),
        chain_from(fibers, s).contains(g),
    ensures
        s <= g < fibers.len(),
        fibers[g].parent == fibers[s].parent,
    decreases fibers.len() - s,
{
    assert(links_fit(fibers, s));
    if g != s {
        let n = fibers[s].sibling.unwrap() as int;
        let rest = chain_from(fibers, n);
        assert(chain_from(fibers, s) == seq![s] + rest);
        let i = choose|i: int| 0 <= i < (seq![s] + rest).len() && (seq![s] + rest)[i] == g;
        assert(rest[i - 1] == g);
        lemma_chain_members(fibers, n, g);
    }
}

/// A sibling chain is the same in a tree that agrees on the sibling links of
/// the fibers it had and has no fewer fibers.
pub proof fn lemma_chain_frame<C>(fibers: Seq<FiberView<C>>, after: Seq<FiberView<C>>, s: int)
    requires
        linked(fibers),
        0 <= s < fibers.len(),
        after.len() >= fibers.len(),
        forall|i: int| 0 <= i < fibers.len() ==> (#[trigger] after[i]).sibling == fibers[i].sibling,
    ensures
        chain_from(after, s) == chain_from(fibers, s),
    decreases fibers.len() - s,
{
    assert(links_fit(fibers, s));
    assert(after[s].sibling == fibers[s].sibling);
    if fibers[s].sibling is Some {
        lemma_chain_frame(fibers, after, fibers[s].sibling.unwrap() as int);
    }
}

/// The fibers that an expansion added form one sibling chain, in order.
pub proof fn lemma_chain_of_new<C>(
    fibers: Seq<FiberView<C>>,
    f: int,
    kids: Seq<Rc<ReactNodeList<C>>>,
    k: int,
)
    requires
        0 <= f < fibers.len(),
        0 <= k < kids.len(),
        fibers.len() + kids.len() <= usize::MAX,
    ensures
        chain_from(grown(fibers, f, kids), fibers.len() + k) == Seq::new(
            (kids.len() - k) as nat,
            |j: int| fibers.len() + k + j,
        ),
    decreases kids.len() - k,
{
    let after = grown(fibers, f, kids);
    let base = fibers.len() as int;
    let want = Seq::new((kids.len() - k) as nat, |j: int| base + k + j);
    assert(after[base + k] == child_fiber(kids[k], f, base, k, kids.len() as int));
    if k + 1 < kids.len() {
        lemma_chain_of_new(fibers, f, kids, k + 1);
        assert(chain_from(after, base + k) == seq![base + k] + chain_from(after, base + k + 1));
        assert(seq![base + k] + chain_from(after, base + k + 1) =~= want);
    } else {
        assert(chain_from(after, base + k) == seq![base + k]);
        assert(seq![base + k] =~= want);
    }
}

/// Index of the parent of fiber `i`, or -1 for a fiber without parent.
pub open spec fn parent_index<C>(fibers: Seq<FiberView<C>>, i: int) -> int {
    match fibers[i].parent {
        Some(p) => p as int,
        None => -1,
    }
}

/// What a traversal has yet to visit beyond the fiber it stands at lies in
/// the tree, and is the same in a tree that agrees on the parent and sibling
/// links of the fibers it had and has no fewer fibers.
pub proof fn lemma_awaits_frame<C>(
    fibers: Seq<FiberView<C>>,
    after: Seq<FiberView<C>>,
    at: int,
    g: int,
)
    requires
        linked(fibers),
        0 <= at < fibers.len(),
        after.len() >= fibers.len(),
        forall|i: int|
            0 <= i < fibers.len() ==> (#[trigger] after[i]).sibling == fibers[i].sibling
                && after[i].parent == fibers[i].parent,
    ensures
        awaits(after, at, false, g) == awaits(fibers, at, false, g),
        awaits(fibers, at, false, g) ==> 0 <= g < fibers.len(),
    decreases at,
{
    assert(links_fit(fibers, at));
    assert(after[at].sibling == fibers[at].sibling);
    assert(after[at].parent == fibers[at].parent);
    if fibers[at].sibling is Some {
        let s = fibers[at].sibling.unwrap() as int;
        lemma_chain_frame(fibers, after, s);
        if chain_from(fibers, s).contains(g) {
            lemma_chain_members(fibers, s, g);
        }
    }
    if fibers[at].parent is Some {
        lemma_awaits_frame(fibers, after, fibers[at].parent.unwrap() as int, g);
    }
}

/// A fiber that a traversal has yet to visit beyond the fiber it stands at
/// hangs no lower than that fiber, and where it hangs at the same parent it
/// comes later.
pub proof fn lemma_awaits_order<C>(fibers: Seq<FiberView<C>>, at: int, g: int)
    requires
        linked(fibers),
        0 <= at < fibers.len(),
        awaits(fibers, at, false, g),
    ensures
        0 <= g < fibers.len(),
        parent_index(fibers, g) <= parent_index(fibers, at),
        parent_index(fibers, g) == parent_index(fibers, at) ==> g > at,
    decreases at,
{
    assert(links_fit(fibers, at));
    if fibers[at].sibling is Some && chain_from(
        fibers,
        fibers[at].sibling.unwrap() as int,
    ).contains(g) {
        let s = fibers[at].sibling.unwrap() as int;
        lemma_chain_members(fibers, s, g);
        assert(links_fit(fibers, s));
    } else {
        let p = fibers[at].parent.unwrap() as int;
        lemma_awaits_order(fibers, p, g);
        assert(links_fit(fibers, p));
    }
}

/// What a traversal has yet to visit beyond a fiber is what it has yet to
/// visit when it stands at the unit that follows above that fiber.
pub proof fn lemma_awaits_above<C>(fibers: Seq<FiberView<C>>, f: int, g: int)
    requires
        linked(fibers),
        0 <= f < fibers.len(),
    ensures
        awaits(fibers, f, false, g) == pending(fibers, next_above(fibers, f), g),
        next_above(fibers, f) matches Some(n) ==> n < fibers.len(),
    decreases f,
{
    assert(links_fit(fibers, f));
    if fibers[f].sibling is Some {
        let s = fibers[f].sibling.unwrap() as int;
        assert(links_fit(fibers, s));
    } else if fibers[f].parent is Some {
        lemma_awaits_above(fibers, fibers[f].parent.unwrap() as int, g);
    }
}

/// Whether `after` has every fiber of `fibers`, with the same virtual node
/// and the same links to parent and sibling.
pub open spec fn extends<C>(fibers: Seq<FiberView<C>>, after: Seq<FiberView<C>>) -> bool {
    &&& after.len() >= fibers.len()
    &&& forall|i: int|
        0 <= i < fibers.len() ==> (#[trigger] after[i]).sibling == fibers[i].sibling
            && after[i].parent == fibers[i].parent && after[i].element == fibers[i].element
}

/// A fiber that is the same in a tree that extends the one it was in has the
/// same children there, and is done or as created there as it was here.
pub proof fn lemma_status_frame<C>(fibers: Seq<FiberView<C>>, after: Seq<FiberView<C>>, g: int)
    requires
        linked(fibers),
        extends(fibers, after),
        0 <= g < fibers.len(),
        after[g] == fibers[g],
    ensures
        children(after, g) == children(fibers, g),
        settled(after, g) == settled(fibers, g),
        untouched(after, g) == untouched(fibers, g),
{
    assert(links_fit(fibers, g));
    if fibers[g].child is Some {
        let c = fibers[g].child.unwrap() as int;
        lemma_chain_frame(fibers, after, c);
        let kids = chain_from(fibers, c);
        assert forall|k: int| 0 <= k < kids.len() implies after[kids[k]].element
            == fibers[kids[k]].element by {
            assert(kids.contains(kids[k]));
            lemma_chain_members(fibers, c, kids[k]);
        }
        assert(kids.map_values(|x: int| after[x].element) =~= kids.map_values(
            |x: int| fibers[x].element,
        ));
    } else {
        assert(children(after, g).map_values(|x: int| after[x].element) =~= children(
            fibers,
            g,
        ).map_values(|x: int| fibers[x].element));
    }
}

/// Whether `kids` can be the virtual nodes that become the children of a
/// fiber for `element`: what the node holds, or for a component any one node.
pub open spec fn kids_fit<C>(element: ReactNodeList<C>, kids: Seq<Rc<ReactNodeList<C>>>) -> bool {
    match element {
        ReactNodeList::FunctionComponent(_) => kids.len() == 1,
        _ => kids == child_elements(element),
    }
}

/// One unit of work keeps a traversal in flight: after the unit of the next
/// fiber, the fibers that await theirs are as they were created, with the
/// unit that follows as the next, and all others are done.
pub proof fn lemma_unit_keeps_progress<C>(
    fibers: Seq<FiberView<C>>,
    f: int,
    kids: Seq<Rc<ReactNodeList<C>>>,
)
    requires
        0 <= f < fibers.len(),
        in_progress(fibers, Some(f as usize)),
        kids_fit(*fibers[f].element, kids),
        fibers.len() + kids.len() <= usize::MAX,
    ensures
        in_progress(performed(fibers, f, kids), next_unit(performed(fibers, f, kids), f)),
{
    let mid = with_dom(fibers, f, dom_after(fibers[f]));
    let after = performed(fibers, f, kids);
    let next = next_unit(after, f);
    let base = fibers.len() as int;
    lemma_with_dom_linked(fibers, f, dom_after(fibers[f]));
    lemma_grown_linked(mid, f, kids);
    assert(links_fit(fibers, f));
    assert(links_fit(after, f));
    assert(extends(fibers, after));
    assert(extends(after, after));
    // The fiber itself was awaiting its unit.
    assert(chain_from(fibers, f)[0] == f);
    assert(pending(fibers, Some(f as usize), f));
    assert(untouched(fibers, f));
    // Its children after the unit.
    if kids.len() > 0 {
        lemma_chain_of_new(mid, f, kids, 0);
        assert(children(after, f) == Seq::new(kids.len(), |j: int| base + j));
        assert(children(after, f).map_values(|x: int| after[x].element) =~= kids);
    } else {
        assert(children(after, f).map_values(|x: int| after[x].element) =~= kids);
    }
    assert(settled(after, f));
    assert(next matches Some(n) ==> n < after.len()) by {
        lemma_awaits_above(after, f, 0);
    }
    assert forall|g: int| 0 <= g < after.len() implies if #[trigger] pending(after, next, g) {
        untouched(after, g)
    } else {
        settled(after, g)
    } by {
        // What lies beyond the fiber is what lay beyond it before.
        lemma_awaits_frame(fibers, after, f, g);
        let beyond = awaits(fibers, f, false, g);
        assert(pending(fibers, Some(f as usize), g) == (g == f || beyond)) by {
            if fibers[f].sibling is Some {
                let s = fibers[f].sibling.unwrap() as int;
                assert(chain_from(fibers, f) == seq![f] + chain_from(fibers, s));
                if chain_from(fibers, s).contains(g) {
                    let i = choose|i: int|
                        0 <= i < chain_from(fibers, s).len() && chain_from(fibers, s)[i] == g;
                    assert((seq![f] + chain_from(fibers, s))[i + 1] == g);
                }
                if chain_from(fibers, f).contains(g) && g != f {
                    let i = choose|i: int|
                        0 <= i < chain_from(fibers, f).len() && chain_from(fibers, f)[i] == g;
                    assert(chain_from(fibers, s)[i - 1] == g);
                }
            } else {
                assert(chain_from(fibers, f) == seq![f]);
            }
        }
        if beyond {
            lemma_awaits_order(fibers, f, g);
        }
        let fresh = base <= g < base + kids.len();
        assert(pending(after, next, g) == (fresh || beyond)) by {
            if kids.len() > 0 {
                lemma_chain_of_new(mid, f, kids, 0);
                let added = Seq::new(kids.len(), |j: int| base + j);
                assert(chain_from(after, base) == added);
                assert(added.contains(g) == fresh) by {
                    if fresh {
                        assert(added[g - base] == g);
                    }
                }
                assert(after[base] == child_fiber(kids[0], f, base, 0, kids.len() as int));
            } else {
                lemma_awaits_above(after, f, g);
            }
        }
        if g == f {
            assert(!beyond);
        } else if g < base {
            lemma_status_frame(fibers, after, g);
        } else {
            let k = g - base;
            assert(after[g] == child_fiber(kids[k], f, base, k, kids.len() as int));
        }
    }
}

/// When no unit of work is left, every fiber is done.
pub proof fn lemma_complete<C>(fibers: Seq<FiberView<C>>)
    requires
        in_progress(fibers, None),
    ensures
        forall|g: int| 0 <= g < fibers.len() ==> settled(fibers, g),
{
    assert forall|g: int| 0 <= g < fibers.len() implies settled(fibers, g) by {
        assert(!pending(fibers, None, g));
    }
}

/// Whether the fibers at and below fiber `f` are the image of the virtual
/// node `v`: the fiber stands for `v` and owns the host node that `v`
/// produces, its children are fibers for the children of `v`, as many and in
/// the same order, each with `f` as parent, and each the image of its own
/// node in turn. Below a component nothing is said: what it expands to is
/// not in the node.
pub open spec fn mirrors<C>(fibers: Seq<FiberView<C>>, f: int, v: ReactNodeList<C>) -> bool
    decreases v,
{
    let kids = children(fibers, f);
    &&& 0 <= f < fibers.len()
    &&& *fibers[f].element == v
    &&& (f != 0 ==> fibers[f].dom == host_of(v))
    &&& match v {
        ReactNodeList::Root(child) => {
            &&& kids.len() == 1
            &&& fibers[kids[0]].parent == Some(f as usize)
            &&& mirrors(fibers, kids[0], *child)
        },
        ReactNodeList::Host(_, _, Some(child)) => {
            &&& kids.len() == 1
            &&& fibers[kids[0]].parent == Some(f as usize)
            &&& mirrors(fibers, kids[0], *child)
        },
        ReactNodeList::Host(_, _, None) => kids.len() == 0,
        ReactNodeList::Text(_) => kids.len() == 0,
        ReactNodeList::List(items) => {
            &&& kids.len() == items@.len()
            &&& forall|k: int|
                0 <= k < items@.len() ==> fibers[kids[k]].parent == Some(f as usize) && mirrors(
                    fibers,
                    #[trigger] kids[k],
                    *items@[k],
                )
        },
        ReactNodeList::FunctionComponent(_) => true,
    }
}

/// The `k`-th child of a fiber that is done lies in the tree, has the fiber
/// as parent and stands for the `k`-th child of the fiber's virtual node.
pub proof fn lemma_child_of_settled<C>(fibers: Seq<FiberView<C>>, f: int, k: int)
    requires
        linked(fibers),
        0 <= f < fibers.len(),
        settled(fibers, f),
        !(*fibers[f].element is FunctionComponent),
        0 <= k < child_elements(*fibers[f].element).len(),
    ensures
        children(fibers, f).len() == child_elements(*fibers[f].element).len(),
        0 <= children(fibers, f)[k] < fibers.len(),
        fibers[children(fibers, f)[k]].parent == Some(f as usize),
        fibers[children(fibers, f)[k]].element == child_elements(*fibers[f].element)[k],
{
    let kids = children(fibers, f);
    let images = kids.map_values(|g: int| fibers[g].element);
    assert(images == child_elements(*fibers[f].element));
    assert(images.len() == kids.len());
    assert(images[k] == fibers[kids[k]].element);
    assert(links_fit(fibers, f));
    let c = fibers[f].child.unwrap() as int;
    assert(kids.contains(kids[k]));
    lemma_chain_members(fibers, c, kids[k]);
}

/// The virtual node that fiber `f` stands for.
pub open spec fn node_at<C>(fibers: Seq<FiberView<C>>, f: int) -> ReactNodeList<C> {
    *fibers[f].element
}

/// In a tree whose fibers are all done, the fibers at and below each fiber
/// are the image of its virtual node.
pub proof fn lemma_settled_tree_mirrors<C>(fibers: Seq<FiberView<C>>, f: int)
    requires
        linked(fibers),
        forall|g: int| 0 <= g < fibers.len() ==> settled(fibers, g),
        0 <= f < fibers.len(),
    ensures
        mirrors(fibers, f, node_at(fibers, f)),
    decreases node_at(fibers, f),
{
    let v = node_at(fibers, f);
    let kids = children(fibers, f);
    assert(settled(fibers, f));
    if v is Root {
        lemma_child_of_settled(fibers, f, 0);
        lemma_settled_tree_mirrors(fibers, kids[0]);
    } else if v is Host {
        if v->Host_2 is Some {
            lemma_child_of_settled(fibers, f, 0);
            lemma_settled_tree_mirrors(fibers, kids[0]);
        } else {
            assert(kids.map_values(|g: int| fibers[g].element).len() == 0);
        }
    } else if v is Text {
        assert(kids.map_values(|g: int| fibers[g].element).len() == 0);
    } else if v is List {
        let items = v->List_0@;
        assert(kids.map_values(|g: int| fibers[g].element).len() == items.len());
        assert forall|k: int| 0 <= k < items.len() implies fibers[kids[k]].parent == Some(
            f as usize,
        ) && mirrors(fibers, #[trigger] kids[k], *items[k]) by {
            lemma_child_of_settled(fibers, f, k);
            lemma_settled_tree_mirrors(fibers, kids[k]);
        }
    }
}

/// The unit that follows once everything at and below fiber `r` and its
/// later siblings is done: the next sibling of the nearest fiber above `r`
/// that has one.
pub open spec fn beyond<C>(fibers: Seq<FiberView<C>>, r: int) -> Option<Fiber> {
    match fibers[r].parent {
        Some(p) => next_above(fibers, p as int),
        None => None,
    }
}

/// The units of work follow the pre-order of the tree: the unit that follows
/// a fiber is the fiber after it in the pre-order traversal, and after the
/// last fiber of the traversal from `r` comes what lies beyond `r`. From the
/// root that is nothing: the traversal is complete.
pub proof fn lemma_next_unit_follows_preorder<C>(fibers: Seq<FiberView<C>>, r: int, i: int)
    requires
        linked(fibers),
        0 <= r < fibers.len(),
        0 <= i < preorder(fibers, r).len(),
    ensures
        preorder(fibers, r)[0] == r,
        0 <= preorder(fibers, r)[i] < fibers.len(),
        next_unit(fibers, preorder(fibers, r)[i]) == (if i + 1 < preorder(fibers, r).len() {
            Some(preorder(fibers, r)[i + 1] as usize)
        } else {
            beyond(fibers, r)
        }),
    decreases fibers.len() - r,
{
    assert(links_fit(fibers, r));
    let below = match fibers[r].child {
        Some(c) => preorder(fibers, c as int),
        None => Seq::empty(),
    };
    let beside = match fibers[r].sibling {
        Some(s) => preorder(fibers, s as int),
        None => Seq::empty(),
    };
    let order = preorder(fibers, r);
    assert(order == seq![r] + below + beside);
    if fibers[r].child is Some {
        let c = fibers[r].child.unwrap() as int;
        lemma_next_unit_follows_preorder(fibers, c, 0);
    }
    if fibers[r].sibling is Some {
        let s = fibers[r].sibling.unwrap() as int;
        lemma_next_unit_follows_preorder(fibers, s, 0);
        assert(links_fit(fibers, s));
    }
    if i == 0 {
    } else if i - 1 < below.len() {
        let c = fibers[r].child.unwrap() as int;
        lemma_next_unit_follows_preorder(fibers, c, i - 1);
        assert(order[i] == below[i - 1]);
        if i < below.len() {
            assert(order[i + 1] == below[i]);
        } else if beside.len() > 0 {
            assert(order[i + 1] == beside[0]);
        }
    } else {
        let s = fibers[r].sibling.unwrap() as int;
        let j = i - 1 - below.len();
        lemma_next_unit_follows_preorder(fibers, s, j);
        assert(order[i] == beside[j]);
        if j + 1 < beside.len() {
            assert(order[i + 1] == beside[j + 1]);
        }
    }
}

} // verus!
