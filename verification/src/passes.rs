//! What holds of whole passes: a tree without components renders the same
//! way every time, and a commit replaces what the last one put under the
//! container.

use vstd::prelude::*;
use crate::fiber::{
    attached_to_root, child_elements, performed, placement, placements_of, preorder, removal,
    removals, Effect, Fiber, FiberView,
};
use crate::host::HostNodeView;
use crate::react::{
    is_run, root_fiber, unit_kids, unit_step, FiberRootNode, FunctionComponent, Pass,
    ReactNodeList, WorkStatus,
};
use crate::reconciler::internal::types::EffectTag;

verus! {

/// Whether no component occurs in `node` or below it.
pub open spec fn component_free<C>(node: ReactNodeList<C>) -> bool
    decreases node,
{
    match node {
        ReactNodeList::Root(child) => component_free(*child),
        ReactNodeList::List(items) => forall|i: int|
            0 <= i < items@.len() ==> component_free(*#[trigger] items@[i]),
        ReactNodeList::Host(_, _, Some(child)) => component_free(*child),
        ReactNodeList::Host(_, _, None) => true,
        ReactNodeList::Text(_) => true,
        ReactNodeList::FunctionComponent(_) => false,
    }
}

/// Whether every fiber of the tree stands for a node without components.
pub open spec fn all_component_free<C>(fibers: Seq<FiberView<C>>) -> bool {
    forall|i: int| 0 <= i < fibers.len() ==> component_free(*(#[trigger] fibers[i]).element)
}

/// The pass that a render of `children` under `container` begins.
pub open spec fn begun<C>(children: ReactNodeList<C>, container: HostNodeView) -> Pass<C> {
    Pass {
        fibers: seq![root_fiber(children, container)],
        next: Some(0usize),
        status: WorkStatus::Pending,
    }
}

/// A pass that begins on a tree without components has no component in it.
pub proof fn lemma_begun_component_free<C>(children: ReactNodeList<C>, container: HostNodeView)
    requires
        component_free(children),
    ensures
        all_component_free(begun(children, container).fibers),
{
    let fibers = begun(children, container).fibers;
    assert forall|i: int| 0 <= i < fibers.len() implies component_free(
        *(#[trigger] fibers[i]).element,
    ) by {
        assert(fibers[i] == root_fiber(children, container));
    }
}

/// The children of a node without components are without components.
proof fn lemma_children_component_free<C>(node: ReactNodeList<C>, k: int)
    requires
        component_free(node),
        0 <= k < child_elements(node).len(),
    ensures
        component_free(*child_elements(node)[k]),
{
}

/// From a pass without components, one unit of work leads to one state
/// only, and that state is again without components.
pub proof fn lemma_unit_step_is_function<C: FunctionComponent>(
    before: Pass<C>,
    one: Pass<C>,
    other: Pass<C>,
)
    requires
        all_component_free(before.fibers),
        before.status == WorkStatus::Pending ==> (before.next matches Some(unit) && unit
            < before.fibers.len()),
        unit_step(before, one),
        unit_step(before, other),
    ensures
        one == other,
        all_component_free(one.fibers),
{
    if before.status == WorkStatus::Pending {
        let unit = before.next.unwrap() as int;
        let node = *before.fibers[unit].element;
        assert(component_free(node));
        let kids = child_elements(node);
        assert(unit_kids(before.fibers, one.fibers, unit) == kids);
        assert(unit_kids(before.fibers, other.fibers, unit) == kids);
        let after = performed(before.fibers, unit, kids);
        assert(one.fibers == after);
        assert(other.fibers == after);
        assert forall|i: int| 0 <= i < after.len() implies component_free(
            *(#[trigger] after[i]).element,
        ) by {
            if i < before.fibers.len() {
                assert(after[i].element == before.fibers[i].element);
            } else {
                let k = i - before.fibers.len();
                assert(after[i].element == kids[k]);
                lemma_children_component_free(node, k);
            }
        }
    }
}

/// Two runs from the same pass without components go through the same
/// states for as long as both last.
pub proof fn lemma_runs_agree_so_far<C: FunctionComponent>(
    one: Seq<Pass<C>>,
    other: Seq<Pass<C>>,
    i: int,
)
    requires
        is_run(one),
        is_run(other),
        0 <= i < one.len(),
        i < other.len(),
        one[0] == other[0],
        all_component_free(one[0].fibers),
    ensures
        one[i] == other[i],
        all_component_free(one[i].fibers),
    decreases i,
{
    if i > 0 {
        lemma_runs_agree_so_far(one, other, i - 1);
        assert(unit_step(one[i - 1], one[i]));
        assert(unit_step(other[i - 1], other[i]));
        lemma_unit_step_is_function(one[i - 1], one[i], other[i]);
    }
}

/// A tree without components renders the same way every time: two runs that
/// begin with the same pass and both go on until no unit is pending take the
/// same number of units and go through the same states, so they end with the
/// same fiber tree.
pub proof fn lemma_complete_runs_agree<C: FunctionComponent>(
    one: Seq<Pass<C>>,
    other: Seq<Pass<C>>,
)
    requires
        is_run(one),
        is_run(other),
        one.len() > 0,
        other.len() > 0,
        one[0] == other[0],
        all_component_free(one[0].fibers),
        one.last().status != WorkStatus::Pending,
        other.last().status != WorkStatus::Pending,
    ensures
        one == other,
{
    if one.len() < other.len() {
        lemma_runs_agree_so_far(one, other, one.len() - 1);
        assert(other[one.len() - 1].status == WorkStatus::Pending);
    } else if other.len() < one.len() {
        lemma_runs_agree_so_far(one, other, other.len() - 1);
        assert(one[other.len() - 1].status == WorkStatus::Pending);
    } else {
        assert forall|i: int| 0 <= i < one.len() implies one[i] == other[i] by {
            lemma_runs_agree_so_far(one, other, i);
        }
        assert(one =~= other);
    }
}

/// The fibers of `mounted` whose host nodes `effects` leave under the
/// container.
pub open spec fn left_over(mounted: Seq<Fiber>, effects: Seq<Effect>) -> Seq<Fiber> {
    mounted.filter(|child: Fiber| !effects.contains(removal(child)))
}

/// The fibers whose host nodes `effects` attach to the container, in order.
pub open spec fn attached_by(effects: Seq<Effect>) -> Seq<Fiber> {
    effects.filter(|e: Effect| e.tag == EffectTag::Insert && e.parent == 0).map_values(
        |e: Effect| e.child,
    )
}

/// A commit replaces what the last one put under the container: it takes
/// every host node off the container that the last commit attached to it,
/// and what it attaches to the container is what the new tree attaches
/// there, in the same order, whatever was committed before. Beyond the
/// removals, its effects are those of the first commit of a root that
/// rendered the same tree.
pub proof fn lemma_commit_replaces<C>(root: FiberRootNode<C>)
    requires
        root.well_formed(),
        root.status == WorkStatus::Complete,
    ensures
        root.planned() == removals(root.mounted@) + placements_of(
            root.wip_root@,
            root.wip_root@[0].child,
        ),
        left_over(root.mounted@, root.planned()) == Seq::<Fiber>::empty(),
        attached_by(root.planned()) == attached_to_root(root.wip_root@),
{
    let taken = removals(root.mounted@);
    let placed = placements_of(root.wip_root@, root.wip_root@[0].child);
    let effects = root.planned();
    let stays = |child: Fiber| !effects.contains(removal(child));
    assert forall|i: int| 0 <= i < root.mounted@.len() implies !stays(
        #[trigger] root.mounted@[i],
    ) by {
        assert(taken[i] == removal(root.mounted@[i]));
        assert(effects[i] == taken[i]);
    }
    root.mounted@.lemma_all_neg_filter_empty(stays);
    let attaches = |e: Effect| e.tag == EffectTag::Insert && e.parent == 0;
    let under_root = |e: Effect| e.parent == 0;
    Seq::filter_distributes_over_add(taken, placed, attaches);
    assert forall|i: int| 0 <= i < taken.len() implies !attaches(#[trigger] taken[i]) by {}
    taken.lemma_all_neg_filter_empty(attaches);
    lemma_placements_insert(root.wip_root@, root.wip_root@[0].child);
    lemma_filter_agrees(placed, attaches, under_root);
    assert(effects.filter(attaches) =~= placed.filter(under_root));
}

/// Every effect of a commit from a fiber is an attachment.
proof fn lemma_placements_insert<C>(fibers: Seq<FiberView<C>>, start: Option<Fiber>)
    ensures
        forall|i: int|
            0 <= i < placements_of(fibers, start).len() ==> (#[trigger] placements_of(
                fibers,
                start,
            )[i]).tag == EffectTag::Insert,
{
    if start is Some {
        let f = start.unwrap() as int;
        let owners = preorder(fibers, f).filter(|g: int| fibers[g].dom is Some);
        assert forall|i: int| 0 <= i < placements_of(fibers, start).len() implies (
        #[trigger] placements_of(fibers, start)[i]).tag == EffectTag::Insert by {
            assert(placements_of(fibers, start)[i] == placement(fibers, owners[i]));
        }
    }
}

/// Two tests that agree on every entry of a sequence keep the same entries.
proof fn lemma_filter_agrees(
    entries: Seq<Effect>,
    one: spec_fn(Effect) -> bool,
    other: spec_fn(Effect) -> bool,
)
    requires
        forall|i: int| 0 <= i < entries.len() ==> one(#[trigger] entries[i]) == other(entries[i]),
    ensures
        entries.filter(one) == entries.filter(other),
    decreases entries.len(),
{
    reveal(Seq::filter);
    if entries.len() > 0 {
        let rest = entries.drop_last();
        assert forall|i: int| 0 <= i < rest.len() implies one(#[trigger] rest[i]) == other(
            rest[i],
        ) by {
            assert(rest[i] == entries[i]);
        }
        lemma_filter_agrees(rest, one, other);
        assert(one(entries.last()) == other(entries[entries.len() - 1]));
    }
}

} // verus!
