//! Producing host nodes and applying attribute sets to them.

use vstd::prelude::*;
use crate::fiber::FiberNode;
use crate::host::{HostKind, HostNode, HostNodeView};
use crate::react::ReactNodeList;
use crate::props::{has_key, AttributeView, HostAttribute, HostProps};

verus! {

/// Whether `key`, an attribute of the previous set, is absent from `props`.
pub open spec fn gone(key: Seq<char>, props: Seq<(Seq<char>, AttributeView)>) -> bool {
    !has_key(props, key)
}

/// The node after the removers of the first `n` entries of `prev_props` ran,
/// in order.
pub open spec fn after_removers(
    node: HostNodeView,
    prev_props: Seq<(Seq<char>, AttributeView)>,
    n: nat,
) -> HostNodeView
    decreases n,
{
    if n == 0 {
        node
    } else {
        let before = after_removers(node, prev_props, (n - 1) as nat);
        prev_props[n - 1].1.remove(prev_props[n - 1].0, before)
    }
}

/// The node after the setters of the first `n` entries of `props` ran, in
/// order.
pub open spec fn after_setters(
    node: HostNodeView,
    props: Seq<(Seq<char>, AttributeView)>,
    n: nat,
) -> HostNodeView
    decreases n,
{
    if n == 0 {
        node
    } else {
        let before = after_setters(node, props, (n - 1) as nat);
        props[n - 1].1.set(props[n - 1].0, before)
    }
}

/// The node after an update from `prev_props` to `props`. Attribute values
/// are not compared, so every attribute counts as changed: the remover of
/// every previous attribute runs, then the setter of every next one.
pub open spec fn updated(
    node: HostNodeView,
    prev_props: Seq<(Seq<char>, AttributeView)>,
    props: Seq<(Seq<char>, AttributeView)>,
) -> HostNodeView {
    after_setters(after_removers(node, prev_props, prev_props.len()), props, props.len())
}

/// The host node of a mounted element: a bare element with every declared
/// attribute set.
pub open spec fn mounted_element(
    tag: Seq<char>,
    props: Seq<(Seq<char>, AttributeView)>,
) -> HostNodeView {
    updated(HostNodeView::bare(HostKind::Element, tag), Seq::empty(), props)
}

/// Values that the first `n` entries of `props` declare, by attribute name.
pub open spec fn declared_values(props: Seq<(Seq<char>, AttributeView)>, n: nat) -> Map<
    Seq<char>,
    Seq<char>,
>
    decreases n,
{
    if n == 0 {
        Map::empty()
    } else {
        let before = declared_values(props, (n - 1) as nat);
        match props[n - 1].1 {
            AttributeView::Value(value) => before.insert(props[n - 1].0, value),
            AttributeView::Listener(_) => before,
        }
    }
}

/// Listeners that the first `n` entries of `props` declare.
pub open spec fn declared_listeners(props: Seq<(Seq<char>, AttributeView)>, n: nat) -> Set<
    (Seq<char>, u64),
>
    decreases n,
{
    if n == 0 {
        Set::empty()
    } else {
        let before = declared_listeners(props, (n - 1) as nat);
        match props[n - 1].1 {
            AttributeView::Value(_) => before,
            AttributeView::Listener(listener) => before.insert((props[n - 1].0, listener)),
        }
    }
}

/// Running the setters of `props` leaves the node with its earlier
/// attributes overridden by the declared values, and its earlier listeners
/// joined by the declared ones.
pub proof fn lemma_setters_closed_form(
    node: HostNodeView,
    props: Seq<(Seq<char>, AttributeView)>,
    n: nat,
)
    requires
        n <= props.len(),
    ensures
        after_setters(node, props, n) == (HostNodeView {
            attributes: node.attributes.union_prefer_right(declared_values(props, n)),
            listeners: node.listeners.union(declared_listeners(props, n)),
            ..node
        }),
    decreases n,
{
    let closed = HostNodeView {
        attributes: node.attributes.union_prefer_right(declared_values(props, n)),
        listeners: node.listeners.union(declared_listeners(props, n)),
        ..node
    };
    let got = after_setters(node, props, n);
    if n == 0 {
        assert(closed.attributes =~= node.attributes);
        assert(closed.listeners =~= node.listeners);
    } else {
        lemma_setters_closed_form(node, props, (n - 1) as nat);
        assert(got.attributes =~= closed.attributes);
        assert(got.listeners =~= closed.listeners);
    }
}

/// Applying the same attribute set to a node a second time, with no previous
/// attributes to take off, leaves the node as the first application left it.
pub proof fn lemma_attribute_application_idempotent(
    node: HostNodeView,
    props: Seq<(Seq<char>, AttributeView)>,
)
    ensures
        updated(updated(node, Seq::empty(), props), Seq::empty(), props) == updated(
            node,
            Seq::empty(),
            props,
        ),
{
    let empty = Seq::<(Seq<char>, AttributeView)>::empty();
    let once = updated(node, empty, props);
    let twice = updated(once, empty, props);
    lemma_setters_closed_form(node, props, props.len());
    lemma_setters_closed_form(once, props, props.len());
    assert(twice.attributes =~= once.attributes);
    assert(twice.listeners =~= once.listeners);
}

/// Whether `key` is absent from `props`.
pub fn is_gone(key: &str, props: &HostProps) -> (r: bool)
    ensures
        r == gone(key@, props@),
{
    !props.contains_key(key)
}

/// Whether the attribute under `key` counts as new or changed. Attribute
/// values are not compared: every attribute does.
pub fn is_new(key: &str, prev_props: &HostProps, props: &HostProps) -> (r: bool)
    ensures
        r,
{
    true
}

/// Brings `node` from the attribute set `prev_props` to `props`.
pub fn update_dom(node: &mut HostNode, prev_props: &HostProps, props: &HostProps)
    ensures
        final(node)@ == updated(old(node)@, prev_props@, props@),
{
    let ghost start = node@;
    let mut i: usize = 0;
    while i < prev_props.len()
        invariant
            i <= prev_props@.len(),
            node@ == after_removers(start, prev_props@, i as nat),
        decreases prev_props@.len() - i,
    {
        let key = prev_props.key(i);
        if is_gone(key, props) || is_new(key, prev_props, props) {
            prev_props.attribute(i).remove(key, node);
        }
        i += 1;
    }
    let ghost cleared = node@;
    let mut j: usize = 0;
    while j < props.len()
        invariant
            j <= props@.len(),
            node@ == after_setters(cleared, props@, j as nat),
        decreases props@.len() - j,
    {
        let key = props.key(j);
        if is_new(key, prev_props, props) {
            props.attribute(j).set(key, node);
        }
        j += 1;
    }
}

/// The host node for a run of text.
pub fn create_text(text: &str) -> (node: HostNode)
    ensures
        node@ == HostNodeView::bare(HostKind::Text, text@),
{
    HostNode::text(text)
}

/// The host node for the element that `fiber` stands for: a fresh element
/// with the tag of the fiber's node and every declared attribute set.
pub fn create_dom<C>(fiber: &FiberNode<C>) -> (node: HostNode)
    requires
        *fiber.element is Host,
    ensures
        node@ == mounted_element(fiber.element->Host_0@, fiber.element->Host_1@),
{
    match &*fiber.element {
        ReactNodeList::Host(tag, props, _) => {
            let mut node = HostNode::element(tag);
            update_dom(&mut node, &HostProps::new(), props);
            node
        },
        _ => {
            // Left out by the precondition.
            HostNode::element("")
        },
    }
}

} // verus!
