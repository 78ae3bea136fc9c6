use std::rc::Rc;

use react_fiber::dom::{create_dom, create_text, is_gone, is_new, update_dom};
use react_fiber::fiber::{Effect, FiberNode, FiberTree};
use react_fiber::host::{HostKind, HostNode};
use react_fiber::props::{Attribute, EventListener, HostAttribute, HostProps, StringAttr};
use react_fiber::react::{
    commit_work, create_root, expand_component, perform_unit_of_work, reconcile_children,
    FunctionComponent,
    ReactNodeList, RenderError, WorkStatus,
};
use react_fiber::reconciler::internal::types::{EffectTag, Fiber, WorkTag};
use react_fiber::reconciler::{create_fiber, create_root_fiber};
use react_fiber::shared;

/// A component that renders a heading or fails.
#[derive(Debug)]
enum Widget {
    Heading,
    Broken,
}

impl FunctionComponent for Widget {
    fn render(&self) -> Result<ReactNodeList<Widget>, RenderError> {
        match self {
            Widget::Heading => Ok(ReactNodeList::Host(
                "h1",
                HostProps::new(),
                Some(Rc::new(ReactNodeList::Text("Hello".to_string()))),
            )),
            Widget::Broken => Err(RenderError::ComponentRender),
        }
    }
}

fn value(text: &str) -> Attribute {
    Attribute::Value(StringAttr(text.to_string()))
}

fn tree_of(element: ReactNodeList<Widget>) -> FiberTree<Widget> {
    let mut root = FiberNode::new(Rc::new(ReactNodeList::Root(Rc::new(element))));
    root.dom = Some(HostNode::element("body"));
    FiberTree { nodes: vec![root] }
}

fn text(content: &str) -> Rc<ReactNodeList<Widget>> {
    Rc::new(ReactNodeList::Text(content.to_string()))
}

#[test]
fn fresh_element_is_bare() {
    let node = HostNode::element("div");
    assert_eq!(node.kind(), HostKind::Element);
    assert_eq!(node.content(), "div");
    assert!(node.attributes().is_empty());
    assert!(node.listeners().is_empty());
    assert_eq!(node.attribute("id"), None);
}

#[test]
fn text_node_holds_its_characters() {
    let node = create_text("Hello");
    assert_eq!(node.kind(), HostKind::Text);
    assert_eq!(node.content(), "Hello");
}

#[test]
fn set_attribute_replaces_the_earlier_value() {
    let mut node = HostNode::element("div");
    node.set_attribute("id", "a");
    node.set_attribute("class", "wide");
    node.set_attribute("id", "b");
    assert_eq!(node.attribute("id"), Some("b".to_string()));
    assert_eq!(node.attribute("class"), Some("wide".to_string()));
    assert_eq!(node.attributes().len(), 2);
}

#[test]
fn remove_attribute_takes_only_that_attribute() {
    let mut node = HostNode::element("div");
    node.set_attribute("id", "a");
    node.set_attribute("class", "wide");
    node.remove_attribute("id");
    node.remove_attribute("absent");
    assert_eq!(node.attribute("id"), None);
    assert_eq!(node.attribute("class"), Some("wide".to_string()));
}

#[test]
fn listener_is_registered_once() {
    let mut node = HostNode::element("button");
    node.add_event_listener("click", 7);
    node.add_event_listener("click", 7);
    node.add_event_listener("click", 8);
    assert!(node.has_listener("click", 7));
    assert!(node.has_listener("click", 8));
    assert!(!node.has_listener("keydown", 7));
    assert_eq!(node.listeners().len(), 2);
    node.remove_event_listener("click", 7);
    assert!(!node.has_listener("click", 7));
    assert!(node.has_listener("click", 8));
}

#[test]
fn duplicate_is_the_same_node() {
    let mut node = HostNode::element("a");
    node.set_attribute("href", "/");
    node.add_event_listener("click", 3);
    let copy = node.duplicate();
    assert_eq!(copy.kind(), HostKind::Element);
    assert_eq!(copy.content(), "a");
    assert_eq!(copy.attribute("href"), Some("/".to_string()));
    assert!(copy.has_listener("click", 3));
}

#[test]
fn string_attr_sets_and_removes_under_its_key() {
    let mut node = HostNode::element("div");
    let attr = StringAttr("wide".to_string());
    attr.set("class", &mut node);
    assert_eq!(node.attribute("class"), Some("wide".to_string()));
    attr.remove("class", &mut node);
    assert_eq!(node.attribute("class"), None);
}

#[test]
fn event_listener_sets_and_removes_under_its_event() {
    let mut node = HostNode::element("button");
    let listener = EventListener(5);
    listener.set("click", &mut node);
    assert!(node.has_listener("click", 5));
    listener.remove("click", &mut node);
    assert!(!node.has_listener("click", 5));
}

#[test]
fn props_insert_replaces_under_the_same_key() {
    let mut props = HostProps::new();
    assert_eq!(props.len(), 0);
    assert!(props.insert("id", value("a")).is_none());
    assert!(props.insert("class", value("wide")).is_none());
    let previous = props.insert("id", value("b"));
    assert!(matches!(previous, Some(Attribute::Value(StringAttr(ref v))) if v == "a"));
    assert_eq!(props.len(), 2);
    assert_eq!(props.key(0), "id");
    assert!(matches!(props.attribute(0), Attribute::Value(StringAttr(v)) if v == "b"));
    assert_eq!(props.find("class"), Some(1));
    assert_eq!(props.find("absent"), None);
    assert!(props.contains_key("id"));
    assert!(!props.contains_key("absent"));
}

#[test]
fn gone_means_absent_from_the_next_props() {
    let mut props = HostProps::new();
    props.insert("id", value("a"));
    assert!(!is_gone("id", &props));
    assert!(is_gone("class", &props));
}

#[test]
fn every_attribute_counts_as_new() {
    let mut props = HostProps::new();
    props.insert("id", value("a"));
    assert!(is_new("id", &props, &props));
    assert!(is_new("absent", &HostProps::new(), &props));
}

#[test]
fn update_takes_off_the_previous_and_sets_the_next() {
    let mut prev = HostProps::new();
    prev.insert("id", value("a"));
    prev.insert("title", value("old"));
    prev.insert("click", Attribute::Listener(EventListener(1)));
    let mut next = HostProps::new();
    next.insert("id", value("b"));
    next.insert("keydown", Attribute::Listener(EventListener(2)));
    let mut node = HostNode::element("div");
    update_dom(&mut node, &HostProps::new(), &prev);
    assert_eq!(node.attribute("title"), Some("old".to_string()));
    assert!(node.has_listener("click", 1));
    update_dom(&mut node, &prev, &next);
    assert_eq!(node.attribute("id"), Some("b".to_string()));
    assert_eq!(node.attribute("title"), None);
    assert!(!node.has_listener("click", 1));
    assert!(node.has_listener("keydown", 2));
}

#[test]
fn applying_the_same_attributes_twice_changes_nothing() {
    let mut props = HostProps::new();
    props.insert("id", value("a"));
    props.insert("class", value("wide"));
    props.insert("click", Attribute::Listener(EventListener(1)));
    let mut once = HostNode::element("div");
    update_dom(&mut once, &HostProps::new(), &props);
    let mut twice = HostNode::element("div");
    update_dom(&mut twice, &HostProps::new(), &props);
    update_dom(&mut twice, &HostProps::new(), &props);
    assert_eq!(once.attributes(), twice.attributes());
    assert_eq!(once.listeners(), twice.listeners());
    assert_eq!(twice.attributes().len(), 2);
    assert_eq!(twice.listeners().len(), 1);
}

#[test]
fn create_dom_mounts_the_element_with_its_attributes() {
    let mut props = HostProps::new();
    props.insert("id", value("main"));
    props.insert("click", Attribute::Listener(EventListener(9)));
    let fiber: FiberNode<Widget> = FiberNode::new(Rc::new(ReactNodeList::Host("div", props, None)));
    let node = create_dom(&fiber);
    assert_eq!(node.kind(), HostKind::Element);
    assert_eq!(node.content(), "div");
    assert_eq!(node.attribute("id"), Some("main".to_string()));
    assert!(node.has_listener("click", 9));
}

#[test]
fn names_of_nodes() {
    let root: ReactNodeList<Widget> = ReactNodeList::Root(text("x"));
    assert_eq!(root.get_name(), "ROOT");
    let host: ReactNodeList<Widget> = ReactNodeList::Host("div", HostProps::new(), None);
    assert_eq!(host.get_name(), "div (host)");
    assert_eq!(text("Hello").get_name(), "Hello (text)");
    assert_eq!(
        ReactNodeList::FunctionComponent(Widget::Heading).get_name(),
        "FunctionComponent"
    );
    let list: ReactNodeList<Widget> = ReactNodeList::List(Vec::new());
    assert_eq!(list.get_name(), "_");
}

#[test]
fn new_fiber_has_no_links() {
    let fiber: FiberNode<Widget> = FiberNode::new(text("x"));
    assert!(fiber.dom.is_none());
    assert_eq!(fiber.child, None);
    assert_eq!(fiber.sibling, None);
    assert_eq!(fiber.parent, None);
}

#[test]
fn list_entries_are_linked_in_order() {
    let mut tree = tree_of(ReactNodeList::Text("unused".to_string()));
    let entries = vec![text("A"), text("B"), text("C")];
    reconcile_children(&mut tree, 0, &entries);
    assert_eq!(tree.nodes.len(), 4);
    assert_eq!(tree.nodes[0].child, Some(1));
    assert_eq!(tree.nodes[1].sibling, Some(2));
    assert_eq!(tree.nodes[2].sibling, Some(3));
    assert_eq!(tree.nodes[3].sibling, None);
    for (index, name) in [(1, "A (text)"), (2, "B (text)"), (3, "C (text)")] {
        assert_eq!(tree.nodes[index].parent, Some(0));
        assert_eq!(tree.nodes[index].child, None);
        assert!(tree.nodes[index].dom.is_none());
        assert_eq!(tree.nodes[index].element.get_name(), name);
        assert!(Rc::ptr_eq(&tree.nodes[index].element, &entries[index - 1]));
    }
}

#[test]
fn no_entries_means_no_child() {
    let mut tree = tree_of(ReactNodeList::Text("unused".to_string()));
    reconcile_children(&mut tree, 0, &Vec::new());
    assert_eq!(tree.nodes.len(), 1);
    assert_eq!(tree.nodes[0].child, None);
}

#[test]
fn units_follow_pre_order() {
    // root > div > [ p > "a", "b" ], visited as root, div, list, p, "a", "b"
    let inner = ReactNodeList::Host("p", HostProps::new(), Some(text("a")));
    let list = ReactNodeList::List(vec![Rc::new(inner), text("b")]);
    let mut tree = tree_of(ReactNodeList::Host("div", HostProps::new(), Some(Rc::new(list))));
    let mut visited = Vec::new();
    let mut next = Some(0);
    while let Some(fiber) = next {
        visited.push(tree.nodes[fiber].element.get_name());
        next = perform_unit_of_work(&mut tree, fiber).unwrap();
    }
    assert_eq!(
        visited,
        vec!["ROOT", "div (host)", "_", "p (host)", "a (text)", "b (text)"]
    );
    // The list is transparent, elements and text own a host node.
    let owns: Vec<bool> = tree.nodes.iter().map(|f| f.dom.is_some()).collect();
    assert_eq!(owns, vec![true, true, false, true, true, true]);
}

#[test]
fn leaf_unit_climbs_to_the_next_sibling_above() {
    let list = ReactNodeList::List(vec![
        Rc::new(ReactNodeList::Host("p", HostProps::new(), Some(text("a")))),
        text("b"),
    ]);
    let mut tree = tree_of(list);
    assert_eq!(perform_unit_of_work(&mut tree, 0), Ok(Some(1)));
    assert_eq!(perform_unit_of_work(&mut tree, 1), Ok(Some(2)));
    assert_eq!(perform_unit_of_work(&mut tree, 2), Ok(Some(4)));
    // "a" has no sibling; its parent "p" has "b".
    assert_eq!(perform_unit_of_work(&mut tree, 4), Ok(Some(3)));
    assert_eq!(perform_unit_of_work(&mut tree, 3), Ok(None));
}

#[test]
fn component_expands_to_what_it_renders() {
    let mut tree = tree_of(ReactNodeList::FunctionComponent(Widget::Heading));
    assert_eq!(perform_unit_of_work(&mut tree, 0), Ok(Some(1)));
    assert_eq!(perform_unit_of_work(&mut tree, 1), Ok(Some(2)));
    assert!(tree.nodes[1].dom.is_none());
    assert_eq!(tree.nodes[1].child, Some(2));
    assert_eq!(tree.nodes[2].parent, Some(1));
    assert_eq!(tree.nodes[2].sibling, None);
    assert_eq!(tree.nodes[2].element.get_name(), "h1 (host)");
}

#[test]
fn failing_component_leaves_the_tree_as_it_was() {
    let mut tree = tree_of(ReactNodeList::FunctionComponent(Widget::Broken));
    assert_eq!(perform_unit_of_work(&mut tree, 0), Ok(Some(1)));
    assert_eq!(
        perform_unit_of_work(&mut tree, 1),
        Err(RenderError::ComponentRender)
    );
    assert_eq!(tree.nodes.len(), 2);
    assert_eq!(tree.nodes[1].child, None);
}

#[test]
fn failing_component_fails_the_pass() {
    let mut root = create_root::<Widget>(HostNode::element("body"));
    root.render(ReactNodeList::List(vec![
        text("A"),
        Rc::new(ReactNodeList::FunctionComponent(Widget::Broken)),
    ]));
    let mut status = root.status;
    while status == WorkStatus::Pending {
        status = root.perform_work();
    }
    assert_eq!(status, WorkStatus::Failed(RenderError::ComponentRender));
    assert!(root.wip_root.nodes.is_empty());
    assert_eq!(root.next_unit_of_work, None);
    assert!(root.commit().is_empty());
    assert!(root.current.nodes.is_empty());
}

#[test]
fn commit_attaches_to_the_nearest_host_ancestor_in_pre_order() {
    // root > div > [ p > "a", component > h1 > "Hello", "b" ]
    let list = ReactNodeList::List(vec![
        Rc::new(ReactNodeList::Host("p", HostProps::new(), Some(text("a")))),
        Rc::new(ReactNodeList::FunctionComponent(Widget::Heading)),
        text("b"),
    ]);
    let mut tree = tree_of(ReactNodeList::Host("div", HostProps::new(), Some(Rc::new(list))));
    let mut next = Some(0);
    while let Some(fiber) = next {
        next = perform_unit_of_work(&mut tree, fiber).unwrap();
    }
    let names: Vec<String> = tree.nodes.iter().map(|f| f.element.get_name()).collect();
    assert_eq!(
        names,
        vec![
            "ROOT",
            "div (host)",
            "_",
            "p (host)",
            "FunctionComponent",
            "b (text)",
            "a (text)",
            "h1 (host)",
            "Hello (text)",
        ]
    );
    let mut effects = Vec::new();
    commit_work(&tree, 1, &mut effects);
    let insert = |parent, child| Effect { tag: EffectTag::Insert, parent, child };
    assert_eq!(
        effects,
        vec![
            insert(0, 1),
            insert(1, 3),
            insert(3, 6),
            insert(1, 7),
            insert(7, 8),
            insert(1, 5),
        ]
    );
}

#[test]
fn commit_keeps_what_was_collected_before() {
    let mut tree = tree_of(ReactNodeList::Text("A".to_string()));
    perform_unit_of_work(&mut tree, 0).unwrap();
    perform_unit_of_work(&mut tree, 1).unwrap();
    let first = Effect { tag: EffectTag::Delete, parent: 0, child: 9 };
    let mut effects = vec![first];
    commit_work(&tree, 1, &mut effects);
    assert_eq!(
        effects,
        vec![first, Effect { tag: EffectTag::Insert, parent: 0, child: 1 }]
    );
}

#[test]
fn root_fiber_is_a_keyless_host_root() {
    let root = create_root_fiber(HostNode::element("body"));
    assert_eq!(root.container.content(), "body");
    assert_eq!(root.current, None);
    assert_eq!(root.wip, Some(Fiber { key: None, work_tag: WorkTag::HostRoot }));
}

#[test]
fn fiber_is_tagged_by_the_kind_of_its_element() {
    assert_eq!(
        create_fiber(shared::ReactNodeList::FunctionComponent),
        Fiber { key: None, work_tag: WorkTag::FunctionComponent }
    );
    assert_eq!(
        create_fiber(shared::ReactNodeList::HostElement("div")),
        Fiber { key: None, work_tag: WorkTag::HostRoot }
    );
    assert_eq!(
        create_fiber(shared::ReactNodeList::List(Vec::new())),
        Fiber { key: None, work_tag: WorkTag::HostRoot }
    );
    assert_eq!(
        Fiber::new(WorkTag::FunctionComponent, Some(3)),
        Fiber { key: Some(3), work_tag: WorkTag::FunctionComponent }
    );
}

#[test]
fn finished_tree_is_the_image_of_the_virtual_tree() {
    // root > div > [ p > "a", [ "b", "c" ], span ]
    let list = ReactNodeList::List(vec![
        Rc::new(ReactNodeList::Host("p", HostProps::new(), Some(text("a")))),
        Rc::new(ReactNodeList::List(vec![text("b"), text("c")])),
        Rc::new(ReactNodeList::Host("span", HostProps::new(), None)),
    ]);
    let mut tree = tree_of(ReactNodeList::Host("div", HostProps::new(), Some(Rc::new(list))));
    let mut next = Some(0);
    while let Some(fiber) = next {
        next = perform_unit_of_work(&mut tree, fiber).unwrap();
    }
    let shape: Vec<(String, Option<usize>, Option<usize>, Option<usize>)> = tree
        .nodes
        .iter()
        .map(|f| (f.element.get_name(), f.parent, f.child, f.sibling))
        .collect();
    let row = |name: &str, parent, child, sibling| (name.to_string(), parent, child, sibling);
    assert_eq!(
        shape,
        vec![
            row("ROOT", None, Some(1), None),
            row("div (host)", Some(0), Some(2), None),
            row("_", Some(1), Some(3), None),
            row("p (host)", Some(2), Some(6), Some(4)),
            row("_", Some(2), Some(7), Some(5)),
            row("span (host)", Some(2), None, None),
            row("a (text)", Some(3), None, None),
            row("b (text)", Some(4), None, Some(8)),
            row("c (text)", Some(4), None, None),
        ]
    );
}

#[test]
fn empty_list_has_no_fibers_below() {
    let mut tree = tree_of(ReactNodeList::List(Vec::new()));
    assert_eq!(perform_unit_of_work(&mut tree, 0), Ok(Some(1)));
    assert_eq!(perform_unit_of_work(&mut tree, 1), Ok(None));
    assert_eq!(tree.nodes.len(), 2);
    let mut effects = Vec::new();
    commit_work(&tree, 1, &mut effects);
    assert!(effects.is_empty());
}

#[test]
fn rendered_node_becomes_the_one_child() {
    let mut tree = tree_of(ReactNodeList::FunctionComponent(Widget::Heading));
    perform_unit_of_work(&mut tree, 0).unwrap();
    let rendered = Ok(ReactNodeList::Text("made".to_string()));
    assert_eq!(expand_component(&mut tree, 1, rendered), Ok(Some(2)));
    assert_eq!(tree.nodes.len(), 3);
    assert_eq!(tree.nodes[1].child, Some(2));
    assert_eq!(tree.nodes[2].parent, Some(1));
    assert_eq!(tree.nodes[2].sibling, None);
    assert!(tree.nodes[2].dom.is_none());
    assert_eq!(tree.nodes[2].element.get_name(), "made (text)");
}

#[test]
fn render_failure_is_handed_on_as_it_came() {
    let mut tree = tree_of(ReactNodeList::FunctionComponent(Widget::Heading));
    perform_unit_of_work(&mut tree, 0).unwrap();
    assert_eq!(
        expand_component(&mut tree, 1, Err(RenderError::HostPlatform)),
        Err(RenderError::HostPlatform)
    );
    assert_eq!(
        expand_component(&mut tree, 1, Err(RenderError::ComponentRender)),
        Err(RenderError::ComponentRender)
    );
    assert_eq!(tree.nodes.len(), 2);
    assert_eq!(tree.nodes[1].child, None);
}

#[test]
fn commit_passes_through_a_tree_without_host_nodes() {
    let root: FiberNode<Widget> =
        FiberNode::new(Rc::new(ReactNodeList::Root(Rc::new(ReactNodeList::List(Vec::new())))));
    let mut tree = FiberTree { nodes: vec![root] };
    assert_eq!(perform_unit_of_work(&mut tree, 0), Ok(Some(1)));
    assert_eq!(perform_unit_of_work(&mut tree, 1), Ok(None));
    let mut effects = Vec::new();
    commit_work(&tree, 0, &mut effects);
    assert!(effects.is_empty());
}
