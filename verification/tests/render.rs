use std::rc::Rc;

use react_fiber::fiber::{Effect, FiberTree};
use react_fiber::host::{HostKind, HostNode};
use react_fiber::props::HostProps;
use react_fiber::react::{
    create_root, FiberRootNode, FunctionComponent, ReactNodeList, RenderError, WorkStatus,
};
use react_fiber::reconciler::internal::types::EffectTag;

/// A component that renders one empty `span`.
#[derive(Debug)]
struct Span;

impl FunctionComponent for Span {
    fn render(&self) -> Result<ReactNodeList<Span>, RenderError> {
        Ok(ReactNodeList::Host("span", HostProps::new(), None))
    }
}

/// A host tree kept in memory: for each host node its children, in order.
/// Node 0 is the container; the others are made as effects name them.
struct Platform {
    nodes: Vec<(HostKind, String)>,
    children: Vec<Vec<usize>>,
    /// For the tree committed last: host node of each fiber.
    mounted: Vec<Option<usize>>,
}

impl Platform {
    fn new() -> Platform {
        Platform {
            nodes: vec![(HostKind::Element, "body".to_string())],
            children: vec![Vec::new()],
            mounted: Vec::new(),
        }
    }

    /// Builds the host nodes of `tree` and carries out `effects`.
    fn apply(&mut self, tree: &FiberTree<Span>, effects: &[Effect]) {
        let mut fresh: Vec<Option<usize>> = Vec::new();
        for (index, fiber) in tree.nodes.iter().enumerate() {
            if index == 0 {
                fresh.push(Some(0));
            } else if let Some(node) = &fiber.dom {
                self.nodes.push((node.kind(), node.content().to_string()));
                self.children.push(Vec::new());
                fresh.push(Some(self.nodes.len() - 1));
            } else {
                fresh.push(None);
            }
        }
        for effect in effects {
            match effect.tag {
                EffectTag::Delete => {
                    let parent = self.mounted[effect.parent].unwrap();
                    let child = self.mounted[effect.child].unwrap();
                    self.children[parent].retain(|c| *c != child);
                }
                EffectTag::Insert => {
                    let parent = fresh[effect.parent].unwrap();
                    let child = fresh[effect.child].unwrap();
                    self.children[parent].push(child);
                }
                EffectTag::Update => unreachable!(),
            }
        }
        self.mounted = fresh;
    }

    fn describe(&self, node: usize) -> String {
        let (kind, content) = &self.nodes[node];
        let inner: Vec<String> = self.children[node].iter().map(|c| self.describe(*c)).collect();
        match kind {
            HostKind::Text => format!("{:?}", content),
            HostKind::Element => format!("<{}>{}</{}>", content, inner.join(""), content),
        }
    }
}

fn text(content: &str) -> Rc<ReactNodeList<Span>> {
    Rc::new(ReactNodeList::Text(content.to_string()))
}

/// Performs units of work until none is pending and returns how many ran.
fn work(root: &mut FiberRootNode<Span>) -> usize {
    let mut units = 0;
    while root.status == WorkStatus::Pending {
        root.perform_work();
        units += 1;
    }
    units
}

/// Renders `tree` to completion, commits it and applies it to `platform`.
fn mount(root: &mut FiberRootNode<Span>, platform: &mut Platform, tree: ReactNodeList<Span>) {
    root.render(tree);
    work(root);
    assert_eq!(root.status, WorkStatus::Complete);
    let effects = root.commit();
    assert_eq!(root.status, WorkStatus::Idle);
    platform.apply(&root.current, &effects);
}

#[test]
fn list_of_two_texts_attaches_both_in_order() {
    let mut root = create_root::<Span>(HostNode::element("body"));
    let mut platform = Platform::new();
    mount(&mut root, &mut platform, ReactNodeList::List(vec![text("A"), text("B")]));
    assert_eq!(platform.describe(0), "<body>\"A\"\"B\"</body>");
    assert_eq!(platform.children[0].len(), 2);
}

#[test]
fn element_with_text_child_nests() {
    let mut root = create_root::<Span>(HostNode::element("body"));
    let mut platform = Platform::new();
    mount(
        &mut root,
        &mut platform,
        ReactNodeList::Host("div", HostProps::new(), Some(text("X"))),
    );
    assert_eq!(platform.describe(0), "<body><div>\"X\"</div></body>");
    assert_eq!(platform.children[0].len(), 1);
    let div = platform.children[0][0];
    assert_eq!(platform.children[div].len(), 1);
}

#[test]
fn component_contributes_no_host_node() {
    let mut root = create_root::<Span>(HostNode::element("body"));
    let mut platform = Platform::new();
    mount(
        &mut root,
        &mut platform,
        ReactNodeList::Host(
            "div",
            HostProps::new(),
            Some(Rc::new(ReactNodeList::FunctionComponent(Span))),
        ),
    );
    assert_eq!(platform.describe(0), "<body><div><span></span></div></body>");
    // root, div, component, span
    assert_eq!(root.current.nodes.len(), 4);
    assert!(root.current.nodes[2].dom.is_none());
    assert_eq!(root.current.nodes[3].parent, Some(2));
}

#[test]
fn component_directly_under_root_attaches_to_container() {
    let mut root = create_root::<Span>(HostNode::element("body"));
    let mut platform = Platform::new();
    mount(&mut root, &mut platform, ReactNodeList::FunctionComponent(Span));
    assert_eq!(platform.describe(0), "<body><span></span></body>");
}

#[test]
fn second_render_replaces_first() {
    let mut root = create_root::<Span>(HostNode::element("body"));
    let mut platform = Platform::new();
    mount(&mut root, &mut platform, ReactNodeList::List(vec![text("A"), text("B")]));
    assert_eq!(platform.describe(0), "<body>\"A\"\"B\"</body>");
    mount(
        &mut root,
        &mut platform,
        ReactNodeList::Host("p", HostProps::new(), Some(text("C"))),
    );
    assert_eq!(platform.describe(0), "<body><p>\"C\"</p></body>");
}

#[test]
fn second_commit_removes_then_inserts() {
    let mut root = create_root::<Span>(HostNode::element("body"));
    root.render(ReactNodeList::List(vec![text("A"), text("B")]));
    work(&mut root);
    let first = root.commit();
    assert_eq!(
        first,
        vec![
            Effect { tag: EffectTag::Insert, parent: 0, child: 2 },
            Effect { tag: EffectTag::Insert, parent: 0, child: 3 },
        ]
    );
    assert_eq!(root.mounted, vec![2, 3]);
    root.render(ReactNodeList::Text("C".to_string()));
    work(&mut root);
    let second = root.commit();
    assert_eq!(
        second,
        vec![
            Effect { tag: EffectTag::Delete, parent: 0, child: 2 },
            Effect { tag: EffectTag::Delete, parent: 0, child: 3 },
            Effect { tag: EffectTag::Insert, parent: 0, child: 1 },
        ]
    );
    assert_eq!(root.mounted, vec![1]);
}

#[test]
fn nothing_is_committed_before_the_pass_is_complete() {
    let mut root = create_root::<Span>(HostNode::element("body"));
    root.render(ReactNodeList::List(vec![text("A"), text("B")]));
    assert_eq!(root.perform_work(), WorkStatus::Pending);
    let effects = root.commit();
    assert!(effects.is_empty());
    assert_eq!(root.status, WorkStatus::Pending);
    assert!(root.current.nodes.is_empty());
}

#[test]
fn each_fiber_is_one_unit_of_work() {
    let mut root = create_root::<Span>(HostNode::element("body"));
    root.render(ReactNodeList::List(vec![text("A"), text("B")]));
    // root, list, "A", "B"
    assert_eq!(work(&mut root), 4);
    assert_eq!(root.wip_root.nodes.len(), 4);
    assert_eq!(root.perform_work(), WorkStatus::Complete);
    assert_eq!(root.wip_root.nodes.len(), 4);
}

#[test]
fn abort_drops_the_pass_and_keeps_what_was_committed() {
    let mut root = create_root::<Span>(HostNode::element("body"));
    root.render(ReactNodeList::Text("A".to_string()));
    work(&mut root);
    root.commit();
    root.render(ReactNodeList::Text("B".to_string()));
    work(&mut root);
    root.abort(RenderError::HostPlatform);
    assert_eq!(root.status, WorkStatus::Failed(RenderError::HostPlatform));
    assert!(root.wip_root.nodes.is_empty());
    assert!(root.commit().is_empty());
    assert_eq!(root.current.nodes.len(), 2);
    assert_eq!(root.mounted, vec![1]);
    root.abort(RenderError::HostPlatform);
    assert_eq!(root.status, WorkStatus::Failed(RenderError::HostPlatform));
}

#[test]
fn abort_without_a_pass_changes_nothing() {
    let mut root = create_root::<Span>(HostNode::element("body"));
    root.abort(RenderError::HostPlatform);
    assert_eq!(root.status, WorkStatus::Idle);
}

#[test]
fn render_supersedes_a_pass_in_flight() {
    let mut root = create_root::<Span>(HostNode::element("body"));
    let mut platform = Platform::new();
    root.render(ReactNodeList::List(vec![text("A"), text("B")]));
    root.perform_work();
    root.perform_work();
    mount(&mut root, &mut platform, ReactNodeList::Text("C".to_string()));
    assert_eq!(platform.describe(0), "<body>\"C\"</body>");
}

#[test]
fn work_loop_stops_when_the_budget_is_spent() {
    let mut root = create_root::<Span>(HostNode::element("body"));
    root.render(ReactNodeList::List(vec![text("A"), text("B")]));
    assert_eq!(root.work_loop(0), 0);
    assert_eq!(root.status, WorkStatus::Pending);
    assert_eq!(root.work_loop(3), 3);
    assert_eq!(root.status, WorkStatus::Pending);
    assert_eq!(root.next_unit_of_work, Some(3));
    assert_eq!(root.work_loop(10), 1);
    assert_eq!(root.status, WorkStatus::Complete);
    assert_eq!(root.work_loop(10), 0);
    assert_eq!(root.status, WorkStatus::Complete);
}

#[test]
fn work_loop_without_a_pass_does_nothing() {
    let mut root = create_root::<Span>(HostNode::element("body"));
    assert_eq!(root.work_loop(5), 0);
    assert_eq!(root.status, WorkStatus::Idle);
}

#[test]
fn pending_effects_are_what_the_commit_returns() {
    let mut root = create_root::<Span>(HostNode::element("body"));
    assert!(root.pending_effects().is_empty());
    root.render(ReactNodeList::List(vec![text("A"), text("B")]));
    root.work_loop(2);
    assert!(root.pending_effects().is_empty());
    work(&mut root);
    let planned = root.pending_effects();
    assert_eq!(
        planned,
        vec![
            Effect { tag: EffectTag::Insert, parent: 0, child: 2 },
            Effect { tag: EffectTag::Insert, parent: 0, child: 3 },
        ]
    );
    assert_eq!(root.status, WorkStatus::Complete);
    assert_eq!(root.commit(), planned);
    root.render(ReactNodeList::Text("C".to_string()));
    work(&mut root);
    let replaced = root.pending_effects();
    assert_eq!(replaced.len(), 3);
    assert_eq!(replaced[0], Effect { tag: EffectTag::Delete, parent: 0, child: 2 });
    root.abort(RenderError::HostPlatform);
    assert!(root.pending_effects().is_empty());
    assert_eq!(root.mounted, vec![2, 3]);
}
