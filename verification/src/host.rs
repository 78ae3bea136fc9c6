//! The host node: what a fiber holds of the concrete node it produced.
//!
//! A `HostNode` records the state that the reconciler gives a platform node
//! before it is attached: its kind, its tag or characters, its attributes and
//! its event listeners. The platform layer reads the record and builds the
//! concrete node from it.

use vstd::prelude::*;
use vstd::string::StringExecFns;

verus! {

/// Whether a host node is an element or a run of text.
#[derive(Clone, Copy, Debug, PartialEq, Eq, Structural)]
pub enum HostKind {
    Element,
    Text,
}

/// State of one host node.
#[derive(Debug)]
pub struct HostNode {
    kind: HostKind,
    content: String,
    attributes: Vec<(String, String)>,
    listeners: Vec<(String, u64)>,
}

/// Mathematical model of a host node: attributes form a map from name to
/// value, listeners a set of (event name, listener handle) pairs.
pub struct HostNodeView {
    pub kind: HostKind,
    /// Tag name of an element, characters of a text node.
    pub content: Seq<char>,
    pub attributes: Map<Seq<char>, Seq<char>>,
    pub listeners: Set<(Seq<char>, u64)>,
}

impl HostNodeView {
    /// A node of the given kind with no attribute and no listener.
    pub open spec fn bare(kind: HostKind, content: Seq<char>) -> HostNodeView {
        HostNodeView { kind, content, attributes: Map::empty(), listeners: Set::empty() }
    }

    pub open spec fn with_attribute(self, name: Seq<char>, value: Seq<char>) -> HostNodeView {
        HostNodeView { attributes: self.attributes.insert(name, value), ..self }
    }

    pub open spec fn without_attribute(self, name: Seq<char>) -> HostNodeView {
        HostNodeView { attributes: self.attributes.remove(name), ..self }
    }

    pub open spec fn with_listener(self, event: Seq<char>, listener: u64) -> HostNodeView {
        HostNodeView { listeners: self.listeners.insert((event, listener)), ..self }
    }

    pub open spec fn without_listener(self, event: Seq<char>, listener: u64) -> HostNodeView {
        HostNodeView { listeners: self.listeners.remove((event, listener)), ..self }
    }
}

/// The map that a list of (name, value) entries stands for; a later entry
/// for a name overrides an earlier one.
pub open spec fn attribute_map(entries: Seq<(String, String)>) -> Map<Seq<char>, Seq<char>>
    decreases entries.len(),
{
    if entries.len() == 0 {
        Map::empty()
    } else {
        attribute_map(entries.drop_last()).insert(entries.last().0@, entries.last().1@)
    }
}

/// The set of (event, handle) pairs that occur in a list of listeners.
pub open spec fn listener_set(entries: Seq<(String, u64)>) -> Set<(Seq<char>, u64)> {
    Set::new(
        |p: (Seq<char>, u64)|
            exists|i: int|
                0 <= i < entries.len() && (#[trigger] entries[i]).0@ == p.0 && entries[i].1 == p.1,
    )
}

proof fn lemma_attribute_map_push(entries: Seq<(String, String)>, entry: (String, String))
    ensures
        attribute_map(entries.push(entry)) == attribute_map(entries).insert(entry.0@, entry.1@),
{
    assert(entries.push(entry).drop_last() =~= entries);
}

proof fn lemma_listener_set_push(entries: Seq<(String, u64)>, entry: (String, u64))
    ensures
        listener_set(entries.push(entry)) == listener_set(entries).insert((entry.0@, entry.1)),
{
    let a = listener_set(entries.push(entry));
    let b = listener_set(entries).insert((entry.0@, entry.1));
    assert forall|p: (Seq<char>, u64)| a.contains(p) <==> b.contains(p) by {
        if a.contains(p) {
            let i = choose|i: int|
                0 <= i < entries.push(entry).len() && (#[trigger] entries.push(entry)[i]).0@ == p.0
                    && entries.push(entry)[i].1 == p.1;
            if i < entries.len() {
                assert(entries[i] == entries.push(entry)[i]);
            }
        }
        if b.contains(p) {
            if p == (entry.0@, entry.1) {
                assert(entries.push(entry)[entries.len() as int] == entry);
            } else {
                let i = choose|i: int|
                    0 <= i < entries.len() && (#[trigger] entries[i]).0@ == p.0 && entries[i].1
                        == p.1;
                assert(entries.push(entry)[i] == entries[i]);
            }
        }
    }
    assert(a =~= b);
}

proof fn lemma_listener_set_empty()
    ensures
        listener_set(Seq::empty()) == Set::<(Seq<char>, u64)>::empty(),
{
    assert(listener_set(Seq::empty()) =~= Set::<(Seq<char>, u64)>::empty());
}

impl View for HostNode {
    type V = HostNodeView;

    closed spec fn view(&self) -> HostNodeView {
        HostNodeView {
            kind: self.kind,
            content: self.content@,
            attributes: attribute_map(self.attributes@),
            listeners: listener_set(self.listeners@),
        }
    }
}

impl HostNode {
    /// A fresh element with the given tag, no attribute and no listener.
    pub fn element(tag: &str) -> (node: HostNode)
        ensures
            node@ == HostNodeView::bare(HostKind::Element, tag@),
    {
        proof {
            lemma_listener_set_empty();
        }
        HostNode {
            kind: HostKind::Element,
            content: String::from_str(tag),
            attributes: Vec::new(),
            listeners: Vec::new(),
        }
    }

    /// A fresh text node with the given characters.
    pub fn text(content: &str) -> (node: HostNode)
        ensures
            node@ == HostNodeView::bare(HostKind::Text, content@),
    {
        proof {
            lemma_listener_set_empty();
        }
        HostNode {
            kind: HostKind::Text,
            content: String::from_str(content),
            attributes: Vec::new(),
            listeners: Vec::new(),
        }
    }

    /// A second record of the same node.
    pub fn duplicate(&self) -> (copy: HostNode)
        ensures
            copy@ == self@,
    {
        let mut attributes: Vec<(String, String)> = Vec::new();
        let mut i: usize = 0;
        while i < self.attributes.len()
            invariant
                i <= self.attributes.len(),
                attribute_map(attributes@) == attribute_map(self.attributes@.take(i as int)),
            decreases self.attributes.len() - i,
        {
            let entry = (self.attributes[i].0.clone(), self.attributes[i].1.clone());
            proof {
                assert(self.attributes@.take(i + 1) =~= self.attributes@.take(i as int).push(
                    self.attributes@[i as int],
                ));
                lemma_attribute_map_push(self.attributes@.take(i as int), self.attributes@[i as int]);
                lemma_attribute_map_push(attributes@, entry);
            }
            attributes.push(entry);
            i += 1;
        }
        assert(self.attributes@.take(i as int) =~= self.attributes@);
        let mut listeners: Vec<(String, u64)> = Vec::new();
        let mut j: usize = 0;
        while j < self.listeners.len()
            invariant
                j <= self.listeners.len(),
                listener_set(listeners@) == listener_set(self.listeners@.take(j as int)),
            decreases self.listeners.len() - j,
        {
            let entry = (self.listeners[j].0.clone(), self.listeners[j].1);
            proof {
                assert(self.listeners@.take(j + 1) =~= self.listeners@.take(j as int).push(
                    self.listeners@[j as int],
                ));
                lemma_listener_set_push(self.listeners@.take(j as int), self.listeners@[j as int]);
                lemma_listener_set_push(listeners@, entry);
            }
            listeners.push(entry);
            j += 1;
        }
        assert(self.listeners@.take(j as int) =~= self.listeners@);
        HostNode { kind: self.kind, content: self.content.clone(), attributes, listeners }
    }

    pub fn kind(&self) -> (kind: HostKind)
        ensures
            kind == self@.kind,
    {
        self.kind
    }

    /// Tag name of an element, characters of a text node.
    pub fn content(&self) -> (content: &str)
        ensures
            content@ == self@.content,
    {
        self.content.as_str()
    }

    /// The attributes as (name, value) entries.
    pub fn attributes(&self) -> (entries: &Vec<(String, String)>)
        ensures
            attribute_map(entries@) == self@.attributes,
    {
        &self.attributes
    }

    /// The listeners as (event, handle) entries.
    pub fn listeners(&self) -> (entries: &Vec<(String, u64)>)
        ensures
            listener_set(entries@) == self@.listeners,
    {
        &self.listeners
    }

    /// Sets attribute `name` to `value`, replacing any earlier value.
    pub fn set_attribute(&mut self, name: &str, value: &str)
        ensures
            final(self)@ == old(self)@.with_attribute(name@, value@),
    {
        self.remove_attribute(name);
        let entry = (String::from_str(name), String::from_str(value));
        proof {
            lemma_attribute_map_push(self.attributes@, entry);
        }
        self.attributes.push(entry);
        assert(self@.attributes =~= old(self)@.attributes.insert(name@, value@));
    }

    /// Removes attribute `name`; a node without it is left as it is.
    pub fn remove_attribute(&mut self, name: &str)
        ensures
            final(self)@ == old(self)@.without_attribute(name@),
    {
        let name = String::from_str(name);
        let mut kept: Vec<(String, String)> = Vec::new();
        let mut i: usize = 0;
        while i < self.attributes.len()
            invariant
                i <= self.attributes.len(),
                attribute_map(kept@) == attribute_map(self.attributes@.take(i as int)).remove(
                    name@,
                ),
            decreases self.attributes.len() - i,
        {
            let ghost seen = self.attributes@.take(i as int);
            let ghost entry = self.attributes@[i as int];
            proof {
                assert(self.attributes@.take(i + 1) =~= seen.push(entry));
                lemma_attribute_map_push(seen, entry);
            }
            if self.attributes[i].0 != name {
                let copy = (self.attributes[i].0.clone(), self.attributes[i].1.clone());
                proof {
                    lemma_attribute_map_push(kept@, copy);
                    assert(attribute_map(kept@).insert(copy.0@, copy.1@) =~= attribute_map(
                        seen,
                    ).insert(entry.0@, entry.1@).remove(name@));
                }
                kept.push(copy);
            } else {
                assert(attribute_map(kept@) =~= attribute_map(seen).insert(
                    entry.0@,
                    entry.1@,
                ).remove(name@));
            }
            i += 1;
        }
        assert(self.attributes@.take(i as int) =~= self.attributes@);
        self.attributes = kept;
    }

    /// Value of attribute `name`, if the node has it.
    pub fn attribute(&self, name: &str) -> (value: Option<String>)
        ensures
            value.is_some() == self@.attributes.contains_key(name@),
            value matches Some(v) ==> v@ == self@.attributes[name@],
    {
        let name = String::from_str(name);
        let mut found: Option<String> = None;
        let mut i: usize = 0;
        while i < self.attributes.len()
            invariant
                i <= self.attributes.len(),
                found.is_some() == attribute_map(self.attributes@.take(i as int)).contains_key(
                    name@,
                ),
                found matches Some(v) ==> v@ == attribute_map(self.attributes@.take(i as int))[name@],
            decreases self.attributes.len() - i,
        {
            proof {
                let seen = self.attributes@.take(i as int);
                let entry = self.attributes@[i as int];
                assert(self.attributes@.take(i + 1) =~= seen.push(entry));
                lemma_attribute_map_push(seen, entry);
            }
            if self.attributes[i].0 == name {
                found = Some(self.attributes[i].1.clone());
            }
            i += 1;
        }
        assert(self.attributes@.take(i as int) =~= self.attributes@);
        found
    }

    /// Whether `listener` is registered for `event`.
    pub fn has_listener(&self, event: &str, listener: u64) -> (present: bool)
        ensures
            present == self@.listeners.contains((event@, listener)),
    {
        let wanted = String::from_str(event);
        let mut i: usize = 0;
        while i < self.listeners.len()
            invariant
                i <= self.listeners.len(),
                wanted@ == event@,
                forall|j: int|
                    0 <= j < i ==> !((#[trigger] self.listeners@[j]).0@ == event@
                        && self.listeners@[j].1 == listener),
            decreases self.listeners.len() - i,
        {
            if self.listeners[i].0 == wanted && self.listeners[i].1 == listener {
                assert(self.listeners@[i as int].0@ == event@);
                return true;
            }
            i += 1;
        }
        false
    }

    /// Registers `listener` for `event`; registering the same pair again
    /// changes nothing.
    pub fn add_event_listener(&mut self, event: &str, listener: u64)
        ensures
            final(self)@ == old(self)@.with_listener(event@, listener),
    {
        if !self.has_listener(event, listener) {
            let entry = (String::from_str(event), listener);
            proof {
                lemma_listener_set_push(self.listeners@, entry);
            }
            self.listeners.push(entry);
        } else {
            assert(self@.listeners =~= self@.listeners.insert((event@, listener)));
        }
    }

    /// Unregisters `listener` from `event`.
    pub fn remove_event_listener(&mut self, event: &str, listener: u64)
        ensures
            final(self)@ == old(self)@.without_listener(event@, listener),
    {
        let event = String::from_str(event);
        let mut kept: Vec<(String, u64)> = Vec::new();
        let mut i: usize = 0;
        while i < self.listeners.len()
            invariant
                i <= self.listeners.len(),
                listener_set(kept@) == listener_set(self.listeners@.take(i as int)).remove(
                    (event@, listener),
                ),
            decreases self.listeners.len() - i,
        {
            let ghost seen = self.listeners@.take(i as int);
            let ghost entry = self.listeners@[i as int];
            proof {
                assert(self.listeners@.take(i + 1) =~= seen.push(entry));
                lemma_listener_set_push(seen, entry);
            }
            if !(self.listeners[i].0 == event && self.listeners[i].1 == listener) {
                let copy = (self.listeners[i].0.clone(), self.listeners[i].1);
                proof {
                    lemma_listener_set_push(kept@, copy);
                    assert(listener_set(kept@).insert((copy.0@, copy.1)) =~= listener_set(
                        seen,
                    ).insert((entry.0@, entry.1)).remove((event@, listener)));
                }
                kept.push(copy);
            } else {
                assert(listener_set(kept@) =~= listener_set(seen).insert(
                    (entry.0@, entry.1),
                ).remove((event@, listener)));
            }
            i += 1;
        }
        assert(self.listeners@.take(i as int) =~= self.listeners@);
        self.listeners = kept;
    }
}

} // verus!
