//! Attributes of host elements: the setter/remover capability, the two kinds
//! of attribute that elements carry, and the keyed collection of them.

use vstd::prelude::*;
use vstd::string::StringExecFns;
use crate::host::{HostNode, HostNodeView};

verus! {

/// A capability that installs itself on a host node under a key and takes
/// itself off again.
pub trait HostAttribute {
    type Type;

    fn set(&self, key: &str, component: &mut Self::Type);

    fn remove(&self, key: &str, component: &mut Self::Type);
}

/// An event listener, named by the handle under which the platform layer
/// keeps the callback. The key it is set under is the event's name.
#[derive(Debug)]
pub struct EventListener(pub u64);

/// A plain attribute value. The key it is set under is the attribute's name.
#[derive(Debug)]
pub struct StringAttr(pub String);

impl HostAttribute for EventListener {
    type Type = HostNode;

    fn set(&self, key: &str, component: &mut HostNode)
        ensures
            final(component)@ == old(component)@.with_listener(key@, self.0),
    {
        component.add_event_listener(key, self.0);
    }

    fn remove(&self, key: &str, component: &mut HostNode)
        ensures
            final(component)@ == old(component)@.without_listener(key@, self.0),
    {
        component.remove_event_listener(key, self.0);
    }
}

impl HostAttribute for StringAttr {
    type Type = HostNode;

    fn set(&self, key: &str, component: &mut HostNode)
        ensures
            final(component)@ == old(component)@.with_attribute(key@, self.0@),
    {
        component.set_attribute(key, self.0.as_str());
    }

    fn remove(&self, key: &str, component: &mut HostNode)
        ensures
            final(component)@ == old(component)@.without_attribute(key@),
    {
        component.remove_attribute(key);
    }
}

/// One attribute of a host element: a value or a listener.
#[derive(Debug)]
pub enum Attribute {
    Value(StringAttr),
    Listener(EventListener),
}

/// Model of an [`Attribute`].
pub enum AttributeView {
    Value(Seq<char>),
    Listener(u64),
}

impl AttributeView {
    /// The node after this attribute's setter ran on it under `key`.
    pub open spec fn set(self, key: Seq<char>, node: HostNodeView) -> HostNodeView {
        match self {
            AttributeView::Value(value) => node.with_attribute(key, value),
            AttributeView::Listener(listener) => node.with_listener(key, listener),
        }
    }

    /// The node after this attribute's remover ran on it under `key`.
    pub open spec fn remove(self, key: Seq<char>, node: HostNodeView) -> HostNodeView {
        match self {
            AttributeView::Value(_) => node.without_attribute(key),
            AttributeView::Listener(listener) => node.without_listener(key, listener),
        }
    }
}

impl View for Attribute {
    type V = AttributeView;

    open spec fn view(&self) -> AttributeView {
        match self {
            Attribute::Value(a) => AttributeView::Value(a.0@),
            Attribute::Listener(l) => AttributeView::Listener(l.0),
        }
    }
}

impl HostAttribute for Attribute {
    type Type = HostNode;

    fn set(&self, key: &str, component: &mut HostNode)
        ensures
            final(component)@ == self@.set(key@, old(component)@),
    {
        match self {
            Attribute::Value(a) => a.set(key, component),
            Attribute::Listener(l) => l.set(key, component),
        }
    }

    fn remove(&self, key: &str, component: &mut HostNode)
        ensures
            final(component)@ == self@.remove(key@, old(component)@),
    {
        match self {
            Attribute::Value(a) => a.remove(key, component),
            Attribute::Listener(l) => l.remove(key, component),
        }
    }
}

/// Whether some entry of `entries` has the key `key`.
pub open spec fn has_key(entries: Seq<(Seq<char>, AttributeView)>, key: Seq<char>) -> bool {
    exists|i: int| 0 <= i < entries.len() && (#[trigger] entries[i]).0 == key
}

/// Whether no key occurs twice in `entries`.
pub open spec fn distinct_keys(entries: Seq<(Seq<char>, AttributeView)>) -> bool {
    forall|i: int, j: int|
        0 <= i < j < entries.len() ==> (#[trigger] entries[i]).0 != (#[trigger] entries[j]).0
}

/// Whether `index` is the first entry of `entries` with the key `key`.
pub open spec fn is_first_with_key(
    entries: Seq<(Seq<char>, AttributeView)>,
    key: Seq<char>,
    index: int,
) -> bool {
    &&& 0 <= index < entries.len()
    &&& entries[index].0 == key
    &&& forall|j: int| 0 <= j < index ==> (#[trigger] entries[j]).0 != key
}

/// Index of the first entry with key `key`, where there is one.
pub open spec fn key_index(entries: Seq<(Seq<char>, AttributeView)>, key: Seq<char>) -> int {
    choose|i: int| is_first_with_key(entries, key, i)
}

/// The entries after `key` was given the attribute `attribute`: the entry
/// with that key is replaced in place, or a new entry is added at the end.
pub open spec fn put(
    entries: Seq<(Seq<char>, AttributeView)>,
    key: Seq<char>,
    attribute: AttributeView,
) -> Seq<(Seq<char>, AttributeView)> {
    if has_key(entries, key) {
        entries.update(key_index(entries, key), (key, attribute))
    } else {
        entries.push((key, attribute))
    }
}

/// Giving a key an attribute never makes a key occur twice.
pub proof fn lemma_put_keeps_keys_distinct(
    entries: Seq<(Seq<char>, AttributeView)>,
    key: Seq<char>,
    attribute: AttributeView,
)
    requires
        distinct_keys(entries),
    ensures
        distinct_keys(put(entries, key, attribute)),
{
    let after = put(entries, key, attribute);
    if has_key(entries, key) {
        let w = choose|i: int| 0 <= i < entries.len() && (#[trigger] entries[i]).0 == key;
        lemma_first_exists(entries, key, w);
        let k = key_index(entries, key);
        assert forall|a: int, b: int| 0 <= a < b < after.len() implies (#[trigger] after[a]).0 != (
        #[trigger] after[b]).0 by {
            assert(after[a].0 == entries[a].0);
            assert(after[b].0 == entries[b].0);
        }
    } else {
        assert forall|a: int, b: int| 0 <= a < b < after.len() implies (#[trigger] after[a]).0 != (
        #[trigger] after[b]).0 by {
            assert(after[a] == entries[a]);
            if b < entries.len() {
                assert(after[b] == entries[b]);
            }
        }
    }
}

proof fn lemma_first_exists(entries: Seq<(Seq<char>, AttributeView)>, key: Seq<char>, at: int)
    requires
        0 <= at < entries.len(),
        entries[at].0 == key,
    ensures
        is_first_with_key(entries, key, key_index(entries, key)),
        key_index(entries, key) <= at,
    decreases at,
{
    if exists|j: int| 0 <= j < at && (#[trigger] entries[j]).0 == key {
        let j = choose|j: int| 0 <= j < at && (#[trigger] entries[j]).0 == key;
        lemma_first_exists(entries, key, j);
    } else {
        assert(is_first_with_key(entries, key, at));
        let k = key_index(entries, key);
        assert(is_first_with_key(entries, key, k));
        if k > at {
            assert(entries[at].0 != key);
        }
    }
}

/// The attributes of a host element, each under its own key.
#[derive(Debug)]
pub struct HostProps {
    entries: Vec<(&'static str, Attribute)>,
}

impl View for HostProps {
    type V = Seq<(Seq<char>, AttributeView)>;

    closed spec fn view(&self) -> Seq<(Seq<char>, AttributeView)> {
        Seq::new(self.entries@.len(), |i: int| (self.entries@[i].0@, self.entries@[i].1@))
    }
}

impl HostProps {
    /// No key occurs twice. `new` establishes this and `insert` keeps it.
    pub open spec fn well_formed(&self) -> bool {
        distinct_keys(self@)
    }

    /// An empty collection.
    pub fn new() -> (props: HostProps)
        ensures
            props@ == Seq::<(Seq<char>, AttributeView)>::empty(),
            props.well_formed(),
    {
        let props = HostProps { entries: Vec::new() };
        assert(props@ =~= Seq::empty());
        props
    }

    /// Number of entries.
    pub fn len(&self) -> (n: usize)
        ensures
            n == self@.len(),
    {
        self.entries.len()
    }

    /// Key of the entry at `index`.
    pub fn key(&self, index: usize) -> (key: &'static str)
        requires
            index < self@.len(),
        ensures
            key@ == self@[index as int].0,
    {
        self.entries[index].0
    }

    /// Attribute of the entry at `index`.
    pub fn attribute(&self, index: usize) -> (attribute: &Attribute)
        requires
            index < self@.len(),
        ensures
            attribute@ == self@[index as int].1,
    {
        &self.entries[index].1
    }

    /// Position of the first entry with key `key`.
    pub fn find(&self, key: &str) -> (found: Option<usize>)
        ensures
            found.is_some() == has_key(self@, key@),
            found matches Some(i) ==> is_first_with_key(self@, key@, i as int) && i == key_index(
                self@,
                key@,
            ),
    {
        let wanted = String::from_str(key);
        let mut i: usize = 0;
        while i < self.entries.len()
            invariant
                i <= self.entries.len(),
                wanted@ == key@,
                self.entries@.len() == self@.len(),
                forall|j: int| 0 <= j < i ==> (#[trigger] self@[j]).0 != key@,
            decreases self.entries.len() - i,
        {
            let candidate = String::from_str(self.entries[i].0);
            if candidate == wanted {
                proof {
                    assert(self@[i as int].0 == key@);
                    lemma_first_exists(self@, key@, i as int);
                }
                return Some(i);
            }
            i += 1;
        }
        None
    }

    /// Whether some entry has key `key`.
    pub fn contains_key(&self, key: &str) -> (present: bool)
        ensures
            present == has_key(self@, key@),
    {
        self.find(key).is_some()
    }

    /// Gives `key` the attribute `attribute` and returns the attribute that
    /// it had before, if any.
    pub fn insert(&mut self, key: &'static str, attribute: Attribute) -> (previous: Option<
        Attribute,
    >)
        ensures
            final(self)@ == put(old(self)@, key@, attribute@),
            previous.is_some() == has_key(old(self)@, key@),
            previous matches Some(a) ==> a@ == old(self)@[key_index(old(self)@, key@)].1,
            old(self).well_formed() ==> final(self).well_formed(),
    {
        proof {
            if distinct_keys(self@) {
                lemma_put_keeps_keys_distinct(self@, key@, attribute@);
            }
        }
        match self.find(key) {
            Some(i) => {
                let replaced = self.entries.remove(i);
                self.entries.insert(i, (key, attribute));
                assert(self@ =~= put(old(self)@, key@, attribute@));
                Some(replaced.1)
            },
            None => {
                self.entries.push((key, attribute));
                assert(self@ =~= put(old(self)@, key@, attribute@));
                None
            },
        }
    }
}

} // verus!
