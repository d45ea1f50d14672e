//! Nodes: one entry of a universe, with its links and its class.
use crate::class::{Class, ClassAs, ClassDynComponent};
use crate::handle_map::Handle;
use vstd::prelude::*;

verus! {

/// One node of a universe: its own handle, its parent's, its children's, and
/// the class value it owns.
#[derive(Debug)]
pub struct Node<C> {
    handle: Option<Handle>,
    parent_handle: Option<Handle>,
    children_handles: Vec<Handle>,
    class: C,
}

impl<C> Node<C> {
    /// The node's own handle, once the universe has set it.
    pub closed spec fn own_handle(&self) -> Option<Handle> {
        self.handle
    }

    /// The handle of the node's parent, if it has one.
    pub closed spec fn parent_of(&self) -> Option<Handle> {
        self.parent_handle
    }

    /// The handles of the node's children, in the order they were attached.
    pub closed spec fn children_of(&self) -> Seq<Handle> {
        self.children_handles@
    }

    /// The class value the node owns.
    pub closed spec fn class_of(&self) -> C {
        self.class
    }

    /// A node with no handle yet, the given parent, and no children.
    pub(crate) fn new(parent_handle: Option<&Handle>, class: C) -> (r: Self)
        ensures
            r.own_handle() is None,
            r.parent_of() == match parent_handle {
                Option::Some(p) => Option::Some(*p),
                Option::None => Option::None,
            },
            r.children_of() == Seq::<Handle>::empty(),
            r.class_of() == class,
    {
        let parent_handle = match parent_handle {
            Option::Some(p) => Option::Some(*p),
            Option::None => Option::None,
        };
        Node { handle: Option::None, parent_handle, children_handles: Vec::new(), class }
    }

    pub(crate) fn set_handle(&mut self, handle: Handle)
        ensures
            final(self).own_handle() == Option::Some(handle),
            final(self).parent_of() == old(self).parent_of(),
            final(self).children_of() == old(self).children_of(),
            final(self).class_of() == old(self).class_of(),
    {
        self.handle = Option::Some(handle);
    }

    pub(crate) fn push_child_handle(&mut self, handle: Handle)
        ensures
            final(self).own_handle() == old(self).own_handle(),
            final(self).parent_of() == old(self).parent_of(),
            final(self).children_of() == old(self).children_of().push(handle),
            final(self).class_of() == old(self).class_of(),
    {
        self.children_handles.push(handle);
    }

    /// Removes the first occurrence of `handle` among the children, if any.
    pub(crate) fn remove_child_handle(&mut self, handle: &Handle)
        ensures
            final(self).own_handle() == old(self).own_handle(),
            final(self).parent_of() == old(self).parent_of(),
            final(self).children_of() == old(self).children_of().remove_value(*handle),
            final(self).class_of() == old(self).class_of(),
    {
        remove_first(&mut self.children_handles, handle);
    }

    pub(crate) fn set_parent_handle(&mut self, handle: Option<&Handle>)
        ensures
            final(self).own_handle() == old(self).own_handle(),
            final(self).parent_of() == match handle {
                Option::Some(p) => Option::Some(*p),
                Option::None => Option::None,
            },
            final(self).children_of() == old(self).children_of(),
            final(self).class_of() == old(self).class_of(),
    {
        self.parent_handle = match handle {
            Option::Some(p) => Option::Some(*p),
            Option::None => Option::None,
        };
    }

    /// Returns the handle of this node's parent, if it has one.
    pub fn parent(&self) -> (r: Option<&Handle>)
        ensures
            r is Some == self.parent_of() is Some,
            r is Some ==> *r.unwrap() == self.parent_of().unwrap(),
    {
        self.parent_handle.as_ref()
    }

    /// Returns the handles of the children of this node.
    pub fn children(&self) -> (r: &[Handle])
        ensures
            r@ == self.children_of(),
    {
        self.children_handles.as_slice()
    }

    /// Returns the node's own handle, which its universe sets when it creates
    /// the node.
    pub fn handle(&self) -> (r: &Handle)
        requires
            self.own_handle() is Some,
        ensures
            *r == self.own_handle().unwrap(),
    {
        self.handle.as_ref().unwrap()
    }

    /// Returns the class object of this node.
    pub fn class(&self) -> (r: &C)
        ensures
            *r == self.class_of(),
    {
        &self.class
    }

    /// Whether the node's class has a component of type `K`.
    pub open spec fn has_component<K>(&self) -> bool where C: ClassDynComponent<K> {
        self.class_of().component_of() is Some
    }

    /// Whether the node's class is of the concrete class type `K`.
    pub open spec fn is_class<K>(&self) -> bool where C: ClassAs<K> {
        self.class_of().as_class() is Some
    }

    /// Returns the component of type `K` belonging to this node, if it has one.
    pub fn component<K>(&self) -> (r: Option<&K>) where C: ClassDynComponent<K>
        ensures
            r is Some == self.has_component::<K>(),
            r is Some ==> *r.unwrap() == self.class_of().component_of().unwrap(),
    {
        self.class.component()
    }

    /// Returns the component of type `K` belonging to this node for writing, if
    /// it has one.
    pub fn component_mut<K>(&mut self) -> (r: Option<&mut K>) where C: ClassDynComponent<K>
        ensures
            r is Some == old(self).has_component::<K>(),
            r is Some ==> *r.unwrap() == old(self).class_of().component_of().unwrap()
                && final(self).class_of().component_of() == Option::Some(*final(r.unwrap())),
            final(self).own_handle() == old(self).own_handle(),
            final(self).parent_of() == old(self).parent_of(),
            final(self).children_of() == old(self).children_of(),
            r is None ==> *final(self) == *old(self),
    {
        self.class.component_mut()
    }

    /// Returns the class object of this node as a `K`, where it is one.
    pub fn class_as<K>(&self) -> (r: Option<&K>) where C: ClassAs<K>
        ensures
            r is Some == self.is_class::<K>(),
            r is Some ==> *r.unwrap() == self.class_of().as_class().unwrap(),
    {
        self.class.class_as()
    }

    /// Returns the class object of this node as a `K` for writing, where it is one.
    pub fn class_as_mut<K>(&mut self) -> (r: Option<&mut K>) where C: ClassAs<K>
        ensures
            r is Some == old(self).is_class::<K>(),
            r is Some ==> *r.unwrap() == old(self).class_of().as_class().unwrap()
                && final(self).class_of().as_class() == Option::Some(*final(r.unwrap())),
            final(self).own_handle() == old(self).own_handle(),
            final(self).parent_of() == old(self).parent_of(),
            final(self).children_of() == old(self).children_of(),
            r is None ==> *final(self) == *old(self),
    {
        self.class.class_as_mut()
    }

    /// Returns whether the node's class is of the concrete class type `K`.
    pub fn class_is<K>(&self) -> (r: bool) where C: ClassAs<K>
        ensures
            r == self.is_class::<K>(),
    {
        self.class.class_as().is_some()
    }
}

/// Two nodes are equal when they have the same own handle.
impl<C> PartialEq for Node<C> {
    fn eq(&self, other: &Self) -> (r: bool) {
        match (&self.handle, &other.handle) {
            (Option::Some(a), Option::Some(b)) => *a == *b,
            (Option::None, Option::None) => true,
            _ => false,
        }
    }
}

impl<C> vstd::std_specs::cmp::PartialEqSpecImpl for Node<C> {
    open spec fn obeys_eq_spec() -> bool {
        true
    }

    open spec fn eq_spec(&self, other: &Self) -> bool {
        self.own_handle() == other.own_handle()
    }
}

impl<C> Eq for Node<C> {
}

/// Removes the first occurrence of `h` from `v`, if there is one.
pub(crate) fn remove_first(v: &mut Vec<Handle>, h: &Handle)
    ensures
        final(v)@ == old(v)@.remove_value(*h),
{
    let mut i: usize = 0;
    while i < v.len()
        invariant
            *v == *old(v),
            i <= v@.len(),
            forall|j: int| 0 <= j < i ==> v@[j] != *h,
        decreases v@.len() - i,
    {
        if v[i] == *h {
            proof {
                v@.index_of_first_ensures(*h);
                assert(v@.contains(*h));
                let k = v@.index_of_first(*h).unwrap();
                assert(k == i);
            }
            v.remove(i);
            return;
        }
        i = i + 1;
    }
    proof {
        v@.index_of_first_ensures(*h);
    }
}

/// What `remove_value` does to a sequence without duplicates: it takes out
/// the value, keeps every other element, and leaves no duplicate.
pub proof fn lemma_remove_value_unique(s: Seq<Handle>, x: Handle)
    requires
        s.no_duplicates(),
    ensures
        s.remove_value(x).no_duplicates(),
        !s.remove_value(x).contains(x),
        forall|y: Handle| y != x ==> (#[trigger] s.remove_value(x).contains(y) == s.contains(y)),
{
    s.index_of_first_ensures(x);
    match s.index_of_first(x) {
        Option::Some(i) => {
            let r = s.remove(i);
            assert forall|y: Handle| y != x implies (#[trigger] r.contains(y) == s.contains(y)) by {
                if s.contains(y) {
                    let k = choose|k: int| 0 <= k < s.len() && s[k] == y;
                    assert(k != i);
                    if k < i {
                        assert(r[k] == y);
                    } else {
                        assert(r[k - 1] == y);
                    }
                }
            }
            assert forall|a: int, b: int| 0 <= a < r.len() && 0 <= b < r.len() && a != b implies r[a] != r[b] by {
                let a2 = if a < i { a } else { a + 1 };
                let b2 = if b < i { b } else { b + 1 };
                assert(r[a] == s[a2]);
                assert(r[b] == s[b2]);
            }
            if r.contains(x) {
                let k = choose|k: int| 0 <= k < r.len() && r[k] == x;
                let k2 = if k < i { k } else { k + 1 };
                assert(s[k2] == x);
            }
        },
        Option::None => {},
    }
}

} // verus!
