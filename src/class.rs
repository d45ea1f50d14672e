//! Classes: named aggregates of typed components, reached by the component's type.
use vstd::prelude::*;

verus! {

/// A named, statically typed aggregate of components.
///
/// The components of a class are reached by their type through
/// [`ClassDynComponent`], and the class itself is tested against and cast to a
/// concrete class type through [`ClassAs`]. Both are traits over the type
/// asked for, so a class that declared two components of one type would need
/// two impls of the same trait, which the compiler rejects.
pub trait Class: Sized {
    /// The name the class was declared with; empty unless the class says
    /// otherwise.
    open spec fn class_name(&self) -> Seq<char> {
        Seq::empty()
    }

    /// The class's declared name.
    fn name(&self) -> (r: &'static str)
        ensures
            r@ == self.class_name(),
    ;
}

/// Access to the component of type `K` of a class, if the class has one.
pub trait ClassDynComponent<K>: Class {
    /// The component of type `K` that the class holds, if any; by default none.
    open spec fn component_of(&self) -> Option<K> {
        Option::None
    }

    /// Returns the component of type `K`, if the class has one.
    fn component(&self) -> (r: Option<&K>)
        ensures
            r is Some == self.component_of() is Some,
            r is Some ==> *r.unwrap() == self.component_of().unwrap(),
    ;

    /// Returns the component of type `K` for writing, if the class has one.
    fn component_mut(&mut self) -> (r: Option<&mut K>)
        ensures
            r is Some == old(self).component_of() is Some,
            r is Some ==> *r.unwrap() == old(self).component_of().unwrap()
                && final(self).component_of() == Option::Some(*final(r.unwrap())),
            r is None ==> *final(self) == *old(self),
    ;
}

/// Runtime test and cast of a class value to the concrete class type `K`.
pub trait ClassAs<K>: Class {
    /// The value as a `K`, where it is one; by default it is not one.
    open spec fn as_class(&self) -> Option<K> {
        Option::None
    }

    /// Returns the value as a `K`, where it is one.
    fn class_as(&self) -> (r: Option<&K>)
        ensures
            r is Some == self.as_class() is Some,
            r is Some ==> *r.unwrap() == self.as_class().unwrap(),
    ;

    /// Returns the value as a `K` for writing, where it is one.
    fn class_as_mut(&mut self) -> (r: Option<&mut K>)
        ensures
            r is Some == old(self).as_class() is Some,
            r is Some ==> *r.unwrap() == old(self).as_class().unwrap()
                && final(self).as_class() == Option::Some(*final(r.unwrap())),
            r is None ==> *final(self) == *old(self),
    ;
}

/// The empty class: no components, named `()`.
impl Class for () {
    open spec fn class_name(&self) -> Seq<char> {
        "()"@
    }

    fn name(&self) -> (r: &'static str) {
        proof {
            reveal_strlit("()");
        }
        "()"
    }
}

impl<K> ClassDynComponent<K> for () {
    fn component(&self) -> (r: Option<&K>) {
        Option::None
    }

    fn component_mut(&mut self) -> (r: Option<&mut K>) {
        Option::None
    }
}

impl ClassAs<()> for () {
    open spec fn as_class(&self) -> Option<()> {
        Option::Some(())
    }

    fn class_as(&self) -> (r: Option<&()>) {
        Option::Some(self)
    }

    fn class_as_mut(&mut self) -> (r: Option<&mut ()>) {
        Option::Some(self)
    }
}

} // verus!
