//! The universe: an arena of nodes linked into a forest, with its roots.
use crate::class::{ClassAs, ClassDynComponent};
use crate::handle_map::{Handle, HandleMap, HandleMapValues};
use crate::node::{lemma_remove_value_unique, remove_first, Node};
use vstd::prelude::*;

verus! {

/// A universe which contains any number of nodes.
///
/// All nodes of a universe hold a class value of one type `C`. Classes are
/// reached through the traits of [`crate::class`], which are checked at
/// compile time rather than through runtime type ids, so a universe that
/// mixes several classes takes an enum of them as `C`, implementing
/// `ClassAs` for each variant's class and `ClassDynComponent` for each
/// component type.
///
/// Nodes are changed through `node_mut` and the `using_..._mut` calls. There
/// is no cursor over all nodes for writing: Verus cannot relate what a cursor
/// holding the arena by `&mut` leaves behind to the arena it borrowed.
#[derive(Debug)]
pub struct Universe<C> {
    nodes: HandleMap<Node<C>>,
    roots: Vec<Handle>,
}

/// The parent a node gets from an optional parent handle.
pub open spec fn parent_value(p: Option<&Handle>) -> Option<Handle> {
    match p {
        Option::Some(h) => Option::Some(*h),
        Option::None => Option::None,
    }
}

/// A node's children after `node` moves from `old_parent` to `new_parent`.
pub open spec fn moved_children(
    children: Seq<Handle>,
    owner: Handle,
    node: Handle,
    old_parent: Option<Handle>,
    new_parent: Option<Handle>,
) -> Seq<Handle> {
    let kept = if old_parent == Option::Some(owner) {
        children.remove_value(node)
    } else {
        children
    };
    if new_parent == Option::Some(owner) {
        kept.push(node)
    } else {
        kept
    }
}

/// The roots after `node` moves from `old_parent` to `new_parent`.
pub open spec fn moved_roots(
    roots: Seq<Handle>,
    node: Handle,
    old_parent: Option<Handle>,
    new_parent: Option<Handle>,
) -> Seq<Handle> {
    let kept = if old_parent is None {
        roots.remove_value(node)
    } else {
        roots
    };
    if new_parent is None {
        kept.push(node)
    } else {
        kept
    }
}

/// `out` is what `f` gave back for the node at `h` in `nodes`, or for `None`
/// where `h` does not resolve there.
pub open spec fn applied_to<'a, C: 'a, R, F: Fn(Option<&'a Node<C>>) -> R>(
    f: F,
    nodes: Map<Handle, Node<C>>,
    h: Handle,
    out: R,
) -> bool {
    exists|x: Option<&'a Node<C>>|
        #![trigger f.ensures((x,), out)]
        f.ensures((x,), out) && (x is Some == nodes.contains_key(h)) && (x is Some ==> *x.unwrap() == nodes[h])
}

/// `out` is what `f` gave back for the node at `h`, which had then the same
/// links as in `nodes`, or for `None` where `h` does not resolve in `nodes`.
pub open spec fn applied_mut_to<C, R, F: Fn(Option<&mut Node<C>>) -> R>(
    f: F,
    nodes: Map<Handle, Node<C>>,
    h: Handle,
    out: R,
) -> bool {
    exists|x: Option<&mut Node<C>>|
        #![trigger f.ensures((x,), out)]
        f.ensures((x,), out) && (x is Some == nodes.contains_key(h)) && (x is Some ==> links_kept(
            nodes[h],
            *x.unwrap(),
        ))
}

/// `after` has the same own handle, parent and children as `before`.
pub open spec fn links_kept<C>(before: Node<C>, after: Node<C>) -> bool {
    &&& after.own_handle() == before.own_handle()
    &&& after.parent_of() == before.parent_of()
    &&& after.children_of() == before.children_of()
}

/// A copy of `v`.
fn copy_handles(v: &Vec<Handle>) -> (r: Vec<Handle>)
    ensures
        r@ == v@,
{
    let mut r: Vec<Handle> = Vec::new();
    let mut i: usize = 0;
    while i < v.len()
        invariant
            i <= v@.len(),
            r@ == v@.subrange(0, i as int),
        decreases v@.len() - i,
    {
        r.push(v[i]);
        proof {
            assert(r@ =~= v@.subrange(0, i + 1));
        }
        i = i + 1;
    }
    proof {
        assert(v@.subrange(0, i as int) =~= v@);
    }
    r
}

/// `s` without duplicates, and `x` not in it: `s.push(x)` has no duplicates.
proof fn lemma_push_unique(s: Seq<Handle>, x: Handle)
    requires
        s.no_duplicates(),
        !s.contains(x),
    ensures
        s.push(x).no_duplicates(),
        forall|y: Handle| #[trigger] s.push(x).contains(y) == (s.contains(y) || y == x),
{
    let t = s.push(x);
    assert forall|a: int, b: int| 0 <= a < t.len() && 0 <= b < t.len() && a != b implies t[a] != t[b] by {
        if a == s.len() {
            assert(s[b] == t[b]);
        } else if b == s.len() {
            assert(s[a] == t[a]);
        }
    }
    assert forall|y: Handle| #[trigger] t.contains(y) == (s.contains(y) || y == x) by {
        if t.contains(y) {
            let k = choose|k: int| 0 <= k < t.len() && t[k] == y;
            if k < s.len() {
                assert(s[k] == y);
            }
        }
        if s.contains(y) {
            let k = choose|k: int| 0 <= k < s.len() && s[k] == y;
            assert(t[k] == y);
        }
        if y == x {
            assert(t[s.len() as int] == x);
        }
    }
}

impl<C> Universe<C> {
    /// The live nodes, keyed by their handles.
    pub closed spec fn view(&self) -> Map<Handle, Node<C>> {
        self.nodes@
    }

    /// The handles of the root nodes, in the order they became roots.
    pub closed spec fn roots_of(&self) -> Seq<Handle> {
        self.roots@
    }

    /// The handles of all nodes, in the order the nodes were created.
    pub closed spec fn node_order(&self) -> Seq<Handle> {
        self.nodes.handle_seq()
    }

    /// How many nodes this universe has created.
    pub closed spec fn created_count(&self) -> nat {
        self.nodes.issued_count()
    }

    /// Every node knows its own handle; a node has no parent exactly when it
    /// is among the roots; a node with a parent is among that parent's
    /// children; a node is among another's children only when that one is its
    /// parent; the roots and children are live nodes; and no handle appears
    /// twice among the roots or among one node's children.
    pub open spec fn tree_invariant(&self) -> bool {
        &&& forall|h: Handle| #[trigger]
            self@.contains_key(h) ==> self@[h].own_handle() == Option::Some(h)
        &&& forall|h: Handle| #[trigger]
            self@.contains_key(h) ==> (self@[h].parent_of() is None <==> self.roots_of().contains(h))
        &&& forall|h: Handle| #[trigger]
            self@.contains_key(h) && self@[h].parent_of() is Some ==> self@.contains_key(
                self@[h].parent_of().unwrap(),
            ) && self@[self@[h].parent_of().unwrap()].children_of().contains(h)
        &&& forall|h: Handle, c: Handle|
            self@.contains_key(h) && #[trigger] self@[h].children_of().contains(c) ==> self@.contains_key(c)
                && self@[c].parent_of() == Option::Some(h)
        &&& forall|r: Handle| #[trigger] self.roots_of().contains(r) ==> self@.contains_key(r)
        &&& self.roots_of().no_duplicates()
        &&& forall|h: Handle| #[trigger]
            self@.contains_key(h) ==> self@[h].children_of().no_duplicates()
    }

    /// The universe's own bookkeeping is consistent.
    pub closed spec fn wf(&self) -> bool {
        &&& self.nodes.wf()
        &&& self.nodes.is_dense()
        &&& self.tree_invariant()
        &&& forall|h: Handle| #[trigger] self@.contains_key(h) == self.node_order().contains(h)
    }

    /// `self` is `before` with the node at `h` replaced by `x`.
    pub closed spec fn edited(&self, before: Universe<C>, h: Handle, x: Node<C>) -> bool {
        &&& self.nodes.wf()
        &&& self.nodes.slot_handles() == before.nodes.slot_handles()
        &&& self.roots@ == before.roots@
        &&& self@ == before@.insert(h, x)
    }

    /// Creates a new universe.
    pub fn new() -> (r: Self)
        ensures
            r.wf(),
            r@ == Map::<Handle, Node<C>>::empty(),
            r.roots_of() == Seq::<Handle>::empty(),
            r.node_order() == Seq::<Handle>::empty(),
            r.created_count() == 0,
    {
        let nodes = HandleMap::new();
        let roots = Vec::new();
        let r = Universe { nodes, roots };
        proof {
            assert(r.node_order() =~= Seq::<Handle>::empty());
        }
        r
    }

    /// Creates a new node in the universe, as a child of `parent_handle` or,
    /// where that is `None`, as a root. Returns the node's handle.
    pub fn create_node(&mut self, parent_handle: Option<&Handle>, class: C) -> (h: Handle)
        requires
            old(self).wf(),
            old(self).created_count() < u64::MAX,
            parent_handle is Some ==> old(self)@.contains_key(*parent_handle.unwrap()),
        ensures
            final(self).wf(),
            final(self).created_count() == old(self).created_count() + 1,
            !old(self)@.contains_key(h),
            final(self)@.dom() == old(self)@.dom().insert(h),
            final(self)@[h].own_handle() == Option::Some(h),
            final(self)@[h].parent_of() == parent_value(parent_handle),
            final(self)@[h].children_of() == Seq::<Handle>::empty(),
            final(self)@[h].class_of() == class,
            final(self).node_order() == old(self).node_order().push(h),
            forall|g: Handle|
                old(self)@.contains_key(g) && Option::Some(g) != parent_value(parent_handle) ==> #[trigger] final(self)@[g]
                    == old(self)@[g],
            match parent_handle {
                Option::Some(p) => {
                    &&& final(self).roots_of() == old(self).roots_of()
                    &&& final(self)@[*p].children_of() == old(self)@[*p].children_of().push(h)
                    &&& final(self)@[*p].own_handle() == old(self)@[*p].own_handle()
                    &&& final(self)@[*p].parent_of() == old(self)@[*p].parent_of()
                    &&& final(self)@[*p].class_of() == old(self)@[*p].class_of()
                },
                Option::None => final(self).roots_of() == old(self).roots_of().push(h),
            },
    {
        let node = Node::new(parent_handle, class);
        let h = self.nodes.insert(node);
        match self.nodes.get_mut(&h) {
            Option::Some(n) => n.set_handle(h),
            Option::None => {},
        }
        let ghost mid = self.nodes@;
        match parent_handle {
            Option::Some(p) => {
                match self.nodes.get_mut(p) {
                    Option::Some(pn) => pn.push_child_handle(h),
                    Option::None => {},
                }
            },
            Option::None => {
                self.roots.push(h);
            },
        }
        proof {
            let o = old(self)@;
            let f = self@;
            assert(f.dom() =~= o.dom().insert(h));
            assert forall|g: Handle| #[trigger] f.contains_key(g) implies f[g].own_handle() == Option::Some(g) by {
                if g != h {
                    assert(o.contains_key(g));
                }
            }
            assert forall|g: Handle| #[trigger]
                f.contains_key(g) implies (f[g].parent_of() is None <==> self.roots_of().contains(g)) by {
                if g != h {
                    assert(o.contains_key(g));
                    assert(old(self).roots_of().contains(g) == self.roots_of().contains(g)) by {
                        if self.roots_of().contains(g) && parent_handle is None {
                            let k = choose|k: int| 0 <= k < self.roots@.len() && self.roots@[k] == g;
                            assert(k < old(self).roots@.len());
                            assert(old(self).roots@[k] == g);
                        }
                        if old(self).roots_of().contains(g) && parent_handle is None {
                            let k = choose|k: int| 0 <= k < old(self).roots@.len() && old(self).roots@[k] == g;
                            assert(self.roots@[k] == g);
                        }
                    }
                } else {
                    if parent_handle is None {
                        assert(self.roots@[self.roots@.len() - 1] == h);
                    } else {
                        assert(!o.contains_key(h));
                        assert(!old(self).roots_of().contains(h));
                    }
                }
            }
            assert forall|g: Handle| #[trigger]
                f.contains_key(g) && f[g].parent_of() is Some implies f.contains_key(f[g].parent_of().unwrap())
                    && f[f[g].parent_of().unwrap()].children_of().contains(g) by {
                let q = f[g].parent_of().unwrap();
                if g == h {
                    let pc = f[q].children_of();
                    assert(pc[pc.len() - 1] == h);
                } else {
                    assert(o.contains_key(g));
                    assert(o[g].parent_of() == Option::Some(q));
                    assert(o[q].children_of().contains(g));
                    let k = choose|k: int| 0 <= k < o[q].children_of().len() && o[q].children_of()[k] == g;
                    assert(f[q].children_of()[k] == g);
                }
            }
            assert forall|g: Handle, c: Handle|
                f.contains_key(g) && #[trigger] f[g].children_of().contains(c) implies f.contains_key(c)
                    && f[c].parent_of() == Option::Some(g) by {
                if g == h {
                    assert(f[h].children_of() =~= Seq::<Handle>::empty());
                } else if Option::Some(g) == parent_value(parent_handle) && c == h {
                } else {
                    assert(o.contains_key(g));
                    assert(o[g].children_of().contains(c)) by {
                        let k = choose|k: int| 0 <= k < f[g].children_of().len() && f[g].children_of()[k] == c;
                        if Option::Some(g) == parent_value(parent_handle) {
                            assert(k < o[g].children_of().len());
                            assert(o[g].children_of()[k] == c);
                        }
                    }
                    assert(o.contains_key(c));
                    assert(c != h);
                }
            }
            assert forall|r: Handle| #[trigger] self.roots_of().contains(r) implies f.contains_key(r) by {
                if r != h {
                    let k = choose|k: int| 0 <= k < self.roots@.len() && self.roots@[k] == r;
                    assert(k < old(self).roots@.len());
                    assert(old(self).roots@[k] == r);
                    assert(old(self).roots_of().contains(r));
                    assert(o.contains_key(r));
                }
            }
            assert(!old(self).roots_of().contains(h));
            assert(self.roots@.no_duplicates()) by {
                if parent_handle is None {
                    assert forall|a: int, b: int|
                        0 <= a < self.roots@.len() && 0 <= b < self.roots@.len() && a != b implies self.roots@[a]
                            != self.roots@[b] by {
                        let n = old(self).roots@.len() as int;
                        if a == n {
                            assert(old(self).roots@[b] == self.roots@[b]);
                        } else if b == n {
                            assert(old(self).roots@[a] == self.roots@[a]);
                        }
                    }
                }
            }
            assert forall|g: Handle| #[trigger] f.contains_key(g) implies f[g].children_of().no_duplicates() by {
                if g != h {
                    assert(o.contains_key(g));
                    if Option::Some(g) == parent_value(parent_handle) {
                        assert(!o[g].children_of().contains(h));
                    }
                } else {
                    assert(f[h].children_of() =~= Seq::<Handle>::empty());
                }
            }
            assert forall|g: Handle| #[trigger] f.contains_key(g) == self.node_order().contains(g) by {
                let s0 = old(self).node_order();
                assert(self.node_order() == s0.push(h));
                if g != h {
                    assert(o.contains_key(g) == s0.contains(g));
                    if s0.push(h).contains(g) {
                        let k = choose|k: int| 0 <= k < s0.len() + 1 && s0.push(h)[k] == g;
                        assert(s0[k] == g);
                    }
                    if s0.contains(g) {
                        let k = choose|k: int| 0 <= k < s0.len() && s0[k] == g;
                        assert(s0.push(h)[k] == g);
                    }
                } else {
                    assert(s0.push(h)[s0.len() as int] == h);
                }
            }
            assert(self.nodes.wf());
            assert(self.nodes.is_dense());
            assert(self.tree_invariant());
        }
        h
    }

    /// Changes a node's parent, moving it to `new_parent_handle`'s children
    /// or, where that is `None`, to the roots. Returns the node's old parent's
    /// handle, if it had one.
    pub fn change_parent(&mut self, node_handle: &Handle, new_parent_handle: Option<&Handle>) -> (r: Option<
        Handle,
    >)
        requires
            old(self).wf(),
            old(self)@.contains_key(*node_handle),
            new_parent_handle is Some ==> old(self)@.contains_key(*new_parent_handle.unwrap()),
        ensures
            final(self).wf(),
            r == old(self)@[*node_handle].parent_of(),
            final(self)@.dom() == old(self)@.dom(),
            forall|g: Handle| #[trigger]
                final(self)@.contains_key(g) ==> {
                    &&& final(self)@[g].children_of() == moved_children(
                        old(self)@[g].children_of(),
                        g,
                        *node_handle,
                        r,
                        parent_value(new_parent_handle),
                    )
                    &&& final(self)@[g].parent_of() == if g == *node_handle {
                        parent_value(new_parent_handle)
                    } else {
                        old(self)@[g].parent_of()
                    }
                    &&& final(self)@[g].own_handle() == old(self)@[g].own_handle()
                    &&& final(self)@[g].class_of() == old(self)@[g].class_of()
                },
            final(self).roots_of() == moved_roots(
                old(self).roots_of(),
                *node_handle,
                r,
                parent_value(new_parent_handle),
            ),
            final(self).node_order() == old(self).node_order(),
            final(self).created_count() == old(self).created_count(),
    {
        let old_parent: Option<Handle> = match self.nodes.get(node_handle) {
            Option::Some(n) => match n.parent() {
                Option::Some(p) => Option::Some(*p),
                Option::None => Option::None,
            },
            Option::None => Option::None,
        };
        let ghost n = *node_handle;
        let ghost np = parent_value(new_parent_handle);
        match old_parent {
            Option::Some(op) => {
                match self.nodes.get_mut(&op) {
                    Option::Some(pn) => pn.remove_child_handle(node_handle),
                    Option::None => {},
                }
            },
            Option::None => remove_first(&mut self.roots, node_handle),
        }
        let ghost s1 = self.nodes@;
        match new_parent_handle {
            Option::Some(p) => {
                match self.nodes.get_mut(p) {
                    Option::Some(pn) => pn.push_child_handle(*node_handle),
                    Option::None => {},
                }
            },
            Option::None => self.roots.push(*node_handle),
        }
        let ghost s2 = self.nodes@;
        match self.nodes.get_mut(node_handle) {
            Option::Some(nd) => nd.set_parent_handle(new_parent_handle),
            Option::None => {},
        }
        proof {
            let o = old(self)@;
            let f = self@;
            let ro = old(self).roots@;
            let rf = self.roots@;
            assert(f.dom() =~= o.dom());
            assert forall|g: Handle| #[trigger] f.contains_key(g) implies {
                &&& f[g].children_of() == moved_children(o[g].children_of(), g, n, old_parent, np)
                &&& f[g].parent_of() == if g == n {
                    np
                } else {
                    o[g].parent_of()
                }
                &&& f[g].own_handle() == o[g].own_handle()
                &&& f[g].class_of() == o[g].class_of()
            } by {
                assert(s1.contains_key(g));
                assert(s2.contains_key(g));
            }
            assert(rf == moved_roots(ro, n, old_parent, np));
            // the node is a root, or a child of its old parent, and nowhere else
            if old_parent is None {
                assert(ro.contains(n));
                lemma_remove_value_unique(ro, n);
            } else {
                assert(!ro.contains(n));
                lemma_remove_value_unique(o[old_parent.unwrap()].children_of(), n);
            }
            let kept_roots = if old_parent is None {
                ro.remove_value(n)
            } else {
                ro
            };
            assert(kept_roots.no_duplicates());
            assert(!kept_roots.contains(n));
            assert forall|y: Handle| y != n implies #[trigger] kept_roots.contains(y) == ro.contains(y) by {
                if old_parent is None {
                    lemma_remove_value_unique(ro, n);
                }
            }
            if np is None {
                lemma_push_unique(kept_roots, n);
            }
            assert forall|y: Handle| #[trigger] rf.contains(y) == (if y == n {
                np is None
            } else {
                ro.contains(y)
            }) by {
                if np is None {
                    lemma_push_unique(kept_roots, n);
                }
            }
            // the children lists after the move
            assert forall|g: Handle| #[trigger]
                f.contains_key(g) implies f[g].children_of().no_duplicates() && (forall|y: Handle|
                y != n ==> (#[trigger] f[g].children_of().contains(y) == o[g].children_of().contains(y)))
                && (f[g].children_of().contains(n) == (np == Option::Some(g))) by {
                let c0 = o[g].children_of();
                let kept = if old_parent == Option::Some(g) {
                    c0.remove_value(n)
                } else {
                    c0
                };
                if old_parent == Option::Some(g) {
                    lemma_remove_value_unique(c0, n);
                } else {
                    if c0.contains(n) {
                        assert(o[n].parent_of() == Option::Some(g));
                    }
                }
                assert(kept.no_duplicates());
                assert(!kept.contains(n));
                assert forall|y: Handle| y != n implies (#[trigger] kept.contains(y) == c0.contains(y)) by {
                    if old_parent == Option::Some(g) {
                        lemma_remove_value_unique(c0, n);
                    }
                }
                if np == Option::Some(g) {
                    lemma_push_unique(kept, n);
                }
            }
            assert forall|g: Handle| #[trigger] f.contains_key(g) implies f[g].own_handle() == Option::Some(g) by {
            }
            assert forall|g: Handle| #[trigger]
                f.contains_key(g) implies (f[g].parent_of() is None <==> self.roots_of().contains(g)) by {
                assert(rf.contains(g) == (if g == n {
                    np is None
                } else {
                    ro.contains(g)
                }));
            }
            assert forall|g: Handle| #[trigger]
                f.contains_key(g) && f[g].parent_of() is Some implies f.contains_key(f[g].parent_of().unwrap())
                    && f[f[g].parent_of().unwrap()].children_of().contains(g) by {
                let q = f[g].parent_of().unwrap();
                assert(f.contains_key(q));
                if g != n {
                    assert(o[g].parent_of() == Option::Some(q));
                    assert(o[q].children_of().contains(g));
                    assert(f[q].children_of().contains(g) == o[q].children_of().contains(g));
                }
            }
            assert forall|g: Handle, c: Handle|
                f.contains_key(g) && #[trigger] f[g].children_of().contains(c) implies f.contains_key(c)
                    && f[c].parent_of() == Option::Some(g) by {
                if c != n {
                    assert(f[g].children_of().contains(c) == o[g].children_of().contains(c));
                    assert(o.contains_key(c));
                }
            }
            assert forall|y: Handle| #[trigger] self.roots_of().contains(y) implies f.contains_key(y) by {
                assert(rf.contains(y) == (if y == n {
                    np is None
                } else {
                    ro.contains(y)
                }));
                if y != n {
                    assert(old(self).roots_of().contains(y));
                }
            }
            assert(self.tree_invariant());
        }
        old_parent
    }

    /// Find a node in the universe by its handle.
    pub fn node(&self, handle: &Handle) -> (r: Option<&Node<C>>)
        ensures
            r is Some == self@.contains_key(*handle),
            r is Some ==> *r.unwrap() == self@[*handle],
    {
        self.nodes.get(handle)
    }

    /// Find a node in the universe by its handle, for writing. The universe
    /// stays consistent as long as the node's links are left as they were,
    /// which the node's own public methods do.
    pub fn node_mut(&mut self, handle: &Handle) -> (r: Option<&mut Node<C>>)
        requires
            old(self).wf(),
        ensures
            r is Some == old(self)@.contains_key(*handle),
            r is Some ==> *r.unwrap() == old(self)@[*handle] && final(self)@ == old(self)@.insert(
                *handle,
                *final(r.unwrap()),
            ) && final(self).edited(*old(self), *handle, *final(r.unwrap())),
            r is Some ==> (links_kept(old(self)@[*handle], *final(r.unwrap())) ==> final(self).wf()),
            r is None ==> *final(self) == *old(self),
            final(self).roots_of() == old(self).roots_of(),
            final(self).node_order() == old(self).node_order(),
            final(self).created_count() == old(self).created_count(),
    {
        proof {
            if old(self)@.contains_key(*handle) {
                lemma_edit_keeps_wf(*old(self), *handle);
            }
        }
        let r = self.nodes.get_mut(handle);
        r
    }

    /// Returns whether the universe contains a node with the given handle.
    pub fn contains_node(&self, handle: &Handle) -> (r: bool)
        ensures
            r == self@.contains_key(*handle),
    {
        self.nodes.contains(handle)
    }

    /// Returns the handles of the root nodes (nodes with no parent).
    pub fn root_node_handles(&self) -> (r: &[Handle])
        ensures
            r@ == self.roots_of(),
    {
        self.roots.as_slice()
    }

    /// Returns a cursor over all the nodes in the universe, in the order they
    /// were created.
    pub fn nodes(&self) -> (r: HandleMapValues<'_, Node<C>>)
        ensures
            r.wf(),
            r.source()@ == self@,
            r.rest() == self.node_order(),
    {
        self.nodes.values()
    }

    /// Calls `f` on the nodes with the given handles, in their order, one call
    /// per handle, with `None` where a handle does not resolve. Returns the
    /// results in the same order.
    pub fn using_nodes_with_handles<'a, R, F: Fn(Option<&'a Node<C>>) -> R>(&'a self, handles: &[Handle], f: F) -> (r: Vec<R>)
        requires
            forall|x: Option<&'a Node<C>>| #[trigger] f.requires((x,)),
        ensures
            r@.len() == handles@.len(),
            forall|i: int| 0 <= i < handles@.len() ==> #[trigger] applied_to(f, self@, handles@[i], r@[i]),
    {
        let mut r: Vec<R> = Vec::new();
        let mut i: usize = 0;
        while i < handles.len()
            invariant
                i <= handles@.len(),
                r@.len() == i,
                forall|x: Option<&'a Node<C>>| #[trigger] f.requires((x,)),
                forall|j: int| 0 <= j < i ==> #[trigger] applied_to(f, self@, handles@[j], r@[j]),
            decreases handles@.len() - i,
        {
            let x = self.nodes.get(&handles[i]);
            let v = f(x);
            proof {
                assert(f.ensures((x,), v));
                assert(applied_to(f, self@, handles@[i as int], v));
            }
            r.push(v);
            i = i + 1;
        }
        r
    }

    /// Calls `f` on the root nodes, in the order of `root_node_handles`.
    pub fn using_root_nodes<'a, R, F: Fn(Option<&'a Node<C>>) -> R>(&'a self, f: F) -> (r: Vec<R>)
        requires
            forall|x: Option<&'a Node<C>>| #[trigger] f.requires((x,)),
        ensures
            r@.len() == self.roots_of().len(),
            forall|i: int| 0 <= i < self.roots_of().len() ==> #[trigger] applied_to(f, self@, self.roots_of()[i], r@[i]),
    {
        self.using_nodes_with_handles(self.roots.as_slice(), f)
    }

    /// Calls `f` on the nodes with the given handles, for writing, in their
    /// order, one call per handle, with `None` where a handle does not resolve.
    /// Returns the results in the same order. `f` must leave each node's links
    /// as they were.
    pub fn using_nodes_with_handles_mut<R, F: Fn(Option<&mut Node<C>>) -> R>(&mut self, handles: &[Handle], f: F) -> (r: Vec<R>)
        requires
            old(self).wf(),
            forall|x: Option<&mut Node<C>>| #[trigger] f.requires((x,)),
            forall|x: Option<&mut Node<C>>, out: R|
                #[trigger] f.ensures((x,), out) ==> (x is Some ==> links_kept(*x.unwrap(), *final(x.unwrap()))),
        ensures
            final(self).wf(),
            r@.len() == handles@.len(),
            forall|i: int| 0 <= i < handles@.len() ==> #[trigger] applied_mut_to(f, old(self)@, handles@[i], r@[i]),
            final(self)@.dom() == old(self)@.dom(),
            forall|g: Handle| #[trigger] final(self)@.contains_key(g) ==> links_kept(old(self)@[g], final(self)@[g]),
            final(self).roots_of() == old(self).roots_of(),
            final(self).node_order() == old(self).node_order(),
            final(self).created_count() == old(self).created_count(),
    {
        let mut r: Vec<R> = Vec::new();
        let mut i: usize = 0;
        while i < handles.len()
            invariant
                self.wf(),
                i <= handles@.len(),
                r@.len() == i,
                forall|x: Option<&mut Node<C>>| #[trigger] f.requires((x,)),
                forall|x: Option<&mut Node<C>>, out: R|
                    #[trigger] f.ensures((x,), out) ==> (x is Some ==> links_kept(*x.unwrap(), *final(x.unwrap()))),
                self@.dom() == old(self)@.dom(),
                forall|g: Handle| #[trigger] self@.contains_key(g) ==> links_kept(old(self)@[g], self@[g]),
                forall|j: int| 0 <= j < i ==> #[trigger] applied_mut_to(f, old(self)@, handles@[j], r@[j]),
                self.roots_of() == old(self).roots_of(),
                self.node_order() == old(self).node_order(),
                self.created_count() == old(self).created_count(),
            decreases handles@.len() - i,
        {
            let ghost before = self@;
            let x = self.node_mut(&handles[i]);
            let ghost gx = x;
            let v = f(x);
            proof {
                assert(f.ensures((gx,), v));
                assert(applied_mut_to(f, old(self)@, handles@[i as int], v));
                assert forall|g: Handle| #[trigger] self@.contains_key(g) implies links_kept(old(self)@[g], self@[g]) by {
                    assert(before.contains_key(g));
                }
            }
            r.push(v);
            i = i + 1;
        }
        r
    }

    /// Calls `f` on the root nodes for writing, in the order of
    /// `root_node_handles`. `f` must leave each node's links as they were.
    pub fn using_root_nodes_mut<R, F: Fn(Option<&mut Node<C>>) -> R>(&mut self, f: F) -> (r: Vec<R>)
        requires
            old(self).wf(),
            forall|x: Option<&mut Node<C>>| #[trigger] f.requires((x,)),
            forall|x: Option<&mut Node<C>>, out: R|
                #[trigger] f.ensures((x,), out) ==> (x is Some ==> links_kept(*x.unwrap(), *final(x.unwrap()))),
        ensures
            final(self).wf(),
            r@.len() == old(self).roots_of().len(),
            forall|i: int|
                0 <= i < old(self).roots_of().len() ==> #[trigger] applied_mut_to(
                    f,
                    old(self)@,
                    old(self).roots_of()[i],
                    r@[i],
                ),
            final(self)@.dom() == old(self)@.dom(),
            forall|g: Handle| #[trigger] final(self)@.contains_key(g) ==> links_kept(old(self)@[g], final(self)@[g]),
            final(self).roots_of() == old(self).roots_of(),
            final(self).node_order() == old(self).node_order(),
            final(self).created_count() == old(self).created_count(),
    {
        let handles = copy_handles(&self.roots);
        self.using_nodes_with_handles_mut(handles.as_slice(), f)
    }

    /// Returns the nodes with the given handles, one entry per handle, in the
    /// same order: `None` where a handle does not resolve.
    pub fn nodes_with_handles(&self, handles: &[Handle]) -> (r: Vec<Option<&Node<C>>>)
        ensures
            r@.len() == handles@.len(),
            forall|i: int|
                0 <= i < handles@.len() ==> (#[trigger] r@[i] is Some == self@.contains_key(handles@[i]))
                    && (r@[i] is Some ==> *r@[i].unwrap() == self@[handles@[i]]),
    {
        let mut r: Vec<Option<&Node<C>>> = Vec::new();
        let mut i: usize = 0;
        while i < handles.len()
            invariant
                i <= handles@.len(),
                r@.len() == i,
                forall|j: int|
                    0 <= j < i ==> (#[trigger] r@[j] is Some == self@.contains_key(handles@[j])) && (r@[j] is Some
                        ==> *r@[j].unwrap() == self@[handles@[j]]),
            decreases handles@.len() - i,
        {
            r.push(self.nodes.get(&handles[i]));
            i = i + 1;
        }
        r
    }
}

/// Keeps only the nodes whose class is of the concrete class type `K`, in
/// their order.
pub fn with_class<'a, K, C: ClassAs<K>>(nodes: Vec<&'a Node<C>>) -> (r: Vec<&'a Node<C>>)
    ensures
        r@ == nodes@.filter(|n: &'a Node<C>| n.is_class::<K>()),
{
    let ghost p: spec_fn(&'a Node<C>) -> bool = |n: &'a Node<C>| n.is_class::<K>();
    let mut r: Vec<&'a Node<C>> = Vec::new();
    let mut i: usize = 0;
    while i < nodes.len()
        invariant
            i <= nodes@.len(),
            p == (|n: &'a Node<C>| n.is_class::<K>()),
            r@ == nodes@.subrange(0, i as int).filter(p),
        decreases nodes@.len() - i,
    {
        let n = nodes[i];
        if n.class_is::<K>() {
            r.push(n);
        }
        proof {
            reveal(Seq::filter);
            assert(nodes@.subrange(0, i + 1).drop_last() =~= nodes@.subrange(0, i as int));
        }
        i = i + 1;
    }
    proof {
        assert(nodes@.subrange(0, i as int) =~= nodes@);
    }
    r
}

/// Keeps only the nodes that have a component of type `K`, in their order,
/// each with that component.
pub fn with_component<'a, K, C: ClassDynComponent<K>>(nodes: Vec<&'a Node<C>>) -> (r: Vec<(&'a Node<C>, &'a K)>)
    ensures
        r@.map_values(|e: (&'a Node<C>, &'a K)| e.0) == nodes@.filter(|n: &'a Node<C>| n.has_component::<K>()),
        forall|i: int| 0 <= i < r@.len() ==> *(#[trigger] r@[i]).1 == r@[i].0.class_of().component_of().unwrap(),
{
    let ghost p: spec_fn(&'a Node<C>) -> bool = |n: &'a Node<C>| n.has_component::<K>();
    let ghost first: spec_fn((&'a Node<C>, &'a K)) -> &'a Node<C> = |e: (&'a Node<C>, &'a K)| e.0;
    let mut r: Vec<(&'a Node<C>, &'a K)> = Vec::new();
    let mut i: usize = 0;
    while i < nodes.len()
        invariant
            i <= nodes@.len(),
            p == (|n: &'a Node<C>| n.has_component::<K>()),
            first == (|e: (&'a Node<C>, &'a K)| e.0),
            r@.map_values(first) == nodes@.subrange(0, i as int).filter(p),
            forall|j: int| 0 <= j < r@.len() ==> *(#[trigger] r@[j]).1 == r@[j].0.class_of().component_of().unwrap(),
        decreases nodes@.len() - i,
    {
        let n = nodes[i];
        let ghost before = r@;
        match n.component::<K>() {
            Option::Some(c) => {
                r.push((n, c));
                proof {
                    assert(r@.map_values(first) =~= before.map_values(first).push(n));
                }
            },
            Option::None => {},
        }
        proof {
            reveal(Seq::filter);
            assert(nodes@.subrange(0, i + 1).drop_last() =~= nodes@.subrange(0, i as int));
        }
        i = i + 1;
    }
    proof {
        assert(nodes@.subrange(0, i as int) =~= nodes@);
    }
    r
}

/// The handles of the given nodes, in their order.
pub fn handles<'a, C>(nodes: &Vec<&'a Node<C>>) -> (r: Vec<Handle>)
    requires
        forall|i: int| 0 <= i < nodes@.len() ==> (#[trigger] nodes@[i]).own_handle() is Some,
    ensures
        r@ == nodes@.map_values(|n: &'a Node<C>| n.own_handle().unwrap()),
{
    let mut r: Vec<Handle> = Vec::new();
    let mut i: usize = 0;
    while i < nodes.len()
        invariant
            i <= nodes@.len(),
            forall|j: int| 0 <= j < nodes@.len() ==> (#[trigger] nodes@[j]).own_handle() is Some,
            r@ == nodes@.subrange(0, i as int).map_values(|n: &'a Node<C>| n.own_handle().unwrap()),
        decreases nodes@.len() - i,
    {
        r.push(*nodes[i].handle());
        proof {
            assert(r@ =~= nodes@.subrange(0, i + 1).map_values(|n: &'a Node<C>| n.own_handle().unwrap()));
        }
        i = i + 1;
    }
    proof {
        assert(nodes@.subrange(0, i as int) =~= nodes@);
    }
    r
}

/// Filtering nodes and then reading their handles gives the same as filtering
/// their handles by what holds of the node behind each.
pub proof fn lemma_filter_handles<'a, C>(
    ns: Seq<&'a Node<C>>,
    hs: Seq<Handle>,
    p: spec_fn(&'a Node<C>) -> bool,
    q: spec_fn(Handle) -> bool,
)
    requires
        ns.len() == hs.len(),
        forall|i: int|
            0 <= i < ns.len() ==> (#[trigger] ns[i]).own_handle() == Option::Some(hs[i]) && p(ns[i]) == q(hs[i]),
    ensures
        ns.filter(p).map_values(|n: &'a Node<C>| n.own_handle().unwrap()) == hs.filter(q),
    decreases ns.len(),
{
    reveal(Seq::filter);
    let f: spec_fn(&'a Node<C>) -> Handle = |n: &'a Node<C>| n.own_handle().unwrap();
    if ns.len() == 0 {
        assert(ns.filter(p).map_values(f) =~= hs.filter(q));
    } else {
        let n1 = ns.drop_last();
        let h1 = hs.drop_last();
        assert forall|i: int| 0 <= i < n1.len() implies (#[trigger] n1[i]).own_handle() == Option::Some(h1[i]) && p(
            n1[i],
        ) == q(h1[i]) by {
            assert(n1[i] == ns[i]);
        }
        lemma_filter_handles(n1, h1, p, q);
        assert(ns.last() == ns[ns.len() - 1]);
        if p(ns.last()) {
            assert(ns.filter(p).map_values(f) =~= n1.filter(p).map_values(f).push(f(ns.last())));
        }
    }
}

/// The nodes of a universe, read in creation order, carry the handles of
/// that order.
pub proof fn lemma_listed_nodes<'a, C>(u: Universe<C>, all: Seq<&'a Node<C>>)
    requires
        u.wf(),
        all.len() == u.node_order().len(),
        forall|i: int| 0 <= i < all.len() ==> *#[trigger] all[i] == u@[u.node_order()[i]],
    ensures
        forall|i: int|
            0 <= i < all.len() ==> (#[trigger] all[i]).own_handle() == Option::Some(u.node_order()[i])
                && u@.contains_key(u.node_order()[i]),
        all.map_values(|n: &'a Node<C>| n.own_handle().unwrap()) == u.node_order(),
{
    assert forall|i: int| 0 <= i < all.len() implies (#[trigger] all[i]).own_handle() == Option::Some(
        u.node_order()[i],
    ) && u@.contains_key(u.node_order()[i]) by {
        let h = u.node_order()[i];
        assert(u.node_order().contains(h));
        assert(u@.contains_key(h));
        assert(u@[h].own_handle() == Option::Some(h));
        assert(*all[i] == u@[h]);
    }
    assert(all.map_values(|n: &'a Node<C>| n.own_handle().unwrap()) =~= u.node_order());
}

/// Querying by component keeps order: the handles of the nodes that have a
/// component of type `K`, taken from all nodes in creation order, are the
/// handles of all nodes in that order, restricted to those whose class has
/// such a component.
pub proof fn lemma_component_query_order<'a, C: ClassDynComponent<K>, K>(u: Universe<C>, all: Seq<&'a Node<C>>)
    requires
        u.wf(),
        all.len() == u.node_order().len(),
        forall|i: int| 0 <= i < all.len() ==> *#[trigger] all[i] == u@[u.node_order()[i]],
    ensures
        all.map_values(|n: &'a Node<C>| n.own_handle().unwrap()) == u.node_order(),
        all.filter(|n: &'a Node<C>| n.has_component::<K>()).map_values(|n: &'a Node<C>| n.own_handle().unwrap())
            == u.node_order().filter(|h: Handle| u@[h].has_component::<K>()),
{
    lemma_listed_nodes(u, all);
    lemma_filter_handles(
        all,
        u.node_order(),
        |n: &'a Node<C>| n.has_component::<K>(),
        |h: Handle| u@[h].has_component::<K>(),
    );
}

/// Querying by class keeps order: the handles of the nodes whose class is a
/// `K`, taken from all nodes in creation order, are the handles of all nodes
/// in that order, restricted to those of class `K`.
pub proof fn lemma_class_query_order<'a, C: ClassAs<K>, K>(u: Universe<C>, all: Seq<&'a Node<C>>)
    requires
        u.wf(),
        all.len() == u.node_order().len(),
        forall|i: int| 0 <= i < all.len() ==> *#[trigger] all[i] == u@[u.node_order()[i]],
    ensures
        all.filter(|n: &'a Node<C>| n.is_class::<K>()).map_values(|n: &'a Node<C>| n.own_handle().unwrap())
            == u.node_order().filter(|h: Handle| u@[h].is_class::<K>()),
{
    lemma_listed_nodes(u, all);
    lemma_filter_handles(
        all,
        u.node_order(),
        |n: &'a Node<C>| n.is_class::<K>(),
        |h: Handle| u@[h].is_class::<K>(),
    );
}

/// Replacing a node by one with the same links keeps a universe consistent.
proof fn lemma_edit_keeps_wf<C>(u: Universe<C>, h: Handle)
    requires
        u.wf(),
        u@.contains_key(h),
    ensures
        forall|x: Node<C>, v: Universe<C>| links_kept(u@[h], x) && #[trigger] v.edited(u, h, x) ==> v.wf(),
{
    assert forall|x: Node<C>, v: Universe<C>| links_kept(u@[h], x) && #[trigger] v.edited(u, h, x) implies v.wf() by {
        let f = v@;
        assert(f.dom() =~= u@.dom());
        assert forall|g: Handle| #[trigger] f.contains_key(g) implies links_kept(u@[g], f[g]) by {
        }
        assert(v.tree_invariant());
    }
}

/// The tree invariant holds of every universe: each node is either a root
/// with no parent, or has a parent that lists it among its children, and
/// never both.
pub proof fn lemma_tree_invariant<C>(u: Universe<C>, h: Handle)
    requires
        u.wf(),
        u@.contains_key(h),
    ensures
        u.tree_invariant(),
        u@[h].parent_of() is None ==> u.roots_of().contains(h),
        u@[h].parent_of() is Some ==> !u.roots_of().contains(h) && u@.contains_key(u@[h].parent_of().unwrap())
            && u@[u@[h].parent_of().unwrap()].children_of().contains(h),
{
}

} // verus!
