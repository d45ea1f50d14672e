//! A slot arena that hands out generation-checked handles.
use vstd::prelude::*;
use vstd::seq_lib::seq_to_set_is_finite;

verus! {

/// A handle to a value in a [`HandleMap`].
///
/// It names the map that issued it, the slot that holds the value and the
/// token that the slot was stamped with when the value went in.
#[derive(Clone, Copy, Debug, PartialEq, Eq, Hash, Structural)]
pub struct Handle {
    map_token: u64,
    token: u64,
    index: usize,
}

impl Handle {
    /// The slot this handle points at.
    pub closed spec fn position(self) -> nat {
        self.index as nat
    }
}

/// One slot of the arena: empty, or a value with the token it was stamped with.
#[derive(Debug)]
enum HandleMapValue<T> {
    Occupied(u64, T),
    Empty,
}

impl<T> HandleMapValue<T> {
    fn is_none(&self) -> (r: bool)
        ensures
            r == (*self is Empty),
    {
        match self {
            HandleMapValue::Occupied(_, _) => false,
            HandleMapValue::Empty => true,
        }
    }
}

/// A map from unique handles to values.
///
/// Each insert stamps its slot with the next value of the map's own counter,
/// which never repeats, so a handle whose value was removed stays rejected
/// after its slot is reused. Inserting past the last counter value is a
/// contract violation.
///
/// The map also draws an identity token when it is made: the hash of a byte
/// under freshly drawn random keys. A handle from another map is rejected
/// whenever the two tokens differ, which fails only with vanishing
/// probability; a process-wide counter would rule it out, but that needs
/// global state, which this library does not hold.
#[derive(Debug)]
pub struct HandleMap<T> {
    token: u64,
    next_token: u64,
    values: Vec<HandleMapValue<T>>,
}

/// The live handles among `slots`, in slot order.
pub open spec fn occupied(slots: Seq<Option<Handle>>) -> Seq<Handle>
    decreases slots.len(),
{
    if slots.len() == 0 {
        Seq::empty()
    } else {
        let rest = occupied(slots.drop_last());
        match slots.last() {
            Option::Some(h) => rest.push(h),
            Option::None => rest,
        }
    }
}

impl<T> HandleMap<T> {
    /// Every slot token is below the next token to be handed out.
    pub closed spec fn wf(&self) -> bool {
        forall|i: int|
            0 <= i < self.values@.len() ==> match #[trigger] self.values@[i] {
                HandleMapValue::Occupied(t, _) => t < self.next_token,
                HandleMapValue::Empty => true,
            }
    }

    /// The handle that slot `i` would answer to, if it is occupied.
    spec fn slot_handle(&self, i: int) -> Option<Handle> {
        match self.values@[i] {
            HandleMapValue::Occupied(t, _) => Option::Some(
                Handle { map_token: self.token, token: t, index: i as usize },
            ),
            HandleMapValue::Empty => Option::None,
        }
    }

    spec fn value_at(&self, i: int) -> T {
        match self.values@[i] {
            HandleMapValue::Occupied(_, v) => v,
            HandleMapValue::Empty => arbitrary(),
        }
    }

    /// Each slot, in order, with the handle of the value it holds.
    pub closed spec fn slot_handles(&self) -> Seq<Option<Handle>> {
        Seq::new(self.values@.len(), |i: int| self.slot_handle(i))
    }

    /// Whether `h` currently resolves in this map.
    pub closed spec fn holds(&self, h: Handle) -> bool {
        h.index < self.values@.len() && self.slot_handle(h.index as int) == Option::Some(h)
    }

    /// The live values, keyed by their handles.
    pub closed spec fn view(&self) -> Map<Handle, T> {
        Map::new(|h: Handle| self.holds(h), |h: Handle| self.value_at(h.index as int))
    }

    /// Whether `h` was handed out by this map at some time.
    pub closed spec fn issued(&self, h: Handle) -> bool {
        h.map_token == self.token && h.token < self.next_token
    }

    /// How many handles this map has handed out.
    pub closed spec fn issued_count(&self) -> nat {
        self.next_token as nat
    }

    /// `self` is a later state of `earlier`: the same map, every handle issued
    /// then is still counted as issued, and a handle that had gone stale stays
    /// stale.
    pub closed spec fn succeeds(&self, earlier: HandleMap<T>) -> bool {
        &&& self.token == earlier.token
        &&& earlier.next_token <= self.next_token
        &&& forall|h: Handle|
            earlier.issued(h) && !earlier.holds(h) ==> !#[trigger] self.holds(h)
    }

    /// The live handles in slot order.
    pub open spec fn handle_seq(&self) -> Seq<Handle> {
        occupied(self.slot_handles())
    }

    /// Whether no slot is empty.
    pub open spec fn is_dense(&self) -> bool {
        forall|i: int| 0 <= i < self.slot_handles().len() ==> #[trigger] self.slot_handles()[i] is Some
    }

    proof fn lemma_view(&self, h: Handle)
        ensures
            self@.contains_key(h) == self.holds(h),
            self.holds(h) ==> self@[h] == self.value_at(h.index as int),
    {
    }

    /// How the live values sit in the slots: a handle is live exactly when
    /// the slot at its position holds it; the live handles in slot order are
    /// exactly the live ones, each once, in increasing position, and no more
    /// than there are slots; and there are finitely many of them.
    pub proof fn lemma_view_slots(&self)
        ensures
            forall|h: Handle| #[trigger]
                self@.contains_key(h) == (h.position() < self.slot_handles().len()
                    && self.slot_handles()[h.position() as int] == Option::Some(h)),
            forall|h: Handle| #[trigger] self.handle_seq().contains(h) == self@.contains_key(h),
            forall|a: int, b: int|
                0 <= a < b < self.handle_seq().len() ==> self.handle_seq()[a].position()
                    < self.handle_seq()[b].position(),
            self.handle_seq().no_duplicates(),
            self.handle_seq().len() <= self.slot_handles().len(),
            self@.dom() == self.handle_seq().to_set(),
            self@.dom().finite(),
    {
        let s = self.slot_handles();
        assert forall|i: int| 0 <= i < s.len() && #[trigger] s[i] is Some implies s[i].unwrap().position() == i by {
            assert(self.values@.len() == self.values.len());
        }
        lemma_occupied(s);
        let q = self.handle_seq();
        assert forall|h: Handle| #[trigger] self@.contains_key(h) == (h.position() < s.len() && s[h.position() as int]
            == Option::Some(h)) by {
        }
        assert forall|h: Handle| #[trigger] q.contains(h) == self@.contains_key(h) by {
            if q.contains(h) {
                let i = choose|i: int| 0 <= i < s.len() && s[i] == Option::Some(h);
                assert(h.position() == i);
            }
            if self@.contains_key(h) {
                assert(s[h.position() as int] == Option::Some(h));
            }
        }
        assert forall|a: int, b: int| 0 <= a < q.len() && 0 <= b < q.len() && a != b implies q[a] != q[b] by {
            if a < b {
                assert(q[a].position() < q[b].position());
            } else {
                assert(q[b].position() < q[a].position());
            }
        }
        assert(self@.dom() =~= q.to_set());
        seq_to_set_is_finite(q);
    }

    /// Creates a new, empty HandleMap
    pub fn new() -> (r: Self)
        ensures
            r.wf(),
            r@ == Map::<Handle, T>::empty(),
            r.slot_handles() == Seq::<Option<Handle>>::empty(),
            r.issued_count() == 0,
    {
        let r = HandleMap { token: crate::unique::new_map_token(), next_token: 0, values: Vec::new() };
        assert(r@ =~= Map::<Handle, T>::empty());
        assert(r.slot_handles() =~= Seq::<Option<Handle>>::empty());
        r
    }

    /// Inserts a value into the map, in the lowest empty slot or, where no
    /// slot is empty, in a new one at the end.
    pub fn insert(&mut self, value: T) -> (h: Handle)
        requires
            old(self).wf(),
            old(self).issued_count() < u64::MAX,
        ensures
            final(self).wf(),
            !old(self).issued(h),
            final(self).issued(h),
            !old(self)@.contains_key(h),
            final(self)@ == old(self)@.insert(h, value),
            final(self).issued_count() == old(self).issued_count() + 1,
            final(self).succeeds(*old(self)),
            forall|g: Handle| #[trigger] old(self).issued(g) ==> final(self).issued(g),
            h.position() <= old(self).slot_handles().len(),
            forall|g: Handle| #[trigger] old(self)@.contains_key(g) ==> g.position() != h.position(),
            forall|j: int| 0 <= j < h.position() ==> #[trigger] old(self).slot_handles()[j] is Some,
            h.position() < old(self).slot_handles().len() ==> old(self).slot_handles()[h.position() as int] is None
                && final(self).slot_handles() == old(self).slot_handles().update(h.position() as int, Option::Some(h)),
            h.position() == old(self).slot_handles().len() ==> final(self).slot_handles()
                == old(self).slot_handles().push(Option::Some(h)),
            old(self).is_dense() ==> final(self).is_dense() && final(self).handle_seq()
                == old(self).handle_seq().push(h),
    {
        let index = self.first_none();
        let token = self.next_token;
        let index = match index {
            Option::Some(i) => {
                self.values.set(i, HandleMapValue::Occupied(token, value));
                i
            },
            Option::None => {
                let i = self.values.len();
                self.values.push(HandleMapValue::Occupied(token, value));
                i
            },
        };
        self.next_token = token + 1;
        let h = Handle { map_token: self.token, token, index };
        proof {
            let s0 = old(self).slot_handles();
            let s1 = self.slot_handles();
            if index < s0.len() {
                assert(s1 =~= s0.update(index as int, Option::Some(h)));
            } else {
                assert(s1 =~= s0.push(Option::Some(h)));
                assert(s1.drop_last() =~= s0);
            }
            assert forall|g: Handle| #[trigger] self.holds(g) == (old(self).holds(g) || g == h) by {
                if g.index < self.values@.len() && g.index != index {
                    assert(self.values@[g.index as int] == old(self).values@[g.index as int]);
                }
            }
            assert(self@ =~= old(self)@.insert(h, value));
        }
        h
    }

    /// Removes a value from the map. A handle that does not resolve removes nothing.
    pub fn remove(&mut self, h: &Handle) -> (r: Option<T>)
        requires
            old(self).wf(),
        ensures
            final(self).wf(),
            r == (if old(self)@.contains_key(*h) {
                Option::Some(old(self)@[*h])
            } else {
                Option::None
            }),
            final(self)@ == old(self)@.remove(*h),
            final(self).issued_count() == old(self).issued_count(),
            final(self).succeeds(*old(self)),
            forall|g: Handle| #[trigger] old(self).issued(g) ==> final(self).issued(g),
            old(self)@.contains_key(*h) ==> final(self).slot_handles() == old(self).slot_handles().update(
                h.position() as int,
                Option::None,
            ),
            !old(self)@.contains_key(*h) ==> *final(self) == *old(self),
    {
        if !self.contains(h) {
            proof {
                assert(self@ =~= old(self)@.remove(*h));
            }
            return Option::None;
        }
        let mut slot = HandleMapValue::Empty;
        std::mem::swap(&mut self.values[h.index], &mut slot);
        proof {
            assert(self.slot_handles() =~= old(self).slot_handles().update(h.index as int, Option::None));
            assert forall|g: Handle| #[trigger] self.holds(g) == (old(self).holds(g) && g != *h) by {
                if g.index < self.values@.len() && g.index != h.index {
                    assert(self.values@[g.index as int] == old(self).values@[g.index as int]);
                }
            }
            assert(self@ =~= old(self)@.remove(*h));
        }
        match slot {
            HandleMapValue::Occupied(_, v) => Option::Some(v),
            HandleMapValue::Empty => Option::None,
        }
    }

    /// Gets a value from the map. A handle that does not resolve here, because
    /// its value was removed, it comes from another map, or it points past the
    /// last slot, gives `None`. (A handle from another map is told apart by
    /// the map's random identity token; see [`HandleMap`].)
    pub fn get(&self, h: &Handle) -> (r: Option<&T>)
        ensures
            r is Some == self@.contains_key(*h),
            r is Some ==> *r.unwrap() == self@[*h],
    {
        if h.map_token != self.token || h.index >= self.values.len() {
            return Option::None;
        }
        match &self.values[h.index] {
            HandleMapValue::Occupied(t, v) => {
                if *t == h.token {
                    Option::Some(v)
                } else {
                    Option::None
                }
            },
            HandleMapValue::Empty => Option::None,
        }
    }

    /// Gets a mutable reference to a value in the map; `None` where the handle
    /// does not resolve, as for `get`.
    pub fn get_mut(&mut self, h: &Handle) -> (r: Option<&mut T>)
        requires
            old(self).wf(),
        ensures
            r is Some == old(self)@.contains_key(*h),
            r is Some ==> *r.unwrap() == old(self)@[*h] && final(self)@ == old(self)@.insert(
                *h,
                *final(r.unwrap()),
            ) && final(self).slot_handles() == old(self).slot_handles(),
            r is None ==> *final(self) == *old(self),
            final(self).wf(),
            final(self).issued_count() == old(self).issued_count(),
            final(self).succeeds(*old(self)),
            forall|g: Handle| #[trigger] old(self).issued(g) ==> final(self).issued(g),
    {
        if !self.contains(h) {
            return Option::None;
        }
        match &mut self.values[h.index] {
            HandleMapValue::Occupied(_, v) => Option::Some(v),
            HandleMapValue::Empty => Option::None,
        }
    }

    /// Checks if the map contains a value with the given handle, by the same
    /// test as `get`.
    pub fn contains(&self, h: &Handle) -> (r: bool)
        ensures
            r == self@.contains_key(*h),
    {
        if h.map_token != self.token || h.index >= self.values.len() {
            return false;
        }
        match &self.values[h.index] {
            HandleMapValue::Occupied(t, _) => *t == h.token,
            HandleMapValue::Empty => false,
        }
    }

    /// Gets the number of slots in the map, empty ones included.
    pub fn len(&self) -> (r: usize)
        ensures
            r == self.slot_handles().len(),
    {
        self.values.len()
    }

    /// Returns true if the map has no slot at all.
    pub fn is_empty(&self) -> (r: bool)
        ensures
            r == (self.slot_handles().len() == 0),
    {
        self.values.len() == 0
    }

    /// The handles of all live values, in slot order.
    pub fn handles(&self) -> (r: Vec<Handle>)
        ensures
            r@ == self.handle_seq(),
            forall|g: Handle| #[trigger] r@.contains(g) == self@.contains_key(g),
            forall|i: int| 0 <= i < r@.len() ==> self@.contains_key(#[trigger] r@[i]),
            r@.no_duplicates(),
            forall|a: int, b: int| 0 <= a < b < r@.len() ==> r@[a].position() < r@[b].position(),
    {
        proof {
            self.lemma_view_slots();
        }
        let mut r: Vec<Handle> = Vec::new();
        let mut i: usize = 0;
        while i < self.values.len()
            invariant
                i <= self.values@.len(),
                r@ == occupied(self.slot_handles().subrange(0, i as int)),
            decreases self.values@.len() - i,
        {
            match &self.values[i] {
                HandleMapValue::Occupied(t, _) => {
                    r.push(Handle { map_token: self.token, token: *t, index: i });
                },
                HandleMapValue::Empty => {},
            }
            proof {
                assert(self.slot_handles().subrange(0, i + 1).drop_last() =~= self.slot_handles().subrange(
                    0,
                    i as int,
                ));
            }
            i = i + 1;
        }
        proof {
            assert(self.slot_handles().subrange(0, i as int) =~= self.slot_handles());
        }
        r
    }

    /// The handles of all live values, in slot order.
    pub fn handles_mut(&mut self) -> (r: Vec<Handle>)
        ensures
            r@ == old(self).handle_seq(),
            forall|g: Handle| #[trigger] r@.contains(g) == old(self)@.contains_key(g),
            forall|i: int| 0 <= i < r@.len() ==> old(self)@.contains_key(#[trigger] r@[i]),
            r@.no_duplicates(),
            forall|a: int, b: int| 0 <= a < b < r@.len() ==> r@[a].position() < r@[b].position(),
            *final(self) == *old(self),
    {
        self.handles()
    }

    /// A cursor over the live values, in slot order.
    ///
    /// There is no cursor for writing: it would hold the map by `&mut` and
    /// hand out references into it, and Verus cannot relate what such a
    /// cursor leaves behind to the map it borrowed. Write through `get_mut`
    /// with the handles from `handles` instead.
    pub fn values(&self) -> (r: HandleMapValues<'_, T>)
        ensures
            r.wf(),
            r.source() == *self,
            r.rest() == self.handle_seq(),
    {
        proof {
            assert(self.slot_handles().subrange(0, self.values@.len() as int) =~= self.slot_handles());
        }
        HandleMapValues { map: self, index: 0 }
    }

    /// Finds the first index in the internal vector that points to an empty slot.
    fn first_none(&self) -> (r: Option<usize>)
        ensures
            match r {
                Option::Some(i) => i < self.values@.len() && self.values@[i as int] is Empty
                    && forall|j: int| 0 <= j < i ==> #[trigger] self.values@[j] is Occupied,
                Option::None => forall|j: int|
                    0 <= j < self.values@.len() ==> #[trigger] self.values@[j] is Occupied,
            },
    {
        let mut i: usize = 0;
        while i < self.values.len()
            invariant
                i <= self.values@.len(),
                forall|j: int| 0 <= j < i ==> #[trigger] self.values@[j] is Occupied,
            decreases self.values@.len() - i,
        {
            if self.values[i].is_none() {
                return Option::Some(i);
            }
            i = i + 1;
        }
        Option::None
    }
}

/// A cursor over the live values of a [`HandleMap`], in slot order.
pub struct HandleMapValues<'a, T> {
    map: &'a HandleMap<T>,
    index: usize,
}

impl<'a, T> HandleMapValues<'a, T> {
    /// The map this cursor walks.
    pub closed spec fn source(&self) -> HandleMap<T> {
        *self.map
    }

    /// The handles of the values not yet yielded, in slot order.
    pub closed spec fn rest(&self) -> Seq<Handle> {
        occupied(self.map.slot_handles().subrange(self.index as int, self.map.values@.len() as int))
    }

    pub closed spec fn wf(&self) -> bool {
        self.index <= self.map.values@.len()
    }

    /// Yields the next live value, or `None` once every one has been yielded.
    pub fn next(&mut self) -> (r: Option<&'a T>)
        requires
            old(self).wf(),
        ensures
            final(self).wf(),
            final(self).source() == old(self).source(),
            r is None ==> old(self).rest().len() == 0 && final(self).rest() == old(self).rest(),
            r is Some ==> old(self).rest().len() > 0 && *r.unwrap() == old(self).source()@[old(self).rest()[0]]
                && final(self).rest() == old(self).rest().drop_first(),
    {
        let n = self.map.values.len();
        while self.index < n
            invariant
                n == self.map.values@.len(),
                self.index <= n,
                self.map == old(self).map,
                self.rest() == old(self).rest(),
            decreases n - self.index,
        {
            let i = self.index;
            let ghost s = self.map.slot_handles().subrange(i as int, n as int);
            proof {
                lemma_occupied_front(s);
                assert(s.drop_first() =~= self.map.slot_handles().subrange(i + 1, n as int));
            }
            self.index = i + 1;
            match &self.map.values[i] {
                HandleMapValue::Occupied(_, v) => {
                    proof {
                        let h = self.map.slot_handle(i as int).unwrap();
                        assert(self.map.holds(h));
                        self.map.lemma_view(h);
                    }
                    return Option::Some(v);
                },
                HandleMapValue::Empty => {},
            }
        }
        proof {
            assert(self.map.slot_handles().subrange(self.index as int, n as int) =~= Seq::<Option<Handle>>::empty());
        }
        Option::None
    }
}

impl<'a, T> HandleMapValues<'a, T> {
    /// Gathers the values not yet yielded, in slot order.
    pub fn collect(self) -> (r: Vec<&'a T>)
        requires
            self.wf(),
        ensures
            r@.len() == self.rest().len(),
            forall|i: int| 0 <= i < r@.len() ==> *#[trigger] r@[i] == self.source()@[self.rest()[i]],
    {
        let mut it = self;
        let mut r: Vec<&'a T> = Vec::new();
        loop
            invariant
                it.wf(),
                it.source() == self.source(),
                r@.len() + it.rest().len() == self.rest().len(),
                it.rest() == self.rest().subrange(r@.len() as int, self.rest().len() as int),
                forall|i: int| 0 <= i < r@.len() ==> *#[trigger] r@[i] == self.source()@[self.rest()[i]],
            decreases it.rest().len(),
        {
            match it.next() {
                Option::Some(v) => {
                    r.push(v);
                },
                Option::None => {
                    return r;
                },
            }
        }
    }
}

/// `occupied` read from the front: the first slot, then the others.
pub proof fn lemma_occupied_front(s: Seq<Option<Handle>>)
    requires
        s.len() > 0,
    ensures
        occupied(s) == match s[0] {
            Option::Some(h) => seq![h] + occupied(s.drop_first()),
            Option::None => occupied(s.drop_first()),
        },
    decreases s.len(),
{
    if s.len() == 1 {
        assert(s.drop_last() =~= Seq::<Option<Handle>>::empty());
        assert(s.drop_first() =~= Seq::<Option<Handle>>::empty());
        assert(occupied(s.drop_first()) == Seq::<Handle>::empty());
        match s[0] {
            Option::Some(h) => {
                assert(seq![h] + Seq::<Handle>::empty() =~= Seq::<Handle>::empty().push(h));
            },
            Option::None => {},
        }
    } else {
        lemma_occupied_front(s.drop_last());
        assert(s.drop_last().drop_first() =~= s.drop_first().drop_last());
        assert(s.drop_first().last() == s.last());
        match s[0] {
            Option::Some(h) => {
                let x = occupied(s.drop_last().drop_first());
                match s.last() {
                    Option::Some(g) => {
                        assert((seq![h] + x).push(g) =~= seq![h] + x.push(g));
                    },
                    Option::None => {},
                }
            },
            Option::None => {},
        }
    }
}

/// `occupied` over slots that each hold a handle to their own position: it
/// lists exactly the handles held, in increasing position, no more of them
/// than there are slots.
pub proof fn lemma_occupied(s: Seq<Option<Handle>>)
    requires
        forall|i: int| 0 <= i < s.len() && #[trigger] s[i] is Some ==> s[i].unwrap().position() == i,
    ensures
        forall|h: Handle| #[trigger]
            occupied(s).contains(h) == exists|i: int| 0 <= i < s.len() && s[i] == Option::Some(h),
        forall|a: int, b: int|
            0 <= a < b < occupied(s).len() ==> occupied(s)[a].position() < occupied(s)[b].position(),
        forall|k: int| 0 <= k < occupied(s).len() ==> #[trigger] occupied(s)[k].position() < s.len(),
        occupied(s).len() <= s.len(),
    decreases s.len(),
{
    if s.len() > 0 {
        let t = s.drop_last();
        assert forall|i: int| 0 <= i < t.len() && #[trigger] t[i] is Some implies t[i].unwrap().position() == i by {
            assert(t[i] == s[i]);
        }
        lemma_occupied(t);
        let o = occupied(t);
        assert forall|h: Handle| #[trigger]
            occupied(s).contains(h) == exists|i: int| 0 <= i < s.len() && s[i] == Option::Some(h) by {
            if exists|i: int| 0 <= i < s.len() && s[i] == Option::Some(h) {
                let i = choose|i: int| 0 <= i < s.len() && s[i] == Option::Some(h);
                if i < t.len() {
                    assert(t[i] == Option::Some(h));
                    assert(o.contains(h));
                    let k = choose|k: int| 0 <= k < o.len() && o[k] == h;
                    assert(occupied(s)[k] == h);
                } else {
                    assert(occupied(s) == o.push(h));
                    assert(occupied(s)[o.len() as int] == h);
                }
            }
            if occupied(s).contains(h) {
                let k = choose|k: int| 0 <= k < occupied(s).len() && occupied(s)[k] == h;
                if k < o.len() {
                    assert(o[k] == h);
                    assert(o.contains(h));
                    let i = choose|i: int| 0 <= i < t.len() && t[i] == Option::Some(h);
                    assert(s[i] == Option::Some(h));
                } else {
                    assert(s[s.len() - 1] == Option::Some(h));
                }
            }
        }
    }
}

/// Transitivity of `succeeds`, so that a chain of operations is a later state
/// of where it started.
pub proof fn lemma_succeeds_trans<T>(a: HandleMap<T>, b: HandleMap<T>, c: HandleMap<T>)
    requires
        b.succeeds(a),
        c.succeeds(b),
    ensures
        c.succeeds(a),
{
    assert forall|h: Handle| a.issued(h) && !a.holds(h) implies !#[trigger] c.holds(h) by {
        assert(b.issued(h));
        assert(!b.holds(h));
    }
}

/// Handles are unique: a handle issued at any point of a map's history differs
/// from the handle that any later `insert` returns, whatever was removed and
/// reused in between.
pub proof fn lemma_handle_uniqueness<T>(m: HandleMap<T>, later: HandleMap<T>, h1: Handle, h2: Handle)
    requires
        m.issued(h1),
        later.succeeds(m),
        !later.issued(h2),
    ensures
        h1 != h2,
{
}

/// A removed handle stays rejected: once a handle issued by a map no longer
/// resolves, it does not resolve in any later state of that map, even after its
/// slot is reused.
pub proof fn lemma_stale_handle_rejected<T>(m: HandleMap<T>, later: HandleMap<T>, h: Handle)
    requires
        m.issued(h),
        !m@.contains_key(h),
        later.succeeds(m),
    ensures
        !later@.contains_key(h),
{
}

/// Round trip: the handle that `insert` returns resolves, in the map that
/// `insert` leaves, to the value that went in.
pub proof fn lemma_round_trip<T>(before: HandleMap<T>, after: HandleMap<T>, v: T, h: Handle)
    requires
        after@ == before@.insert(h, v),
    ensures
        after@.contains_key(h),
        after@[h] == v,
{
}

} // verus!
