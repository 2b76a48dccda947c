//! A fixed-capacity least-recently-used index kept in an arena of slots.
//!
//! The slots form a doubly linked list through `prev` / `next` indices; `head` is
//! the most recently used slot and `tail` the least recently used one. Slots are
//! addressed by integer index only, and the arena stays dense: the live slots are
//! exactly `0 .. len()`.
use vstd::prelude::*;

verus! {

/// One slot of the arena: a value and the indices of its two neighbours.
pub struct Entry<T> {
    value: T,
    prev: usize,
    next: usize,
}

/// `s` with the item at position `p` taken out and put in front.
pub open spec fn move_to_front<A>(s: Seq<A>, p: int) -> Seq<A> {
    seq![s[p]] + s.remove(p)
}

/// The contents, most recently used first, after inserting `v` into an index of
/// capacity `cap` that held `s`: at capacity the last item is evicted.
pub open spec fn insert_front<A>(s: Seq<A>, v: A, cap: nat) -> Seq<A> {
    if cap == 0 {
        s
    } else if s.len() >= cap {
        seq![v] + s.drop_last()
    } else {
        seq![v] + s
    }
}

/// `p` is the first position, walking from the most recently used item on, whose
/// item `f` accepted; `f` refused every item before it.
pub open spec fn first_accepted<T, F: Fn(&T) -> bool>(s: Seq<T>, f: F, p: int) -> bool {
    &&& 0 <= p < s.len()
    &&& f.ensures((&s[p],), true)
    &&& forall|q: int| 0 <= q < p ==> f.ensures((&#[trigger] s[q],), false)
}

/// `f` refused every item of `s`.
pub open spec fn none_accepted<T, F: Fn(&T) -> bool>(s: Seq<T>, f: F) -> bool {
    forall|q: int| 0 <= q < s.len() ==> f.ensures((&#[trigger] s[q],), false)
}

/// `p` is the first position whose item `f` mapped to `Some(r)`; `f` mapped every
/// item before it to `None`.
pub open spec fn first_found<T, R, F: Fn(&T) -> Option<R>>(s: Seq<T>, f: F, p: int, r: R) -> bool {
    &&& 0 <= p < s.len()
    &&& f.ensures((&s[p],), Some(r))
    &&& forall|q: int| 0 <= q < p ==> f.ensures((&#[trigger] s[q],), None)
}

/// `f` mapped every item of `s` to `None`.
pub open spec fn none_found<T, R, F: Fn(&T) -> Option<R>>(s: Seq<T>, f: F) -> bool {
    forall|q: int| 0 <= q < s.len() ==> f.ensures((&#[trigger] s[q],), None::<R>)
}

/// Walking `next` from `ord[0]` visits `ord` in turn, and `prev` walks it back.
spec fn links<T>(e: Seq<Entry<T>>, ord: Seq<usize>) -> bool {
    &&& forall|k: int| 0 <= k < ord.len() - 1 ==> (#[trigger] e[ord[k] as int]).next == ord[k + 1]
    &&& forall|k: int| 0 < k < ord.len() ==> (#[trigger] e[ord[k] as int]).prev == ord[k - 1]
}

/// What a run of inserts `vals`, in turn, makes of an index of capacity `cap`
/// that held `s`.
pub open spec fn inserts<A>(s: Seq<A>, vals: Seq<A>, cap: nat) -> Seq<A>
    decreases vals.len(),
{
    if vals.len() == 0 {
        s
    } else {
        inserts(insert_front(s, vals[0], cap), vals.drop_first(), cap)
    }
}

/// However many values are inserted, an index never holds more than its capacity.
pub proof fn lemma_inserts_within_capacity<A>(s: Seq<A>, vals: Seq<A>, cap: nat)
    requires
        s.len() <= cap,
    ensures
        inserts(s, vals, cap).len() <= cap,
    decreases vals.len(),
{
    if vals.len() > 0 {
        lemma_inserts_within_capacity(insert_front(s, vals[0], cap), vals.drop_first(), cap);
    }
}

/// An insert into a full index evicts exactly the least recently used value, the
/// last one, and keeps the others in their order behind the new value.
pub proof fn lemma_eviction_takes_tail<A>(s: Seq<A>, v: A, cap: nat)
    requires
        cap > 0,
        s.len() == cap,
    ensures
        insert_front(s, v, cap).len() == cap,
        insert_front(s, v, cap)[0] == v,
        forall|k: int| 0 <= k < cap - 1 ==> #[trigger] insert_front(s, v, cap)[k + 1] == s[k],
{
}

/// After a hit moves the item at position `p` to the front, the front is that
/// item and every other item keeps its relative order.
pub proof fn lemma_access_brings_to_front<A>(s: Seq<A>, p: int)
    requires
        0 <= p < s.len(),
    ensures
        move_to_front(s, p).len() == s.len(),
        move_to_front(s, p)[0] == s[p],
        move_to_front(s, p).drop_first() == s.remove(p),
{
    assert(move_to_front(s, p).drop_first() =~= s.remove(p));
}

/// A least-recently-used index holding at most `N` values.
pub struct LRUCache<T, const N: usize> {
    entries: Vec<Entry<T>>,
    head: usize,
    tail: usize,
    length: usize,
    order: Ghost<Seq<usize>>,
}

impl<T, const N: usize> View for LRUCache<T, N> {
    type V = Seq<T>;

    /// The values, most recently used first.
    closed spec fn view(&self) -> Seq<T> {
        Seq::new(self.order@.len(), |k: int| self.entries@[self.order@[k] as int].value)
    }
}

impl<T, const N: usize> Default for LRUCache<T, N> {
    /// An empty index.
    fn default() -> (r: Self)
        ensures
            r.wf(),
            r@ == Seq::<T>::empty(),
    {
        let r = LRUCache { entries: Vec::new(), head: 0, tail: 0, length: 0, order: Ghost(Seq::empty()) };
        proof {
            assert(r@ =~= Seq::<T>::empty());
        }
        r
    }
}

impl<T, const N: usize> LRUCache<T, N> {
    /// The slot indices, most recently used first.
    pub closed spec fn slots(&self) -> Seq<usize> {
        self.order@
    }

    /// The links of the arena spell out `slots()`, from `head` to `tail`.
    pub closed spec fn wf(&self) -> bool {
        let ord = self.order@;
        &&& self.length == self.entries.len()
        &&& ord.len() == self.length
        &&& self.length <= N
        &&& ord.no_duplicates()
        &&& forall|k: int| 0 <= k < ord.len() ==> #[trigger] ord[k] < self.length
        &&& forall|i: usize| i < self.length ==> ord.contains(i)
        &&& self.length == 0 ==> self.head == 0 && self.tail == 0
        &&& self.length > 0 ==> self.head == ord[0] && self.tail == ord[ord.len() - 1]
        &&& links(self.entries@, ord)
    }

    proof fn lemma_view_len(&self)
        ensures
            self@.len() == self.order@.len(),
            forall|k: int|
                0 <= k < self@.len() ==> #[trigger] self@[k] == self.entries@[self.order@[k] as int].value,
    {
    }

    /// The number of values held.
    pub fn len(&self) -> (r: usize)
        requires
            self.wf(),
        ensures
            r == self@.len(),
    {
        proof { self.lemma_view_len(); }
        self.length
    }

    /// Whether no value is held.
    pub fn is_empty(&self) -> (r: bool)
        requires
            self.wf(),
        ensures
            r == (self@.len() == 0),
    {
        proof { self.lemma_view_len(); }
        self.length == 0
    }

    /// The capacity the index was made with.
    pub fn capacity(&self) -> (r: usize)
        ensures
            r == N,
    {
        N
    }

    /// Drops every value; the index is empty afterwards.
    pub fn clear_elements(&mut self)
        requires
            old(self).wf(),
        ensures
            final(self).wf(),
            final(self)@ == Seq::<T>::empty(),
    {
        self.entries.clear();
        self.head = 0;
        self.tail = 0;
        self.length = 0;
        self.order = Ghost(Seq::empty());
        proof {
            assert(self@ =~= Seq::<T>::empty());
        }
    }

    /// The most recently used value, if any.
    pub fn get_front(&self) -> (r: Option<&T>)
        requires
            self.wf(),
        ensures
            self@.len() == 0 ==> r.is_none(),
            self@.len() > 0 ==> r == Some(&self@[0]),
    {
        proof { self.lemma_view_len(); }
        if self.length == 0 {
            None
        } else {
            Some(&self.entries[self.head].value)
        }
    }

    /// The most recently used value, to change in place; the order is kept.
    pub fn get_front_mut(&mut self) -> (r: Option<&mut T>)
        requires
            old(self).wf(),
        ensures
            old(self)@.len() == 0 ==> r.is_none() && *final(self) == *old(self),
            match r {
                Some(x) => old(self)@.len() > 0 && *x == old(self)@[0] && final(self).wf()
                    && final(self)@ == old(self)@.update(0, *final(x)),
                None => old(self)@.len() == 0,
            },
    {
        proof { self.lemma_view_len(); }
        if self.length == 0 {
            None
        } else {
            let head = self.head;
            let ghost es = self.entries@;
            let e = &mut self.entries[head];
            assert(after_borrow(self).entries@ == es.update(head as int, *final(e)));
            Some(&mut e.value)
        }
    }

    /// The values, most recently used first.
    pub fn values(&self) -> (r: Vec<&T>)
        requires
            self.wf(),
        ensures
            r@.len() == self@.len(),
            forall|k: int| 0 <= k < r@.len() ==> *#[trigger] r@[k] == self@[k],
    {
        proof { self.lemma_view_len(); }
        let mut r: Vec<&T> = Vec::new();
        let mut k: usize = 0;
        let mut cur: usize = self.head;
        while k < self.length
            invariant
                self.wf(),
                k <= self.length,
                k < self.length ==> cur == self.order@[k as int],
                r@.len() == k,
                forall|q: int| 0 <= q < k ==> *#[trigger] r@[q] == self@[q],
            decreases self.length - k,
        {
            proof { self.lemma_view_len(); }
            r.push(&self.entries[cur].value);
            cur = self.entries[cur].next;
            k = k + 1;
        }
        r
    }

    /// Makes `value` the most recently used value. Under capacity it takes a new
    /// slot; at capacity it overwrites the slot of the least recently used value,
    /// which is evicted. An index of capacity zero stays empty.
    pub fn insert(&mut self, value: T)
        requires
            old(self).wf(),
        ensures
            final(self).wf(),
            final(self)@ == insert_front(old(self)@, value, N as nat),
            final(self)@.len() <= N,
            N > 0 && old(self)@.len() == N ==> final(self).slots() == move_to_front(
                old(self).slots(),
                N - 1,
            ),
            old(self)@.len() < N ==> final(self).slots() == seq![old(self)@.len() as usize]
                + old(self).slots(),
    {
        proof { self.lemma_view_len(); }
        if N == 0 {
            return;
        }
        let ghost o = self.order@;
        let entry = Entry { value, prev: 0, next: 0 };
        if self.length == N {
            let old_tail = self.tail;
            if self.length == 1 {
                self.entries[old_tail] = entry;
                proof {
                    assert(o.len() == 1 && o[0] == old_tail);
                    assert(move_to_front(o, 0) =~= o);
                    assert(self@ =~= seq![value]);
                    assert(old(self)@.drop_last() =~= Seq::<T>::empty());
                }
            } else {
                let new_tail = self.entries[old_tail].prev;
                self.tail = new_tail;
                self.entries[old_tail] = entry;
                let head = self.head;
                self.entries[old_tail].next = head;
                self.entries[head].prev = old_tail;
                self.head = old_tail;
                let ghost p = o.len() - 1;
                self.order = Ghost(move_to_front(o, p));
                proof {
                    assert(o[p] == old_tail);
                    assert(new_tail == o[p - 1]);
                    assert(head == o[0]);
                    assert(head != old_tail);
                    lemma_promote(*old(self), *self, p);
                    assert(old(self)@.remove(p) =~= old(self)@.drop_last());
                }
            }
        } else {
            let idx = self.length;
            self.entries.push(entry);
            self.length = self.length + 1;
            if idx == 0 {
                self.head = 0;
                self.tail = 0;
                self.order = Ghost(Seq::empty().push(0usize));
                proof {
                    assert(self.order@.no_duplicates());
                    assert(self.order@ =~= seq![0usize] + o);
                    assert forall|i: usize| i < self.length implies self.order@.contains(i) by {
                        assert(self.order@[0] == i);
                    }
                    assert(self@ =~= seq![value]);
                }
            } else {
                let head = self.head;
                self.entries[idx].next = head;
                self.entries[head].prev = idx;
                self.head = idx;
                self.order = Ghost(Seq::empty().push(idx) + o);
                proof { lemma_push_front(*old(self), *self); }
            }
        }
    }

    /// Walks from the most recently used value on and moves the first value that
    /// `condition` accepts to the front. A miss changes nothing.
    pub fn call<F: Fn(&T) -> bool>(&mut self, condition: F) -> (found: bool)
        requires
            old(self).wf(),
            forall|t: &T| condition.requires((t,)),
        ensures
            final(self).wf(),
            found ==> exists|p: int|
                first_accepted(old(self)@, condition, p) && final(self)@ == move_to_front(
                    old(self)@,
                    p,
                ) && final(self).slots() == move_to_front(old(self).slots(), p),
            !found ==> none_accepted(old(self)@, condition) && *final(self) == *old(self),
    {
        proof { self.lemma_view_len(); }
        let mut k: usize = 0;
        let mut cur: usize = self.head;
        while k < self.length
            invariant
                self.wf(),
                *self == *old(self),
                forall|t: &T| condition.requires((t,)),
                k <= self.length,
                k < self.length ==> cur == self.order@[k as int],
                forall|q: int| 0 <= q < k ==> condition.ensures((&#[trigger] self@[q],), false),
            decreases self.length - k,
        {
            proof { self.lemma_view_len(); }
            let hit = condition(&self.entries[cur].value);
            if hit {
                let ghost p = k as int;
                self.call_on_index(cur, Ghost(p));
                proof {
                    assert(first_accepted(old(self)@, condition, p));
                    assert(self@ == move_to_front(old(self)@, p));
                    assert(self.slots() == move_to_front(old(self).slots(), p));
                }
                return true;
            }
            cur = self.entries[cur].next;
            k = k + 1;
        }
        false
    }

    /// Walks from the most recently used value on until `condition` gives a
    /// result, moves that value to the front and returns the result. Values after
    /// it are never examined; a miss changes nothing.
    pub fn lookup<F, R>(&mut self, condition: F) -> (r: Option<R>) where F: Fn(&T) -> Option<R>
        requires
            old(self).wf(),
            forall|t: &T| condition.requires((t,)),
        ensures
            final(self).wf(),
            match r {
                Some(x) => exists|p: int|
                    first_found(old(self)@, condition, p, x) && final(self)@ == move_to_front(
                        old(self)@,
                        p,
                    ) && final(self).slots() == move_to_front(old(self).slots(), p),
                None => none_found(old(self)@, condition) && *final(self) == *old(self),
            },
    {
        proof { self.lemma_view_len(); }
        let mut k: usize = 0;
        let mut cur: usize = self.head;
        while k < self.length
            invariant
                self.wf(),
                *self == *old(self),
                forall|t: &T| condition.requires((t,)),
                k <= self.length,
                k < self.length ==> cur == self.order@[k as int],
                forall|q: int| 0 <= q < k ==> condition.ensures((&#[trigger] self@[q],), None::<R>),
            decreases self.length - k,
        {
            proof { self.lemma_view_len(); }
            let found = condition(&self.entries[cur].value);
            match found {
                Some(x) => {
                    let ghost p = k as int;
                    self.call_on_index(cur, Ghost(p));
                    proof {
                        assert(first_found(old(self)@, condition, p, x));
                        assert(self@ == move_to_front(old(self)@, p));
                        assert(self.slots() == move_to_front(old(self).slots(), p));
                    }
                    return Some(x);
                },
                None => {},
            }
            cur = self.entries[cur].next;
            k = k + 1;
        }
        None
    }

    /// Takes the value in slot `index` out of the index. The arena stays dense: the
    /// value of the last slot moves into the freed one.
    pub fn remove(&mut self, index: usize)
        requires
            old(self).wf(),
            index < old(self)@.len(),
        ensures
            final(self).wf(),
            exists|p: int|
                0 <= p < old(self)@.len() && old(self).slots()[p] == index && final(self)@
                    == old(self)@.remove(p),
    {
        proof { self.lemma_view_len(); }
        let ghost o = self.order@;
        let ghost len = self.length as int;
        let ghost p = choose|j: int| 0 <= j < len && o[j] == index;
        assert(o.contains(index));
        self.unlink_slot(index, Ghost(p));
        let last = self.length;
        let ghost e1 = self.entries@;
        let ghost mid = o.remove(p);
        proof { lemma_remove_seq(o, p, len); }
        if index != last {
            let ghost q0 = choose|j: int| 0 <= j < len && o[j] == last;
            let ghost q = if q0 < p { q0 } else { q0 - 1 };
            proof {
                assert(o.contains(last as usize));
                assert(mid[q] == last);
                lemma_rename_seq(o, p, q, len);
            }
            self.fill_slot(index, Ghost(mid), Ghost(q));
            self.order = Ghost(mid.update(q, index));
        } else {
            self.entries.pop();
            self.order = Ghost(mid);
        }
        if self.length == 0 {
            self.head = 0;
            self.tail = 0;
        }
        proof {
            let n = self.order@;
            assert forall|k: int| 0 <= k < len - 1 implies #[trigger] self@[k] == old(self)@.remove(p)[k] by {
                assert(mid[k] == o[if k < p { k } else { k + 1 }]);
            }
            assert(self@ =~= old(self)@.remove(p));
            assert(0 <= p < old(self)@.len());
            assert(old(self).slots()[p] == index);
        }
    }

    /// Moves the entry of the last slot, at position `q` of `m`, into the free
    /// slot `index` and points its neighbours at it.
    fn fill_slot(&mut self, index: usize, Ghost(m): Ghost<Seq<usize>>, Ghost(q): Ghost<int>)
        requires
            old(self).entries.len() == old(self).length + 1,
            m.len() == old(self).length,
            links(old(self).entries@, m),
            m.no_duplicates(),
            index < old(self).length,
            !m.contains(index),
            0 <= q < m.len(),
            m[q] == old(self).length,
            forall|k: int| 0 <= k < m.len() ==> #[trigger] m[k] < old(self).entries.len(),
            old(self).head == m[0],
            old(self).tail == m.last(),
        ensures
            final(self).length == old(self).length,
            final(self).entries.len() == old(self).length,
            final(self).order == old(self).order,
            links(final(self).entries@, m.update(q, index)),
            forall|k: int|
                0 <= k < m.len() ==> #[trigger] final(self).entries@[m.update(q, index)[k] as int].value
                    == old(self).entries@[m[k] as int].value,
            final(self).head == m.update(q, index)[0],
            final(self).tail == m.update(q, index).last(),
    {
        let last = self.length;
        let moved = self.entries.pop();
        match moved {
            Some(e) => {
                let lp = e.prev;
                let ln = e.next;
                assert(q > 0 ==> lp == m[q - 1]);
                assert(q < m.len() - 1 ==> ln == m[q + 1]);
                self.entries[index] = e;
                if self.head == last {
                    self.head = index;
                } else {
                    assert(q != 0);
                    self.entries[lp].next = index;
                }
                if self.tail == last {
                    self.tail = index;
                } else {
                    assert(q != m.len() - 1);
                    self.entries[ln].prev = index;
                }
                proof {
                    assert(q > 0 ==> m[q - 1] != last && m[q - 1] != index);
                    assert(q < m.len() - 1 ==> m[q + 1] != last && m[q + 1] != index);
                    lemma_compact(old(self).entries@, self.entries@, m, q, index);
                }
            },
            None => {},
        }
    }

    /// Points the two neighbours of slot `index`, at position `p`, at each other
    /// and counts one value less; the slot itself is left in the arena.
    fn unlink_slot(&mut self, index: usize, Ghost(p): Ghost<int>)
        requires
            old(self).wf(),
            0 <= p < old(self).length,
            old(self).order@[p] == index,
        ensures
            final(self).length == old(self).length - 1,
            final(self).entries.len() == old(self).entries.len(),
            final(self).order == old(self).order,
            links(final(self).entries@, old(self).order@.remove(p)),
            forall|k: int|
                0 <= k < old(self).length ==> #[trigger] final(self).entries@[old(self).order@[k] as int].value
                    == old(self).entries@[old(self).order@[k] as int].value,
            old(self).length > 1 ==> final(self).head == old(self).order@.remove(p)[0],
            old(self).length > 1 ==> final(self).tail == old(self).order@.remove(p).last(),
    {
        let ghost o = self.order@;
        let ghost len = self.length as int;
        let prev = self.entries[index].prev;
        let next = self.entries[index].next;
        if index == self.head {
            self.head = next;
        } else {
            self.entries[prev].next = next;
        }
        if index == self.tail {
            self.tail = prev;
        } else {
            self.entries[next].prev = prev;
        }
        self.length = self.length - 1;
        let ghost mid = o.remove(p);
        proof {
            lemma_unlink(old(self).entries@, self.entries@, o, p);
            assert forall|k: int| 0 <= k < len - 1 implies #[trigger] mid[k] == (if k < p {
                o[k]
            } else {
                o[k + 1]
            }) by {}
            assert(len > 1 ==> self.head == mid[0]);
            assert(len > 1 ==> self.tail == mid[len - 2]);
        }
    }

    /// Moves the value in slot `index`, at position `p`, to the front.
    fn call_on_index(&mut self, index: usize, Ghost(p): Ghost<int>)
        requires
            old(self).wf(),
            0 <= p < old(self).order@.len(),
            old(self).order@[p] == index,
        ensures
            final(self).wf(),
            final(self).order@ == move_to_front(old(self).order@, p),
            final(self)@ == move_to_front(old(self)@, p),
    {
        let ghost o = self.order@;
        let ghost len = self.length as int;
        proof { self.lemma_view_len(); }
        if index != self.head {
            assert(p > 0) by {
                if p == 0 {
                    assert(index == self.head);
                }
            }
            let prev = self.entries[index].prev;
            let next = self.entries[index].next;
            assert(prev == o[p - 1]);
            assert(p < len - 1 ==> next == o[p + 1]);
            self.entries[prev].next = next;
            if index == self.tail {
                assert(p == len - 1) by {
                    if p != len - 1 {
                        assert(o[p] == o[len - 1]);
                    }
                }
                self.tail = prev;
            } else {
                assert(p != len - 1);
                self.entries[next].prev = prev;
            }
            let head = self.head;
            self.entries[index].next = head;
            self.entries[head].prev = index;
            self.head = index;
            let ghost n = move_to_front(o, p);
            self.order = Ghost(n);
            proof {
                assert forall|s: int| 0 <= s < len implies #[trigger] self.entries@[s].value
                    == old(self).entries@[s].value by {}
                lemma_promote(*old(self), *self, p);
                assert(move_to_front(old(self)@, p) =~= seq![old(self)@[p]] + old(self)@.remove(p));
            }
        } else {
            proof {
                assert(p == 0) by {
                    if p != 0 {
                        assert(o[p] == o[0]);
                    }
                }
                assert(o =~= move_to_front(o, p));
                assert(self@ =~= move_to_front(old(self)@, p));
            }
        }
    }
}

/// The link facts that moving the item at position `p` of `a` to the front
/// leaves in `b`, slot by slot, give a well-formed `b` in the new order.
proof fn lemma_promote<T, const N: usize>(a: LRUCache<T, N>, b: LRUCache<T, N>, p: int)
    requires
        a.wf(),
        0 < p < a.length,
        b.order@ == move_to_front(a.order@, p),
        b.length == a.length,
        b.entries.len() == a.entries.len(),
        b.head == a.order@[p],
        b.tail == (if p == a.length - 1 { a.order@[p - 1] } else { a.tail }),
        forall|s: int|
            0 <= s < a.length && s != a.order@[p] ==> #[trigger] b.entries@[s].value
                == a.entries@[s].value,
        forall|s: int|
            0 <= s < a.length && s != a.order@[p - 1] && s != a.order@[p]
                ==> #[trigger] b.entries@[s].next == a.entries@[s].next,
        p < a.length - 1 ==> b.entries@[a.order@[p - 1] as int].next == a.order@[p + 1],
        b.entries@[a.order@[p] as int].next == a.order@[0],
        forall|s: int|
            0 <= s < a.length && s != a.order@[0] && s != a.order@[p] && (p == a.length - 1
                || s != a.order@[p + 1])
                ==> #[trigger] b.entries@[s].prev == a.entries@[s].prev,
        b.entries@[a.order@[0] as int].prev == a.order@[p],
        p < a.length - 1 ==> b.entries@[a.order@[p + 1] as int].prev == a.order@[p - 1],
    ensures
        b.wf(),
        b@ == seq![b.entries@[a.order@[p] as int].value] + a@.remove(p),
{
    let o = a.order@;
    let n = b.order@;
    let len = a.length as int;
    assert(n.len() == len);
    assert forall|k: int| 0 <= k < len implies #[trigger] n[k] == (if k == 0 {
        o[p]
    } else if k <= p {
        o[k - 1]
    } else {
        o[k]
    }) by {}
    assert(n.no_duplicates()) by {
        assert forall|x: int, y: int| 0 <= x < len && 0 <= y < len && x != y implies n[x] != n[y] by {
            let ix = if x == 0 { p } else if x <= p { x - 1 } else { x };
            let iy = if y == 0 { p } else if y <= p { y - 1 } else { y };
            assert(n[x] == o[ix]);
            assert(n[y] == o[iy]);
        }
    }
    assert forall|k: int| 0 <= k < len implies #[trigger] n[k] < b.length by {
        let ik = if k == 0 { p } else if k <= p { k - 1 } else { k };
        assert(n[k] == o[ik]);
    }
    assert forall|i: usize| i < b.length implies n.contains(i) by {
        assert(o.contains(i));
        let j = choose|j: int| 0 <= j < len && o[j] == i;
        if j == p {
            assert(n[0] == i);
        } else if j < p {
            assert(n[j + 1] == i);
        } else {
            assert(n[j] == i);
        }
    }
    assert forall|k: int| 0 <= k < len - 1 implies b.entries@[#[trigger] n[k] as int].next == n[k + 1] by {
        if k == 0 {
        } else if k < p {
            assert(o[k - 1] != o[p - 1]);
            assert(o[k - 1] != o[p]);
            assert(o[k - 1] < len);
        } else if k == p {
        } else {
            assert(o[k] != o[p - 1]);
            assert(o[k] != o[p]);
            assert(o[k] < len);
        }
    }
    assert forall|k: int| 0 < k < len implies b.entries@[#[trigger] n[k] as int].prev == n[k - 1] by {
        if k == 1 {
        } else if k <= p {
            assert(o[k - 1] != o[0]);
            assert(p < len - 1 ==> o[k - 1] != o[p + 1]);
            assert(o[k - 1] < len);
        } else if k == p + 1 {
        } else {
            assert(o[k] != o[0]);
            assert(o[k] != o[p + 1]);
            assert(o[k] < len);
        }
    }
    let v = b.entries@[o[p] as int].value;
    assert forall|k: int| 0 <= k < len implies #[trigger] b@[k] == (seq![v] + a@.remove(p))[k] by {
        let ik = if k == 0 { p } else if k <= p { k - 1 } else { k };
        assert(n[k] == o[ik]);
        assert(o[ik] < len);
        assert(k != 0 ==> o[ik] != o[p]);
    }
    assert(b@ =~= seq![v] + a@.remove(p));
}

/// Linking a new last slot in front of the head of `a` gives a well-formed `b`.
proof fn lemma_push_front<T, const N: usize>(a: LRUCache<T, N>, b: LRUCache<T, N>)
    requires
        a.wf(),
        0 < a.length < N,
        b.length == a.length + 1,
        b.entries.len() == b.length,
        b.order@ == seq![a.length] + a.order@,
        b.head == a.length,
        b.tail == a.tail,
        forall|s: int| 0 <= s < a.length ==> #[trigger] b.entries@[s].value == a.entries@[s].value,
        forall|s: int| 0 <= s < a.length ==> #[trigger] b.entries@[s].next == a.entries@[s].next,
        forall|s: int|
            0 <= s < a.length && s != a.head ==> #[trigger] b.entries@[s].prev == a.entries@[s].prev,
        b.entries@[a.length as int].next == a.head,
        b.entries@[a.head as int].prev == a.length,
    ensures
        b.wf(),
        b@ == seq![b.entries@[a.length as int].value] + a@,
{
    let o = a.order@;
    let n = b.order@;
    let len = a.length as int;
    assert forall|k: int| 0 < k <= len implies #[trigger] n[k] == o[k - 1] by {}
    assert(n.no_duplicates()) by {
        assert forall|x: int, y: int| 0 <= x <= len && 0 <= y <= len && x != y implies n[x] != n[y] by {
            if x > 0 {
                assert(n[x] == o[x - 1]);
                assert(o[x - 1] < len);
            }
            if y > 0 {
                assert(n[y] == o[y - 1]);
                assert(o[y - 1] < len);
            }
        }
    }
    assert forall|k: int| 0 <= k <= len implies #[trigger] n[k] < b.length by {
        if k > 0 {
            assert(n[k] == o[k - 1]);
        }
    }
    assert forall|i: usize| i < b.length implies n.contains(i) by {
        if i == a.length {
            assert(n[0] == i);
        } else {
            assert(o.contains(i));
            let j = choose|j: int| 0 <= j < len && o[j] == i;
            assert(n[j + 1] == i);
        }
    }
    assert forall|k: int| 0 <= k < len implies b.entries@[#[trigger] n[k] as int].next == n[k + 1] by {
        if k > 0 {
            assert(n[k] == o[k - 1]);
            assert(o[k - 1] < len);
        }
    }
    assert forall|k: int| 0 < k <= len implies b.entries@[#[trigger] n[k] as int].prev == n[k - 1] by {
        assert(n[k] == o[k - 1]);
        assert(o[k - 1] < len);
        if k > 1 {
            assert(o[k - 1] != o[0]);
        }
    }
    let v = b.entries@[a.length as int].value;
    assert forall|k: int| 0 <= k <= len implies #[trigger] b@[k] == (seq![v] + a@)[k] by {
        if k > 0 {
            assert(n[k] == o[k - 1]);
            assert(o[k - 1] < len);
        }
    }
    assert(b@ =~= seq![v] + a@);
}

/// Unlinking the slot at position `p` of `o`, by pointing its two neighbours at
/// each other, leaves links that spell `o.remove(p)`.
proof fn lemma_unlink<T>(a: Seq<Entry<T>>, b: Seq<Entry<T>>, o: Seq<usize>, p: int)
    requires
        links(a, o),
        o.no_duplicates(),
        0 <= p < o.len(),
        forall|k: int| 0 <= k < o.len() ==> #[trigger] o[k] < a.len(),
        b.len() == a.len(),
        forall|s: int|
            0 <= s < a.len() && (p == 0 || s != o[p - 1]) && (p == o.len() - 1 || s != o[p + 1])
                ==> #[trigger] b[s] == a[s],
        p > 0 ==> b[o[p - 1] as int].prev == a[o[p - 1] as int].prev,
        p > 0 ==> b[o[p - 1] as int].value == a[o[p - 1] as int].value,
        0 < p < o.len() - 1 ==> b[o[p - 1] as int].next == o[p + 1],
        p < o.len() - 1 ==> b[o[p + 1] as int].next == a[o[p + 1] as int].next,
        p < o.len() - 1 ==> b[o[p + 1] as int].value == a[o[p + 1] as int].value,
        0 < p < o.len() - 1 ==> b[o[p + 1] as int].prev == o[p - 1],
    ensures
        links(b, o.remove(p)),
        forall|k: int| 0 <= k < o.len() ==> #[trigger] b[o[k] as int].value == a[o[k] as int].value,
{
    let m = o.remove(p);
    let len = o.len();
    assert forall|k: int| 0 <= k < len - 1 implies #[trigger] m[k] == (if k < p { o[k] } else { o[k + 1] }) by {}
    assert forall|k: int| 0 <= k < len implies #[trigger] b[o[k] as int].value == a[o[k] as int].value by {
        if p > 0 && k == p - 1 {
        } else if p < len - 1 && k == p + 1 {
        } else {
            if p > 0 { assert(o[k] != o[p - 1] || k == p - 1); }
            if p < len - 1 { assert(o[k] != o[p + 1] || k == p + 1); }
        }
    }
    assert forall|k: int| 0 <= k < m.len() - 1 implies b[#[trigger] m[k] as int].next == m[k + 1] by {
        let ik = if k < p { k } else { k + 1 };
        assert(m[k] == o[ik]);
        if ik == p - 1 {
        } else if p < len - 1 && ik == p + 1 {
        } else {
            assert(p > 0 ==> o[ik] != o[p - 1]);
            assert(p < len - 1 ==> o[ik] != o[p + 1]);
        }
    }
    assert forall|k: int| 0 < k < m.len() implies b[#[trigger] m[k] as int].prev == m[k - 1] by {
        let ik = if k < p { k } else { k + 1 };
        assert(m[k] == o[ik]);
        if p > 0 && ik == p - 1 {
        } else if ik == p + 1 {
        } else {
            assert(p > 0 ==> o[ik] != o[p - 1]);
            assert(p < len - 1 ==> o[ik] != o[p + 1]);
        }
    }
}

/// Moving the last slot `last`, at position `q` of `m`, into the free slot
/// `index`, and pointing its neighbours at `index`, leaves links that spell
/// `m` with `last` renamed to `index`.
proof fn lemma_compact<T>(a: Seq<Entry<T>>, b: Seq<Entry<T>>, m: Seq<usize>, q: int, index: usize)
    requires
        links(a, m),
        m.no_duplicates(),
        a.len() > 0,
        index < a.len() - 1,
        !m.contains(index),
        0 <= q < m.len(),
        m[q] == a.len() - 1,
        forall|k: int| 0 <= k < m.len() ==> #[trigger] m[k] < a.len(),
        b.len() == a.len() - 1,
        b[index as int] == a[a.len() - 1],
        forall|s: int|
            0 <= s < b.len() && s != index && (q == 0 || s != m[q - 1]) && (q == m.len() - 1 || s
                != m[q + 1]) ==> #[trigger] b[s] == a[s],
        q > 0 ==> b[m[q - 1] as int].next == index,
        q > 0 ==> b[m[q - 1] as int].prev == a[m[q - 1] as int].prev,
        q > 0 ==> b[m[q - 1] as int].value == a[m[q - 1] as int].value,
        q < m.len() - 1 ==> b[m[q + 1] as int].prev == index,
        q < m.len() - 1 ==> b[m[q + 1] as int].next == a[m[q + 1] as int].next,
        q < m.len() - 1 ==> b[m[q + 1] as int].value == a[m[q + 1] as int].value,
    ensures
        links(b, m.update(q, index)),
        forall|k: int|
            0 <= k < m.len() ==> #[trigger] b[m.update(q, index)[k] as int].value == a[m[k] as int].value,
{
    let n = m.update(q, index);
    let last = a.len() - 1;
    assert forall|k: int| 0 <= k < m.len() && k != q implies m[k] != last && m[k] != index by {}
    assert forall|k: int| 0 <= k < m.len() implies #[trigger] b[n[k] as int].value == a[m[k] as int].value by {
        if k != q {
            assert(m[k] != last);
            if q > 0 && k == q - 1 {
            } else if q < m.len() - 1 && k == q + 1 {
            } else {
                assert(q > 0 ==> m[k] != m[q - 1]);
                assert(q < m.len() - 1 ==> m[k] != m[q + 1]);
            }
        }
    }
    assert forall|k: int| 0 <= k < n.len() - 1 implies b[#[trigger] n[k] as int].next == n[k + 1] by {
        if k == q {
        } else if k == q - 1 {
        } else {
            assert(m[k] != last);
            assert(q > 0 ==> m[k] != m[q - 1]);
            if q < m.len() - 1 && k == q + 1 {
            } else {
                assert(q < m.len() - 1 ==> m[k] != m[q + 1]);
            }
        }
    }
    assert forall|k: int| 0 < k < n.len() implies b[#[trigger] n[k] as int].prev == n[k - 1] by {
        if k == q {
        } else if k == q + 1 {
        } else {
            assert(m[k] != last);
            assert(q < m.len() - 1 ==> m[k] != m[q + 1]);
            if q > 0 && k == q - 1 {
            } else {
                assert(q > 0 ==> m[k] != m[q - 1]);
            }
        }
    }
}

/// The facts about `o.remove(p)` that removing a slot relies on, where `o` lists
/// each slot below `len` once.
proof fn lemma_remove_seq(o: Seq<usize>, p: int, len: int)
    requires
        o.len() == len,
        0 <= p < len,
        o.no_duplicates(),
        forall|k: int| 0 <= k < len ==> #[trigger] o[k] < len,
        forall|i: usize| i < len ==> o.contains(i),
    ensures
        o.remove(p).no_duplicates(),
        forall|k: int| 0 <= k < len - 1 ==> #[trigger] o.remove(p)[k] == o[if k < p { k } else { k + 1 }],
        forall|k: int| 0 <= k < len - 1 ==> #[trigger] o.remove(p)[k] < len && o.remove(p)[k] != o[p],
        forall|i: usize| i < len && i != o[p] ==> o.remove(p).contains(i),
        o[p] == len - 1 ==> forall|k: int| 0 <= k < len - 1 ==> #[trigger] o.remove(p)[k] < len - 1,
{
    let m = o.remove(p);
    assert forall|k: int| 0 <= k < len - 1 implies #[trigger] m[k] == o[if k < p { k } else { k + 1 }] by {}
    assert forall|x: int, y: int| 0 <= x < len - 1 && 0 <= y < len - 1 && x != y implies m[x] != m[y] by {
        assert(m[x] == o[if x < p { x } else { x + 1 }]);
        assert(m[y] == o[if y < p { y } else { y + 1 }]);
    }
    assert forall|k: int| 0 <= k < len - 1 implies #[trigger] m[k] < len && m[k] != o[p] by {
        assert(m[k] == o[if k < p { k } else { k + 1 }]);
    }
    assert forall|i: usize| i < len && i != o[p] implies m.contains(i) by {
        assert(o.contains(i));
        let j = choose|j: int| 0 <= j < len && o[j] == i;
        let jk = if j < p { j } else { j - 1 };
        assert(m[jk] == i);
    }
    if o[p] == len - 1 {
        assert forall|k: int| 0 <= k < len - 1 implies #[trigger] m[k] < len - 1 by {
            assert(m[k] == o[if k < p { k } else { k + 1 }]);
        }
    }
}

/// Renaming the last slot `len - 1`, at position `q` of `o.remove(p)`, to the
/// freed slot `o[p]` lists each slot below `len - 1` once.
proof fn lemma_rename_seq(o: Seq<usize>, p: int, q: int, len: int)
    requires
        o.len() == len,
        0 <= p < len,
        o[p] != len - 1,
        0 <= q < len - 1,
        o.remove(p)[q] == len - 1,
        o.remove(p).no_duplicates(),
        forall|k: int| 0 <= k < len - 1 ==> #[trigger] o.remove(p)[k] < len && o.remove(p)[k] != o[p],
        forall|i: usize| i < len && i != o[p] ==> o.remove(p).contains(i),
        o[p] < len,
    ensures
        o.remove(p).update(q, o[p]).no_duplicates(),
        forall|k: int| 0 <= k < len - 1 ==> #[trigger] o.remove(p).update(q, o[p])[k] < len - 1,
        forall|i: usize| i < len - 1 ==> o.remove(p).update(q, o[p]).contains(i),
{
    let m = o.remove(p);
    let n = m.update(q, o[p]);
    assert forall|x: int, y: int| 0 <= x < len - 1 && 0 <= y < len - 1 && x != y implies n[x] != n[y] by {
        if x != q && y != q {
            assert(m[x] != m[y]);
        }
    }
    assert forall|k: int| 0 <= k < len - 1 implies #[trigger] n[k] < len - 1 by {
        if k != q {
            assert(m[k] != m[q]);
        }
    }
    assert forall|i: usize| i < len - 1 implies n.contains(i) by {
        if i == o[p] {
            assert(n[q] == i);
        } else {
            assert(m.contains(i));
            let j = choose|j: int| 0 <= j < len - 1 && m[j] == i;
            assert(j != q);
            assert(n[j] == i);
        }
    }
}

} // verus!
