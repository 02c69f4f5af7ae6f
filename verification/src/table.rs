//! Tables: values found by key, and walked in a fixed order.
use crate::slots;
use vstd::prelude::*;

verus! {

/// What a table holds: its keys in the order in which they are walked, and the value of each.
#[verifier::reject_recursive_types(K)]
#[verifier::ext_equal]
pub struct Listing<K, V> {
    pub order: Seq<K>,
    pub entries: Map<K, V>,
}

impl<K, V> Listing<K, V> {
    /// The order walks every key once.
    pub open spec fn wf(self) -> bool {
        &&& self.order.no_duplicates()
        &&& forall|k: K| #[trigger] self.entries.contains_key(k) <==> self.order.contains(k)
    }

    /// The table without entries.
    pub open spec fn none() -> Self {
        Listing { order: Seq::empty(), entries: Map::empty() }
    }

    /// Whether `k` has a value.
    pub open spec fn has(self, k: K) -> bool {
        self.entries.contains_key(k)
    }

    /// The value of `k`.
    pub open spec fn at(self, k: K) -> V {
        self.entries[k]
    }

    /// The table after `v` was stored under `k`: a key that was there keeps its place, a new one
    /// comes last.
    pub open spec fn put(self, k: K, v: V) -> Self {
        Listing {
            order: if self.has(k) {
                self.order
            } else {
                self.order.push(k)
            },
            entries: self.entries.insert(k, v),
        }
    }

    /// The table after `k` was taken out: the last key moves to its place.
    pub open spec fn drop(self, k: K) -> Self {
        if self.has(k) {
            Listing {
                order: self.order.update(self.order.index_of(k), self.order.last()).drop_last(),
                entries: self.entries.remove(k),
            }
        } else {
            self
        }
    }

    /// The table after `k` was taken out: the other keys stay in their order.
    pub open spec fn cut(self, k: K) -> Self {
        if self.has(k) {
            Listing {
                order: self.order.remove(self.order.index_of(k)),
                entries: self.entries.remove(k),
            }
        } else {
            self
        }
    }
}

/// A key under which a table can find values.
pub trait SlotKey: DeepView + Sized {
    /// The hash map from keys to positions.
    type Slots;

    /// The positions that a hash map holds.
    spec fn slots(s: Self::Slots) -> Map<Self::V, usize>;

    /// A hash map without entries.
    fn no_slots() -> (s: Self::Slots)
        ensures
            Self::slots(s) == Map::<Self::V, usize>::empty(),
    ;

    /// The position stored under `self`.
    fn slot(&self, s: &Self::Slots) -> (r: Option<usize>)
        ensures
            r == Self::slots(*s).get(self.deep_view()),
    ;

    /// Stores `slot` under `self`.
    fn put_slot(&self, s: &mut Self::Slots, slot: usize)
        ensures
            Self::slots(*final(s)) == Self::slots(*old(s)).insert(self.deep_view(), slot),
    ;

    /// Takes the entry of `self` out.
    fn drop_slot(&self, s: &mut Self::Slots)
        ensures
            Self::slots(*final(s)) == Self::slots(*old(s)).remove(self.deep_view()),
    ;
}

impl SlotKey for String {
    type Slots = dashmap::DashMap<String, usize>;

    open spec fn slots(s: Self::Slots) -> Map<Seq<char>, usize> {
        slots::text_slots(s)
    }

    fn no_slots() -> (s: Self::Slots) {
        let s = slots::new_text_slots();
        assert(slots::text_slots(s) =~= Map::<Seq<char>, usize>::empty());
        s
    }

    fn slot(&self, s: &Self::Slots) -> (r: Option<usize>) {
        slots::get_text_slot(s, self)
    }

    fn put_slot(&self, s: &mut Self::Slots, slot: usize) {
        slots::put_text_slot(s, self.clone(), slot)
    }

    fn drop_slot(&self, s: &mut Self::Slots) {
        slots::drop_text_slot(s, self)
    }
}

/// Values of type `V`, found by keys of type `K`.
#[verifier::reject_recursive_types(K)]
pub struct Table<K: SlotKey, V: DeepView> {
    slots: K::Slots,
    rows: Vec<(K, V)>,
}

impl<K: SlotKey, V: DeepView> View for Table<K, V> {
    type V = Listing<K::V, V::V>;

    closed spec fn view(&self) -> Listing<K::V, V::V> {
        Listing {
            order: Seq::new(self.rows@.len(), |i: int| self.rows@[i].0.deep_view()),
            entries: Map::new(
                |k: K::V| K::slots(self.slots).contains_key(k),
                |k: K::V| self.rows@[K::slots(self.slots)[k] as int].1.deep_view(),
            ),
        }
    }
}

impl<K: SlotKey, V: DeepView> Table<K, V> {
    /// Every key of the hash map leads to its row, and every row is found by its key.
    pub closed spec fn wf(&self) -> bool {
        &&& forall|i: int|
            0 <= i < self.rows@.len() ==> K::slots(self.slots).contains_key(
                (#[trigger] self.rows@[i]).0.deep_view(),
            ) && K::slots(self.slots)[self.rows@[i].0.deep_view()] == i
        &&& forall|k: K::V| #[trigger]
            K::slots(self.slots).contains_key(k) ==> K::slots(self.slots)[k] < self.rows@.len()
                && self.rows@[K::slots(self.slots)[k] as int].0.deep_view() == k
    }

    /// A table that is intact walks every key once.
    pub proof fn lemma_listing(&self)
        requires
            self.wf(),
        ensures
            self@.wf(),
    {
        let l = self@;
        assert forall|k: K::V| #[trigger] l.entries.contains_key(k) implies l.order.contains(k) by {
            assert(l.order[K::slots(self.slots)[k] as int] == k);
        }
        assert forall|k: K::V| l.order.contains(k) implies #[trigger] l.entries.contains_key(k) by {
            let i = l.order.index_of(k);
            assert(self.rows@[i].0.deep_view() == k);
        }
        assert forall|i: int, j: int| 0 <= i < j < l.order.len() implies l.order[i] != l.order[j] by {
            assert(K::slots(self.slots)[self.rows@[i].0.deep_view()] == i);
            assert(K::slots(self.slots)[self.rows@[j].0.deep_view()] == j);
        }
    }

    /// A table without entries.
    pub fn new() -> (r: Self)
        ensures
            r.wf(),
            r@ == Listing::<K::V, V::V>::none(),
    {
        let r = Table { slots: K::no_slots(), rows: Vec::new() };
        assert(r@ =~= Listing::<K::V, V::V>::none());
        r
    }

    /// The number of entries.
    pub fn len(&self) -> (r: usize)
        requires
            self.wf(),
        ensures
            r == self@.order.len(),
    {
        self.rows.len()
    }

    /// The value stored under `key`.
    pub fn get(&self, key: &K) -> (r: Option<&V>)
        requires
            self.wf(),
        ensures
            match r {
                Some(v) => self@.has(key.deep_view()) && v.deep_view() == self@.at(key.deep_view()),
                None => !self@.has(key.deep_view()),
            },
    {
        match key.slot(&self.slots) {
            Some(i) => Some(&self.rows[i].1),
            None => None,
        }
    }

    /// The key at position `i` of the walk.
    pub fn key_at(&self, i: usize) -> (r: &K)
        requires
            self.wf(),
            i < self@.order.len(),
        ensures
            r.deep_view() == self@.order[i as int],
    {
        &self.rows[i].0
    }

    /// The value at position `i` of the walk.
    pub fn value_at(&self, i: usize) -> (r: &V)
        requires
            self.wf(),
            i < self@.order.len(),
        ensures
            self@.has(self@.order[i as int]),
            r.deep_view() == self@.at(self@.order[i as int]),
    {
        &self.rows[i].1
    }

    /// Stores `value` under `key` and hands back the value that it replaces.
    pub fn insert(&mut self, key: K, value: V) -> (r: Option<V>)
        requires
            old(self).wf(),
        ensures
            final(self).wf(),
            final(self)@ == old(self)@.put(key.deep_view(), value.deep_view()),
            match r {
                Some(v) => old(self)@.has(key.deep_view()) && v.deep_view() == old(self)@.at(
                    key.deep_view(),
                ),
                None => !old(self)@.has(key.deep_view()),
            },
    {
        let ghost before = self@;
        let ghost k = key.deep_view();
        proof {
            self.lemma_listing();
        }
        match key.slot(&self.slots) {
            Some(i) => {
                let mut row = (key, value);
                std::mem::swap(&mut self.rows[i], &mut row);
                assert(self@.order =~= before.put(k, value.deep_view()).order);
                assert(self@.entries =~= before.put(k, value.deep_view()).entries);
                Some(row.1)
            },
            None => {
                let n: usize = self.rows.len();
                key.put_slot(&mut self.slots, n);
                self.rows.push((key, value));
                assert(self@.order =~= before.put(k, value.deep_view()).order);
                assert(self@.entries =~= before.put(k, value.deep_view()).entries);
                None
            },
        }
    }

    /// Takes the value stored under `key` out.
    pub fn remove(&mut self, key: &K) -> (r: Option<V>)
        requires
            old(self).wf(),
        ensures
            final(self).wf(),
            final(self)@ == old(self)@.drop(key.deep_view()),
            match r {
                Some(v) => old(self)@.has(key.deep_view()) && v.deep_view() == old(self)@.at(
                    key.deep_view(),
                ),
                None => !old(self)@.has(key.deep_view()),
            },
    {
        let ghost before = self@;
        let ghost k = key.deep_view();
        proof {
            self.lemma_listing();
        }
        match key.slot(&self.slots) {
            Some(i) => {
                let ghost rows = self.rows@;
                key.drop_slot(&mut self.slots);
                let row = self.rows.swap_remove(i);
                if i < self.rows.len() {
                    self.rows[i].0.put_slot(&mut self.slots, i);
                }
                assert(before.order[i as int] == k);
                assert(before.order.index_of(k) == i);
                assert(self@.order =~= before.drop(k).order);
                assert(self@.entries =~= before.drop(k).entries);
                Some(row.1)
            },
            None => None,
        }
    }

    /// Takes the value stored under `key` out and keeps the others in their order.
    pub fn remove_in_order(&mut self, key: &K)
        requires
            old(self).wf(),
        ensures
            final(self).wf(),
            final(self)@ == old(self)@.cut(key.deep_view()),
    {
        let ghost before = self@;
        let ghost k = key.deep_view();
        proof {
            self.lemma_listing();
        }
        let i: usize = match key.slot(&self.slots) {
            Some(i) => i,
            None => return,
        };
        let ghost rows = self.rows@;
        let ghost slots = K::slots(self.slots);
        assert forall|r: int, t: int| 0 <= r < t < rows.len() implies rows[r].0.deep_view()
            != rows[t].0.deep_view() by {
            assert(slots[rows[r].0.deep_view()] == r);
            assert(slots[rows[t].0.deep_view()] == t);
        }
        key.drop_slot(&mut self.slots);
        self.rows.remove(i);
        let ghost left = self.rows@;
        assert(left =~= rows.remove(i as int));
        assert forall|r: int| 0 <= r < left.len() implies (#[trigger] left[r]) == rows[if r < i {
            r
        } else {
            r + 1
        }] by {}
        let n: usize = self.rows.len();
        for j in i..n
            invariant
                i <= j <= n,
                n == left.len(),
                left == self.rows@,
                rows.len() == n + 1,
                i < rows.len(),
                rows[i as int].0.deep_view() == k,
                forall|r: int|
                    0 <= r < left.len() ==> (#[trigger] left[r]) == rows[if r < i {
                        r
                    } else {
                        r + 1
                    }],
                forall|r: int, t: int|
                    0 <= r < t < rows.len() ==> (#[trigger] rows[r]).0.deep_view() != (#[trigger] rows[t]).0.deep_view(),
                forall|r: int|
                    0 <= r < rows.len() ==> slots.contains_key((#[trigger] rows[r]).0.deep_view())
                        && slots[rows[r].0.deep_view()] == r,
                forall|q: K::V| #[trigger]
                    slots.contains_key(q) ==> slots[q] < rows.len() && rows[slots[q] as int].0.deep_view() == q,
                forall|q: K::V| #[trigger]
                    K::slots(self.slots).contains_key(q) <==> slots.contains_key(q) && q != k,
                forall|q: K::V| #[trigger]
                    K::slots(self.slots).contains_key(q) ==> K::slots(self.slots)[q] == (if i < slots[q]
                        && slots[q] <= j {
                        slots[q] - 1
                    } else {
                        slots[q] as int
                    }),
        {
            assert(left[j as int] == rows[j + 1]);
            self.rows[j].0.put_slot(&mut self.slots, j);
        }
        proof {
            assert(before.order[i as int] == k);
            assert(before.order.index_of(k) == i);
            assert forall|r: int| 0 <= r < left.len() implies K::slots(self.slots).contains_key(
                (#[trigger] left[r]).0.deep_view(),
            ) && K::slots(self.slots)[left[r].0.deep_view()] == r by {
                let t = if r < i {
                    r
                } else {
                    r + 1
                };
                assert(left[r] == rows[t]);
                let q = rows[t].0.deep_view();
                assert(slots.contains_key(q) && slots[q] == t);
                assert(rows[i as int].0.deep_view() != q);
                assert(K::slots(self.slots).contains_key(q));
            }
            assert forall|q: K::V| #[trigger] K::slots(self.slots).contains_key(q) implies K::slots(
                self.slots,
            )[q] < left.len() && left[K::slots(self.slots)[q] as int] == rows[slots[q] as int] by {
                assert(slots.contains_key(q));
                assert(slots[q] != i);
            }
            assert(self@.order =~= before.cut(k).order);
            assert(self@.entries =~= before.cut(k).entries);
        }
    }
}

} // verus!
