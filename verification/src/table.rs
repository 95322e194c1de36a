//! Tables keyed by hands, and memos of values that were worked out before.
use crate::shoe::{tally_bounds, CardCol, Tally};
use vstd::prelude::*;

verus! {

broadcast use tally_bounds;

/// The bucket of a hand.
spec fn bucket_of(t: Tally) -> int {
    (t[0] + 31 * t[1] + 67 * t[2] + 127 * t[3] + 257 * t[4] + 509 * t[5] + 1033 * t[6] + 2053
        * t[7] + 4099 * t[8] + 8209 * t[9]) as int % 1021
}

fn bucket(hand: &CardCol) -> (r: usize)
    ensures
        r == bucket_of(hand@),
        r < 1021,
{
    let h: u64 = hand.get_count_i(0) as u64 + 31 * (hand.get_count_i(1) as u64) + 67 * (
    hand.get_count_i(2) as u64) + 127 * (hand.get_count_i(3) as u64) + 257 * (hand.get_count_i(
        4,
    ) as u64) + 509 * (hand.get_count_i(5) as u64) + 1033 * (hand.get_count_i(6) as u64) + 2053 * (
    hand.get_count_i(7) as u64) + 4099 * (hand.get_count_i(8) as u64) + 8209 * (hand.get_count_i(
        9,
    ) as u64);
    (h % 1021) as usize
}

/// A value for each of a set of hands, in the order in which the hands were put
/// in.
pub struct HandTable<V> {
    entries: Vec<(CardCol, V)>,
    buckets: Vec<Vec<usize>>,
}

impl<V> HandTable<V> {
    /// Every entry is filed in the bucket of its hand, and no hand occurs
    /// twice.
    pub closed spec fn wf(&self) -> bool {
        &&& self.buckets@.len() == 1021
        &&& forall|b: int, k: int|
            0 <= b < 1021 && 0 <= k < self.buckets@[b]@.len() ==> (#[trigger] self.buckets@[b]@[k])
                < self.entries@.len()
        &&& forall|i: int|
            0 <= i < self.entries@.len() ==> self.buckets@[bucket_of(
                (#[trigger] self.entries@[i]).0@,
            )]@.contains(i as usize)
        &&& forall|i: int, j: int|
            0 <= i < j < self.entries@.len() ==> (#[trigger] self.entries@[i]).0@ != (
            #[trigger] self.entries@[j]).0@
    }

    /// The hands, in the order in which they were put in.
    pub closed spec fn order(&self) -> Seq<Tally> {
        self.entries@.map_values(|e: (CardCol, V)| e.0@)
    }

    /// The value of each hand.
    pub closed spec fn map(&self) -> Map<Tally, V> {
        Map::new(
            |t: Tally| exists|i: int| 0 <= i < self.entries@.len() && #[trigger] self.order()[i] == t,
            |t: Tally|
                self.entries@[choose|i: int|
                    0 <= i < self.entries@.len() && #[trigger] self.order()[i] == t].1,
        )
    }

    /// The order names each hand of the table once, and no other.
    pub proof fn order_names_hands(&self)
        requires
            self.wf(),
        ensures
            self.order().no_duplicates(),
            forall|t: Tally| #[trigger] self.map().contains_key(t) == self.order().contains(t),
            forall|i: int|
                0 <= i < self.order().len() ==> (#[trigger] self.order()[i]).len() == 10
                    && self.map().contains_key(self.order()[i]),
    {
        assert forall|t: Tally| self.order().contains(t) implies #[trigger] self.map().contains_key(
            t,
        ) by {
            let i = self.order().index_of(t);
            assert(self.order()[i] == t);
        }
        assert forall|i: int| 0 <= i < self.order().len() implies (
        #[trigger] self.order()[i]).len() == 10 && self.map().contains_key(self.order()[i]) by {
            assert(self.order().contains(self.order()[i]));
            assert(self.entries@[i].0@.len() == 10);
        }
    }

    proof fn at(&self, i: int)
        requires
            self.wf(),
            0 <= i < self.entries@.len(),
        ensures
            self.map().contains_key(self.entries@[i].0@),
            self.map()[self.entries@[i].0@] == self.entries@[i].1,
    {
        let t = self.entries@[i].0@;
        assert(self.order()[i] == t);
        let j = choose|j: int| 0 <= j < self.entries@.len() && #[trigger] self.order()[j] == t;
        assert(self.entries@[j].0@ == t);
        if i < j {
            assert(self.entries@[i].0@ != self.entries@[j].0@);
        } else if j < i {
            assert(self.entries@[j].0@ != self.entries@[i].0@);
        }
    }

    /// The table without hands.
    pub fn new() -> (r: Self)
        ensures
            r.wf(),
            r.order() == Seq::<Tally>::empty(),
            r.map() == Map::<Tally, V>::empty(),
    {
        let mut buckets: Vec<Vec<usize>> = Vec::new();
        let mut i: usize = 0;
        while i < 1021
            invariant
                i <= 1021,
                buckets@.len() == i,
                forall|b: int| 0 <= b < i ==> (#[trigger] buckets@[b])@.len() == 0,
            decreases 1021 - i,
        {
            buckets.push(Vec::new());
            i += 1;
        }
        let r = HandTable { entries: Vec::new(), buckets };
        assert(r.order() =~= Seq::<Tally>::empty());
        assert(r.map() =~= Map::<Tally, V>::empty());
        r
    }

    /// How many hands the table holds.
    pub fn len(&self) -> (r: usize)
        ensures
            r == self.order().len(),
    {
        self.entries.len()
    }

    /// The hand at a place of the order.
    pub fn hand(&self, i: usize) -> (r: CardCol)
        requires
            i < self.order().len(),
        ensures
            r@ == self.order()[i as int],
    {
        self.entries[i].0
    }

    /// The value of the hand at a place of the order.
    pub fn value(&self, i: usize) -> (r: &V)
        requires
            self.wf(),
            i < self.order().len(),
        ensures
            self.map().contains_key(self.order()[i as int]),
            *r == self.map()[self.order()[i as int]],
    {
        proof {
            self.at(i as int);
        }
        &self.entries[i].1
    }

    fn find(&self, hand: &CardCol) -> (r: Option<usize>)
        requires
            self.wf(),
        ensures
            match r {
                Some(i) => i < self.entries@.len() && self.entries@[i as int].0@ == hand@,
                None => !self.map().contains_key(hand@),
            },
    {
        let b: usize = bucket(hand);
        let n: usize = self.buckets[b].len();
        let held: usize = self.entries.len();
        let mut k: usize = 0;
        while k < n
            invariant
                self.wf(),
                held == self.entries@.len(),
                b == bucket_of(hand@),
                b < 1021,
                n == self.buckets@[b as int]@.len(),
                k <= n,
                forall|j: int|
                    0 <= j < k ==> self.entries@[(
                    #[trigger] self.buckets@[b as int]@[j]) as int].0@ != hand@,
            decreases n - k,
        {
            let i: usize = self.buckets[b][k];
            assert(self.buckets@[b as int]@[k as int] < self.entries@.len());
            if self.entries[i].0.same_cards(hand) {
                return Some(i);
            }
            k += 1;
        }
        proof {
            if self.map().contains_key(hand@) {
                let i = choose|i: int|
                    0 <= i < self.entries@.len() && #[trigger] self.order()[i] == hand@;
                assert(self.entries@[i].0@ == hand@);
                assert(self.buckets@[bucket_of(self.entries@[i].0@)]@.contains(i as usize));
                let j = self.buckets@[b as int]@.index_of(i as usize);
                assert(self.buckets@[b as int]@[j] == i as usize);
            }
        }
        None
    }

    /// The value of a hand, if the table holds it.
    pub fn get(&self, hand: &CardCol) -> (r: Option<&V>)
        requires
            self.wf(),
        ensures
            match r {
                Some(v) => self.map().contains_key(hand@) && *v == self.map()[hand@],
                None => !self.map().contains_key(hand@),
            },
    {
        match self.find(hand) {
            Some(i) => {
                proof {
                    self.at(i as int);
                }
                Some(&self.entries[i].1)
            },
            None => None,
        }
    }

    /// Give a hand a value, in place of the one it had.
    pub fn insert(&mut self, hand: CardCol, v: V)
        requires
            old(self).wf(),
        ensures
            final(self).wf(),
            final(self).map() == old(self).map().insert(hand@, v),
            final(self).order() == if old(self).map().contains_key(hand@) {
                old(self).order()
            } else {
                old(self).order().push(hand@)
            },
    {
        match self.find(&hand) {
            Some(i) => {
                proof {
                    self.at(i as int);
                }
                self.entries.set(i, (hand, v));
                proof {
                    assert forall|j: int| 0 <= j < self.entries@.len() implies (
                    #[trigger] self.entries@[j]).0@ == old(self).entries@[j].0@ by {}
                    assert(self.order() =~= old(self).order());
                    self.same_map(*old(self), hand, v);
                }
            },
            None => {
                let b: usize = bucket(&hand);
                let i: usize = self.entries.len();
                self.entries.push((hand, v));
                self.buckets[b].push(i);
                proof {
                    let was = old(self).buckets@[b as int]@;
                    assert(self.buckets@[b as int]@ == was.push(i));
                    assert forall|c: int, k: int|
                        0 <= c < 1021 && 0 <= k < self.buckets@[c]@.len() implies (
                    #[trigger] self.buckets@[c]@[k]) < self.entries@.len() by {
                        if c != b {
                            assert(self.buckets@[c] == old(self).buckets@[c]);
                            assert(old(self).buckets@[c]@[k] < old(self).entries@.len());
                        } else if k < was.len() {
                            assert(old(self).buckets@[c]@[k] < old(self).entries@.len());
                        }
                    }
                    assert forall|j: int| 0 <= j < self.entries@.len() implies self.buckets@[
                    bucket_of((#[trigger] self.entries@[j]).0@)]@.contains(j as usize) by {
                        if j < i {
                            let e = old(self).entries@[j];
                            assert(self.entries@[j] == e);
                            let c = bucket_of(e.0@);
                            let k = old(self).buckets@[c]@.index_of(j as usize);
                            assert(old(self).buckets@[c]@.contains(j as usize));
                            assert(self.buckets@[c]@[k] == j as usize);
                        } else {
                            assert(self.buckets@[b as int]@[was.len() as int] == i);
                        }
                    }
                    assert forall|j: int, k: int| 0 <= j < k < self.entries@.len() implies (
                    #[trigger] self.entries@[j]).0@ != (#[trigger] self.entries@[k]).0@ by {
                        if k == i {
                            assert(old(self).order()[j] == self.entries@[j].0@);
                            assert(!old(self).map().contains_key(hand@));
                        }
                    }
                    assert(self.order() =~= old(self).order().push(hand@));
                    assert(self.entries@[i as int] == (hand, v));
                    self.same_map(*old(self), hand, v);
                }
            },
        }
    }

    /// A table with one entry more or other than another has the map with that
    /// entry put in.
    proof fn same_map(&self, before: Self, hand: CardCol, v: V)
        requires
            self.wf(),
            before.wf(),
            forall|j: int|
                0 <= j < before.entries@.len() ==> j < self.entries@.len()
                    && self.entries@[j].0@ == (#[trigger] before.entries@[j]).0@
                    && (self.entries@[j].0@ != hand@ ==> self.entries@[j].1
                    == before.entries@[j].1),
            forall|j: int|
                before.entries@.len() <= j < self.entries@.len() ==> (
                #[trigger] self.entries@[j]).0@ == hand@,
            exists|j: int|
                0 <= j < self.entries@.len() && #[trigger] self.entries@[j] == (hand, v),
        ensures
            self.map() == before.map().insert(hand@, v),
    {
        let m = self.map();
        let w = before.map().insert(hand@, v);
        let at = choose|j: int|
            0 <= j < self.entries@.len() && #[trigger] self.entries@[j] == (hand, v);
        self.at(at);
        assert forall|t: Tally| #[trigger] m.contains_key(t) == w.contains_key(t) by {
            if m.contains_key(t) && t != hand@ {
                let j = choose|j: int|
                    0 <= j < self.entries@.len() && #[trigger] self.order()[j] == t;
                assert(self.entries@[j].0@ == t);
                assert(before.order()[j] == t);
            }
            if before.map().contains_key(t) {
                let j = choose|j: int|
                    0 <= j < before.entries@.len() && #[trigger] before.order()[j] == t;
                assert(before.entries@[j].0@ == t);
                assert(self.order()[j] == t);
            }
        }
        assert forall|t: Tally| #[trigger] m.contains_key(t) implies m[t] == w[t] by {
            if t != hand@ {
                let j = choose|j: int|
                    0 <= j < self.entries@.len() && #[trigger] self.order()[j] == t;
                assert(self.entries@[j].0@ == t);
                self.at(j);
                before.at(j);
            }
        }
        assert(m =~= w);
    }
}

/// Something that values can be filed under. Contracts speak of its `id`.
pub trait MemoKey: Sized {
    type Id;

    spec fn id(&self) -> Self::Id;

    /// The number that keys with this id are filed under.
    spec fn slot_of(id: Self::Id) -> usize;

    /// Whether two keys have the same id.
    fn same_key(&self, other: &Self) -> (r: bool)
        ensures
            r == (self.id() == other.id()),
    ;

    /// The number that the key is filed under.
    fn key_slot(&self) -> (r: usize)
        ensures
            r == Self::slot_of(self.id()),
    ;
}

/// Values that were worked out before, each filed under a key.
pub struct Memo<K: MemoKey, V> {
    buckets: Vec<Vec<(K, V)>>,
}

impl<K: MemoKey, V> Memo<K, V> {
    /// Every entry is in the bucket of its key, and no key occurs twice.
    pub closed spec fn wf(&self) -> bool {
        &&& self.buckets@.len() > 0
        &&& forall|b: int, i: int|
            0 <= b < self.buckets@.len() && 0 <= i < self.buckets@[b]@.len() ==> self.home(
                (#[trigger] self.buckets@[b]@[i]).0.id(),
            ) == b
        &&& forall|b: int, i: int, j: int|
            0 <= b < self.buckets@.len() && 0 <= i < j < self.buckets@[b]@.len() ==> (
            #[trigger] self.buckets@[b]@[i]).0.id() != (#[trigger] self.buckets@[b]@[j]).0.id()
    }

    /// The bucket of a key.
    spec fn home(&self, id: K::Id) -> int {
        K::slot_of(id) as int % self.buckets@.len() as int
    }

    /// Whether the entry at a place of its bucket is that of a key.
    spec fn is_at(&self, id: K::Id, i: int) -> bool {
        0 <= i < self.buckets@[self.home(id)]@.len() && self.buckets@[self.home(id)]@[i].0.id()
            == id
    }

    /// The value that is filed under each key.
    pub closed spec fn map(&self) -> Map<K::Id, V> {
        Map::new(
            |id: K::Id| exists|i: int| #[trigger] self.is_at(id, i),
            |id: K::Id|
                self.buckets@[self.home(id)]@[choose|i: int| #[trigger] self.is_at(id, i)].1,
        )
    }

    /// Whether the value is filed under the key with this id.
    pub open spec fn has(&self, id: K::Id, v: V) -> bool {
        self.map().contains_key(id) && self.map()[id] == v
    }

    /// An entry is what its key maps to.
    proof fn found(&self, id: K::Id, i: int)
        requires
            self.wf(),
            self.is_at(id, i),
        ensures
            self.map().contains_key(id),
            self.map()[id] == self.buckets@[self.home(id)]@[i].1,
    {
        let b = self.home(id);
        assert(0 <= b < self.buckets@.len()) by (nonlinear_arith)
            requires
                b == K::slot_of(id) as int % self.buckets@.len() as int,
                self.buckets@.len() > 0,
        ;
        let j = choose|j: int| #[trigger] self.is_at(id, j);
        if i < j {
            assert(self.buckets@[b]@[i].0.id() != self.buckets@[b]@[j].0.id());
        } else if j < i {
            assert(self.buckets@[b]@[j].0.id() != self.buckets@[b]@[i].0.id());
        }
    }

    /// The empty memo, with so many buckets, and one at least.
    pub fn new(buckets: usize) -> (r: Self)
        ensures
            r.wf(),
            r.map() == Map::<K::Id, V>::empty(),
    {
        let n: usize = if buckets == 0 {
            1
        } else {
            buckets
        };
        let mut out: Vec<Vec<(K, V)>> = Vec::new();
        let mut i: usize = 0;
        while i < n
            invariant
                i <= n,
                out@.len() == i,
                forall|b: int| 0 <= b < out@.len() ==> (#[trigger] out@[b])@.len() == 0,
            decreases n - i,
        {
            out.push(Vec::new());
            i += 1;
        }
        let r = Memo { buckets: out };
        proof {
            assert forall|id: K::Id| !(#[trigger] r.map().contains_key(id)) by {
                let b = r.home(id);
                assert(0 <= b < r.buckets@.len()) by (nonlinear_arith)
                    requires
                        b == K::slot_of(id) as int % r.buckets@.len() as int,
                        r.buckets@.len() > 0,
                ;
                assert(r.buckets@[b]@.len() == 0);
            }
            assert(r.map() =~= Map::<K::Id, V>::empty());
        }
        r
    }

    /// The place of a key in its bucket, or the length of the bucket where it is not there.
    fn place(&self, key: &K) -> (r: (usize, usize))
        requires
            self.wf(),
        ensures
            r.0 == self.home(key.id()),
            r.0 < self.buckets@.len(),
            r.1 <= self.buckets@[r.0 as int]@.len(),
            r.1 < self.buckets@[r.0 as int]@.len() ==> self.is_at(key.id(), r.1 as int),
            r.1 == self.buckets@[r.0 as int]@.len() ==> forall|i: int|
                !(#[trigger] self.is_at(key.id(), i)),
    {
        let b: usize = key.key_slot() % self.buckets.len();
        let m: usize = self.buckets[b].len();
        let mut i: usize = 0;
        while i < m
            invariant
                b < self.buckets@.len(),
                b == self.home(key.id()),
                m == self.buckets@[b as int]@.len(),
                i <= m,
                forall|j: int| 0 <= j < i ==> !(#[trigger] self.is_at(key.id(), j)),
            decreases m - i,
        {
            if self.buckets[b][i].0.same_key(key) {
                assert(self.is_at(key.id(), i as int));
                return (b, i);
            }
            i += 1;
        }
        (b, m)
    }

    /// The value that is filed under this key, if there is one.
    pub fn get(&self, key: &K) -> (r: Option<&V>)
        requires
            self.wf(),
        ensures
            match r {
                Some(v) => self.has(key.id(), *v),
                None => !self.map().contains_key(key.id()),
            },
    {
        let (b, i) = self.place(key);
        if i < self.buckets[b].len() {
            proof {
                self.found(key.id(), i as int);
            }
            Some(&self.buckets[b][i].1)
        } else {
            None
        }
    }

    /// File a value under a key, in place of the one that was there.
    pub fn insert(&mut self, key: K, v: V)
        requires
            old(self).wf(),
        ensures
            final(self).wf(),
            final(self).map() == old(self).map().insert(key.id(), v),
            forall|id: K::Id, w: V| #[trigger]
                final(self).has(id, w) == if id == key.id() {
                    w == v
                } else {
                    old(self).has(id, w)
                },
    {
        let (b, i) = self.place(&key);
        if i < self.buckets[b].len() {
            self.buckets[b].set(i, (key, v));
        } else {
            self.buckets[b].push((key, v));
        }
        proof {
            self.filed(*old(self), key, v, b as int, i as int);
        }
    }

    /// A memo with one entry more or other than another has the map with that entry put in.
    proof fn filed(&self, before: Self, key: K, v: V, b: int, i: int)
        requires
            before.wf(),
            b == before.home(key.id()),
            0 <= b < before.buckets@.len(),
            0 <= i <= before.buckets@[b]@.len(),
            i < before.buckets@[b]@.len() ==> before.is_at(key.id(), i),
            i == before.buckets@[b]@.len() ==> forall|j: int|
                !(#[trigger] before.is_at(key.id(), j)),
            self.buckets@.len() == before.buckets@.len(),
            forall|c: int|
                0 <= c < before.buckets@.len() && c != b ==> #[trigger] self.buckets@[c]
                    == before.buckets@[c],
            self.buckets@[b]@ == if i < before.buckets@[b]@.len() {
                before.buckets@[b]@.update(i, (key, v))
            } else {
                before.buckets@[b]@.push((key, v))
            },
        ensures
            self.wf(),
            self.map() == before.map().insert(key.id(), v),
    {
        let was = before.buckets@[b]@;
        let now = self.buckets@[b]@;
        assert(forall|id: K::Id| #[trigger] self.home(id) == before.home(id));
        assert(forall|j: int| 0 <= j < was.len() && j != i ==> #[trigger] now[j] == was[j]);
        assert(now[i] == (key, v));
        assert forall|c: int, j: int|
            0 <= c < self.buckets@.len() && 0 <= j < self.buckets@[c]@.len() implies self.home(
            (#[trigger] self.buckets@[c]@[j]).0.id(),
        ) == c by {
            if c != b {
                assert(self.buckets@[c] == before.buckets@[c]);
                assert(before.home(before.buckets@[c]@[j].0.id()) == c);
            } else if j != i {
                assert(now[j] == was[j]);
                assert(before.home(before.buckets@[c]@[j].0.id()) == c);
            }
        }
        assert forall|c: int, j: int, k: int|
            0 <= c < self.buckets@.len() && 0 <= j < k < self.buckets@[c]@.len() implies (
        #[trigger] self.buckets@[c]@[j]).0.id() != (#[trigger] self.buckets@[c]@[k]).0.id() by {
            if c != b {
                assert(self.buckets@[c] == before.buckets@[c]);
                assert(before.buckets@[c]@[j].0.id() != before.buckets@[c]@[k].0.id());
            } else if i < was.len() {
                assert(was[i].0.id() == key.id());
                assert(before.buckets@[c]@[j].0.id() != before.buckets@[c]@[k].0.id());
                assert(now[j].0.id() == was[j].0.id() && now[k].0.id() == was[k].0.id());
            } else if k == i {
                assert(!before.is_at(key.id(), j));
                assert(now[j] == was[j]);
            } else {
                assert(before.buckets@[c]@[j].0.id() != before.buckets@[c]@[k].0.id());
                assert(now[j] == was[j] && now[k] == was[k]);
            }
        }
        assert(self.wf());
        let m = self.map();
        let w = before.map().insert(key.id(), v);
        assert(self.is_at(key.id(), i));
        self.found(key.id(), i);
        assert forall|id: K::Id| #[trigger] m.contains_key(id) == w.contains_key(id) && (
        m.contains_key(id) ==> m[id] == w[id]) by {
            if id != key.id() {
                let c = self.home(id);
                assert(0 <= c < self.buckets@.len()) by (nonlinear_arith)
                    requires
                        c == K::slot_of(id) as int % self.buckets@.len() as int,
                        self.buckets@.len() > 0,
                ;
                assert forall|j: int| #[trigger] self.is_at(id, j) == before.is_at(id, j) by {
                    if c == b {
                        if j == i && i < was.len() {
                            assert(was[i].0.id() == key.id());
                        }
                    } else {
                        assert(self.buckets@[c] == before.buckets@[c]);
                    }
                }
                if m.contains_key(id) {
                    let j = choose|j: int| #[trigger] self.is_at(id, j);
                    assert(before.is_at(id, j));
                    self.found(id, j);
                    before.found(id, j);
                    if c == b {
                        assert(j != i);
                        assert(now[j] == was[j]);
                    } else {
                        assert(self.buckets@[c] == before.buckets@[c]);
                    }
                }
                if before.map().contains_key(id) {
                    let j = choose|j: int| #[trigger] before.is_at(id, j);
                    assert(self.is_at(id, j));
                }
            }
        }
        assert(m =~= w);
    }
}

impl MemoKey for CardCol {
    type Id = Tally;

    open spec fn id(&self) -> Tally {
        self@
    }

    closed spec fn slot_of(id: Tally) -> usize {
        bucket_of(id) as usize
    }

    fn same_key(&self, other: &Self) -> (r: bool) {
        self.same_cards(other)
    }

    fn key_slot(&self) -> (r: usize) {
        bucket(self)
    }
}

} // verus!
