//! Small verified collections keyed by 64-bit identifiers.
//!
//! `IdSet` is a set of identifiers and `IdMap` an association from identifiers
//! to values, both backed by vectors whose keys are kept distinct. Their views
//! are the mathematical `Set` and `Map` the rest of the library's contracts
//! speak of.

use vstd::prelude::*;

verus! {

/// A finite set of 64-bit identifiers. View: `Set<u64>`.
pub struct IdSet {
    items: Vec<u64>,
}

impl View for IdSet {
    type V = Set<u64>;

    closed spec fn view(&self) -> Set<u64> {
        self.items@.to_set()
    }
}

impl IdSet {
    /// The members in insertion order; distinct when well-formed.
    pub closed spec fn seq(&self) -> Seq<u64> {
        self.items@
    }

    pub closed spec fn wf(&self) -> bool {
        self.items@.no_duplicates()
    }

    /// Relates the set view to the underlying sequence of members.
    pub proof fn lemma_view(&self)
        requires
            self.wf(),
        ensures
            self.seq().no_duplicates(),
            self@ == self.seq().to_set(),
            self@.finite(),
            self@.len() == self.seq().len(),
            forall|i: int| 0 <= i < self.seq().len() ==> self@.contains(#[trigger] self.seq()[i]),
    {
        self.items@.unique_seq_to_set();
        assert forall|i: int| 0 <= i < self.seq().len() implies self@.contains(
            #[trigger] self.seq()[i],
        ) by {
            assert(self.items@.contains(self.items@[i]));
        }
    }

    pub fn new() -> (r: Self)
        ensures
            r.wf(),
            r@ == Set::<u64>::empty(),
            r.seq() == Seq::<u64>::empty(),
    {
        let r = IdSet { items: Vec::new() };
        proof {
            assert(r.items@.to_set() =~= Set::<u64>::empty());
        }
        r
    }

    pub fn len(&self) -> (r: usize)
        requires
            self.wf(),
        ensures
            r == self@.len(),
            r == self.seq().len(),
    {
        proof {
            self.lemma_view();
        }
        self.items.len()
    }

    pub fn is_empty(&self) -> (r: bool)
        requires
            self.wf(),
        ensures
            r == self@.is_empty(),
    {
        proof {
            self.lemma_view();
            if self.items@.len() == 0 {
                assert(self@ =~= Set::<u64>::empty());
            }
        }
        self.items.len() == 0
    }

    pub fn contains(&self, v: u64) -> (r: bool)
        ensures
            r == self@.contains(v),
    {
        let n = self.items.len();
        for i in 0..n
            invariant
                n == self.items@.len(),
                forall|j: int| 0 <= j < i ==> self.items@[j] != v,
        {
            if self.items[i] == v {
                assert(self.items@.contains(v));
                return true;
            }
        }
        assert(!self.items@.contains(v));
        false
    }

    /// Adds a member; a value already present leaves the set unchanged.
    pub fn insert(&mut self, v: u64)
        requires
            old(self).wf(),
        ensures
            final(self).wf(),
            final(self)@ == old(self)@.insert(v),
            old(self)@.contains(v) ==> final(self).seq() == old(self).seq(),
            !old(self)@.contains(v) ==> final(self).seq() == old(self).seq().push(v),
    {
        if !self.contains(v) {
            self.items.push(v);
            proof {
                assert(self.items@.drop_last() =~= old(self).items@);
                old(self).items@.lemma_push_to_set_commute(v);
            }
        } else {
            proof {
                assert(self.items@.to_set() =~= old(self).items@.to_set().insert(v));
            }
        }
    }

    /// Removes a member; a value not present leaves the set unchanged.
    pub fn remove(&mut self, v: u64)
        requires
            old(self).wf(),
        ensures
            final(self).wf(),
            final(self)@ == old(self)@.remove(v),
    {
        let n = self.items.len();
        for i in 0..n
            invariant
                self == old(self),
                self.wf(),
                n == self.items@.len(),
                forall|j: int| 0 <= j < i ==> self.items@[j] != v,
        {
            if self.items[i] == v {
                self.items.remove(i);
                proof {
                    let s = old(self).items@;
                    let t = s.remove(i as int);
                    assert(self.items@ == t);
                    s.remove_ensures(i as int);
                    assert forall|p: int, q: int|
                        0 <= p < t.len() && 0 <= q < t.len() && p != q implies t[p] != t[q] by {
                        let sp: int = if p < i { p } else { p + 1 };
                        let sq: int = if q < i { q } else { q + 1 };
                        assert(t[p] == s[sp]);
                        assert(t[q] == s[sq]);
                        assert(sp != sq);
                        assert(s[sp] != s[sq]);
                    }
                    assert(t.no_duplicates());
                    assert forall|x: u64| t.to_set().contains(x) implies s.to_set().remove(
                        v,
                    ).contains(x) by {
                        let j = choose|j: int| 0 <= j < t.len() && t[j] == x;
                        let sj: int = if j < i { j } else { j + 1 };
                        assert(t[j] == s[sj]);
                        assert(sj != i);
                        assert(s[sj] != s[i as int]);
                        assert(s.contains(x));
                    }
                    assert forall|x: u64| s.to_set().remove(v).contains(x) implies t.to_set()
                        .contains(x) by {
                        let j = choose|j: int| 0 <= j < s.len() && s[j] == x;
                        assert(j != i);
                        if j < i {
                            assert(t[j] == s[j]);
                        } else {
                            assert(t[j - 1] == s[j]);
                        }
                        assert(t.contains(x));
                    }
                    assert(self.items@.to_set() =~= s.to_set().remove(v));
                }
                return ;
            }
        }
        proof {
            assert(!self.items@.contains(v));
            assert(self.items@.to_set() =~= old(self).items@.to_set().remove(v));
        }
    }

    /// Removes every member.
    pub fn clear(&mut self)
        ensures
            final(self).wf(),
            final(self)@ == Set::<u64>::empty(),
    {
        self.items.clear();
        proof {
            assert(self.items@.to_set() =~= Set::<u64>::empty());
        }
    }

    /// The member at a position, for iteration.
    pub fn get_at(&self, i: usize) -> (r: u64)
        requires
            self.wf(),
            i < self.seq().len(),
        ensures
            r == self.seq()[i as int],
            self@.contains(r),
    {
        proof {
            self.lemma_view();
        }
        self.items[i]
    }

    /// Adds every listed member.
    pub fn insert_all(&mut self, vs: &Vec<u64>)
        requires
            old(self).wf(),
        ensures
            final(self).wf(),
            final(self)@ == old(self)@.union(vs@.to_set()),
    {
        let m = vs.len();
        proof {
            assert(vs@.subrange(0, 0).to_set() =~= Set::<u64>::empty());
            assert(old(self)@.union(Set::<u64>::empty()) =~= old(self)@);
        }
        for i in 0..m
            invariant
                m == vs@.len(),
                self.wf(),
                self@ == old(self)@.union(vs@.subrange(0, i as int).to_set()),
        {
            self.insert(vs[i]);
            proof {
                assert(vs@.subrange(0, i + 1) =~= vs@.subrange(0, i as int).push(vs@[i as int]));
                vs@.subrange(0, i as int).lemma_push_to_set_commute(vs@[i as int]);
                assert(self@ =~= old(self)@.union(vs@.subrange(0, i + 1).to_set()));
            }
        }
        proof {
            assert(vs@.subrange(0, m as int) =~= vs@);
        }
    }

    /// A copy of this set.
    pub fn duplicate(&self) -> (r: Self)
        requires
            self.wf(),
        ensures
            r.wf(),
            r@ == self@,
            r.seq() == self.seq(),
    {
        IdSet { items: self.to_vec() }
    }

    /// The members as a vector, in insertion order.
    pub fn to_vec(&self) -> (r: Vec<u64>)
        requires
            self.wf(),
        ensures
            r@ == self.seq(),
            r@.no_duplicates(),
            r@.to_set() == self@,
    {
        let n = self.items.len();
        let mut r: Vec<u64> = Vec::new();
        for i in 0..n
            invariant
                n == self.items@.len(),
                r@ == self.items@.subrange(0, i as int),
        {
            r.push(self.items[i]);
            proof {
                assert(r@ =~= self.items@.subrange(0, i + 1));
            }
        }
        proof {
            assert(r@ =~= self.items@);
        }
        r
    }
}

} // verus!

use vstd::prelude::*;

verus! {

/// An association from 64-bit identifiers to values, with distinct keys.
/// View: `Map<u64, V>`.
pub struct IdMap<V> {
    keys: Vec<u64>,
    vals: Vec<V>,
}

impl<V> View for IdMap<V> {
    type V = Map<u64, V>;

    closed spec fn view(&self) -> Map<u64, V> {
        Self::map_of(self.keys@, self.vals@)
    }
}

impl<V> IdMap<V> {
    /// The keys in insertion order; distinct when well-formed.
    pub closed spec fn key_seq(&self) -> Seq<u64> {
        self.keys@
    }

    /// The values, aligned with `key_seq`.
    pub closed spec fn val_seq(&self) -> Seq<V> {
        self.vals@
    }

    pub closed spec fn wf(&self) -> bool {
        self.keys@.no_duplicates() && self.keys@.len() == self.vals@.len()
    }

    spec fn map_of(ks: Seq<u64>, vs: Seq<V>) -> Map<u64, V>
        decreases ks.len(),
    {
        if ks.len() == 0 || ks.len() != vs.len() {
            Map::empty()
        } else {
            Self::map_of(ks.drop_last(), vs.drop_last()).insert(ks.last(), vs.last())
        }
    }

    proof fn lemma_drop_last_no_duplicates(ks: Seq<u64>)
        requires
            ks.no_duplicates(),
            ks.len() > 0,
        ensures
            ks.drop_last().no_duplicates(),
            !ks.drop_last().contains(ks.last()),
    {
        let d = ks.drop_last();
        assert forall|p: int, q: int|
            0 <= p < d.len() && 0 <= q < d.len() && p != q implies d[p] != d[q] by {
            assert(d[p] == ks[p]);
            assert(d[q] == ks[q]);
        }
        if d.contains(ks.last()) {
            let j = choose|j: int| 0 <= j < d.len() && d[j] == ks.last();
            assert(ks[j] == ks[ks.len() - 1]);
        }
    }

    proof fn lemma_map_of_dom(ks: Seq<u64>, vs: Seq<V>)
        requires
            ks.len() == vs.len(),
        ensures
            Self::map_of(ks, vs).dom() =~= ks.to_set(),
        decreases ks.len(),
    {
        if ks.len() == 0 {
            assert(ks.to_set() =~= Set::<u64>::empty());
        } else {
            Self::lemma_map_of_dom(ks.drop_last(), vs.drop_last());
            let d = ks.drop_last();
            assert forall|x: u64| ks.to_set().contains(x) implies d.to_set().insert(
                ks.last(),
            ).contains(x) by {
                let j = choose|j: int| 0 <= j < ks.len() && ks[j] == x;
                if j < ks.len() - 1 {
                    assert(d[j] == x);
                    assert(d.contains(x));
                }
            }
            assert forall|x: u64| d.to_set().insert(ks.last()).contains(x) implies ks.to_set()
                .contains(x) by {
                if x == ks.last() {
                    assert(ks[ks.len() - 1] == x);
                } else {
                    let j = choose|j: int| 0 <= j < d.len() && d[j] == x;
                    assert(ks[j] == x);
                }
                assert(ks.contains(x));
            }
            assert(ks.to_set() =~= d.to_set().insert(ks.last()));
        }
    }

    proof fn lemma_map_of_get(ks: Seq<u64>, vs: Seq<V>, i: int)
        requires
            ks.len() == vs.len(),
            ks.no_duplicates(),
            0 <= i < ks.len(),
        ensures
            Self::map_of(ks, vs).contains_key(ks[i]),
            Self::map_of(ks, vs)[ks[i]] == vs[i],
        decreases ks.len(),
    {
        if i < ks.len() - 1 {
            Self::lemma_drop_last_no_duplicates(ks);
            assert(ks.drop_last()[i] == ks[i]);
            assert(vs.drop_last()[i] == vs[i]);
            Self::lemma_map_of_get(ks.drop_last(), vs.drop_last(), i);
            assert(ks.last() != ks[i]);
        }
    }

    proof fn lemma_map_of_update(ks: Seq<u64>, vs: Seq<V>, i: int, v: V)
        requires
            ks.len() == vs.len(),
            ks.no_duplicates(),
            0 <= i < ks.len(),
        ensures
            Self::map_of(ks, vs.update(i, v)) =~= Self::map_of(ks, vs).insert(ks[i], v),
        decreases ks.len(),
    {
        let vs2 = vs.update(i, v);
        if i == ks.len() - 1 {
            assert(vs2.drop_last() =~= vs.drop_last());
            assert(vs2.last() == v);
        } else {
            assert(vs2.drop_last() =~= vs.drop_last().update(i, v));
            assert(vs2.last() == vs.last());
            Self::lemma_drop_last_no_duplicates(ks);
            assert(ks.drop_last()[i] == ks[i]);
            Self::lemma_map_of_update(ks.drop_last(), vs.drop_last(), i, v);
            assert(ks.last() != ks[i]);
        }
    }

    proof fn lemma_map_of_remove(ks: Seq<u64>, vs: Seq<V>, i: int)
        requires
            ks.len() == vs.len(),
            ks.no_duplicates(),
            0 <= i < ks.len(),
        ensures
            Self::map_of(ks.remove(i), vs.remove(i)) =~= Self::map_of(ks, vs).remove(ks[i]),
        decreases ks.len(),
    {
        ks.remove_ensures(i);
        vs.remove_ensures(i);
        Self::lemma_drop_last_no_duplicates(ks);
        if i == ks.len() - 1 {
            assert(ks.remove(i) =~= ks.drop_last());
            assert(vs.remove(i) =~= vs.drop_last());
            Self::lemma_map_of_dom(ks.drop_last(), vs.drop_last());
            assert(!Self::map_of(ks.drop_last(), vs.drop_last()).dom().contains(ks.last()));
            assert(Self::map_of(ks.drop_last(), vs.drop_last()) =~= Self::map_of(
                ks.drop_last(),
                vs.drop_last(),
            ).insert(ks.last(), vs.last()).remove(ks.last()));
        } else {
            let ks1 = ks.remove(i);
            let vs1 = vs.remove(i);
            assert(ks1.drop_last() =~= ks.drop_last().remove(i));
            assert(vs1.drop_last() =~= vs.drop_last().remove(i));
            assert(ks1.last() == ks.last());
            assert(vs1.last() == vs.last());
            assert(ks.drop_last()[i] == ks[i]);
            Self::lemma_map_of_remove(ks.drop_last(), vs.drop_last(), i);
            assert(ks.last() != ks[i]);
        }
    }

    /// Relates the map view to the underlying key and value sequences.
    pub proof fn lemma_view(&self)
        requires
            self.wf(),
        ensures
            self@.dom() == self.key_seq().to_set(),
            self@.dom().finite(),
            self@.dom().len() == self.key_seq().len(),
            self.key_seq().no_duplicates(),
            self.val_seq().len() == self.key_seq().len(),
            forall|i: int|
                0 <= i < self.key_seq().len() ==> self@.contains_key(#[trigger] self.key_seq()[i])
                    && self@[self.key_seq()[i]] == self.val_seq()[i],
    {
        Self::lemma_map_of_dom(self.keys@, self.vals@);
        self.keys@.unique_seq_to_set();
        assert forall|i: int| 0 <= i < self.key_seq().len() implies self@.contains_key(
            #[trigger] self.key_seq()[i],
        ) && self@[self.key_seq()[i]] == self.val_seq()[i] by {
            Self::lemma_map_of_get(self.keys@, self.vals@, i);
        }
    }

    pub fn new() -> (r: Self)
        ensures
            r.wf(),
            r@ == Map::<u64, V>::empty(),
            r.key_seq() == Seq::<u64>::empty(),
    {
        IdMap { keys: Vec::new(), vals: Vec::new() }
    }

    pub fn len(&self) -> (r: usize)
        requires
            self.wf(),
        ensures
            r == self@.dom().len(),
            r == self.key_seq().len(),
    {
        proof {
            self.lemma_view();
        }
        self.keys.len()
    }

    pub fn is_empty(&self) -> (r: bool)
        requires
            self.wf(),
        ensures
            r == (self@.dom() == Set::<u64>::empty()),
    {
        proof {
            self.lemma_view();
            if self.keys@.len() == 0 {
                assert(self@.dom() =~= Set::<u64>::empty());
            } else {
                assert(self@.contains_key(self.key_seq()[0]));
            }
        }
        self.keys.len() == 0
    }

    fn find(&self, k: u64) -> (r: Option<usize>)
        requires
            self.wf(),
        ensures
            match r {
                Some(i) => i < self.key_seq().len() && self.key_seq()[i as int] == k,
                None => !self.key_seq().contains(k),
            },
    {
        let n = self.keys.len();
        for i in 0..n
            invariant
                n == self.keys@.len(),
                forall|j: int| 0 <= j < i ==> self.keys@[j] != k,
        {
            if self.keys[i] == k {
                return Some(i);
            }
        }
        proof {
            assert(!self.keys@.contains(k));
        }
        None
    }

    pub fn contains_key(&self, k: u64) -> (r: bool)
        requires
            self.wf(),
        ensures
            r == self@.contains_key(k),
    {
        proof {
            self.lemma_view();
        }
        match self.find(k) {
            Some(i) => {
                proof {
                    assert(self.key_seq().contains(self.key_seq()[i as int]));
                }
                true
            },
            None => {
                proof {
                    if self@.contains_key(k) {
                        assert(self.key_seq().to_set().contains(k));
                    }
                }
                false
            },
        }
    }

    pub fn get(&self, k: u64) -> (r: Option<&V>)
        requires
            self.wf(),
        ensures
            match r {
                Some(v) => self@.contains_key(k) && *v == self@[k],
                None => !self@.contains_key(k),
            },
    {
        proof {
            self.lemma_view();
        }
        match self.find(k) {
            Some(i) => {
                proof {
                    assert(self.key_seq().contains(self.key_seq()[i as int]));
                }
                Some(&self.vals[i])
            },
            None => {
                proof {
                    if self@.contains_key(k) {
                        assert(self.key_seq().to_set().contains(k));
                    }
                }
                None
            },
        }
    }

    /// Binds the key to the value, replacing any prior binding.
    pub fn insert(&mut self, k: u64, v: V)
        requires
            old(self).wf(),
        ensures
            final(self).wf(),
            final(self)@ == old(self)@.insert(k, v),
            old(self)@.contains_key(k) ==> final(self).key_seq() == old(self).key_seq(),
            !old(self)@.contains_key(k) ==> final(self).key_seq() == old(self).key_seq().push(k),
    {
        proof {
            self.lemma_view();
        }
        match self.find(k) {
            Some(i) => {
                self.vals.set(i, v);
                proof {
                    assert(old(self).key_seq().contains(old(self).key_seq()[i as int]));
                    Self::lemma_map_of_update(old(self).keys@, old(self).vals@, i as int, v);
                }
            },
            None => {
                self.keys.push(k);
                self.vals.push(v);
                proof {
                    if old(self)@.contains_key(k) {
                        assert(old(self).key_seq().to_set().contains(k));
                    }
                    let ks = old(self).keys@;
                    let vs = old(self).vals@;
                    assert(self.keys@.drop_last() =~= ks);
                    assert(self.vals@.drop_last() =~= vs);
                    assert forall|p: int, q: int|
                        0 <= p < self.keys@.len() && 0 <= q < self.keys@.len() && p != q
                        implies self.keys@[p] != self.keys@[q] by {
                        if p < ks.len() && q < ks.len() {
                            assert(self.keys@[p] == ks[p]);
                            assert(self.keys@[q] == ks[q]);
                        } else if p < ks.len() {
                            assert(!ks.contains(k));
                            assert(ks[p] != k);
                        } else if q < ks.len() {
                            assert(!ks.contains(k));
                            assert(ks[q] != k);
                        }
                    }
                }
            },
        }
    }

    /// Drops the binding for a key, if any.
    pub fn remove(&mut self, k: u64)
        requires
            old(self).wf(),
        ensures
            final(self).wf(),
            final(self)@ == old(self)@.remove(k),
    {
        proof {
            self.lemma_view();
        }
        match self.find(k) {
            Some(i) => {
                self.keys.remove(i);
                self.vals.remove(i);
                proof {
                    let ks = old(self).keys@;
                    let vs = old(self).vals@;
                    ks.remove_ensures(i as int);
                    Self::lemma_map_of_remove(ks, vs, i as int);
                    assert forall|p: int, q: int|
                        0 <= p < self.keys@.len() && 0 <= q < self.keys@.len() && p != q
                        implies self.keys@[p] != self.keys@[q] by {
                        let sp: int = if p < i { p } else { p + 1 };
                        let sq: int = if q < i { q } else { q + 1 };
                        assert(self.keys@[p] == ks[sp]);
                        assert(self.keys@[q] == ks[sq]);
                        assert(sp != sq);
                        assert(ks[sp] != ks[sq]);
                    }
                }
            },
            None => {
                proof {
                    if old(self)@.contains_key(k) {
                        assert(old(self).key_seq().to_set().contains(k));
                    }
                    assert(self@ =~= old(self)@.remove(k));
                }
            },
        }
    }

    /// The key at a position, for iteration.
    pub fn key_at(&self, i: usize) -> (r: u64)
        requires
            self.wf(),
            i < self.key_seq().len(),
        ensures
            r == self.key_seq()[i as int],
            self@.contains_key(r),
    {
        proof {
            self.lemma_view();
        }
        self.keys[i]
    }

    /// The value at a position, for iteration.
    pub fn val_at(&self, i: usize) -> (r: &V)
        requires
            self.wf(),
            i < self.key_seq().len(),
        ensures
            *r == self.val_seq()[i as int],
            *r == self@[self.key_seq()[i as int]],
    {
        proof {
            self.lemma_view();
        }
        &self.vals[i]
    }

    /// The keys as a vector, in insertion order.
    pub fn keys(&self) -> (r: Vec<u64>)
        requires
            self.wf(),
        ensures
            r@ == self.key_seq(),
            r@.no_duplicates(),
            r@.to_set() == self@.dom(),
    {
        proof {
            self.lemma_view();
        }
        let n = self.keys.len();
        let mut r: Vec<u64> = Vec::new();
        for i in 0..n
            invariant
                n == self.keys@.len(),
                r@ == self.keys@.subrange(0, i as int),
        {
            r.push(self.keys[i]);
            proof {
                assert(r@ =~= self.keys@.subrange(0, i + 1));
            }
        }
        proof {
            assert(r@ =~= self.keys@);
        }
        r
    }
}

} // verus!

verus! {

/// The value occurs among the first `k` elements of the sequence.
pub open spec fn prefix_contains(s: Seq<u64>, k: int, v: u64) -> bool {
    exists|i: int| 0 <= i < k && 0 <= i < s.len() && s[i] == v
}

pub proof fn lemma_prefix_contains_step(s: Seq<u64>, k: int, v: u64)
    requires
        0 <= k < s.len(),
    ensures
        prefix_contains(s, k + 1, v) <==> (prefix_contains(s, k, v) || s[k] == v),
{
    if prefix_contains(s, k + 1, v) {
        let i = choose|i: int| 0 <= i < k + 1 && 0 <= i < s.len() && (#[trigger] s[i]) == v;
        if i < k {
            assert(prefix_contains(s, k, v));
        }
    }
    if prefix_contains(s, k, v) {
        let i = choose|i: int| 0 <= i < k && 0 <= i < s.len() && (#[trigger] s[i]) == v;
        assert(0 <= i < k + 1 && 0 <= i < s.len() && s[i] == v);
    }
    if s[k] == v {
        assert(0 <= k < k + 1 && 0 <= k < s.len() && s[k] == v);
    }
}

pub proof fn lemma_prefix_contains_all(s: Seq<u64>, v: u64)
    ensures
        prefix_contains(s, s.len() as int, v) <==> s.contains(v),
{
    if prefix_contains(s, s.len() as int, v) {
        let i = choose|i: int|
            0 <= i < s.len() && 0 <= i < s.len() && (#[trigger] s[i]) == v;
        assert(s.contains(v));
    }
    if s.contains(v) {
        let i = choose|i: int| 0 <= i < s.len() && (#[trigger] s[i]) == v;
        assert(0 <= i < s.len() as int && 0 <= i < s.len() && s[i] == v);
    }
}

} // verus!
