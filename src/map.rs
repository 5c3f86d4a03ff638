use crate::key::TableKey;
use vstd::prelude::*;

verus! {

/// A stored key with its value.
pub(crate) struct Entry<K, V> {
    pub(crate) key: K,
    pub(crate) value: V,
}

/// One cell of the slot array.
pub(crate) enum Bucket<K, V> {
    /// Never held an entry since the array was allocated: ends every probe run.
    Unoccupied,
    /// Held an entry that was removed: a probe run goes on past it.
    Deleted,
    Occupied(Entry<K, V>),
}

/// Index of the `step`-th candidate of a linear probe run that starts at `home`.
pub open spec fn probe(home: int, step: int, cap: int) -> int {
    if home + step < cap {
        home + step
    } else {
        home + step - cap
    }
}

/// Number of steps a linear probe run from `home` takes to reach `slot`.
pub open spec fn distance(home: int, slot: int, cap: int) -> int {
    if slot >= home {
        slot - home
    } else {
        slot + cap - home
    }
}

/// In `cap` steps the linear probe run from `home` visits every slot exactly
/// once, starting at `home`; `distance` gives the step at which each slot
/// comes.
pub proof fn lemma_probe_run_is_permutation(home: int, cap: int)
    requires
        0 <= home < cap,
    ensures
        probe(home, 0, cap) == home,
        forall|j: int| 0 <= j < cap ==> 0 <= #[trigger] probe(home, j, cap) < cap,
        forall|j1: int, j2: int|
            0 <= j1 < cap && 0 <= j2 < cap && j1 != j2 ==> #[trigger] probe(home, j1, cap)
                != #[trigger] probe(home, j2, cap),
        forall|i: int|
            0 <= i < cap ==> 0 <= #[trigger] distance(home, i, cap) < cap && probe(
                home,
                distance(home, i, cap),
                cap,
            ) == i,
{
}

/// First candidate of the probe run of identity `id` in an array of `cap` slots.
pub open spec fn home_of<K: TableKey>(id: K::Id, cap: int) -> int {
    (K::hash_of_id(id) as int) % cap
}

pub(crate) open spec fn vacant<K, V>(b: Seq<Bucket<K, V>>, i: int) -> bool {
    b[i] is Unoccupied
}

/// No slot among the first `d` candidates of the run from `home` is unoccupied.
pub(crate) open spec fn run_clear<K, V>(b: Seq<Bucket<K, V>>, home: int, d: int) -> bool {
    forall|j: int| 0 <= j < d ==> !#[trigger] vacant(b, probe(home, j, b.len() as int))
}

/// The key/value pairs of the occupied slots of `s`, in index order.
pub(crate) open spec fn occupied_entries<K, V>(s: Seq<Bucket<K, V>>) -> Seq<(K, V)>
    decreases s.len(),
{
    if s.len() == 0 {
        Seq::empty()
    } else {
        let rest = occupied_entries(s.drop_first());
        match s[0] {
            Bucket::Occupied(e) => seq![(e.key, e.value)] + rest,
            _ => rest,
        }
    }
}

pub(crate) open spec fn used<K, V>(b: Bucket<K, V>) -> int {
    if b is Occupied {
        1
    } else {
        0
    }
}

proof fn lemma_update_count<K, V>(s: Seq<Bucket<K, V>>, i: int, x: Bucket<K, V>)
    requires
        0 <= i < s.len(),
    ensures
        occupied_entries(s.update(i, x)).len() == occupied_entries(s).len() - used(s[i]) + used(x),
    decreases s.len(),
{
    if i == 0 {
        assert(s.update(i, x).drop_first() =~= s.drop_first());
    } else {
        lemma_update_count(s.drop_first(), i - 1, x);
        assert(s.update(i, x).drop_first() =~= s.drop_first().update(i - 1, x));
    }
}

proof fn lemma_count_bounds<K, V>(s: Seq<Bucket<K, V>>)
    ensures
        occupied_entries(s).len() <= s.len(),
        (forall|i: int| 0 <= i < s.len() ==> !(#[trigger] s[i] is Occupied)) ==> occupied_entries(
            s,
        ).len() == 0,
        (forall|i: int| 0 <= i < s.len() ==> #[trigger] s[i] is Occupied) ==> occupied_entries(
            s,
        ).len() == s.len(),
    decreases s.len(),
{
    if s.len() > 0 {
        lemma_count_bounds(s.drop_first());
        if forall|i: int| 0 <= i < s.len() ==> !(#[trigger] s[i] is Occupied) {
            assert forall|i: int| 0 <= i < s.drop_first().len() implies !(
            #[trigger] s.drop_first()[i] is Occupied) by {
                assert(s.drop_first()[i] == s[i + 1]);
            }
        }
        if forall|i: int| 0 <= i < s.len() ==> #[trigger] s[i] is Occupied {
            assert forall|i: int| 0 <= i < s.drop_first().len() implies #[trigger] s.drop_first()[i] is Occupied by {
                assert(s.drop_first()[i] == s[i + 1]);
            }
            assert(s[0] is Occupied);
        }
    }
}

/// Where a probe for a key ended.
enum Probe {
    /// The key sits in this slot.
    Found(usize),
    /// The key is absent; the slot, if any, is the first on its run that can take it.
    Absent(Option<usize>),
}

/// An open-addressing hash table from keys to values.
pub struct HashMap<K: TableKey, V> {
    buckets: Vec<Bucket<K, V>>,
    len: usize,
    /// The mapping the table holds, by key identity.
    entries: Ghost<Map<K::Id, V>>,
    /// The slot each stored identity sits in.
    slots: Ghost<Map<K::Id, int>>,
}

impl<K: TableKey, V> View for HashMap<K, V> {
    type V = Map<K::Id, V>;

    closed spec fn view(&self) -> Map<K::Id, V> {
        self.entries@
    }
}

/// The size a table is first made with.
pub const INITIAL_CAPACITY: usize = 1024;

/// Whether `len` entries in `cap` slots reach the growth threshold
/// (`len * 100 / cap >= 65`).
pub open spec fn over_threshold(len: int, cap: int) -> bool {
    len * 100 >= cap * 65
}

/// The capacity a table of `len` entries in `cap` slots has after the growth check.
pub open spec fn grown_capacity(len: int, cap: int) -> int {
    if over_threshold(len, cap) && cap <= usize::MAX / 2 {
        cap * 2
    } else {
        cap
    }
}

/// What a lookup of `id` in `m` gives.
pub open spec fn lookup<I, V>(m: Map<I, V>, id: I) -> Option<V> {
    if m.contains_key(id) {
        Some(m[id])
    } else {
        None
    }
}

impl<K: TableKey, V> HashMap<K, V> {
    /// Number of slots in the slot array.
    pub closed spec fn spec_capacity(&self) -> nat {
        self.buckets@.len()
    }

    /// The stored pairs in slot order: what iteration yields.
    pub closed spec fn entry_seq(&self) -> Seq<(K, V)> {
        occupied_entries(self.buckets@)
    }

    pub(crate) open spec fn key_at(b: Seq<Bucket<K, V>>, i: int) -> K::Id {
        b[i]->Occupied_0.key.key_id()
    }

    pub(crate) open spec fn placed(b: Seq<Bucket<K, V>>, id: K::Id, v: V, i: int) -> bool {
        let cap = b.len() as int;
        &&& 0 <= i < cap
        &&& b[i] is Occupied
        &&& Self::key_at(b, i) == id
        &&& b[i]->Occupied_0.value == v
        &&& run_clear(b, home_of::<K>(id, cap), distance(home_of::<K>(id, cap), i, cap))
    }

    /// Every slot is unoccupied: the state of a freshly allocated array.
    pub closed spec fn all_unoccupied(&self) -> bool {
        forall|i: int| 0 <= i < self.buckets@.len() ==> #[trigger] self.buckets@[i] is Unoccupied
    }

    /// No slot is a tombstone: each is unoccupied or holds a pair.
    pub closed spec fn no_tombstones(&self) -> bool {
        forall|i: int| 0 <= i < self.buckets@.len() ==> !(#[trigger] self.buckets@[i] is Deleted)
    }

    /// The table's invariant.
    pub closed spec fn wf(&self) -> bool {
        let b = self.buckets@;
        &&& b.len() >= INITIAL_CAPACITY
        &&& self.len == occupied_entries(b).len()
        &&& self.entries@.dom().finite()
        &&& self.len == self.entries@.dom().len()
        &&& self.slots@.dom() == self.entries@.dom()
        &&& forall|id: K::Id| #[trigger]
            self.slots@.contains_key(id) ==> Self::placed(b, id, self.entries@[id], self.slots@[id])
        &&& forall|i: int|
            0 <= i < b.len() && #[trigger] b[i] is Occupied ==> self.slots@.contains_key(
                Self::key_at(b, i),
            ) && self.slots@[Self::key_at(b, i)] == i
    }

    /// A table whose `cap` slots are all unoccupied.
    fn with_slots(cap: usize) -> (r: Self)
        requires
            cap >= INITIAL_CAPACITY,
        ensures
            r.wf(),
            r.all_unoccupied(),
            r@ == Map::<K::Id, V>::empty(),
            r.spec_capacity() == cap,
    {
        let mut buckets: Vec<Bucket<K, V>> = Vec::with_capacity(cap);
        let mut i: usize = 0;
        while i < cap
            invariant
                i <= cap,
                buckets@.len() == i,
                forall|j: int| 0 <= j < i ==> #[trigger] buckets@[j] is Unoccupied,
            decreases cap - i,
        {
            buckets.push(Bucket::Unoccupied);
            i = i + 1;
        }
        proof {
            lemma_count_bounds(buckets@);
        }
        let r = HashMap { buckets, len: 0, entries: Ghost(Map::empty()), slots: Ghost(Map::empty()) };
        assert(r.entries@.dom() =~= Set::empty());
        r
    }

    /// An empty table of the initial capacity.
    pub fn new() -> (r: Self)
        ensures
            r.wf(),
            r.all_unoccupied(),
            r@ == Map::<K::Id, V>::empty(),
            r.spec_capacity() == INITIAL_CAPACITY,
    {
        Self::with_slots(INITIAL_CAPACITY)
    }

    /// Walks the probe run of `key`.
    fn find(&self, key: &K) -> (r: Probe)
        requires
            self.wf(),
        ensures
            match r {
                Probe::Found(i) => self.slots@.contains_key(key.key_id()) && self.slots@[key.key_id()]
                    == i,
                Probe::Absent(free) => {
                    &&& !self@.contains_key(key.key_id())
                    &&& match free {
                        Some(i) => {
                            let cap = self.buckets@.len() as int;
                            let h = home_of::<K>(key.key_id(), cap);
                            &&& i < cap
                            &&& !(self.buckets@[i as int] is Occupied)
                            &&& run_clear(self.buckets@, h, distance(h, i as int, cap))
                        },
                        None => self.len == self.buckets@.len(),
                    }
                },
            },
    {
        let ghost b = self.buckets@;
        let ghost id = key.key_id();
        let cap = self.buckets.len();
        let ghost icap = cap as int;
        let home = (key.hash_code() % (cap as u64)) as usize;
        let ghost h = home_of::<K>(id, icap);
        assert(home == h);
        let mut pos = home;
        let mut steps: usize = 0;
        let mut free: Option<usize> = None;
        let ghost mut free_step: int = 0;
        while steps < cap
            invariant
                self.wf(),
                b == self.buckets@,
                cap == b.len(),
                icap == cap,
                0 <= h < cap,
                h == home_of::<K>(id, icap),
                id == key.key_id(),
                steps <= cap,
                steps < cap ==> pos == probe(h, steps as int, icap),
                forall|j: int|
                    0 <= j < steps ==> !vacant(b, #[trigger] probe(h, j, icap)) && !(
                    b[probe(h, j, icap)] is Occupied && Self::key_at(b, probe(h, j, icap)) == id),
                match free {
                    None => forall|j: int|
                        0 <= j < steps ==> #[trigger] b[probe(h, j, icap)] is Occupied,
                    Some(f) => 0 <= free_step < steps && f == probe(h, free_step, icap) && !(
                    b[f as int] is Occupied),
                },
            decreases cap - steps,
        {
            match &self.buckets[pos] {
                Bucket::Unoccupied => {
                    proof {
                        self.lemma_absent(id, h, steps as int);
                    }
                    let slot = match free {
                        Some(f) => f,
                        None => pos,
                    };
                    proof {
                        let fs = if free is Some { free_step } else { steps as int };
                        assert(distance(h, slot as int, icap) == fs);
                        assert forall|j: int| 0 <= j < fs implies !#[trigger] vacant(b, probe(h, j, icap)) by {}
                    }
                    return Probe::Absent(Some(slot));
                },
                Bucket::Deleted => {
                    if free.is_none() {
                        free = Some(pos);
                        proof {
                            free_step = steps as int;
                        }
                    }
                },
                Bucket::Occupied(e) => {
                    if e.key.same_key(key) {
                        return Probe::Found(pos);
                    }
                },
            }
            pos = if pos + 1 == cap {
                0
            } else {
                pos + 1
            };
            steps = steps + 1;
        }
        proof {
            self.lemma_absent(id, h, cap as int);
            match free {
                Some(f) => {
                    assert(distance(h, f as int, icap) == free_step);
                    assert forall|j: int| 0 <= j < free_step implies !#[trigger] vacant(b, probe(h, j, icap)) by {}
                },
                None => {
                    assert forall|i: int| 0 <= i < cap implies #[trigger] b[i] is Occupied by {
                        assert(probe(h, distance(h, i, icap), icap) == i);
                    }
                    lemma_count_bounds(b);
                },
            }
        }
        Probe::Absent(free)
    }

    /// `id` is not stored when the first `steps` candidates of its run do not
    /// hold it and the run ends there (an unoccupied slot, or the whole array).
    proof fn lemma_absent(&self, id: K::Id, h: int, steps: int)
        requires
            self.wf(),
            h == home_of::<K>(id, self.buckets@.len() as int),
            0 <= steps <= self.buckets@.len(),
            steps < self.buckets@.len() ==> vacant(self.buckets@, probe(h, steps, self.buckets@.len() as int)),
            forall|j: int|
                0 <= j < steps ==> !(#[trigger] self.buckets@[probe(h, j, self.buckets@.len() as int)] is Occupied
                && Self::key_at(self.buckets@, probe(h, j, self.buckets@.len() as int)) == id),
        ensures
            !self@.contains_key(id),
    {
        let b = self.buckets@;
        let cap = b.len() as int;
        if self@.contains_key(id) {
            assert(self.slots@.contains_key(id));
            let l = self.slots@[id];
            assert(Self::placed(b, id, self.entries@[id], l));
            let d = distance(h, l, cap);
            assert(probe(h, d, cap) == l);
            if d < steps {
                assert(b[probe(h, d, cap)] is Occupied);
            } else if d == steps {
                assert(vacant(b, l));
            } else {
                assert(!vacant(b, probe(h, steps, cap)));
            }
        }
    }

    /// Stores a new pair in slot `i`, a free slot on the key's probe run.
    fn occupy(&mut self, i: usize, key: K, value: V)
        requires
            old(self).wf(),
            !old(self)@.contains_key(key.key_id()),
            i < old(self).buckets@.len(),
            !(old(self).buckets@[i as int] is Occupied),
            run_clear(
                old(self).buckets@,
                home_of::<K>(key.key_id(), old(self).buckets@.len() as int),
                distance(
                    home_of::<K>(key.key_id(), old(self).buckets@.len() as int),
                    i as int,
                    old(self).buckets@.len() as int,
                ),
            ),
        ensures
            final(self).wf(),
            final(self)@ == old(self)@.insert(key.key_id(), value),
            final(self).spec_capacity() == old(self).spec_capacity(),
            old(self).no_tombstones() ==> final(self).no_tombstones(),
    {
        let ghost id = key.key_id();
        let ghost b0 = self.buckets@;
        let ghost cap = b0.len() as int;
        let ghost v = value;
        let n = self.buckets.len();
        proof {
            lemma_update_count(b0, i as int, Bucket::Occupied(Entry { key, value }));
            assert(self.len < usize::MAX) by {
                lemma_count_bounds(b0.update(i as int, Bucket::Occupied(Entry { key, value })));
            }
        }
        self.buckets.set(i, Bucket::Occupied(Entry { key, value }));
        self.len = self.len + 1;
        self.entries = Ghost(self.entries@.insert(id, v));
        self.slots = Ghost(self.slots@.insert(id, i as int));
        proof {
            let b = self.buckets@;
            assert(forall|k: int| 0 <= k < cap && !vacant(b0, k) ==> !#[trigger] vacant(b, k));
            assert forall|x: K::Id| #[trigger]
                self.slots@.contains_key(x) implies Self::placed(b, x, self.entries@[x], self.slots@[x]) by {
                let hx = home_of::<K>(x, cap);
                if x != id {
                    assert(Self::placed(b0, x, old(self).entries@[x], old(self).slots@[x]));
                }
                let dx = distance(hx, self.slots@[x], cap);
                assert forall|j: int| 0 <= j < dx implies !#[trigger] vacant(b, probe(hx, j, cap)) by {
                    assert(!vacant(b0, probe(hx, j, cap)));
                }
            }
            assert forall|k: int| 0 <= k < b.len() && #[trigger] b[k] is Occupied implies self.slots@.contains_key(
                Self::key_at(b, k),
            ) && self.slots@[Self::key_at(b, k)] == k by {
                if k != i {
                    assert(b0[k] is Occupied);
                }
            }
        }
    }

    /// Stores `value` under `key`. Returns the value that `key` held before,
    /// if any; the table first grows if it is at or over its load threshold.
    /// A key found further along its probe run than a tombstone is updated
    /// in place, so that no key is ever stored twice. The bound on the
    /// number of pairs keeps the doubled slot array within `usize`.
    pub fn insert(&mut self, key: K, value: V) -> (r: Option<V>)
        requires
            old(self).wf(),
            old(self)@.len() < usize::MAX / 2,
        ensures
            final(self).wf(),
            final(self)@ == old(self)@.insert(key.key_id(), value),
            r == lookup(old(self)@, key.key_id()),
            final(self).spec_capacity() == grown_capacity(
                old(self)@.len() as int,
                old(self).spec_capacity() as int,
            ),
            final(self)@.len() < final(self).spec_capacity(),
    {
        proof {
            lemma_count_bounds(self.buckets@);
            self.lemma_view_finite();
        }
        self.ensure_capacity();
        match self.find(&key) {
            Probe::Found(i) => {
                let ghost id = key.key_id();
                let ghost b0 = self.buckets@;
                let mut taken = Bucket::Unoccupied;
                std::mem::swap(&mut self.buckets[i], &mut taken);
                match taken {
                    Bucket::Occupied(e) => {
                        let ghost v = value;
                        proof {
                            assert(Self::placed(b0, id, self.entries@[id], i as int));
                        }
                        self.buckets.set(i, Bucket::Occupied(Entry { key: e.key, value }));
                        self.entries = Ghost(self.entries@.insert(id, v));
                        proof {
                            let b = self.buckets@;
                            let cap = b.len() as int;
                            assert(b =~= b0.update(i as int, b[i as int]));
                            lemma_update_count(b0, i as int, b[i as int]);
                            assert(forall|k: int| 0 <= k < cap && !vacant(b0, k) ==> !#[trigger] vacant(b, k));
                            assert(self.entries@.dom() =~= old(self).entries@.dom());
                            assert forall|x: K::Id| #[trigger]
                                self.slots@.contains_key(x) implies Self::placed(b, x, self.entries@[x], self.slots@[x]) by {
                                let hx = home_of::<K>(x, cap);
                                assert(Self::placed(b0, x, self.entries@[x], self.slots@[x]) || x == id);
                                assert(Self::placed(b0, x, self.entries@.insert(id, e.value)[x], self.slots@[x]));
                                let dx = distance(hx, self.slots@[x], cap);
                                assert forall|j: int| 0 <= j < dx implies !#[trigger] vacant(b, probe(hx, j, cap)) by {
                                    assert(!vacant(b0, probe(hx, j, cap)));
                                }
                            }
                            assert forall|k: int| 0 <= k < b.len() && #[trigger] b[k] is Occupied implies self.slots@.contains_key(
                                Self::key_at(b, k),
                            ) && self.slots@[Self::key_at(b, k)] == k by {
                                assert(b0[k] is Occupied);
                            }
                        }
                        Some(e.value)
                    },
                    _ => {
                        // the slot that `find` reported holds the key
                        proof {
                            assert(Self::placed(b0, id, self.entries@[id], i as int));
                            assert(false);
                        }
                        None
                    },
                }
            },
            Probe::Absent(free) => {
                match free {
                    Some(i) => {
                        self.occupy(i, key, value);
                    },
                    None => {
                        // the growth check has left a free slot
                        proof {
                            assert(false);
                        }
                    },
                }
                None
            },
        }
    }

    /// Doubles the slot array and re-inserts every stored pair when the
    /// table is at or over its load threshold; tombstones are dropped.
    pub fn ensure_capacity(&mut self)
        requires
            old(self).wf(),
        ensures
            final(self).wf(),
            final(self)@ == old(self)@,
            final(self).spec_capacity() == grown_capacity(
                old(self)@.len() as int,
                old(self).spec_capacity() as int,
            ),
            old(self)@.len() < usize::MAX / 2 ==> final(self)@.len() < final(self).spec_capacity(),
            final(self).spec_capacity() == old(self).spec_capacity() ==> *final(self) == *old(self),
            final(self).spec_capacity() != old(self).spec_capacity() ==> final(self).no_tombstones(),
    {
        let cap = self.buckets.len();
        proof {
            lemma_count_bounds(self.buckets@);
        }
        if (self.len as u128) * 100 >= (cap as u128) * 65 && cap <= usize::MAX / 2 {
            let mut fresh: HashMap<K, V> = HashMap::with_slots(cap * 2);
            assert(fresh.no_tombstones());
            assert(self@.dom().len() <= cap);
            let ghost prev = *self;
            let mut rest: Vec<Bucket<K, V>> = Vec::new();
            std::mem::swap(&mut rest, &mut self.buckets);
            while rest.len() > 0
                invariant
                    prev.wf(),
                    fresh.wf(),
                    fresh.spec_capacity() == cap * 2,
                    fresh.no_tombstones(),
                    prev.buckets@.len() == cap,
                    rest@.len() <= cap,
                    prev@.len() <= cap,
                    rest@ == prev.buckets@.subrange(0, rest@.len() as int),
                    forall|x: K::Id| #[trigger]
                        fresh@.contains_key(x) == (prev@.contains_key(x) && prev.slots@[x] >= rest@.len()),
                    forall|x: K::Id| #[trigger] fresh@.contains_key(x) ==> fresh@[x] == prev@[x],
                decreases rest@.len(),
            {
                let ghost n = rest@.len() as int;
                let last = rest.pop();
                proof {
                    assert(prev.buckets@.subrange(0, n)[n - 1] == prev.buckets@[n - 1]);
                    assert(last == Some(prev.buckets@[n - 1]));
                }
                match last {
                    Some(Bucket::Occupied(e)) => {
                        let ghost x = e.key.key_id();
                        proof {
                            assert(prev.buckets@[n - 1] is Occupied);
                            assert(prev.slots@[x] == n - 1);
                            assert(Self::placed(prev.buckets@, x, prev.entries@[x], n - 1));
                            assert forall|y: K::Id| prev@.contains_key(y) && prev.slots@[y] == n - 1 implies y == x by {
                                assert(Self::placed(prev.buckets@, y, prev.entries@[y], prev.slots@[y]));
                            }
                            assert(fresh@.dom().subset_of(prev@.dom()));
                            vstd::set_lib::lemma_len_subset(fresh@.dom(), prev@.dom());
                        }
                        let ghost before = fresh@;
                        match fresh.find(&e.key) {
                            Probe::Absent(Some(i)) => {
                                fresh.occupy(i, e.key, e.value);
                            },
                            _ => {
                                assert(false);
                            },
                        }
                        proof {
                            assert(fresh@ == before.insert(x, prev@[x]));
                            assert forall|y: K::Id| #[trigger] fresh@.contains_key(y) == (prev@.contains_key(y) && prev.slots@[y] >= n - 1) by {
                                if y != x {
                                    assert(fresh@.contains_key(y) == before.contains_key(y));
                                }
                            }
                        }
                    },
                    _ => {
                        proof {
                            assert forall|x: K::Id| prev@.contains_key(x) implies prev.slots@[x] != n - 1 by {
                                assert(Self::placed(prev.buckets@, x, prev.entries@[x], prev.slots@[x]));
                            }
                        }
                    },
                }
                proof {
                    assert(rest@ =~= prev.buckets@.subrange(0, rest@.len() as int));
                }
            }
            proof {
                assert forall|x: K::Id| prev@.contains_key(x) implies prev.slots@[x] >= 0 by {
                    assert(Self::placed(prev.buckets@, x, prev.entries@[x], prev.slots@[x]));
                }
                assert(fresh@ =~= prev@);
            }
            *self = fresh;
        }
    }

    /// The value stored under `key`, if any.
    pub fn get(&self, key: &K) -> (r: Option<&V>)
        requires
            self.wf(),
        ensures
            r is Some == self@.contains_key(key.key_id()),
            r is Some ==> *r.unwrap() == self@[key.key_id()],
    {
        match self.find(key) {
            Probe::Found(i) => {
                proof {
                    assert(Self::placed(self.buckets@, key.key_id(), self.entries@[key.key_id()], i as int));
                }
                match &self.buckets[i] {
                    Bucket::Occupied(e) => Some(&e.value),
                    _ => {
                        proof {
                            assert(false);
                        }
                        None
                    },
                }
            },
            Probe::Absent(_) => None,
        }
    }

    /// Takes the pair of `key` out of the table, leaving a tombstone in its
    /// slot, and returns its value.
    pub fn remove(&mut self, key: &K) -> (r: Option<V>)
        requires
            old(self).wf(),
        ensures
            final(self).wf(),
            final(self)@ == old(self)@.remove(key.key_id()),
            r == lookup(old(self)@, key.key_id()),
            final(self).spec_capacity() == old(self).spec_capacity(),
    {
        match self.find(key) {
            Probe::Found(i) => {
                let ghost id = key.key_id();
                let ghost b0 = self.buckets@;
                let ghost cap = b0.len() as int;
                proof {
                    assert(Self::placed(b0, id, self.entries@[id], i as int));
                    lemma_update_count(b0, i as int, Bucket::Deleted);
                }
                let mut taken = Bucket::Deleted;
                std::mem::swap(&mut self.buckets[i], &mut taken);
                self.len = self.len - 1;
                self.entries = Ghost(self.entries@.remove(id));
                self.slots = Ghost(self.slots@.remove(id));
                proof {
                    let b = self.buckets@;
                    assert(b =~= b0.update(i as int, Bucket::Deleted));
                    assert(forall|k: int| 0 <= k < cap && !vacant(b0, k) ==> !#[trigger] vacant(b, k));
                    assert forall|x: K::Id| #[trigger]
                        self.slots@.contains_key(x) implies Self::placed(b, x, self.entries@[x], self.slots@[x]) by {
                        let hx = home_of::<K>(x, cap);
                        assert(Self::placed(b0, x, old(self).entries@[x], old(self).slots@[x]));
                        let dx = distance(hx, self.slots@[x], cap);
                        assert forall|j: int| 0 <= j < dx implies !#[trigger] vacant(b, probe(hx, j, cap)) by {
                            assert(!vacant(b0, probe(hx, j, cap)));
                        }
                    }
                    assert forall|k: int| 0 <= k < b.len() && #[trigger] b[k] is Occupied implies self.slots@.contains_key(
                        Self::key_at(b, k),
                    ) && self.slots@[Self::key_at(b, k)] == k by {
                        assert(b0[k] is Occupied);
                    }
                }
                match taken {
                    Bucket::Occupied(e) => Some(e.value),
                    _ => {
                        proof {
                            assert(false);
                        }
                        None
                    },
                }
            },
            Probe::Absent(_) => None,
        }
    }

    /// Number of slots.
    pub fn capacity(&self) -> (r: usize)
        ensures
            r == self.spec_capacity(),
    {
        self.buckets.len()
    }

    /// Number of stored pairs.
    pub fn len(&self) -> (r: usize)
        requires
            self.wf(),
        ensures
            r == self@.len(),
    {
        self.len
    }

    pub fn is_empty(&self) -> (r: bool)
        requires
            self.wf(),
        ensures
            r == (self@.len() == 0),
    {
        self.len == 0
    }
}

/// `s[i..]` yields its first occupied pair, if any, then `s[i+1..]`.
proof fn lemma_entries_step<K, V>(s: Seq<Bucket<K, V>>, i: int)
    requires
        0 <= i < s.len(),
    ensures
        occupied_entries(s.subrange(i, s.len() as int)) == match s[i] {
            Bucket::Occupied(e) => seq![(e.key, e.value)] + occupied_entries(
                s.subrange(i + 1, s.len() as int),
            ),
            _ => occupied_entries(s.subrange(i + 1, s.len() as int)),
        },
{
    assert(s.subrange(i, s.len() as int).drop_first() =~= s.subrange(i + 1, s.len() as int));
}

/// One stored pair, as iteration hands it out.
#[derive(Debug, PartialEq)]
pub struct Pair<K, V> {
    pub key: K,
    pub value: V,
}

/// Iteration by reference over a table's pairs, in slot order.
pub struct Iter<'a, K: TableKey, V> {
    map: &'a HashMap<K, V>,
    pos: usize,
}

impl<'a, K: TableKey, V> Iter<'a, K, V> {
    pub closed spec fn wf(&self) -> bool {
        self.map.wf() && self.pos <= self.map.buckets@.len()
    }

    /// The pairs still to come.
    pub closed spec fn remaining(&self) -> Seq<(K, V)> {
        occupied_entries(self.map.buckets@.subrange(self.pos as int, self.map.buckets@.len() as int))
    }

    /// The next pair in slot order, or `None` when all have been handed out.
    pub fn next(&mut self) -> (r: Option<Pair<&'a K, &'a V>>)
        requires
            old(self).wf(),
        ensures
            final(self).wf(),
            r is None ==> old(self).remaining().len() == 0 && final(self).remaining().len() == 0,
            r is Some ==> old(self).remaining().len() > 0 && (*r->Some_0.key, *r->Some_0.value) == old(self).remaining()[0]
                && final(self).remaining() == old(self).remaining().drop_first(),
    {
        let map: &'a HashMap<K, V> = self.map;
        let ghost start = self.remaining();
        while self.pos < map.buckets.len()
            invariant
                self.map == map,
                self.wf(),
                self.remaining() == start,
                start == old(self).remaining(),
            decreases map.buckets@.len() - self.pos,
        {
            let i = self.pos;
            proof {
                lemma_entries_step(map.buckets@, i as int);
            }
            self.pos = i + 1;
            match &map.buckets[i] {
                Bucket::Occupied(e) => {
                    proof {
                        let tail = occupied_entries(map.buckets@.subrange(i + 1, map.buckets@.len() as int));
                        assert(start == seq![(e.key, e.value)] + tail);
                        assert(start[0] == (e.key, e.value));
                        assert(self.remaining() =~= start.drop_first());
                    }
                    return Some(Pair { key: &e.key, value: &e.value });
                },
                _ => {},
            }
        }
        proof {
            assert(map.buckets@.subrange(self.pos as int, map.buckets@.len() as int) =~= Seq::empty());
        }
        None
    }
}

/// Iteration that moves the pairs out of a table, in slot order.
pub struct IntoIter<K, V> {
    buckets: Vec<Bucket<K, V>>,
    pos: usize,
}

impl<K, V> IntoIter<K, V> {
    pub closed spec fn wf(&self) -> bool {
        self.pos <= self.buckets@.len()
    }

    /// The pairs still to come.
    pub closed spec fn remaining(&self) -> Seq<(K, V)> {
        occupied_entries(self.buckets@.subrange(self.pos as int, self.buckets@.len() as int))
    }

    /// The next pair in slot order, or `None` when all have been handed out.
    pub fn next(&mut self) -> (r: Option<Pair<K, V>>)
        requires
            old(self).wf(),
        ensures
            final(self).wf(),
            r is None ==> old(self).remaining().len() == 0 && final(self).remaining().len() == 0,
            r is Some ==> old(self).remaining().len() > 0 && (r->Some_0.key, r->Some_0.value) == old(self).remaining()[0]
                && final(self).remaining() == old(self).remaining().drop_first(),
    {
        let ghost start = self.remaining();
        while self.pos < self.buckets.len()
            invariant
                self.wf(),
                self.remaining() == start,
                start == old(self).remaining(),
            decreases self.buckets@.len() - self.pos,
        {
            let i = self.pos;
            let ghost b0 = self.buckets@;
            proof {
                lemma_entries_step(b0, i as int);
            }
            let mut taken = Bucket::Unoccupied;
            std::mem::swap(&mut self.buckets[i], &mut taken);
            self.pos = i + 1;
            proof {
                assert(self.buckets@.subrange(i + 1, b0.len() as int) =~= b0.subrange(i + 1, b0.len() as int));
            }
            match taken {
                Bucket::Occupied(e) => {
                    proof {
                        let tail = occupied_entries(b0.subrange(i + 1, b0.len() as int));
                        assert(start == seq![(e.key, e.value)] + tail);
                        assert(start[0] == (e.key, e.value));
                        assert(self.remaining() =~= start.drop_first());
                    }
                    return Some(Pair { key: e.key, value: e.value });
                },
                _ => {},
            }
        }
        proof {
            assert(self.buckets@.subrange(self.pos as int, self.buckets@.len() as int) =~= Seq::empty());
        }
        None
    }
}

impl<K: TableKey, V> HashMap<K, V> {
    /// Iteration by reference over the stored pairs, in slot order.
    pub fn iter<'a>(&'a self) -> (r: Iter<'a, K, V>)
        requires
            self.wf(),
        ensures
            r.wf(),
            r.remaining() == self.entry_seq(),
    {
        let r = Iter { map: self, pos: 0 };
        proof {
            assert(self.buckets@.subrange(0, self.buckets@.len() as int) =~= self.buckets@);
        }
        r
    }

    /// Iteration that consumes the table, in slot order.
    pub fn into_iter(self) -> (r: IntoIter<K, V>)
        requires
            self.wf(),
        ensures
            r.wf(),
            r.remaining() == self.entry_seq(),
    {
        let r = IntoIter { buckets: self.buckets, pos: 0 };
        proof {
            assert(r.buckets@.subrange(0, r.buckets@.len() as int) =~= r.buckets@);
        }
        r
    }
}

impl<K: TableKey, V> Default for HashMap<K, V> {
    fn default() -> (r: Self)
        ensures
            r.wf(),
            r.all_unoccupied(),
            r@ == Map::<K::Id, V>::empty(),
            r.spec_capacity() == INITIAL_CAPACITY,
    {
        Self::new()
    }
}

/// Index in `s` of the slot that the `k`-th occupied pair comes from.
spec fn source_index<K, V>(s: Seq<Bucket<K, V>>, k: int) -> int
    decreases s.len(),
{
    if s.len() == 0 {
        0
    } else if s[0] is Occupied {
        if k == 0 {
            0
        } else {
            1 + source_index(s.drop_first(), k - 1)
        }
    } else {
        1 + source_index(s.drop_first(), k)
    }
}

spec fn pair_at<K, V>(s: Seq<Bucket<K, V>>, t: int) -> (K, V) {
    (s[t]->Occupied_0.key, s[t]->Occupied_0.value)
}

/// The occupied pairs of `s` come, in increasing slot order, from exactly
/// the occupied slots of `s`.
proof fn lemma_entries_sources<K, V>(s: Seq<Bucket<K, V>>)
    ensures
        forall|k: int|
            0 <= k < occupied_entries(s).len() ==> {
                let t = #[trigger] source_index(s, k);
                &&& 0 <= t < s.len()
                &&& s[t] is Occupied
                &&& occupied_entries(s)[k] == pair_at(s, t)
            },
        forall|k1: int, k2: int|
            0 <= k1 < k2 < occupied_entries(s).len() ==> #[trigger] source_index(s, k1)
                < #[trigger] source_index(s, k2),
        forall|t: int|
            0 <= t < s.len() && #[trigger] s[t] is Occupied ==> exists|k: int|
                0 <= k < occupied_entries(s).len() && #[trigger] source_index(s, k) == t,
    decreases s.len(),
{
    if s.len() > 0 {
        let r = s.drop_first();
        lemma_entries_sources(r);
        let e = occupied_entries(s);
        let er = occupied_entries(r);
        if s[0] is Occupied {
            assert(e == seq![pair_at(s, 0)] + er);
            assert forall|k: int| 0 <= k < e.len() implies {
                let t = #[trigger] source_index(s, k);
                &&& 0 <= t < s.len()
                &&& s[t] is Occupied
                &&& e[k] == pair_at(s, t)
            } by {
                if k > 0 {
                    let tr = source_index(r, k - 1);
                    assert(r[tr] == s[tr + 1]);
                }
            }
            assert forall|k1: int, k2: int| 0 <= k1 < k2 < e.len() implies #[trigger] source_index(s, k1)
                < #[trigger] source_index(s, k2) by {
                if k1 > 0 {
                    assert(source_index(r, k1 - 1) < source_index(r, k2 - 1));
                } else {
                    assert(0 <= source_index(r, k2 - 1));
                }
            }
            assert forall|t: int| 0 <= t < s.len() && #[trigger] s[t] is Occupied implies exists|k: int|
                0 <= k < e.len() && #[trigger] source_index(s, k) == t by {
                if t == 0 {
                    assert(source_index(s, 0) == 0);
                } else {
                    assert(r[t - 1] == s[t]);
                    let kr = choose|kr: int| 0 <= kr < er.len() && #[trigger] source_index(r, kr) == t - 1;
                    assert(source_index(s, kr + 1) == t);
                }
            }
        } else {
            assert(e == er);
            assert forall|k: int| 0 <= k < e.len() implies {
                let t = #[trigger] source_index(s, k);
                &&& 0 <= t < s.len()
                &&& s[t] is Occupied
                &&& e[k] == pair_at(s, t)
            } by {
                let tr = source_index(r, k);
                assert(r[tr] == s[tr + 1]);
            }
            assert forall|k1: int, k2: int| 0 <= k1 < k2 < e.len() implies #[trigger] source_index(s, k1)
                < #[trigger] source_index(s, k2) by {
                assert(source_index(r, k1) < source_index(r, k2));
            }
            assert forall|t: int| 0 <= t < s.len() && #[trigger] s[t] is Occupied implies exists|k: int|
                0 <= k < e.len() && #[trigger] source_index(s, k) == t by {
                assert(t != 0);
                assert(r[t - 1] == s[t]);
                let kr = choose|kr: int| 0 <= kr < er.len() && #[trigger] source_index(r, kr) == t - 1;
                assert(source_index(s, kr) == t);
            }
        }
    }
}

impl<K: TableKey, V> HashMap<K, V> {
    /// A well-formed table has at least the initial number of slots, and
    /// holds at most as many pairs as it has slots.
    pub proof fn lemma_size_bounds(&self)
        requires
            self.wf(),
        ensures
            INITIAL_CAPACITY <= self.spec_capacity(),
            self@.len() <= self.spec_capacity(),
    {
        lemma_count_bounds(self.buckets@);
    }

    /// A well-formed table holds finitely many pairs.
    pub proof fn lemma_view_finite(&self)
        requires
            self.wf(),
        ensures
            self@.dom().finite(),
    {
    }

    /// Iteration yields each stored pair once, with its latest value, and
    /// nothing else: as many pairs as the table holds, distinct keys, each
    /// mapped in the table to the value it comes with, and every stored key
    /// among them.
    pub proof fn lemma_entry_seq(&self)
        requires
            self.wf(),
        ensures
            self.entry_seq().len() == self@.len(),
            forall|k: int|
                0 <= k < self.entry_seq().len() ==> self@.contains_key(
                    (#[trigger] self.entry_seq()[k]).0.key_id(),
                ) && self@[self.entry_seq()[k].0.key_id()] == self.entry_seq()[k].1,
            forall|k1: int, k2: int|
                0 <= k1 < k2 < self.entry_seq().len() ==> (#[trigger] self.entry_seq()[k1]).0.key_id()
                    != (#[trigger] self.entry_seq()[k2]).0.key_id(),
            forall|id: K::Id|
                #[trigger] self@.contains_key(id) ==> exists|k: int|
                    0 <= k < self.entry_seq().len() && (#[trigger] self.entry_seq()[k]).0.key_id() == id,
    {
        let b = self.buckets@;
        let e = self.entry_seq();
        lemma_entries_sources(b);
        assert forall|k: int| 0 <= k < e.len() implies self@.contains_key((#[trigger] e[k]).0.key_id())
            && self@[e[k].0.key_id()] == e[k].1 by {
            let t = source_index(b, k);
            let id = Self::key_at(b, t);
            assert(Self::placed(b, id, self.entries@[id], self.slots@[id]));
        }
        assert forall|k1: int, k2: int| 0 <= k1 < k2 < e.len() implies (#[trigger] e[k1]).0.key_id()
            != (#[trigger] e[k2]).0.key_id() by {
            let t1 = source_index(b, k1);
            let t2 = source_index(b, k2);
            assert(self.slots@[Self::key_at(b, t1)] == t1);
            assert(self.slots@[Self::key_at(b, t2)] == t2);
        }
        assert forall|id: K::Id| #[trigger] self@.contains_key(id) implies exists|k: int|
            0 <= k < e.len() && (#[trigger] e[k]).0.key_id() == id by {
            assert(self.slots@.contains_key(id));
            let l = self.slots@[id];
            assert(Self::placed(b, id, self.entries@[id], l));
            let k = choose|k: int| 0 <= k < e.len() && #[trigger] source_index(b, k) == l;
            assert(e[k].0.key_id() == id);
        }
    }
}

} // verus!
