//! A separately chained table: an ordered sequence of buckets, each an
//! unordered list of (key, value) pairs that collide on the same index.
//!
//! The table is specified against a mathematical `Map` from key views to
//! values. Insertion, lookup and removal behave exactly as `Map::insert`,
//! map lookup and `Map::remove` on that view.

use crate::keys::HashKey;
use crate::keys::bucket_of;
use vstd::pervasive::VecAdditionalExecFns;
use vstd::prelude::*;

verus! {

/// Number of buckets a freshly constructed table starts with.
pub const INITIAL_BUCKET_COUNT: usize = 16;

/// A key-value container using separate chaining: each bucket holds the
/// entries whose hash lands on its index.
pub struct Basic<K: HashKey, V> {
    buckets: Vec<Vec<(K, V)>>,
    bucket_count: usize,
    item_count: usize,
    max_load_percent: usize,
    should_resize: bool,
    contents: Ghost<Map<<K as View>::V, V>>,
}

/// The bucket `b` holds an entry whose key has view `kv`.
spec fn bucket_has_key<K: HashKey, V>(b: Seq<(K, V)>, kv: <K as View>::V) -> bool {
    exists|j: int| 0 <= j < b.len() && b[j].0@ == kv
}

/// The keys in bucket `b` have pairwise distinct views.
spec fn distinct_keys<K: HashKey, V>(b: Seq<(K, V)>) -> bool {
    forall|p: int, q: int| 0 <= p < q < b.len() ==> b[p].0@ != b[q].0@
}

/// Entry `j` of bucket `i` sits in the bucket its key hashes to and agrees
/// with the map `m`.
spec fn entry_ok<K: HashKey, V>(
    bs: Seq<Vec<(K, V)>>,
    m: Map<<K as View>::V, V>,
    i: int,
    j: int,
) -> bool {
    &&& bucket_of::<K>(bs[i]@[j].0@, bs.len() as int) == i
    &&& m.contains_key(bs[i]@[j].0@)
    &&& m[bs[i]@[j].0@] == bs[i]@[j].1
}

/// The bucket array `bs` is a faithful chained-table representation of the
/// map `m`: every entry lies in the bucket its key hashes to and carries
/// the mapped value, every mapped key is present in its bucket, and no
/// bucket holds a key twice.
spec fn buckets_ok<K: HashKey, V>(bs: Seq<Vec<(K, V)>>, m: Map<<K as View>::V, V>) -> bool {
    &&& bs.len() > 0
    &&& forall|i: int, j: int|
        0 <= i < bs.len() && 0 <= j < bs[i]@.len() ==> #[trigger] entry_ok(bs, m, i, j)
    &&& forall|i: int| 0 <= i < bs.len() ==> distinct_keys(#[trigger] bs[i]@)
    &&& forall|kv: <K as View>::V| #[trigger] m.contains_key(kv)
        ==> bucket_has_key(bs[bucket_of::<K>(kv, bs.len() as int)]@, kv)
}

impl<K: HashKey, V> Basic<K, V> {
    /// The abstract contents of the table, as a map from key views to
    /// values.
    pub closed spec fn as_map(self) -> Map<<K as View>::V, V> {
        self.contents@
    }

    /// The table is well formed: its buckets faithfully represent its
    /// abstract map and the live-entry count matches the map's size.
    pub closed spec fn wf(self) -> bool {
        &&& self.buckets@.len() == self.bucket_count
        &&& buckets_ok(self.buckets@, self.contents@)
        &&& self.contents@.dom().finite()
        &&& self.item_count == self.contents@.dom().len()
    }

    /// The table's capacity: how many buckets it currently has. The
    /// capacity only ever grows, by doubling.
    pub closed spec fn spec_capacity(self) -> nat {
        self.bucket_count as nat
    }

    /// The configured load-factor threshold, in hundredths: an insertion
    /// considers growth once live entries times one hundred reach this
    /// value times the capacity.
    pub closed spec fn spec_load_threshold(self) -> nat {
        self.max_load_percent as nat
    }

    /// Whether automatic growth is enabled for this table.
    pub closed spec fn spec_resize_enabled(self) -> bool {
        self.should_resize
    }

    /// An insertion doubles the bucket array first exactly when growth
    /// is enabled, the load factor (live entries over capacity) has
    /// reached the configured threshold, and the doubled capacity still
    /// fits the address space.
    pub closed spec fn spec_needs_growth(self) -> bool {
        &&& self.should_resize
        &&& self.item_count * 100 >= self.max_load_percent * self.bucket_count
        &&& self.bucket_count <= usize::MAX / 2
    }

    /// What [`Self::spec_needs_growth`] means, stated over the table's
    /// public view and configuration.
    pub proof fn lemma_needs_growth_characterization(&self)
        requires
            self.wf(),
        ensures
            self.spec_needs_growth() == (self.spec_resize_enabled() && self@.dom().len() * 100
                >= self.spec_load_threshold() * self.spec_capacity() && self.spec_capacity()
                <= usize::MAX as nat / 2),
    {
    }

    /// A well-formed table represents a map with finitely many keys, so
    /// counting arguments about `self@.dom().len()` are meaningful to
    /// callers.
    pub proof fn lemma_dom_finite(&self)
        requires
            self.wf(),
        ensures
            self@.dom().finite(),
    {
    }

    /// Build an empty table with the default configuration: sixteen
    /// buckets, growth enabled once the load factor reaches sixty
    /// percent.
    pub fn new() -> (m: Self)
        ensures
            m.wf(),
            m@ == Map::<<K as View>::V, V>::empty(),
            m.spec_capacity() == INITIAL_BUCKET_COUNT as nat,
            m.spec_load_threshold() == 60,
            m.spec_resize_enabled(),
    {
        Self::with_config(60, true)
    }

    /// Build an empty table. `max_load_percent` is the load-factor
    /// threshold, in hundredths, at or above which an insertion first
    /// doubles the bucket array; `should_resize` disables that growth
    /// entirely when false.
    pub fn with_config(max_load_percent: usize, should_resize: bool) -> (m: Self)
        ensures
            m.wf(),
            m@ == Map::<<K as View>::V, V>::empty(),
            m.spec_capacity() == INITIAL_BUCKET_COUNT as nat,
            m.spec_load_threshold() == max_load_percent as nat,
            m.spec_resize_enabled() == should_resize,
    {
        let buckets = Self::create_buckets(INITIAL_BUCKET_COUNT);
        let m = Basic {
            buckets,
            bucket_count: INITIAL_BUCKET_COUNT,
            item_count: 0,
            max_load_percent,
            should_resize,
            contents: Ghost(Map::empty()),
        };
        proof {
            assert(m.contents@.dom() =~= Set::empty());
        }
        m
    }

    /// Allocate `n` empty buckets.
    fn create_buckets(n: usize) -> (bs: Vec<Vec<(K, V)>>)
        ensures
            bs@.len() == n,
            forall|i: int| 0 <= i < n ==> #[trigger] bs@[i]@.len() == 0,
    {
        let mut bs: Vec<Vec<(K, V)>> = Vec::new();
        let mut i: usize = 0;
        while i < n
            invariant
                0 <= i <= n,
                bs@.len() == i,
                forall|k: int| 0 <= k < i ==> #[trigger] bs@[k]@.len() == 0,
            decreases n - i,
        {
            bs.push(Vec::new());
            i = i + 1;
        }
        bs
    }

    /// The bucket index for `key`: its hash reduced modulo the bucket
    /// count.
    fn bucket_index(&self, key: &K) -> (idx: usize)
        requires
            self.bucket_count > 0,
        ensures
            idx as int == bucket_of::<K>(key@, self.bucket_count as int),
            idx < self.bucket_count,
    {
        let h = key.key_hash();
        (h % (self.bucket_count as u64)) as usize
    }

    /// Scan `b` for an entry whose key equals `key`.
    fn find_in_bucket(b: &Vec<(K, V)>, key: &K) -> (r: Option<usize>)
        ensures
            match r {
                Some(j) => j < b@.len() && b@[j as int].0@ == key@,
                None => forall|j: int| 0 <= j < b@.len() ==> b@[j].0@ != key@,
            },
    {
        let n = b.len();
        let mut j: usize = 0;
        while j < n
            invariant
                n == b@.len(),
                0 <= j <= n,
                forall|jj: int| 0 <= jj < j ==> b@[jj].0@ != key@,
            decreases n - j,
        {
            let e = &b[j];
            if e.0.key_eq(key) {
                return Some(j);
            }
            j = j + 1;
        }
        None
    }

    /// Look up `key`, returning a reference to its value, or nothing if
    /// the key is absent.
    pub fn get(&self, key: &K) -> (r: Option<&V>)
        requires
            self.wf(),
        ensures
            match r {
                Some(v) => self@.contains_key(key@) && *v == self@[key@],
                None => !self@.contains_key(key@),
            },
    {
        let idx = self.bucket_index(key);
        let b = &self.buckets[idx];
        match Self::find_in_bucket(b, key) {
            Some(j) => {
                proof {
                    assert(entry_ok(self.buckets@, self.contents@, idx as int, j as int));
                }
                let e = &b[j];
                Some(&e.1)
            },
            None => {
                proof {
                    if self.contents@.contains_key(key@) {
                        let jj = choose|jj: int|
                            0 <= jj < b@.len() && b@[jj].0@ == key@;
                        assert(false);
                    }
                }
                None
            },
        }
    }

    /// Append the entry `(key, value)`, whose key is not yet represented
    /// in `m`, to the bucket the key hashes to.
    fn append_fresh(bs: &mut Vec<Vec<(K, V)>>, key: K, value: V, idx: usize, Ghost(m): Ghost<Map<<K as View>::V, V>>)
        requires
            buckets_ok(old(bs)@, m),
            !m.contains_key(key@),
            idx < old(bs)@.len(),
            idx as int == bucket_of::<K>(key@, old(bs)@.len() as int),
        ensures
            final(bs)@.len() == old(bs)@.len(),
            buckets_ok(final(bs)@, m.insert(key@, value)),
    {
        let ghost kv = key@;
        let ghost vv = value;
        let ghost bs0 = bs@;
        let mut nb: Vec<(K, V)> = Vec::new();
        bs.set_and_swap(idx, &mut nb);
        nb.push((key, value));
        bs.set_and_swap(idx, &mut nb);
        proof {
            let nb1 = bs@[idx as int];
            let m1 = m.insert(kv, vv);
            assert(bs@ =~= bs0.update(idx as int, nb1));
            assert(nb1@.len() == bs0[idx as int]@.len() + 1);
            assert(nb1@[nb1@.len() - 1].0@ == kv);
            assert(nb1@[nb1@.len() - 1].1 == vv);
            // entries stay in their buckets and agree with the grown map
            assert forall|i: int, j: int|
                0 <= i < bs@.len() && 0 <= j < bs@[i]@.len() implies #[trigger] entry_ok(bs@, m1, i, j) by {
                if i == idx as int && j == bs0[idx as int]@.len() {
                    assert(bs@[i]@[j].0@ == kv);
                } else {
                    assert(entry_ok(bs0, m, i, j));
                    if bs@[i]@[j].0@ == kv {
                        assert(m.contains_key(kv));
                        assert(false);
                    }
                }
            }
            assert forall|i: int| 0 <= i < bs@.len() implies distinct_keys(#[trigger] bs@[i]@) by {
                if i == idx as int {
                    assert forall|p: int, q: int| 0 <= p < q < bs@[i]@.len() implies bs@[i]@[p].0@
                        != bs@[i]@[q].0@ by {
                        assert(distinct_keys(bs0[i]@));
                        if q == bs0[i]@.len() {
                            assert(entry_ok(bs0, m, i, p));
                            if bs0[i]@[p].0@ == kv {
                                assert(m.contains_key(kv));
                            }
                        }
                    }
                } else {
                    assert(distinct_keys(bs0[i]@));
                }
            }
            assert forall|kv2: <K as View>::V| #[trigger] m1.contains_key(kv2) implies bucket_has_key(
                bs@[bucket_of::<K>(kv2, bs@.len() as int)]@,
                kv2,
            ) by {
                if kv2 == kv {
                    assert(bs@[idx as int]@[bs0[idx as int]@.len() as int].0@ == kv);
                } else {
                    assert(m.contains_key(kv2));
                    let bi = bucket_of::<K>(kv2, bs0.len() as int);
                    assert(bucket_has_key(bs0[bi]@, kv2));
                    let jj = choose|jj: int| 0 <= jj < bs0[bi]@.len() && bs0[bi]@[jj].0@ == kv2;
                    assert(bs@[bi]@[jj].0@ == kv2);
                }
            }
        }
    }

    /// Replace the value of the entry at position `j` of bucket `idx`,
    /// which already holds `key`.
    fn overwrite_at(bs: &mut Vec<Vec<(K, V)>>, key: K, value: V, idx: usize, j: usize, Ghost(m): Ghost<Map<<K as View>::V, V>>)
        requires
            buckets_ok(old(bs)@, m),
            idx < old(bs)@.len(),
            j < old(bs)@[idx as int]@.len(),
            old(bs)@[idx as int]@[j as int].0@ == key@,
            idx as int == bucket_of::<K>(key@, old(bs)@.len() as int),
        ensures
            final(bs)@.len() == old(bs)@.len(),
            buckets_ok(final(bs)@, m.insert(key@, value)),
    {
        let ghost kv = key@;
        let ghost vv = value;
        let ghost bs0 = bs@;
        let mut nb: Vec<(K, V)> = Vec::new();
        bs.set_and_swap(idx, &mut nb);
        nb.set(j, (key, value));
        bs.set_and_swap(idx, &mut nb);
        proof {
            let nb1 = bs@[idx as int];
            let m1 = m.insert(kv, vv);
            assert(bs@ =~= bs0.update(idx as int, nb1));
            assert(nb1@ =~= bs0[idx as int]@.update(j as int, nb1@[j as int]));
            assert forall|i: int, j2: int|
                0 <= i < bs@.len() && 0 <= j2 < bs@[i]@.len() implies #[trigger] entry_ok(bs@, m1, i, j2) by {
                assert(entry_ok(bs0, m, i, j2));
                if i == idx as int && j2 == j as int {
                    assert(bs@[i]@[j2].0@ == kv);
                } else {
                    if bs@[i]@[j2].0@ == kv {
                        if i == idx as int {
                            assert(distinct_keys(bs0[i]@));
                            assert(false);
                        } else {
                            assert(false);
                        }
                    }
                }
            }
            assert forall|i: int| 0 <= i < bs@.len() implies distinct_keys(#[trigger] bs@[i]@) by {
                assert(distinct_keys(bs0[i]@));
                if i == idx as int {
                    assert forall|p: int, q: int| 0 <= p < q < bs@[i]@.len() implies bs@[i]@[p].0@
                        != bs@[i]@[q].0@ by {
                        assert(bs0[i]@[p].0@ != bs0[i]@[q].0@);
                    }
                }
            }
            assert forall|kv2: <K as View>::V| #[trigger] m1.contains_key(kv2) implies bucket_has_key(
                bs@[bucket_of::<K>(kv2, bs@.len() as int)]@,
                kv2,
            ) by {
                if kv2 == kv {
                    assert(bs@[idx as int]@[j as int].0@ == kv);
                } else {
                    assert(m.contains_key(kv2));
                    let bi = bucket_of::<K>(kv2, bs0.len() as int);
                    let jj = choose|jj: int| 0 <= jj < bs0[bi]@.len() && bs0[bi]@[jj].0@ == kv2;
                    assert(bs@[bi]@[jj].0@ == kv2);
                }
            }
        }
    }

    /// Upsert: if the table holds `key`, overwrite its value in place
    /// without changing the item count; otherwise add the new entry. When
    /// growth is enabled and the load factor has reached the threshold,
    /// the bucket array is doubled and rehashed first.
    pub fn insert(&mut self, key: K, value: V)
        requires
            old(self).wf(),
            old(self)@.dom().len() < usize::MAX,
        ensures
            final(self).wf(),
            final(self)@ == old(self)@.insert(key@, value),
            final(self).spec_load_threshold() == old(self).spec_load_threshold(),
            final(self).spec_resize_enabled() == old(self).spec_resize_enabled(),
            final(self).spec_capacity() >= old(self).spec_capacity(),
            old(self).spec_needs_growth() ==> final(self).spec_capacity() == 2 * old(self).spec_capacity(),
            !old(self).spec_needs_growth() ==> final(self).spec_capacity() == old(self).spec_capacity(),
            old(self)@.contains_key(key@) ==> final(self)@.dom().len() == old(self)@.dom().len(),
            !old(self)@.contains_key(key@) ==> final(self)@.dom().len() == old(self)@.dom().len() + 1,
    {
        let lhs: u128 = (self.item_count as u128) * 100;
        let threshold_num: u128 = self.max_load_percent as u128;
        let count: u128 = self.bucket_count as u128;
        proof {
            assert(threshold_num * count <= 0xffff_ffff_ffff_ffffu128 * 0xffff_ffff_ffff_ffffu128)
                by (nonlinear_arith)
                requires
                    threshold_num <= 0xffff_ffff_ffff_ffffu128,
                    count <= 0xffff_ffff_ffff_ffffu128,
            ;
        }
        if self.should_resize && lhs >= threshold_num * count && self.bucket_count <= usize::MAX / 2 {
            self.resize();
        }
        let ghost kv = key@;
        let ghost vv = value;
        let ghost m0 = self.contents@;
        let idx = self.bucket_index(&key);
        let found = Self::find_in_bucket(&self.buckets[idx], &key);
        match found {
            Some(j) => {
                proof {
                    assert(entry_ok(self.buckets@, self.contents@, idx as int, j as int));
                }
                Self::overwrite_at(&mut self.buckets, key, value, idx, j, Ghost(m0));
                proof {
                    vstd::set::axiom_set_insert_len(m0.dom(), kv);
                    assert(m0.insert(kv, vv).dom() =~= m0.dom().insert(kv));
                }
            },
            None => {
                proof {
                    if m0.contains_key(kv) {
                        let jj = choose|jj: int|
                            0 <= jj < self.buckets@[idx as int]@.len()
                                && self.buckets@[idx as int]@[jj].0@ == kv;
                        assert(false);
                    }
                }
                Self::append_fresh(&mut self.buckets, key, value, idx, Ghost(m0));
                self.item_count = self.item_count + 1;
                proof {
                    vstd::set::axiom_set_insert_len(m0.dom(), kv);
                    assert(m0.insert(kv, vv).dom() =~= m0.dom().insert(kv));
                }
            },
        }
        self.contents = Ghost(self.contents@.insert(kv, vv));
    }

    /// Remove `key`, returning ownership of its value, or nothing if the
    /// key is absent; an absent key leaves the table unchanged.
    pub fn remove(&mut self, key: &K) -> (r: Option<V>)
        requires
            old(self).wf(),
        ensures
            final(self).wf(),
            final(self)@ == old(self)@.remove(key@),
            final(self).spec_capacity() == old(self).spec_capacity(),
            final(self).spec_load_threshold() == old(self).spec_load_threshold(),
            final(self).spec_resize_enabled() == old(self).spec_resize_enabled(),
            old(self)@.contains_key(key@) ==> final(self)@.dom().len() + 1 == old(self)@.dom().len(),
            !old(self)@.contains_key(key@) ==> final(self)@.dom().len() == old(self)@.dom().len(),
            match r {
                Some(v) => old(self)@.contains_key(key@) && v == old(self)@[key@],
                None => !old(self)@.contains_key(key@) && final(self)@ == old(self)@,
            },
    {
        let ghost m0 = self.contents@;
        let ghost kv = key@;
        let idx = self.bucket_index(key);
        let found = Self::find_in_bucket(&self.buckets[idx], key);
        match found {
            None => {
                proof {
                    if m0.contains_key(kv) {
                        let jj = choose|jj: int|
                            0 <= jj < self.buckets@[idx as int]@.len()
                                && self.buckets@[idx as int]@[jj].0@ == kv;
                        assert(false);
                    }
                    assert(m0.remove(kv) =~= m0);
                }
                None
            },
            Some(j) => {
                proof {
                    assert(entry_ok(self.buckets@, m0, idx as int, j as int));
                    vstd::set::axiom_set_contains_len(m0.dom(), kv);
                    vstd::set::axiom_set_remove_len(m0.dom(), kv);
                }
                let ghost bs0 = self.buckets@;
                let mut nb: Vec<(K, V)> = Vec::new();
                self.buckets.set_and_swap(idx, &mut nb);
                let e = nb.swap_remove(j);
                self.buckets.set_and_swap(idx, &mut nb);
                self.item_count = self.item_count - 1;
                self.contents = Ghost(self.contents@.remove(kv));
                proof {
                    let m1 = m0.remove(kv);
                    let bs1 = self.buckets@;
                    let nb1 = bs1[idx as int];
                    let ob = bs0[idx as int]@;
                    assert(bs1 =~= bs0.update(idx as int, nb1));
                    assert(m1.dom() =~= m0.dom().remove(kv));
                    assert(nb1@ =~= ob.update(j as int, ob.last()).drop_last());
                    assert forall|i: int, j2: int|
                        0 <= i < bs1.len() && 0 <= j2 < bs1[i]@.len() implies #[trigger] entry_ok(bs1, m1, i, j2) by {
                        if i == idx as int {
                            let src: int = if j2 == j as int { ob.len() - 1 } else { j2 };
                            assert(entry_ok(bs0, m0, i, src));
                            assert(bs1[i]@[j2] == ob[src]);
                            assert(distinct_keys(ob));
                            if ob[src].0@ == kv {
                                if src != j as int {
                                    assert(ob[j as int].0@ == kv);
                                    assert(false);
                                } else {
                                    assert(j as int == ob.len() - 1 && j2 == j as int);
                                    assert(j2 < bs1[i]@.len());
                                    assert(false);
                                }
                            }
                        } else {
                            assert(entry_ok(bs0, m0, i, j2));
                            if bs1[i]@[j2].0@ == kv {
                                assert(false);
                            }
                        }
                    }
                    assert forall|i: int| 0 <= i < bs1.len() implies distinct_keys(#[trigger] bs1[i]@) by {
                        assert(distinct_keys(bs0[i]@));
                        if i == idx as int {
                            assert forall|p: int, q: int| 0 <= p < q < bs1[i]@.len() implies bs1[i]@[p].0@
                                != bs1[i]@[q].0@ by {
                                let sp: int = if p == j as int { ob.len() - 1 } else { p };
                                let sq: int = if q == j as int { ob.len() - 1 } else { q };
                                assert(bs1[i]@[p] == ob[sp]);
                                assert(bs1[i]@[q] == ob[sq]);
                                assert(sp != sq);
                                assert(distinct_keys(ob));
                                if sp < sq {
                                    assert(ob[sp].0@ != ob[sq].0@);
                                } else {
                                    assert(ob[sq].0@ != ob[sp].0@);
                                }
                            }
                        }
                    }
                    assert forall|kv2: <K as View>::V| #[trigger] m1.contains_key(kv2) implies bucket_has_key(
                        bs1[bucket_of::<K>(kv2, bs1.len() as int)]@,
                        kv2,
                    ) by {
                        assert(m0.contains_key(kv2));
                        let bi = bucket_of::<K>(kv2, bs0.len() as int);
                        let jj = choose|jj: int| 0 <= jj < bs0[bi]@.len() && bs0[bi]@[jj].0@ == kv2;
                        if bi == idx as int {
                            assert(distinct_keys(ob));
                            assert(jj != j as int);
                            if jj == ob.len() - 1 {
                                assert(bs1[bi]@[j as int].0@ == kv2);
                            } else {
                                assert(bs1[bi]@[jj].0@ == kv2);
                            }
                        } else {
                            assert(bs1[bi]@[jj].0@ == kv2);
                        }
                    }
                }
                Some(e.1)
            },
        }
    }

    /// Double the bucket array and move every entry to the bucket its key
    /// hashes to under the new count. No entry is lost or duplicated: the
    /// abstract contents are unchanged.
    fn resize(&mut self)
        requires
            old(self).wf(),
            old(self).bucket_count <= usize::MAX / 2,
        ensures
            final(self).wf(),
            final(self)@ == old(self)@,
            final(self).spec_capacity() == 2 * old(self).spec_capacity(),
            final(self).spec_load_threshold() == old(self).spec_load_threshold(),
            final(self).spec_resize_enabled() == old(self).spec_resize_enabled(),
    {
        let ghost target = self.contents@;
        let ghost old_count = self.bucket_count as int;
        let new_count = self.bucket_count * 2;
        let mut old_buckets = Self::create_buckets(new_count);
        core::mem::swap(&mut self.buckets, &mut old_buckets);
        self.bucket_count = new_count;
        let ghost obs = old_buckets@;
        let ghost mut placed = Map::<<K as View>::V, V>::empty();
        proof {
            assert(placed.dom() =~= Set::empty());
        }
        let n_old = old_buckets.len();
        proof {
            assert forall|bi: int, j: int|
                0 <= bi < n_old && 0 <= j < old_buckets@[bi]@.len() implies {
                &&& target.contains_key(#[trigger] old_buckets@[bi]@[j].0@)
                &&& target[old_buckets@[bi]@[j].0@] == old_buckets@[bi]@[j].1
                &&& !placed.contains_key(old_buckets@[bi]@[j].0@)
                &&& bucket_of::<K>(old_buckets@[bi]@[j].0@, old_count) == bi
            } by {
                assert(entry_ok(obs, target, bi, j));
            }
            assert forall|kv: <K as View>::V| #[trigger] target.contains_key(kv) implies placed.contains_key(
                kv,
            ) || exists|bi: int, j: int|
                0 <= bi < n_old && 0 <= j < old_buckets@[bi]@.len() && old_buckets@[bi]@[j].0@
                    == kv by {
                let bi = bucket_of::<K>(kv, old_count);
                assert(bucket_has_key(obs[bi]@, kv));
                let j = choose|j: int| 0 <= j < obs[bi]@.len() && obs[bi]@[j].0@ == kv;
                assert(old_buckets@[bi]@[j].0@ == kv);
            }
        }
        let mut i: usize = 0;
        while i < n_old
            invariant
                self.bucket_count == new_count,
                self.max_load_percent == old(self).max_load_percent,
                self.should_resize == old(self).should_resize,
                new_count > 0,
                self.buckets@.len() == new_count,
                self.contents@ == target,
                self.item_count == target.dom().len(),
                target.dom().finite(),
                old_buckets@.len() == n_old,
                0 <= i <= n_old,
                buckets_ok(self.buckets@, placed),
                forall|kv: <K as View>::V| #[trigger] placed.contains_key(kv)
                    ==> target.contains_key(kv) && placed[kv] == target[kv],
                forall|bi: int, j: int|
                    i <= bi < n_old && 0 <= j < old_buckets@[bi]@.len() ==> {
                        &&& target.contains_key(#[trigger] old_buckets@[bi]@[j].0@)
                        &&& target[old_buckets@[bi]@[j].0@] == old_buckets@[bi]@[j].1
                        &&& !placed.contains_key(old_buckets@[bi]@[j].0@)
                        &&& bucket_of::<K>(old_buckets@[bi]@[j].0@, old_count) == bi
                    },
                forall|bi: int| i <= bi < n_old ==> distinct_keys(#[trigger] old_buckets@[bi]@),
                forall|kv: <K as View>::V| #[trigger] target.contains_key(kv)
                    ==> placed.contains_key(kv) || exists|bi: int, j: int|
                        i <= bi < n_old && 0 <= j < old_buckets@[bi]@.len()
                            && old_buckets@[bi]@[j].0@ == kv,
            decreases n_old - i,
        {
            let ghost obs_pre = old_buckets@;
            let mut b: Vec<(K, V)> = Vec::new();
            old_buckets.set_and_swap(i, &mut b);
            let ghost obs_i = old_buckets@;
            proof {
                assert forall|bi: int, j: int|
                    i < bi < n_old && 0 <= j < old_buckets@[bi]@.len() implies {
                    &&& target.contains_key(#[trigger] old_buckets@[bi]@[j].0@)
                    &&& target[old_buckets@[bi]@[j].0@] == old_buckets@[bi]@[j].1
                    &&& !placed.contains_key(old_buckets@[bi]@[j].0@)
                    &&& bucket_of::<K>(old_buckets@[bi]@[j].0@, old_count) == bi
                } by {
                    assert(old_buckets@[bi] == obs_pre[bi]);
                    assert(target.contains_key(obs_pre[bi]@[j].0@));
                }
                assert forall|bi: int| i < bi < n_old implies distinct_keys(
                    #[trigger] old_buckets@[bi]@,
                ) by {
                    assert(old_buckets@[bi] == obs_pre[bi]);
                    assert(distinct_keys(obs_pre[bi]@));
                }
                assert forall|kv: <K as View>::V| #[trigger] target.contains_key(kv) implies placed.contains_key(
                    kv,
                ) || bucket_has_key(b@, kv) || exists|bi: int, j: int|
                    i < bi < n_old && 0 <= j < old_buckets@[bi]@.len()
                        && old_buckets@[bi]@[j].0@ == kv by {
                    if !placed.contains_key(kv) && !bucket_has_key(b@, kv) {
                        let (bi, j) = choose|bi: int, j: int|
                            i <= bi < n_old && 0 <= j < obs_pre[bi]@.len() && obs_pre[bi]@[j].0@
                                == kv;
                        if bi == i as int {
                            assert(b@[j].0@ == kv);
                            assert(false);
                        } else {
                            assert(old_buckets@[bi] == obs_pre[bi]);
                            assert(old_buckets@[bi]@[j].0@ == kv);
                        }
                    }
                }
            }
            while b.len() > 0
                invariant
                    self.bucket_count == new_count,
                    self.max_load_percent == old(self).max_load_percent,
                    self.should_resize == old(self).should_resize,
                    new_count > 0,
                    self.buckets@.len() == new_count,
                    self.contents@ == target,
                    self.item_count == target.dom().len(),
                    target.dom().finite(),
                    old_buckets@ == obs_i,
                    old_buckets@.len() == n_old,
                    0 <= i < n_old,
                    old_buckets@[i as int]@.len() == 0,
                    buckets_ok(self.buckets@, placed),
                    distinct_keys(b@),
                    forall|kv: <K as View>::V| #[trigger] placed.contains_key(kv)
                        ==> target.contains_key(kv) && placed[kv] == target[kv],
                    forall|j: int| 0 <= j < b@.len() ==> {
                        &&& target.contains_key(#[trigger] b@[j].0@)
                        &&& target[b@[j].0@] == b@[j].1
                        &&& !placed.contains_key(b@[j].0@)
                        &&& bucket_of::<K>(b@[j].0@, old_count) == i as int
                    },
                    forall|bi: int, j: int|
                        i < bi < n_old && 0 <= j < old_buckets@[bi]@.len() ==> {
                            &&& target.contains_key(#[trigger] old_buckets@[bi]@[j].0@)
                            &&& target[old_buckets@[bi]@[j].0@] == old_buckets@[bi]@[j].1
                            &&& !placed.contains_key(old_buckets@[bi]@[j].0@)
                            &&& bucket_of::<K>(old_buckets@[bi]@[j].0@, old_count) == bi
                        },
                    forall|bi: int| i < bi < n_old ==> distinct_keys(#[trigger] old_buckets@[bi]@),
                    forall|kv: <K as View>::V| #[trigger] target.contains_key(kv)
                        ==> placed.contains_key(kv)
                            || bucket_has_key(b@, kv)
                            || exists|bi: int, j: int|
                                i < bi < n_old && 0 <= j < old_buckets@[bi]@.len()
                                    && old_buckets@[bi]@[j].0@ == kv,
                decreases b@.len(),
            {
                let ghost b_before = b@;
                let e = b.pop().unwrap();
                let (k2, v2) = e;
                let ghost kv2 = k2@;
                let ghost vv2 = v2;
                let idx2 = self.bucket_index(&k2);
                proof {
                    assert(b_before[b_before.len() - 1].0@ == kv2);
                }
                Self::append_fresh(&mut self.buckets, k2, v2, idx2, Ghost(placed));
                proof {
                    let placed0 = placed;
                    placed = placed.insert(kv2, vv2);
                    assert forall|kv: <K as View>::V| #[trigger] target.contains_key(kv) implies placed.contains_key(
                        kv,
                    ) || bucket_has_key(b@, kv) || exists|bi: int, j: int|
                        i < bi < n_old && 0 <= j < old_buckets@[bi]@.len()
                            && old_buckets@[bi]@[j].0@ == kv by {
                        if !placed.contains_key(kv) && !bucket_has_key(b@, kv) {
                            assert(!placed0.contains_key(kv));
                            if bucket_has_key(b_before, kv) {
                                let j = choose|j: int|
                                    0 <= j < b_before.len() && b_before[j].0@ == kv;
                                if j == b_before.len() - 1 {
                                    assert(kv == kv2);
                                    assert(false);
                                } else {
                                    assert(b@[j].0@ == kv);
                                    assert(false);
                                }
                            }
                        }
                    }
                    assert forall|j: int| 0 <= j < b@.len() implies !placed.contains_key(
                        #[trigger] b@[j].0@,
                    ) by {
                        assert(b_before[j] == b@[j]);
                        assert(distinct_keys(b_before));
                        assert(b@[j].0@ != kv2);
                    }
                    assert forall|bi: int, j: int|
                        i < bi < n_old && 0 <= j < old_buckets@[bi]@.len() implies !placed.contains_key(
                        #[trigger] old_buckets@[bi]@[j].0@,
                    ) by {
                        assert(bucket_of::<K>(old_buckets@[bi]@[j].0@, old_count) == bi);
                        assert(bucket_of::<K>(kv2, old_count) == i as int);
                    }
                }
            }
            i = i + 1;
        }
        proof {
            assert forall|kv: <K as View>::V| #[trigger] target.contains_key(kv) implies placed.contains_key(
                kv,
            ) by {}
            assert(placed =~= target);
        }
    }

    /// How many live entries the table holds.
    pub fn len(&self) -> (n: usize)
        requires
            self.wf(),
        ensures
            n == self@.dom().len(),
    {
        self.item_count
    }
}

impl<K: HashKey, V> View for Basic<K, V> {
    type V = Map<<K as View>::V, V>;

    open spec fn view(&self) -> Map<<K as View>::V, V> {
        self.as_map()
    }
}

} // verus!
