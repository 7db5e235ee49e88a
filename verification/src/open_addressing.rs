//! An open-addressed table: a single flat array of slots, probed linearly
//! forward from a hash-derived start index, with no wraparound. Probing
//! that runs off the end of the array grows it by one slot instead.
//!
//! Two probing disciplines are supported, chosen at construction: first
//! fit places an entry in the first free slot on its probe path, while
//! Robin Hood lets an incoming entry displace a resident entry that sits
//! closer to its own ideal slot, bounding the variance of probe lengths.
//!
//! Every occupied slot records its origin: the index its key hashes to.
//! The table maintains, for each occupied slot, that the whole probe path
//! from the origin up to the slot is occupied, so a lookup may stop at
//! the first empty slot it meets.

use crate::keys::HashKey;
use crate::keys::bucket_of;
use vstd::pervasive::VecAdditionalExecFns;
use vstd::prelude::*;

verus! {

/// Number of slots a freshly constructed table starts with.
pub const INITIAL_SLOT_COUNT: usize = 16;

/// The probing discipline of an open-addressed table, fixed at
/// construction.
#[derive(Clone, Copy, PartialEq, Eq, Structural)]
pub enum ProbePolicy {
    /// Place an entry in the first empty slot on its probe path.
    FirstFit,
    /// Let an incoming entry displace a resident entry whose displacement
    /// from its own origin is smaller.
    RobinHood,
}

/// One storage cell: empty, or an entry together with the index its key
/// hashes to (its origin).
enum Slot<K, V> {
    Empty,
    Full { key: K, value: V, origin: usize },
}

/// A key-value container using open addressing with forward linear
/// probing.
pub struct Advanced<K: HashKey, V> {
    slots: Vec<Slot<K, V>>,
    slot_count: usize,
    item_count: usize,
    max_load_percent: usize,
    should_resize: bool,
    probing: ProbePolicy,
    contents: Ghost<Map<<K as View>::V, V>>,
}

/// The slot holds an entry whose key has view `kv`.
spec fn slot_has_kv<K: HashKey, V>(s: Slot<K, V>, kv: <K as View>::V) -> bool {
    match s {
        Slot::Full { key, .. } => key@ == kv,
        Slot::Empty => false,
    }
}

/// If the slot is occupied, its recorded origin is at most `o`.
spec fn origin_at_most<K: HashKey, V>(s: Slot<K, V>, o: int) -> bool {
    match s {
        Slot::Full { origin, .. } => origin <= o,
        Slot::Empty => true,
    }
}

/// The two slots do not hold entries with the same key view.
spec fn keys_differ<K: HashKey, V>(s1: Slot<K, V>, s2: Slot<K, V>) -> bool {
    match (s1, s2) {
        (Slot::Full { key: k1, .. }, Slot::Full { key: k2, .. }) => k1@ != k2@,
        _ => true,
    }
}

/// Structural soundness of slot `i` for a table hashed modulo `n`: an
/// occupied slot records the origin its key hashes to, sits at or after
/// that origin, and every slot on the probe path from the origin up to
/// it is occupied.
spec fn slot_struct_ok<K: HashKey, V>(slots: Seq<Slot<K, V>>, n: int, i: int) -> bool {
    match slots[i] {
        Slot::Empty => true,
        Slot::Full { key, origin, .. } => {
            &&& origin == bucket_of::<K>(key@, n)
            &&& origin <= i
            &&& forall|j: int| origin <= j < i ==> slots[j] is Full
        },
    }
}

/// An occupied slot `i` agrees with the map `m`: its key is mapped and
/// carries the mapped value.
spec fn slot_agrees<K: HashKey, V>(slots: Seq<Slot<K, V>>, m: Map<<K as View>::V, V>, i: int) -> bool {
    match slots[i] {
        Slot::Empty => true,
        Slot::Full { key, value, .. } => {
            &&& m.contains_key(key@)
            &&& m[key@] == value
        },
    }
}

/// The Robin Hood ordering at slot `i`: every occupied slot on the probe
/// path leading to `i` has an origin at most `i`'s own origin, so probe
/// displacements never decrease along a run.
spec fn rh_ordered<K: HashKey, V>(slots: Seq<Slot<K, V>>, i: int) -> bool {
    match slots[i] {
        Slot::Empty => true,
        Slot::Full { origin, .. } => forall|j: int|
            origin <= j < i ==> origin_at_most(#[trigger] slots[j], origin as int),
    }
}

/// The slot holds exactly the entry `(kvv, v)` with origin `o`.
spec fn slot_is<K: HashKey, V>(s: Slot<K, V>, kvv: <K as View>::V, v: V, o: int) -> bool {
    match s {
        Slot::Full { key, value, origin } => key@ == kvv && value == v && origin == o,
        Slot::Empty => false,
    }
}

/// Structural soundness of slot `i` while one cell, `hole`, has just been
/// cleared: as [`slot_struct_ok`], except that the probe path may pass
/// through the hole.
spec fn slot_struct_hole<K: HashKey, V>(slots: Seq<Slot<K, V>>, n: int, i: int, hole: int) -> bool {
    match slots[i] {
        Slot::Empty => true,
        Slot::Full { key, origin, .. } => {
            &&& origin == bucket_of::<K>(key@, n)
            &&& origin <= i
            &&& forall|j: int| origin <= j < i ==> slots[j] is Full || j == hole
        },
    }
}

/// The displacement of the entry in slot `i`: how far it sits from its
/// origin. An empty slot contributes nothing.
spec fn slot_displacement<K: HashKey, V>(s: Slot<K, V>, i: int) -> int {
    match s {
        Slot::Full { origin, .. } => i - origin,
        Slot::Empty => 0,
    }
}

/// The largest displacement among the first `k` slots.
spec fn max_disp_to<K: HashKey, V>(slots: Seq<Slot<K, V>>, k: int) -> int
    decreases k,
{
    if k <= 0 {
        0
    } else if slot_displacement(slots[k - 1], k - 1) > max_disp_to(slots, k - 1) {
        slot_displacement(slots[k - 1], k - 1)
    } else {
        max_disp_to(slots, k - 1)
    }
}

/// The sum of the displacements of the first `k` slots.
spec fn total_disp_to<K: HashKey, V>(slots: Seq<Slot<K, V>>, k: int) -> int
    decreases k,
{
    if k <= 0 {
        0
    } else {
        total_disp_to(slots, k - 1) + slot_displacement(slots[k - 1], k - 1)
    }
}

/// The table `slots` holds an entry whose key has view `kv`.
spec fn table_has_kv<K: HashKey, V>(slots: Seq<Slot<K, V>>, kv: <K as View>::V) -> bool {
    exists|i: int| 0 <= i < slots.len() && slot_has_kv(#[trigger] slots[i], kv)
}

/// The slot array `slots`, hashed modulo `n` under discipline `policy`,
/// is a faithful open-addressed representation of the map `m`.
spec fn slots_ok<K: HashKey, V>(
    slots: Seq<Slot<K, V>>,
    n: int,
    policy: ProbePolicy,
    m: Map<<K as View>::V, V>,
) -> bool {
    &&& 0 < n <= slots.len()
    &&& forall|i: int| 0 <= i < slots.len() ==> #[trigger] slot_struct_ok(slots, n, i)
    &&& forall|i: int| 0 <= i < slots.len() ==> #[trigger] slot_agrees(slots, m, i)
    &&& forall|i: int, j: int|
        0 <= i < j < slots.len() ==> keys_differ(#[trigger] slots[i], #[trigger] slots[j])
    &&& forall|kv: <K as View>::V| #[trigger] m.contains_key(kv) ==> table_has_kv(slots, kv)
    &&& policy == ProbePolicy::RobinHood ==> forall|i: int|
        0 <= i < slots.len() ==> #[trigger] rh_ordered(slots, i)
}

/// If the probe path of `kv` has been scanned from its origin up to an
/// empty slot (or to the end of the table) without a match, the key is
/// not in the map.
proof fn lemma_absent<K: HashKey, V>(
    slots: Seq<Slot<K, V>>,
    n: int,
    policy: ProbePolicy,
    m: Map<<K as View>::V, V>,
    kv: <K as View>::V,
    p: int,
)
    requires
        slots_ok(slots, n, policy, m),
        bucket_of::<K>(kv, n) <= p <= slots.len(),
        forall|j: int| bucket_of::<K>(kv, n) <= j < p ==> !slot_has_kv(#[trigger] slots[j], kv),
        p == slots.len() || slots[p] is Empty,
    ensures
        !m.contains_key(kv),
{
    let h = bucket_of::<K>(kv, n);
    if m.contains_key(kv) {
        assert(table_has_kv(slots, kv));
        let i = choose|i: int| 0 <= i < slots.len() && slot_has_kv(slots[i], kv);
        assert(slot_struct_ok(slots, n, i));
        assert(bucket_of::<K>(kv, n) <= i);
        if i < p {
            assert(!slot_has_kv(slots[i], kv));
        } else {
            assert(p < slots.len());
            assert(slots[p] is Full);
        }
        assert(false);
    }
}

/// Under the Robin Hood discipline, meeting an occupied slot whose origin
/// is later than the probed key's origin ends the search: the key cannot
/// lie further along the path.
proof fn lemma_rh_absent<K: HashKey, V>(
    slots: Seq<Slot<K, V>>,
    n: int,
    m: Map<<K as View>::V, V>,
    kv: <K as View>::V,
    p: int,
)
    requires
        slots_ok(slots, n, ProbePolicy::RobinHood, m),
        bucket_of::<K>(kv, n) <= p < slots.len(),
        forall|j: int| bucket_of::<K>(kv, n) <= j < p ==> !slot_has_kv(#[trigger] slots[j], kv),
        !origin_at_most(slots[p], bucket_of::<K>(kv, n)),
    ensures
        !m.contains_key(kv),
{
    let h = bucket_of::<K>(kv, n);
    if m.contains_key(kv) {
        assert(table_has_kv(slots, kv));
        let i = choose|i: int| 0 <= i < slots.len() && slot_has_kv(slots[i], kv);
        assert(slot_struct_ok(slots, n, i));
        assert(h <= i);
        if i < p {
            assert(!slot_has_kv(slots[i], kv));
        } else if i == p {
            assert(origin_at_most(slots[p], h));
        } else {
            assert(rh_ordered(slots, i));
            assert(origin_at_most(slots[p], h));
        }
        assert(false);
    }
}

impl<K: HashKey, V> Advanced<K, V> {
    /// The abstract contents of the table, as a map from key views to
    /// values.
    pub closed spec fn as_map(self) -> Map<<K as View>::V, V> {
        self.contents@
    }

    /// The table is well formed: its slots faithfully represent its
    /// abstract map and the live-entry count matches the map's size.
    pub closed spec fn wf(self) -> bool {
        &&& slots_ok(self.slots@, self.slot_count as int, self.probing, self.contents@)
        &&& self.contents@.dom().finite()
        &&& self.item_count == self.contents@.dom().len()
    }

    /// The table's capacity: the slot count keys are hashed modulo. The
    /// capacity only ever grows, by doubling; probing that runs off the
    /// end of the array appends extra storage without changing it.
    pub closed spec fn spec_capacity(self) -> nat {
        self.slot_count as nat
    }

    /// The physical size of the slot array: the capacity plus any slots
    /// appended when a probe ran off the end.
    pub closed spec fn spec_storage(self) -> nat {
        self.slots@.len() as nat
    }

    /// The configured load-factor threshold, in hundredths: an insertion
    /// considers growth once live entries times one hundred reach this
    /// value times the capacity.
    pub closed spec fn spec_load_threshold(self) -> nat {
        self.max_load_percent as nat
    }

    /// Whether automatic growth is enabled for this table.
    pub closed spec fn spec_resize_enabled(self) -> bool {
        self.should_resize
    }

    /// The probing discipline this table was built with, fixed for its
    /// lifetime.
    pub closed spec fn spec_policy(self) -> ProbePolicy {
        self.probing
    }

    /// An insertion doubles the capacity first exactly when growth is
    /// enabled, the load factor (live entries over capacity) has reached
    /// the configured threshold, and the doubled capacity still fits the
    /// address space.
    pub closed spec fn spec_needs_growth(self) -> bool {
        &&& self.should_resize
        &&& self.item_count * 100 >= self.max_load_percent * self.slot_count
        &&& self.slot_count <= usize::MAX / 2
    }

    /// What [`Self::spec_needs_growth`] means, stated over the table's
    /// public view and configuration.
    pub proof fn lemma_needs_growth_characterization(&self)
        requires
            self.wf(),
        ensures
            self.spec_needs_growth() == (self.spec_resize_enabled() && self@.dom().len() * 100
                >= self.spec_load_threshold() * self.spec_capacity() && self.spec_capacity()
                <= usize::MAX as nat / 2),
    {
    }

    /// A well-formed table represents a map with finitely many keys, so
    /// counting arguments about `self@.dom().len()` are meaningful to
    /// callers.
    pub proof fn lemma_dom_finite(&self)
        requires
            self.wf(),
        ensures
            self@.dom().finite(),
    {
    }

    /// Build an empty table with the default configuration: sixteen
    /// slots, first-fit probing, growth enabled once the load factor
    /// reaches ninety percent.
    pub fn new() -> (m: Self)
        ensures
            m.wf(),
            m@ == Map::<<K as View>::V, V>::empty(),
            m.spec_capacity() == INITIAL_SLOT_COUNT as nat,
            m.spec_storage() == m.spec_capacity(),
            m.spec_load_threshold() == 90,
            m.spec_resize_enabled(),
            m.spec_policy() == ProbePolicy::FirstFit,
    {
        Self::with_config(90, true, ProbePolicy::FirstFit)
    }

    /// Build an empty table. `max_load_percent` is the load-factor
    /// threshold, in hundredths, at or above which an insertion first
    /// doubles the slot array; `should_resize` disables that growth when
    /// false; `probing` fixes the probing discipline for the table's
    /// lifetime.
    pub fn with_config(max_load_percent: usize, should_resize: bool, probing: ProbePolicy) -> (m: Self)
        ensures
            m.wf(),
            m@ == Map::<<K as View>::V, V>::empty(),
            m.spec_capacity() == INITIAL_SLOT_COUNT as nat,
            m.spec_storage() == m.spec_capacity(),
            m.spec_load_threshold() == max_load_percent as nat,
            m.spec_resize_enabled() == should_resize,
            m.spec_policy() == probing,
    {
        let slots = Self::create_slots(INITIAL_SLOT_COUNT);
        let m = Advanced {
            slots,
            slot_count: INITIAL_SLOT_COUNT,
            item_count: 0,
            max_load_percent,
            should_resize,
            probing,
            contents: Ghost(Map::empty()),
        };
        proof {
            assert(m.contents@.dom() =~= Set::empty());
        }
        m
    }

    /// Allocate `n` empty slots.
    fn create_slots(n: usize) -> (ss: Vec<Slot<K, V>>)
        ensures
            ss@.len() == n,
            forall|i: int| 0 <= i < n ==> (#[trigger] ss@[i]) is Empty,
    {
        let mut ss: Vec<Slot<K, V>> = Vec::new();
        let mut i: usize = 0;
        while i < n
            invariant
                0 <= i <= n,
                ss@.len() == i,
                forall|k: int| 0 <= k < i ==> (#[trigger] ss@[k]) is Empty,
            decreases n - i,
        {
            ss.push(Slot::Empty);
            i = i + 1;
        }
        ss
    }

    /// The ideal slot index for `key`: its hash reduced modulo the slot
    /// count.
    fn slot_index(&self, key: &K) -> (idx: usize)
        requires
            self.slot_count > 0,
        ensures
            idx as int == bucket_of::<K>(key@, self.slot_count as int),
            idx < self.slot_count,
    {
        let h = key.key_hash();
        (h % (self.slot_count as u64)) as usize
    }

    /// Look up `key`, returning a reference to its value, or nothing if
    /// the key is absent. The probe starts at the key's ideal slot and
    /// stops at a match or the first empty slot; under Robin Hood it also
    /// stops early at a resident displaced less than the query.
    pub fn get(&self, key: &K) -> (r: Option<&V>)
        requires
            self.wf(),
        ensures
            match r {
                Some(v) => self@.contains_key(key@) && *v == self@[key@],
                None => !self@.contains_key(key@),
            },
    {
        let h = self.slot_index(key);
        let len = self.slots.len();
        let robin = match self.probing {
            ProbePolicy::RobinHood => true,
            ProbePolicy::FirstFit => false,
        };
        let mut i: usize = h;
        while i < len
            invariant
                self.wf(),
                len == self.slots@.len(),
                h as int == bucket_of::<K>(key@, self.slot_count as int),
                h <= i <= len,
                robin == (self.probing == ProbePolicy::RobinHood),
                forall|j: int| h <= j < i ==> !slot_has_kv(#[trigger] self.slots@[j], key@),
            decreases len - i,
        {
            match &self.slots[i] {
                Slot::Empty => {
                    proof {
                        lemma_absent(
                            self.slots@,
                            self.slot_count as int,
                            self.probing,
                            self.contents@,
                            key@,
                            i as int,
                        );
                    }
                    return None;
                },
                Slot::Full { key: resident, value, origin } => {
                    if robin && *origin > h {
                        proof {
                            lemma_rh_absent(
                                self.slots@,
                                self.slot_count as int,
                                self.contents@,
                                key@,
                                i as int,
                            );
                        }
                        return None;
                    }
                    if resident.key_eq(key) {
                        proof {
                            assert(slot_agrees(self.slots@, self.contents@, i as int));
                        }
                        return Some(value);
                    }
                },
            }
            i = i + 1;
        }
        proof {
            lemma_absent(
                self.slots@,
                self.slot_count as int,
                self.probing,
                self.contents@,
                key@,
                len as int,
            );
        }
        None
    }

    /// Place `(key, value)` under the first-fit discipline: probe forward
    /// from the key's ideal slot; overwrite the slot already holding the
    /// key, or fill the first empty slot; append a slot when the probe
    /// runs off the end of the array. Returns whether the entry count
    /// grew, which is exactly when the key was absent from `m`.
    fn place_first_fit(&mut self, key: K, value: V, Ghost(m): Ghost<Map<<K as View>::V, V>>) -> (grew: bool)
        requires
            slots_ok(old(self).slots@, old(self).slot_count as int, old(self).probing, m),
            old(self).probing == ProbePolicy::FirstFit,
        ensures
            final(self).slot_count == old(self).slot_count,
            final(self).probing == old(self).probing,
            final(self).item_count == old(self).item_count,
            final(self).contents == old(self).contents,
            final(self).max_load_percent == old(self).max_load_percent,
            final(self).should_resize == old(self).should_resize,
            old(self).slots@.len() <= final(self).slots@.len() <= old(self).slots@.len() + 1,
            slots_ok(
                final(self).slots@,
                final(self).slot_count as int,
                final(self).probing,
                m.insert(key@, value),
            ),
            grew == !m.contains_key(key@),
    {
        let ghost kv0 = key@;
        let ghost vv0 = value;
        let ghost m1 = m.insert(kv0, vv0);
        let ghost n = old(self).slot_count as int;
        let h = self.slot_index(&key);
        let len = self.slots.len();
        let mut i: usize = h;
        while i < len
            invariant
                self == (old(self)),
                self.probing == ProbePolicy::FirstFit,
                slots_ok(self.slots@, n, ProbePolicy::FirstFit, m),
                n == self.slot_count as int,
                len == self.slots@.len(),
                h as int == bucket_of::<K>(kv0, n),
                kv0 == key@,
                vv0 == value,
                m1 == m.insert(kv0, vv0),
                h <= i <= len,
                forall|j: int| h <= j < i ==> (#[trigger] self.slots@[j]) is Full,
                forall|j: int| h <= j < i ==> !slot_has_kv(#[trigger] self.slots@[j], kv0),
            decreases len - i,
        {
            let is_match: bool;
            let is_empty: bool;
            match &self.slots[i] {
                Slot::Empty => {
                    is_empty = true;
                    is_match = false;
                },
                Slot::Full { key: resident, .. } => {
                    is_empty = false;
                    is_match = resident.key_eq(&key);
                },
            }
            if is_match {
                let ghost s0 = self.slots@;
                self.slots.set(i, Slot::Full { key, value, origin: h });
                proof {
                    let s1 = self.slots@;
                    assert(slot_agrees(s0, m, i as int));
                    assert(m.contains_key(kv0));
                    Self::lemma_replace_same_key(
                        s0,
                        s1,
                        n,
                        ProbePolicy::FirstFit,
                        m,
                        m1,
                        kv0,
                        vv0,
                        h as int,
                        i as int,
                    );
                }
                return false;
            }
            if is_empty {
                let ghost s0 = self.slots@;
                proof {
                    lemma_absent(s0, n, ProbePolicy::FirstFit, m, kv0, i as int);
                }
                self.slots.set(i, Slot::Full { key, value, origin: h });
                proof {
                    let s1 = self.slots@;
                    Self::lemma_fill_fresh(s0, s1, n, ProbePolicy::FirstFit, m, m1, kv0, vv0, h as int, i as int);
                }
                return true;
            }
            i = i + 1;
        }
        let ghost s0 = self.slots@;
        proof {
            lemma_absent(s0, n, ProbePolicy::FirstFit, m, kv0, len as int);
        }
        self.slots.push(Slot::Full { key, value, origin: h });
        proof {
            let s1 = self.slots@;
            Self::lemma_fill_fresh(s0, s1, n, ProbePolicy::FirstFit, m, m1, kv0, vv0, h as int, len as int);
        }
        true
    }

    /// Replacing the entry at slot `i`, which already holds the key view
    /// `kv0`, by `(kv0, vv0)` at its unchanged origin keeps the table a
    /// faithful representation, now of `m` with `kv0` rebound.
    proof fn lemma_replace_same_key(
        s0: Seq<Slot<K, V>>,
        s1: Seq<Slot<K, V>>,
        n: int,
        policy: ProbePolicy,
        m: Map<<K as View>::V, V>,
        m1: Map<<K as View>::V, V>,
        kv0: <K as View>::V,
        vv0: V,
        h: int,
        i: int,
    )
        requires
            slots_ok(s0, n, policy, m),
            m1 == m.insert(kv0, vv0),
            h == bucket_of::<K>(kv0, n),
            0 <= i < s0.len(),
            slot_has_kv(s0[i], kv0),
            s1.len() == s0.len(),
            forall|j: int| 0 <= j < s1.len() && j != i ==> s1[j] == s0[j],
            slot_is(s1[i], kv0, vv0, h),
        ensures
            slots_ok(s1, n, policy, m1),
    {
        assert(slot_struct_ok(s0, n, i));
        assert forall|j: int| 0 <= j < s1.len() implies #[trigger] slot_struct_ok(s1, n, j) by {
            assert(slot_struct_ok(s0, n, j));
            if j == i {
                assert forall|jj: int| h <= jj < i implies (#[trigger] s1[jj]) is Full by {
                    assert(s0[jj] is Full);
                }
            } else {
                match s0[j] {
                    Slot::Full { origin: oj, .. } => {
                        assert forall|jj: int| oj <= jj < j implies (#[trigger] s1[jj]) is Full by {
                            assert(s0[jj] is Full);
                        }
                    },
                    Slot::Empty => {},
                }
            }
        }
        assert forall|j: int| 0 <= j < s1.len() implies #[trigger] slot_agrees(s1, m1, j) by {
            assert(slot_agrees(s0, m, j));
            if j != i {
                if j < i {
                    assert(keys_differ(s0[j], s0[i]));
                } else {
                    assert(keys_differ(s0[i], s0[j]));
                }
            }
        }
        assert forall|a: int, b: int| 0 <= a < b < s1.len() implies keys_differ(
            #[trigger] s1[a],
            #[trigger] s1[b],
        ) by {
            assert(keys_differ(s0[a], s0[b]));
        }
        assert forall|kv: <K as View>::V| #[trigger] m1.contains_key(kv) implies table_has_kv(
            s1,
            kv,
        ) by {
            if kv == kv0 {
                assert(slot_has_kv(s1[i], kv0));
            } else {
                assert(m.contains_key(kv));
                let jw = choose|jw: int| 0 <= jw < s0.len() && slot_has_kv(s0[jw], kv);
                assert(jw != i);
                assert(slot_has_kv(s1[jw], kv));
            }
        }
        if policy == ProbePolicy::RobinHood {
            assert forall|j: int| 0 <= j < s1.len() implies #[trigger] rh_ordered(s1, j) by {
                assert(rh_ordered(s0, j));
                if j == i {
                    assert forall|jj: int| h <= jj < i implies origin_at_most(
                        #[trigger] s1[jj],
                        h,
                    ) by {
                        assert(origin_at_most(s0[jj], h));
                    }
                } else {
                    match s0[j] {
                        Slot::Full { origin: oj, .. } => {
                            assert forall|jj: int| oj <= jj < j implies origin_at_most(
                                #[trigger] s1[jj],
                                oj as int,
                            ) by {
                                assert(origin_at_most(s0[jj], oj as int));
                            }
                        },
                        Slot::Empty => {},
                    }
                }
            }
        }
    }

    /// Filling an empty slot `i` (or appending slot `i` at the end of the
    /// array) with a fresh entry `(kv0, vv0)` whose whole probe path up
    /// to `i` is occupied keeps the table a faithful representation, now
    /// of `m` extended with that binding.
    proof fn lemma_fill_fresh(
        s0: Seq<Slot<K, V>>,
        s1: Seq<Slot<K, V>>,
        n: int,
        policy: ProbePolicy,
        m: Map<<K as View>::V, V>,
        m1: Map<<K as View>::V, V>,
        kv0: <K as View>::V,
        vv0: V,
        h: int,
        i: int,
    )
        requires
            slots_ok(s0, n, policy, m),
            !m.contains_key(kv0),
            m1 == m.insert(kv0, vv0),
            h == bucket_of::<K>(kv0, n),
            h <= i <= s0.len(),
            s1.len() == if i == s0.len() {
                s0.len() + 1
            } else {
                s0.len()
            },
            i < s0.len() ==> s0[i] is Empty,
            forall|j: int| 0 <= j < s1.len() && j != i ==> s1[j] == s0[j],
            slot_is(s1[i], kv0, vv0, h),
            forall|j: int| h <= j < i ==> (#[trigger] s0[j]) is Full,
            policy == ProbePolicy::RobinHood ==> forall|j: int|
                h <= j < i ==> origin_at_most(#[trigger] s0[j], h),
        ensures
            slots_ok(s1, n, policy, m1),
    {
        assert forall|j: int| 0 <= j < s1.len() implies #[trigger] slot_struct_ok(s1, n, j) by {
            if j == i {
                assert forall|jj: int| h <= jj < i implies (#[trigger] s1[jj]) is Full by {
                    assert(s0[jj] is Full);
                }
            } else {
                assert(slot_struct_ok(s0, n, j));
                match s0[j] {
                    Slot::Full { origin: oj, .. } => {
                        assert forall|jj: int| oj <= jj < j implies (#[trigger] s1[jj]) is Full by {
                            assert(s0[jj] is Full);
                        }
                    },
                    Slot::Empty => {},
                }
            }
        }
        assert forall|j: int| 0 <= j < s1.len() implies #[trigger] slot_agrees(s1, m1, j) by {
            if j != i {
                assert(slot_agrees(s0, m, j));
                match s0[j] {
                    Slot::Full { key: kj, .. } => {
                        assert(m.contains_key(kj@));
                        assert(kj@ != kv0);
                    },
                    Slot::Empty => {},
                }
            }
        }
        assert forall|a: int, b: int| 0 <= a < b < s1.len() implies keys_differ(
            #[trigger] s1[a],
            #[trigger] s1[b],
        ) by {
            if a != i && b != i {
                assert(keys_differ(s0[a], s0[b]));
            } else {
                let other: int = if a == i {
                    b
                } else {
                    a
                };
                assert(slot_agrees(s0, m, other));
                match s0[other] {
                    Slot::Full { key: kj, .. } => {
                        assert(m.contains_key(kj@));
                        assert(kj@ != kv0);
                    },
                    Slot::Empty => {},
                }
            }
        }
        assert forall|kv: <K as View>::V| #[trigger] m1.contains_key(kv) implies table_has_kv(
            s1,
            kv,
        ) by {
            if kv == kv0 {
                assert(slot_has_kv(s1[i], kv0));
            } else {
                assert(m.contains_key(kv));
                let jw = choose|jw: int| 0 <= jw < s0.len() && slot_has_kv(s0[jw], kv);
                assert(jw != i);
                assert(slot_has_kv(s1[jw], kv));
            }
        }
        if policy == ProbePolicy::RobinHood {
            assert forall|j: int| 0 <= j < s1.len() implies #[trigger] rh_ordered(s1, j) by {
                if j == i {
                    assert forall|jj: int| h <= jj < i implies origin_at_most(
                        #[trigger] s1[jj],
                        h,
                    ) by {
                        assert(origin_at_most(s0[jj], h));
                    }
                } else {
                    assert(rh_ordered(s0, j));
                    assert(slot_struct_ok(s0, n, j));
                    match s0[j] {
                        Slot::Full { origin: oj, .. } => {
                            assert forall|jj: int| oj <= jj < j implies origin_at_most(
                                #[trigger] s1[jj],
                                oj as int,
                            ) by {
                                assert(s0[jj] is Full);
                                assert(origin_at_most(s0[jj], oj as int));
                            }
                        },
                        Slot::Empty => {},
                    }
                }
            }
        }
    }

    /// Placing the carried entry `(kc, vc)` into the empty slot `i` (or
    /// appending it as slot `i` at the end of the array), when no slot
    /// holds its key and its whole probe path up to `i` is occupied by
    /// entries displaced at least as far, yields a faithful Robin Hood
    /// representation of `m1`.
    proof fn lemma_rh_finish(
        s0: Seq<Slot<K, V>>,
        s1: Seq<Slot<K, V>>,
        n: int,
        m1: Map<<K as View>::V, V>,
        kc: <K as View>::V,
        vc: V,
        hc: int,
        i: int,
    )
        requires
            0 < n <= s0.len(),
            hc == bucket_of::<K>(kc, n),
            hc <= i <= s0.len(),
            i < s0.len() ==> s0[i] is Empty,
            s1.len() == if i == s0.len() {
                s0.len() + 1
            } else {
                s0.len()
            },
            forall|j: int| 0 <= j < s1.len() && j != i ==> s1[j] == s0[j],
            slot_is(s1[i], kc, vc, hc),
            forall|j: int| hc <= j < i ==> (#[trigger] s0[j]) is Full,
            forall|j: int| hc <= j < i ==> origin_at_most(#[trigger] s0[j], hc),
            forall|j: int| 0 <= j < s0.len() ==> #[trigger] slot_struct_ok(s0, n, j),
            forall|j: int| 0 <= j < s0.len() ==> #[trigger] rh_ordered(s0, j),
            forall|a: int, b: int|
                0 <= a < b < s0.len() ==> keys_differ(#[trigger] s0[a], #[trigger] s0[b]),
            forall|j: int| 0 <= j < s0.len() ==> !slot_has_kv(#[trigger] s0[j], kc),
            forall|j: int|
                0 <= j < s0.len() && !slot_has_kv(#[trigger] s0[j], kc) ==> slot_agrees(s0, m1, j),
            m1.contains_key(kc) && m1[kc] == vc,
            forall|kv: <K as View>::V|
                #[trigger] m1.contains_key(kv) && kv != kc ==> table_has_kv(s0, kv),
        ensures
            slots_ok(s1, n, ProbePolicy::RobinHood, m1),
    {
        assert forall|j: int| 0 <= j < s1.len() implies #[trigger] slot_struct_ok(s1, n, j) by {
            if j == i {
                assert forall|jj: int| hc <= jj < i implies (#[trigger] s1[jj]) is Full by {
                    assert(s0[jj] is Full);
                }
            } else {
                assert(slot_struct_ok(s0, n, j));
                match s0[j] {
                    Slot::Full { origin: oj, .. } => {
                        assert forall|jj: int| oj <= jj < j implies (#[trigger] s1[jj]) is Full by {
                            assert(s0[jj] is Full);
                        }
                    },
                    Slot::Empty => {},
                }
            }
        }
        assert forall|j: int| 0 <= j < s1.len() implies #[trigger] slot_agrees(s1, m1, j) by {
            if j != i {
                assert(!slot_has_kv(s0[j], kc));
                assert(slot_agrees(s0, m1, j));
            }
        }
        assert forall|a: int, b: int| 0 <= a < b < s1.len() implies keys_differ(
            #[trigger] s1[a],
            #[trigger] s1[b],
        ) by {
            if a != i && b != i {
                assert(keys_differ(s0[a], s0[b]));
            } else {
                let other: int = if a == i {
                    b
                } else {
                    a
                };
                assert(!slot_has_kv(s0[other], kc));
            }
        }
        assert forall|kv: <K as View>::V| #[trigger] m1.contains_key(kv) implies table_has_kv(
            s1,
            kv,
        ) by {
            if kv == kc {
                assert(slot_has_kv(s1[i], kc));
            } else {
                let jw = choose|jw: int| 0 <= jw < s0.len() && slot_has_kv(s0[jw], kv);
                assert(jw != i);
                assert(slot_has_kv(s1[jw], kv));
            }
        }
        assert forall|j: int| 0 <= j < s1.len() implies #[trigger] rh_ordered(s1, j) by {
            if j == i {
                assert forall|jj: int| hc <= jj < i implies origin_at_most(
                    #[trigger] s1[jj],
                    hc,
                ) by {
                    assert(origin_at_most(s0[jj], hc));
                }
            } else {
                assert(rh_ordered(s0, j));
                assert(slot_struct_ok(s0, n, j));
                match s0[j] {
                    Slot::Full { origin: oj, .. } => {
                        assert forall|jj: int| oj <= jj < j implies origin_at_most(
                            #[trigger] s1[jj],
                            oj as int,
                        ) by {
                            assert(s0[jj] is Full);
                            assert(origin_at_most(s0[jj], oj as int));
                        }
                    },
                    Slot::Empty => {},
                }
            }
        }
    }

    /// Overwriting the resident entry at slot `i`, which holds the
    /// carried key `kc`, with the carried value at the key's own origin
    /// yields a faithful Robin Hood representation of `m1`.
    proof fn lemma_rh_overwrite(
        s0: Seq<Slot<K, V>>,
        s1: Seq<Slot<K, V>>,
        n: int,
        m1: Map<<K as View>::V, V>,
        kc: <K as View>::V,
        vc: V,
        hc: int,
        i: int,
    )
        requires
            0 < n <= s0.len(),
            hc == bucket_of::<K>(kc, n),
            hc <= i < s0.len(),
            slot_has_kv(s0[i], kc),
            s1.len() == s0.len(),
            forall|j: int| 0 <= j < s1.len() && j != i ==> s1[j] == s0[j],
            slot_is(s1[i], kc, vc, hc),
            forall|j: int| hc <= j < i ==> (#[trigger] s0[j]) is Full,
            forall|j: int| hc <= j < i ==> origin_at_most(#[trigger] s0[j], hc),
            forall|j: int| 0 <= j < s0.len() ==> #[trigger] slot_struct_ok(s0, n, j),
            forall|j: int| 0 <= j < s0.len() ==> #[trigger] rh_ordered(s0, j),
            forall|a: int, b: int|
                0 <= a < b < s0.len() ==> keys_differ(#[trigger] s0[a], #[trigger] s0[b]),
            forall|j: int|
                0 <= j < s0.len() && !slot_has_kv(#[trigger] s0[j], kc) ==> slot_agrees(s0, m1, j),
            m1.contains_key(kc) && m1[kc] == vc,
            forall|kv: <K as View>::V|
                #[trigger] m1.contains_key(kv) && kv != kc ==> table_has_kv(s0, kv),
        ensures
            slots_ok(s1, n, ProbePolicy::RobinHood, m1),
    {
        assert(slot_struct_ok(s0, n, i));
        assert forall|j: int| 0 <= j < s1.len() implies #[trigger] slot_struct_ok(s1, n, j) by {
            if j == i {
                assert forall|jj: int| hc <= jj < i implies (#[trigger] s1[jj]) is Full by {
                    assert(s0[jj] is Full);
                }
            } else {
                assert(slot_struct_ok(s0, n, j));
                match s0[j] {
                    Slot::Full { origin: oj, .. } => {
                        assert forall|jj: int| oj <= jj < j implies (#[trigger] s1[jj]) is Full by {
                            assert(s0[jj] is Full);
                        }
                    },
                    Slot::Empty => {},
                }
            }
        }
        assert forall|j: int| 0 <= j < s1.len() implies #[trigger] slot_agrees(s1, m1, j) by {
            if j != i {
                if j < i {
                    assert(keys_differ(s0[j], s0[i]));
                } else {
                    assert(keys_differ(s0[i], s0[j]));
                }
                assert(!slot_has_kv(s0[j], kc));
                assert(slot_agrees(s0, m1, j));
            }
        }
        assert forall|a: int, b: int| 0 <= a < b < s1.len() implies keys_differ(
            #[trigger] s1[a],
            #[trigger] s1[b],
        ) by {
            assert(keys_differ(s0[a], s0[b]));
        }
        assert forall|kv: <K as View>::V| #[trigger] m1.contains_key(kv) implies table_has_kv(
            s1,
            kv,
        ) by {
            if kv == kc {
                assert(slot_has_kv(s1[i], kc));
            } else {
                let jw = choose|jw: int| 0 <= jw < s0.len() && slot_has_kv(s0[jw], kv);
                assert(jw != i);
                assert(slot_has_kv(s1[jw], kv));
            }
        }
        assert forall|j: int| 0 <= j < s1.len() implies #[trigger] rh_ordered(s1, j) by {
            if j == i {
                assert forall|jj: int| hc <= jj < i implies origin_at_most(
                    #[trigger] s1[jj],
                    hc,
                ) by {
                    assert(origin_at_most(s0[jj], hc));
                }
            } else {
                assert(rh_ordered(s0, j));
                match s0[j] {
                    Slot::Full { origin: oj, .. } => {
                        assert forall|jj: int| oj <= jj < j implies origin_at_most(
                            #[trigger] s1[jj],
                            oj as int,
                        ) by {
                            assert(origin_at_most(s0[jj], oj as int));
                        }
                    },
                    Slot::Empty => {},
                }
            }
        }
    }

    /// Place `(key, value)` under the Robin Hood discipline: probe
    /// forward from the key's ideal slot, overwriting the slot that
    /// already holds the key, swapping the carried entry with any
    /// resident displaced less far, and dropping the carried entry into
    /// the first empty slot (or a slot appended at the end). Returns
    /// whether the entry count grew, which is exactly when the key was
    /// absent from `m`.
    fn place_robin_hood(&mut self, key: K, value: V, Ghost(m): Ghost<Map<<K as View>::V, V>>) -> (grew: bool)
        requires
            slots_ok(old(self).slots@, old(self).slot_count as int, old(self).probing, m),
            old(self).probing == ProbePolicy::RobinHood,
        ensures
            final(self).slot_count == old(self).slot_count,
            final(self).probing == old(self).probing,
            final(self).item_count == old(self).item_count,
            final(self).contents == old(self).contents,
            final(self).max_load_percent == old(self).max_load_percent,
            final(self).should_resize == old(self).should_resize,
            old(self).slots@.len() <= final(self).slots@.len() <= old(self).slots@.len() + 1,
            slots_ok(
                final(self).slots@,
                final(self).slot_count as int,
                final(self).probing,
                m.insert(key@, value),
            ),
            grew == !m.contains_key(key@),
    {
        let ghost kv0 = key@;
        let ghost vv0 = value;
        let ghost m1 = m.insert(kv0, vv0);
        let ghost n = old(self).slot_count as int;
        let h = self.slot_index(&key);
        let len = self.slots.len();
        let mut cand: Slot<K, V> = Slot::Full { key, value, origin: h };
        let mut cand_origin: usize = h;
        let ghost mut kc = kv0;
        let ghost mut vc = vv0;
        proof {
            assert forall|j: int| 0 <= j < h implies !slot_has_kv(#[trigger] self.slots@[j], kc) by {
                assert(slot_struct_ok(self.slots@, n, j));
            }
            assert forall|j: int|
                0 <= j < len && slot_has_kv(#[trigger] self.slots@[j], kc) implies m.contains_key(
                kv0,
            ) by {
                assert(slot_agrees(self.slots@, m, j));
            }
            assert forall|j: int|
                0 <= j < len && !slot_has_kv(#[trigger] self.slots@[j], kc) implies slot_agrees(
                self.slots@,
                m1,
                j,
            ) by {
                assert(slot_agrees(self.slots@, m, j));
            }
        }
        let mut i: usize = h;
        while i < len
            invariant
                self.slot_count == old(self).slot_count,
                self.item_count == old(self).item_count,
                self.max_load_percent == old(self).max_load_percent,
                self.should_resize == old(self).should_resize,
                self.contents == old(self).contents,
                self.probing == old(self).probing,
                self.probing == ProbePolicy::RobinHood,
                n == self.slot_count as int,
                0 < n,
                len == self.slots@.len(),
                len == old(self).slots@.len(),
                n <= len,
                m1 == m.insert(key@, value),
                kv0 == key@,
                h as int == bucket_of::<K>(kv0, n),
                slot_is(cand, kc, vc, cand_origin as int),
                cand_origin as int == bucket_of::<K>(kc, n),
                h <= i <= len,
                cand_origin <= i,
                m1.contains_key(kc) && m1[kc] == vc,
                forall|j: int| cand_origin <= j < i ==> (#[trigger] self.slots@[j]) is Full,
                forall|j: int|
                    cand_origin <= j < i ==> origin_at_most(
                        #[trigger] self.slots@[j],
                        cand_origin as int,
                    ),
                forall|j: int| 0 <= j < len ==> #[trigger] slot_struct_ok(self.slots@, n, j),
                forall|j: int| 0 <= j < len ==> #[trigger] rh_ordered(self.slots@, j),
                forall|a: int, b: int|
                    0 <= a < b < len ==> keys_differ(
                        #[trigger] self.slots@[a],
                        #[trigger] self.slots@[b],
                    ),
                forall|j: int| 0 <= j < i ==> !slot_has_kv(#[trigger] self.slots@[j], kc),
                forall|j: int|
                    0 <= j < len && slot_has_kv(#[trigger] self.slots@[j], kc) ==> kc == kv0
                        && m.contains_key(kv0),
                forall|j: int|
                    0 <= j < len && !slot_has_kv(#[trigger] self.slots@[j], kc)
                        ==> slot_agrees(self.slots@, m1, j),
                forall|kv: <K as View>::V|
                    #[trigger] m1.contains_key(kv) && kv != kc ==> table_has_kv(self.slots@, kv),
                m.contains_key(kv0) ==> table_has_kv(self.slots@, kv0),
                kc != kv0 ==> !m.contains_key(kv0),
            decreases len - i,
        {
            let is_empty: bool;
            let is_match: bool;
            let o_i: usize;
            match &self.slots[i] {
                Slot::Empty => {
                    is_empty = true;
                    is_match = false;
                    o_i = 0;
                },
                Slot::Full { key: resident, origin, .. } => {
                    is_empty = false;
                    o_i = *origin;
                    is_match = match &cand {
                        Slot::Full { key: ck, .. } => resident.key_eq(ck),
                        Slot::Empty => false,
                    };
                },
            }
            if is_empty {
                proof {
                    assert forall|j: int| 0 <= j < len implies !slot_has_kv(
                        #[trigger] self.slots@[j],
                        kc,
                    ) by {
                        if j > i {
                            assert(slot_struct_ok(self.slots@, n, j));
                        }
                    }
                    if m.contains_key(kv0) {
                        let jw = choose|jw: int|
                            0 <= jw < len && slot_has_kv(self.slots@[jw], kv0);
                        if kc == kv0 {
                            assert(!slot_has_kv(self.slots@[jw], kc));
                        }
                        assert(false);
                    }
                }
                let ghost s0 = self.slots@;
                self.slots.set(i, cand);
                proof {
                    Self::lemma_rh_finish(
                        s0,
                        self.slots@,
                        n,
                        m1,
                        kc,
                        vc,
                        cand_origin as int,
                        i as int,
                    );
                }
                return true;
            }
            if is_match {
                proof {
                    assert(slot_has_kv(self.slots@[i as int], kc));
                    assert(kc == kv0 && m.contains_key(kv0));
                }
                let ghost s0 = self.slots@;
                self.slots.set(i, cand);
                proof {
                    Self::lemma_rh_overwrite(
                        s0,
                        self.slots@,
                        n,
                        m1,
                        kc,
                        vc,
                        cand_origin as int,
                        i as int,
                    );
                }
                return false;
            }
            if o_i > cand_origin {
                let ghost s0 = self.slots@;
                let ghost old_kc = kc;
                let ghost old_vc = vc;
                let ghost old_oc = cand_origin as int;
                self.slots.set_and_swap(i, &mut cand);
                cand_origin = o_i;
                proof {
                    kc = (match s0[i as int] {
                        Slot::Full { key: rk, .. } => rk@,
                        Slot::Empty => old_kc,
                    });
                    vc = (match s0[i as int] {
                        Slot::Full { value: rv, .. } => rv,
                        Slot::Empty => old_vc,
                    });
                    let s1 = self.slots@;
                    // the resident's key occurs nowhere else, and the old
                    // carried key occurs nowhere at all
                    assert(slot_struct_ok(s0, n, i as int));
                    assert(rh_ordered(s0, i as int));
                    assert forall|j: int| 0 <= j < len implies !slot_has_kv(
                        #[trigger] s0[j],
                        old_kc,
                    ) by {
                        if j > i {
                            assert(slot_struct_ok(s0, n, j));
                            assert(rh_ordered(s0, j));
                            if slot_has_kv(s0[j], old_kc) {
                                assert(origin_at_most(s0[i as int], old_oc));
                            }
                        }
                    }
                    assert forall|j: int| 0 <= j < len && j != i implies !slot_has_kv(
                        #[trigger] s0[j],
                        kc,
                    ) by {
                        if j < i {
                            assert(keys_differ(s0[j], s0[i as int]));
                        } else {
                            assert(keys_differ(s0[i as int], s0[j]));
                        }
                    }
                    // structural soundness and ordering for the new state
                    assert forall|j: int| 0 <= j < len implies #[trigger] slot_struct_ok(
                        s1,
                        n,
                        j,
                    ) by {
                        assert(slot_struct_ok(s0, n, j));
                        if j == i {
                            assert forall|jj: int| old_oc <= jj < i implies (#[trigger] s1[jj]) is Full by {
                                assert(s0[jj] is Full);
                            }
                        } else {
                            match s0[j] {
                                Slot::Full { origin: oj, .. } => {
                                    assert forall|jj: int| oj <= jj < j implies (#[trigger] s1[jj]) is Full by {
                                        assert(s0[jj] is Full);
                                    }
                                },
                                Slot::Empty => {},
                            }
                        }
                    }
                    assert forall|j: int| 0 <= j < len implies #[trigger] rh_ordered(s1, j) by {
                        assert(rh_ordered(s0, j));
                        if j == i {
                            assert forall|jj: int| old_oc <= jj < i implies origin_at_most(
                                #[trigger] s1[jj],
                                old_oc,
                            ) by {
                                assert(origin_at_most(s0[jj], old_oc));
                            }
                        } else {
                            match s0[j] {
                                Slot::Full { origin: oj, .. } => {
                                    assert forall|jj: int| oj <= jj < j implies origin_at_most(
                                        #[trigger] s1[jj],
                                        oj as int,
                                    ) by {
                                        assert(origin_at_most(s0[jj], oj as int));
                                    }
                                },
                                Slot::Empty => {},
                            }
                        }
                    }
                    assert forall|a: int, b: int| 0 <= a < b < len implies keys_differ(
                        #[trigger] s1[a],
                        #[trigger] s1[b],
                    ) by {
                        assert(keys_differ(s0[a], s0[b]));
                        if a == i as int {
                            assert(!slot_has_kv(s0[b], old_kc));
                        }
                        if b == i as int {
                            assert(!slot_has_kv(s0[a], old_kc));
                        }
                    }
                    // the carried prefix for the new candidate
                    assert forall|j: int| cand_origin <= j < i + 1 implies (#[trigger] s1[j]) is Full by {
                        if j < i {
                            assert(s0[j] is Full);
                        }
                    }
                    assert forall|j: int| cand_origin <= j < i + 1 implies origin_at_most(
                        #[trigger] s1[j],
                        cand_origin as int,
                    ) by {
                        if j < i {
                            assert(origin_at_most(s0[j], cand_origin as int));
                        }
                    }
                    // the new candidate's key occurs nowhere before i + 1
                    assert forall|j: int| 0 <= j < i + 1 implies !slot_has_kv(
                        #[trigger] s1[j],
                        kc,
                    ) by {
                        if j < i {
                            assert(!slot_has_kv(s0[j], kc));
                        }
                    }
                    // agreement and coverage for the new candidate
                    assert(!slot_has_kv(s0[i as int], old_kc));
                    assert(slot_agrees(s0, m1, i as int));
                    assert forall|j: int|
                        0 <= j < len && !slot_has_kv(#[trigger] s1[j], kc) implies slot_agrees(
                        s1,
                        m1,
                        j,
                    ) by {
                        if j == i {
                            assert(m1.contains_key(old_kc) && m1[old_kc] == old_vc);
                        } else {
                            assert(!slot_has_kv(s0[j], old_kc));
                            assert(slot_agrees(s0, m1, j));
                        }
                    }
                    assert forall|kv: <K as View>::V|
                        #[trigger] m1.contains_key(kv) && kv != kc implies table_has_kv(
                        s1,
                        kv,
                    ) by {
                        if kv == old_kc {
                            assert(slot_has_kv(s1[i as int], old_kc));
                        } else {
                            let jw = choose|jw: int|
                                0 <= jw < len && slot_has_kv(s0[jw], kv);
                            assert(jw != i);
                            assert(slot_has_kv(s1[jw], kv));
                        }
                    }
                    // history facts about the key first handed to this call
                    if m.contains_key(kv0) {
                        assert(table_has_kv(s0, kv0));
                        let jw = choose|jw: int|
                            0 <= jw < len && slot_has_kv(s0[jw], kv0);
                        if old_kc == kv0 {
                            assert(!slot_has_kv(s0[jw], old_kc));
                            assert(false);
                        }
                        if jw == i {
                            assert(kc == kv0);
                        } else {
                            assert(slot_has_kv(s1[jw], kv0));
                        }
                    }
                    assert forall|j: int|
                        0 <= j < len && slot_has_kv(#[trigger] s1[j], kc) implies kc == kv0
                        && m.contains_key(kv0) by {
                        if j != i {
                            assert(!slot_has_kv(s0[j], kc));
                        }
                    }
                }
            }
            i = i + 1;
        }
        proof {
            if m.contains_key(kv0) {
                let jw = choose|jw: int| 0 <= jw < len && slot_has_kv(self.slots@[jw], kv0);
                if kc == kv0 {
                    assert(!slot_has_kv(self.slots@[jw], kc));
                }
                assert(false);
            }
        }
        let ghost s0 = self.slots@;
        self.slots.push(cand);
        proof {
            assert forall|j: int| 0 <= j < s0.len() implies !slot_has_kv(
                #[trigger] s0[j],
                kc,
            ) by {}
            Self::lemma_rh_finish(
                s0,
                self.slots@,
                n,
                m1,
                kc,
                vc,
                cand_origin as int,
                len as int,
            );
        }
        true
    }

    /// Find the slot holding `key`, probing forward from its ideal slot
    /// and stopping at the first empty slot.
    fn find_slot(&self, key: &K) -> (r: Option<usize>)
        requires
            self.wf(),
        ensures
            match r {
                Some(p) => p < self.slots@.len() && slot_has_kv(self.slots@[p as int], key@),
                None => !self@.contains_key(key@),
            },
    {
        let h = self.slot_index(key);
        let len = self.slots.len();
        let mut i: usize = h;
        while i < len
            invariant
                self.wf(),
                len == self.slots@.len(),
                h as int == bucket_of::<K>(key@, self.slot_count as int),
                h <= i <= len,
                forall|j: int| h <= j < i ==> !slot_has_kv(#[trigger] self.slots@[j], key@),
            decreases len - i,
        {
            match &self.slots[i] {
                Slot::Empty => {
                    proof {
                        lemma_absent(
                            self.slots@,
                            self.slot_count as int,
                            self.probing,
                            self.contents@,
                            key@,
                            i as int,
                        );
                    }
                    return None;
                },
                Slot::Full { key: resident, .. } => {
                    if resident.key_eq(key) {
                        return Some(i);
                    }
                },
            }
            i = i + 1;
        }
        proof {
            lemma_absent(
                self.slots@,
                self.slot_count as int,
                self.probing,
                self.contents@,
                key@,
                len as int,
            );
        }
        None
    }

    /// Slide entries back over the hole left at slot `p`: walk forward
    /// from the hole; an entry whose origin lies at or before the hole
    /// moves into it, opening a new hole at its old position; the walk
    /// ends at the first empty slot or the end of the array. This
    /// restores the rule that every entry's probe path is fully occupied.
    fn backward_shift(&mut self, p: usize, Ghost(m): Ghost<Map<<K as View>::V, V>>)
        requires
            0 < old(self).slot_count as int <= old(self).slots@.len(),
            p < old(self).slots@.len(),
            old(self).slots@[p as int] is Empty,
            forall|k: int|
                0 <= k < old(self).slots@.len() ==> #[trigger] slot_struct_hole(
                    old(self).slots@,
                    old(self).slot_count as int,
                    k,
                    p as int,
                ),
            forall|k: int|
                0 <= k < old(self).slots@.len() ==> #[trigger] slot_agrees(old(self).slots@, m, k),
            forall|a: int, b: int|
                0 <= a < b < old(self).slots@.len() ==> keys_differ(
                    #[trigger] old(self).slots@[a],
                    #[trigger] old(self).slots@[b],
                ),
            forall|kv: <K as View>::V|
                #[trigger] m.contains_key(kv) ==> table_has_kv(old(self).slots@, kv),
            old(self).probing == ProbePolicy::RobinHood ==> forall|k: int|
                0 <= k < old(self).slots@.len() ==> #[trigger] rh_ordered(old(self).slots@, k),
        ensures
            final(self).slot_count == old(self).slot_count,
            final(self).probing == old(self).probing,
            final(self).item_count == old(self).item_count,
            final(self).contents == old(self).contents,
            final(self).max_load_percent == old(self).max_load_percent,
            final(self).should_resize == old(self).should_resize,
            old(self).slots@.len() <= final(self).slots@.len() <= old(self).slots@.len() + 1,
            slots_ok(final(self).slots@, final(self).slot_count as int, final(self).probing, m),
    {
        let len = self.slots.len();
        let ghost n = self.slot_count as int;
        let mut hole: usize = p;
        let mut j: usize = p + 1;
        while j < len
            invariant
                self.slot_count == old(self).slot_count,
                self.probing == old(self).probing,
                self.item_count == old(self).item_count,
                self.contents == old(self).contents,
                self.max_load_percent == old(self).max_load_percent,
                self.should_resize == old(self).should_resize,
                n == self.slot_count as int,
                0 < n <= len,
                len == self.slots@.len(),
                p <= hole < j <= len,
                self.slots@[hole as int] is Empty,
                forall|k: int|
                    0 <= k < len ==> #[trigger] slot_struct_hole(self.slots@, n, k, hole as int),
                forall|k: int|
                    hole < k < j ==> ((#[trigger] self.slots@[k]) is Full ==> !origin_at_most(
                        self.slots@[k],
                        hole as int,
                    )),
                forall|k: int| 0 <= k < len ==> #[trigger] slot_agrees(self.slots@, m, k),
                forall|a: int, b: int|
                    0 <= a < b < len ==> keys_differ(
                        #[trigger] self.slots@[a],
                        #[trigger] self.slots@[b],
                    ),
                forall|kv: <K as View>::V|
                    #[trigger] m.contains_key(kv) ==> table_has_kv(self.slots@, kv),
                self.probing == ProbePolicy::RobinHood ==> forall|k: int|
                    0 <= k < len ==> #[trigger] rh_ordered(self.slots@, k),
            ensures
                j == len || self.slots@[j as int] is Empty,
            decreases len - j,
        {
            let j_empty: bool;
            let j_origin: usize;
            match &self.slots[j] {
                Slot::Empty => {
                    j_empty = true;
                    j_origin = 0;
                },
                Slot::Full { origin, .. } => {
                    j_empty = false;
                    j_origin = *origin;
                },
            }
            if j_empty {
                break;
            }
            if j_origin <= hole {
                let ghost s0 = self.slots@;
                let mut tmp: Slot<K, V> = Slot::Empty;
                self.slots.set_and_swap(j, &mut tmp);
                self.slots.set(hole, tmp);
                proof {
                    let s2 = self.slots@;
                    assert(slot_struct_hole(s0, n, j as int, hole as int));
                    assert forall|k: int| 0 <= k < len implies #[trigger] slot_struct_hole(
                        s2,
                        n,
                        k,
                        j as int,
                    ) by {
                        assert(slot_struct_hole(s0, n, k, hole as int));
                        if k == hole as int {
                            assert forall|jj: int|
                                j_origin <= jj < k implies (#[trigger] s2[jj]) is Full || jj
                                == j as int by {
                                assert(s0[jj] is Full || jj == hole as int);
                            }
                        } else if k != j as int {
                            match s0[k] {
                                Slot::Full { origin: ok2, .. } => {
                                    assert forall|jj: int|
                                        ok2 <= jj < k implies (#[trigger] s2[jj]) is Full || jj
                                        == j as int by {
                                        assert(s0[jj] is Full || jj == hole as int);
                                    }
                                },
                                Slot::Empty => {},
                            }
                        }
                    }
                    assert forall|k: int| 0 <= k < len implies #[trigger] slot_agrees(
                        s2,
                        m,
                        k,
                    ) by {
                        if k == hole as int {
                            assert(slot_agrees(s0, m, j as int));
                        } else {
                            assert(slot_agrees(s0, m, k));
                        }
                    }
                    assert forall|a: int, b: int| 0 <= a < b < len implies keys_differ(
                        #[trigger] s2[a],
                        #[trigger] s2[b],
                    ) by {
                        assert(keys_differ(s0[a], s0[b]));
                        if a == hole as int {
                            if b != j as int {
                                if b < j as int {
                                    assert(keys_differ(s0[b], s0[j as int]));
                                } else {
                                    assert(keys_differ(s0[j as int], s0[b]));
                                }
                            }
                        } else if b == hole as int {
                            if a != j as int {
                                if a < j as int {
                                    assert(keys_differ(s0[a], s0[j as int]));
                                } else {
                                    assert(keys_differ(s0[j as int], s0[a]));
                                }
                            }
                        }
                    }
                    assert forall|kv: <K as View>::V| #[trigger] m.contains_key(
                        kv,
                    ) implies table_has_kv(s2, kv) by {
                        let w = choose|w: int| 0 <= w < len && slot_has_kv(s0[w], kv);
                        if w == j as int {
                            assert(slot_has_kv(s2[hole as int], kv));
                        } else {
                            assert(slot_has_kv(s2[w], kv));
                        }
                    }
                    if self.probing == ProbePolicy::RobinHood {
                        assert(rh_ordered(s0, j as int));
                        assert forall|k: int| 0 <= k < len implies #[trigger] rh_ordered(
                            s2,
                            k,
                        ) by {
                            assert(rh_ordered(s0, k));
                            if k == hole as int {
                                assert forall|jj: int|
                                    j_origin <= jj < k implies origin_at_most(
                                    #[trigger] s2[jj],
                                    j_origin as int,
                                ) by {
                                    assert(origin_at_most(s0[jj], j_origin as int));
                                }
                            } else if k != j as int {
                                match s0[k] {
                                    Slot::Full { origin: ok2, .. } => {
                                        assert forall|jj: int|
                                            ok2 <= jj < k implies origin_at_most(
                                            #[trigger] s2[jj],
                                            ok2 as int,
                                        ) by {
                                            if jj == hole as int {
                                                if k < j as int {
                                                    assert(s0[k] is Full);
                                                    assert(!origin_at_most(
                                                        s0[k],
                                                        hole as int,
                                                    ));
                                                } else {
                                                    assert(k > j as int);
                                                    assert(origin_at_most(
                                                        s0[j as int],
                                                        ok2 as int,
                                                    ));
                                                }
                                            } else if jj != j as int {
                                                assert(origin_at_most(s0[jj], ok2 as int));
                                            }
                                        }
                                    },
                                    Slot::Empty => {},
                                }
                            }
                        }
                    }
                }
                hole = j;
            }
            j = j + 1;
        }
        proof {
            let s = self.slots@;
            assert forall|k: int| 0 <= k < len implies #[trigger] slot_struct_ok(s, n, k) by {
                assert(slot_struct_hole(s, n, k, hole as int));
                match s[k] {
                    Slot::Full { origin: ok2, .. } => {
                        if ok2 <= hole && hole < k {
                            if k < j {
                                assert(!origin_at_most(s[k], hole as int));
                            } else {
                                assert(j < len && s[j as int] is Empty);
                                assert(s[j as int] is Full || j == hole as int);
                            }
                            assert(false);
                        }
                        assert forall|jj: int| ok2 <= jj < k implies (#[trigger] s[jj]) is Full by {
                            assert(s[jj] is Full || jj == hole as int);
                        }
                    },
                    Slot::Empty => {},
                }
            }
        }
    }

    /// Remove `key`, returning ownership of its value, or nothing if the
    /// key is absent; an absent key leaves the table unchanged. The freed
    /// slot is backward-shift compacted so later lookups stay sound.
    pub fn remove(&mut self, key: &K) -> (r: Option<V>)
        requires
            old(self).wf(),
        ensures
            final(self).wf(),
            final(self)@ == old(self)@.remove(key@),
            final(self).spec_capacity() == old(self).spec_capacity(),
            final(self).spec_load_threshold() == old(self).spec_load_threshold(),
            final(self).spec_resize_enabled() == old(self).spec_resize_enabled(),
            final(self).spec_policy() == old(self).spec_policy(),
            old(self)@.contains_key(key@) ==> final(self)@.dom().len() + 1 == old(self)@.dom().len(),
            !old(self)@.contains_key(key@) ==> final(self)@.dom().len() == old(self)@.dom().len(),
            match r {
                Some(v) => old(self)@.contains_key(key@) && v == old(self)@[key@],
                None => !old(self)@.contains_key(key@) && final(self)@ == old(self)@,
            },
    {
        let ghost m0 = self.contents@;
        let ghost kv = key@;
        let ghost n = self.slot_count as int;
        match self.find_slot(key) {
            None => {
                proof {
                    assert(m0.remove(kv) =~= m0);
                }
                None
            },
            Some(p) => {
                proof {
                    assert(slot_agrees(self.slots@, m0, p as int));
                    vstd::set::axiom_set_contains_len(m0.dom(), kv);
                    vstd::set::axiom_set_remove_len(m0.dom(), kv);
                }
                let ghost s_orig = self.slots@;
                let ghost m1 = m0.remove(kv);
                let mut taken: Slot<K, V> = Slot::Empty;
                self.slots.set_and_swap(p, &mut taken);
                self.item_count = self.item_count - 1;
                self.contents = Ghost(m1);
                proof {
                    let s1 = self.slots@;
                    assert(m1.dom() =~= m0.dom().remove(kv));
                    assert forall|k: int| 0 <= k < s1.len() implies #[trigger] slot_struct_hole(
                        s1,
                        n,
                        k,
                        p as int,
                    ) by {
                        assert(slot_struct_ok(s_orig, n, k));
                        if k != p as int {
                            match s_orig[k] {
                                Slot::Full { origin: ok2, .. } => {
                                    assert forall|jj: int|
                                        ok2 <= jj < k implies (#[trigger] s1[jj]) is Full || jj
                                        == p as int by {
                                        assert(s_orig[jj] is Full);
                                    }
                                },
                                Slot::Empty => {},
                            }
                        }
                    }
                    assert forall|k: int| 0 <= k < s1.len() implies #[trigger] slot_agrees(
                        s1,
                        m1,
                        k,
                    ) by {
                        if k != p as int {
                            assert(slot_agrees(s_orig, m0, k));
                            if k < p as int {
                                assert(keys_differ(s_orig[k], s_orig[p as int]));
                            } else {
                                assert(keys_differ(s_orig[p as int], s_orig[k]));
                            }
                        }
                    }
                    assert forall|a: int, b: int| 0 <= a < b < s1.len() implies keys_differ(
                        #[trigger] s1[a],
                        #[trigger] s1[b],
                    ) by {
                        assert(keys_differ(s_orig[a], s_orig[b]));
                    }
                    assert forall|kv2: <K as View>::V| #[trigger] m1.contains_key(
                        kv2,
                    ) implies table_has_kv(s1, kv2) by {
                        assert(m0.contains_key(kv2));
                        let w = choose|w: int|
                            0 <= w < s_orig.len() && slot_has_kv(s_orig[w], kv2);
                        if w == p as int {
                            assert(kv2 == kv);
                        }
                        assert(slot_has_kv(s1[w], kv2));
                    }
                    if self.probing == ProbePolicy::RobinHood {
                        assert forall|k: int| 0 <= k < s1.len() implies #[trigger] rh_ordered(
                            s1,
                            k,
                        ) by {
                            assert(rh_ordered(s_orig, k));
                            if k != p as int {
                                match s_orig[k] {
                                    Slot::Full { origin: ok2, .. } => {
                                        assert forall|jj: int|
                                            ok2 <= jj < k implies origin_at_most(
                                            #[trigger] s1[jj],
                                            ok2 as int,
                                        ) by {
                                            assert(origin_at_most(s_orig[jj], ok2 as int));
                                        }
                                    },
                                    Slot::Empty => {},
                                }
                            }
                        }
                    }
                }
                match taken {
                    Slot::Empty => {
                        proof {
                            assert(slot_has_kv(s_orig[p as int], kv));
                            assert(false);
                        }
                        None
                    },
                    Slot::Full { value, .. } => {
                        self.backward_shift(p, Ghost(m1));
                        Some(value)
                    },
                }
            },
        }
    }

    /// Upsert: if the table holds `key`, overwrite its value in place
    /// without changing the item count; otherwise place the new entry by
    /// the table's probing discipline. When growth is enabled and the
    /// load factor has reached the threshold, the slot array is doubled
    /// and rehashed first.
    pub fn insert(&mut self, key: K, value: V)
        requires
            old(self).wf(),
            old(self)@.dom().len() < usize::MAX,
        ensures
            final(self).wf(),
            final(self)@ == old(self)@.insert(key@, value),
            final(self).spec_load_threshold() == old(self).spec_load_threshold(),
            final(self).spec_resize_enabled() == old(self).spec_resize_enabled(),
            final(self).spec_policy() == old(self).spec_policy(),
            final(self).spec_capacity() >= old(self).spec_capacity(),
            old(self).spec_needs_growth() ==> final(self).spec_capacity() == 2 * old(self).spec_capacity(),
            !old(self).spec_needs_growth() ==> final(self).spec_capacity() == old(self).spec_capacity(),
            !old(self).spec_needs_growth() ==> old(self).spec_storage() <= final(self).spec_storage()
                <= old(self).spec_storage() + 1,
            final(self).spec_storage() >= final(self).spec_capacity(),
            old(self)@.contains_key(key@) ==> final(self)@.dom().len() == old(self)@.dom().len(),
            !old(self)@.contains_key(key@) ==> final(self)@.dom().len() == old(self)@.dom().len() + 1,
    {
        let lhs: u128 = (self.item_count as u128) * 100;
        let threshold_num: u128 = self.max_load_percent as u128;
        let count: u128 = self.slot_count as u128;
        proof {
            assert(threshold_num * count <= 0xffff_ffff_ffff_ffffu128 * 0xffff_ffff_ffff_ffffu128)
                by (nonlinear_arith)
                requires
                    threshold_num <= 0xffff_ffff_ffff_ffffu128,
                    count <= 0xffff_ffff_ffff_ffffu128,
            ;
        }
        if self.should_resize && lhs >= threshold_num * count && self.slot_count <= usize::MAX / 2 {
            self.resize();
        }
        let ghost kv = key@;
        let ghost vv = value;
        let ghost m0 = self.contents@;
        let grew = match self.probing {
            ProbePolicy::FirstFit => self.place_first_fit(key, value, Ghost(m0)),
            ProbePolicy::RobinHood => self.place_robin_hood(key, value, Ghost(m0)),
        };
        if grew {
            self.item_count = self.item_count + 1;
        }
        self.contents = Ghost(m0.insert(kv, vv));
        proof {
            vstd::set::axiom_set_insert_len(m0.dom(), kv);
            assert(m0.insert(kv, vv).dom() =~= m0.dom().insert(kv));
        }
    }

    /// Double the slot array and re-place every entry at the ideal slot
    /// its key hashes to under the new count, following the table's own
    /// probing discipline. No entry is lost or duplicated: the abstract
    /// contents are unchanged.
    fn resize(&mut self)
        requires
            old(self).wf(),
            old(self).slot_count <= usize::MAX / 2,
        ensures
            final(self).wf(),
            final(self)@ == old(self)@,
            final(self).spec_capacity() == 2 * old(self).spec_capacity(),
            final(self).spec_load_threshold() == old(self).spec_load_threshold(),
            final(self).spec_resize_enabled() == old(self).spec_resize_enabled(),
            final(self).spec_policy() == old(self).spec_policy(),
    {
        let ghost target = self.contents@;
        let ghost obs = old(self).slots@;
        let new_count = self.slot_count * 2;
        let mut old_slots = Self::create_slots(new_count);
        core::mem::swap(&mut self.slots, &mut old_slots);
        self.slot_count = new_count;
        let ghost mut placed = Map::<<K as View>::V, V>::empty();
        let n_old = old_slots.len();
        proof {
            assert(placed.dom() =~= Set::empty());
            assert forall|kv: <K as View>::V| #[trigger] target.contains_key(kv) implies exists|
                w: int,
            |
                0 <= w < n_old && slot_has_kv(#[trigger] old_slots@[w], kv) by {
                assert(table_has_kv(obs, kv));
                let w = choose|w: int| 0 <= w < obs.len() && slot_has_kv(obs[w], kv);
                assert(slot_has_kv(old_slots@[w], kv));
            }
            assert forall|k: int| 0 <= k < n_old implies #[trigger] slot_agrees(
                old_slots@,
                target,
                k,
            ) by {
                assert(slot_agrees(obs, target, k));
            }
        }
        let mut idx: usize = 0;
        while idx < n_old
            invariant
                self.slot_count == new_count,
                self.probing == old(self).probing,
                self.item_count == old(self).item_count,
                self.contents@ == target,
                self.max_load_percent == old(self).max_load_percent,
                self.should_resize == old(self).should_resize,
                target.dom().finite(),
                self.item_count == target.dom().len(),
                old_slots@.len() == n_old,
                0 <= idx <= n_old,
                slots_ok(self.slots@, self.slot_count as int, self.probing, placed),
                forall|kv: <K as View>::V| #[trigger] placed.contains_key(kv)
                    ==> target.contains_key(kv) && placed[kv] == target[kv],
                forall|k: int| idx <= k < n_old ==> #[trigger] slot_agrees(old_slots@, target, k),
                forall|k: int, kv: <K as View>::V|
                    idx <= k < n_old && #[trigger] slot_has_kv(old_slots@[k], kv)
                        ==> !placed.contains_key(kv),
                forall|a: int, b: int|
                    idx <= a < b < n_old ==> keys_differ(
                        #[trigger] old_slots@[a],
                        #[trigger] old_slots@[b],
                    ),
                forall|kv: <K as View>::V| #[trigger] target.contains_key(kv)
                    ==> placed.contains_key(kv) || exists|w: int|
                        idx <= w < n_old && slot_has_kv(#[trigger] old_slots@[w], kv),
            decreases n_old - idx,
        {
            let ghost obs_pre = old_slots@;
            let mut s: Slot<K, V> = Slot::Empty;
            old_slots.set_and_swap(idx, &mut s);
            proof {
                assert forall|k: int| idx + 1 <= k < n_old implies #[trigger] slot_agrees(
                    old_slots@,
                    target,
                    k,
                ) by {
                    assert(slot_agrees(obs_pre, target, k));
                }
            }
            match s {
                Slot::Empty => {
                    proof {
                        assert forall|kv: <K as View>::V| #[trigger] target.contains_key(
                            kv,
                        ) implies placed.contains_key(kv) || exists|w: int|
                            idx + 1 <= w < n_old && slot_has_kv(#[trigger] old_slots@[w], kv) by {
                            if !placed.contains_key(kv) {
                                let w = choose|w: int|
                                    idx <= w < n_old && slot_has_kv(obs_pre[w], kv);
                                assert(w != idx as int);
                                assert(slot_has_kv(old_slots@[w], kv));
                            }
                        }
                    }
                },
                Slot::Full { key, value, origin: _ } => {
                    let ghost kv2 = key@;
                    let ghost vv2 = value;
                    proof {
                        assert(slot_has_kv(obs_pre[idx as int], kv2));
                        assert(slot_agrees(obs_pre, target, idx as int));
                    }
                    let _grew = match self.probing {
                        ProbePolicy::FirstFit => self.place_first_fit(key, value, Ghost(placed)),
                        ProbePolicy::RobinHood => self.place_robin_hood(key, value, Ghost(placed)),
                    };
                    proof {
                        let placed0 = placed;
                        placed = placed.insert(kv2, vv2);
                        assert forall|k: int, kv: <K as View>::V|
                            idx + 1 <= k < n_old && #[trigger] slot_has_kv(
                                old_slots@[k],
                                kv,
                            ) implies !placed.contains_key(kv) by {
                            assert(slot_has_kv(obs_pre[k], kv));
                            assert(keys_differ(obs_pre[idx as int], obs_pre[k]));
                        }
                        assert forall|kv: <K as View>::V| #[trigger] target.contains_key(
                            kv,
                        ) implies placed.contains_key(kv) || exists|w: int|
                            idx + 1 <= w < n_old && slot_has_kv(#[trigger] old_slots@[w], kv) by {
                            if !placed.contains_key(kv) {
                                assert(!placed0.contains_key(kv));
                                let w = choose|w: int|
                                    idx <= w < n_old && slot_has_kv(obs_pre[w], kv);
                                assert(w != idx as int);
                                assert(slot_has_kv(old_slots@[w], kv));
                            }
                        }
                    }
                },
            }
            idx = idx + 1;
        }
        proof {
            assert forall|kv: <K as View>::V| #[trigger] target.contains_key(
                kv,
            ) implies placed.contains_key(kv) by {}
            assert(placed =~= target);
        }
    }

    /// The largest displacement of any entry from its ideal slot.
    pub closed spec fn spec_max_displacement(self) -> int {
        max_disp_to(self.slots@, self.slots@.len() as int)
    }

    /// The sum of all entries' displacements from their ideal slots.
    pub closed spec fn spec_total_displacement(self) -> int {
        total_disp_to(self.slots@, self.slots@.len() as int)
    }

    /// How far the worst-placed entry sits from its ideal slot. Under the
    /// Robin Hood discipline this stays close to the average
    /// displacement; under first fit it can degenerate.
    pub fn max_displacement(&self) -> (d: usize)
        requires
            self.wf(),
        ensures
            d == self.spec_max_displacement(),
    {
        let len = self.slots.len();
        let mut d: usize = 0;
        let mut i: usize = 0;
        while i < len
            invariant
                self.wf(),
                len == self.slots@.len(),
                0 <= i <= len,
                d as int == max_disp_to(self.slots@, i as int),
            decreases len - i,
        {
            let di: usize;
            match &self.slots[i] {
                Slot::Empty => {
                    di = 0;
                },
                Slot::Full { origin, .. } => {
                    proof {
                        assert(slot_struct_ok(self.slots@, self.slot_count as int, i as int));
                    }
                    di = i - *origin;
                },
            }
            if di > d {
                d = di;
            }
            i = i + 1;
        }
        d
    }

    /// The sum of all entries' displacements from their ideal slots;
    /// divided by the entry count it gives the average probe distance.
    pub fn total_displacement(&self) -> (t: u128)
        requires
            self.wf(),
        ensures
            t == self.spec_total_displacement(),
    {
        let len = self.slots.len();
        let mut t: u128 = 0;
        let mut i: usize = 0;
        while i < len
            invariant
                self.wf(),
                len == self.slots@.len(),
                0 <= i <= len,
                t as int == total_disp_to(self.slots@, i as int),
                t as int <= (i as int) * (len as int),
            decreases len - i,
        {
            let di: usize;
            match &self.slots[i] {
                Slot::Empty => {
                    di = 0;
                },
                Slot::Full { origin, .. } => {
                    proof {
                        assert(slot_struct_ok(self.slots@, self.slot_count as int, i as int));
                    }
                    di = i - *origin;
                },
            }
            proof {
                assert((i as int + 1) * (len as int) == i as int * len as int + len as int)
                    by (nonlinear_arith);
                assert((i as int + 1) * (len as int) <= 0xffff_ffff_ffff_ffff
                    * 0xffff_ffff_ffff_ffff) by (nonlinear_arith)
                    requires
                        i as int + 1 <= 0xffff_ffff_ffff_ffff,
                        len as int <= 0xffff_ffff_ffff_ffff,
                ;
            }
            t = t + (di as u128);
            i = i + 1;
        }
        t
    }

    /// How many live entries the table holds.
    pub fn len(&self) -> (n: usize)
        requires
            self.wf(),
        ensures
            n == self@.dom().len(),
    {
        self.item_count
    }
}

impl<K: HashKey, V> View for Advanced<K, V> {
    type V = Map<<K as View>::V, V>;

    open spec fn view(&self) -> Map<<K as View>::V, V> {
        self.as_map()
    }
}

} // verus!
