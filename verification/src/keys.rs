//! Hash-first key interning table (FNV-1a hashes, linear probing).

use vstd::prelude::*;

verus! {

pub const FNV_OFFSET_BASIS: u32 = 0x811c_9dc5;

pub const FNV_PRIME: u32 = 0x0100_0193;

/// The table stops accepting entries once it holds this many.
pub const MAX_ENTRIES: usize = 10_000;

pub const DEFAULT_CAPACITY: usize = 64;

/// One FNV-1a step.
pub open spec fn spec_hash_byte(hash: u32, b: u8) -> u32 {
    ((hash ^ (b as u32)) as int * FNV_PRIME as int % 0x1_0000_0000) as u32
}

/// The FNV-1a hash of a byte sequence.
pub open spec fn spec_hash(bytes: Seq<u8>) -> u32
    decreases bytes.len(),
{
    if bytes.len() == 0 {
        FNV_OFFSET_BASIS
    } else {
        spec_hash_byte(spec_hash(bytes.drop_last()), bytes.last())
    }
}

/// The number of occupied slots.
pub open spec fn count_some(s: Seq<Option<String>>) -> nat
    decreases s.len(),
{
    if s.len() == 0 {
        0
    } else {
        count_some(s.drop_last()) + if s.last() is Some {
            1nat
        } else {
            0nat
        }
    }
}

proof fn lemma_count_bound(s: Seq<Option<String>>)
    ensures
        count_some(s) <= s.len(),
    decreases s.len(),
{
    if s.len() > 0 {
        lemma_count_bound(s.drop_last());
    }
}

proof fn lemma_count_push(s: Seq<Option<String>>, x: Option<String>)
    ensures
        count_some(s.push(x)) == count_some(s) + if x is Some {
            1nat
        } else {
            0nat
        },
{
    assert(s.push(x).drop_last() =~= s);
}

proof fn lemma_count_update(s: Seq<Option<String>>, j: int, x: String)
    requires
        0 <= j < s.len(),
        s[j] is None,
    ensures
        count_some(s.update(j, Some(x))) == count_some(s) + 1,
    decreases s.len(),
{
    let t = s.update(j, Some(x));
    if j == s.len() - 1 {
        assert(t.drop_last() =~= s.drop_last());
    } else {
        assert(t.drop_last() =~= s.drop_last().update(j, Some(x)));
        lemma_count_update(s.drop_last(), j, x);
    }
}

proof fn lemma_count_has_none(s: Seq<Option<String>>)
    requires
        count_some(s) < s.len(),
    ensures
        exists|j: int| 0 <= j < s.len() && s[j] is None,
    decreases s.len(),
{
    if s.last() is Some {
        lemma_count_has_none(s.drop_last());
        let j = choose|j: int| 0 <= j < s.drop_last().len() && s.drop_last()[j] is None;
        assert(s[j] is None);
    } else {
        assert(s[s.len() - 1] is None);
    }
}

proof fn lemma_count_prefix(s: Seq<Option<String>>, i: int)
    requires
        0 <= i < s.len(),
    ensures
        count_some(s.subrange(0, i + 1)) == count_some(s.subrange(0, i)) + if s[i] is Some {
            1nat
        } else {
            0nat
        },
{
    assert(s.subrange(0, i + 1).drop_last() =~= s.subrange(0, i));
}

/// `a` reduced into `0..cap` when it lies in `0..2 * cap`.
pub open spec fn wrap(a: int, cap: int) -> int {
    if a >= cap {
        a - cap
    } else {
        a
    }
}

/// The masks the table can have: one less than a power of two from 64 to 16384.
pub open spec fn valid_mask(m: usize) -> bool {
    m == 63 || m == 127 || m == 255 || m == 511 || m == 1023 || m == 2047 || m == 4095 || m
        == 8191 || m == 16383
}

proof fn lemma_mask(x: usize, m: usize)
    requires
        valid_mask(m),
    ensures
        (x & m) as int == x as int % (m as int + 1),
        x & m <= m,
{
    if m == 63 {
        assert(x & 63 == x % 64 && x & 63 <= 63) by (bit_vector);
    } else if m == 127 {
        assert(x & 127 == x % 128 && x & 127 <= 127) by (bit_vector);
    } else if m == 255 {
        assert(x & 255 == x % 256 && x & 255 <= 255) by (bit_vector);
    } else if m == 511 {
        assert(x & 511 == x % 512 && x & 511 <= 511) by (bit_vector);
    } else if m == 1023 {
        assert(x & 1023 == x % 1024 && x & 1023 <= 1023) by (bit_vector);
    } else if m == 2047 {
        assert(x & 2047 == x % 2048 && x & 2047 <= 2047) by (bit_vector);
    } else if m == 4095 {
        assert(x & 4095 == x % 4096 && x & 4095 <= 4095) by (bit_vector);
    } else if m == 8191 {
        assert(x & 8191 == x % 8192 && x & 8191 <= 8191) by (bit_vector);
    } else {
        assert(x & 16383 == x % 16384 && x & 16383 <= 16383) by (bit_vector);
    }
}

proof fn lemma_wrap_mod(x: int, c: int)
    requires
        0 <= x <= c,
        c > 0,
    ensures
        x % c == (if x == c {
            0
        } else {
            x
        }),
{
    if x < c {
        vstd::arithmetic::div_mod::lemma_small_mod(x as nat, c as nat);
    } else {
        vstd::arithmetic::div_mod::lemma_mod_self_0(c);
    }
}

/// Hash-first key interning table: maps the bytes of a key, with their hash, to the decoded
/// key, so that a key seen before need not be decoded again.
pub struct KeySymbolTable {
    hashes: Vec<u32>,
    keys: Vec<Option<Vec<u8>>>,
    values: Vec<Option<String>>,
    size: usize,
    mask: usize,
}

impl KeySymbolTable {
    pub closed spec fn cap(&self) -> int {
        self.mask + 1
    }

    pub closed spec fn full(&self, i: int) -> bool {
        self.values@[i] is Some
    }

    /// The slot at which an entry's probe sequence starts.
    pub closed spec fn home(&self, j: int) -> int {
        self.hashes@[j] as int % self.cap()
    }

    /// The `k`-th slot of the probe sequence of the entry at `j`.
    pub closed spec fn probe_slot(&self, j: int, k: int) -> int {
        let a = self.home(j) + k;
        if a >= self.cap() {
            a - self.cap()
        } else {
            a
        }
    }

    /// How far the entry at `j` sits from its home slot.
    pub closed spec fn dist(&self, j: int) -> int {
        if j >= self.home(j) {
            j - self.home(j)
        } else {
            j + self.cap() - self.home(j)
        }
    }

    /// Every slot from an entry's home slot up to the entry is occupied.
    pub closed spec fn probe_ok(&self) -> bool {
        forall|j: int, k: int|
            0 <= j < self.cap() && #[trigger] self.full(j) && 0 <= k <= self.dist(j)
                ==> #[trigger] self.full(self.probe_slot(j, k))
    }

    /// The well-formedness of the table.
    pub closed spec fn wf(&self) -> bool {
        &&& valid_mask(self.mask)
        &&& self.hashes@.len() == self.cap()
        &&& self.keys@.len() == self.cap()
        &&& self.values@.len() == self.cap()
        &&& forall|i: int| 0 <= i < self.cap() ==> (#[trigger] self.values@[i] is Some) == (
        self.keys@[i] is Some)
        &&& self.size == count_some(self.values@)
        &&& self.size <= self.cap() - self.cap() / 4
        &&& self.probe_ok()
    }

    /// The table holds the key `k` with hash `h`, interned as `v`.
    pub closed spec fn contains(&self, k: Seq<u8>, h: u32, v: Seq<char>) -> bool {
        exists|j: int|
            0 <= j < self.cap() && #[trigger] self.full(j) && self.keys@[j].unwrap()@ == k
                && self.hashes@[j] == h && self.values@[j].unwrap()@ == v
    }

    /// What a lookup of the key `k` with hash `h` finds once it has passed `p` slots of the
    /// probe sequence that starts at the home slot of `h`: the value of the first entry for the
    /// key from there on, before a free slot or the end of the sequence.
    pub closed spec fn find_from(&self, k: Seq<u8>, h: u32, p: int) -> Option<Seq<char>>
        decreases self.cap() - p,
    {
        if p < 0 || p >= self.cap() {
            None
        } else {
            let slot = wrap(h as int % self.cap() + p, self.cap());
            if !self.full(slot) {
                None
            } else if self.hashes@[slot] == h && self.keys@[slot].unwrap()@ == k {
                Some(self.values@[slot].unwrap()@)
            } else {
                self.find_from(k, h, p + 1)
            }
        }
    }

    /// What a lookup of the key `k` with hash `h` finds: the value of the first entry for the
    /// key along the probe sequence of `h`.
    pub closed spec fn find(&self, k: Seq<u8>, h: u32) -> Option<Seq<char>> {
        self.find_from(k, h, 0)
    }

    /// The number of entries.
    pub closed spec fn len(&self) -> nat {
        self.size as nat
    }

    fn empty_table(capacity: usize) -> (t: KeySymbolTable)
        requires
            valid_mask((capacity - 1) as usize),
            capacity >= 1,
        ensures
            t.wf(),
            t.len() == 0,
            t.cap() == capacity,
            forall|k: Seq<u8>, h: u32, v: Seq<char>| !t.contains(k, h, v),
    {
        let mut hashes: Vec<u32> = Vec::new();
        let mut keys: Vec<Option<Vec<u8>>> = Vec::new();
        let mut values: Vec<Option<String>> = Vec::new();
        let mut i: usize = 0;
        while i < capacity
            invariant
                i <= capacity,
                hashes@.len() == i,
                keys@.len() == i,
                values@.len() == i,
                forall|j: int| 0 <= j < i ==> keys@[j] is None && #[trigger] values@[j] is None,
                count_some(values@) == 0,
            decreases capacity - i,
        {
            proof {
                lemma_count_push(values@, None);
            }
            hashes.push(0);
            keys.push(None);
            values.push(None);
            i = i + 1;
        }
        let t = KeySymbolTable { hashes, keys, values, size: 0, mask: capacity - 1 };
        assert(forall|j: int| 0 <= j < t.cap() ==> !t.full(j));
        t
    }

    /// An empty table with the default capacity of 64 slots.
    pub fn new() -> (t: KeySymbolTable)
        ensures
            t.wf(),
            t.len() == 0,
            forall|k: Seq<u8>, h: u32, v: Seq<char>| !t.contains(k, h, v),
    {
        Self::empty_table(DEFAULT_CAPACITY)
    }

    /// The FNV-1a offset basis, the hash of no bytes.
    pub fn initial_hash() -> (h: u32)
        ensures
            h == spec_hash(Seq::<u8>::empty()),
    {
        FNV_OFFSET_BASIS
    }

    /// One FNV-1a step: the hash of a key extended by the byte `b`.
    pub fn hash_byte(hash: u32, b: u8) -> (h: u32)
        ensures
            h == spec_hash_byte(hash, b),
    {
        (hash ^ (b as u32)).wrapping_mul(FNV_PRIME)
    }

    fn bytes_equal(a: &Vec<u8>, b: &[u8], start: usize, end: usize) -> (r: bool)
        requires
            start <= end <= b@.len(),
        ensures
            r == (a@ == b@.subrange(start as int, end as int)),
    {
        if a.len() != end - start {
            return false;
        }
        let mut i: usize = 0;
        while i < a.len()
            invariant
                a@.len() == end - start,
                start <= end <= b@.len(),
                i <= a@.len(),
                forall|k: int| 0 <= k < i ==> a@[k] == b@[start + k],
            decreases a.len() - i,
        {
            if a[i] != b[start + i] {
                assert(a@[i as int] != b@.subrange(start as int, end as int)[i as int]);
                return false;
            }
            i = i + 1;
        }
        assert(a@ =~= b@.subrange(start as int, end as int));
        true
    }

    /// The interned key for `bytes` with hash `hash`, if the table holds it.
    pub fn lookup<'a>(&'a self, bytes: &[u8], hash: u32) -> (r: Option<&'a str>)
        requires
            self.wf(),
        ensures
            str_view(r) == self.find(bytes@, hash),
            lookup_returns(*self, bytes@, hash, str_view(r)),
    {
        assert(bytes@.subrange(0, bytes@.len() as int) =~= bytes@);
        self.lookup_span(bytes, 0, bytes.len(), hash)
    }

    /// The interned key for the bytes `bytes[start..end]` with hash `hash`, if the table holds it.
    fn lookup_span<'a>(&'a self, bytes: &[u8], start: usize, end: usize, hash: u32) -> (r: Option<
        &'a str,
    >)
        requires
            self.wf(),
            start <= end <= bytes@.len(),
        ensures
            str_view(r) == self.find(bytes@.subrange(start as int, end as int), hash),
            r matches Some(v) ==> self.contains(bytes@.subrange(start as int, end as int), hash, v@),
            (exists|v: Seq<char>| self.contains(bytes@.subrange(start as int, end as int), hash, v))
                ==> r is Some,
    {
        let ghost key = bytes@.subrange(start as int, end as int);
        proof {
            lemma_mask(hash as usize, self.mask);
        }
        let start_idx = (hash as usize) & self.mask;
        let mut idx = start_idx;
        let mut probes: usize = 0;
        let ghost target: int = -1;
        proof {
            if exists|v: Seq<char>| self.contains(key, hash, v) {
                let v = choose|v: Seq<char>| self.contains(key, hash, v);
                target = choose|j: int|
                    0 <= j < self.cap() && #[trigger] self.full(j) && self.keys@[j].unwrap()@
                        == key && self.hashes@[j] == hash && self.values@[j].unwrap()@ == v;
            }
        }
        while self.values[idx].is_some()
            invariant
                self.wf(),
                start <= end <= bytes@.len(),
                key == bytes@.subrange(start as int, end as int),
                start_idx == hash as int % self.cap(),
                probes <= self.mask,
                idx == (if start_idx + probes >= self.cap() {
                    start_idx + probes - self.cap()
                } else {
                    start_idx + probes
                }),
                target >= 0 ==> (0 <= target < self.cap() && self.full(target)
                    && self.keys@[target].unwrap()@ == key && self.hashes@[target] == hash
                    && probes <= self.dist(target)),
                target < 0 ==> !(exists|v: Seq<char>| self.contains(key, hash, v)),
                self.find(key, hash) == self.find_from(key, hash, probes as int),
            decreases self.mask - probes,
        {
            assert(idx == wrap(hash as int % self.cap() + probes, self.cap()));
            if self.hashes[idx] == hash {
                match &self.keys[idx] {
                    Some(k) => {
                        if Self::bytes_equal(k, bytes, start, end) {
                            match &self.values[idx] {
                                Some(v) => {
                                    assert(self.full(idx as int));
                                    return Some(v.as_str());
                                },
                                None => {},
                            }
                        }
                    },
                    None => {},
                }
            }
            proof {
                lemma_mask((idx + 1) as usize, self.mask);
                lemma_wrap_mod(idx + 1, self.cap());
                if target >= 0 {
                    assert(self.home(target) == start_idx);
                    if probes == self.dist(target) {
                        assert(self.probe_slot(target, probes as int) == target);
                        assert(idx == target);
                    }
                }
            }
            idx = (idx + 1) & self.mask;
            probes = probes + 1;
            if probes > self.mask {
                return None;
            }
            proof {
                if target >= 0 {
                    assert(self.full(self.probe_slot(target, probes as int)));
                }
            }
        }
        proof {
            if target >= 0 {
                assert(self.full(self.probe_slot(target, probes as int)));
                assert(false);
            }
        }
        None
    }

    /// Stores an entry in the first free slot of its probe sequence; the size is not changed.
    fn place(&mut self, key: Vec<u8>, hash: u32, value: String)
        requires
            old(self).wf_but_size(),
            count_some(old(self).values@) < old(self).cap(),
        ensures
            final(self).wf_but_size(),
            final(self).mask == old(self).mask,
            final(self).size == old(self).size,
            count_some(final(self).values@) == count_some(old(self).values@) + 1,
            forall|k: Seq<u8>, h: u32, v: Seq<char>|
                #![trigger final(self).contains(k, h, v)]
                final(self).contains(k, h, v) <==> (old(self).contains(k, h, v) || (k == key@
                    && h == hash && v == value@)),
    {
        proof {
            lemma_mask(hash as usize, self.mask);
            lemma_count_has_none(self.values@);
        }
        let ghost free = choose|j: int| 0 <= j < self.values@.len() && self.values@[j] is None;
        let start_idx = (hash as usize) & self.mask;
        let mut idx = start_idx;
        let ghost mut probes: int = 0;
        let ghost free_dist: int = if free >= start_idx {
            free - start_idx
        } else {
            free + self.cap() - start_idx
        };
        while self.values[idx].is_some()
            invariant
                self.wf_but_size(),
                0 <= free < self.cap(),
                !self.full(free),
                start_idx == hash as int % self.cap(),
                free_dist == (if free >= start_idx {
                    free - start_idx
                } else {
                    free + self.cap() - start_idx
                }),
                0 <= probes <= free_dist,
                idx == (if start_idx + probes >= self.cap() {
                    start_idx + probes - self.cap()
                } else {
                    start_idx + probes
                }),
                forall|k: int| 0 <= k < probes ==> self.full(#[trigger] wrap(start_idx + k, self.cap())),
            decreases free_dist - probes,
        {
            proof {
                lemma_mask((idx + 1) as usize, self.mask);
                lemma_wrap_mod(idx + 1, self.cap());
                if probes == free_dist {
                    assert(idx == free);
                }
            }
            idx = (idx + 1) & self.mask;
            proof {
                probes = probes + 1;
            }
        }
        let ghost old_self = *self;
        self.hashes.set(idx, hash);
        self.keys.set(idx, Some(key));
        proof {
            lemma_count_update(self.values@, idx as int, value);
        }
        self.values.set(idx, Some(value));
        proof {
            assert(self.home(idx as int) == start_idx);
            assert(self.dist(idx as int) == probes);
            assert forall|j: int, k: int|
                0 <= j < self.cap() && #[trigger] self.full(j) && 0 <= k <= self.dist(j) implies #[trigger] self.full(
                self.probe_slot(j, k))
            by {
                if j == idx {
                    if k < probes {
                        assert(self.probe_slot(j, k) == wrap(start_idx + k, self.cap()));
                        assert(old_self.full(wrap(start_idx + k, self.cap())));
                    }
                } else {
                    assert(old_self.full(j));
                    assert(old_self.home(j) == self.home(j));
                    assert(old_self.dist(j) == self.dist(j));
                    assert(old_self.probe_slot(j, k) == self.probe_slot(j, k));
                    assert(old_self.full(old_self.probe_slot(j, k)));
                }
            }
            assert forall|k: Seq<u8>, h: u32, v: Seq<char>|
                #![trigger self.contains(k, h, v)]
                self.contains(k, h, v) <==> (old_self.contains(k, h, v) || (k == key@ && h
                    == hash && v == value@)) by {
                if self.contains(k, h, v) {
                    let j = choose|j: int|
                        0 <= j < self.cap() && #[trigger] self.full(j) && self.keys@[j].unwrap()@
                            == k && self.hashes@[j] == h && self.values@[j].unwrap()@ == v;
                    if j != idx {
                        assert(old_self.full(j));
                    }
                }
                if old_self.contains(k, h, v) {
                    let j = choose|j: int|
                        0 <= j < old_self.cap() && #[trigger] old_self.full(j)
                            && old_self.keys@[j].unwrap()@ == k && old_self.hashes@[j] == h
                            && old_self.values@[j].unwrap()@ == v;
                    assert(j != idx);
                    assert(self.full(j));
                }
                if k == key@ && h == hash && v == value@ {
                    assert(self.full(idx as int));
                }
            }
        }
    }

    /// The well-formedness of the table apart from the size field and the load bound.
    pub closed spec fn wf_but_size(&self) -> bool {
        &&& valid_mask(self.mask)
        &&& self.hashes@.len() == self.cap()
        &&& self.keys@.len() == self.cap()
        &&& self.values@.len() == self.cap()
        &&& forall|i: int| 0 <= i < self.cap() ==> (#[trigger] self.values@[i] is Some) == (
        self.keys@[i] is Some)
        &&& self.probe_ok()
    }

    /// Interns `bytes` with hash `hash` as `value`; nothing changes once the table holds 10000
    /// entries. The table doubles its capacity when three quarters of its slots are occupied.
    pub fn put(&mut self, bytes: &[u8], hash: u32, value: String)
        requires
            old(self).wf(),
        ensures
            final(self).wf(),
            put_gives(*old(self), *final(self), bytes@, hash, value@),
    {
        assert(bytes@.subrange(0, bytes@.len() as int) =~= bytes@);
        self.put_span(bytes, 0, bytes.len(), hash, value)
    }

    fn put_span(&mut self, bytes: &[u8], start: usize, end: usize, hash: u32, value: String)
        requires
            old(self).wf(),
            start <= end <= bytes@.len(),
        ensures
            final(self).wf(),
            old(self).len() >= MAX_ENTRIES ==> *final(self) == *old(self),
            old(self).len() < MAX_ENTRIES ==> final(self).len() == old(self).len() + 1,
            forall|k: Seq<u8>, h: u32, v: Seq<char>|
                #![trigger final(self).contains(k, h, v)]
                final(self).contains(k, h, v) <==> (old(self).contains(k, h, v) || (old(
                    self,
                ).len() < MAX_ENTRIES && k == bytes@.subrange(start as int, end as int) && h
                    == hash && v == value@)),
    {
        if self.size >= MAX_ENTRIES {
            return;
        }
        let cap = self.mask + 1;
        if self.size >= cap - cap / 4 {
            self.grow();
        }
        proof {
            lemma_count_bound(self.values@);
        }
        let key = vstd::slice::slice_to_vec(bytes.split_at(start).1.split_at(end - start).0);
        assert(key@ =~= bytes@.subrange(start as int, end as int));
        let ghost before_place = *self;
        self.place(key, hash, value);
        let ghost placed = *self;
        self.size = self.size + 1;
        proof {
            lemma_same_slots(placed, *self);
            assert forall|k: Seq<u8>, h: u32, v: Seq<char>|
                #![trigger self.contains(k, h, v)]
                self.contains(k, h, v) <==> (old(self).contains(k, h, v) || (k
                    == bytes@.subrange(start as int, end as int) && h == hash && v
                    == value@)) by {
                assert(self.contains(k, h, v) == placed.contains(k, h, v));
                assert(placed.contains(k, h, v) == (before_place.contains(k, h, v) || (k == key@
                    && h == hash && v == value@)));
            }
        }
    }

    fn grow(&mut self)
        requires
            old(self).wf(),
            old(self).len() < MAX_ENTRIES,
            old(self).len() >= old(self).cap() - old(self).cap() / 4,
        ensures
            final(self).wf(),
            final(self).len() == old(self).len(),
            final(self).len() < final(self).cap() - final(self).cap() / 4,
            forall|k: Seq<u8>, h: u32, v: Seq<char>|
                #![trigger final(self).contains(k, h, v)]
                final(self).contains(k, h, v) <==> old(self).contains(k, h, v),
    {
        let old_cap = self.mask + 1;
        let mut fresh = Self::empty_table(old_cap * 2);
        let ghost old_self = *self;
        let mut i: usize = 0;
        while i < old_cap
            invariant
                old_self.wf(),
                old_self.cap() == old_cap,
                fresh.wf_but_size(),
                fresh.cap() == 2 * old_cap,
                i <= old_cap,
                count_some(fresh.values@) == count_some(old_self.values@.subrange(0, i as int)),
                count_some(old_self.values@.subrange(0, i as int)) <= count_some(old_self.values@),
                self.hashes@ == old_self.hashes@,
                self.keys@ == old_self.keys@,
                self.values@ == old_self.values@,
                forall|k: Seq<u8>, h: u32, v: Seq<char>|
                    #![trigger fresh.contains(k, h, v)]
                    fresh.contains(k, h, v) <==> exists|j: int|
                        0 <= j < i && #[trigger] old_self.full(j) && old_self.keys@[j].unwrap()@
                            == k && old_self.hashes@[j] == h && old_self.values@[j].unwrap()@ == v,
            decreases old_cap - i,
        {
            proof {
                lemma_count_prefix(old_self.values@, i as int);
                lemma_count_bound(old_self.values@);
                if i + 1 < old_cap {
                    let s = old_self.values@;
                    assert(s.subrange(0, i + 1) + s.subrange(i + 1, s.len() as int) =~= s);
                }
                lemma_count_prefix_le(old_self.values@, i + 1);
            }
            match &self.values[i] {
                Some(v) => {
                    assert(old_self.full(i as int));
                    let k = match &self.keys[i] {
                        Some(k) => k.clone(),
                        None => Vec::new(),
                    };
                    assert(k@ =~= old_self.keys@[i as int].unwrap()@);
                    let ghost fresh_before = fresh;
                    let value = v.clone();
                    assert(value@ == old_self.values@[i as int].unwrap()@);
                    fresh.place(k, self.hashes[i], value);
                    proof {
                        assert forall|kk: Seq<u8>, h: u32, vv: Seq<char>|
                            #![trigger fresh.contains(kk, h, vv)]
                            fresh.contains(kk, h, vv) <==> exists|j: int|
                                0 <= j < i + 1 && #[trigger] old_self.full(j)
                                    && old_self.keys@[j].unwrap()@ == kk && old_self.hashes@[j]
                                    == h && old_self.values@[j].unwrap()@ == vv by {
                            if fresh_before.contains(kk, h, vv) {
                            }
                            if exists|j: int|
                                0 <= j < i + 1 && #[trigger] old_self.full(j)
                                    && old_self.keys@[j].unwrap()@ == kk && old_self.hashes@[j]
                                    == h && old_self.values@[j].unwrap()@ == vv {
                                let j = choose|j: int|
                                    0 <= j < i + 1 && #[trigger] old_self.full(j)
                                        && old_self.keys@[j].unwrap()@ == kk
                                        && old_self.hashes@[j] == h
                                        && old_self.values@[j].unwrap()@ == vv;
                                if j < i {
                                    assert(fresh_before.contains(kk, h, vv));
                                }
                            }
                        }
                    }
                },
                None => {
                    proof {
                        assert forall|kk: Seq<u8>, h: u32, vv: Seq<char>|
                            #![trigger fresh.contains(kk, h, vv)]
                            fresh.contains(kk, h, vv) <==> exists|j: int|
                                0 <= j < i + 1 && #[trigger] old_self.full(j)
                                    && old_self.keys@[j].unwrap()@ == kk && old_self.hashes@[j]
                                    == h && old_self.values@[j].unwrap()@ == vv by {
                            if exists|j: int|
                                0 <= j < i + 1 && #[trigger] old_self.full(j)
                                    && old_self.keys@[j].unwrap()@ == kk && old_self.hashes@[j]
                                    == h && old_self.values@[j].unwrap()@ == vv {
                                let j = choose|j: int|
                                    0 <= j < i + 1 && #[trigger] old_self.full(j)
                                        && old_self.keys@[j].unwrap()@ == kk
                                        && old_self.hashes@[j] == h
                                        && old_self.values@[j].unwrap()@ == vv;
                                assert(j < i);
                            }
                        }
                    }
                },
            }
            i = i + 1;
        }
        assert(old_self.values@.subrange(0, old_cap as int) =~= old_self.values@);
        let size = self.size;
        let ghost before = fresh;
        fresh.size = size;
        proof {
            lemma_same_slots(before, fresh);
        }
        *self = fresh;
    }
}

proof fn lemma_same_slots(a: KeySymbolTable, b: KeySymbolTable)
    requires
        a.wf_but_size(),
        a.hashes == b.hashes,
        a.keys == b.keys,
        a.values == b.values,
        a.mask == b.mask,
    ensures
        b.wf_but_size(),
        forall|k: Seq<u8>, h: u32, v: Seq<char>|
            #![trigger b.contains(k, h, v)]
            b.contains(k, h, v) <==> a.contains(k, h, v),
{
    assert forall|j: int, k: int|
        0 <= j < b.cap() && #[trigger] b.full(j) && 0 <= k <= b.dist(j) implies #[trigger] b.full(
        b.probe_slot(j, k))
    by {
        assert(a.full(j));
        assert(a.full(a.probe_slot(j, k)));
    }
    assert forall|k: Seq<u8>, h: u32, v: Seq<char>|
        #![trigger b.contains(k, h, v)]
        b.contains(k, h, v) <==> a.contains(k, h, v) by {
        if b.contains(k, h, v) {
            let j = choose|j: int|
                0 <= j < b.cap() && #[trigger] b.full(j) && b.keys@[j].unwrap()@ == k
                    && b.hashes@[j] == h && b.values@[j].unwrap()@ == v;
            assert(a.full(j));
        }
        if a.contains(k, h, v) {
            let j = choose|j: int|
                0 <= j < a.cap() && #[trigger] a.full(j) && a.keys@[j].unwrap()@ == k
                    && a.hashes@[j] == h && a.values@[j].unwrap()@ == v;
            assert(b.full(j));
        }
    }
}

proof fn lemma_count_prefix_le(s: Seq<Option<String>>, i: int)
    requires
        0 <= i <= s.len(),
    ensures
        count_some(s.subrange(0, i)) <= count_some(s),
    decreases s.len() - i,
{
    if i < s.len() {
        lemma_count_prefix_le(s, i + 1);
        lemma_count_prefix(s, i);
    } else {
        assert(s.subrange(0, i) =~= s);
    }
}

impl Default for KeySymbolTable {
    fn default() -> (t: Self)
        ensures
            t.wf(),
            t.len() == 0,
            forall|k: Seq<u8>, h: u32, v: Seq<char>| !t.contains(k, h, v),
    {
        Self::new()
    }
}

/// The view of an optional string.
pub open spec fn str_view(r: Option<&str>) -> Option<Seq<char>> {
    match r {
        Some(v) => Some(v@),
        None => None,
    }
}

/// What `lookup` of the key `k` with hash `h` returns on the table `t`: a value the table
/// holds for the key, and some value whenever the table holds the key.
pub open spec fn lookup_returns(t: KeySymbolTable, k: Seq<u8>, h: u32, r: Option<Seq<char>>) -> bool {
    &&& r matches Some(v) ==> t.contains(k, h, v)
    &&& (exists|v: Seq<char>| t.contains(k, h, v)) ==> r is Some
}

/// What `put` of the key `k` with hash `h` and value `v` makes of the table `before`: the
/// table is unchanged once it is full, and otherwise it holds one entry more, for the key.
pub open spec fn put_gives(before: KeySymbolTable, after: KeySymbolTable, k: Seq<u8>, h: u32, v: Seq<char>) -> bool {
    &&& before.len() >= MAX_ENTRIES ==> after == before
    &&& before.len() < MAX_ENTRIES ==> after.len() == before.len() + 1
    &&& forall|k2: Seq<u8>, h2: u32, w: Seq<char>|
        #![trigger after.contains(k2, h2, w)]
        after.contains(k2, h2, w) <==> (before.contains(k2, h2, w) || (before.len() < MAX_ENTRIES
            && k2 == k && h2 == h && w == v))
}

/// A lookup after a put gives back the value put, when the table was not full and did not
/// hold the key yet.
pub proof fn law_lookup_after_put(
    before: KeySymbolTable,
    after: KeySymbolTable,
    k: Seq<u8>,
    h: u32,
    v: Seq<char>,
    found: Option<Seq<char>>,
)
    requires
        before.wf(),
        before.len() < MAX_ENTRIES,
        forall|w: Seq<char>| !before.contains(k, h, w),
        put_gives(before, after, k, h, v),
        lookup_returns(after, k, h, found),
    ensures
        found == Some(v),
{
    assert(after.contains(k, h, v));
}

/// A lookup after a put of a key the table already held still finds a value for the key, and
/// a put never removes a key.
pub proof fn law_put_keeps(
    before: KeySymbolTable,
    after: KeySymbolTable,
    k: Seq<u8>,
    h: u32,
    v: Seq<char>,
    k2: Seq<u8>,
    h2: u32,
    w: Seq<char>,
)
    requires
        before.wf(),
        put_gives(before, after, k, h, v),
        before.contains(k2, h2, w),
    ensures
        after.contains(k2, h2, w),
{
}

/// A put of one key does not change what a lookup of another key gives: when the table holds
/// a single value for the other key, a lookup of it after the put gives that value.
pub proof fn law_lookup_other_after_put(
    before: KeySymbolTable,
    after: KeySymbolTable,
    k: Seq<u8>,
    h: u32,
    v: Seq<char>,
    k2: Seq<u8>,
    h2: u32,
    w: Seq<char>,
    found: Option<Seq<char>>,
)
    requires
        before.wf(),
        put_gives(before, after, k, h, v),
        !(k2 == k && h2 == h),
        before.contains(k2, h2, w),
        forall|w2: Seq<char>| before.contains(k2, h2, w2) ==> w2 == w,
        lookup_returns(after, k2, h2, found),
    ensures
        found == Some(w),
{
    assert(after.contains(k2, h2, w));
    if let Some(x) = found {
        assert(after.contains(k2, h2, x));
        assert(before.contains(k2, h2, x));
    }
}

} // verus!
