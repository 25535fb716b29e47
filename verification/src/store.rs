//! The sharded key-value store: a fixed number of independent
//! key-to-bytes mappings, with every key routed to exactly one shard by
//! a stable hash of its bytes.

use vstd::map::*;
use vstd::prelude::*;

verus! {

/// Stable hash of a key: a byte-wise polynomial fold with wrapping
/// 64-bit arithmetic. It depends on the key bytes alone, so the same
/// key always hashes the same, in this process and in any other.
pub open spec fn spec_hash(s: Seq<u8>) -> u64
    decreases s.len(),
{
    if s.len() == 0 {
        0u64
    } else {
        vstd::wrapping::u64_specs::wrapping_add(
            vstd::wrapping::u64_specs::wrapping_mul(spec_hash(s.drop_last()), 31),
            s.last() as u64,
        )
    }
}

/// The shard that owns a key, among `n` shards.
pub open spec fn spec_route(key: Seq<u8>, n: nat) -> nat {
    spec_hash(key) as nat % n
}

/// Routing is a function of the key bytes and the shard count alone:
/// equal keys always land on the same shard, and always within range.
pub proof fn lemma_route_deterministic(k1: Seq<u8>, k2: Seq<u8>, n: nat)
    requires
        k1 == k2,
        n > 0,
    ensures
        spec_route(k1, n) == spec_route(k2, n),
        spec_route(k1, n) < n,
{
}

/// The mapping an association list holds: later entries would win, and
/// the shard keeps its keys unique.
pub open spec fn entries_map(s: Seq<(Vec<u8>, Vec<u8>)>) -> Map<Seq<u8>, Seq<u8>>
    decreases s.len(),
{
    if s.len() == 0 {
        Map::empty()
    } else {
        entries_map(s.drop_last()).insert(s.last().0@, s.last().1@)
    }
}

/// No two entries name the same key.
pub open spec fn entries_unique(s: Seq<(Vec<u8>, Vec<u8>)>) -> bool {
    forall|i: int, j: int| 0 <= i < j < s.len() ==> (#[trigger] s[i]).0@ != (#[trigger] s[j]).0@
}

/// A key named by no entry is absent from the mapping.
pub proof fn lemma_entries_map_absent(s: Seq<(Vec<u8>, Vec<u8>)>, k: Seq<u8>)
    requires
        forall|i: int| 0 <= i < s.len() ==> (#[trigger] s[i]).0@ != k,
    ensures
        !entries_map(s).contains_key(k),
    decreases s.len(),
{
    if s.len() > 0 {
        assert(forall|i: int| 0 <= i < s.drop_last().len() ==> s.drop_last()[i] == s[i]);
        lemma_entries_map_absent(s.drop_last(), k);
        assert(s.last() == s[s.len() - 1]);
    }
}

/// The entry at `i` is in the mapping, under its own key, when keys are
/// unique.
pub proof fn lemma_entries_map_at(s: Seq<(Vec<u8>, Vec<u8>)>, i: int)
    requires
        entries_unique(s),
        0 <= i < s.len(),
    ensures
        entries_map(s).contains_key(s[i].0@),
        entries_map(s)[s[i].0@] == s[i].1@,
    decreases s.len(),
{
    if i == s.len() - 1 {
        assert(s.last() == s[i]);
    } else {
        assert(forall|a: int| 0 <= a < s.drop_last().len() ==> s.drop_last()[a] == s[a]);
        lemma_entries_map_at(s.drop_last(), i);
        assert(s.last() == s[s.len() - 1]);
        assert(s[i].0@ != s[s.len() - 1].0@);
    }
}

/// Updating the entry that holds a key is inserting under that key.
pub proof fn lemma_entries_map_update(s: Seq<(Vec<u8>, Vec<u8>)>, i: int, p: (Vec<u8>, Vec<u8>))
    requires
        entries_unique(s),
        0 <= i < s.len(),
        s[i].0@ == p.0@,
    ensures
        entries_map(s.update(i, p)) == entries_map(s).insert(p.0@, p.1@),
    decreases s.len(),
{
    let t = s.update(i, p);
    if i == s.len() - 1 {
        assert(t.drop_last() =~= s.drop_last());
        assert(t.last() == p);
        assert(entries_map(s.drop_last()).insert(p.0@, p.1@) =~= entries_map(
            s.drop_last(),
        ).insert(s[i].0@, s[i].1@).insert(p.0@, p.1@));
    } else {
        assert(t.drop_last() =~= s.drop_last().update(i, p));
        assert(t.last() == s.last());
        assert(forall|a: int| 0 <= a < s.drop_last().len() ==> s.drop_last()[a] == s[a]);
        lemma_entries_map_update(s.drop_last(), i, p);
        assert(s[i].0@ != s[s.len() - 1].0@);
        assert(entries_map(s.drop_last()).insert(p.0@, p.1@).insert(s.last().0@, s.last().1@)
            =~= entries_map(s.drop_last()).insert(s.last().0@, s.last().1@).insert(p.0@, p.1@));
    }
}

/// Two byte strings are equal exactly when their views are.
pub fn bytes_eq(a: &Vec<u8>, b: &Vec<u8>) -> (r: bool)
    ensures
        r == (a@ == b@),
{
    if a.len() != b.len() {
        proof {
            assert(a@ != b@);
        }
        return false;
    }
    let mut i: usize = 0;
    while i < a.len()
        invariant
            i <= a@.len(),
            a@.len() == b@.len(),
            forall|j: int| 0 <= j < i ==> a@[j] == b@[j],
        decreases a@.len() - i,
    {
        if a[i] != b[i] {
            return false;
        }
        i = i + 1;
    }
    proof {
        assert(a@ =~= b@);
    }
    true
}

/// A copy of a byte string.
pub fn clone_bytes(src: &Vec<u8>) -> (r: Vec<u8>)
    ensures
        r@ == src@,
{
    let mut out: Vec<u8> = Vec::new();
    let mut i: usize = 0;
    while i < src.len()
        invariant
            i <= src@.len(),
            out@ == src@.take(i as int),
        decreases src@.len() - i,
    {
        out.push(src[i]);
        proof {
            assert(out@ =~= src@.take(i as int + 1));
        }
        i = i + 1;
    }
    proof {
        assert(src@.take(src@.len() as int) =~= src@);
    }
    out
}

/// Hash of a key, as the routing uses it.
pub fn hash_key(key: &Vec<u8>) -> (r: u64)
    ensures
        r == spec_hash(key@),
{
    let mut h: u64 = 0;
    let mut i: usize = 0;
    while i < key.len()
        invariant
            i <= key@.len(),
            h == spec_hash(key@.take(i as int)),
        decreases key@.len() - i,
    {
        h = h.wrapping_mul(31).wrapping_add(key[i] as u64);
        proof {
            let cur = key@.take(i as int + 1);
            assert(cur.drop_last() =~= key@.take(i as int));
            assert(cur.last() == key@[i as int]);
        }
        i = i + 1;
    }
    proof {
        assert(key@.take(key@.len() as int) =~= key@);
    }
    h
}

/// The shard index that owns `key` among `num_shards` shards.
pub fn route_for(num_shards: usize, key: &Vec<u8>) -> (r: usize)
    requires
        num_shards > 0,
    ensures
        r == spec_route(key@, num_shards as nat),
        r < num_shards,
{
    let h = hash_key(key);
    (h % (num_shards as u64)) as usize
}

/// One independently owned partition of the store: an association list
/// from key bytes to value bytes, with unique keys.
pub struct KvShard {
    entries: Vec<(Vec<u8>, Vec<u8>)>,
}

impl View for KvShard {
    type V = Map<Seq<u8>, Seq<u8>>;

    closed spec fn view(&self) -> Map<Seq<u8>, Seq<u8>> {
        entries_map(self.entries@)
    }
}

impl KvShard {
    /// The shard keeps one entry per key.
    pub closed spec fn wf(&self) -> bool {
        entries_unique(self.entries@)
    }

    /// An empty shard.
    pub fn new() -> (r: KvShard)
        ensures
            r.wf(),
            r@ == Map::<Seq<u8>, Seq<u8>>::empty(),
    {
        KvShard { entries: Vec::new() }
    }

    /// The value stored under `key`, if any.
    #[verifier::loop_isolation(false)]
    pub fn get(&self, key: &Vec<u8>) -> (r: Option<Vec<u8>>)
        requires
            self.wf(),
        ensures
            match r {
                Some(v) => self@.contains_key(key@) && v@ == self@[key@],
                None => !self@.contains_key(key@),
            },
    {
        let mut i: usize = 0;
        while i < self.entries.len()
            invariant
                i <= self.entries@.len(),
                forall|j: int| 0 <= j < i ==> (#[trigger] self.entries@[j]).0@ != key@,
            decreases self.entries@.len() - i,
        {
            if bytes_eq(&self.entries[i].0, key) {
                proof {
                    lemma_entries_map_at(self.entries@, i as int);
                }
                return Some(clone_bytes(&self.entries[i].1));
            }
            i = i + 1;
        }
        proof {
            lemma_entries_map_absent(self.entries@, key@);
        }
        None
    }

    /// Store `value` under `key`: a fresh entry for a new key, an
    /// overwrite for a key already present.
    #[verifier::loop_isolation(false)]
    pub fn set(&mut self, key: Vec<u8>, value: Vec<u8>)
        requires
            old(self).wf(),
        ensures
            final(self).wf(),
            final(self)@ == old(self)@.insert(key@, value@),
    {
        let mut i: usize = 0;
        while i < self.entries.len()
            invariant
                i <= self.entries@.len(),
                self.entries@ == old(self).entries@,
                forall|j: int| 0 <= j < i ==> (#[trigger] self.entries@[j]).0@ != key@,
            decreases self.entries@.len() - i,
        {
            if bytes_eq(&self.entries[i].0, &key) {
                let ghost entries0 = self.entries@;
                let pair = (key, value);
                proof {
                    lemma_entries_map_update(entries0, i as int, pair);
                }
                self.entries[i] = pair;
                proof {
                    assert forall|a: int, b: int|
                        0 <= a < b < self.entries@.len() implies (#[trigger] self.entries@[a]).0@
                        != (#[trigger] self.entries@[b]).0@ by {
                        assert(entries0[a].0@ != entries0[b].0@);
                    }
                }
                return ;
            }
            i = i + 1;
        }
        let ghost entries0 = self.entries@;
        self.entries.push((key, value));
        proof {
            assert(self.entries@.drop_last() =~= entries0);
            assert forall|a: int, b: int|
                0 <= a < b < self.entries@.len() implies (#[trigger] self.entries@[a]).0@
                != (#[trigger] self.entries@[b]).0@ by {
                if b < entries0.len() {
                    assert(entries0[a].0@ != entries0[b].0@);
                } else {
                    assert(self.entries@[b] == (key, value));
                    assert(entries0[a].0@ != key@);
                }
            }
        }
    }
}

/// The sharded store: a fixed, positive number of shards, each owning
/// the keys the routing sends to it.
pub struct Store {
    shards: Vec<KvShard>,
}

impl Store {
    /// The number of shards, fixed at creation.
    pub closed spec fn spec_num_shards(&self) -> nat {
        self.shards@.len()
    }

    /// The shards themselves, for speaking of what a change left alone.
    pub closed spec fn spec_shards(&self) -> Seq<KvShard> {
        self.shards@
    }

    /// Every shard is well formed, there is at least one, and every key
    /// lives in the one shard the routing names.
    pub closed spec fn wf(&self) -> bool {
        &&& self.shards@.len() > 0
        &&& forall|i: int| 0 <= i < self.shards@.len() ==> (#[trigger] self.shards@[i]).wf()
        &&& forall|i: int, k: Seq<u8>|
            0 <= i < self.shards@.len() && #[trigger] self.shards@[i]@.contains_key(k)
                ==> spec_route(k, self.shards@.len() as nat) == i
    }

    /// The mapping the whole store holds: each key is read in the shard
    /// that owns it.
    pub closed spec fn view(&self) -> Map<Seq<u8>, Seq<u8>> {
        Map::new(
            |k: Seq<u8>|
                self.shards@[spec_route(k, self.shards@.len() as nat) as int]@.contains_key(k),
            |k: Seq<u8>| self.shards@[spec_route(k, self.shards@.len() as nat) as int]@[k],
        )
    }

    /// A store of `num_shards` empty shards.
    #[verifier::loop_isolation(false)]
    pub fn new(num_shards: usize) -> (r: Store)
        requires
            num_shards > 0,
        ensures
            r.wf(),
            r@ == Map::<Seq<u8>, Seq<u8>>::empty(),
            r.spec_num_shards() == num_shards,
    {
        let mut shards: Vec<KvShard> = Vec::new();
        let mut i: usize = 0;
        while i < num_shards
            invariant
                i <= num_shards,
                shards@.len() == i,
                forall|j: int| 0 <= j < i ==> (#[trigger] shards@[j]).wf(),
                forall|j: int| 0 <= j < i ==> (#[trigger] shards@[j])@ == Map::<
                    Seq<u8>,
                    Seq<u8>,
                >::empty(),
            decreases num_shards - i,
        {
            shards.push(KvShard::new());
            i = i + 1;
        }
        let r = Store { shards };
        proof {
            assert(r@ =~= Map::<Seq<u8>, Seq<u8>>::empty());
        }
        r
    }

    /// The shard index that owns `key` in this store.
    pub fn route_key(&self, key: &Vec<u8>) -> (r: usize)
        requires
            self.wf(),
        ensures
            r == spec_route(key@, self.spec_num_shards()),
            r < self.spec_num_shards(),
    {
        route_for(self.shards.len(), key)
    }

    /// The value stored under `key`, if any. Only the one shard that
    /// owns the key is read.
    pub fn get(&self, key: &Vec<u8>) -> (r: Option<Vec<u8>>)
        requires
            self.wf(),
        ensures
            match r {
                Some(v) => self@.contains_key(key@) && v@ == self@[key@],
                None => !self@.contains_key(key@),
            },
    {
        let idx = self.route_key(key);
        self.shards[idx].get(key)
    }

    /// Store `value` under `key`. Only the one shard that owns the key
    /// changes; every other shard is untouched.
    pub fn set(&mut self, key: Vec<u8>, value: Vec<u8>)
        requires
            old(self).wf(),
        ensures
            final(self).wf(),
            final(self)@ == old(self)@.insert(key@, value@),
            final(self).spec_num_shards() == old(self).spec_num_shards(),
            forall|i: int|
                0 <= i < old(self).spec_shards().len() && i != spec_route(
                    key@,
                    old(self).spec_num_shards(),
                ) ==> final(self).spec_shards()[i] == old(self).spec_shards()[i],
    {
        let ghost shards0 = self.shards@;
        let ghost n = self.shards@.len() as nat;
        let idx = self.route_key(&key);
        let ghost k = key@;
        let ghost v = value@;
        let shard = &mut self.shards[idx];
        shard.set(key, value);
        proof {
            assert(self.shards@ == shards0.update(idx as int, self.shards@[idx as int]));
            assert forall|i: int, kk: Seq<u8>|
                0 <= i < self.shards@.len() && #[trigger] self.shards@[i]@.contains_key(kk)
                implies spec_route(kk, self.shards@.len() as nat) == i by {
                if i == idx {
                    if kk != k {
                        assert(shards0[i]@.contains_key(kk));
                    }
                } else {
                    assert(self.shards@[i] == shards0[i]);
                }
            }
            assert_maps_equal!(self@, old(self)@.insert(k, v), kk => {
                let r = spec_route(kk, n) as int;
                if kk == k {
                } else {
                    if r != idx as int {
                        assert(self.shards@[r] == shards0[r]);
                    }
                }
            });
        }
    }
}

} // verus!
