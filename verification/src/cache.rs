use vstd::prelude::*;
use core::num::NonZeroUsize;
use crate::name::{zone_of_spec, Name};
use crate::records::{
    views,
    min_ttl,
    min_ttl_spec,
    RData,
    RDataV,
    Record,
    RecordType,
    RecordV,
    Query,
    QueryV,
};
use crate::target::{get_ns_name, ns_name_of};

verus! {

/// One cached value: a list of records and the instant (in whole seconds
/// on the caller's clock) before which the value is valid.
pub struct CacheEntry {
    pub records: Vec<Record>,
    pub valid_before: u64,
}

impl Clone for CacheEntry {
    fn clone(&self) -> (r: Self)
        ensures
            r@ == self@,
    {
        let r = CacheEntry {
            records: crate::records::clone_records(&self.records),
            valid_before: self.valid_before,
        };
        proof {
            assert(r@ =~= self@);
        }
        r
    }
}

/// The mathematical value of a `CacheEntry`.
#[verifier::ext_equal]
pub struct EntryV {
    pub records: Seq<RecordV>,
    pub valid_before: u64,
}

impl View for CacheEntry {
    type V = EntryV;

    open spec fn view(&self) -> EntryV {
        EntryV { records: views(self.records@), valid_before: self.valid_before }
    }
}

/// The bounded LRU store of the `lru` crate, declared so its values can
/// live in a field; Verus sees nothing inside it and all knowledge of it
/// comes from the trusted wrappers below.
#[verifier::external_type_specification]
#[verifier::external_body]
#[verifier::reject_recursive_types(K)]
#[verifier::reject_recursive_types(V)]
#[verifier::reject_recursive_types(S)]
pub struct ExLruCache<K, V, S>(lru::LruCache<K, V, S>);

/// What an `lru::LruCache` holds: its entries as (key, value) views, most
/// recently used first.
pub uninterp spec fn lru_entries(c: lru::LruCache<Query, CacheEntry>) -> Seq<(QueryV, EntryV)>;

/// The capacity the `lru::LruCache` was created with.
pub uninterp spec fn lru_capacity(c: lru::LruCache<Query, CacheEntry>) -> nat;

/// The first position holding key `k`, or -1 when there is none.
pub open spec fn find_key(s: Seq<(QueryV, EntryV)>, k: QueryV) -> int
    decreases s.len(),
{
    if s.len() == 0 {
        -1
    } else if s[0].0 == k {
        0
    } else {
        let r = find_key(s.drop_first(), k);
        if r < 0 {
            -1
        } else {
            r + 1
        }
    }
}

/// Does the store hold key `k`?
pub open spec fn model_contains(s: Seq<(QueryV, EntryV)>, k: QueryV) -> bool {
    find_key(s, k) >= 0
}

/// The value stored under key `k`.
pub open spec fn model_value(s: Seq<(QueryV, EntryV)>, k: QueryV) -> EntryV {
    s[find_key(s, k)].1
}

/// The store without key `k`; order otherwise kept.
pub open spec fn remove_key(s: Seq<(QueryV, EntryV)>, k: QueryV) -> Seq<(QueryV, EntryV)> {
    if model_contains(s, k) {
        s.remove(find_key(s, k))
    } else {
        s
    }
}

/// What `lru::LruCache::put` does to the store: the pair moves to the
/// front, an existing entry under the same key is replaced, and when the
/// store would exceed its capacity the least recently used entry falls
/// off the end.
pub open spec fn model_put(
    s: Seq<(QueryV, EntryV)>,
    cap: nat,
    k: QueryV,
    v: EntryV,
) -> Seq<(QueryV, EntryV)> {
    let fronted = seq![(k, v)] + remove_key(s, k);
    if fronted.len() > cap {
        fronted.take(cap as int)
    } else {
        fronted
    }
}

/// What `lru::LruCache::get` does to the store on a hit: the entry moves
/// to the front, unchanged.
pub open spec fn model_promote(s: Seq<(QueryV, EntryV)>, k: QueryV) -> Seq<(QueryV, EntryV)> {
    seq![(k, model_value(s, k))] + remove_key(s, k)
}

/// No two entries share a key.
pub open spec fn distinct_keys(s: Seq<(QueryV, EntryV)>) -> bool {
    forall|i: int, j: int| 0 <= i < j < s.len() ==> (#[trigger] s[i]).0 != (#[trigger] s[j]).0
}

/// Basic facts about `find_key`: it points at the first entry holding the
/// key, and everything before it holds other keys.
pub proof fn lemma_find_key(s: Seq<(QueryV, EntryV)>, k: QueryV)
    ensures
        model_contains(s, k) ==> 0 <= find_key(s, k) < s.len() && s[find_key(s, k)].0 == k,
        !model_contains(s, k) ==> forall|i: int| 0 <= i < s.len() ==> (#[trigger] s[i]).0 != k,
        forall|i: int| 0 <= i < find_key(s, k) ==> (#[trigger] s[i]).0 != k,
    decreases s.len(),
{
    if s.len() > 0 && s[0].0 != k {
        lemma_find_key(s.drop_first(), k);
        assert forall|i: int| 1 <= i < s.len() implies s.drop_first()[i - 1] == (
        #[trigger] s[i]) by {
        }
    }
}

/// If some entry holds the key, `find_key` finds one.
pub proof fn lemma_find_key_witness(s: Seq<(QueryV, EntryV)>, k: QueryV, i: int)
    requires
        0 <= i < s.len(),
        s[i].0 == k,
    ensures
        model_contains(s, k),
    decreases s.len(),
{
    if s[0].0 != k {
        lemma_find_key_witness(s.drop_first(), k, i - 1);
    }
}

/// Relies on `lru::LruCache::new`: a fresh cache is empty and keeps the
/// capacity it was created with.
#[verifier::external_body]
fn lru_new(capacity: usize) -> (c: lru::LruCache<Query, CacheEntry>)
    requires
        capacity >= 1,
    ensures
        lru_entries(c) =~= Seq::<(QueryV, EntryV)>::empty(),
        lru_capacity(c) == capacity,
{
    lru::LruCache::new(NonZeroUsize::new(capacity).unwrap())
}

/// Relies on `lru::LruCache::put`: the pair is inserted at the
/// most-recently-used position, replacing any entry under an equal key,
/// and when the cache is full the least recently used entry is evicted.
/// The `lru` crate compares keys with `Query`'s `Eq` and `Hash`, which
/// agree with view equality because `Name` is normalized on construction.
#[verifier::external_body]
fn lru_put(c: &mut lru::LruCache<Query, CacheEntry>, k: Query, v: CacheEntry)
    ensures
        lru_entries(*final(c)) =~= model_put(lru_entries(*old(c)), lru_capacity(*old(c)), k@, v@),
        lru_capacity(*final(c)) == lru_capacity(*old(c)),
{
    c.put(k, v);
}

/// Relies on `lru::LruCache::get`: on a hit the entry is returned and
/// moved to the most-recently-used position; on a miss the cache is
/// untouched.  The returned entry is a clone of the stored one.
#[verifier::external_body]
fn lru_get(c: &mut lru::LruCache<Query, CacheEntry>, k: &Query) -> (r: Option<CacheEntry>)
    ensures
        lru_capacity(*final(c)) == lru_capacity(*old(c)),
        match r {
            Some(v) => model_contains(lru_entries(*old(c)), k@) && v@ == model_value(
                lru_entries(*old(c)),
                k@,
            ) && lru_entries(*final(c)) =~= model_promote(lru_entries(*old(c)), k@),
            None => !model_contains(lru_entries(*old(c)), k@) && lru_entries(*final(c)) =~= lru_entries(
                *old(c),
            ),
        },
{
    c.get(k).cloned()
}

/// Relies on `lru::LruCache::len`: the number of entries the cache
/// holds.
#[verifier::external_body]
fn lru_len(c: &lru::LruCache<Query, CacheEntry>) -> (r: usize)
    ensures
        r == lru_entries(*c).len(),
{
    c.len()
}

/// Relies on `lru::LruCache::pop`: the entry under the key, if any, is
/// removed; the rest of the cache is untouched.
#[verifier::external_body]
fn lru_pop(c: &mut lru::LruCache<Query, CacheEntry>, k: &Query)
    ensures
        lru_entries(*final(c)) =~= remove_key(lru_entries(*old(c)), k@),
        lru_capacity(*final(c)) == lru_capacity(*old(c)),
{
    c.pop(k);
}

/// A bounded LRU map from queries to record lists with expiry instants,
/// backed by the `lru` crate.
pub struct Cache {
    lru: lru::LruCache<Query, CacheEntry>,
}

/// The DNS cache: its keys are (name, record type) pairs and its values
/// record lists.
pub type DnsCache = Cache;

impl View for Cache {
    type V = Seq<(QueryV, EntryV)>;

    closed spec fn view(&self) -> Seq<(QueryV, EntryV)> {
        lru_entries(self.lru)
    }
}

impl Cache {
    /// The capacity the cache was created with.
    pub closed spec fn cap(&self) -> nat {
        lru_capacity(self.lru)
    }

    /// Every cache this module hands out satisfies this: keys are unique
    /// and the entry count never exceeds the capacity.
    pub open spec fn wf(&self) -> bool {
        &&& distinct_keys(self@)
        &&& self@.len() <= self.cap()
        &&& self.cap() >= 1
    }

    /// The number of entries the cache currently holds.
    pub fn len(&self) -> (r: usize)
        ensures
            r == self@.len(),
    {
        lru_len(&self.lru)
    }

    /// A fresh, empty cache with the given capacity.
    pub fn new(capacity: usize) -> (r: Cache)
        requires
            capacity >= 1,
        ensures
            r@ =~= Seq::<(QueryV, EntryV)>::empty(),
            r.cap() == capacity,
            r.wf(),
    {
        Cache { lru: lru_new(capacity) }
    }

    /// Inserts or replaces the entry under `key`, possibly evicting the
    /// least recently used entry.
    pub fn store_with_ttl(&mut self, key: Query, value: Vec<Record>, valid_before: u64)
        requires
            old(self).wf(),
        ensures
            final(self)@ =~= model_put(
                old(self)@,
                old(self).cap(),
                key@,
                (EntryV { records: views(value@), valid_before }),
            ),
            final(self).cap() == old(self).cap(),
            final(self).wf(),
    {
        let ghost s0 = self@;
        let ghost k = key@;
        lru_put(&mut self.lru, key, CacheEntry { records: value, valid_before });
        proof {
            lemma_put_wf(s0, old(self).cap(), k, self@[0].1);
        }
    }
}

/// A record list with every ttl rewritten to `t`, truncated to 32 bits.
pub open spec fn rewrite_ttls(rs: Seq<RecordV>, t: u64) -> Seq<RecordV> {
    rs.map_values(
        |r: RecordV|
            RecordV { name: r.name, record_type: r.record_type, ttl: t as u32, rdata: r.rdata },
    )
}

/// What a read of key `k` at instant `now` returns: the stored records
/// with ttls rewritten to the remaining lifetime, or nothing when the key
/// is absent or its entry has expired.
pub open spec fn lookup_result(s: Seq<(QueryV, EntryV)>, k: QueryV, now: u64) -> Option<
    Seq<RecordV>,
> {
    if model_contains(s, k) && model_value(s, k).valid_before > now {
        Some(
            rewrite_ttls(
                model_value(s, k).records,
                (model_value(s, k).valid_before - now) as u64,
            ),
        )
    } else {
        Option::None
    }
}

/// What a read of key `k` at instant `now` does to the store: a live
/// entry moves to the front, an expired one is removed, a missing key
/// changes nothing.
pub open spec fn lookup_state(s: Seq<(QueryV, EntryV)>, k: QueryV, now: u64) -> Seq<
    (QueryV, EntryV),
> {
    if !model_contains(s, k) {
        s
    } else if model_value(s, k).valid_before > now {
        model_promote(s, k)
    } else {
        remove_key(s, k)
    }
}

/// What a store of `rs` under `q` at instant `now` does: nothing when the
/// minimum ttl is 0, otherwise an LRU insert whose entry expires when the
/// minimum ttl has passed.
pub open spec fn store_model(
    s: Seq<(QueryV, EntryV)>,
    cap: nat,
    q: QueryV,
    rs: Seq<RecordV>,
    now: u64,
) -> Seq<(QueryV, EntryV)> {
    if min_ttl_spec(rs) == 0 {
        s
    } else {
        model_put(
            s,
            cap,
            q,
            EntryV { records: rs, valid_before: (now + min_ttl_spec(rs)) as u64 },
        )
    }
}

/// With unique keys, any position holding `k` is the one `find_key`
/// returns.
pub proof fn lemma_value_at(s: Seq<(QueryV, EntryV)>, k: QueryV, i: int)
    requires
        distinct_keys(s),
        0 <= i < s.len(),
        s[i].0 == k,
    ensures
        find_key(s, k) == i,
        model_value(s, k) == s[i].1,
        model_contains(s, k),
{
    lemma_find_key_witness(s, k, i);
    lemma_find_key(s, k);
    let f = find_key(s, k);
    if f != i {
        assert(s[f].0 == s[i].0);
    }
}

/// Removing one key leaves every other key's presence and value alone.
pub proof fn lemma_remove_key_other(s: Seq<(QueryV, EntryV)>, k: QueryV, k2: QueryV)
    requires
        distinct_keys(s),
        k2 != k,
    ensures
        model_contains(remove_key(s, k), k2) == model_contains(s, k2),
        model_contains(s, k2) ==> model_value(remove_key(s, k), k2) == model_value(s, k2),
{
    lemma_find_key(s, k);
    lemma_find_key(s, k2);
    lemma_remove_key_distinct(s, k);
    let r = remove_key(s, k);
    if model_contains(s, k) {
        let f = find_key(s, k);
        if model_contains(s, k2) {
            let i = find_key(s, k2);
            assert(i != f);
            let j = if i < f {
                i
            } else {
                i - 1
            };
            assert(r[j] == s[i]);
            lemma_value_at(r, k2, j);
        } else {
            lemma_find_key(r, k2);
            if model_contains(r, k2) {
                let j = find_key(r, k2);
                let i = if j < f {
                    j
                } else {
                    j + 1
                };
                assert(r[j] == s[i]);
            }
        }
    }
}

/// A promoted store keeps its keys unique, its length, and every key's
/// value.
pub proof fn lemma_promote_wf(s: Seq<(QueryV, EntryV)>, k: QueryV)
    requires
        distinct_keys(s),
        model_contains(s, k),
    ensures
        distinct_keys(model_promote(s, k)),
        model_promote(s, k).len() == s.len(),
        model_contains(model_promote(s, k), k),
        model_value(model_promote(s, k), k) == model_value(s, k),
{
    lemma_find_key(s, k);
    lemma_remove_key_distinct(s, k);
    let base = remove_key(s, k);
    let p = model_promote(s, k);
    assert forall|i: int, j: int| 0 <= i < j < p.len() implies (#[trigger] p[i]).0 != (
    #[trigger] p[j]).0 by {
        if i == 0 {
            assert(p[j] == base[j - 1]);
        } else {
            assert(p[i] == base[i - 1]);
            assert(p[j] == base[j - 1]);
        }
    }
    assert(p[0].0 == k);
    lemma_value_at(p, k, 0);
}

/// A read at `now` does not change what any later read at `now` returns.
pub proof fn lemma_lookup_preserved(s: Seq<(QueryV, EntryV)>, k: QueryV, now: u64)
    requires
        distinct_keys(s),
    ensures
        forall|k2: QueryV|
            lookup_result(lookup_state(s, k, now), k2, now) == lookup_result(s, k2, now),
        distinct_keys(lookup_state(s, k, now)),
        lookup_state(s, k, now).len() <= s.len(),
{
    let s1 = lookup_state(s, k, now);
    if !model_contains(s, k) {
    } else if model_value(s, k).valid_before > now {
        lemma_promote_wf(s, k);
        assert forall|k2: QueryV|
            lookup_result(s1, k2, now) == lookup_result(s, k2, now) by {
            if k2 == k {
            } else {
                lemma_remove_key_other(s, k, k2);
                let base = remove_key(s, k);
                lemma_remove_key_distinct(s, k);
                if model_contains(base, k2) {
                    let j = find_key(base, k2);
                    lemma_find_key(base, k2);
                    assert(s1[j + 1] == base[j]);
                    lemma_value_at(s1, k2, j + 1);
                } else {
                    lemma_find_key(s1, k2);
                    if model_contains(s1, k2) {
                        let j = find_key(s1, k2);
                        assert(j != 0);
                        assert(s1[j] == base[j - 1]);
                        lemma_find_key_witness(base, k2, j - 1);
                    }
                }
            }
        }
    } else {
        lemma_remove_key_distinct(s, k);
        assert forall|k2: QueryV|
            lookup_result(s1, k2, now) == lookup_result(s, k2, now) by {
            if k2 == k {
                lemma_find_key(s1, k);
            } else {
                lemma_remove_key_other(s, k, k2);
            }
        }
    }
}

/// A copy of a record list with every ttl field rewritten to the given
/// remaining lifetime in whole seconds, truncated to 32 bits.
pub fn update_ttl(item: (Vec<Record>, u64)) -> (r: Vec<Record>)
    ensures
        views(r@) =~= rewrite_ttls(views(item.0@), item.1),
{
    let (records, remaining) = item;
    let mut out: Vec<Record> = Vec::new();
    let mut i: usize = 0;
    while i < records.len()
        invariant
            0 <= i <= records@.len(),
            out@.len() == i,
            forall|j: int|
                0 <= j < i ==> (#[trigger] out@[j]@) == (RecordV {
                    name: records@[j]@.name,
                    record_type: records@[j]@.record_type,
                    ttl: remaining as u32,
                    rdata: records@[j]@.rdata,
                }),
        decreases records@.len() - i,
    {
        let mut r = records[i].clone();
        r.ttl = #[verifier::truncate] (remaining as u32);
        out.push(r);
        i += 1;
    }
    out
}

impl Cache {
    /// Looks `key` up at instant `now`.  On a live hit, returns a copy of
    /// the stored records and the remaining lifetime, and refreshes the
    /// entry's LRU position; an expired entry is removed and nothing is
    /// returned.
    pub fn get_with_remaining_ttl(&mut self, key: &Query, now: u64) -> (r: Option<(Vec<Record>, u64)>)
        requires
            old(self).wf(),
        ensures
            final(self)@ =~= lookup_state(old(self)@, key@, now),
            final(self).cap() == old(self).cap(),
            final(self).wf(),
            match r {
                Some(pair) => {
                    &&& model_contains(old(self)@, key@)
                    &&& model_value(old(self)@, key@).valid_before > now
                    &&& views(pair.0@) == model_value(old(self)@, key@).records
                    &&& pair.1 == model_value(old(self)@, key@).valid_before - now
                },
                None => !model_contains(old(self)@, key@) || model_value(old(self)@, key@)
                    .valid_before <= now,
            },
            forall|k2: QueryV|
                lookup_result(final(self)@, k2, now) == lookup_result(old(self)@, k2, now),
    {
        proof {
            lemma_lookup_preserved(self@, key@, now);
        }
        let got = lru_get(&mut self.lru, key);
        match got {
            Option::None => Option::None,
            Option::Some(entry) => {
                if entry.valid_before <= now {
                    lru_pop(&mut self.lru, key);
                    proof {
                        lemma_remove_promote(old(self)@, key@);
                    }
                    Option::None
                } else {
                    proof {
                        lemma_promote_wf(old(self)@, key@);
                    }
                    Option::Some((entry.records, entry.valid_before - now))
                }
            },
        }
    }

    /// Looks `key` up at instant `now` and returns the records with their
    /// ttl fields rewritten to the remaining lifetime in whole seconds.
    pub fn get_and_update_ttl(&mut self, query: &Query, now: u64) -> (r: Option<Vec<Record>>)
        requires
            old(self).wf(),
        ensures
            final(self)@ =~= lookup_state(old(self)@, query@, now),
            final(self).cap() == old(self).cap(),
            final(self).wf(),
            match r {
                Some(v) => lookup_result(old(self)@, query@, now) == Some(views(v@)),
                None => lookup_result(old(self)@, query@, now) is None,
            },
            forall|k2: QueryV|
                lookup_result(final(self)@, k2, now) == lookup_result(old(self)@, k2, now),
    {
        match self.get_with_remaining_ttl(query, now) {
            Option::None => Option::None,
            Option::Some(pair) => Option::Some(update_ttl(pair)),
        }
    }

    /// Stores `value` under `query`, letting it expire after the minimum
    /// ttl of the records; a list whose minimum ttl is 0 is not cached at
    /// all.
    pub fn store(&mut self, query: Query, value: Vec<Record>, now: u64)
        requires
            old(self).wf(),
            now <= u64::MAX - (u32::MAX as u64),
        ensures
            final(self)@ =~= store_model(old(self)@, old(self).cap(), query@, views(value@), now),
            final(self).cap() == old(self).cap(),
            final(self).wf(),
    {
        let m = min_ttl(&value);
        proof {
            crate::records::lemma_min_ttl_bound(views(value@));
        }
        if m == 0 {
            return ;
        }
        self.store_with_ttl(query, value, now + (m as u64));
    }
}

/// A store followed by a read of the same key at any instant before the
/// entry expires returns the stored records, each ttl rewritten to the
/// remaining lifetime `T - (now - t0)` where `T` is the minimum ttl the
/// records were stored with.  Read at `now == t0`, that remaining
/// lifetime is `T` itself: the cache round-trips what was stored.
pub proof fn lemma_cache_round_trip(
    s: Seq<(QueryV, EntryV)>,
    cap: nat,
    q: QueryV,
    rs: Seq<RecordV>,
    t0: u64,
    now: u64,
)
    requires
        distinct_keys(s),
        s.len() <= cap,
        cap >= 1,
        min_ttl_spec(rs) > 0,
        t0 + min_ttl_spec(rs) <= u64::MAX,
        t0 <= now < t0 + min_ttl_spec(rs),
    ensures
        lookup_result(store_model(s, cap, q, rs, t0), q, now) == Some(
            rewrite_ttls(rs, (t0 + min_ttl_spec(rs) - now) as u64),
        ),
{
    let v = EntryV { records: rs, valid_before: (t0 + min_ttl_spec(rs)) as u64 };
    lemma_put_wf(s, cap, q, v);
    let s1 = store_model(s, cap, q, rs, t0);
    assert(s1[0] == (q, v));
    lemma_value_at(s1, q, 0);
}

/// Storing a record list whose minimum ttl is 0 leaves the cache
/// unchanged, whatever else it holds.
pub proof fn lemma_zero_ttl_store(
    s: Seq<(QueryV, EntryV)>,
    cap: nat,
    q: QueryV,
    rs: Seq<RecordV>,
    now: u64,
)
    requires
        min_ttl_spec(rs) == 0,
    ensures
        store_model(s, cap, q, rs, now) == s,
{
}

/// Folding plain inserts of the first `i` key/value pairs into a store.
pub open spec fn puts_fold(
    s: Seq<(QueryV, EntryV)>,
    cap: nat,
    ks: Seq<QueryV>,
    vs: Seq<EntryV>,
    i: int,
) -> Seq<(QueryV, EntryV)>
    decreases i,
{
    if i <= 0 {
        s
    } else {
        model_put(puts_fold(s, cap, ks, vs, i - 1), cap, ks[i - 1], vs[i - 1])
    }
}

/// No two of the keys repeat.
pub open spec fn pairwise_distinct(ks: Seq<QueryV>) -> bool {
    forall|i: int, j: int| 0 <= i < j < ks.len() ==> ks[i] != ks[j]
}

/// After `i` inserts under pairwise distinct keys with no reads between,
/// the front of the store holds exactly those pairs, most recent first.
pub proof fn lemma_puts_prefix(
    s: Seq<(QueryV, EntryV)>,
    cap: nat,
    ks: Seq<QueryV>,
    vs: Seq<EntryV>,
    i: int,
)
    requires
        distinct_keys(s),
        s.len() <= cap,
        cap >= 1,
        pairwise_distinct(ks),
        vs.len() == ks.len(),
        0 <= i <= ks.len(),
        i <= cap,
    ensures
        distinct_keys(puts_fold(s, cap, ks, vs, i)),
        puts_fold(s, cap, ks, vs, i).len() <= cap,
        i <= puts_fold(s, cap, ks, vs, i).len(),
        forall|j: int|
            0 <= j < i ==> (#[trigger] puts_fold(s, cap, ks, vs, i)[j]) == (
            ks[i - 1 - j],
            vs[i - 1 - j],
            ),
    decreases i,
{
    if i > 0 {
        lemma_puts_prefix(s, cap, ks, vs, i - 1);
        let t = puts_fold(s, cap, ks, vs, i - 1);
        let k = ks[i - 1];
        let v = vs[i - 1];
        lemma_put_wf(t, cap, k, v);
        lemma_find_key(t, k);
        lemma_remove_key_distinct(t, k);
        let base = remove_key(t, k);
        let fronted = seq![(k, v)] + base;
        if model_contains(t, k) {
            let f = find_key(t, k);
            assert(f >= i - 1) by {
                if f < i - 1 {
                    assert(t[f] == (ks[i - 1 - 1 - f], vs[i - 1 - 1 - f]));
                }
            }
            assert forall|j: int| 0 <= j < i - 1 implies base[j] == t[j] by {
            }
        }
        assert forall|j: int| 0 <= j < i implies (#[trigger] puts_fold(s, cap, ks, vs, i)[j]) == (
        ks[i - 1 - j],
        vs[i - 1 - j],
        ) by {
            if j == 0 {
                assert(fronted[0] == (k, v));
            } else {
                assert(fronted[j] == base[j - 1]);
                assert(base[j - 1] == t[j - 1]);
            }
            if fronted.len() > cap {
                assert(puts_fold(s, cap, ks, vs, i)[j] == fronted.take(cap as int)[j]);
            }
        }
    }
}

/// At capacity `C`, after `C + 1` inserts under pairwise distinct keys
/// with no reads between, the first-inserted key — the one not read
/// since — is gone.
pub proof fn lemma_lru_eviction(
    s: Seq<(QueryV, EntryV)>,
    cap: nat,
    ks: Seq<QueryV>,
    vs: Seq<EntryV>,
)
    requires
        distinct_keys(s),
        s.len() <= cap,
        cap >= 1,
        pairwise_distinct(ks),
        vs.len() == ks.len(),
        ks.len() == cap + 1,
    ensures
        !model_contains(puts_fold(s, cap, ks, vs, (cap + 1) as int), ks[0]),
{
    let c = cap as int;
    lemma_puts_prefix(s, cap, ks, vs, c);
    let t = puts_fold(s, cap, ks, vs, c);
    assert(t.len() == cap) by {
        assert(c <= t.len() <= cap);
    }
    let k = ks[c];
    let v = vs[c];
    lemma_find_key(t, k);
    assert(!model_contains(t, k)) by {
        if model_contains(t, k) {
            let f = find_key(t, k);
            assert(t[f] == (ks[c - 1 - f], vs[c - 1 - f]));
        }
    }
    let fronted = seq![(k, v)] + t;
    assert(fronted.len() == cap + 1);
    let fin = puts_fold(s, cap, ks, vs, c + 1);
    assert(fin == fronted.take(c));
    lemma_find_key(fin, ks[0]);
    if model_contains(fin, ks[0]) {
        let f = find_key(fin, ks[0]);
        assert(fin[f] == fronted[f]);
        if f == 0 {
            assert(fronted[0].0 == ks[c]);
        } else {
            assert(fronted[f] == t[f - 1]);
            assert(t[f - 1] == (ks[c - 1 - (f - 1)], vs[c - 1 - (f - 1)]));
        }
    }
}

/// The cache key a record is binned under: its owner name and type.
pub open spec fn record_key(r: RecordV) -> QueryV {
    QueryV { to_resolve: r.name, record_type: r.record_type }
}

/// The distinct keys of a record list, in order of first appearance.
pub open spec fn dedup_keys(rs: Seq<RecordV>) -> Seq<QueryV>
    decreases rs.len(),
{
    if rs.len() == 0 {
        Seq::empty()
    } else {
        let d = dedup_keys(rs.drop_last());
        let k = record_key(rs.last());
        if d.contains(k) {
            d
        } else {
            d.push(k)
        }
    }
}

/// The records of the list binned under key `k`, in order.
pub open spec fn group_of(rs: Seq<RecordV>, k: QueryV) -> Seq<RecordV> {
    rs.filter(|r: RecordV| record_key(r) == k)
}

/// A record list binned by key: one pair per distinct key, keys in order
/// of first appearance, each with all the records of that key.
pub open spec fn groups_spec(rs: Seq<RecordV>) -> Seq<(QueryV, Seq<RecordV>)> {
    Seq::new(dedup_keys(rs).len(), |i: int| (dedup_keys(rs)[i], group_of(rs, dedup_keys(rs)[i])))
}

/// The views of a grouped record list.
pub open spec fn groups_view(v: Seq<(Query, Vec<Record>)>) -> Seq<(QueryV, Seq<RecordV>)> {
    Seq::new(v.len(), |i: int| (v[i].0@, views(v[i].1@)))
}

/// A name occurs in a list of names.
pub open spec fn name_in(s: Seq<Name>, n: Seq<Seq<u8>>) -> bool {
    exists|j: int| 0 <= j < s.len() && (#[trigger] s[j])@ == n
}

/// `n` is the target of some NS record in the list.
pub open spec fn is_ns_target(ns: Seq<RecordV>, n: Seq<Seq<u8>>) -> bool {
    exists|i: int| 0 <= i < ns.len() && (#[trigger] ns[i]).rdata == Some(RDataV::Ns(n))
}

/// The poisoning-resistance rule for caching a referral: every NS owner
/// must be an ancestor of, or equal to, the name being resolved, and
/// every glue owner must be the target of one of the NS records.
pub open spec fn eligible_spec(ns: Seq<RecordV>, glue: Seq<RecordV>, to: Seq<Seq<u8>>) -> bool {
    &&& forall|i: int| 0 <= i < ns.len() ==> zone_of_spec((#[trigger] ns[i]).name, to)
    &&& forall|j: int| 0 <= j < glue.len() ==> is_ns_target(ns, (#[trigger] glue[j]).name)
}

/// Storing a grouped record list, group by group, from the front.
pub open spec fn store_groups(
    s: Seq<(QueryV, EntryV)>,
    cap: nat,
    gs: Seq<(QueryV, Seq<RecordV>)>,
    now: u64,
) -> Seq<(QueryV, EntryV)>
    decreases gs.len(),
{
    if gs.len() == 0 {
        s
    } else {
        store_groups(store_model(s, cap, gs[0].0, gs[0].1, now), cap, gs.drop_first(), now)
    }
}

/// What `store_referral` does: nothing for an ineligible referral, else
/// the NS groups are stored, then the glue groups.
pub open spec fn referral_model(
    s: Seq<(QueryV, EntryV)>,
    cap: nat,
    ns: Seq<RecordV>,
    glue: Seq<RecordV>,
    to: Seq<Seq<u8>>,
    now: u64,
) -> Seq<(QueryV, EntryV)> {
    if !eligible_spec(ns, glue, to) {
        s
    } else {
        store_groups(store_groups(s, cap, groups_spec(ns), now), cap, groups_spec(glue), now)
    }
}

/// Filtering a list extended by one element keeps the element exactly
/// when it satisfies the predicate.
pub proof fn lemma_filter_push(s: Seq<RecordV>, r: RecordV, pred: spec_fn(RecordV) -> bool)
    ensures
        pred(r) ==> s.push(r).filter(pred) =~= s.filter(pred).push(r),
        !pred(r) ==> s.push(r).filter(pred) =~= s.filter(pred),
{
    reveal(Seq::filter);
    assert(s.push(r).drop_last() =~= s);
    assert(s.push(r).last() == r);
}

/// Extending a record list extends its key list by the new record's key,
/// unless that key is already there.
pub proof fn lemma_dedup_push(s: Seq<RecordV>, r: RecordV)
    ensures
        dedup_keys(s).contains(record_key(r)) ==> dedup_keys(s.push(r)) =~= dedup_keys(s),
        !dedup_keys(s).contains(record_key(r)) ==> dedup_keys(s.push(r)) =~= dedup_keys(s).push(
            record_key(r),
        ),
{
    assert(s.push(r).drop_last() =~= s);
    assert(s.push(r).last() == r);
}

/// The distinct keys of a record list are distinct.
pub proof fn lemma_dedup_distinct(s: Seq<RecordV>)
    ensures
        forall|i: int, j: int|
            0 <= i < j < dedup_keys(s).len() ==> dedup_keys(s)[i] != dedup_keys(s)[j],
    decreases s.len(),
{
    if s.len() > 0 {
        lemma_dedup_distinct(s.drop_last());
        let d = dedup_keys(s.drop_last());
        let k = record_key(s.last());
        if !d.contains(k) {
            assert forall|i: int, j: int|
                0 <= i < j < dedup_keys(s).len() implies dedup_keys(s)[i] != dedup_keys(
                s,
            )[j] by {
                if j == d.len() {
                    assert(dedup_keys(s)[i] == d[i]);
                    assert(!d.contains(k));
                    assert(d[i] != k) by {
                        if d[i] == k {
                            assert(d.contains(k));
                        }
                    }
                }
            }
        }
    }
}

/// A key not among the distinct keys bins no records.
pub proof fn lemma_group_absent(s: Seq<RecordV>, k: QueryV)
    requires
        !dedup_keys(s).contains(k),
    ensures
        group_of(s, k) =~= Seq::<RecordV>::empty(),
    decreases s.len(),
{
    reveal(Seq::filter);
    if s.len() > 0 {
        let d = dedup_keys(s.drop_last());
        assert(dedup_keys(s).contains(record_key(s.last()))) by {
            if d.contains(record_key(s.last())) {
                let w = choose|w: int|
                    0 <= w < d.len() && d[w] == record_key(s.last());
                assert(dedup_keys(s)[w] == record_key(s.last()));
            } else {
                assert(dedup_keys(s).last() == record_key(s.last()));
            }
        }
        assert(!d.contains(k)) by {
            if d.contains(k) {
                let w = choose|w: int| 0 <= w < d.len() && d[w] == k;
                assert(dedup_keys(s)[w] == k);
            }
        }
        lemma_group_absent(s.drop_last(), k);
        lemma_filter_push(s.drop_last(), s.last(), |r: RecordV| record_key(r) == k);
        assert(s.drop_last().push(s.last()) =~= s);
    }
}

/// Bins a record list by (owner name, type): one pair per distinct key,
/// in order of first appearance, each holding that key's records in
/// order.
pub fn make_referral_query(records: &Vec<Record>) -> (r: Vec<(Query, Vec<Record>)>)
    ensures
        groups_view(r@) =~= groups_spec(views(records@)),
{
    let ghost rv = views(records@);
    let mut out: Vec<(Query, Vec<Record>)> = Vec::new();
    let mut i: usize = 0;
    while i < records.len()
        invariant
            0 <= i <= records@.len(),
            rv == views(records@),
            groups_view(out@) =~= groups_spec(rv.take(i as int)),
        decreases records@.len() - i,
    {
        let ghost s = rv.take(i as int);
        let ghost rnew = rv[i as int];
        let rec = &records[i];
        proof {
            assert(rec@ == rnew);
            assert(s.push(rnew) =~= rv.take(i + 1));
            lemma_dedup_distinct(s);
            lemma_dedup_push(s, rnew);
        }
        let ghost d = dedup_keys(s);
        let ghost knew = record_key(rnew);
        let mut j: usize = 0;
        let mut found = false;
        while j < out.len() && !found
            invariant
                0 <= j <= out@.len(),
                rv == views(records@),
                0 <= i < records@.len(),
                *rec == records@[i as int],
                rnew == rv[i as int],
                rec@ == rnew,
                found ==> j >= 1 && out@[j - 1].0@ == record_key(rnew) && forall|l: int|
                    0 <= l < j - 1 ==> (#[trigger] out@[l]).0@ != record_key(rnew),
                !found ==> forall|l: int| 0 <= l < j ==> (#[trigger] out@[l]).0@ != record_key(
                    rnew,
                ),
            decreases out@.len() - j,
        {
            if out[j].0.to_resolve == rec.name && out[j].0.record_type == rec.record_type {
                found = true;
                proof {
                    assert(out@[j as int].0@ =~= record_key(rnew));
                }
            }
            j += 1;
        }
        let ghost out_before = out@;
        if found {
            let at = j - 1;
            let mut pair = out.remove(at);
            pair.1.push(rec.clone());
            let ghost grp_new = views(pair.1@);
            out.insert(at, pair);
            proof {
                let a = at as int;
                assert(groups_view(out_before) == groups_spec(s));
                assert(groups_view(out_before).len() == out_before.len());
                assert(groups_spec(s).len() == dedup_keys(s).len());
                assert(out_before.len() == d.len());
                assert(groups_view(out_before)[a] == groups_spec(s)[a]);
                assert(out_before[a].0@ == d[a]);
                assert(out@ =~= out_before.update(a, out@[a]));
                assert(out@[a].0 == out_before[a].0);
                assert(grp_new =~= views(out_before[a].1@).push(rnew));
                assert(views(out@[a].1@) =~= grp_new);
                // the found key is among the distinct keys, uniquely
                assert(d[a] == knew);
                assert(d.contains(knew));
                assert forall|l: int| 0 <= l < d.len() && l != a implies d[l] != knew by {
                    if l < a {
                        assert(out_before[l].0@ != knew);
                    }
                }
                assert forall|l: int|
                    0 <= l < groups_spec(s.push(rnew)).len() implies groups_view(out@)[l]
                    == groups_spec(s.push(rnew))[l] by {
                    lemma_filter_push(s, rnew, |r: RecordV| record_key(r) == d[l]);
                    if l == a {
                        assert(group_of(s.push(rnew), d[l]) =~= group_of(s, d[l]).push(rnew));
                        assert(views(out@[l].1@) =~= group_of(s.push(rnew), d[l]));
                    } else {
                        assert(group_of(s.push(rnew), d[l]) =~= group_of(s, d[l]));
                        assert(groups_view(out@)[l] == groups_view(out_before)[l]);
                    }
                    assert(groups_view(out@)[l] =~= groups_spec(s.push(rnew))[l]);
                }
                assert(groups_view(out@) =~= groups_spec(s.push(rnew)));
            }
        } else {
            let q = Query { to_resolve: rec.name.clone(), record_type: rec.record_type };
            let mut grp: Vec<Record> = Vec::new();
            grp.push(rec.clone());
            out.push((q, grp));
            proof {
                assert(groups_view(out_before) == groups_spec(s));
                assert(groups_view(out_before).len() == out_before.len());
                assert(groups_spec(s).len() == dedup_keys(s).len());
                assert(out_before.len() == d.len());
                assert(q@ =~= knew);
                assert(views(out@[out_before.len() as int].1@) =~= seq![rnew]);
                assert(!d.contains(knew)) by {
                    if d.contains(knew) {
                        let w = choose|w: int| 0 <= w < d.len() && d[w] == knew;
                        assert(groups_view(out_before)[w] == groups_spec(s)[w]);
                        assert(out_before[w].0@ == d[w]);
                    }
                }
                lemma_group_absent(s, knew);
                assert forall|l: int|
                    0 <= l < groups_spec(s.push(rnew)).len() implies groups_view(out@)[l]
                    == groups_spec(s.push(rnew))[l] by {
                    let dn = dedup_keys(s.push(rnew));
                    assert(dn =~= d.push(knew));
                    lemma_filter_push(s, rnew, |r: RecordV| record_key(r) == dn[l]);
                    if l < d.len() {
                        assert(dn[l] == d[l]);
                        assert(d[l] != knew) by {
                            if d[l] == knew {
                                assert(d.contains(knew));
                            }
                        }
                        assert(group_of(s.push(rnew), dn[l]) =~= group_of(s, d[l]));
                        assert(groups_view(out@)[l] == groups_view(out_before)[l]);
                    } else {
                        assert(dn[l] == knew);
                        assert(group_of(s.push(rnew), knew) =~= group_of(s, knew).push(rnew));
                        assert(group_of(s.push(rnew), knew) =~= seq![rnew]);
                    }
                    assert(groups_view(out@)[l] =~= groups_spec(s.push(rnew))[l]);
                }
                assert(groups_view(out@) =~= groups_spec(s.push(rnew)));
            }
        }
        i += 1;
    }
    proof {
        assert(rv.take(rv.len() as int) =~= rv);
    }
    out
}

/// Checks the poisoning-resistance rule of `eligible_spec`.
pub fn eligible(name_servers: &Vec<Record>, glue: &Vec<Record>, to_resolve: &Name) -> (r: bool)
    ensures
        r == eligible_spec(views(name_servers@), views(glue@), to_resolve@),
{
    let ghost nsv = views(name_servers@);
    let mut names: Vec<Name> = Vec::new();
    let mut i: usize = 0;
    while i < name_servers.len()
        invariant
            0 <= i <= name_servers@.len(),
            nsv == views(name_servers@),
            forall|j: int| 0 <= j < i ==> zone_of_spec((#[trigger] nsv[j]).name, to_resolve@),
            forall|j: int| 0 <= j < names@.len() ==> is_ns_target(nsv, (#[trigger] names@[j])@),
            forall|j: int|
                0 <= j < i ==> ((#[trigger] nsv[j]).rdata matches Some(RDataV::Ns(n)) ==> name_in(
                    names@,
                    n,
                )),
        decreases name_servers@.len() - i,
    {
        let record = &name_servers[i];
        proof {
            assert(nsv[i as int] == name_servers@[i as int]@);
        }
        match &record.rdata {
            Some(RData::Ns(n)) => {
                let ghost names0 = names@;
                names.push(n.clone());
                proof {
                    assert(nsv[i as int].rdata == Some(RDataV::Ns(n@)));
                    assert(names@[names0.len() as int]@ == n@);
                    assert(name_in(names@, n@));
                    assert forall|nn: Seq<Seq<u8>>| name_in(names0, nn) implies name_in(
                        names@,
                        nn,
                    ) by {
                        let w = choose|w: int| 0 <= w < names0.len() && (#[trigger] names0[w])@
                            == nn;
                        assert(names@[w]@ == nn);
                    }
                    assert(is_ns_target(nsv, n@)) by {
                        assert(nsv[i as int].rdata == Some(RDataV::Ns(n@)));
                    }
                }
            },
            _ => {
                proof {
                    assert(!(nsv[i as int].rdata matches Some(RDataV::Ns(nn))));
                }
            },
        }
        if !record.name.zone_of(to_resolve) {
            proof {
                assert(!zone_of_spec(nsv[i as int].name, to_resolve@));
            }
            return false;
        }
        i += 1;
    }
    let mut j: usize = 0;
    while j < glue.len()
        invariant
            0 <= j <= glue@.len(),
            nsv == views(name_servers@),
            forall|l: int| 0 <= l < j ==> is_ns_target(nsv, (#[trigger] views(glue@)[l]).name),
            forall|l: int| 0 <= l < names@.len() ==> is_ns_target(nsv, (#[trigger] names@[l])@),
            forall|l: int|
                0 <= l < nsv.len() ==> ((#[trigger] nsv[l]).rdata matches Some(RDataV::Ns(n))
                    ==> name_in(names@, n)),
            forall|l: int|
                0 <= l < nsv.len() ==> zone_of_spec((#[trigger] nsv[l]).name, to_resolve@),
        decreases glue@.len() - j,
    {
        let g = &glue[j];
        proof {
            assert(views(glue@)[j as int] == glue@[j as int]@);
        }
        let mut found = false;
        let mut l: usize = 0;
        while l < names.len() && !found
            invariant
                0 <= l <= names@.len(),
                found ==> name_in(names@, g.name@),
                !found ==> forall|m: int| 0 <= m < l ==> (#[trigger] names@[m])@ != g.name@,
            decreases names@.len() - l,
        {
            if names[l] == g.name {
                found = true;
                proof {
                    assert(names@[l as int]@ == g.name@);
                }
            }
            l += 1;
        }
        if !found {
            proof {
                if is_ns_target(nsv, views(glue@)[j as int].name) {
                    let w = choose|w: int|
                        0 <= w < nsv.len() && (#[trigger] nsv[w]).rdata == Some(
                            RDataV::Ns(views(glue@)[j as int].name),
                        );
                    assert(name_in(names@, views(glue@)[j as int].name));
                    let m = choose|m: int|
                        0 <= m < names@.len() && (#[trigger] names@[m])@ == views(
                            glue@,
                        )[j as int].name;
                    assert(false);
                }
            }
            return false;
        }
        proof {
            let m = choose|m: int| 0 <= m < names@.len() && (#[trigger] names@[m])@ == g.name@;
            assert(is_ns_target(nsv, names@[m]@));
        }
        j += 1;
    }
    true
}

/// What the cache has under `(name, type)`: a three-way answer.
#[derive(PartialEq, Eq, Debug)]
pub enum CacheResponse {
    /// A direct hit for the query: these records answer it.
    Authoritative(Vec<Record>),
    /// No direct hit, but a cached delegation: NS records of the nearest
    /// ancestor zone, with the glue addresses the cache knows for them.
    Referral(Vec<Record>, Vec<Record>),
    /// The cache knows nothing relevant.
    Nothing,
}

/// The mathematical value of a `CacheResponse`.
#[verifier::ext_equal]
pub enum CacheResponseV {
    Authoritative(Seq<RecordV>),
    Referral(Seq<RecordV>, Seq<RecordV>),
    Nothing,
}

impl View for CacheResponse {
    type V = CacheResponseV;

    open spec fn view(&self) -> CacheResponseV {
        match self {
            CacheResponse::Authoritative(rs) => CacheResponseV::Authoritative(views(rs@)),
            CacheResponse::Referral(ns, glue) => CacheResponseV::Referral(
                views(ns@),
                views(glue@),
            ),
            CacheResponse::Nothing => CacheResponseV::Nothing,
        }
    }
}

/// What one NS record contributes to a referral's glue: the cached A
/// records of its target name, or nothing for a record that is not a
/// consistent NS record or whose target the cache does not know.
pub open spec fn glue_part(s: Seq<(QueryV, EntryV)>, r: RecordV, now: u64) -> Seq<RecordV> {
    match ns_name_of(r) {
        Some(n) => match lookup_result(
            s,
            QueryV { to_resolve: n, record_type: RecordType::A },
            now,
        ) {
            Some(rs) => rs,
            None => Seq::empty(),
        },
        None => Seq::empty(),
    }
}

/// The glue assembled for a list of NS records, in their order.
pub open spec fn fetch_glue_spec(s: Seq<(QueryV, EntryV)>, ns: Seq<RecordV>, now: u64) -> Seq<
    RecordV,
>
    decreases ns.len(),
{
    if ns.len() == 0 {
        Seq::empty()
    } else {
        glue_part(s, ns[0], now) + fetch_glue_spec(s, ns.drop_first(), now)
    }
}

/// The strict ancestors of a name, nearest first, the root excluded.
pub open spec fn parents_spec(n: Seq<Seq<u8>>) -> Seq<Seq<Seq<u8>>> {
    if n.len() == 0 {
        Seq::empty()
    } else {
        Seq::new((n.len() - 1) as nat, |i: int| n.skip(i + 1))
    }
}

/// The first ancestor with live cached NS records decides: its records
/// and their glue form a referral; with none, the cache has nothing.
pub open spec fn best_parent(
    s: Seq<(QueryV, EntryV)>,
    ps: Seq<Seq<Seq<u8>>>,
    now: u64,
) -> CacheResponseV
    decreases ps.len(),
{
    if ps.len() == 0 {
        CacheResponseV::Nothing
    } else {
        let q = QueryV { to_resolve: ps[0], record_type: RecordType::Ns };
        match lookup_result(s, q, now) {
            Some(nsrec) => CacheResponseV::Referral(nsrec, fetch_glue_spec(s, nsrec, now)),
            None => best_parent(s, ps.drop_first(), now),
        }
    }
}

/// What `get_best_record` answers: a live direct hit, else the nearest
/// ancestor's referral, else nothing.
pub open spec fn best_spec(s: Seq<(QueryV, EntryV)>, q: QueryV, now: u64) -> CacheResponseV {
    match lookup_result(s, q, now) {
        Some(rs) => CacheResponseV::Authoritative(rs),
        None => best_parent(s, parents_spec(q.to_resolve), now),
    }
}

/// Glue assembly reads the store only through `lookup_result`, so two
/// stores that answer lookups alike assemble the same glue.
pub proof fn lemma_fetch_glue_state(
    s0: Seq<(QueryV, EntryV)>,
    s1: Seq<(QueryV, EntryV)>,
    ns: Seq<RecordV>,
    now: u64,
)
    requires
        forall|k: QueryV| lookup_result(s1, k, now) == lookup_result(s0, k, now),
    ensures
        fetch_glue_spec(s1, ns, now) == fetch_glue_spec(s0, ns, now),
    decreases ns.len(),
{
    if ns.len() > 0 {
        lemma_fetch_glue_state(s0, s1, ns.drop_first(), now);
    }
}

/// One more NS record extends the assembled glue at the end.
pub proof fn lemma_fetch_glue_snoc(s: Seq<(QueryV, EntryV)>, ns: Seq<RecordV>, i: int, now: u64)
    requires
        0 <= i < ns.len(),
    ensures
        fetch_glue_spec(s, ns.take(i + 1), now) == fetch_glue_spec(s, ns.take(i), now) + glue_part(
            s,
            ns[i],
            now,
        ),
    decreases i,
{
    if i == 0 {
        assert(ns.take(1) =~= seq![ns[0]]);
        assert(ns.take(1)[0] == ns[0]);
        assert(ns.take(1).drop_first() =~= Seq::<RecordV>::empty());
        assert(ns.take(0) =~= Seq::<RecordV>::empty());
        assert(fetch_glue_spec(s, Seq::<RecordV>::empty(), now) =~= Seq::<RecordV>::empty());
        assert((glue_part(s, ns[0], now) + Seq::<RecordV>::empty()) =~= glue_part(s, ns[0], now));
        assert(fetch_glue_spec(s, ns.take(1), now) =~= glue_part(s, ns[0], now));
        assert(fetch_glue_spec(s, ns.take(0), now) + glue_part(s, ns[0], now) =~= glue_part(
            s,
            ns[0],
            now,
        ));
    } else {
        lemma_fetch_glue_snoc(s, ns.drop_first(), i - 1, now);
        assert(ns.take(i + 1)[0] == ns[0]);
        assert(ns.take(i + 1).drop_first() =~= ns.drop_first().take(i));
        assert(ns.take(i)[0] == ns[0]);
        assert(ns.take(i).drop_first() =~= ns.drop_first().take(i - 1));
        assert(ns.drop_first()[i - 1] == ns[i]);
        assert(glue_part(s, ns[0], now) + (fetch_glue_spec(s, ns.drop_first().take(i - 1), now)
            + glue_part(s, ns[i], now)) =~= (glue_part(s, ns[0], now) + fetch_glue_spec(
            s,
            ns.drop_first().take(i - 1),
            now,
        )) + glue_part(s, ns[i], now));
    }
}

impl Cache {
    /// Assembles glue for a list of NS records: for each, the cached A
    /// records of its target name, concatenated in NS order.
    pub fn fetch_glue(&mut self, name_servers: &Vec<Record>, now: u64) -> (r: Vec<Record>)
        requires
            old(self).wf(),
        ensures
            views(r@) =~= fetch_glue_spec(old(self)@, views(name_servers@), now),
            final(self).cap() == old(self).cap(),
            final(self).wf(),
            forall|k2: QueryV|
                lookup_result(final(self)@, k2, now) == lookup_result(old(self)@, k2, now),
    {
        let ghost s0 = self@;
        let ghost nsv = views(name_servers@);
        let mut result: Vec<Record> = Vec::new();
        let mut i: usize = 0;
        proof {
            assert(views(result@) =~= fetch_glue_spec(s0, nsv.take(0), now)) by {
                assert(nsv.take(0) =~= Seq::<RecordV>::empty());
            }
        }
        while i < name_servers.len()
            invariant
                0 <= i <= name_servers@.len(),
                nsv == views(name_servers@),
                self.wf(),
                self.cap() == old(self).cap(),
                views(result@) =~= fetch_glue_spec(s0, nsv.take(i as int), now),
                forall|k2: QueryV| lookup_result(self@, k2, now) == lookup_result(s0, k2, now),
            decreases name_servers@.len() - i,
        {
            let ns = &name_servers[i];
            proof {
                assert(ns@ == nsv[i as int]);
                lemma_fetch_glue_snoc(s0, nsv, i as int, now);
            }
            let ghost res_before = views(result@);
            match get_ns_name(ns) {
                Ok(name) => {
                    let query = Query { to_resolve: name.clone(), record_type: RecordType::A };
                    proof {
                        assert(query@ == (QueryV {
                            to_resolve: ns_name_of(nsv[i as int])->Some_0,
                            record_type: RecordType::A,
                        }));
                    }
                    match self.get_and_update_ttl(&query, now) {
                        Some(mut records) => {
                            proof {
                                assert(views(records@) =~= glue_part(s0, nsv[i as int], now));
                            }
                            result.append(&mut records);
                            proof {
                                assert(views(result@) =~= res_before + glue_part(
                                    s0,
                                    nsv[i as int],
                                    now,
                                ));
                            }
                        },
                        None => {
                            proof {
                                assert(glue_part(s0, nsv[i as int], now) =~= Seq::<RecordV>::empty());
                                assert(views(result@) =~= res_before + glue_part(
                                    s0,
                                    nsv[i as int],
                                    now,
                                ));
                            }
                        },
                    }
                },
                Err(_) => {
                    proof {
                        assert(glue_part(s0, nsv[i as int], now) =~= Seq::<RecordV>::empty());
                        assert(views(result@) =~= res_before + glue_part(s0, nsv[i as int], now));
                    }
                },
            }
            i += 1;
        }
        proof {
            assert(nsv.take(nsv.len() as int) =~= nsv);
        }
        result
    }

    /// The cache's best help for a query at instant `now`: a live direct
    /// hit as an authoritative answer; else, walking the query name's
    /// ancestors nearest first, the first live NS entry as a referral
    /// with its glue; else nothing.
    pub fn get_best_record(&mut self, query: &Query, now: u64) -> (r: CacheResponse)
        requires
            old(self).wf(),
        ensures
            r@ == best_spec(old(self)@, query@, now),
            final(self).cap() == old(self).cap(),
            final(self).wf(),
            forall|k2: QueryV|
                lookup_result(final(self)@, k2, now) == lookup_result(old(self)@, k2, now),
    {
        let ghost s0 = self@;
        if let Some(records) = self.get_and_update_ttl(query, now) {
            return CacheResponse::Authoritative(records);
        }
        let ps = parents(&query.to_resolve);
        let ghost pv = parents_spec(query@.to_resolve);
        proof {
            assert(pv.len() == ps@.len());
            assert(pv.skip(0) =~= pv);
        }
        let mut i: usize = 0;
        while i < ps.len()
            invariant
                0 <= i <= ps@.len(),
                pv == parents_spec(query@.to_resolve),
                pv.len() == ps@.len(),
                forall|j: int| 0 <= j < ps@.len() ==> (#[trigger] ps@[j])@ == pv[j],
                self.wf(),
                self.cap() == old(self).cap(),
                s0 == old(self)@,
                lookup_result(s0, query@, now) is None,
                best_parent(s0, pv.skip(i as int), now) == best_parent(s0, pv, now),
                forall|k2: QueryV| lookup_result(self@, k2, now) == lookup_result(s0, k2, now),
            decreases ps@.len() - i,
        {
            let q = Query { to_resolve: ps[i].clone(), record_type: RecordType::Ns };
            proof {
                assert(q@ == (QueryV { to_resolve: pv[i as int], record_type: RecordType::Ns }));
                assert(pv.skip(i as int)[0] == pv[i as int]);
            }
            if let Some(records) = self.get_and_update_ttl(&q, now) {
                let ghost s_mid = self@;
                proof {
                    assert(lookup_result(s0, q@, now) == Some(views(records@)));
                }
                let glue = self.fetch_glue(&records, now);
                proof {
                    lemma_fetch_glue_state(s0, s_mid, views(records@), now);
                    assert(views(glue@) =~= fetch_glue_spec(s0, views(records@), now));
                    assert(best_parent(s0, pv.skip(i as int), now) == CacheResponseV::Referral(
                        views(records@),
                        fetch_glue_spec(s0, views(records@), now),
                    ));
                    assert forall|k2: QueryV|
                        lookup_result(self@, k2, now) == lookup_result(s0, k2, now) by {
                        assert(lookup_result(self@, k2, now) == lookup_result(s_mid, k2, now));
                        assert(lookup_result(s_mid, k2, now) == lookup_result(s0, k2, now));
                    }
                }
                let r = CacheResponse::Referral(records, glue);
                proof {
                    assert(r@ =~= best_spec(s0, query@, now));
                }
                return r;
            }
            proof {
                assert(pv.skip(i as int).drop_first() =~= pv.skip(i + 1));
            }
            i += 1;
        }
        proof {
            assert(pv.skip(i as int).len() == 0);
        }
        CacheResponse::Nothing
    }
}

/// Storing one more group continues the fold.
pub proof fn lemma_store_groups_snoc(
    s: Seq<(QueryV, EntryV)>,
    cap: nat,
    gs: Seq<(QueryV, Seq<RecordV>)>,
    i: int,
    now: u64,
)
    requires
        0 <= i < gs.len(),
    ensures
        store_groups(s, cap, gs.take(i + 1), now) == store_model(
            store_groups(s, cap, gs.take(i), now),
            cap,
            gs[i].0,
            gs[i].1,
            now,
        ),
    decreases i,
{
    if i == 0 {
        assert(gs.take(1) =~= seq![gs[0]]);
        assert(gs.take(1)[0] == gs[0]);
        assert(gs.take(1).drop_first() =~= Seq::<(QueryV, Seq<RecordV>)>::empty());
        assert(gs.take(0) =~= Seq::<(QueryV, Seq<RecordV>)>::empty());
        assert(store_groups(s, cap, gs.take(0), now) == s);
        assert(store_groups(store_model(s, cap, gs[0].0, gs[0].1, now), cap, gs.take(1).drop_first(), now)
            == store_model(s, cap, gs[0].0, gs[0].1, now));
    } else {
        let s1 = store_model(s, cap, gs[0].0, gs[0].1, now);
        lemma_store_groups_snoc(s1, cap, gs.drop_first(), i - 1, now);
        assert(gs.take(i + 1)[0] == gs[0]);
        assert(gs.take(i + 1).drop_first() =~= gs.drop_first().take(i));
        assert(gs.take(i)[0] == gs[0]);
        assert(gs.take(i).drop_first() =~= gs.drop_first().take(i - 1));
        assert(gs.drop_first()[i - 1] == gs[i]);
    }
}

/// Stores each group of a binned record list in order.
fn store_groups_exec(cache: &mut Cache, groups: &Vec<(Query, Vec<Record>)>, now: u64)
    requires
        old(cache).wf(),
        now <= u64::MAX - (u32::MAX as u64),
    ensures
        final(cache)@ =~= store_groups(old(cache)@, old(cache).cap(), groups_view(groups@), now),
        final(cache).cap() == old(cache).cap(),
        final(cache).wf(),
{
    let ghost s0 = cache@;
    let ghost cap = cache.cap();
    let ghost gv = groups_view(groups@);
    let mut i: usize = 0;
    proof {
        assert(gv.take(0) =~= Seq::<(QueryV, Seq<RecordV>)>::empty());
    }
    while i < groups.len()
        invariant
            0 <= i <= groups@.len(),
            gv == groups_view(groups@),
            now <= u64::MAX - (u32::MAX as u64),
            cache@ =~= store_groups(s0, cap, gv.take(i as int), now),
            cache.cap() == cap,
            cache.wf(),
        decreases groups@.len() - i,
    {
        let pair = &groups[i];
        let q = pair.0.clone();
        let rs = crate::records::clone_records(&pair.1);
        proof {
            assert(gv[i as int] == (groups@[i as int].0@, views(groups@[i as int].1@)));
            assert(q@ == gv[i as int].0);
            assert(views(rs@) =~= gv[i as int].1);
        }
        cache.store(q, rs, now);
        proof {
            lemma_store_groups_snoc(s0, cap, gv, i as int, now);
        }
        i += 1;
    }
    proof {
        assert(gv.take(groups@.len() as int) =~= gv);
    }
}

impl Cache {
    /// Validates a referral against the poisoning-resistance rule and, if
    /// it passes, bins the name-server records and the glue records by
    /// (name, type) and stores one cache entry per bin.  An ineligible
    /// referral leaves the cache untouched.
    pub fn store_referral(
        &mut self,
        name_servers: Vec<Record>,
        glue: Vec<Record>,
        to_resolve: &Name,
        now: u64,
    )
        requires
            old(self).wf(),
            now <= u64::MAX - (u32::MAX as u64),
        ensures
            final(self)@ =~= referral_model(
                old(self)@,
                old(self).cap(),
                views(name_servers@),
                views(glue@),
                to_resolve@,
                now,
            ),
            final(self).cap() == old(self).cap(),
            final(self).wf(),
    {
        if !eligible(&name_servers, &glue, to_resolve) {
            return ;
        }
        let ns_groups = make_referral_query(&name_servers);
        store_groups_exec(self, &ns_groups, now);
        let glue_groups = make_referral_query(&glue);
        store_groups_exec(self, &glue_groups, now);
    }
}

/// The strict ancestors of a name, nearest first, the root excluded.
pub fn parents(name: &Name) -> (r: Vec<Name>)
    ensures
        r@.len() == (if name@.len() == 0 {
            0int
        } else {
            name@.len() - 1
        }),
        forall|i: int| 0 <= i < r@.len() ==> (#[trigger] r@[i])@ =~= name@.skip(i + 1),
        name.wf() ==> forall|i: int| 0 <= i < r@.len() ==> (#[trigger] r@[i]).wf(),
{
    let mut result: Vec<Name> = Vec::new();
    let mut cur = name.base_name();
    while cur.num_labels() > 0
        invariant
            name@.len() == 0 ==> result@.len() == 0 && cur@ =~= name@,
            name@.len() > 0 ==> result@.len() + 1 <= name@.len() && cur@ =~= name@.skip(result@.len() as int + 1),
            forall|i: int| 0 <= i < result@.len() ==> (#[trigger] result@[i])@ =~= name@.skip(
                i + 1,
            ),
            name.wf() ==> cur.wf(),
            name.wf() ==> forall|i: int| 0 <= i < result@.len() ==> (#[trigger] result@[i]).wf(),
        decreases cur@.len(),
    {
        let next = cur.base_name();
        proof {
            assert(cur@.skip(1) =~= name@.skip(result@.len() as int + 2));
        }
        result.push(cur);
        cur = next;
    }
    proof {
        if name@.len() > 0 {
            assert(name@.skip(result@.len() as int + 1).len() == 0);
        }
    }
    result
}

/// Filtering steps off the first element.
pub proof fn lemma_filter_first<A>(s: Seq<A>, pred: spec_fn(A) -> bool)
    requires
        s.len() > 0,
    ensures
        pred(s[0]) ==> s.filter(pred) =~= seq![s[0]] + s.drop_first().filter(pred),
        !pred(s[0]) ==> s.filter(pred) =~= s.drop_first().filter(pred),
    decreases s.len(),
{
    reveal(Seq::filter);
    if s.len() == 1 {
        assert(s.drop_last().filter(pred) =~= Seq::<A>::empty());
        assert(s.drop_first() =~= Seq::<A>::empty());
        assert(s.last() == s[0]);
    } else {
        lemma_filter_first(s.drop_last(), pred);
        assert(s.drop_last()[0] == s[0]);
        assert(s.drop_last().drop_first() =~= s.drop_first().drop_last());
        assert(s.drop_first().last() == s.last());
        assert(s.drop_first().len() > 0);
        if pred(s[0]) {
            if pred(s.last()) {
                assert(s.filter(pred) =~= s.drop_last().filter(pred).push(s.last()));
                assert(s.drop_last().filter(pred) =~= seq![s[0]] + s.drop_first().drop_last().filter(
                    pred,
                ));
                assert(s.drop_first().filter(pred) =~= s.drop_first().drop_last().filter(
                    pred,
                ).push(s.last()));
                assert(s.filter(pred) =~= seq![s[0]] + s.drop_first().filter(pred));
            } else {
                assert(s.filter(pred) =~= s.drop_last().filter(pred));
                assert(s.drop_first().filter(pred) =~= s.drop_first().drop_last().filter(pred));
                assert(s.filter(pred) =~= seq![s[0]] + s.drop_first().filter(pred));
            }
        } else {
            if pred(s.last()) {
                assert(s.filter(pred) =~= s.drop_last().filter(pred).push(s.last()));
                assert(s.drop_first().filter(pred) =~= s.drop_first().drop_last().filter(
                    pred,
                ).push(s.last()));
                assert(s.filter(pred) =~= s.drop_first().filter(pred));
            } else {
                assert(s.filter(pred) =~= s.drop_last().filter(pred));
                assert(s.filter(pred) =~= s.drop_first().filter(pred));
            }
        }
    }
}

/// Two predicates that agree on a list filter it alike.
pub proof fn lemma_filter_agree<A>(s: Seq<A>, p1: spec_fn(A) -> bool, p2: spec_fn(A) -> bool)
    requires
        forall|i: int| 0 <= i < s.len() ==> p1(#[trigger] s[i]) == p2(s[i]),
    ensures
        s.filter(p1) =~= s.filter(p2),
    decreases s.len(),
{
    reveal(Seq::filter);
    if s.len() > 0 {
        lemma_filter_agree(s.drop_last(), p1, p2);
        assert(p1(s.last()) == p2(s.last()));
    }
}

/// A list every element of which passes the filter is unchanged by it.
pub proof fn lemma_filter_all<A>(s: Seq<A>, pred: spec_fn(A) -> bool)
    requires
        forall|i: int| 0 <= i < s.len() ==> pred(#[trigger] s[i]),
    ensures
        s.filter(pred) =~= s,
    decreases s.len(),
{
    reveal(Seq::filter);
    if s.len() > 0 {
        lemma_filter_all(s.drop_last(), pred);
    }
}

/// A list no element of which passes the filter is emptied by it.
pub proof fn lemma_filter_none<A>(s: Seq<A>, pred: spec_fn(A) -> bool)
    requires
        forall|i: int| 0 <= i < s.len() ==> !pred(#[trigger] s[i]),
    ensures
        s.filter(pred) =~= Seq::<A>::empty(),
    decreases s.len(),
{
    reveal(Seq::filter);
    if s.len() > 0 {
        lemma_filter_none(s.drop_last(), pred);
    }
}

/// The keys of a grouped record list, in group order.
pub open spec fn group_keys(gs: Seq<(QueryV, Seq<RecordV>)>) -> Seq<QueryV> {
    Seq::new(gs.len(), |i: int| gs[i].0)
}

/// The groups that a store actually writes: those whose minimum ttl is
/// positive.
pub open spec fn effective_groups(gs: Seq<(QueryV, Seq<RecordV>)>) -> Seq<(QueryV, Seq<RecordV>)> {
    gs.filter(|g: (QueryV, Seq<RecordV>)| min_ttl_spec(g.1) > 0)
}

/// Skipped groups write nothing: a fold over the groups equals the fold
/// over the effective ones.
pub proof fn lemma_store_groups_effective(
    s: Seq<(QueryV, EntryV)>,
    cap: nat,
    gs: Seq<(QueryV, Seq<RecordV>)>,
    now: u64,
)
    ensures
        store_groups(s, cap, gs, now) == store_groups(s, cap, effective_groups(gs), now),
    decreases gs.len(),
{
    if gs.len() > 0 {
        lemma_filter_first(gs, |g: (QueryV, Seq<RecordV>)| min_ttl_spec(g.1) > 0);
        let s1 = store_model(s, cap, gs[0].0, gs[0].1, now);
        lemma_store_groups_effective(s1, cap, gs.drop_first(), now);
        lemma_store_groups_effective(s, cap, gs.drop_first(), now);
        if min_ttl_spec(gs[0].1) > 0 {
            let e = effective_groups(gs);
            assert(e =~= seq![gs[0]] + effective_groups(gs.drop_first()));
            assert(e.len() > 0);
            assert(e[0] == gs[0]);
            assert(e.drop_first() =~= effective_groups(gs.drop_first()));
        } else {
            assert(s1 == s);
        }
    }
}

/// Folding one group list and then another is folding their
/// concatenation.
pub proof fn lemma_store_groups_concat(
    s: Seq<(QueryV, EntryV)>,
    cap: nat,
    a: Seq<(QueryV, Seq<RecordV>)>,
    b: Seq<(QueryV, Seq<RecordV>)>,
    now: u64,
)
    ensures
        store_groups(store_groups(s, cap, a, now), cap, b, now) == store_groups(s, cap, a + b, now),
    decreases a.len(),
{
    if a.len() == 0 {
        assert(a + b =~= b);
    } else {
        let s1 = store_model(s, cap, a[0].0, a[0].1, now);
        lemma_store_groups_concat(s1, cap, a.drop_first(), b, now);
        assert((a + b)[0] == a[0]);
        assert((a + b).len() > 0);
        assert((a + b).drop_first() =~= a.drop_first() + b);
    }
}

/// The number of the keys that the store does not hold yet.
pub open spec fn count_new(s: Seq<(QueryV, EntryV)>, ks: Seq<QueryV>) -> int
    decreases ks.len(),
{
    if ks.len() == 0 {
        0int
    } else {
        count_new(s, ks.drop_first()) + if model_contains(s, ks[0]) {
            0int
        } else {
            1int
        }
    }
}

/// The count of new keys is not negative and at most the number of keys.
pub proof fn lemma_count_new_bounds(s: Seq<(QueryV, EntryV)>, ks: Seq<QueryV>)
    ensures
        0 <= count_new(s, ks) <= ks.len(),
    decreases ks.len(),
{
    if ks.len() > 0 {
        lemma_count_new_bounds(s, ks.drop_first());
    }
}

/// An insert under one key leaves the presence and value of every other
/// key alone, as long as nothing is evicted.
pub proof fn lemma_put_contains_other(
    s: Seq<(QueryV, EntryV)>,
    cap: nat,
    k: QueryV,
    v: EntryV,
    k2: QueryV,
)
    requires
        distinct_keys(s),
        s.len() <= cap,
        cap >= 1,
        k2 != k,
        model_contains(s, k) || s.len() < cap,
    ensures
        model_contains(model_put(s, cap, k, v), k2) == model_contains(s, k2),
    decreases 0int,
{
    lemma_find_key(s, k);
    lemma_remove_key_distinct(s, k);
    let base = remove_key(s, k);
    let p = model_put(s, cap, k, v);
    assert(p =~= seq![(k, v)] + base) by {
        if model_contains(s, k) {
            assert(base.len() == s.len() - 1);
        }
    }
    lemma_remove_key_other(s, k, k2);
    lemma_find_key(base, k2);
    lemma_find_key(p, k2);
    if model_contains(base, k2) {
        let f = find_key(base, k2);
        assert(p[f + 1] == base[f]);
        lemma_find_key_witness(p, k2, f + 1);
    } else {
        if model_contains(p, k2) {
            let f = find_key(p, k2);
            assert(f != 0);
            assert(p[f] == base[f - 1]);
            lemma_find_key_witness(base, k2, f - 1);
        }
    }
}

/// Counting new keys is stable under an insert of another key.
pub proof fn lemma_count_new_put(
    s: Seq<(QueryV, EntryV)>,
    cap: nat,
    k: QueryV,
    v: EntryV,
    ks: Seq<QueryV>,
)
    requires
        distinct_keys(s),
        s.len() <= cap,
        cap >= 1,
        model_contains(s, k) || s.len() < cap,
        forall|i: int| 0 <= i < ks.len() ==> (#[trigger] ks[i]) != k,
    ensures
        count_new(model_put(s, cap, k, v), ks) == count_new(s, ks),
    decreases ks.len(),
{
    if ks.len() > 0 {
        lemma_count_new_put(s, cap, k, v, ks.drop_first());
        lemma_put_contains_other(s, cap, k, v, ks[0]);
    }
}

/// The entries that one pass over an all-effective group list leaves at
/// the front: one per group, most recent first.
pub open spec fn referral_entries(gs: Seq<(QueryV, Seq<RecordV>)>, now: u64) -> Seq<
    (QueryV, EntryV),
> {
    Seq::new(
        gs.len(),
        |i: int|
            (
                gs[gs.len() - 1 - i].0,
                EntryV {
                    records: gs[gs.len() - 1 - i].1,
                    valid_before: (now + min_ttl_spec(gs[gs.len() - 1 - i].1)) as u64,
                },
            ),
    )
}

/// One pass over an all-effective, distinct-keyed group list that fits
/// in the remaining capacity leaves the groups' entries at the front,
/// most recent first, and everything else in place behind them.
pub proof fn lemma_fold_formula(
    s: Seq<(QueryV, EntryV)>,
    cap: nat,
    gs: Seq<(QueryV, Seq<RecordV>)>,
    now: u64,
)
    requires
        distinct_keys(s),
        s.len() <= cap,
        cap >= 1,
        pairwise_distinct(group_keys(gs)),
        forall|i: int| 0 <= i < gs.len() ==> min_ttl_spec((#[trigger] gs[i]).1) > 0,
        s.len() + count_new(s, group_keys(gs)) <= cap,
    ensures
        store_groups(s, cap, gs, now) =~= referral_entries(gs, now) + s.filter(
            |p: (QueryV, EntryV)| !group_keys(gs).contains(p.0),
        ),
    decreases gs.len(),
{
    let ks = group_keys(gs);
    if gs.len() == 0 {
        lemma_filter_all(s, |p: (QueryV, EntryV)| !group_keys(gs).contains(p.0));
        assert(referral_entries(gs, now) =~= Seq::<(QueryV, EntryV)>::empty());
        assert(store_groups(s, cap, gs, now) == s);
    } else {
        let g = gs[0];
        let e = EntryV { records: g.1, valid_before: (now + min_ttl_spec(g.1)) as u64 };
        let s1 = store_model(s, cap, g.0, g.1, now);
        lemma_find_key(s, g.0);
        lemma_remove_key_distinct(s, g.0);
        let base = remove_key(s, g.0);
        assert(s1 =~= seq![(g.0, e)] + base) by {
            if model_contains(s, g.0) {
                assert(base.len() == s.len() - 1);
            } else {
                assert(count_new(s, ks) >= 1) by {
                    lemma_count_new_bounds(s, ks.drop_first());
                }
            }
        }
        lemma_put_wf(s, cap, g.0, e);
        let ks1 = group_keys(gs.drop_first());
        assert(ks1 =~= ks.drop_first());
        assert forall|i: int| 0 <= i < ks1.len() implies (#[trigger] ks1[i]) != g.0 by {
            assert(ks1[i] == ks[i + 1]);
        }
        // the tail keys keep their count of new keys through the insert
        lemma_count_new_put(s, cap, g.0, e, ks1);
        assert(count_new(s, ks) == count_new(s, ks1) + if model_contains(s, g.0) {
            0int
        } else {
            1int
        });
        assert(s1.len() + count_new(s1, ks1) <= cap);
        lemma_fold_formula(s1, cap, gs.drop_first(), now);
        // rewrite the filtered remainder
        let p_tail = |p: (QueryV, EntryV)| !group_keys(gs.drop_first()).contains(p.0);
        let p_all = |p: (QueryV, EntryV)| !group_keys(gs).contains(p.0);
        lemma_filter_first(s1, p_tail);
        assert(p_tail((g.0, e))) by {
            if group_keys(gs.drop_first()).contains(g.0) {
                let w = choose|w: int| 0 <= w < ks1.len() && ks1[w] == g.0;
            }
        }
        assert(s1.drop_first() =~= base);
        assert(s1.filter(p_tail) =~= seq![(g.0, e)] + base.filter(p_tail));
        // base filtered by the tail keys equals s filtered by all keys
        assert(base.filter(p_tail) =~= s.filter(p_all)) by {
            lemma_filter_base_eq(s, g.0, ks, ks1);
        }
        assert(store_groups(s, cap, gs, now) == store_groups(s1, cap, gs.drop_first(), now));
        assert(store_groups(s1, cap, gs.drop_first(), now) =~= referral_entries(
            gs.drop_first(),
            now,
        ) + s1.filter(p_tail));
        assert(referral_entries(gs, now) =~= referral_entries(gs.drop_first(), now) + seq![
            (g.0, e),
        ]) by {
            assert forall|i: int|
                0 <= i < gs.len() - 1 implies referral_entries(gs, now)[i] == referral_entries(
                gs.drop_first(),
                now,
            )[i] by {
                assert(gs.drop_first()[gs.len() - 2 - i] == gs[gs.len() - 1 - i]);
            }
        }
        assert(store_groups(s, cap, gs, now) =~= (referral_entries(gs.drop_first(), now) + seq![
            (g.0, e),
        ]) + s.filter(p_all));
    }
}

/// Filtering away one removed key's entry and then the remaining keys is
/// filtering away all the keys at once.
pub proof fn lemma_filter_base_eq(
    s: Seq<(QueryV, EntryV)>,
    k: QueryV,
    ks: Seq<QueryV>,
    ks1: Seq<QueryV>,
)
    requires
        distinct_keys(s),
        ks.len() > 0,
        ks[0] == k,
        ks1 =~= ks.drop_first(),
    ensures
        remove_key(s, k).filter(|p: (QueryV, EntryV)| !ks1.contains(p.0)) =~= s.filter(
            |p: (QueryV, EntryV)| !ks.contains(p.0),
        ),
    decreases s.len(),
{
    let p_tail = |p: (QueryV, EntryV)| !ks1.contains(p.0);
    let p_all = |p: (QueryV, EntryV)| !ks.contains(p.0);
    lemma_find_key(s, k);
    lemma_remove_key_distinct(s, k);
    if !model_contains(s, k) {
        assert forall|i: int| 0 <= i < s.len() implies p_tail(#[trigger] s[i]) == p_all(s[i]) by {
            assert(s[i].0 != k);
            if ks.contains(s[i].0) {
                let w = choose|w: int| 0 <= w < ks.len() && ks[w] == s[i].0;
                assert(ks1[w - 1] == ks[w]);
            }
            if ks1.contains(s[i].0) {
                let w = choose|w: int| 0 <= w < ks1.len() && ks1[w] == s[i].0;
                assert(ks[w + 1] == ks1[w]);
            }
        }
        lemma_filter_agree(s, p_tail, p_all);
    } else {
        let f = find_key(s, k);
        let base = s.remove(f);
        assert(s =~= s.take(f) + seq![s[f]] + s.skip(f + 1));
        assert(base =~= s.take(f) + s.skip(f + 1));
        assert((s.take(f) + seq![s[f]] + s.skip(f + 1)).filter(p_all) =~= s.take(f).filter(p_all)
            + seq![s[f]].filter(p_all) + s.skip(f + 1).filter(p_all)) by {
            Seq::filter_distributes_over_add(s.take(f) + seq![s[f]], s.skip(f + 1), p_all);
            Seq::filter_distributes_over_add(s.take(f), seq![s[f]], p_all);
        }
        assert((s.take(f) + s.skip(f + 1)).filter(p_tail) =~= s.take(f).filter(p_tail) + s.skip(
            f + 1,
        ).filter(p_tail)) by {
            Seq::filter_distributes_over_add(s.take(f), s.skip(f + 1), p_tail);
        }
        assert(seq![s[f]].filter(p_all) =~= Seq::<(QueryV, EntryV)>::empty()) by {
            lemma_filter_none(seq![s[f]], p_all);
            assert(ks.contains(s[f].0)) by {
                assert(ks[0] == s[f].0);
            }
        }
        assert(s.take(f).filter(p_tail) =~= s.take(f).filter(p_all)) by {
            lemma_filter_pred_eq_off_key(s.take(f), k, ks, ks1);
            assert(forall|i: int| 0 <= i < s.take(f).len() ==> (#[trigger] s.take(f)[i]).0 != k);
        }
        assert(s.skip(f + 1).filter(p_tail) =~= s.skip(f + 1).filter(p_all)) by {
            lemma_filter_pred_eq_off_key(s.skip(f + 1), k, ks, ks1);
            assert(forall|i: int|
                0 <= i < s.skip(f + 1).len() ==> (#[trigger] s.skip(f + 1)[i]) == s[f + 1 + i]);
            assert(forall|i: int| 0 <= i < s.skip(f + 1).len() ==> (#[trigger] s.skip(f + 1)[i]).0
                != k);
        }
    }
}

/// On entries whose key is not the removed one, filtering by the tail
/// keys and by all keys agree.
pub proof fn lemma_filter_pred_eq_off_key(
    s: Seq<(QueryV, EntryV)>,
    k: QueryV,
    ks: Seq<QueryV>,
    ks1: Seq<QueryV>,
)
    requires
        ks.len() > 0,
        ks[0] == k,
        ks1 =~= ks.drop_first(),
        forall|i: int| 0 <= i < s.len() ==> (#[trigger] s[i]).0 != k,
    ensures
        s.filter(|p: (QueryV, EntryV)| !ks1.contains(p.0)) =~= s.filter(
            |p: (QueryV, EntryV)| !ks.contains(p.0),
        ),
{
    let p_tail = |p: (QueryV, EntryV)| !ks1.contains(p.0);
    let p_all = |p: (QueryV, EntryV)| !ks.contains(p.0);
    assert forall|i: int| 0 <= i < s.len() implies p_tail(#[trigger] s[i]) == p_all(s[i]) by {
        if ks.contains(s[i].0) {
            let w = choose|w: int| 0 <= w < ks.len() && ks[w] == s[i].0;
            assert(ks1[w - 1] == ks[w]);
        }
        if ks1.contains(s[i].0) {
            let w = choose|w: int| 0 <= w < ks1.len() && ks1[w] == s[i].0;
            assert(ks[w + 1] == ks1[w]);
        }
    }
    lemma_filter_agree(s, p_tail, p_all);
}

/// A referral that fails the poisoning-resistance rule — an NS owner
/// out of zone, or a glue owner that no NS record targets — leaves the
/// cache exactly as it was.
pub proof fn lemma_ineligible_referral_unchanged(
    s: Seq<(QueryV, EntryV)>,
    cap: nat,
    ns: Seq<RecordV>,
    glue: Seq<RecordV>,
    to: Seq<Seq<u8>>,
    now: u64,
)
    requires
        !eligible_spec(ns, glue, to),
    ensures
        referral_model(s, cap, ns, glue, to, now) == s,
{
}

/// A fold of stores keeps keys unique and respects the capacity.
pub proof fn lemma_store_groups_wf(
    s: Seq<(QueryV, EntryV)>,
    cap: nat,
    gs: Seq<(QueryV, Seq<RecordV>)>,
    now: u64,
)
    requires
        distinct_keys(s),
        s.len() <= cap,
        cap >= 1,
    ensures
        distinct_keys(store_groups(s, cap, gs, now)),
        store_groups(s, cap, gs, now).len() <= cap,
    decreases gs.len(),
{
    if gs.len() > 0 {
        if min_ttl_spec(gs[0].1) > 0 {
            lemma_put_wf(
                s,
                cap,
                gs[0].0,
                EntryV { records: gs[0].1, valid_before: (now + min_ttl_spec(gs[0].1)) as u64 },
            );
        }
        lemma_store_groups_wf(store_model(s, cap, gs[0].0, gs[0].1, now), cap, gs.drop_first(), now);
    }
}

/// A store holding all the keys has no new ones to count.
pub proof fn lemma_count_new_zero(s: Seq<(QueryV, EntryV)>, ks: Seq<QueryV>)
    requires
        forall|i: int| 0 <= i < ks.len() ==> model_contains(s, #[trigger] ks[i]),
    ensures
        count_new(s, ks) == 0,
    decreases ks.len(),
{
    if ks.len() > 0 {
        assert(model_contains(s, ks[0]));
        assert forall|i: int| 0 <= i < ks.drop_first().len() implies model_contains(
            s,
            #[trigger] ks.drop_first()[i],
        ) by {
            assert(ks.drop_first()[i] == ks[i + 1]);
        }
        lemma_count_new_zero(s, ks.drop_first());
    }
}

/// Storing the same referral twice changes the cache exactly as storing
/// it once, when the referral's bins carry pairwise distinct keys and
/// fit in the cache's spare capacity.
pub proof fn lemma_store_referral_idempotent(
    s: Seq<(QueryV, EntryV)>,
    cap: nat,
    ns: Seq<RecordV>,
    glue: Seq<RecordV>,
    to: Seq<Seq<u8>>,
    now: u64,
)
    requires
        distinct_keys(s),
        s.len() <= cap,
        cap >= 1,
        pairwise_distinct(group_keys(effective_groups(groups_spec(ns) + groups_spec(glue)))),
        s.len() + groups_spec(ns).len() + groups_spec(glue).len() <= cap,
    ensures
        referral_model(referral_model(s, cap, ns, glue, to, now), cap, ns, glue, to, now)
            == referral_model(s, cap, ns, glue, to, now),
{
    broadcast use vstd::seq_lib::group_filter_ensures;

    if eligible_spec(ns, glue, to) {
        let a = groups_spec(ns);
        let b = groups_spec(glue);
        let g = effective_groups(a + b);
        let kg = group_keys(g);
        let pred = |p: (QueryV, EntryV)| !group_keys(g).contains(p.0);
        let r1 = referral_model(s, cap, ns, glue, to, now);
        lemma_store_groups_concat(s, cap, a, b, now);
        lemma_store_groups_effective(s, cap, a + b, now);
        assert(r1 == store_groups(s, cap, g, now));
        assert forall|i: int| 0 <= i < g.len() implies min_ttl_spec((#[trigger] g[i]).1) > 0 by {
        }
        lemma_count_new_bounds(s, kg);
        assert(kg.len() == g.len());
        assert(g.len() <= (a + b).len());
        lemma_fold_formula(s, cap, g, now);
        let rr = referral_entries(g, now);
        let f = s.filter(pred);
        assert(r1 =~= rr + f);
        lemma_store_groups_wf(s, cap, g, now);
        let r2 = referral_model(r1, cap, ns, glue, to, now);
        lemma_store_groups_concat(r1, cap, a, b, now);
        lemma_store_groups_effective(r1, cap, a + b, now);
        assert(r2 == store_groups(r1, cap, g, now));
        assert forall|i: int| 0 <= i < kg.len() implies model_contains(r1, #[trigger] kg[i]) by {
            let j = g.len() - 1 - i;
            assert(rr[j] == (
                g[g.len() - 1 - j].0,
                EntryV {
                    records: g[g.len() - 1 - j].1,
                    valid_before: (now + min_ttl_spec(g[g.len() - 1 - j].1)) as u64,
                },
            ));
            assert(r1[j].0 == kg[i]);
            lemma_find_key_witness(r1, kg[i], j);
        }
        lemma_count_new_zero(r1, kg);
        lemma_fold_formula(r1, cap, g, now);
        assert(r2 =~= rr + r1.filter(pred));
        assert(r1.filter(pred) =~= rr.filter(pred) + f.filter(pred)) by {
            Seq::filter_distributes_over_add(rr, f, pred);
        }
        assert(rr.filter(pred) =~= Seq::<(QueryV, EntryV)>::empty()) by {
            assert forall|i: int| 0 <= i < rr.len() implies !pred(#[trigger] rr[i]) by {
                assert(rr[i].0 == g[g.len() - 1 - i].0);
                assert(kg[g.len() - 1 - i] == g[g.len() - 1 - i].0);
                assert(kg.contains(rr[i].0));
            }
            lemma_filter_none(rr, pred);
        }
        assert(f.filter(pred) =~= f) by {
            assert(forall|i: int| 0 <= i < f.len() ==> pred(#[trigger] f[i]));
            lemma_filter_all(f, pred);
        }
        assert(r2 =~= r1);
    }
}

/// Removing the key of a promoted store undoes the promotion.
pub proof fn lemma_remove_promote(s: Seq<(QueryV, EntryV)>, k: QueryV)
    requires
        distinct_keys(s),
        model_contains(s, k),
    ensures
        remove_key(model_promote(s, k), k) =~= remove_key(s, k),
{
    lemma_promote_wf(s, k);
    let p = model_promote(s, k);
    lemma_value_at(p, k, 0);
    assert(find_key(p, k) == 0);
    assert forall|i: int| 0 <= i < p.remove(0).len() implies p.remove(0)[i] == remove_key(s, k)[i] by {
        assert(p.remove(0)[i] == p[i + 1]);
    }
}

/// `model_put` keeps keys unique and respects the capacity.
pub proof fn lemma_put_wf(s: Seq<(QueryV, EntryV)>, cap: nat, k: QueryV, v: EntryV)
    requires
        distinct_keys(s),
        s.len() <= cap,
        cap >= 1,
    ensures
        distinct_keys(model_put(s, cap, k, v)),
        model_put(s, cap, k, v).len() <= cap,
        model_put(s, cap, k, v)[0] == (k, v),
{
    lemma_remove_key_distinct(s, k);
    let base = remove_key(s, k);
    let fronted = seq![(k, v)] + base;
    assert forall|i: int, j: int| 0 <= i < j < fronted.len() implies (#[trigger] fronted[i]).0 != (
    #[trigger] fronted[j]).0 by {
        if i == 0 {
            assert(fronted[j] == base[j - 1]);
        } else {
            assert(fronted[i] == base[i - 1]);
            assert(fronted[j] == base[j - 1]);
        }
    }
    if fronted.len() > cap {
        assert forall|i: int, j: int|
            0 <= i < j < fronted.take(cap as int).len() implies (#[trigger] fronted.take(
            cap as int,
        )[i]).0 != (#[trigger] fronted.take(cap as int)[j]).0 by {
            assert(fronted.take(cap as int)[i] == fronted[i]);
            assert(fronted.take(cap as int)[j] == fronted[j]);
        }
    }
}

/// Removing a key keeps the others' uniqueness, keeps every other key's
/// entry, and drops the removed key.
pub proof fn lemma_remove_key_distinct(s: Seq<(QueryV, EntryV)>, k: QueryV)
    requires
        distinct_keys(s),
    ensures
        distinct_keys(remove_key(s, k)),
        remove_key(s, k).len() <= s.len(),
        !model_contains(remove_key(s, k), k),
        forall|i: int|
            0 <= i < remove_key(s, k).len() ==> (#[trigger] remove_key(s, k)[i]).0 != k
                && s.contains(remove_key(s, k)[i]),
{
    lemma_find_key(s, k);
    if model_contains(s, k) {
        let f = find_key(s, k);
        let rest = s.remove(f);
        assert forall|i: int| 0 <= i < rest.len() implies (#[trigger] rest[i]).0 != k
            && s.contains(rest[i]) by {
            if i < f {
                assert(rest[i] == s[i]);
            } else {
                assert(rest[i] == s[i + 1]);
            }
        }
        assert forall|i: int, j: int| 0 <= i < j < rest.len() implies (#[trigger] rest[i]).0 != (
        #[trigger] rest[j]).0 by {
            if j < f {
            } else if i < f {
                assert(rest[j] == s[j + 1]);
            } else {
                assert(rest[i] == s[i + 1]);
                assert(rest[j] == s[j + 1]);
            }
        }
        lemma_find_key(rest, k);
    } else {
        assert forall|i: int| 0 <= i < s.len() implies (#[trigger] s[i]).0 != k && s.contains(
            s[i],
        ) by {
        }
    }
}

} // verus!
