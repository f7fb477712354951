//! The response cache: entries by key, each with an expiry, under a bound
//! on the bytes held.

use vstd::prelude::*;
use crate::headers::raw_view;
use crate::trusted::{
    cache_get, cache_insert, cache_remove, cache_snapshot, cache_table, cache_table_new,
    CacheTable,
};

verus! {

/// A stored response.
#[derive(Clone, Debug)]
pub struct CacheEntry {
    pub status: u16,
    pub headers: Vec<(String, Vec<u8>)>,
    pub body: Vec<u8>,
    /// The time, in nanoseconds of the monotonic clock, from which the
    /// entry is stale.
    pub expires_at: u64,
    /// The bytes that the entry counts for.
    pub size: usize,
}

/// What a stored response holds.
pub struct EntryView {
    pub status: u16,
    pub headers: Seq<(Seq<char>, Seq<u8>)>,
    pub body: Seq<u8>,
    pub expires_at: u64,
    pub size: usize,
}

impl EntryView {
    /// The validity of an entry: it counts for the length of its body.
    pub open spec fn wf(self) -> bool {
        self.size == self.body.len()
    }
}

impl View for CacheEntry {
    type V = EntryView;

    open spec fn view(&self) -> EntryView {
        EntryView {
            status: self.status,
            headers: raw_view(self.headers@),
            body: self.body@,
            expires_at: self.expires_at,
            size: self.size,
        }
    }
}

/// The bytes that the entries of `m` count for, all together.
pub open spec fn total_size(m: Map<Seq<char>, EntryView>) -> nat
    decreases m.dom().len(),
    when m.dom().finite()
{
    if m.dom().len() == 0 {
        0
    } else {
        let k = m.dom().choose();
        m[k].size as nat + total_size(m.remove(k))
    }
}

/// Taking one entry out lowers the total by that entry's size.
pub proof fn lemma_total_size_remove(m: Map<Seq<char>, EntryView>, k: Seq<char>)
    requires
        m.dom().finite(),
        m.contains_key(k),
    ensures
        total_size(m) == m[k].size + total_size(m.remove(k)),
    decreases m.dom().len(),
{
    let c = m.dom().choose();
    if c != k {
        lemma_total_size_remove(m.remove(c), k);
        lemma_total_size_remove(m.remove(k), c);
        assert(m.remove(c).remove(k) =~= m.remove(k).remove(c));
    }
}

/// Storing an entry under a key makes the total that of the other keys
/// plus the entry's size.
pub proof fn lemma_total_size_insert(m: Map<Seq<char>, EntryView>, k: Seq<char>, e: EntryView)
    requires
        m.dom().finite(),
    ensures
        total_size(m.insert(k, e)) == e.size + total_size(m.remove(k)),
        !m.contains_key(k) ==> total_size(m.insert(k, e)) == e.size + total_size(m),
{
    lemma_total_size_remove(m.insert(k, e), k);
    assert(m.insert(k, e).remove(k) =~= m.remove(k));
    if !m.contains_key(k) {
        assert(m.remove(k) =~= m);
    }
}

/// Whether position `a` of a snapshot is evicted before position `b`: it
/// expires earlier, or at the same time and stands earlier.
pub open spec fn evicted_before(items: Seq<(String, u64, usize)>, a: int, b: int) -> bool {
    items[a].1 < items[b].1 || (items[a].1 == items[b].1 && a < b)
}

/// The bytes left of `total` when the entries at `victims` are gone.
pub open spec fn left_after(total: int, items: Seq<(String, u64, usize)>, victims: Seq<usize>) -> int
    decreases victims.len(),
{
    if victims.len() == 0 {
        total
    } else {
        let before = left_after(total, items, victims.drop_last());
        let size = items[victims.last() as int].2;
        if before >= size {
            before - size
        } else {
            0
        }
    }
}

/// How many positions are not yet taken.
spec fn free_count(taken: Seq<bool>) -> nat
    decreases taken.len(),
{
    if taken.len() == 0 {
        0
    } else {
        free_count(taken.drop_last()) + if taken.last() {
            0nat
        } else {
            1nat
        }
    }
}

proof fn lemma_free_count_take(taken: Seq<bool>, j: int)
    requires
        0 <= j < taken.len(),
        !taken[j],
    ensures
        free_count(taken.update(j, true)) + 1 == free_count(taken),
    decreases taken.len(),
{
    let after = taken.update(j, true);
    if j == taken.len() - 1 {
        assert(after.drop_last() =~= taken.drop_last());
    } else {
        lemma_free_count_take(taken.drop_last(), j);
        assert(after.drop_last() =~= taken.drop_last().update(j, true));
    }
}

/// Chooses what to evict from a snapshot of the cache so that at most
/// `cap` of `total` bytes stay: the entries that expire first, one after
/// the other, until enough is gone or nothing is left.
///
/// Each item is a key with its entry's expiry and size. The result holds
/// positions in `items`, in the order of eviction.
pub fn plan_eviction(items: &Vec<(String, u64, usize)>, total: usize, cap: usize) -> (victims: Vec<
    usize,
>)
    ensures
        forall|i: int| 0 <= i < victims@.len() ==> (#[trigger] victims@[i]) < items@.len(),
        forall|i: int, j: int|
            0 <= i < j < victims@.len() ==> evicted_before(
                items@,
                #[trigger] victims@[i] as int,
                #[trigger] victims@[j] as int,
            ),
        forall|i: int, j: int|
            0 <= i < victims@.len() && 0 <= j < items@.len() && !victims@.contains(j as usize)
                ==> #[trigger] evicted_before(items@, victims@[i] as int, j),
        forall|k: int|
            0 <= k < victims@.len() ==> left_after(total as int, items@, #[trigger] victims@.take(k))
                > cap,
        left_after(total as int, items@, victims@) <= cap || forall|j: usize|
            j < items@.len() ==> #[trigger] victims@.contains(j),
{
    let n = items.len();
    let mut victims: Vec<usize> = Vec::new();
    let mut taken: Vec<bool> = vec![false; n];
    let mut left: usize = total;
    assert(victims@.take(0) =~= victims@);
    while left > cap
        invariant
            n == items@.len(),
            taken@.len() == n,
            left == left_after(total as int, items@, victims@),
            forall|i: int| 0 <= i < victims@.len() ==> (#[trigger] victims@[i]) < n,
            forall|j: int| 0 <= j < n ==> (#[trigger] taken@[j] <==> victims@.contains(j as usize)),
            forall|i: int, j: int|
                0 <= i < j < victims@.len() ==> evicted_before(
                    items@,
                    #[trigger] victims@[i] as int,
                    #[trigger] victims@[j] as int,
                ),
            forall|i: int, j: int|
                0 <= i < victims@.len() && 0 <= j < n && !victims@.contains(j as usize)
                    ==> #[trigger] evicted_before(items@, victims@[i] as int, j),
            forall|k: int|
                0 <= k < victims@.len() ==> left_after(
                    total as int,
                    items@,
                    #[trigger] victims@.take(k),
                ) > cap,
        ensures
            left <= cap || forall|j: usize| j < items@.len() ==> #[trigger] victims@.contains(j),
        decreases free_count(taken@),
    {
        let mut best: Option<usize> = None;
        let mut j: usize = 0;
        while j < n
            invariant
                j <= n,
                n == items@.len(),
                taken@.len() == n,
                best is Some ==> best->0 < j && !taken@[best->0 as int],
                best is Some ==> forall|k: int|
                    0 <= k < j && !taken@[k] && k != best->0 ==> #[trigger] evicted_before(
                        items@,
                        best->0 as int,
                        k,
                    ),
                best is None ==> forall|k: int| 0 <= k < j ==> #[trigger] taken@[k],
            decreases n - j,
        {
            if !taken[j] {
                match best {
                    None => {
                        best = Some(j);
                    },
                    Some(b) => {
                        if items[j].1 < items[b].1 {
                            assert forall|k: int|
                                0 <= k < j + 1 && !taken@[k] && k != j implies #[trigger] evicted_before(
                                items@,
                                j as int,
                                k,
                            ) by {
                                if k != b {
                                    assert(evicted_before(items@, b as int, k));
                                }
                            }
                            best = Some(j);
                        }
                    },
                }
            }
            j += 1;
        }
        let pick = match best {
            Some(b) => b,
            None => {
                assert forall|k: usize| k < items@.len() implies #[trigger] victims@.contains(
                    k,
                ) by {
                    assert(taken@[k as int]);
                }
                break ;
            },
        };
        let ghost before = victims@;
        proof {
            lemma_free_count_take(taken@, pick as int);
        }
        taken.set(pick, true);
        victims.push(pick);
        let size = items[pick].2;
        left = if left >= size {
            left - size
        } else {
            0
        };
        proof {
            let now = victims@;
            assert(now.drop_last() =~= before);
            assert(!before.contains(pick));
            assert forall|j: int| 0 <= j < n implies (#[trigger] taken@[j] <==> now.contains(
                j as usize,
            )) by {
                if j == pick {
                    assert(now[now.len() - 1] == pick);
                } else {
                    if before.contains(j as usize) {
                        let w = choose|w: int| 0 <= w < before.len() && before[w] == j as usize;
                        assert(now[w] == j as usize);
                    }
                    if now.contains(j as usize) {
                        let w = choose|w: int| 0 <= w < now.len() && now[w] == j as usize;
                        assert(before[w] == j as usize);
                    }
                }
            }
            assert forall|a: int, b: int| 0 <= a < b < now.len() implies evicted_before(
                items@,
                #[trigger] now[a] as int,
                #[trigger] now[b] as int,
            ) by {
                if b == now.len() - 1 {
                    assert(now[a] == before[a]);
                    assert(evicted_before(items@, before[a] as int, pick as int));
                } else {
                    assert(now[a] == before[a] && now[b] == before[b]);
                }
            }
            assert forall|a: int, j: int|
                0 <= a < now.len() && 0 <= j < n && !now.contains(
                    j as usize,
                ) implies #[trigger] evicted_before(items@, now[a] as int, j) by {
                assert(!taken@[j]);
                assert(j != pick);
                if a == now.len() - 1 {
                    assert(evicted_before(items@, pick as int, j));
                } else {
                    assert(now[a] == before[a]);
                    assert(!before.contains(j as usize)) by {
                        if before.contains(j as usize) {
                            let w = choose|w: int| 0 <= w < before.len() && before[w] == j as usize;
                            assert(now[w] == j as usize);
                        }
                    }
                    assert(evicted_before(items@, before[a] as int, j));
                }
            }
            assert forall|k: int| 0 <= k < now.len() implies left_after(
                total as int,
                items@,
                #[trigger] now.take(k),
            ) > cap by {
                if k == now.len() - 1 {
                    assert(now.take(k) =~= before);
                } else {
                    assert(now.take(k) =~= before.take(k));
                }
            }
        }
    }
    victims
}

/// What a cache holds: the entries by key, the bytes they count for, and
/// the bound on those bytes, if one is set.
pub struct CacheView {
    pub entries: Map<Seq<char>, EntryView>,
    pub total: usize,
    pub cap: Option<usize>,
}

impl CacheView {
    /// What a lookup of `key` at `now` returns: the entry under the key
    /// if it is not stale yet.
    pub open spec fn found(self, key: Seq<char>, now: u64) -> Option<EntryView> {
        if self.entries.contains_key(key) && self.entries[key].expires_at > now {
            Some(self.entries[key])
        } else {
            None
        }
    }

    /// The cache after a lookup of `key` at `now`: a stale entry under
    /// the key is gone, with its bytes; nothing else changes.
    pub open spec fn after_lookup(self, key: Seq<char>, now: u64) -> CacheView {
        if self.entries.contains_key(key) && self.entries[key].expires_at <= now {
            CacheView {
                entries: self.entries.remove(key),
                total: (self.total - self.entries[key].size) as usize,
                ..self
            }
        } else {
            self
        }
    }

    /// The validity of a cache: finitely many entries, each of which
    /// counts for the length of its body, a total that is the sum of their
    /// sizes, and the total within the bound.
    pub open spec fn wf(self) -> bool {
        &&& self.entries.dom().finite()
        &&& forall|k: Seq<char>| #[trigger] self.entries.contains_key(k) ==> self.entries[k].wf()
        &&& self.total == total_size(self.entries)
        &&& self.cap is Some ==> self.total <= self.cap->0
    }
}

/// Whether `after` is what eviction may leave of the entries `before`
/// under the bound `cap`.
///
/// Nothing is added or changed. What is gone expired no later than
/// anything that stays. Nothing goes while the entries are within the
/// bound, and no more goes than needed: with the last entry that went
/// the bound would still be exceeded.
pub open spec fn evicted_from(before: Map<Seq<char>, EntryView>, after: CacheView) -> bool {
    &&& forall|k: Seq<char>| #[trigger]
        after.entries.contains_key(k) ==> before.contains_key(k) && after.entries[k] == before[k]
    &&& forall|k: Seq<char>, r: Seq<char>|
        before.contains_key(k) && !after.entries.contains_key(k) && #[trigger] after.entries.contains_key(r)
            ==> (#[trigger] before[k]).expires_at <= before[r].expires_at
    &&& match after.cap {
        None => after.entries == before,
        Some(cap) => {
            &&& total_size(before) <= cap ==> after.entries == before
            &&& after.entries != before ==> exists|k: Seq<char>|
                #[trigger] before.contains_key(k) && !after.entries.contains_key(k) && after.total
                    + before[k].size > cap
        },
    }
}

/// The keys of the first `n` victims of an eviction.
spec fn gone_keys(items: Seq<(String, u64, usize)>, victims: Seq<usize>, n: int) -> Set<Seq<char>> {
    Set::new(|k: Seq<char>| exists|t: int| 0 <= t < n && #[trigger] items[victims[t] as int].0@ == k)
}

/// Whatever a lookup returns is fresh: it expires after the time of the
/// lookup.
pub proof fn lemma_found_is_fresh(c: CacheView, key: Seq<char>, now: u64)
    ensures
        c.found(key, now) matches Some(e) ==> e.expires_at > now,
{
}

/// A valid cache with a bound holds no more bytes than the bound, and
/// what it counts for each entry is the length of that entry's body.
pub proof fn lemma_cache_within_bound(c: CacheView)
    requires
        c.wf(),
    ensures
        c.cap matches Some(cap) ==> total_size(c.entries) <= cap,
        forall|k: Seq<char>| #[trigger]
            c.entries.contains_key(k) ==> c.entries[k].size == c.entries[k].body.len(),
{
}

/// Looking a key up again while its entry is fresh returns the same
/// entry, and with it the same body: the first lookup leaves the cache as
/// it was.
pub proof fn lemma_lookup_idempotent(c: CacheView, key: Seq<char>, first: u64, second: u64)
    requires
        first <= second,
        c.found(key, second) is Some,
    ensures
        c.after_lookup(key, first) == c,
        c.found(key, first) == c.found(key, second),
        c.after_lookup(key, first).found(key, second) == c.found(key, first),
{
}

/// A lookup of one key leaves what is stored under every other key.
pub proof fn lemma_lookup_keeps_others(c: CacheView, key: Seq<char>, other: Seq<char>, now: u64)
    requires
        key != other,
    ensures
        c.after_lookup(key, now).entries.contains_key(other) == c.entries.contains_key(other),
        c.entries.contains_key(other) ==> c.after_lookup(key, now).entries[other]
            == c.entries[other],
{
}

/// A response cache.
pub struct ResponseCache {
    entries: CacheTable,
    max_size_bytes: Option<usize>,
    current_size: usize,
}

impl View for ResponseCache {
    type V = CacheView;

    closed spec fn view(&self) -> CacheView {
        CacheView {
            entries: cache_table(self.entries),
            total: self.current_size,
            cap: self.max_size_bytes,
        }
    }
}

impl ResponseCache {
    /// An empty cache that keeps at most `max_size_bytes` bytes, or any
    /// number of them with `None`.
    pub fn new(max_size_bytes: Option<usize>) -> (c: ResponseCache)
        ensures
            c@.wf(),
            c@.entries == (Map::<Seq<char>, EntryView>::empty()),
            c@.total == 0,
            c@.cap == max_size_bytes,
    {
        ResponseCache { entries: cache_table_new(), max_size_bytes, current_size: 0 }
    }

    /// The bytes that the stored entries count for.
    pub fn current_size(&self) -> (n: usize)
        ensures
            n == self@.total,
    {
        self.current_size
    }

    /// Looks `key` up at `now`. A fresh entry is returned and stays; a
    /// stale one is removed and nothing is returned.
    pub fn lookup(&mut self, key: &str, now: u64) -> (r: Option<CacheEntry>)
        requires
            old(self)@.wf(),
        ensures
            final(self)@.wf(),
            final(self)@ == old(self)@.after_lookup(key@, now),
            r is Some <==> old(self)@.found(key@, now) is Some,
            r is Some ==> r->0@ == old(self)@.found(key@, now)->0,
            r is Some ==> r->0.expires_at > now,
            r is Some ==> r->0@.wf(),
    {
        match cache_get(&self.entries, key) {
            Some(entry) => {
                if now < entry.expires_at {
                    Some(entry)
                } else {
                    proof {
                        lemma_total_size_remove(old(self)@.entries, key@);
                    }
                    cache_remove(&mut self.entries, key);
                    self.current_size = self.current_size - entry.size;
                    None
                }
            },
            None => None,
        }
    }

    /// Stores `entry` under `key`, in place of what the key had, and then
    /// evicts what expires first until the bound is kept.
    ///
    /// The entry counts for the length of its body. Returns whether the
    /// entry was taken in: it is not, and nothing changes, when the total
    /// would no longer fit the machine's word. The new entry is treated
    /// like every other in the eviction.
    pub fn insert(&mut self, key: String, entry: CacheEntry) -> (stored: bool)
        requires
            old(self)@.wf(),
            entry@.wf(),
        ensures
            final(self)@.wf(),
            final(self)@.cap == old(self)@.cap,
            stored == (old(self)@.total + entry.size <= usize::MAX),
            !stored ==> final(self)@ == old(self)@,
            stored ==> evicted_from(old(self)@.entries.insert(key@, entry@), final(self)@),
    {
        let sum = match self.current_size.checked_add(entry.size) {
            Some(s) => s,
            None => {
                return false;
            },
        };
        let ghost m0 = old(self)@.entries;
        let ghost m1 = m0.insert(key@, entry@);
        proof {
            lemma_total_size_insert(m0, key@, entry@);
            if m0.contains_key(key@) {
                lemma_total_size_remove(m0, key@);
            }
        }
        let total: usize = match cache_insert(&mut self.entries, key, entry) {
            Some(replaced) => sum - replaced.size,
            None => sum,
        };
        self.current_size = total;
        assert(total == total_size(m1));
        let cap = match self.max_size_bytes {
            Some(c) => c,
            None => {
                return true;
            },
        };
        if total <= cap {
            return true;
        }
        let items = cache_snapshot(&self.entries);
        let victims = plan_eviction(&items, total, cap);
        let mut i: usize = 0;
        assert(victims@.take(0) =~= Seq::<usize>::empty());
        assert(m1.remove_keys(gone_keys(items@, victims@, 0)) =~= m1);
        while i < victims.len()
            invariant
                i <= victims@.len(),
                m1.dom().finite(),
                self.max_size_bytes == Some(cap),
                cache_table(self.entries) == m1.remove_keys(gone_keys(items@, victims@, i as int)),
                cache_table(self.entries).dom().finite(),
                self.current_size == total_size(cache_table(self.entries)),
                self.current_size == left_after(total as int, items@, victims@.take(i as int)),
                i > 0 ==> self.current_size + items@[victims@[i - 1] as int].2 == left_after(
                    total as int,
                    items@,
                    victims@.take(i - 1),
                ),
                forall|t: int| 0 <= t < victims@.len() ==> (#[trigger] victims@[t]) < items@.len(),
                forall|a: int, b: int|
                    0 <= a < b < victims@.len() ==> evicted_before(
                        items@,
                        #[trigger] victims@[a] as int,
                        #[trigger] victims@[b] as int,
                    ),
                forall|t: int|
                    0 <= t < items@.len() ==> m1.contains_key(#[trigger] items@[t].0@)
                        && m1[items@[t].0@].expires_at == items@[t].1 && m1[items@[t].0@].size
                        == items@[t].2,
                forall|a: int, b: int|
                    0 <= a < b < items@.len() ==> #[trigger] items@[a].0@ != #[trigger] items@[b].0@,
            decreases victims@.len() - i,
        {
            let v = victims[i];
            let ghost now = cache_table(self.entries);
            let ghost k = items@[v as int].0@;
            proof {
                assert(!gone_keys(items@, victims@, i as int).contains(k)) by {
                    if gone_keys(items@, victims@, i as int).contains(k) {
                        let t = choose|t: int|
                            0 <= t < i && #[trigger] items@[victims@[t] as int].0@ == k;
                        assert(evicted_before(items@, victims@[t] as int, victims@[i as int] as int));
                        let a = victims@[t] as int;
                        let b = v as int;
                        if a < b {
                            assert(items@[a].0@ != items@[b].0@);
                        } else {
                            assert(items@[b].0@ != items@[a].0@);
                        }
                    }
                }
                assert(now.contains_key(k));
                lemma_total_size_remove(now, k);
                assert(victims@.take(i + 1).drop_last() =~= victims@.take(i as int));
                assert(gone_keys(items@, victims@, i + 1) =~= gone_keys(
                    items@,
                    victims@,
                    i as int,
                ).insert(k)) by {
                    assert forall|q: Seq<char>|
                        gone_keys(items@, victims@, i + 1).contains(q) implies gone_keys(
                        items@,
                        victims@,
                        i as int,
                    ).insert(k).contains(q) by {
                        let t = choose|t: int|
                            0 <= t < i + 1 && #[trigger] items@[victims@[t] as int].0@ == q;
                        if t < i {
                            assert(items@[victims@[t] as int].0@ == q);
                        }
                    }
                    assert forall|q: Seq<char>|
                        gone_keys(items@, victims@, i as int).insert(k).contains(
                            q,
                        ) implies gone_keys(items@, victims@, i + 1).contains(q) by {
                        if q == k {
                            assert(items@[victims@[i as int] as int].0@ == q);
                        } else {
                            let t = choose|t: int|
                                0 <= t < i && #[trigger] items@[victims@[t] as int].0@ == q;
                            assert(items@[victims@[t] as int].0@ == q);
                        }
                    }
                }
                assert(now.remove(k) =~= m1.remove_keys(gone_keys(items@, victims@, i + 1)));
            }
            cache_remove(&mut self.entries, items[v].0.as_str());
            self.current_size = self.current_size - items[v].2;
            i += 1;
        }
        proof {
            let last = cache_table(self.entries);
            let gone = gone_keys(items@, victims@, victims@.len() as int);
            assert(victims@.take(victims@.len() as int) =~= victims@);
            let after = self@;
            assert(after.entries == last);
            // every key that stays has a position that is no victim
            assert forall|r: Seq<char>| last.contains_key(r) implies exists|j: int|
                0 <= j < items@.len() && #[trigger] items@[j].0@ == r && !victims@.contains(
                    j as usize,
                ) by {
                let j = choose|j: int| 0 <= j < items@.len() && #[trigger] items@[j].0@ == r;
                if victims@.contains(j as usize) {
                    let t = choose|t: int| 0 <= t < victims@.len() && victims@[t] == j as usize;
                    assert(items@[victims@[t] as int].0@ == r);
                    assert(gone.contains(r));
                }
            }
            if !(self.current_size <= cap) {
                // everything was a victim, so nothing is left
                assert(last.dom() =~= Set::<Seq<char>>::empty()) by {
                    assert forall|r: Seq<char>| !last.contains_key(r) by {
                        if last.contains_key(r) {
                            let j = choose|j: int|
                                0 <= j < items@.len() && #[trigger] items@[j].0@ == r
                                    && !victims@.contains(j as usize);
                            assert(victims@.contains(j as usize));
                        }
                    }
                }
                assert(false);
            }
            assert forall|q: Seq<char>, r: Seq<char>|
                m1.contains_key(q) && !last.contains_key(q) && #[trigger] last.contains_key(
                    r,
                ) implies (#[trigger] m1[q]).expires_at <= m1[r].expires_at by {
                assert(gone.contains(q));
                let t = choose|t: int|
                    0 <= t < victims@.len() && #[trigger] items@[victims@[t] as int].0@ == q;
                let j = choose|j: int|
                    0 <= j < items@.len() && #[trigger] items@[j].0@ == r && !victims@.contains(
                        j as usize,
                    );
                assert(evicted_before(items@, victims@[t] as int, j));
            }
            if victims@.len() > 0 {
                let k = items@[victims@[victims@.len() - 1] as int].0@;
                assert(items@[victims@[victims@.len() - 1] as int].0@ == k);
                assert(gone.contains(k));
                assert(m1.contains_key(k) && !last.contains_key(k) && after.total + m1[k].size
                    > cap);
            } else {
                assert(last =~= m1);
            }
        }
        true
    }
}

} // verus!
