//! The in-memory cache index: one entry per cached file, keyed by cache key,
//! with the file's size and the time it was last read or written.
//!
//! The caller owns the files. It reports each successful read (`touch`) and
//! each completed write (`put`), and deletes files on the index's behalf
//! during eviction through the `remove_file` function it passes in.

use vstd::prelude::*;
use crate::order::{key_less, key_precedes, lemma_key_less_irreflexive, lemma_key_less_total,
    lemma_key_less_transitive};
use crate::text::same_text;

verus! {

/// Size and last access time of one cached file.
#[derive(Clone, Copy, Debug, PartialEq, Eq)]
pub struct EntryInfo {
    pub size: u64,
    pub last_access: u64,
}

/// One cached tile: its key, the byte length of its backing file, and when
/// it was last read or written.
#[derive(Debug)]
pub struct CacheEntry {
    pub key: String,
    pub size: u64,
    pub last_access: u64,
}

impl CacheEntry {
    pub open spec fn info(&self) -> EntryInfo {
        EntryInfo { size: self.size, last_access: self.last_access }
    }
}

/// The key-to-info map that a list of entries describes.
pub open spec fn map_of(s: Seq<CacheEntry>) -> Map<Seq<char>, EntryInfo>
    decreases s.len(),
{
    if s.len() == 0 {
        Map::empty()
    } else {
        map_of(s.drop_last()).insert(s.last().key@, s.last().info())
    }
}

pub open spec fn keys_unique(s: Seq<CacheEntry>) -> bool {
    forall|i: int, j: int|
        0 <= i < s.len() && 0 <= j < s.len() && i != j ==> s[i].key@ != s[j].key@
}

/// Sum of the sizes of a list of entries.
pub open spec fn total_of(s: Seq<CacheEntry>) -> nat
    decreases s.len(),
{
    if s.len() == 0 {
        0
    } else {
        total_of(s.drop_last()) + s.last().size as nat
    }
}

proof fn lemma_map_of(s: Seq<CacheEntry>)
    requires
        keys_unique(s),
    ensures
        forall|k: Seq<char>|
            map_of(s).contains_key(k) <==> exists|i: int| 0 <= i < s.len() && s[i].key@ == k,
        forall|i: int| 0 <= i < s.len() ==> map_of(s)[#[trigger] s[i].key@] == s[i].info(),
    decreases s.len(),
{
    if s.len() > 0 {
        let p = s.drop_last();
        assert(keys_unique(p));
        lemma_map_of(p);
        assert forall|k: Seq<char>|
            map_of(s).contains_key(k) <==> exists|i: int| 0 <= i < s.len() && s[i].key@ == k by {
            if map_of(s).contains_key(k) && k != s.last().key@ {
                assert(map_of(p).contains_key(k));
                let i = choose|i: int| 0 <= i < p.len() && p[i].key@ == k;
                assert(p[i] == s[i]);
                assert(s[i].key@ == k);
            }
            if map_of(s).contains_key(k) && k == s.last().key@ {
                assert(s[s.len() - 1].key@ == k);
            }
            if exists|i: int| 0 <= i < s.len() && s[i].key@ == k {
                let i = choose|i: int| 0 <= i < s.len() && s[i].key@ == k;
                if i < p.len() {
                    assert(p[i] == s[i]);
                    assert(p[i].key@ == k);
                }
            }
        }
        assert forall|i: int| 0 <= i < s.len() implies map_of(s)[#[trigger] s[i].key@]
            == s[i].info() by {
            if i < p.len() {
                assert(p[i] == s[i]);
                assert(p[i].key@ != s.last().key@);
            }
        }
    }
}

proof fn lemma_remove(s: Seq<CacheEntry>, i: int)
    requires
        keys_unique(s),
        0 <= i < s.len(),
    ensures
        keys_unique(s.remove(i)),
        map_of(s.remove(i)) =~= map_of(s).remove(s[i].key@),
        total_of(s.remove(i)) + s[i].size == total_of(s),
    decreases s.len(),
{
    let p = s.drop_last();
    assert(keys_unique(p));
    if i == s.len() - 1 {
        assert(s.remove(i) =~= p);
        lemma_map_of(p);
        assert(!map_of(p).contains_key(s[i].key@)) by {
            if map_of(p).contains_key(s[i].key@) {
                let j = choose|j: int| 0 <= j < p.len() && p[j].key@ == s[i].key@;
                assert(s[j].key@ == s[i].key@);
            }
        }
    } else {
        lemma_remove(p, i);
        assert(s.remove(i).drop_last() =~= p.remove(i));
        assert(s.remove(i).last() == s.last());
        assert(s[i].key@ != s.last().key@);
    }
}

proof fn lemma_update(s: Seq<CacheEntry>, i: int, e: CacheEntry)
    requires
        keys_unique(s),
        0 <= i < s.len(),
        e.key@ == s[i].key@,
    ensures
        keys_unique(s.update(i, e)),
        map_of(s.update(i, e)) =~= map_of(s).insert(e.key@, e.info()),
        total_of(s.update(i, e)) + s[i].size == total_of(s) + e.size,
    decreases s.len(),
{
    let p = s.drop_last();
    assert(keys_unique(p));
    if i == s.len() - 1 {
        assert(s.update(i, e).drop_last() =~= p);
    } else {
        lemma_update(p, i, e);
        assert(s.update(i, e).drop_last() =~= p.update(i, e));
        assert(s[i].key@ != s.last().key@);
    }
}

proof fn lemma_push(s: Seq<CacheEntry>, e: CacheEntry)
    requires
        keys_unique(s),
        !map_of(s).contains_key(e.key@),
    ensures
        keys_unique(s.push(e)),
        map_of(s.push(e)) == map_of(s).insert(e.key@, e.info()),
        total_of(s.push(e)) == total_of(s) + e.size,
{
    lemma_map_of(s);
    assert(s.push(e).drop_last() =~= s);
    assert forall|i: int, j: int|
        0 <= i < s.push(e).len() && 0 <= j < s.push(e).len() && i != j implies s.push(e)[i].key@
        != s.push(e)[j].key@ by {
        if i == s.len() {
            assert(s[j].key@ == s.push(e)[j].key@);
        } else if j == s.len() {
            assert(s[i].key@ == s.push(e)[i].key@);
        }
    }
}

/// The index after `key` was written with `size` bytes at time `now`.
pub open spec fn after_write(m: Map<Seq<char>, EntryInfo>, key: Seq<char>, size: u64, now: u64) -> Map<
    Seq<char>,
    EntryInfo,
> {
    m.insert(key, EntryInfo { size, last_access: now })
}

/// Keys of a list of strings.
pub open spec fn key_view(v: Seq<String>) -> Seq<Seq<char>> {
    v.map_values(|s: String| s@)
}

/// In least-recently-used order, entry `a` of `m` comes strictly before
/// entry `b`: it was accessed earlier, or at the same time with a smaller key.
pub open spec fn lru_before(m: Map<Seq<char>, EntryInfo>, a: Seq<char>, b: Seq<char>) -> bool {
    ||| m[a].last_access < m[b].last_access
    ||| m[a].last_access == m[b].last_access && key_less(a, b)
}

/// The same order, read off two entries directly.
pub open spec fn entry_before(a: CacheEntry, b: CacheEntry) -> bool {
    ||| a.last_access < b.last_access
    ||| a.last_access == b.last_access && key_less(a.key@, b.key@)
}

/// Sum of the sizes that `m` records for the keys `ks`.
pub open spec fn sizes_of(m: Map<Seq<char>, EntryInfo>, ks: Seq<Seq<char>>) -> nat
    decreases ks.len(),
{
    if ks.len() == 0 {
        0
    } else {
        sizes_of(m, ks.drop_last()) + m[ks.last()].size as nat
    }
}

/// Sum of the sizes of those keys among `ks` that come before `k` in
/// least-recently-used order.
pub open spec fn older_sizes(m: Map<Seq<char>, EntryInfo>, ks: Seq<Seq<char>>, k: Seq<char>) -> nat
    decreases ks.len(),
{
    if ks.len() == 0 {
        0
    } else {
        older_sizes(m, ks.drop_last(), k) + if lru_before(m, ks.last(), k) {
            m[ks.last()].size as nat
        } else {
            0
        }
    }
}

/// `m2` is what is left of `m` after an eviction that had to free `need`
/// bytes, deleted the files of `removed` (`freed` bytes in all) and failed to
/// delete those of `failed`.
///
/// The eviction walks the entries oldest first and stops once `need` bytes
/// are freed. So an entry was attempted exactly when the files deleted before
/// it fall short of `need`, and an entry whose deletion failed stays indexed.
pub open spec fn evicted(
    m: Map<Seq<char>, EntryInfo>,
    m2: Map<Seq<char>, EntryInfo>,
    need: nat,
    removed: Seq<Seq<char>>,
    failed: Seq<Seq<char>>,
    freed: nat,
) -> bool {
    &&& removed.no_duplicates()
    &&& failed.no_duplicates()
    &&& forall|i: int| 0 <= i < removed.len() ==> m.contains_key(#[trigger] removed[i])
    &&& forall|i: int|
        0 <= i < failed.len() ==> m.contains_key(#[trigger] failed[i]) && !removed.contains(
            failed[i],
        )
    &&& forall|k: Seq<char>| #[trigger]
        m2.contains_key(k) <==> m.contains_key(k) && !removed.contains(k)
    &&& forall|k: Seq<char>| m2.contains_key(k) ==> #[trigger] m2[k] == m[k]
    &&& freed == sizes_of(m, removed)
    &&& forall|k: Seq<char>|
        #![trigger m.contains_key(k)]
        m.contains_key(k) ==> ((removed.contains(k) || failed.contains(k)) <==> older_sizes(
            m,
            removed,
            k,
        ) < need)
    &&& freed >= need || forall|k: Seq<char>|
        #![trigger m.contains_key(k)]
        m.contains_key(k) ==> removed.contains(k) || failed.contains(k)
}

pub proof fn lemma_lru_irreflexive(m: Map<Seq<char>, EntryInfo>, a: Seq<char>)
    ensures
        !lru_before(m, a, a),
{
    lemma_key_less_irreflexive(a);
}

pub proof fn lemma_lru_total(m: Map<Seq<char>, EntryInfo>, a: Seq<char>, b: Seq<char>)
    requires
        a != b,
    ensures
        lru_before(m, a, b) || lru_before(m, b, a),
{
    lemma_key_less_total(a, b);
}

pub proof fn lemma_lru_transitive(
    m: Map<Seq<char>, EntryInfo>,
    a: Seq<char>,
    b: Seq<char>,
    c: Seq<char>,
)
    requires
        lru_before(m, a, b),
        lru_before(m, b, c),
    ensures
        lru_before(m, a, c),
{
    if key_less(a, b) && key_less(b, c) {
        lemma_key_less_transitive(a, b, c);
    }
}

proof fn lemma_entry_before_transitive(a: CacheEntry, b: CacheEntry, c: CacheEntry)
    requires
        entry_before(a, b),
        entry_before(b, c),
    ensures
        entry_before(a, c),
{
    if key_less(a.key@, b.key@) && key_less(b.key@, c.key@) {
        lemma_key_less_transitive(a.key@, b.key@, c.key@);
    }
}

proof fn lemma_older_at_most_all(m: Map<Seq<char>, EntryInfo>, ks: Seq<Seq<char>>, k: Seq<char>)
    ensures
        older_sizes(m, ks, k) <= sizes_of(m, ks),
    decreases ks.len(),
{
    if ks.len() > 0 {
        lemma_older_at_most_all(m, ks.drop_last(), k);
    }
}

proof fn lemma_older_is_all(m: Map<Seq<char>, EntryInfo>, ks: Seq<Seq<char>>, k: Seq<char>)
    requires
        forall|i: int| 0 <= i < ks.len() ==> lru_before(m, #[trigger] ks[i], k),
    ensures
        older_sizes(m, ks, k) == sizes_of(m, ks),
    decreases ks.len(),
{
    if ks.len() > 0 {
        assert(lru_before(m, ks[ks.len() - 1], k));
        lemma_older_is_all(m, ks.drop_last(), k);
    }
}

proof fn lemma_older_monotone(
    m: Map<Seq<char>, EntryInfo>,
    ks: Seq<Seq<char>>,
    a: Seq<char>,
    b: Seq<char>,
)
    requires
        lru_before(m, a, b),
    ensures
        older_sizes(m, ks, a) <= older_sizes(m, ks, b),
    decreases ks.len(),
{
    if ks.len() > 0 {
        lemma_older_monotone(m, ks.drop_last(), a, b);
        if lru_before(m, ks.last(), a) {
            lemma_lru_transitive(m, ks.last(), a, b);
        }
    }
}

proof fn lemma_distinct_keys_fit(xs: Seq<Seq<char>>, s: Seq<CacheEntry>)
    requires
        xs.no_duplicates(),
        keys_unique(s),
        forall|k: Seq<char>| #[trigger] xs.contains(k) ==> map_of(s).contains_key(k),
    ensures
        xs.len() <= s.len(),
{
    lemma_map_of(s);
    let keys = s.map_values(|e: CacheEntry| e.key@);
    assert(keys.no_duplicates());
    keys.unique_seq_to_set();
    xs.unique_seq_to_set();
    vstd::seq_lib::seq_to_set_is_finite(keys);
    assert(xs.to_set().subset_of(keys.to_set())) by {
        assert forall|k: Seq<char>| xs.to_set().contains(k) implies keys.to_set().contains(k) by {
            assert(xs.contains(k));
            assert(map_of(s).contains_key(k));
            let j = choose|j: int| 0 <= j < s.len() && s[j].key@ == k;
            assert(keys[j] == k);
        }
    }
    vstd::set_lib::lemma_len_subset(xs.to_set(), keys.to_set());
}

/// Every key of `keys` was handed to `remove_file`, which answered `answer`.
pub open spec fn answered<F: Fn(&str) -> bool>(remove_file: &F, keys: Seq<String>, answer: bool) -> bool {
    forall|i: int|
        0 <= i < keys.len() ==> exists|s: &str|
            s@ == #[trigger] keys[i]@ && remove_file.ensures((s,), answer)
}

/// What an eviction did: the keys whose files it deleted and dropped from the
/// index, oldest first; the keys whose file deletion failed, which stay
/// indexed; and the bytes freed.
#[derive(Debug)]
pub struct EvictionReport {
    pub removed: Vec<String>,
    pub failed: Vec<String>,
    pub freed: u64,
}

fn list_holds(list: &Vec<String>, key: &String) -> (r: bool)
    ensures
        r == key_view(list@).contains(key@),
{
    let mut i: usize = 0;
    while i < list.len()
        invariant
            i <= list@.len(),
            forall|j: int| 0 <= j < i ==> list@[j]@ != key@,
        decreases list@.len() - i,
    {
        if list[i] == *key {
            assert(key_view(list@)[i as int] == key@);
            return true;
        }
        i = i + 1;
    }
    assert forall|j: int| 0 <= j < key_view(list@).len() implies key_view(list@)[j] != key@ by {
        assert(list@[j]@ != key@);
    }
    false
}

/// The in-memory index of the cache: which keys have a backing file, of what
/// size, last accessed when; and the byte budget that eviction enforces.
pub struct CacheIndex {
    entries: Vec<CacheEntry>,
    used: u64,
    max_size: u64,
}

impl View for CacheIndex {
    type V = Map<Seq<char>, EntryInfo>;

    closed spec fn view(&self) -> Map<Seq<char>, EntryInfo> {
        map_of(self.entries@)
    }
}

impl CacheIndex {
    /// Each key is indexed once, and the running total of sizes is exact.
    pub closed spec fn wf(&self) -> bool {
        &&& keys_unique(self.entries@)
        &&& self.used == total_of(self.entries@)
    }

    /// Sum of the sizes of all indexed entries.
    pub closed spec fn total(&self) -> nat {
        total_of(self.entries@)
    }

    /// The configured ceiling on the total size.
    pub closed spec fn limit(&self) -> nat {
        self.max_size as nat
    }

    /// Total size after `key` is written with `size` bytes.
    pub open spec fn total_after_write(&self, key: Seq<char>, size: u64) -> int {
        if self@.contains_key(key) {
            self.total() - self@[key].size + size
        } else {
            self.total() + size
        }
    }

    /// An empty index with the given byte budget.
    pub fn new(max_size: u64) -> (r: CacheIndex)
        ensures
            r.wf(),
            r@ == Map::<Seq<char>, EntryInfo>::empty(),
            r.total() == 0,
            r.limit() == max_size,
    {
        CacheIndex { entries: Vec::new(), used: 0, max_size }
    }

    pub fn max_size(&self) -> (r: u64)
        ensures
            r == self.limit(),
    {
        self.max_size
    }

    /// Sum of the sizes of all indexed entries.
    pub fn total_size(&self) -> (r: u64)
        requires
            self.wf(),
        ensures
            r == self.total(),
    {
        self.used
    }

    /// Number of indexed entries.
    pub fn len(&self) -> (r: usize)
        requires
            self.wf(),
        ensures
            r == self@.len(),
    {
        proof {
            lemma_map_of(self.entries@);
            self.lemma_dom_len();
        }
        self.entries.len()
    }

    proof fn lemma_dom_len(&self)
        requires
            self.wf(),
        ensures
            self@.len() == self.entries@.len(),
    {
        let s = self.entries@;
        lemma_map_of(s);
        let keys = s.map_values(|e: CacheEntry| e.key@);
        assert(keys.no_duplicates());
        keys.unique_seq_to_set();
        assert(keys.to_set() =~= self@.dom()) by {
            assert forall|k: Seq<char>| keys.to_set().contains(k) implies self@.dom().contains(k) by {
                let i = choose|i: int| 0 <= i < keys.len() && keys[i] == k;
                assert(s[i].key@ == k);
            }
            assert forall|k: Seq<char>| self@.dom().contains(k) implies keys.to_set().contains(k) by {
                let i = choose|i: int| 0 <= i < s.len() && s[i].key@ == k;
                assert(keys[i] == k);
            }
        }
    }

    fn position(&self, key: &str) -> (r: Option<usize>)
        requires
            self.wf(),
        ensures
            r matches Some(i) ==> i < self.entries@.len() && self.entries@[i as int].key@ == key@,
            r is None ==> !self@.contains_key(key@),
            self@.contains_key(key@) == r is Some,
    {
        proof {
            lemma_map_of(self.entries@);
        }
        let mut i: usize = 0;
        while i < self.entries.len()
            invariant
                self.wf(),
                i <= self.entries@.len(),
                forall|j: int| 0 <= j < i ==> self.entries@[j].key@ != key@,
            decreases self.entries@.len() - i,
        {
            if same_text(self.entries[i].key.as_str(), key) {
                proof {
                    lemma_map_of(self.entries@);
                    assert(self.entries@[i as int].key@ == key@);
                }
                return Some(i);
            }
            i = i + 1;
        }
        None
    }

    /// What the index holds for `key`, if anything.
    pub fn lookup(&self, key: &str) -> (r: Option<EntryInfo>)
        requires
            self.wf(),
        ensures
            r == (if self@.contains_key(key@) {
                Some(self@[key@])
            } else {
                None
            }),
    {
        proof {
            lemma_map_of(self.entries@);
        }
        match self.position(key) {
            Some(i) => Some(EntryInfo { size: self.entries[i].size, last_access: self.entries[i].last_access }),
            None => None,
        }
    }

    /// Records a successful read of `key` at time `now`. A key that is not
    /// indexed is left alone; the result says whether it was found.
    pub fn touch(&mut self, key: &str, now: u64) -> (found: bool)
        requires
            old(self).wf(),
        ensures
            final(self).wf(),
            found == old(self)@.contains_key(key@),
            found ==> final(self)@ == old(self)@.insert(
                key@,
                EntryInfo { size: old(self)@[key@].size, last_access: now },
            ),
            !found ==> final(self)@ == old(self)@,
            final(self).total() == old(self).total(),
            final(self).limit() == old(self).limit(),
    {
        proof {
            lemma_map_of(self.entries@);
        }
        match self.position(key) {
            Some(i) => {
                let e = CacheEntry { key: self.entries[i].key.clone(), size: self.entries[i].size, last_access: now };
                proof {
                    lemma_update(self.entries@, i as int, e);
                }
                self.entries.set(i, e);
                true
            },
            None => false,
        }
    }

    /// Installs or replaces the entry for `key`, without eviction.
    pub(crate) fn write_entry(&mut self, key: String, size: u64, now: u64)
        requires
            old(self).wf(),
            old(self).total_after_write(key@, size) <= u64::MAX,
        ensures
            final(self).wf(),
            final(self)@ == after_write(old(self)@, key@, size, now),
            final(self).total() == old(self).total_after_write(key@, size),
            final(self).limit() == old(self).limit(),
    {
        proof {
            lemma_map_of(self.entries@);
        }
        let e = CacheEntry { key: key.clone(), size, last_access: now };
        match self.position(key.as_str()) {
            Some(i) => {
                let before = self.entries[i].size;
                proof {
                    lemma_update(self.entries@, i as int, e);
                    lemma_remove(self.entries@, i as int);
                }
                self.entries.set(i, e);
                self.used = self.used - before + size;
            },
            None => {
                proof {
                    lemma_push(self.entries@, e);
                }
                self.entries.push(e);
                self.used = self.used + size;
            },
        }
    }
}


impl CacheIndex {
    proof fn lemma_total_empty(&self)
        requires
            self.wf(),
            forall|k: Seq<char>| !self@.contains_key(k),
        ensures
            self.total() == 0,
    {
        lemma_map_of(self.entries@);
        if self.entries@.len() > 0 {
            assert(self@.contains_key(self.entries@[0].key@));
        }
    }

    /// Position of the least recently used entry whose key is not in `skip`.
    fn oldest_outside(&self, skip: &Vec<String>) -> (r: Option<usize>)
        requires
            self.wf(),
        ensures
            r matches Some(i) ==> {
                &&& i < self.entries@.len()
                &&& !key_view(skip@).contains(self.entries@[i as int].key@)
                &&& forall|j: int|
                    0 <= j < self.entries@.len() && !key_view(skip@).contains(
                        #[trigger] self.entries@[j].key@,
                    ) ==> !entry_before(self.entries@[j], self.entries@[i as int])
            },
            r is None ==> forall|j: int|
                0 <= j < self.entries@.len() ==> key_view(skip@).contains(
                    #[trigger] self.entries@[j].key@,
                ),
    {
        let mut best: Option<usize> = None;
        let mut i: usize = 0;
        while i < self.entries.len()
            invariant
                i <= self.entries@.len(),
                best matches Some(b) ==> {
                    &&& b < i
                    &&& !key_view(skip@).contains(self.entries@[b as int].key@)
                    &&& forall|j: int|
                        0 <= j < i && !key_view(skip@).contains(#[trigger] self.entries@[j].key@)
                            ==> !entry_before(self.entries@[j], self.entries@[b as int])
                },
                best is None ==> forall|j: int|
                    0 <= j < i ==> key_view(skip@).contains(#[trigger] self.entries@[j].key@),
            decreases self.entries@.len() - i,
        {
            if !list_holds(skip, &self.entries[i].key) {
                match best {
                    None => {
                        proof {
                            lemma_key_less_irreflexive(self.entries@[i as int].key@);
                        }
                        best = Some(i);
                    },
                    Some(b) => {
                        let earlier = self.entries[i].last_access < self.entries[b].last_access || (
                        self.entries[i].last_access == self.entries[b].last_access && key_precedes(
                            self.entries[i].key.as_str(),
                            self.entries[b].key.as_str(),
                        ));
                        if earlier {
                            proof {
                                assert forall|j: int|
                                    0 <= j < i + 1 && !key_view(skip@).contains(
                                        #[trigger] self.entries@[j].key@,
                                    ) implies !entry_before(
                                    self.entries@[j],
                                    self.entries@[i as int],
                                ) by {
                                    if j < i && entry_before(
                                        self.entries@[j],
                                        self.entries@[i as int],
                                    ) {
                                        lemma_entry_before_transitive(
                                            self.entries@[j],
                                            self.entries@[i as int],
                                            self.entries@[b as int],
                                        );
                                    }
                                    if j == i {
                                        lemma_key_less_irreflexive(self.entries@[j].key@);
                                    }
                                }
                            }
                            best = Some(i);
                        }
                    },
                }
            }
            i = i + 1;
        }
        best
    }

    /// Frees at least `bytes_to_free` bytes, if the index holds that many,
    /// by deleting entries in least-recently-used order (ties go to the
    /// smaller key). `remove_file` deletes the backing file of a key and says
    /// whether it succeeded; an entry whose file could not be deleted stays
    /// indexed, does not count as freed, and the walk goes on with the next.
    pub fn evict_lru<F: Fn(&str) -> bool>(&mut self, bytes_to_free: u64, remove_file: &F) -> (r:
        EvictionReport)
        requires
            old(self).wf(),
            forall|k: &str| remove_file.requires((k,)),
        ensures
            final(self).wf(),
            final(self).limit() == old(self).limit(),
            evicted(
                old(self)@,
                final(self)@,
                bytes_to_free as nat,
                key_view(r.removed@),
                key_view(r.failed@),
                r.freed as nat,
            ),
            final(self).total() + r.freed == old(self).total(),
            answered(remove_file, r.removed@, true),
            answered(remove_file, r.failed@, false),
            (forall|s: &str, b: bool| remove_file.ensures((s,), b) ==> b) ==> r.failed@.len() == 0,
    {
        let ghost m = self@;
        let ghost orig_total = self.total();
        let ghost need = bytes_to_free as nat;
        let mut removed: Vec<String> = Vec::new();
        let mut failed: Vec<String> = Vec::new();
        let mut freed: u64 = 0;
        let mut exhausted = false;
        assert(key_view(removed@) =~= Seq::<Seq<char>>::empty());
        assert(key_view(failed@) =~= Seq::<Seq<char>>::empty());
        while freed < bytes_to_free && !exhausted
            invariant
                self.wf(),
                self.max_size == old(self).max_size,
                m == old(self)@,
                orig_total == old(self).total(),
                orig_total <= u64::MAX,
                need == bytes_to_free,
                forall|k: &str| remove_file.requires((k,)),
                answered(remove_file, removed@, true),
                answered(remove_file, failed@, false),
                self.total() + freed == orig_total,
                forall|k: Seq<char>| #[trigger]
                    self@.contains_key(k) <==> m.contains_key(k) && !key_view(removed@).contains(k),
                forall|k: Seq<char>| self@.contains_key(k) ==> #[trigger] self@[k] == m[k],
                key_view(removed@).no_duplicates(),
                key_view(failed@).no_duplicates(),
                forall|i: int|
                    0 <= i < key_view(removed@).len() ==> m.contains_key(
                        #[trigger] key_view(removed@)[i],
                    ),
                forall|i: int|
                    0 <= i < key_view(failed@).len() ==> self@.contains_key(
                        #[trigger] key_view(failed@)[i],
                    ),
                freed == sizes_of(m, key_view(removed@)),
                forall|a: Seq<char>, b: Seq<char>|
                    #![trigger lru_before(m, a, b)]
                    m.contains_key(a) && m.contains_key(b) && (key_view(removed@).contains(b)
                        || key_view(failed@).contains(b)) && lru_before(m, a, b) ==> (key_view(
                        removed@,
                    ).contains(a) || key_view(failed@).contains(a)),
                forall|k: Seq<char>|
                    #![trigger m.contains_key(k)]
                    m.contains_key(k) && (key_view(removed@).contains(k) || key_view(
                        failed@,
                    ).contains(k)) ==> older_sizes(m, key_view(removed@), k) < need,
                exhausted ==> forall|k: Seq<char>|
                    #![trigger m.contains_key(k)]
                    m.contains_key(k) ==> key_view(removed@).contains(k) || key_view(
                        failed@,
                    ).contains(k),
                key_view(failed@).len() <= self.entries@.len(),
            decreases self.entries@.len() - key_view(failed@).len() + if exhausted {
                0int
            } else {
                1int
            },
        {
            let ghost rk = key_view(removed@);
            let ghost fk = key_view(failed@);
            let ghost cur = self.entries@;
            proof {
                lemma_map_of(cur);
            }
            match self.oldest_outside(&failed) {
                None => {
                    proof {
                        assert forall|k: Seq<char>| #[trigger]
                            m.contains_key(k) implies rk.contains(k) || fk.contains(k) by {
                            if !rk.contains(k) {
                                assert(self@.contains_key(k));
                                let j = choose|j: int| 0 <= j < cur.len() && cur[j].key@ == k;
                                assert(fk.contains(cur[j].key@));
                            }
                        }
                    }
                    exhausted = true;
                },
                Some(i) => {
                    let key = self.entries[i].key.clone();
                    let ghost c = key@;
                    let ghost size = cur[i as int].size;
                    proof {
                        assert(cur[i as int].key@ == c);
                        assert(self@.contains_key(c));
                        assert(self@[c] == cur[i as int].info());
                        assert(m.contains_key(c));
                        assert(!rk.contains(c));
                        assert(!fk.contains(c));
                        // everything older than the candidate has been dealt with
                        assert forall|a: Seq<char>|
                            m.contains_key(a) && lru_before(m, a, c) implies rk.contains(a)
                            || fk.contains(a) by {
                            if !rk.contains(a) && !fk.contains(a) {
                                assert(self@.contains_key(a));
                                let j = choose|j: int| 0 <= j < cur.len() && cur[j].key@ == a;
                                assert(self@[a] == cur[j].info());
                                assert(!entry_before(cur[j], cur[i as int]));
                            }
                        }
                        lemma_older_at_most_all(m, rk, c);
                        lemma_lru_irreflexive(m, c);
                    }
                    let ks = key.as_str();
                    let ok = remove_file(ks);
                    let ghost gs = ks;
                    assert(gs@ == c);
                    if ok {
                        proof {
                            lemma_remove(cur, i as int);
                        }
                        let gone = self.entries.remove(i);
                        self.used = self.used - gone.size;
                        freed = freed + gone.size;
                        let ghost before = removed@;
                        removed.push(key);
                        proof {
                            assert forall|ii: int| 0 <= ii < removed@.len() implies exists|s: &str|
                                s@ == #[trigger] removed@[ii]@ && remove_file.ensures((s,), true) by {
                                if ii < before.len() {
                                    assert(removed@[ii] == before[ii]);
                                } else {
                                    assert(gs@ == removed@[ii]@);
                                }
                            }
                            let rk2 = key_view(removed@);
                            assert(rk2 =~= rk.push(c));
                            assert(rk.push(c).drop_last() =~= rk);
                            assert(forall|k: Seq<char>| #[trigger]
                                rk2.contains(k) <==> rk.contains(k) || k == c) by {
                                assert forall|k: Seq<char>| #[trigger]
                                    rk2.contains(k) implies rk.contains(k) || k == c by {
                                    let j = choose|j: int| 0 <= j < rk2.len() && rk2[j] == k;
                                    if j < rk.len() {
                                        assert(rk[j] == k);
                                    }
                                }
                                assert forall|k: Seq<char>|
                                    rk.contains(k) || k == c implies #[trigger] rk2.contains(k) by {
                                    if k == c {
                                        assert(rk2[rk.len() as int] == k);
                                    } else {
                                        let j = choose|j: int| 0 <= j < rk.len() && rk[j] == k;
                                        assert(rk2[j] == k);
                                    }
                                }
                            }
                            assert forall|k: Seq<char>|
                                #![trigger m.contains_key(k)]
                                m.contains_key(k) && (rk2.contains(k) || fk.contains(k))
                                    implies older_sizes(m, rk2, k) < need by {
                                if k != c {
                                    // the candidate is younger than everything handled before it
                                    if lru_before(m, c, k) {
                                        assert(rk.contains(c) || fk.contains(c));
                                    }
                                }
                            }
                            assert forall|ii: int|
                                0 <= ii < key_view(failed@).len() implies self@.contains_key(
                                #[trigger] key_view(failed@)[ii],
                            ) by {
                                assert(fk[ii] != c);
                            }
                            lemma_map_of(self.entries@);
                            lemma_distinct_keys_fit(fk, self.entries@);
                        }
                    } else {
                        let ghost before = failed@;
                        failed.push(key);
                        proof {
                            assert forall|ii: int| 0 <= ii < failed@.len() implies exists|s: &str|
                                s@ == #[trigger] failed@[ii]@ && remove_file.ensures((s,), false) by {
                                if ii < before.len() {
                                    assert(failed@[ii] == before[ii]);
                                } else {
                                    assert(gs@ == failed@[ii]@);
                                }
                            }
                            let fk2 = key_view(failed@);
                            assert(fk2 =~= fk.push(c));
                            assert(forall|k: Seq<char>| #[trigger]
                                fk2.contains(k) <==> fk.contains(k) || k == c) by {
                                assert forall|k: Seq<char>| #[trigger]
                                    fk2.contains(k) implies fk.contains(k) || k == c by {
                                    let j = choose|j: int| 0 <= j < fk2.len() && fk2[j] == k;
                                    if j < fk.len() {
                                        assert(fk[j] == k);
                                    }
                                }
                                assert forall|k: Seq<char>|
                                    fk.contains(k) || k == c implies #[trigger] fk2.contains(k) by {
                                    if k == c {
                                        assert(fk2[fk.len() as int] == k);
                                    } else {
                                        let j = choose|j: int| 0 <= j < fk.len() && fk[j] == k;
                                        assert(fk2[j] == k);
                                    }
                                }
                            }
                            lemma_distinct_keys_fit(fk2, cur);
                        }
                    }
                },
            }
        }
        proof {
            let rk = key_view(removed@);
            let fk = key_view(failed@);
            assert forall|k: Seq<char>|
                #![trigger m.contains_key(k)]
                m.contains_key(k) && older_sizes(m, rk, k) < need implies rk.contains(k)
                || fk.contains(k) by {
                if !rk.contains(k) && !fk.contains(k) {
                    assert forall|ii: int| 0 <= ii < rk.len() implies lru_before(
                        m,
                        #[trigger] rk[ii],
                        k,
                    ) by {
                        assert(rk.contains(rk[ii]));
                        lemma_lru_total(m, rk[ii], k);
                    }
                    lemma_older_is_all(m, rk, k);
                }
            }
            assert forall|ii: int|
                0 <= ii < fk.len() implies m.contains_key(#[trigger] fk[ii]) && !rk.contains(
                fk[ii],
            ) by {
                assert(self@.contains_key(fk[ii]));
            }
        }
        proof {
            if forall|s: &str, b: bool| remove_file.ensures((s,), b) ==> b {
                if failed@.len() > 0 {
                    let s0 = choose|s: &str| s@ == failed@[0]@ && remove_file.ensures((s,), false);
                }
            }
        }
        EvictionReport { removed, failed, freed }
    }
}


proof fn lemma_sizes_remove(m: Map<Seq<char>, EntryInfo>, ks: Seq<Seq<char>>, j: int)
    requires
        0 <= j < ks.len(),
    ensures
        sizes_of(m, ks) == sizes_of(m, ks.remove(j)) + m[ks[j]].size,
    decreases ks.len(),
{
    if j < ks.len() - 1 {
        assert(ks.remove(j).drop_last() =~= ks.drop_last().remove(j));
        assert(ks.remove(j).last() == ks.last());
        lemma_sizes_remove(m, ks.drop_last(), j);
    } else {
        assert(ks.remove(j) =~= ks.drop_last());
    }
}

proof fn lemma_sizes_agree(m1: Map<Seq<char>, EntryInfo>, m2: Map<Seq<char>, EntryInfo>, ks: Seq<Seq<char>>)
    requires
        forall|i: int| 0 <= i < ks.len() ==> m1[#[trigger] ks[i]].size == m2[ks[i]].size,
    ensures
        sizes_of(m1, ks) == sizes_of(m2, ks),
    decreases ks.len(),
{
    if ks.len() > 0 {
        assert(m1[ks[ks.len() - 1]].size == m2[ks[ks.len() - 1]].size);
        lemma_sizes_agree(m1, m2, ks.drop_last());
    }
}

proof fn lemma_total_of_sizes(s: Seq<CacheEntry>, ks: Seq<Seq<char>>)
    requires
        keys_unique(s),
        ks.no_duplicates(),
        forall|k: Seq<char>| ks.contains(k) <==> #[trigger] map_of(s).contains_key(k),
    ensures
        total_of(s) == sizes_of(map_of(s), ks),
    decreases s.len(),
{
    lemma_map_of(s);
    if s.len() == 0 {
        if ks.len() > 0 {
            assert(ks.contains(ks[0]));
            assert(map_of(s).contains_key(ks[0]));
        }
    } else {
        let p = s.drop_last();
        let e = s.last();
        let m = map_of(s);
        assert(keys_unique(p));
        lemma_map_of(p);
        assert(m.contains_key(e.key@)) by {
            assert(s[s.len() - 1].key@ == e.key@);
        }
        let j = choose|j: int| 0 <= j < ks.len() && ks[j] == e.key@;
        let rest = ks.remove(j);
        lemma_sizes_remove(m, ks, j);
        assert(!map_of(p).contains_key(e.key@)) by {
            if map_of(p).contains_key(e.key@) {
                let i = choose|i: int| 0 <= i < p.len() && p[i].key@ == e.key@;
                assert(s[i].key@ == e.key@);
            }
        }
        assert forall|k: Seq<char>| rest.contains(k) <==> #[trigger] map_of(p).contains_key(k) by {
            if rest.contains(k) {
                let i = choose|i: int| 0 <= i < rest.len() && rest[i] == k;
                if i < j {
                    assert(ks[i] == k);
                } else {
                    assert(ks[i + 1] == k);
                }
                assert(ks.contains(k));
                assert(map_of(s).contains_key(k));
                if k == e.key@ {
                    if i < j {
                        assert(ks[i] == ks[j]);
                    } else {
                        assert(ks[i + 1] == ks[j]);
                    }
                }
                assert(k != e.key@);
                assert(m == map_of(p).insert(e.key@, e.info()));
                assert(map_of(p).contains_key(k));
            }
            if map_of(p).contains_key(k) {
                assert(m == map_of(p).insert(e.key@, e.info()));
                assert(m.contains_key(k));
                assert(map_of(s).contains_key(k));
                assert(ks.contains(k));
                let i = choose|i: int| 0 <= i < ks.len() && ks[i] == k;
                assert(i != j);
                if i < j {
                    assert(rest[i] == k);
                } else {
                    assert(rest[i - 1] == k);
                }
            }
        }
        assert(rest.no_duplicates());
        lemma_total_of_sizes(p, rest);
        assert forall|i: int| 0 <= i < rest.len() implies m[#[trigger] rest[i]].size == map_of(
            p,
        )[rest[i]].size by {
            assert(rest.contains(rest[i]));
        }
        lemma_sizes_agree(m, map_of(p), rest);
    }
}

impl CacheIndex {
    /// The total size is the sum of the sizes that the index records, taken
    /// over any listing of its keys that names each key once.
    pub proof fn lemma_total_is_sum(&self, ks: Seq<Seq<char>>)
        requires
            self.wf(),
            ks.no_duplicates(),
            forall|k: Seq<char>| ks.contains(k) <==> #[trigger] self@.contains_key(k),
        ensures
            self.total() == sizes_of(self@, ks),
    {
        assert forall|k: Seq<char>| ks.contains(k) <==> #[trigger] map_of(self.entries@).contains_key(k) by {
            assert(self@.contains_key(k) == map_of(self.entries@).contains_key(k));
        }
        lemma_total_of_sizes(self.entries@, ks);
    }
}

impl CacheIndex {
    /// Records that the file of `key` was fully written with `size` bytes at
    /// time `now`, replacing any earlier entry. If the total size then
    /// exceeds the budget, evicts the excess in least-recently-used order,
    /// deleting files through `remove_file`.
    pub fn put<F: Fn(&str) -> bool>(
        &mut self,
        key: String,
        size: u64,
        now: u64,
        remove_file: &F,
    ) -> (r: EvictionReport)
        requires
            old(self).wf(),
            old(self).total_after_write(key@, size) <= u64::MAX,
            forall|k: &str| remove_file.requires((k,)),
        ensures
            final(self).wf(),
            final(self).limit() == old(self).limit(),
            ({
                let mid = after_write(old(self)@, key@, size, now);
                let t = old(self).total_after_write(key@, size);
                if t > old(self).limit() {
                    evicted(
                        mid,
                        final(self)@,
                        (t - old(self).limit()) as nat,
                        key_view(r.removed@),
                        key_view(r.failed@),
                        r.freed as nat,
                    ) && final(self).total() + r.freed == t
                } else {
                    &&& final(self)@ == mid
                    &&& final(self).total() == t
                    &&& r.removed@.len() == 0
                    &&& r.failed@.len() == 0
                    &&& r.freed == 0
                }
            }),
            !key_view(r.removed@).contains(key@) ==> final(self)@.contains_key(key@)
                && final(self)@[key@] == (EntryInfo { size, last_access: now }),
            r.failed@.len() == 0 ==> final(self).total() <= final(self).limit(),
            final(self).total() <= final(self).limit() + sizes_of(
                after_write(old(self)@, key@, size, now),
                key_view(r.failed@),
            ),
            answered(remove_file, r.removed@, true),
            answered(remove_file, r.failed@, false),
            (forall|s: &str, b: bool| remove_file.ensures((s,), b) ==> b) ==> r.failed@.len() == 0,
    {
        let ghost t = self.total_after_write(key@, size);
        let ghost k = key@;
        self.write_entry(key, size, now);
        let ghost mid = self@;
        if self.used > self.max_size {
            let excess = self.used - self.max_size;
            let r = self.evict_lru(excess, remove_file);
            proof {
                assert(mid.contains_key(k));
                if key_view(r.failed@).len() == 0 && r.freed < excess {
                    assert forall|x: Seq<char>| !self@.contains_key(x) by {
                        if self@.contains_key(x) {
                            assert(mid.contains_key(x));
                        }
                    }
                    self.lemma_total_empty();
                }
                let fk = key_view(r.failed@);
                if r.freed < excess {
                    assert forall|x: Seq<char>| fk.contains(x) <==> #[trigger] self@.contains_key(x) by {
                        if fk.contains(x) {
                            let i = choose|i: int| 0 <= i < fk.len() && fk[i] == x;
                            assert(mid.contains_key(fk[i]));
                        }
                        if self@.contains_key(x) {
                            assert(mid.contains_key(x));
                        }
                    }
                    self.lemma_total_is_sum(fk);
                    assert forall|i: int| 0 <= i < fk.len() implies self@[#[trigger] fk[i]].size
                        == mid[fk[i]].size by {
                        assert(fk.contains(fk[i]));
                    }
                    lemma_sizes_agree(self@, mid, fk);
                }
            }
            r
        } else {
            let r = EvictionReport { removed: Vec::new(), failed: Vec::new(), freed: 0 };
            assert(key_view(r.removed@) =~= Seq::<Seq<char>>::empty());
            assert(key_view(r.failed@) =~= Seq::<Seq<char>>::empty());
            r
        }
    }
}

/// Least-recently-used eviction: when every file deletion succeeds, the
/// entries removed are exactly the oldest ones, up to and including the first
/// at which the freed total reaches the amount asked for.
///
/// Removal is closed under "older than"; each removed entry was still needed,
/// since the entries removed before it had not yet freed enough; and either
/// enough was freed or nothing is left.
pub proof fn lemma_lru_eviction(
    m: Map<Seq<char>, EntryInfo>,
    m2: Map<Seq<char>, EntryInfo>,
    need: nat,
    removed: Seq<Seq<char>>,
    freed: nat,
)
    requires
        evicted(m, m2, need, removed, Seq::empty(), freed),
    ensures
        forall|a: Seq<char>, b: Seq<char>|
            #![trigger removed.contains(b), lru_before(m, a, b)]
            m.contains_key(a) && removed.contains(b) && lru_before(m, a, b) ==> removed.contains(a),
        forall|k: Seq<char>| #[trigger] removed.contains(k) ==> older_sizes(m, removed, k) < need,
        freed >= need || m2.is_empty(),
{
    let none: Seq<Seq<char>> = Seq::empty();
    assert forall|a: Seq<char>, b: Seq<char>|
        #![trigger removed.contains(b), lru_before(m, a, b)]
        m.contains_key(a) && removed.contains(b) && lru_before(m, a, b) implies removed.contains(
        a,
    ) by {
        let i = choose|i: int| 0 <= i < removed.len() && removed[i] == b;
        assert(m.contains_key(removed[i]));
        lemma_older_monotone(m, removed, a, b);
        assert(!none.contains(a));
    }
    assert forall|k: Seq<char>| #[trigger] removed.contains(k) implies older_sizes(
        m,
        removed,
        k,
    ) < need by {
        let i = choose|i: int| 0 <= i < removed.len() && removed[i] == k;
        assert(m.contains_key(removed[i]));
    }
    if freed < need {
        assert(m2.dom() =~= Set::<Seq<char>>::empty()) by {
            assert forall|k: Seq<char>| !m2.contains_key(k) by {
                if m2.contains_key(k) {
                    assert(m.contains_key(k));
                    assert(!none.contains(k));
                }
            }
        }
    }
}

/// Writing the same bytes to a key twice leaves its recorded size as it was
/// and moves its last access time forward (never back, given a clock that
/// does not run backwards); no other entry changes.
pub proof fn lemma_rewrite_same(
    m: Map<Seq<char>, EntryInfo>,
    key: Seq<char>,
    size: u64,
    t1: u64,
    t2: u64,
)
    requires
        t1 <= t2,
    ensures
        ({
            let once = after_write(m, key, size, t1);
            let twice = after_write(once, key, size, t2);
            &&& twice.dom() == once.dom()
            &&& twice[key].size == once[key].size
            &&& twice[key].size == size
            &&& once[key].last_access <= twice[key].last_access
            &&& forall|k: Seq<char>| k != key && once.contains_key(k) ==> #[trigger] twice[k] == once[k]
        }),
{
    let once = after_write(m, key, size, t1);
    let twice = after_write(once, key, size, t2);
    assert(twice.dom() =~= once.dom());
}


proof fn lemma_older_remove(m: Map<Seq<char>, EntryInfo>, ks: Seq<Seq<char>>, j: int, k: Seq<char>)
    requires
        0 <= j < ks.len(),
    ensures
        older_sizes(m, ks, k) == older_sizes(m, ks.remove(j), k) + if lru_before(m, ks[j], k) {
            m[ks[j]].size as nat
        } else {
            0
        },
    decreases ks.len(),
{
    if j < ks.len() - 1 {
        assert(ks.remove(j).drop_last() =~= ks.drop_last().remove(j));
        assert(ks.remove(j).last() == ks.last());
        lemma_older_remove(m, ks.drop_last(), j, k);
    } else {
        assert(ks.remove(j) =~= ks.drop_last());
    }
}

proof fn lemma_older_subset(m: Map<Seq<char>, EntryInfo>, ks1: Seq<Seq<char>>, ks2: Seq<Seq<char>>, k: Seq<char>)
    requires
        ks1.no_duplicates(),
        ks2.no_duplicates(),
        forall|x: Seq<char>| #[trigger] ks1.contains(x) ==> ks2.contains(x),
    ensures
        older_sizes(m, ks1, k) <= older_sizes(m, ks2, k),
    decreases ks1.len(),
{
    if ks1.len() > 0 {
        let x = ks1.last();
        assert(ks1.contains(x)) by {
            assert(ks1[ks1.len() - 1] == x);
        }
        let j = choose|j: int| 0 <= j < ks2.len() && ks2[j] == x;
        let rest = ks2.remove(j);
        let p = ks1.drop_last();
        assert forall|y: Seq<char>| #[trigger] p.contains(y) implies rest.contains(y) by {
            let i = choose|i: int| 0 <= i < p.len() && p[i] == y;
            assert(ks1[i] == y);
            assert(ks1.contains(y));
            assert(y != x) by {
                assert(ks1[i] != ks1[ks1.len() - 1]);
            }
            let i2 = choose|i2: int| 0 <= i2 < ks2.len() && ks2[i2] == y;
            if i2 < j {
                assert(rest[i2] == y);
            } else {
                assert(rest[i2 - 1] == y);
            }
        }
        assert(rest.no_duplicates());
        lemma_older_subset(m, p, rest, k);
        lemma_older_remove(m, ks2, j, k);
    }
}

proof fn lemma_removed_within(
    m: Map<Seq<char>, EntryInfo>,
    m2a: Map<Seq<char>, EntryInfo>,
    m2b: Map<Seq<char>, EntryInfo>,
    need: nat,
    ra: Seq<Seq<char>>,
    rb: Seq<Seq<char>>,
    fa: nat,
    fb: nat,
)
    requires
        evicted(m, m2a, need, ra, Seq::empty(), fa),
        evicted(m, m2b, need, rb, Seq::empty(), fb),
    ensures
        forall|k: Seq<char>| #[trigger] rb.contains(k) ==> ra.contains(k),
{
    lemma_lru_eviction(m, m2a, need, ra, fa);
    lemma_lru_eviction(m, m2b, need, rb, fb);
    let none: Seq<Seq<char>> = Seq::empty();
    assert forall|k: Seq<char>| #[trigger] rb.contains(k) implies ra.contains(k) by {
        if !ra.contains(k) {
            let ib = choose|i: int| 0 <= i < rb.len() && rb[i] == k;
            assert(m.contains_key(rb[ib]));
            assert forall|x: Seq<char>| #[trigger] ra.contains(x) implies rb.contains(x) by {
                let ia = choose|i: int| 0 <= i < ra.len() && ra[i] == x;
                assert(m.contains_key(ra[ia]));
                if !rb.contains(x) {
                    lemma_lru_total(m, x, k);
                }
            }
            assert forall|i: int| 0 <= i < ra.len() implies lru_before(m, #[trigger] ra[i], k) by {
                assert(ra.contains(ra[i]));
                assert(m.contains_key(ra[i]));
                lemma_lru_total(m, ra[i], k);
            }
            lemma_older_is_all(m, ra, k);
            assert(!none.contains(k));
            lemma_older_subset(m, ra, rb, k);
        }
    }
}

/// With every deletion succeeding, what an eviction removes depends only on
/// the index and the amount to free: two such evictions of the same index
/// for the same amount remove the same keys and leave the same index.
pub proof fn lemma_eviction_determined(
    m: Map<Seq<char>, EntryInfo>,
    m2a: Map<Seq<char>, EntryInfo>,
    m2b: Map<Seq<char>, EntryInfo>,
    need: nat,
    ra: Seq<Seq<char>>,
    rb: Seq<Seq<char>>,
    fa: nat,
    fb: nat,
)
    requires
        evicted(m, m2a, need, ra, Seq::empty(), fa),
        evicted(m, m2b, need, rb, Seq::empty(), fb),
    ensures
        forall|k: Seq<char>| #[trigger] ra.contains(k) <==> rb.contains(k),
        m2a == m2b,
{
    lemma_removed_within(m, m2a, m2b, need, ra, rb, fa, fb);
    lemma_removed_within(m, m2b, m2a, need, rb, ra, fb, fa);
    assert(m2a =~= m2b);
}


/// An entry just written with a time later than every other entry's is the
/// last candidate for eviction: when every deletion succeeds and it is
/// removed all the same, every other entry went before it and their sizes
/// together fell short of the amount to free.
pub proof fn lemma_new_entry_kept(
    m: Map<Seq<char>, EntryInfo>,
    key: Seq<char>,
    size: u64,
    now: u64,
    m2: Map<Seq<char>, EntryInfo>,
    need: nat,
    removed: Seq<Seq<char>>,
    freed: nat,
)
    requires
        forall|k: Seq<char>| #[trigger] m.contains_key(k) && k != key ==> m[k].last_access < now,
        evicted(after_write(m, key, size, now), m2, need, removed, Seq::empty(), freed),
    ensures
        removed.contains(key) ==> m2.is_empty() && older_sizes(
            after_write(m, key, size, now),
            removed,
            key,
        ) < need,
{
    let mid = after_write(m, key, size, now);
    lemma_lru_eviction(mid, m2, need, removed, freed);
    if removed.contains(key) {
        assert(m2.dom() =~= Set::<Seq<char>>::empty()) by {
            assert forall|k: Seq<char>| !m2.contains_key(k) by {
                if m2.contains_key(k) {
                    assert(mid.contains_key(k));
                    assert(k != key);
                    assert(m.contains_key(k));
                    assert(lru_before(mid, k, key));
                }
            }
        }
    }
}

} // verus!
