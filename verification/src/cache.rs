//! The filter cache: a persistent mapping (filter spec, source id) ->
//! target id.  A session cache shadows a global one: writes go to the
//! session, reads fall through to the upstream layer when absent.  The
//! identity filter `:nop` is never materialized: lookups short-circuit to
//! the source id.

use vstd::prelude::*;
use crate::oid::{Oid, zero_oid_seq};
use crate::odb::Odb;

verus! {

/// The version stamp of the persisted cache format.
pub const FORMAT_VERSION: u64 = 2;

/// The spelling of the identity filter.
pub open spec fn nop_seq() -> Seq<char> {
    ":nop"@
}

/// Whether `s` spells the identity filter.
pub fn is_nop(s: &str) -> (r: bool)
    ensures
        r == (s@ == nop_seq()),
{
    let a = s.to_owned();
    let b = (":nop").to_owned();
    a.eq(&b)
}

/// One recorded rewrite: under filter `key`, `from` became `to`.
pub struct CacheEntry {
    pub key: String,
    pub from: Oid,
    pub to: Oid,
}

/// A layer of the filter cache, with an optional upstream layer behind it.
pub struct FilterCache {
    entries: Vec<CacheEntry>,
    version: u64,
    upstream: Option<Box<FilterCache>>,
}

/// The map described by a sequence of entries.
pub open spec fn entries_map(s: Seq<CacheEntry>) -> Map<(Seq<char>, Seq<u8>), Seq<u8>>
    decreases s.len(),
{
    if s.len() == 0 {
        Map::empty()
    } else {
        entries_map(s.drop_last()).insert(
            (s.last().key@, s.last().from@),
            s.last().to@,
        )
    }
}

/// Entry keys are pairwise distinct.
pub open spec fn entries_unique(s: Seq<CacheEntry>) -> bool {
    forall|i: int, j: int|
        0 <= i < s.len() && 0 <= j < s.len() && i != j ==> !(s[i].key@ == s[j].key@ && s[i].from@
            == s[j].from@)
}

/// Every entry holds well-formed ids.
pub open spec fn entries_oids_wf(s: Seq<CacheEntry>) -> bool {
    forall|i: int| 0 <= i < s.len() ==> (#[trigger] s[i]).from.wf() && s[i].to.wf()
}

/// An entry present at index `j` is present in the map with its target.
pub proof fn lemma_entries_index(s: Seq<CacheEntry>, j: int)
    requires
        entries_unique(s),
        0 <= j < s.len(),
    ensures
        entries_map(s).contains_key((s[j].key@, s[j].from@)),
        entries_map(s)[(s[j].key@, s[j].from@)] == s[j].to@,
    decreases s.len(),
{
    if j == s.len() - 1 {
    } else {
        assert(s.drop_last()[j] == s[j]);
        lemma_entries_index(s.drop_last(), j);
    }
}

/// A key on no entry is absent from the map.
pub proof fn lemma_entries_absent(s: Seq<CacheEntry>, k: (Seq<char>, Seq<u8>))
    requires
        forall|j: int|
            0 <= j < s.len() ==> !((#[trigger] s[j]).key@ == k.0 && s[j].from@ == k.1),
    ensures
        !entries_map(s).contains_key(k),
    decreases s.len(),
{
    if s.len() > 0 {
        assert(forall|j: int|
            0 <= j < s.drop_last().len() ==> !((#[trigger] s.drop_last()[j]).key@ == k.0
                && s.drop_last()[j].from@ == k.1));
        lemma_entries_absent(s.drop_last(), k);
    }
}

/// Every key of the map stands on some entry.
pub proof fn lemma_entries_key_has_row(s: Seq<CacheEntry>, k: (Seq<char>, Seq<u8>))
    requires
        entries_map(s).contains_key(k),
    ensures
        exists|j: int|
            0 <= j < s.len() && (#[trigger] s[j]).key@ == k.0 && s[j].from@ == k.1,
    decreases s.len(),
{
    if s.len() > 0 {
        if s.last().key@ == k.0 && s.last().from@ == k.1 {
            assert(s[s.len() - 1].key@ == k.0 && s[s.len() - 1].from@ == k.1);
        } else {
            lemma_entries_key_has_row(s.drop_last(), k);
            let j = choose|j: int|
                0 <= j < s.drop_last().len() && (#[trigger] s.drop_last()[j]).key@ == k.0
                    && s.drop_last()[j].from@ == k.1;
            assert(s[j].key@ == k.0 && s[j].from@ == k.1);
        }
    }
}

/// With distinct keys, the map has exactly one key per entry.
pub proof fn lemma_entries_card(s: Seq<CacheEntry>)
    requires
        entries_unique(s),
    ensures
        entries_map(s).dom().finite(),
        entries_map(s).dom().len() == s.len(),
    decreases s.len(),
{
    if s.len() > 0 {
        lemma_entries_card(s.drop_last());
        lemma_entries_absent(s.drop_last(), (s.last().key@, s.last().from@));
    }
}

impl FilterCache {
    /// The entries this layer itself records.
    pub closed spec fn own(self) -> Map<(Seq<char>, Seq<u8>), Seq<u8>> {
        entries_map(self.entries@)
    }

    /// The upstream layer, if any.
    pub closed spec fn upstream_of(self) -> Option<Box<FilterCache>> {
        self.upstream
    }

    /// The recorded format version.
    pub closed spec fn version_of(self) -> u64 {
        self.version
    }

    /// Well-formedness of this layer and every layer behind it.
    pub closed spec fn wf(self) -> bool
        decreases self,
    {
        entries_unique(self.entries@) && entries_oids_wf(self.entries@) && match self.upstream {
            Some(u) => u.wf(),
            None => true,
        }
    }

    /// What a lookup returns: `:nop` short-circuits to the source, the own
    /// layer comes first, then the upstream chain, and an ultimate miss is
    /// the zero id.
    pub closed spec fn lookup(self, key: Seq<char>, from: Seq<u8>) -> Seq<u8>
        decreases self,
    {
        if key == nop_seq() {
            from
        } else if self.own().contains_key((key, from)) {
            self.own()[(key, from)]
        } else {
            match self.upstream {
                Some(u) => u.lookup(key, from),
                None => zero_oid_seq(),
            }
        }
    }

    /// Whether a lookup would be served from some layer, with its target
    /// still present in the object store (a pruned target counts as
    /// absent, forcing a rebuild).  `:nop` stands for the identity, so it
    /// is served whenever the source itself exists.
    pub closed spec fn has_spec(self, repo: Odb, key: Seq<char>, from: Seq<u8>) -> bool
        decreases self,
    {
        if key == nop_seq() {
            repo.has_oid(from)
        } else if self.own().contains_key((key, from)) {
            self.own()[(key, from)] == zero_oid_seq() || repo.has_oid(self.own()[(key, from)])
        } else {
            match self.upstream {
                Some(u) => u.has_spec(repo, key, from),
                None => false,
            }
        }
    }

    /// A fresh cache with no entries and no upstream.
    pub fn new() -> (r: FilterCache)
        ensures
            r.wf(),
            r.own() == Map::<(Seq<char>, Seq<u8>), Seq<u8>>::empty(),
            r.upstream_of() is None,
            r.version_of() == FORMAT_VERSION,
    {
        FilterCache { entries: Vec::new(), version: FORMAT_VERSION, upstream: None }
    }

    /// The index of the entry for (`key`, `from`) in this layer, if any.
    fn find_entry(&self, key: &String, from: &Oid) -> (r: Option<usize>)
        requires
            self.wf(),
            from.wf(),
        ensures
            match r {
                Some(i) => i < self.entries@.len() && self.entries@[i as int].key@ == key@
                    && self.entries@[i as int].from@ == from@ && self.own().contains_key(
                    (key@, from@),
                ) && self.own()[(key@, from@)] == self.entries@[i as int].to@,
                None => !self.own().contains_key((key@, from@)),
            },
    {
        let n = self.entries.len();
        let mut i: usize = 0;
        while i < n
            invariant
                self.wf(),
                from.wf(),
                n == self.entries@.len(),
                i <= n,
                forall|j: int|
                    0 <= j < i ==> !((#[trigger] self.entries@[j]).key@ == key@
                        && self.entries@[j].from@ == from@),
            decreases n - i,
        {
            proof {
                assert(self.entries@[i as int].from.wf());
            }
            if self.entries[i].key.eq(key) && self.entries[i].from.same(from) {
                proof {
                    lemma_entries_index(self.entries@, i as int);
                }
                return Some(i);
            }
            i = i + 1;
        }
        proof {
            lemma_entries_absent(self.entries@, (key@, from@));
        }
        None
    }

    /// Look a pair up, as `lookup` describes.
    pub fn get(&self, filter_spec: &str, from: &Oid) -> (r: Oid)
        requires
            self.wf(),
            from.wf(),
        ensures
            r.wf(),
            r@ == self.lookup(filter_spec@, from@),
        decreases *self,
    {
        if is_nop(filter_spec) {
            return from.dup();
        }
        let key = filter_spec.to_owned();
        match self.find_entry(&key, from) {
            Some(i) => {
                proof {
                    assert(self.entries@[i as int].to.wf());
                }
                self.entries[i].to.dup()
            },
            None => {
                match &self.upstream {
                    Some(u) => u.get(filter_spec, from),
                    None => Oid::zero(),
                }
            },
        }
    }

    /// Whether the pair is served by some layer with its target alive.
    pub fn has(&self, repo: &Odb, filter_spec: &str, from: &Oid) -> (r: bool)
        requires
            self.wf(),
            repo.wf(),
            from.wf(),
        ensures
            r == self.has_spec(*repo, filter_spec@, from@),
        decreases *self,
    {
        if is_nop(filter_spec) {
            return repo.contains(from);
        }
        let key = filter_spec.to_owned();
        match self.find_entry(&key, from) {
            Some(i) => {
                proof {
                    assert(self.entries@[i as int].to.wf());
                }
                let t = &self.entries[i].to;
                t.is_zero() || repo.contains(t)
            },
            None => {
                match &self.upstream {
                    Some(u) => u.has(repo, filter_spec, from),
                    None => false,
                }
            },
        }
    }

    /// Record (`key`, `from`) -> `to` in this layer alone.
    pub fn set(&mut self, filter_spec: &str, from: Oid, to: Oid)
        requires
            old(self).wf(),
            from.wf(),
            to.wf(),
        ensures
            final(self).wf(),
            final(self).own() == old(self).own().insert((filter_spec@, from@), to@),
            final(self).upstream_of() == old(self).upstream_of(),
            final(self).version_of() == old(self).version_of(),
    {
        let key = filter_spec.to_owned();
        match self.find_entry(&key, &from) {
            Some(i) => {
                let ghost before = self.entries@;
                let e = cache_entry_mut(&mut self.entries, i);
                e.to = to;
                proof {
                    lemma_entries_update_at(before, self.entries@, i as int);
                    assert(self.own() =~= old(self).own().insert((filter_spec@, from@), to@));
                }
            },
            None => {
                let ghost before = self.entries@;
                proof {
                    assert forall|j: int| 0 <= j < before.len() implies !((
                    #[trigger] before[j]).key@ == key@ && before[j].from@ == from@) by {
                        if before[j].key@ == key@ && before[j].from@ == from@ {
                            lemma_entries_index(before, j);
                        }
                    };
                }
                self.entries.push(CacheEntry { key, from, to });
                proof {
                    assert(self.entries@.drop_last() =~= before);
                    assert(self.own() =~= old(self).own().insert((filter_spec@, from@), to@));
                    assert(entries_unique(self.entries@));
                    assert(entries_oids_wf(self.entries@));
                }
            },
        }
    }

    /// Fold `other`'s own entries into this layer; on a shared key this
    /// layer's value wins, preserving already-validated entries.
    pub fn merge(&mut self, other: &FilterCache)
        requires
            old(self).wf(),
            other.wf(),
        ensures
            final(self).wf(),
            final(self).own() == other.own().union_prefer_right(old(self).own()),
            final(self).upstream_of() == old(self).upstream_of(),
            final(self).version_of() == old(self).version_of(),
    {
        let n = other.entries.len();
        proof {
            assert(self.own() =~= entries_map(other.entries@.take(0)).union_prefer_right(
                old(self).own(),
            ));
        }
        let mut i: usize = 0;
        while i < n
            invariant
                other.wf(),
                self.wf(),
                n == other.entries@.len(),
                i <= n,
                self.own() == entries_map(other.entries@.take(i as int)).union_prefer_right(
                    old(self).own(),
                ),
                self.upstream_of() == old(self).upstream_of(),
                self.version_of() == old(self).version_of(),
            decreases n - i,
        {
            proof {
                assert(other.entries@[i as int].from.wf() && other.entries@[i as int].to.wf());
                assert(other.entries@.take(i + 1).drop_last() =~= other.entries@.take(i as int));
            }
            let ekey = other.entries[i].key.clone();
            let efrom = other.entries[i].from.dup();
            let eto = other.entries[i].to.dup();
            match self.find_entry(&ekey, &efrom) {
                Some(_) => {
                    proof {
                        let pair = (other.entries@[i as int].key@, other.entries@[i as int].from@);
                        if entries_map(other.entries@.take(i as int)).contains_key(pair) {
                            lemma_entries_key_has_row(other.entries@.take(i as int), pair);
                            let j = choose|j: int|
                                0 <= j < i && (#[trigger] other.entries@.take(i as int)[j]).key@
                                    == pair.0 && other.entries@.take(i as int)[j].from@ == pair.1;
                            assert(other.entries@[j].key@ == pair.0 && other.entries@[j].from@
                                == pair.1);
                            assert(false);
                        }
                        assert(old(self).own().contains_key(pair));
                        assert(self.own() =~= entries_map(
                            other.entries@.take(i + 1),
                        ).union_prefer_right(old(self).own()));
                    }
                },
                None => {
                    self.set(ekey.as_str(), efrom, eto);
                    proof {
                        assert(self.own() =~= entries_map(
                            other.entries@.take(i + 1),
                        ).union_prefer_right(old(self).own()));
                    }
                },
            }
            i = i + 1;
        }
        proof {
            assert(other.entries@.take(n as int) =~= other.entries@);
        }
    }

    /// How many pairs this layer itself records.
    pub fn own_len(&self) -> (r: usize)
        requires
            self.wf(),
        ensures
            r == self.own().dom().len(),
    {
        proof {
            lemma_entries_card(self.entries@);
        }
        self.entries.len()
    }

    /// Per-filter entry counts, for the filters with at least two entries,
    /// and the total over exactly those filters; a filter with a single
    /// entry appears in neither.
    pub fn stats(&self) -> (r: (Vec<(String, usize)>, usize))
        requires
            self.wf(),
        ensures
            r.1 == multi_entry_count(self.entries_view(), self.entries_view().len() as int),
            forall|j: int|
                0 <= j < r.0@.len() ==> count_key(self.entries_view(), (#[trigger] r.0@[j]).0@)
                    == r.0@[j].1 && r.0@[j].1 >= 2,
            forall|k: Seq<char>| #[trigger]
                count_key(self.entries_view(), k) >= 2 ==> exists|j: int|
                    0 <= j < r.0@.len() && (#[trigger] r.0@[j]).0@ == k,
    {
        let n = self.entries.len();
        let mut rows: Vec<(String, usize)> = Vec::new();
        let mut total: usize = 0;
        let mut i: usize = 0;
        while i < n
            invariant
                self.wf(),
                n == self.entries@.len(),
                i <= n,
                total == multi_entry_count(self.entries@, i as int),
                total <= i,
                forall|j: int|
                    0 <= j < rows@.len() ==> count_key(self.entries@, (#[trigger] rows@[j]).0@)
                        == rows@[j].1 && rows@[j].1 >= 2,
                forall|j: int|
                    0 <= j < i && count_key(self.entries@, (#[trigger] self.entries@[j]).key@)
                        >= 2 ==> exists|x: int|
                        0 <= x < rows@.len() && (#[trigger] rows@[x]).0@ == self.entries@[j].key@,
            decreases n - i,
        {
            let mut seen = false;
            let mut k: usize = 0;
            while k < i
                invariant
                    self.wf(),
                    n == self.entries@.len(),
                    i < n,
                    k <= i,
                    seen == exists|j: int|
                        0 <= j < k && (#[trigger] self.entries@[j]).key@ == self.entries@[
                            i as int].key@,
                decreases i - k,
            {
                if self.entries[k].key.eq(&self.entries[i].key) {
                    proof {
                        assert((self.entries@[k as int]).key@ == self.entries@[i as int].key@);
                    }
                    seen = true;
                }
                k = k + 1;
            }
            let c = self.count_entries_with_key_inner(i);
            if c >= 2 {
                total = total + 1;
            }
            if !seen && c >= 2 {
                let ghost before = rows@;
                rows.push((self.entries[i].key.clone(), c));
                proof {
                    assert(forall|j: int|
                        0 <= j < before.len() ==> rows@[j] == before[j]);
                    assert((rows@[rows@.len() - 1]).0@ == self.entries@[i as int].key@);
                }
            }
            proof {
                assert forall|j: int|
                    0 <= j < i + 1 && count_key(
                        self.entries@,
                        (#[trigger] self.entries@[j]).key@,
                    ) >= 2 implies exists|x: int|
                    0 <= x < rows@.len() && (#[trigger] rows@[x]).0@ == self.entries@[j].key@ by {
                    if j == i as int && seen {
                        let j2 = choose|j2: int|
                            0 <= j2 < i && (#[trigger] self.entries@[j2]).key@ == self.entries@[
                                i as int].key@;
                        assert(count_key(self.entries@, self.entries@[j2].key@) >= 2);
                    }
                };
            }
            i = i + 1;
        }
        let r = (rows, total);
        proof {
            assert forall|k: Seq<char>| #[trigger]
                count_key(self.entries_view(), k) >= 2 implies exists|x: int|
                0 <= x < r.0@.len() && (#[trigger] r.0@[x]).0@ == k by {
                lemma_count_key_pos(self.entries@, k);
                let j = choose|j: int|
                    0 <= j < self.entries@.len() && (#[trigger] self.entries@[j]).key@ == k;
                assert(count_key(self.entries@, (self.entries@[j]).key@) >= 2);
                let x = choose|x: int|
                    0 <= x < r.0@.len() && (#[trigger] r.0@[x]).0@ == self.entries@[j].key@;
                assert(0 <= x < r.0@.len() && r.0@[x].0@ == k);
            };
        }
        r
    }

    /// The raw entries, for stating counts.
    pub closed spec fn entries_view(self) -> Seq<CacheEntry> {
        self.entries@
    }

    /// Count the entries sharing the key of entry `i`.
    fn count_entries_with_key_inner(&self, i: usize) -> (r: usize)
        requires
            self.wf(),
            i < self.entries_view().len(),
        ensures
            r == count_key(self.entries_view(), self.entries_view()[i as int].key@),
    {
        let n = self.entries.len();
        let mut c: usize = 0;
        let mut k: usize = 0;
        while k < n
            invariant
                self.wf(),
                i < n,
                n == self.entries@.len(),
                k <= n,
                c == count_key(self.entries@.take(k as int), self.entries@[i as int].key@),
                c <= k,
            decreases n - k,
        {
            proof {
                assert(self.entries@.take(k + 1).drop_last() =~= self.entries@.take(k as int));
            }
            if self.entries[k].key.eq(&self.entries[i].key) {
                c = c + 1;
            }
            k = k + 1;
        }
        proof {
            assert(self.entries@.take(n as int) =~= self.entries@);
        }
        c
    }
}

/// A positive per-key count names an entry with that key.
pub proof fn lemma_count_key_pos(s: Seq<CacheEntry>, k: Seq<char>)
    requires
        count_key(s, k) > 0,
    ensures
        exists|j: int| 0 <= j < s.len() && (#[trigger] s[j]).key@ == k,
    decreases s.len(),
{
    if s.last().key@ == k {
        assert(s[s.len() - 1].key@ == k);
    } else {
        lemma_count_key_pos(s.drop_last(), k);
        let j = choose|j: int|
            0 <= j < s.drop_last().len() && (#[trigger] s.drop_last()[j]).key@ == k;
        assert(s[j].key@ == k);
    }
}

/// How many of the first `i` entries belong to a filter with at least
/// two entries: the original total, which leaves single-entry filters out.
pub open spec fn multi_entry_count(s: Seq<CacheEntry>, i: int) -> nat
    decreases i,
{
    if i <= 0 {
        0
    } else {
        multi_entry_count(s, i - 1) + if count_key(s, s[i - 1].key@) >= 2 {
            1nat
        } else {
            0nat
        }
    }
}

/// How many entries carry the key `k`.
pub open spec fn count_key(s: Seq<CacheEntry>, k: Seq<char>) -> nat
    decreases s.len(),
{
    if s.len() == 0 {
        0
    } else {
        count_key(s.drop_last(), k) + if s.last().key@ == k {
            1nat
        } else {
            0nat
        }
    }
}

/// A mutable borrow of one entry of an entry list.
fn cache_entry_mut(entries: &mut Vec<CacheEntry>, i: usize) -> (r: &mut CacheEntry)
    requires
        i < old(entries)@.len(),
    ensures
        *r == old(entries)@[i as int],
        final(entries)@ == old(entries)@.update(i as int, *final(r)),
{
    &mut entries[i]
}

/// Replacing the target on one entry updates just that key of the map.
proof fn lemma_entries_update_at(before: Seq<CacheEntry>, after: Seq<CacheEntry>, i: int)
    requires
        entries_unique(before),
        0 <= i < before.len(),
        after.len() == before.len(),
        forall|j: int| 0 <= j < before.len() && j != i ==> after[j] == before[j],
        after[i].key@ == before[i].key@,
        after[i].from@ == before[i].from@,
    ensures
        entries_unique(after),
        entries_map(after) =~= entries_map(before).insert(
            (after[i].key@, after[i].from@),
            after[i].to@,
        ),
    decreases before.len(),
{
    assert forall|a: int, b: int|
        0 <= a < after.len() && 0 <= b < after.len() && a != b implies !((
    #[trigger] after[a]).key@ == after[b].key@ && after[a].from@ == (#[trigger] after[b]).from@) by {
        assert(after[a].key@ == before[a].key@ && after[a].from@ == before[a].from@);
        assert(after[b].key@ == before[b].key@ && after[b].from@ == before[b].from@);
    };
    let tgt = (after[i].key@, after[i].from@);
    assert forall|k: (Seq<char>, Seq<u8>)| #[trigger]
        entries_map(after).contains_key(k) <==> entries_map(before).insert(
        tgt,
        after[i].to@,
    ).contains_key(k) by {
        if entries_map(after).contains_key(k) {
            lemma_entries_key_has_row(after, k);
            let j = choose|j: int|
                0 <= j < after.len() && (#[trigger] after[j]).key@ == k.0 && after[j].from@ == k.1;
            if j != i {
                lemma_entries_index(before, j);
            }
        } else {
            if k == tgt {
                lemma_entries_index(after, i);
            } else if entries_map(before).contains_key(k) {
                lemma_entries_key_has_row(before, k);
                let j = choose|j: int|
                    0 <= j < before.len() && (#[trigger] before[j]).key@ == k.0 && before[j].from@
                        == k.1;
                lemma_entries_index(after, j);
            }
        }
    };
    assert forall|k: (Seq<char>, Seq<u8>)| #[trigger] entries_map(after).contains_key(k) implies
        entries_map(after)[k] == entries_map(before).insert(tgt, after[i].to@)[k] by {
        lemma_entries_key_has_row(after, k);
        let j = choose|j: int|
            0 <= j < after.len() && (#[trigger] after[j]).key@ == k.0 && after[j].from@ == k.1;
        lemma_entries_index(after, j);
        if j != i {
            lemma_entries_index(before, j);
        }
    };
}

/// The byte form of a sequence of cache entries.
pub open spec fn enc_entries(s: Seq<CacheEntry>) -> Seq<u8>
    decreases s.len(),
{
    if s.len() == 0 {
        Seq::empty()
    } else {
        enc_entries(s.drop_last()) + crate::codec::enc_str(s.last().key@) + s.last().from@
            + s.last().to@
    }
}

/// Whether `bytes` is the persisted form of the entry list `es`.
pub open spec fn encoded_as(bytes: Seq<u8>, es: Seq<CacheEntry>) -> bool {
    bytes == crate::codec::le64(FORMAT_VERSION) + crate::codec::le64(es.len() as u64)
        + enc_entries(es) && entries_oids_wf(es) && es.len() <= u64::MAX
}

/// The byte form of the entries from position `e` on.
pub open spec fn enc_from(es: Seq<CacheEntry>, e: int) -> Seq<u8>
    decreases es.len() - e,
{
    if e < 0 || e >= es.len() {
        Seq::empty()
    } else {
        crate::codec::enc_str(es[e].key@) + es[e].from@ + es[e].to@ + enc_from(es, e + 1)
    }
}

/// The byte form splits at any position.
proof fn lemma_enc_split(es: Seq<CacheEntry>, e: int)
    requires
        0 <= e <= es.len(),
    ensures
        enc_entries(es) == enc_entries(es.take(e)) + enc_from(es, e),
    decreases es.len() - e,
{
    if e == es.len() {
        assert(es.take(e) =~= es);
        assert(enc_entries(es.take(e)) + enc_from(es, e) =~= enc_entries(es));
    } else {
        lemma_enc_split(es, e + 1);
        assert(es.take(e + 1).drop_last() =~= es.take(e));
        assert(es.take(e + 1).last() == es[e]);
        assert(enc_entries(es.take(e + 1)) == enc_entries(es.take(e)) + crate::codec::enc_str(
            es[e].key@,
        ) + es[e].from@ + es[e].to@);
        assert(enc_entries(es.take(e)) + enc_from(es, e) =~= enc_entries(es.take(e + 1))
            + enc_from(es, e + 1));
    }
}

/// Equal little-endian byte forms name equal numbers.
proof fn lemma_le64_inj(a: u64, b: u64)
    requires
        crate::codec::le64(a) == crate::codec::le64(b),
    ensures
        a == b,
{
    assert(((8 * 0) as u64) == 0u64);
    assert(crate::codec::le64(a)[0] == (a >> 0u64) as u8);
    assert(crate::codec::le64(b)[0] == (b >> 0u64) as u8);
    assert((a >> 0u64) as u8 == (b >> 0u64) as u8);
    assert(((8 * 1) as u64) == 8u64);
    assert(crate::codec::le64(a)[1] == (a >> 8u64) as u8);
    assert(crate::codec::le64(b)[1] == (b >> 8u64) as u8);
    assert((a >> 8u64) as u8 == (b >> 8u64) as u8);
    assert(((8 * 2) as u64) == 16u64);
    assert(crate::codec::le64(a)[2] == (a >> 16u64) as u8);
    assert(crate::codec::le64(b)[2] == (b >> 16u64) as u8);
    assert((a >> 16u64) as u8 == (b >> 16u64) as u8);
    assert(((8 * 3) as u64) == 24u64);
    assert(crate::codec::le64(a)[3] == (a >> 24u64) as u8);
    assert(crate::codec::le64(b)[3] == (b >> 24u64) as u8);
    assert((a >> 24u64) as u8 == (b >> 24u64) as u8);
    assert(((8 * 4) as u64) == 32u64);
    assert(crate::codec::le64(a)[4] == (a >> 32u64) as u8);
    assert(crate::codec::le64(b)[4] == (b >> 32u64) as u8);
    assert((a >> 32u64) as u8 == (b >> 32u64) as u8);
    assert(((8 * 5) as u64) == 40u64);
    assert(crate::codec::le64(a)[5] == (a >> 40u64) as u8);
    assert(crate::codec::le64(b)[5] == (b >> 40u64) as u8);
    assert((a >> 40u64) as u8 == (b >> 40u64) as u8);
    assert(((8 * 6) as u64) == 48u64);
    assert(crate::codec::le64(a)[6] == (a >> 48u64) as u8);
    assert(crate::codec::le64(b)[6] == (b >> 48u64) as u8);
    assert((a >> 48u64) as u8 == (b >> 48u64) as u8);
    assert(((8 * 7) as u64) == 56u64);
    assert(crate::codec::le64(a)[7] == (a >> 56u64) as u8);
    assert(crate::codec::le64(b)[7] == (b >> 56u64) as u8);
    assert((a >> 56u64) as u8 == (b >> 56u64) as u8);
    assert((a >> 0u64) as u8 == (b >> 0u64) as u8 && (a >> 8u64) as u8 == (b >> 8u64) as u8 && (a
        >> 16u64) as u8 == (b >> 16u64) as u8 && (a >> 24u64) as u8 == (b >> 24u64) as u8 && (a
        >> 32u64) as u8 == (b >> 32u64) as u8 && (a >> 40u64) as u8 == (b >> 40u64) as u8 && (a
        >> 48u64) as u8 == (b >> 48u64) as u8 && (a >> 56u64) as u8 == (b >> 56u64) as u8 ==> a
        == b) by (bit_vector);
}

/// A subrange taken past a known prefix reads from the suffix.
proof fn lemma_concat_subrange(a: Seq<u8>, b: Seq<u8>, i: int, j: int)
    requires
        0 <= i <= j <= b.len(),
    ensures
        (a + b).subrange(a.len() + i, a.len() + j) =~= b.subrange(i, j),
{
}

/// What the persisted form fixes overall: its length and its two stamps.
proof fn lemma_decode_len(bytes: Seq<u8>, es: Seq<CacheEntry>)
    requires
        encoded_as(bytes, es),
    ensures
        bytes.len() == 16 + enc_entries(es).len(),
        bytes.subrange(0, 8) == crate::codec::le64(FORMAT_VERSION),
        bytes.subrange(8, 16) == crate::codec::le64(es.len() as u64),
{
    let v = crate::codec::le64(FORMAT_VERSION);
    let c = crate::codec::le64(es.len() as u64);
    assert(bytes.subrange(0, 8) =~= v);
    assert(bytes.subrange(8, 16) =~= c);
}

/// What the persisted form fixes at entry `e`: where its pieces lie.
proof fn lemma_decode_step(bytes: Seq<u8>, es: Seq<CacheEntry>, e: int)
    requires
        encoded_as(bytes, es),
        0 <= e < es.len(),
    ensures
        ({
            let pos = 16 + enc_entries(es.take(e)).len() as int;
            let kb = vstd::utf8::encode_utf8(es[e].key@);
            &&& pos + 8 + (kb.len() as int) + 40 <= bytes.len() as int
            &&& bytes.subrange(pos, pos + 8) == crate::codec::le64(kb.len() as u64)
            &&& bytes.subrange(pos + 8, pos + 8 + (kb.len() as int)) == kb
            &&& bytes.subrange(pos + 8 + (kb.len() as int), pos + 28 + (kb.len() as int)) == es[e].from@
            &&& bytes.subrange(pos + 28 + (kb.len() as int), pos + 48 + (kb.len() as int)) == es[e].to@
            &&& enc_entries(es.take(e + 1)).len() as int == enc_entries(es.take(e)).len() + 48
                + (kb.len() as int)
        }),
{
    let head = crate::codec::le64(FORMAT_VERSION) + crate::codec::le64(es.len() as u64);
    let pre = enc_entries(es.take(e));
    let pos = 16 + pre.len() as int;
    let kb = vstd::utf8::encode_utf8(es[e].key@);
    let entry = crate::codec::enc_str(es[e].key@) + es[e].from@ + es[e].to@;
    lemma_enc_split(es, e);
    lemma_enc_split(es, e + 1);
    assert(es.take(e + 1).drop_last() =~= es.take(e));
    assert(es.take(e + 1).last() == es[e]);
    assert(es[e].from@.len() == 20 && es[e].to@.len() == 20);
    let a = head + pre;
    assert((a.len() as int) == pos);
    assert(bytes =~= a + enc_from(es, e));
    assert(enc_from(es, e) =~= entry + enc_from(es, e + 1));
    assert((entry.len() as int) == 8 + (kb.len() as int) + 40);
    assert((bytes.len() as int) == pos + (entry.len() as int) + (enc_from(es, e + 1).len() as int));
    lemma_concat_subrange(a, enc_from(es, e), 0, 8);
    assert(enc_from(es, e).subrange(0, 8) =~= crate::codec::le64(kb.len() as u64));
    assert(bytes.subrange(pos, pos + 8) =~= (a + enc_from(es, e)).subrange(
        (a.len() as int) + 0,
        (a.len() as int) + 8,
    ));
    lemma_concat_subrange(a, enc_from(es, e), 8, 8 + kb.len() as int);
    assert(enc_from(es, e).subrange(8, 8 + kb.len() as int) =~= kb);
    assert(bytes.subrange(pos + 8, pos + 8 + (kb.len() as int)) =~= (a + enc_from(es, e)).subrange(
        (a.len() as int) + 8,
        (a.len() as int) + 8 + (kb.len() as int),
    ));
    lemma_concat_subrange(a, enc_from(es, e), 8 + kb.len() as int, 28 + kb.len() as int);
    assert(enc_from(es, e).subrange(8 + kb.len() as int, 28 + kb.len() as int) =~= es[e].from@);
    assert(bytes.subrange(pos + 8 + (kb.len() as int), pos + 28 + (kb.len() as int)) =~= (a + enc_from(
        es,
        e,
    )).subrange((a.len() as int) + 8 + (kb.len() as int), (a.len() as int) + 28 + (kb.len() as int)));
    lemma_concat_subrange(a, enc_from(es, e), 28 + kb.len() as int, 48 + kb.len() as int);
    assert(enc_from(es, e).subrange(28 + kb.len() as int, 48 + kb.len() as int) =~= es[e].to@);
    assert(bytes.subrange(pos + 28 + (kb.len() as int), pos + 48 + (kb.len() as int)) =~= (a + enc_from(
        es,
        e,
    )).subrange((a.len() as int) + 28 + (kb.len() as int), (a.len() as int) + 48 + (kb.len() as int)));
    assert(enc_entries(es.take(e + 1)) =~= pre + entry);
}

impl FilterCache {
    /// The versioned byte form of this layer's own entries, for the
    /// persisted map files.  The upstream is never persisted.
    pub fn encode(&self) -> (r: Vec<u8>)
        requires
            self.wf(),
        ensures
            r@ == crate::codec::le64(FORMAT_VERSION) + crate::codec::le64(
                self.entries_view().len() as u64,
            ) + enc_entries(self.entries_view()),
            encoded_as(r@, self.entries_view()),
    {
        let mut out: Vec<u8> = Vec::new();
        crate::codec::push_u64(&mut out, FORMAT_VERSION);
        let n = self.entries.len();
        crate::codec::push_u64(&mut out, n as u64);
        let ghost head = out@;
        let mut i: usize = 0;
        while i < n
            invariant
                self.wf(),
                n == self.entries@.len(),
                i <= n,
                head == crate::codec::le64(FORMAT_VERSION) + crate::codec::le64(
                    self.entries@.len() as u64,
                ),
                out@ == head + enc_entries(self.entries@.take(i as int)),
            decreases n - i,
        {
            proof {
                assert(self.entries@[i as int].from.wf() && self.entries@[i as int].to.wf());
                assert(self.entries@.take(i + 1).drop_last() =~= self.entries@.take(i as int));
                assert(self.entries@.take(i + 1).last() == self.entries@[i as int]);
            }
            crate::codec::push_str_enc(&mut out, self.entries[i].key.as_str());
            push_oid_bytes(&mut out, &self.entries[i].from);
            push_oid_bytes(&mut out, &self.entries[i].to);
            proof {
                assert(out@ =~= head + enc_entries(self.entries@.take(i + 1)));
            }
            i = i + 1;
        }
        proof {
            assert(self.entries@.take(n as int) =~= self.entries@);
        }
        out
    }

    /// Read a persisted map file back.  A missing or mismatched version
    /// stamp, or any malformed byte, yields a fresh empty cache: the file
    /// is a hint, never a ledger, so a bad one is silently rebuilt.  A
    /// file that is exactly the persisted form of an entry list loads
    /// that list.
    pub fn decode(bytes: &Vec<u8>) -> (r: FilterCache)
        ensures
            r.wf(),
            r.upstream_of() is None,
            r.version_of() == FORMAT_VERSION,
            bytes@.len() < 8 ==> r.own() == Map::<(Seq<char>, Seq<u8>), Seq<u8>>::empty(),
            bytes@.len() >= 8 && bytes@.subrange(0, 8) != crate::codec::le64(FORMAT_VERSION)
                ==> r.own() == Map::<(Seq<char>, Seq<u8>), Seq<u8>>::empty(),
            forall|es: Seq<CacheEntry>| #[trigger]
                encoded_as(bytes@, es) ==> r.own() == entries_map(es),
    {
        let empty = FilterCache::new();
        let version = match crate::codec::read_u64(bytes, 0) {
            Some(v) => v,
            None => {
                proof {
                    assert forall|es: Seq<CacheEntry>| #[trigger]
                        encoded_as(bytes@, es) implies false by {
                        lemma_decode_len(bytes@, es);
                    };
                }
                return empty;
            },
        };
        if version != FORMAT_VERSION {
            proof {
                assert(bytes@.subrange(0, 8) == crate::codec::le64(version));
                assert forall|es: Seq<CacheEntry>| #[trigger]
                    encoded_as(bytes@, es) implies false by {
                    lemma_decode_len(bytes@, es);
                    lemma_le64_inj(version, FORMAT_VERSION);
                };
            }
            return empty;
        }
        let count = match crate::codec::read_u64(bytes, 8) {
            Some(v) => v,
            None => {
                proof {
                    assert forall|es: Seq<CacheEntry>| #[trigger]
                        encoded_as(bytes@, es) implies false by {
                        lemma_decode_len(bytes@, es);
                    };
                }
                return empty;
            },
        };
        let mut r = FilterCache::new();
        let blen = bytes.len();
        let mut pos: usize = 16;
        let mut e: u64 = 0;
        proof {
            assert forall|es: Seq<CacheEntry>| #[trigger] encoded_as(bytes@, es) implies
                count as int == es.len() && enc_entries(es.take(0)).len() == 0 && r.own()
                == entries_map(es.take(0)) by {
                lemma_decode_len(bytes@, es);
                lemma_le64_inj(count, es.len() as u64);
                assert(es.take(0) =~= Seq::<CacheEntry>::empty());
                assert(entries_map(es.take(0)) =~= Map::<(Seq<char>, Seq<u8>), Seq<u8>>::empty());
            };
        }
        while e < count
            invariant
                r.wf(),
                r.upstream_of() is None,
                r.version_of() == FORMAT_VERSION,
                blen == bytes@.len(),
                pos <= bytes@.len(),
                e <= count,
                forall|es: Seq<CacheEntry>| #[trigger]
                    encoded_as(bytes@, es) ==> count as int == es.len() && e as int <= es.len()
                        && pos as int == 16 + enc_entries(es.take(e as int)).len() && r.own()
                        == entries_map(es.take(e as int)),
            decreases count - e,
        {
            let klen = match crate::codec::read_u64(bytes, pos) {
                Some(v) => v,
                None => {
                    proof {
                        assert forall|es: Seq<CacheEntry>| #[trigger]
                            encoded_as(bytes@, es) implies false by {
                            lemma_decode_step(bytes@, es, e as int);
                        };
                    }
                    return FilterCache::new();
                },
            };
            let pos2 = pos + 8;
            if klen > (bytes.len() - pos2) as u64 {
                proof {
                    assert forall|es: Seq<CacheEntry>| #[trigger]
                        encoded_as(bytes@, es) implies false by {
                        lemma_decode_step(bytes@, es, e as int);
                        let kb = vstd::utf8::encode_utf8(es[e as int].key@);
                        lemma_le64_inj(klen, kb.len() as u64);
                    };
                }
                return FilterCache::new();
            }
            let klen_u = klen as usize;
            let kbytes = copy_range(bytes, pos2, klen_u);
            let key = match crate::auth::utf8_to_string(kbytes) {
                Some(s) => s,
                None => {
                    proof {
                        assert forall|es: Seq<CacheEntry>| #[trigger]
                            encoded_as(bytes@, es) implies false by {
                            lemma_decode_step(bytes@, es, e as int);
                            let kb = vstd::utf8::encode_utf8(es[e as int].key@);
                            lemma_le64_inj(klen, kb.len() as u64);
                            assert(kbytes@ == kb);
                            vstd::utf8::encode_utf8_valid_utf8(es[e as int].key@);
                        };
                    }
                    return FilterCache::new();
                },
            };
            let pos3 = pos2 + klen_u;
            if bytes.len() - pos3 < 40 {
                proof {
                    assert forall|es: Seq<CacheEntry>| #[trigger]
                        encoded_as(bytes@, es) implies false by {
                        lemma_decode_step(bytes@, es, e as int);
                        let kb = vstd::utf8::encode_utf8(es[e as int].key@);
                        lemma_le64_inj(klen, kb.len() as u64);
                    };
                }
                return FilterCache::new();
            }
            let fbytes = copy_range(bytes, pos3, 20);
            let tbytes = copy_range(bytes, pos3 + 20, 20);
            let from = match Oid::from_bytes(fbytes) {
                Some(o) => o,
                None => {
                    proof {
                        assert(false);
                    }
                    return FilterCache::new();
                },
            };
            let to = match Oid::from_bytes(tbytes) {
                Some(o) => o,
                None => {
                    proof {
                        assert(false);
                    }
                    return FilterCache::new();
                },
            };
            let ghost r_before = r.own();
            r.set(key.as_str(), from, to);
            proof {
                assert forall|es: Seq<CacheEntry>| #[trigger] encoded_as(bytes@, es) implies
                    pos3 + 40 == 16 + enc_entries(es.take(e as int + 1)).len() && r.own()
                    == entries_map(es.take(e as int + 1)) by {
                    lemma_decode_step(bytes@, es, e as int);
                    let kb = vstd::utf8::encode_utf8(es[e as int].key@);
                    lemma_le64_inj(klen, kb.len() as u64);
                    assert(kbytes@ == kb);
                    vstd::utf8::encode_utf8_valid_utf8(es[e as int].key@);
                    vstd::utf8::encode_utf8_decode_utf8(es[e as int].key@);
                    assert(key@ == vstd::utf8::decode_utf8(kb));
                    assert(key@ == es[e as int].key@);
                    assert(from@ == es[e as int].from@);
                    assert(to@ == es[e as int].to@);
                    assert(es.take(e as int + 1).drop_last() =~= es.take(e as int));
                    assert(es.take(e as int + 1).last() == es[e as int]);
                    assert(entries_map(es.take(e as int + 1)) == entries_map(
                        es.take(e as int),
                    ).insert((es[e as int].key@, es[e as int].from@), es[e as int].to@));
                };
            }
            pos = pos3 + 40;
            e = e + 1;
        }
        proof {
            assert forall|es: Seq<CacheEntry>| #[trigger] encoded_as(bytes@, es) implies r.own()
                == entries_map(es) by {
                assert(es.take(e as int) =~= es);
            };
        }
        r
    }
}

/// Append the twenty raw bytes of an id.
fn push_oid_bytes(out: &mut Vec<u8>, oid: &Oid)
    requires
        oid.wf(),
    ensures
        final(out)@ == old(out)@ + oid@,
{
    let b = oid.as_bytes();
    let n = b.len();
    let mut i: usize = 0;
    while i < n
        invariant
            n == b@.len(),
            b@ == oid@,
            i <= n,
            out@ == old(out)@ + b@.take(i as int),
        decreases n - i,
    {
        out.push(b[i]);
        proof {
            assert(out@ =~= old(out)@ + b@.take(i + 1));
        }
        i = i + 1;
    }
    proof {
        assert(b@.take(n as int) =~= b@);
    }
}

/// An owned copy of `len` bytes starting at `pos`.
fn copy_range(bytes: &Vec<u8>, pos: usize, len: usize) -> (r: Vec<u8>)
    requires
        pos + len <= bytes@.len(),
    ensures
        r@ == bytes@.subrange(pos as int, pos + len),
{
    let mut out: Vec<u8> = Vec::new();
    let blen = bytes.len();
    let mut i: usize = 0;
    while i < len
        invariant
            blen == bytes@.len(),
            pos + len <= bytes@.len(),
            i <= len,
            out@ == bytes@.subrange(pos as int, pos + i),
        decreases len - i,
    {
        out.push(bytes[pos + i]);
        proof {
            assert(out@ =~= bytes@.subrange(pos as int, pos + i + 1));
        }
        i = i + 1;
    }
    out
}

/// Two entry lists with pairwise equal keys, sources and targets describe
/// the same map.
proof fn lemma_entries_congruent(a: Seq<CacheEntry>, b: Seq<CacheEntry>)
    requires
        a.len() == b.len(),
        forall|j: int|
            0 <= j < a.len() ==> (#[trigger] a[j]).key@ == b[j].key@ && a[j].from@ == b[j].from@
                && a[j].to@ == b[j].to@,
    ensures
        entries_map(a) == entries_map(b),
    decreases a.len(),
{
    if a.len() > 0 {
        assert(forall|j: int|
            0 <= j < a.drop_last().len() ==> (#[trigger] a.drop_last()[j]).key@
                == b.drop_last()[j].key@ && a.drop_last()[j].from@ == b.drop_last()[j].from@
                && a.drop_last()[j].to@ == b.drop_last()[j].to@);
        lemma_entries_congruent(a.drop_last(), b.drop_last());
        assert(entries_map(a) =~= entries_map(b));
    } else {
        assert(entries_map(a) =~= entries_map(b));
    }
}

impl FilterCache {
    /// Whether this cache records the same maps as `other`, layer for
    /// layer.
    pub closed spec fn mirrors(self, other: FilterCache) -> bool
        decreases self,
    {
        self.own() == other.own() && self.version_of() == other.version_of() && match (
        self.upstream, other.upstream) {
            (Some(a), Some(b)) => a.mirrors(*b),
            (None, None) => true,
            _ => false,
        }
    }

    /// Whether the upstream layer of this cache mirrors `g`.
    pub closed spec fn upstream_mirrors(self, g: FilterCache) -> bool {
        match self.upstream {
            Some(b) => b.mirrors(g),
            None => false,
        }
    }

    /// An owned copy of this cache, every layer included.
    pub fn dup(&self) -> (r: FilterCache)
        requires
            self.wf(),
        ensures
            r.wf(),
            r.mirrors(*self),
        decreases *self,
    {
        let mut entries: Vec<CacheEntry> = Vec::new();
        let n = self.entries.len();
        let mut i: usize = 0;
        while i < n
            invariant
                self.wf(),
                n == self.entries@.len(),
                i <= n,
                entries@.len() == i,
                forall|j: int|
                    0 <= j < i ==> (#[trigger] entries@[j]).key@ == self.entries@[j].key@
                        && entries@[j].from@ == self.entries@[j].from@ && entries@[j].to@
                        == self.entries@[j].to@ && entries@[j].from.wf() && entries@[j].to.wf(),
            decreases n - i,
        {
            proof {
                assert(self.entries@[i as int].from.wf() && self.entries@[i as int].to.wf());
            }
            entries.push(
                CacheEntry {
                    key: self.entries[i].key.clone(),
                    from: self.entries[i].from.dup(),
                    to: self.entries[i].to.dup(),
                },
            );
            i = i + 1;
        }
        proof {
            lemma_entries_congruent(entries@, self.entries@);
        }
        let upstream = match &self.upstream {
            Some(u) => Some(Box::new(u.dup())),
            None => None,
        };
        FilterCache { entries, version: self.version, upstream }
    }

    /// A fresh session layer in front of a copy of `u`: writes stay in the
    /// session, reads fall through.
    pub fn new_downstream(u: &FilterCache) -> (r: FilterCache)
        requires
            u.wf(),
        ensures
            r.wf(),
            r.own() == Map::<(Seq<char>, Seq<u8>), Seq<u8>>::empty(),
            r.version_of() == FORMAT_VERSION,
            r.upstream_mirrors(*u),
    {
        FilterCache {
            entries: Vec::new(),
            version: FORMAT_VERSION,
            upstream: Some(Box::new(u.dup())),
        }
    }
}

/// Mirroring caches answer every lookup alike.
pub proof fn lemma_mirrors_lookup(a: FilterCache, b: FilterCache, key: Seq<char>, from: Seq<u8>)
    requires
        a.mirrors(b),
    ensures
        a.lookup(key, from) == b.lookup(key, from),
    decreases a,
{
    if key == nop_seq() {
    } else if a.own().contains_key((key, from)) {
    } else {
        match (a.upstream_of(), b.upstream_of()) {
            (Some(x), Some(y)) => {
                lemma_mirrors_lookup(*x, *y, key, from);
            },
            _ => {},
        }
    }
}

/// A session layer with no writes of its own answers as its upstream does.
pub proof fn lemma_downstream_lookup(r: FilterCache, u: FilterCache, key: Seq<char>, from: Seq<u8>)
    requires
        r.own() == Map::<(Seq<char>, Seq<u8>), Seq<u8>>::empty(),
        r.upstream_mirrors(u),
    ensures
        r.lookup(key, from) == u.lookup(key, from),
{
    if key == nop_seq() {
    } else {
        assert(!r.own().contains_key((key, from)));
        match r.upstream_of() {
            Some(b) => {
                lemma_mirrors_lookup(*b, u, key, from);
            },
            None => {},
        }
    }
}

/// Publish a session pair into the global pair.  `acquired` says whether
/// both global write locks were obtained; a contended lock discards the
/// session's work, which the next run recomputes.
pub fn try_merge_both(
    forward_maps: &mut FilterCache,
    backward_maps: &mut FilterCache,
    fm: &FilterCache,
    bm: &FilterCache,
    acquired: bool,
)
    requires
        old(forward_maps).wf(),
        old(backward_maps).wf(),
        fm.wf(),
        bm.wf(),
    ensures
        final(forward_maps).wf(),
        final(backward_maps).wf(),
        acquired ==> final(forward_maps).own() == fm.own().union_prefer_right(
            old(forward_maps).own(),
        ) && final(backward_maps).own() == bm.own().union_prefer_right(old(backward_maps).own()),
        !acquired ==> *final(forward_maps) == *old(forward_maps) && *final(backward_maps) == *old(
            backward_maps,
        ),
        final(forward_maps).upstream_of() == old(forward_maps).upstream_of(),
        final(backward_maps).upstream_of() == old(backward_maps).upstream_of(),
{
    if acquired {
        backward_maps.merge(bm);
        forward_maps.merge(fm);
    }
}

/// After a publish, every pair the session recorded stands in the global
/// map: with the value the global already had, or else with the session's.
/// A skipped publish leaves both globals unchanged.  On a pair where the
/// two maps disagree the global's value survives.
pub proof fn lemma_try_merge_both_publishes(
    gf_old: Map<(Seq<char>, Seq<u8>), Seq<u8>>,
    gf_new: Map<(Seq<char>, Seq<u8>), Seq<u8>>,
    sess: Map<(Seq<char>, Seq<u8>), Seq<u8>>,
    acquired: bool,
)
    requires
        acquired ==> gf_new == sess.union_prefer_right(gf_old),
        !acquired ==> gf_new == gf_old,
        forall|k: (Seq<char>, Seq<u8>)|
            sess.contains_key(k) && gf_old.contains_key(k) ==> gf_old[k] == #[trigger] sess[k],
    ensures
        acquired ==> forall|k: (Seq<char>, Seq<u8>)| #[trigger]
            sess.contains_key(k) ==> gf_new.contains_key(k) && gf_new[k] == sess[k],
        !acquired ==> gf_new == gf_old,
{
}

/// For the identity filter, a pair is served exactly when the source
/// itself exists in the store.
pub proof fn lemma_has_nop(c: FilterCache, repo: Odb, from: Seq<u8>)
    ensures
        c.has_spec(repo, nop_seq(), from) == repo.has_oid(from),
{
}

/// A pair this layer itself records is looked up from it.
pub proof fn lemma_lookup_own(c: FilterCache, key: Seq<char>, from: Seq<u8>)
    requires
        key != nop_seq(),
        c.own().contains_key((key, from)),
    ensures
        c.lookup(key, from) == c.own()[(key, from)],
{
}

/// A pair this layer itself records is served exactly when its target is
/// the zero id or an object the store holds.
pub proof fn lemma_has_spec_own(c: FilterCache, repo: Odb, key: Seq<char>, from: Seq<u8>)
    requires
        key != nop_seq(),
        c.own().contains_key((key, from)),
    ensures
        c.has_spec(repo, key, from) == (c.own()[(key, from)] == zero_oid_seq() || repo.has_oid(
            c.own()[(key, from)],
        )),
{
}

/// Recording one pair changes no other pair's lookup or serving.
pub proof fn lemma_insert_preserves(
    pre: FilterCache,
    post: FilterCache,
    pk: (Seq<char>, Seq<u8>),
    pv: Seq<u8>,
    k: Seq<char>,
    f2: Seq<u8>,
    repo: Odb,
)
    requires
        post.own() == pre.own().insert(pk, pv),
        post.upstream_of() == pre.upstream_of(),
        (k, f2) != pk,
    ensures
        post.lookup(k, f2) == pre.lookup(k, f2),
        post.has_spec(repo, k, f2) == pre.has_spec(repo, k, f2),
{
}

/// A larger object store serves at least the pairs a smaller one does.
pub proof fn lemma_has_spec_monotone(
    c: FilterCache,
    repo1: Odb,
    repo2: Odb,
    k: Seq<char>,
    f2: Seq<u8>,
)
    requires
        forall|x: Seq<u8>| #[trigger] repo1.has_oid(x) ==> repo2.has_oid(x),
    ensures
        c.has_spec(repo1, k, f2) ==> c.has_spec(repo2, k, f2),
    decreases c,
{
    if k == nop_seq() {
    } else if c.own().contains_key((k, f2)) {
    } else {
        match c.upstream_of() {
            Some(u) => {
                lemma_has_spec_monotone(*u, repo1, repo2, k, f2);
            },
            None => {},
        }
    }
}

/// `:nop` is the identity: a lookup hands the source back and never reads
/// the stored map.
pub proof fn lemma_nop_lookup(c: FilterCache, from: Seq<u8>)
    ensures
        c.lookup(nop_seq(), from) == from,
{
}

/// A pair that `has_spec` serves is either mapped to the zero id or to an
/// object that the store holds.
pub proof fn lemma_has_valid(c: FilterCache, repo: Odb, key: Seq<char>, from: Seq<u8>)
    requires
        c.has_spec(repo, key, from),
    ensures
        c.lookup(key, from) == zero_oid_seq() || repo.has_oid(c.lookup(key, from)),
    decreases c,
{
    if key == nop_seq() {
    } else if c.own().contains_key((key, from)) {
    } else {
        match c.upstream_of() {
            Some(u) => {
                lemma_has_valid(*u, repo, key, from);
            },
            None => {},
        }
    }
}

} // verus!
