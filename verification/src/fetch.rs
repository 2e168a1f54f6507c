//! The fetch coordinator's pure part: the credential cache, and the
//! decision whether an upstream fetch can be skipped.

use vstd::prelude::*;
use crate::refs::RefStore;

verus! {

/// How long a successful authentication stays fresh, in seconds.
pub const CREDENTIAL_TTL_SECS: u64 = 60;

/// One cached credential: the hash of (URL, user, password) and when it
/// last succeeded.
pub struct CredRow {
    pub key: String,
    pub time: u64,
}

/// The credential cache: hash of (URL, user, password) -> last success.
pub struct CredentialCache {
    rows: Vec<CredRow>,
}

/// The map described by a sequence of credential rows.
pub open spec fn cred_map(s: Seq<CredRow>) -> Map<Seq<char>, u64>
    decreases s.len(),
{
    if s.len() == 0 {
        Map::empty()
    } else {
        cred_map(s.drop_last()).insert(s.last().key@, s.last().time)
    }
}

/// Keys are pairwise distinct.
pub open spec fn cred_unique(s: Seq<CredRow>) -> bool {
    forall|i: int, j: int|
        0 <= i < s.len() && 0 <= j < s.len() && i != j ==> s[i].key@ != s[j].key@
}

/// A row present at index `j` is present in the map with its time.
proof fn lemma_cred_index(s: Seq<CredRow>, j: int)
    requires
        cred_unique(s),
        0 <= j < s.len(),
    ensures
        cred_map(s).contains_key(s[j].key@),
        cred_map(s)[s[j].key@] == s[j].time,
    decreases s.len(),
{
    if j == s.len() - 1 {
    } else {
        assert(s.drop_last()[j] == s[j]);
        lemma_cred_index(s.drop_last(), j);
    }
}

/// A key on no row is absent from the map.
proof fn lemma_cred_absent(s: Seq<CredRow>, k: Seq<char>)
    requires
        forall|j: int| 0 <= j < s.len() ==> (#[trigger] s[j]).key@ != k,
    ensures
        !cred_map(s).contains_key(k),
    decreases s.len(),
{
    if s.len() > 0 {
        assert(forall|j: int|
            0 <= j < s.drop_last().len() ==> (#[trigger] s.drop_last()[j]).key@ != k);
        lemma_cred_absent(s.drop_last(), k);
    }
}

impl View for CredentialCache {
    type V = Map<Seq<char>, u64>;

    closed spec fn view(&self) -> Map<Seq<char>, u64> {
        cred_map(self.rows@)
    }
}

impl CredentialCache {
    /// Well-formedness: keys distinct.
    pub closed spec fn wf(self) -> bool {
        cred_unique(self.rows@)
    }

    /// An empty credential cache.
    pub fn new() -> (r: CredentialCache)
        ensures
            r.wf(),
            r@ == Map::<Seq<char>, u64>::empty(),
    {
        CredentialCache { rows: Vec::new() }
    }

    /// The index of the row for `key`, if any.
    fn find_row(&self, key: &str) -> (r: Option<usize>)
        requires
            self.wf(),
        ensures
            match r {
                Some(i) => i < self.rows@.len() && self.rows@[i as int].key@ == key@
                    && self@.contains_key(key@) && self@[key@] == self.rows@[i as int].time,
                None => !self@.contains_key(key@),
            },
    {
        let k = key.to_owned();
        let n = self.rows.len();
        let mut i: usize = 0;
        while i < n
            invariant
                self.wf(),
                k@ == key@,
                n == self.rows@.len(),
                i <= n,
                forall|j: int| 0 <= j < i ==> (#[trigger] self.rows@[j]).key@ != key@,
            decreases n - i,
        {
            if self.rows[i].key.eq(&k) {
                proof {
                    lemma_cred_index(self.rows@, i as int);
                }
                return Some(i);
            }
            i = i + 1;
        }
        proof {
            lemma_cred_absent(self.rows@, key@);
        }
        None
    }

    /// The recorded last success for `key`, if any.
    pub fn last_success(&self, key: &str) -> (r: Option<u64>)
        requires
            self.wf(),
        ensures
            match r {
                Some(t) => self@.contains_key(key@) && t == self@[key@],
                None => !self@.contains_key(key@),
            },
    {
        match self.find_row(key) {
            Some(i) => Some(self.rows[i].time),
            None => None,
        }
    }

    /// Record a success for `key` at `now`, replacing what was there.
    pub fn record(&mut self, key: &str, now: u64)
        requires
            old(self).wf(),
        ensures
            final(self).wf(),
            final(self)@ == old(self)@.insert(key@, now),
    {
        match self.find_row(key) {
            Some(i) => {
                let ghost before = self.rows@;
                let row = cred_row_mut(&mut self.rows, i);
                row.time = now;
                proof {
                    lemma_cred_update_at(before, self.rows@, i as int);
                    assert(self@ =~= old(self)@.insert(key@, now));
                }
            },
            None => {
                let ghost before = self.rows@;
                proof {
                    assert forall|j: int| 0 <= j < before.len() implies (
                    #[trigger] before[j]).key@ != key@ by {
                        if before[j].key@ == key@ {
                            lemma_cred_index(before, j);
                        }
                    };
                }
                self.rows.push(CredRow { key: key.to_owned(), time: now });
                proof {
                    assert(self.rows@.drop_last() =~= before);
                    assert(self@ =~= old(self)@.insert(key@, now));
                    assert(cred_unique(self.rows@));
                }
            },
        }
    }

    /// Forget every entry: the flush endpoint.
    pub fn clear(&mut self)
        ensures
            final(self).wf(),
            final(self)@ == Map::<Seq<char>, u64>::empty(),
    {
        self.rows = Vec::new();
    }
}

/// A mutable borrow of one credential row.
fn cred_row_mut(rows: &mut Vec<CredRow>, i: usize) -> (r: &mut CredRow)
    requires
        i < old(rows)@.len(),
    ensures
        *r == old(rows)@[i as int],
        final(rows)@ == old(rows)@.update(i as int, *final(r)),
{
    &mut rows[i]
}

/// Renewing one row updates just that key of the map.
proof fn lemma_cred_update_at(before: Seq<CredRow>, after: Seq<CredRow>, i: int)
    requires
        cred_unique(before),
        0 <= i < before.len(),
        after.len() == before.len(),
        forall|j: int| 0 <= j < before.len() && j != i ==> after[j] == before[j],
        after[i].key@ == before[i].key@,
    ensures
        cred_unique(after),
        cred_map(after) =~= cred_map(before).insert(after[i].key@, after[i].time),
    decreases before.len(),
{
    assert forall|a: int, b: int|
        0 <= a < after.len() && 0 <= b < after.len() && a != b implies (
    #[trigger] after[a]).key@ != (#[trigger] after[b]).key@ by {
        assert(after[a].key@ == before[a].key@);
        assert(after[b].key@ == before[b].key@);
    };
    assert forall|k: Seq<char>| #[trigger]
        cred_map(after).contains_key(k) <==> cred_map(before).insert(
        after[i].key@,
        after[i].time,
    ).contains_key(k) by {
        lemma_cred_maps_agree(before, after, i, k);
    };
    assert forall|k: Seq<char>| #[trigger] cred_map(after).contains_key(k) implies cred_map(after)[
        k] == cred_map(before).insert(after[i].key@, after[i].time)[k] by {
        lemma_cred_maps_agree(before, after, i, k);
    };
}

/// Membership and values under a one-row update.
proof fn lemma_cred_maps_agree(before: Seq<CredRow>, after: Seq<CredRow>, i: int, k: Seq<char>)
    requires
        cred_unique(before),
        cred_unique(after),
        0 <= i < before.len(),
        after.len() == before.len(),
        forall|j: int| 0 <= j < before.len() && j != i ==> after[j] == before[j],
        after[i].key@ == before[i].key@,
    ensures
        cred_map(after).contains_key(k) == cred_map(before).insert(
            after[i].key@,
            after[i].time,
        ).contains_key(k),
        cred_map(after).contains_key(k) ==> cred_map(after)[k] == cred_map(before).insert(
            after[i].key@,
            after[i].time,
        )[k],
{
    if k == after[i].key@ {
        lemma_cred_index(after, i);
        lemma_cred_index(before, i);
    } else {
        assert forall|j: int| 0 <= j < after.len() && (#[trigger] after[j]).key@ == k implies
            cred_map(after).contains_key(k) && cred_map(after)[k] == after[j].time && cred_map(
            before,
        ).contains_key(k) && cred_map(before)[k] == after[j].time by {
            lemma_cred_index(after, j);
            lemma_cred_index(before, j);
        };
        if cred_map(after).contains_key(k) {
            lemma_cred_has_row(after, k);
        } else if cred_map(before).contains_key(k) {
            lemma_cred_has_row(before, k);
            let j = choose|j: int| 0 <= j < before.len() && (#[trigger] before[j]).key@ == k;
            lemma_cred_index(after, j);
        }
    }
}

/// Every key of the map stands on some row.
proof fn lemma_cred_has_row(s: Seq<CredRow>, k: Seq<char>)
    requires
        cred_map(s).contains_key(k),
    ensures
        exists|j: int| 0 <= j < s.len() && (#[trigger] s[j]).key@ == k,
    decreases s.len(),
{
    if s.len() > 0 {
        if s.last().key@ == k {
            assert(s[s.len() - 1].key@ == k);
        } else {
            lemma_cred_has_row(s.drop_last(), k);
            let j = choose|j: int|
                0 <= j < s.drop_last().len() && (#[trigger] s.drop_last()[j]).key@ == k;
            assert(s[j].key@ == k);
        }
    }
}

/// Whether the cached success for `key` is still fresh at `now`.
pub fn credentials_cached_ok(cache: &CredentialCache, key: &str, now_secs: u64) -> (r: bool)
    requires
        cache.wf(),
    ensures
        r == (cache@.contains_key(key@) && now_secs < cache@[key@] + CREDENTIAL_TTL_SECS),
{
    match cache.last_success(key) {
        Some(t) => {
            if now_secs >= t {
                now_secs - t < CREDENTIAL_TTL_SECS
            } else {
                true
            }
        },
        None => false,
    }
}

/// Whether an upstream fetch can be skipped: the credentials are fresh
/// and the wanted head ref already resolves locally.
pub fn fetch_can_skip(
    cache: &CredentialCache,
    key: &str,
    now_secs: u64,
    refs: &RefStore,
    headref: &str,
) -> (r: bool)
    requires
        cache.wf(),
        refs.wf(),
    ensures
        r == ((cache@.contains_key(key@) && now_secs < cache@[key@] + CREDENTIAL_TTL_SECS)
            && refs@.contains_key(headref@)),
{
    if credentials_cached_ok(cache, key, now_secs) {
        match refs.resolve(headref) {
            Some(_) => true,
            None => false,
        }
    } else {
        false
    }
}

/// How an upstream fetch ended.
pub enum FetchOutcome {
    /// The upstream accepted the credentials.
    Authorized,
    /// The upstream rejected them.
    Unauthorized,
    /// The fetch failed for another reason.
    Error,
}

/// The HTTP status the dispatcher answers with for each fetch outcome.
pub fn status_for_fetch(o: &FetchOutcome) -> (r: u16)
    ensures
        o is Authorized ==> r == 200,
        o is Unauthorized ==> r == 401,
        o is Error ==> r == 500,
{
    match o {
        FetchOutcome::Authorized => 200,
        FetchOutcome::Unauthorized => 401,
        FetchOutcome::Error => 500,
    }
}

} // verus!
