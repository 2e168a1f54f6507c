//! Refs and namespaces.  Every ref a request materializes lives under a
//! per-request namespace prefix, and releasing the namespace deletes every
//! ref under it, on every exit path.

use vstd::prelude::*;
use crate::oid::Oid;
use crate::filters::chars_vec;

verus! {

/// Whether the character sequence `s` starts with `p`.
pub open spec fn chars_start_with(s: Seq<char>, p: Seq<char>) -> bool {
    p.len() <= s.len() && s.take(p.len() as int) == p
}

/// One ref: a name pointing at an object.
pub struct RefRow {
    pub name: String,
    pub oid: Oid,
}

/// The refs of a repository, or of one namespace inside it.
pub struct RefStore {
    rows: Vec<RefRow>,
}

/// The map described by a sequence of ref rows.
pub open spec fn refs_map(s: Seq<RefRow>) -> Map<Seq<char>, Seq<u8>>
    decreases s.len(),
{
    if s.len() == 0 {
        Map::empty()
    } else {
        refs_map(s.drop_last()).insert(s.last().name@, s.last().oid@)
    }
}

/// Ref names are pairwise distinct.
pub open spec fn refs_unique(s: Seq<RefRow>) -> bool {
    forall|i: int, j: int|
        0 <= i < s.len() && 0 <= j < s.len() && i != j ==> s[i].name@ != s[j].name@
}

/// Every row holds a well-formed id.
pub open spec fn refs_oids_wf(s: Seq<RefRow>) -> bool {
    forall|i: int| 0 <= i < s.len() ==> (#[trigger] s[i]).oid.wf()
}

/// A row present at index `j` is present in the map with its id.
pub proof fn lemma_refs_index(s: Seq<RefRow>, j: int)
    requires
        refs_unique(s),
        0 <= j < s.len(),
    ensures
        refs_map(s).contains_key(s[j].name@),
        refs_map(s)[s[j].name@] == s[j].oid@,
    decreases s.len(),
{
    if j == s.len() - 1 {
    } else {
        assert(s.drop_last()[j] == s[j]);
        lemma_refs_index(s.drop_last(), j);
    }
}

/// A name on no row is absent from the map.
pub proof fn lemma_refs_absent(s: Seq<RefRow>, k: Seq<char>)
    requires
        forall|j: int| 0 <= j < s.len() ==> (#[trigger] s[j]).name@ != k,
    ensures
        !refs_map(s).contains_key(k),
    decreases s.len(),
{
    if s.len() > 0 {
        assert(forall|j: int|
            0 <= j < s.drop_last().len() ==> (#[trigger] s.drop_last()[j]).name@ != k);
        lemma_refs_absent(s.drop_last(), k);
    }
}

/// Every key of the map stands on some row.
pub proof fn lemma_refs_key_has_row(s: Seq<RefRow>, k: Seq<char>)
    requires
        refs_map(s).contains_key(k),
    ensures
        exists|j: int| 0 <= j < s.len() && (#[trigger] s[j]).name@ == k,
    decreases s.len(),
{
    if s.len() > 0 {
        if s.last().name@ == k {
            assert(s[s.len() - 1].name@ == k);
        } else {
            lemma_refs_key_has_row(s.drop_last(), k);
            let j = choose|j: int|
                0 <= j < s.drop_last().len() && (#[trigger] s.drop_last()[j]).name@ == k;
            assert(s[j].name@ == k);
        }
    }
}

/// Whether `name` starts with `pre`, character by character.
pub fn name_starts_with(name: &String, pre: &str) -> (r: bool)
    ensures
        r == chars_start_with(name@, pre@),
{
    let nc = chars_vec(name.as_str());
    let pc = chars_vec(pre);
    if pc.len() > nc.len() {
        return false;
    }
    let n = pc.len();
    let mut i: usize = 0;
    while i < n
        invariant
            nc@ == name@,
            pc@ == pre@,
            n == pc@.len(),
            n <= nc@.len(),
            i <= n,
            forall|j: int| 0 <= j < i ==> nc@[j] == pc@[j],
        decreases n - i,
    {
        if nc[i] != pc[i] {
            proof {
                assert(name@.take(pre@.len() as int)[i as int] != pre@[i as int]);
            }
            return false;
        }
        i = i + 1;
    }
    proof {
        assert(name@.take(pre@.len() as int) =~= pre@);
    }
    true
}

impl View for RefStore {
    type V = Map<Seq<char>, Seq<u8>>;

    closed spec fn view(&self) -> Map<Seq<char>, Seq<u8>> {
        refs_map(self.rows@)
    }
}

impl RefStore {
    /// Well-formedness: names distinct, ids well formed.
    pub closed spec fn wf(self) -> bool {
        refs_unique(self.rows@) && refs_oids_wf(self.rows@)
    }

    /// An empty ref store.
    pub fn new() -> (r: RefStore)
        ensures
            r.wf(),
            r@ == Map::<Seq<char>, Seq<u8>>::empty(),
    {
        RefStore { rows: Vec::new() }
    }

    /// The index of the row for `name`, if any.
    fn find_row(&self, name: &str) -> (r: Option<usize>)
        requires
            self.wf(),
        ensures
            match r {
                Some(i) => i < self.rows@.len() && self.rows@[i as int].name@ == name@
                    && self@.contains_key(name@) && self@[name@] == self.rows@[i as int].oid@,
                None => !self@.contains_key(name@),
            },
    {
        let key = name.to_owned();
        let n = self.rows.len();
        let mut i: usize = 0;
        while i < n
            invariant
                self.wf(),
                key@ == name@,
                n == self.rows@.len(),
                i <= n,
                forall|j: int| 0 <= j < i ==> (#[trigger] self.rows@[j]).name@ != name@,
            decreases n - i,
        {
            if self.rows[i].name.eq(&key) {
                proof {
                    lemma_refs_index(self.rows@, i as int);
                }
                return Some(i);
            }
            i = i + 1;
        }
        proof {
            lemma_refs_absent(self.rows@, name@);
        }
        None
    }

    /// The id a ref resolves to, if it exists.
    pub fn resolve(&self, name: &str) -> (r: Option<Oid>)
        requires
            self.wf(),
        ensures
            match r {
                Some(o) => self@.contains_key(name@) && o@ == self@[name@] && o.wf(),
                None => !self@.contains_key(name@),
            },
    {
        match self.find_row(name) {
            Some(i) => {
                proof {
                    assert(self.rows@[i as int].oid.wf());
                }
                Some(self.rows[i].oid.dup())
            },
            None => None,
        }
    }

    /// Point `name` at `oid`, replacing what was there.
    pub fn set_ref(&mut self, name: &str, oid: Oid)
        requires
            old(self).wf(),
            oid.wf(),
        ensures
            final(self).wf(),
            final(self)@ == old(self)@.insert(name@, oid@),
    {
        match self.find_row(name) {
            Some(i) => {
                let ghost before = self.rows@;
                let row = ref_row_mut(&mut self.rows, i);
                row.oid = oid;
                proof {
                    lemma_refs_update_at(before, self.rows@, i as int);
                    assert(self@ =~= old(self)@.insert(name@, oid@));
                }
            },
            None => {
                let ghost before = self.rows@;
                proof {
                    assert forall|j: int| 0 <= j < before.len() implies (
                    #[trigger] before[j]).name@ != name@ by {
                        if before[j].name@ == name@ {
                            lemma_refs_index(before, j);
                        }
                    };
                }
                self.rows.push(RefRow { name: name.to_owned(), oid });
                proof {
                    assert(self.rows@.drop_last() =~= before);
                    assert(self@ =~= old(self)@.insert(name@, oid@));
                    assert(refs_unique(self.rows@));
                    assert(refs_oids_wf(self.rows@));
                }
            },
        }
    }

    /// Delete every ref whose name starts with `pre`: the release of a
    /// namespace.  Runs on every exit path of a request.
    pub fn delete_prefix(&mut self, pre: &str)
        requires
            old(self).wf(),
        ensures
            final(self).wf(),
            forall|k: Seq<char>| #[trigger]
                final(self)@.contains_key(k) <==> (old(self)@.contains_key(k)
                    && !chars_start_with(k, pre@)),
            forall|k: Seq<char>| #[trigger]
                final(self)@.contains_key(k) ==> final(self)@[k] == old(self)@[k],
    {
        let mut kept: Vec<RefRow> = Vec::new();
        let n = self.rows.len();
        let mut i: usize = 0;
        while i < n
            invariant
                old(self).wf(),
                self.rows@ == old(self).rows@,
                n == self.rows@.len(),
                i <= n,
                refs_unique(kept@),
                refs_oids_wf(kept@),
                forall|k: Seq<char>| #[trigger]
                    refs_map(kept@).contains_key(k) <==> exists|j: int|
                        0 <= j < i && !chars_start_with((#[trigger] self.rows@[j]).name@, pre@)
                            && k == self.rows@[j].name@,
                forall|k: Seq<char>| #[trigger]
                    refs_map(kept@).contains_key(k) ==> old(self)@.contains_key(k) && refs_map(
                        kept@,
                    )[k] == old(self)@[k],
            decreases n - i,
        {
            if !name_starts_with(&self.rows[i].name, pre) {
                proof {
                    lemma_refs_index(self.rows@, i as int);
                    assert forall|j: int| 0 <= j < kept@.len() implies (
                    #[trigger] kept@[j]).name@ != self.rows@[i as int].name@ by {
                        if kept@[j].name@ == self.rows@[i as int].name@ {
                            lemma_refs_index(kept@, j);
                            let j2 = choose|j2: int|
                                0 <= j2 < i && !chars_start_with(
                                    (#[trigger] self.rows@[j2]).name@,
                                    pre@,
                                ) && kept@[j].name@ == self.rows@[j2].name@;
                            assert(self.rows@[j2].name@ == self.rows@[i as int].name@);
                        }
                    };
                    lemma_refs_absent(kept@, self.rows@[i as int].name@);
                }
                let ghost before = kept@;
                proof {
                    assert(self.rows@[i as int].oid.wf());
                }
                kept.push(
                    RefRow {
                        name: self.rows[i].name.clone(),
                        oid: self.rows[i].oid.dup(),
                    },
                );
                proof {
                    assert(kept@.drop_last() =~= before);
                    assert forall|k: Seq<char>| #[trigger] refs_map(kept@).contains_key(
                        k,
                    ) implies exists|j: int|
                        0 <= j < i + 1 && !chars_start_with(
                            (#[trigger] self.rows@[j]).name@,
                            pre@,
                        ) && k == self.rows@[j].name@ by {
                        if k == self.rows@[i as int].name@ {
                            assert(0 <= i < i + 1 && !chars_start_with(
                                self.rows@[i as int].name@,
                                pre@,
                            ) && k == self.rows@[i as int].name@);
                        } else {
                            assert(refs_map(before).contains_key(k));
                        }
                    };
                }
            }
            i = i + 1;
        }
        self.rows = kept;
        proof {
            assert forall|k: Seq<char>| #[trigger]
                self@.contains_key(k) <==> (old(self)@.contains_key(k) && !chars_start_with(
                k,
                pre@,
            )) by {
                if !self@.contains_key(k) && old(self)@.contains_key(k) && !chars_start_with(
                    k,
                    pre@,
                ) {
                    lemma_refs_key_has_row(old(self).rows@, k);
                }
            };
        }
    }

    /// Whether any ref's name starts with `pre`.
    pub fn any_with_prefix(&self, pre: &str) -> (r: bool)
        requires
            self.wf(),
        ensures
            r == exists|k: Seq<char>| #[trigger]
                self@.contains_key(k) && chars_start_with(k, pre@),
    {
        let n = self.rows.len();
        let mut i: usize = 0;
        while i < n
            invariant
                self.wf(),
                n == self.rows@.len(),
                i <= n,
                forall|j: int|
                    0 <= j < i ==> !chars_start_with((#[trigger] self.rows@[j]).name@, pre@),
            decreases n - i,
        {
            if name_starts_with(&self.rows[i].name, pre) {
                proof {
                    lemma_refs_index(self.rows@, i as int);
                    assert(self@.contains_key(self.rows@[i as int].name@) && chars_start_with(
                        self.rows@[i as int].name@,
                        pre@,
                    ));
                }
                return true;
            }
            i = i + 1;
        }
        proof {
            if exists|k: Seq<char>| #[trigger] self@.contains_key(k) && chars_start_with(k, pre@) {
                let k = choose|k: Seq<char>| #[trigger] self@.contains_key(k) && chars_start_with(
                    k,
                    pre@,
                );
                lemma_refs_key_has_row(self.rows@, k);
            }
        }
        false
    }
}

/// A mutable borrow of one ref row.
fn ref_row_mut(rows: &mut Vec<RefRow>, i: usize) -> (r: &mut RefRow)
    requires
        i < old(rows)@.len(),
    ensures
        *r == old(rows)@[i as int],
        final(rows)@ == old(rows)@.update(i as int, *final(r)),
{
    &mut rows[i]
}

/// Repointing one row updates just that name of the map.
proof fn lemma_refs_update_at(before: Seq<RefRow>, after: Seq<RefRow>, i: int)
    requires
        refs_unique(before),
        0 <= i < before.len(),
        after.len() == before.len(),
        forall|j: int| 0 <= j < before.len() && j != i ==> after[j] == before[j],
        after[i].name@ == before[i].name@,
    ensures
        refs_unique(after),
        refs_map(after) =~= refs_map(before).insert(after[i].name@, after[i].oid@),
    decreases before.len(),
{
    assert forall|a: int, b: int|
        0 <= a < after.len() && 0 <= b < after.len() && a != b implies (
    #[trigger] after[a]).name@ != (#[trigger] after[b]).name@ by {
        assert(after[a].name@ == before[a].name@);
        assert(after[b].name@ == before[b].name@);
    };
    assert forall|k: Seq<char>| #[trigger]
        refs_map(after).contains_key(k) <==> refs_map(before).insert(
        after[i].name@,
        after[i].oid@,
    ).contains_key(k) by {
        if refs_map(after).contains_key(k) {
            lemma_refs_key_has_row(after, k);
            let j = choose|j: int| 0 <= j < after.len() && (#[trigger] after[j]).name@ == k;
            if j != i {
                lemma_refs_index(before, j);
            }
        } else {
            if k == after[i].name@ {
                lemma_refs_index(after, i);
            } else if refs_map(before).contains_key(k) {
                lemma_refs_key_has_row(before, k);
                let j = choose|j: int| 0 <= j < before.len() && (#[trigger] before[j]).name@ == k;
                lemma_refs_index(after, j);
            }
        }
    };
    assert forall|k: Seq<char>| #[trigger] refs_map(after).contains_key(k) implies refs_map(after)[
        k] == refs_map(before).insert(after[i].name@, after[i].oid@)[k] by {
        lemma_refs_key_has_row(after, k);
        let j = choose|j: int| 0 <= j < after.len() && (#[trigger] after[j]).name@ == k;
        lemma_refs_index(after, j);
        if j != i {
            lemma_refs_index(before, j);
        }
    };
}

/// Releasing a namespace leaves no ref under its prefix: on success, on
/// error and on cancellation alike, since the release runs on every exit.
pub proof fn lemma_release_clears(before: RefStore, after: RefStore, pre: Seq<char>)
    requires
        forall|k: Seq<char>| #[trigger]
            after@.contains_key(k) <==> (before@.contains_key(k) && !chars_start_with(k, pre)),
    ensures
        forall|k: Seq<char>| #[trigger] after@.contains_key(k) ==> !chars_start_with(k, pre),
{
}

/// Refs under distinct namespaces of equal name length are invisible to
/// one another: no ref name lies under both prefixes.
pub proof fn lemma_namespaces_disjoint(p1: Seq<char>, p2: Seq<char>, k: Seq<char>)
    requires
        p1.len() == p2.len(),
        p1 != p2,
    ensures
        !(chars_start_with(k, p1) && chars_start_with(k, p2)),
{
    if chars_start_with(k, p1) && chars_start_with(k, p2) {
        assert(k.take(p1.len() as int) == p1);
        assert(k.take(p2.len() as int) == p2);
    }
}

} // verus!
