//! The object store facade: commits held by id.  A commit is written once
//! and never changed; its id is the SHA-1 digest of its byte form, so equal
//! commits get equal ids on every run.

use vstd::prelude::*;
use crate::oid::{Oid, zero_oid_seq};
use crate::tree::{Tree, TreeRow, path_view};
use crate::codec::{le64, enc_str, push_u64, push_str_enc};
use crate::digest::{sha1_of, sha1_bytes};

verus! {

/// A commit: a tree, parent ids, and its metadata.
pub struct Commit {
    pub tree: Tree,
    pub parents: Vec<Oid>,
    pub author: String,
    pub committer: String,
    pub message: String,
}

impl Commit {
    /// A commit is well formed when its tree is and its parent ids are.
    pub open spec fn wf(self) -> bool {
        self.tree.wf() && forall|i: int|
            0 <= i < self.parents@.len() ==> (#[trigger] self.parents@[i]).wf()
    }
}

/// The byte form of one path, components length-prefixed.
pub open spec fn enc_path(p: Seq<Seq<char>>) -> Seq<u8>
    decreases p.len(),
{
    if p.len() == 0 {
        Seq::empty()
    } else {
        enc_path(p.drop_last()) + enc_str(p.last())
    }
}

/// The byte form of the rows of a tree.
pub open spec fn enc_rows(rows: Seq<TreeRow>) -> Seq<u8>
    decreases rows.len(),
{
    if rows.len() == 0 {
        Seq::empty()
    } else {
        enc_rows(rows.drop_last()) + le64(rows.last().pview().len() as u64) + enc_path(
            rows.last().pview(),
        ) + rows.last().oid@
    }
}

/// The byte form of the parent ids.
pub open spec fn enc_parents(ps: Seq<Oid>) -> Seq<u8>
    decreases ps.len(),
{
    if ps.len() == 0 {
        Seq::empty()
    } else {
        enc_parents(ps.drop_last()) + ps.last()@
    }
}

/// The byte form of a commit, which its id digests.
pub open spec fn enc_commit(c: Commit) -> Seq<u8> {
    le64(c.tree.rows_view().len() as u64) + enc_rows(c.tree.rows_view()) + le64(
        c.parents@.len() as u64,
    ) + enc_parents(c.parents@) + enc_str(c.author@) + enc_str(c.committer@) + enc_str(c.message@)
}

/// The id a commit gets: the digest of its byte form.
pub open spec fn commit_digest(c: Commit) -> Seq<u8> {
    sha1_of(enc_commit(c))
}

/// Whether two commits hold the same content: tree, parents and
/// metadata, compared by their views.
pub open spec fn commit_matches(a: Commit, b: Commit) -> bool {
    a.tree@ == b.tree@ && a.parents@.len() == b.parents@.len() && (forall|q: int|
        0 <= q < a.parents@.len() ==> (#[trigger] a.parents@[q])@ == b.parents@[q]@)
        && a.author@ == b.author@ && a.committer@ == b.committer@ && a.message@ == b.message@
}

/// One stored object.
pub struct OdbEntry {
    pub id: Oid,
    pub commit: Commit,
}

/// The object store: commits by id, in insertion order.  Parents of a
/// stored commit always stand earlier in the store.
pub struct Odb {
    objs: Vec<OdbEntry>,
}

/// Whether some entry among the first `n` carries the id `k`.
pub open spec fn objs_have(s: Seq<OdbEntry>, n: int, k: Seq<u8>) -> bool {
    exists|j: int| 0 <= j < n && (#[trigger] s[j]).id@ == k
}

/// The position of the entry with id `k` in the store.
pub open spec fn oid_index(s: Seq<OdbEntry>, k: Seq<u8>) -> int {
    choose|i: int| 0 <= i < s.len() && (#[trigger] s[i]).id@ == k
}

/// With distinct ids, the position of a stored id is its index.
pub proof fn lemma_oid_index(s: Seq<OdbEntry>, k: Seq<u8>, i: int)
    requires
        forall|a: int, b: int|
            0 <= a < s.len() && 0 <= b < s.len() && a != b ==> s[a].id@ != s[b].id@,
        0 <= i < s.len(),
        s[i].id@ == k,
    ensures
        oid_index(s, k) == i,
{
    assert(0 <= i < s.len() && s[i].id@ == k);
    let j = oid_index(s, k);
    assert(0 <= j < s.len() && s[j].id@ == k);
}

impl Odb {
    /// The stored entries, oldest first.
    pub closed spec fn objs_view(self) -> Seq<OdbEntry> {
        self.objs@
    }

    /// The commit stored under id `k`.
    pub open spec fn commit_of(self, k: Seq<u8>) -> Commit {
        self.objs_view()[oid_index(self.objs_view(), k)].commit
    }

    /// Whether an object with id `k` is stored.
    pub open spec fn has_oid(self, k: Seq<u8>) -> bool {
        objs_have(self.objs_view(), self.objs_view().len() as int, k)
    }

    /// Ids are distinct, entries are well formed, and every parent of a
    /// stored commit is stored earlier.
    pub open spec fn wf(self) -> bool {
        let s = self.objs_view();
        (forall|i: int, j: int|
            0 <= i < s.len() && 0 <= j < s.len() && i != j ==> s[i].id@ != s[j].id@)
            && (forall|i: int|
            0 <= i < s.len() ==> (#[trigger] s[i]).id.wf() && s[i].commit.wf() && s[i].id@
                != zero_oid_seq())
            && (forall|i: int, p: int|
            0 <= i < s.len() && 0 <= p < s[i].commit.parents@.len() ==> objs_have(
                s,
                i,
                (#[trigger] s[i].commit.parents@[p])@,
            ))
    }

    /// An empty store.
    pub fn new() -> (r: Odb)
        ensures
            r.wf(),
            r.objs_view().len() == 0,
    {
        Odb { objs: Vec::new() }
    }

    /// How many objects are stored.
    pub fn len(&self) -> (r: usize)
        ensures
            r == self.objs_view().len(),
    {
        self.objs.len()
    }

    /// Whether an object with this id exists in the store.
    pub fn contains(&self, oid: &Oid) -> (r: bool)
        requires
            self.wf(),
            oid.wf(),
        ensures
            r == self.has_oid(oid@),
    {
        let n = self.objs.len();
        let mut i: usize = 0;
        while i < n
            invariant
                self.wf(),
                oid.wf(),
                n == self.objs@.len(),
                i <= n,
                forall|j: int| 0 <= j < i ==> (#[trigger] self.objs@[j]).id@ != oid@,
            decreases n - i,
        {
            proof {
                assert(self.objs_view()[i as int].id.wf());
            }
            if self.objs[i].id.same(oid) {
                proof {
                    assert(objs_have(self.objs@, n as int, oid@));
                }
                return true;
            }
            i = i + 1;
        }
        false
    }

    /// The index of the object with this id, if stored.
    pub fn find(&self, oid: &Oid) -> (r: Option<usize>)
        requires
            self.wf(),
            oid.wf(),
        ensures
            match r {
                Some(i) => i < self.objs_view().len() && self.objs_view()[i as int].id@ == oid@
                    && self.has_oid(oid@),
                None => !self.has_oid(oid@),
            },
    {
        let n = self.objs.len();
        let mut i: usize = 0;
        while i < n
            invariant
                self.wf(),
                oid.wf(),
                n == self.objs@.len(),
                i <= n,
                forall|j: int| 0 <= j < i ==> (#[trigger] self.objs@[j]).id@ != oid@,
            decreases n - i,
        {
            proof {
                assert(self.objs_view()[i as int].id.wf());
            }
            if self.objs[i].id.same(oid) {
                proof {
                    assert(objs_have(self.objs@, n as int, oid@));
                }
                return Some(i);
            }
            i = i + 1;
        }
        None
    }

    /// A borrow of the commit stored at index `i`.
    pub fn commit_at(&self, i: usize) -> (r: &Commit)
        requires
            i < self.objs_view().len(),
        ensures
            *r == self.objs_view()[i as int].commit,
    {
        &self.objs[i].commit
    }

    /// Owned copies of the pieces of the commit stored at index `i`.
    pub fn commit_pieces(&self, i: usize) -> (r: (Tree, Vec<Oid>, String, String, String))
        requires
            self.wf(),
            i < self.objs_view().len(),
        ensures
            r.0.wf(),
            r.0@ == self.objs_view()[i as int].commit.tree@,
            r.1@.len() == self.objs_view()[i as int].commit.parents@.len(),
            forall|p: int|
                0 <= p < r.1@.len() ==> (#[trigger] r.1@[p])@ == self.objs_view()[
                    i as int].commit.parents@[p]@ && r.1@[p].wf(),
            r.2@ == self.objs_view()[i as int].commit.author@,
            r.3@ == self.objs_view()[i as int].commit.committer@,
            r.4@ == self.objs_view()[i as int].commit.message@,
    {
        proof {
            assert(self.objs_view()[i as int].commit.wf());
        }
        let c = &self.objs[i].commit;
        let tree = c.tree.dup();
        let mut parents: Vec<Oid> = Vec::new();
        let n = c.parents.len();
        let mut p: usize = 0;
        while p < n
            invariant
                self.wf(),
                i < self.objs@.len(),
                *c == self.objs@[i as int].commit,
                n == c.parents@.len(),
                p <= n,
                parents@.len() == p,
                forall|q: int|
                    0 <= q < p ==> (#[trigger] parents@[q])@ == c.parents@[q]@
                        && parents@[q].wf(),
            decreases n - p,
        {
            proof {
                assert(self.objs_view()[i as int].commit.wf());
                assert(c.parents@[p as int].wf());
            }
            parents.push(c.parents[p].dup());
            p = p + 1;
        }
        (tree, parents, c.author.clone(), c.committer.clone(), c.message.clone())
    }

    /// Whether the stored commit at index `i` holds the same content as
    /// `c`.
    fn commit_alike_at(&self, i: usize, c: &Commit) -> (r: bool)
        requires
            self.wf(),
            i < self.objs_view().len(),
            c.wf(),
        ensures
            r == commit_matches(self.objs_view()[i as int].commit, *c),
    {
        proof {
            assert(self.objs_view()[i as int].commit.wf());
        }
        let stored = &self.objs[i].commit;
        if !stored.tree.same(&c.tree) {
            return false;
        }
        if stored.parents.len() != c.parents.len() {
            return false;
        }
        let n = stored.parents.len();
        let mut q: usize = 0;
        while q < n
            invariant
                self.wf(),
                i < self.objs@.len(),
                c.wf(),
                *stored == self.objs@[i as int].commit,
                stored.tree@ == c.tree@,
                n == stored.parents@.len(),
                n == c.parents@.len(),
                q <= n,
                forall|x: int| 0 <= x < q ==> (#[trigger] stored.parents@[x])@ == c.parents@[x]@,
            decreases n - q,
        {
            proof {
                assert(self.objs_view()[i as int].commit.wf());
                assert(stored.parents@[q as int].wf());
                assert(c.parents@[q as int].wf());
            }
            if !stored.parents[q].same(&c.parents[q]) {
                return false;
            }
            q = q + 1;
        }
        stored.author.eq(&c.author) && stored.committer.eq(&c.committer) && stored.message.eq(
            &c.message,
        )
    }

    /// Write a commit and hand back its id: the digest of its byte form.
    /// A fresh digest stores the commit; an id already stored is reused
    /// only when it holds the same content, and the zero id comes back
    /// exactly when the digest is all zero or names different content.
    pub fn write_commit(&mut self, c: Commit) -> (r: Oid)
        requires
            old(self).wf(),
            c.wf(),
            forall|p: int|
                0 <= p < c.parents@.len() ==> old(self).has_oid((#[trigger] c.parents@[p])@),
        ensures
            final(self).wf(),
            r.wf(),
            r@ != zero_oid_seq() ==> r@ == commit_digest(c) && final(self).has_oid(r@)
                && commit_matches(final(self).commit_of(r@), c),
            r@ == zero_oid_seq() <==> (commit_digest(c) == zero_oid_seq() || (old(self).has_oid(
                commit_digest(c),
            ) && !commit_matches(old(self).commit_of(commit_digest(c)), c))),
            old(self).objs_view().len() <= final(self).objs_view().len(),
            forall|j: int|
                0 <= j < old(self).objs_view().len() ==> final(self).objs_view()[j] == old(
                    self,
                ).objs_view()[j],
            forall|k: Seq<u8>| old(self).has_oid(k) ==> final(self).has_oid(k),
    {
        let bytes = encode_commit(&c);
        let digest = sha1_bytes(&bytes);
        let oid = match Oid::from_bytes(digest) {
            Some(o) => o,
            None => {
                proof {
                    assert(false);
                }
                Oid::zero()
            },
        };
        if oid.is_zero() {
            // An all-zero digest never names an object.
            return oid;
        }
        match self.find(&oid) {
            Some(i) => {
                proof {
                    lemma_oid_index(self.objs_view(), oid@, i as int);
                }
                if self.commit_alike_at(i, &c) {
                    // the same content already stored under this id
                    oid
                } else {
                    // the digest names different content: refuse it
                    Oid::zero()
                }
            },
            None => {
                let ghost before = self.objs@;
                self.objs.push(OdbEntry { id: oid.dup(), commit: c });
                proof {
                    assert forall|k: Seq<u8>| objs_have(
                        before,
                        before.len() as int,
                        k,
                    ) implies objs_have(self.objs@, self.objs@.len() as int, k) by {
                        let j = choose|j: int|
                            0 <= j < before.len() && (#[trigger] before[j]).id@ == k;
                        assert((self.objs@[j]).id@ == k);
                    };
                    assert(objs_have(self.objs@, self.objs@.len() as int, oid@)) by {
                        assert((self.objs@[self.objs@.len() - 1]).id@ == oid@);
                    };
                    assert forall|i: int, p: int|
                        0 <= i < self.objs@.len() && 0 <= p
                        < self.objs@[i].commit.parents@.len() implies objs_have(
                        self.objs@,
                        i,
                        (#[trigger] self.objs@[i].commit.parents@[p])@,
                    ) by {
                        if i < before.len() {
                            assert(objs_have(before, i, before[i].commit.parents@[p]@));
                            let j = choose|j: int|
                                0 <= j < i && (#[trigger] before[j]).id@ == before[
                                    i].commit.parents@[p]@;
                            assert((self.objs@[j]).id@ == self.objs@[i].commit.parents@[p]@);
                        } else {
                            assert(objs_have(before, before.len() as int, c.parents@[p]@));
                            let j = choose|j: int|
                                0 <= j < before.len() && (#[trigger] before[j]).id@
                                    == c.parents@[p]@;
                            assert((self.objs@[j]).id@ == self.objs@[i].commit.parents@[p]@);
                        }
                    };
                    lemma_oid_index(self.objs@, oid@, self.objs@.len() - 1);
                    assert(self.commit_of(oid@) == c);
                }
                oid
            },
        }
    }
}

/// The byte form of a commit, matching `enc_commit`.
pub fn encode_commit(c: &Commit) -> (r: Vec<u8>)
    requires
        c.wf(),
    ensures
        r@ == enc_commit(*c),
{
    let mut out: Vec<u8> = Vec::new();
    let nrows = c.tree.row_count();
    push_u64(&mut out, nrows as u64);
    let ghost rows = c.tree.rows_view();
    let mut i: usize = 0;
    while i < nrows
        invariant
            c.wf(),
            rows == c.tree.rows_view(),
            nrows == rows.len(),
            nrows == c.tree@.dom().len(),
            i <= nrows,
            out@ == le64(rows.len() as u64) + enc_rows(rows.take(i as int)),
        decreases nrows - i,
    {
        let (path, oid) = c.tree.row_at(i);
        let ghost out_row_start = out@;
        push_u64(&mut out, path.len() as u64);
        let m = path.len();
        let mut k: usize = 0;
        while k < m
            invariant
                m == path@.len(),
                k <= m,
                out@ == out_row_start + le64(path@.len() as u64) + enc_path(
                    path_view(path@).take(k as int),
                ),
            decreases m - k,
        {
            push_str_enc(&mut out, path[k].as_str());
            proof {
                let pv = path_view(path@);
                assert(pv.take(k + 1).drop_last() =~= pv.take(k as int));
                assert(pv.take(k + 1).last() == path@[k as int]@);
                assert(out@ =~= out_row_start + le64(path@.len() as u64) + enc_path(
                    pv.take(k + 1),
                ));
            }
            k = k + 1;
        }
        push_bytes_raw(&mut out, oid.as_bytes());
        proof {
            let pv = path_view(path@);
            assert(pv.take(m as int) =~= pv);
            assert(rows.take(i + 1).drop_last() =~= rows.take(i as int));
            assert(rows.take(i + 1).last() == rows[i as int]);
            assert(out@ =~= le64(rows.len() as u64) + enc_rows(rows.take(i + 1)));
        }
        i = i + 1;
    }
    proof {
        assert(rows.take(nrows as int) =~= rows);
    }
    let np = c.parents.len();
    push_u64(&mut out, np as u64);
    let ghost out_par_start = out@;
    let mut p: usize = 0;
    while p < np
        invariant
            c.wf(),
            np == c.parents@.len(),
            p <= np,
            out@ == out_par_start + enc_parents(c.parents@.take(p as int)),
        decreases np - p,
    {
        push_bytes_raw(&mut out, c.parents[p].as_bytes());
        proof {
            assert(c.parents@.take(p + 1).drop_last() =~= c.parents@.take(p as int));
            assert(c.parents@.take(p + 1).last() == c.parents@[p as int]);
            assert(out@ =~= out_par_start + enc_parents(c.parents@.take(p + 1)));
        }
        p = p + 1;
    }
    proof {
        assert(c.parents@.take(np as int) =~= c.parents@);
    }
    push_str_enc(&mut out, c.author.as_str());
    push_str_enc(&mut out, c.committer.as_str());
    push_str_enc(&mut out, c.message.as_str());
    proof {
        assert(out@ =~= enc_commit(*c));
    }
    out
}

/// Append bytes without a length prefix.
fn push_bytes_raw(out: &mut Vec<u8>, b: &Vec<u8>)
    ensures
        final(out)@ == old(out)@ + b@,
{
    let n = b.len();
    let mut i: usize = 0;
    while i < n
        invariant
            n == b@.len(),
            i <= n,
            out@ == old(out)@ + b@.take(i as int),
        decreases n - i,
    {
        out.push(b[i]);
        proof {
            assert(out@ =~= old(out)@ + b@.take(i + 1));
        }
        i = i + 1;
    }
    proof {
        assert(b@.take(n as int) =~= b@);
    }
}

} // verus!
