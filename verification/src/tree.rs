//! Trees: the content of a commit, modeled as a finite map from paths to
//! blob ids.  A path is a list of name components.  Filters transform trees
//! by keeping a subtree, wrapping under a prefix, or overlaying.

use vstd::prelude::*;
use crate::oid::Oid;

verus! {

/// The view of a path: its components as character sequences.
pub open spec fn path_view(p: Seq<String>) -> Seq<Seq<char>> {
    p.map_values(|s: String| s@)
}

/// Whether `p` starts with `q`, component by component.
pub open spec fn spec_starts_with(p: Seq<Seq<char>>, q: Seq<Seq<char>>) -> bool {
    q.len() <= p.len() && p.take(q.len() as int) == q
}

/// One entry of a tree: a path naming a blob.
pub struct TreeRow {
    pub path: Vec<String>,
    pub oid: Oid,
}

impl TreeRow {
    /// The view of this row's path.
    pub open spec fn pview(self) -> Seq<Seq<char>> {
        path_view(self.path@)
    }
}

/// A tree: a finite map from paths to blob ids.
pub struct Tree {
    rows: Vec<TreeRow>,
}

/// The map described by a sequence of rows; later rows would win, though a
/// well-formed tree never repeats a path.
pub open spec fn map_of(s: Seq<TreeRow>) -> Map<Seq<Seq<char>>, Seq<u8>>
    decreases s.len(),
{
    if s.len() == 0 {
        Map::empty()
    } else {
        map_of(s.drop_last()).insert(s.last().pview(), s.last().oid@)
    }
}

/// Row paths are pairwise distinct.
pub open spec fn rows_unique(s: Seq<TreeRow>) -> bool {
    forall|i: int, j: int|
        0 <= i < s.len() && 0 <= j < s.len() && i != j ==> s[i].pview() != s[j].pview()
}

/// Every row holds a well-formed id.
pub open spec fn rows_oids_wf(s: Seq<TreeRow>) -> bool {
    forall|i: int| 0 <= i < s.len() ==> (#[trigger] s[i]).oid.wf()
}

impl View for Tree {
    type V = Map<Seq<Seq<char>>, Seq<u8>>;

    closed spec fn view(&self) -> Map<Seq<Seq<char>>, Seq<u8>> {
        map_of(self.rows@)
    }
}

/// A row present at index `j` is present in the map with its id.
pub proof fn lemma_map_of_index(s: Seq<TreeRow>, j: int)
    requires
        rows_unique(s),
        0 <= j < s.len(),
    ensures
        map_of(s).contains_key(s[j].pview()),
        map_of(s)[s[j].pview()] == s[j].oid@,
    decreases s.len(),
{
    if j == s.len() - 1 {
    } else {
        assert(s.drop_last()[j] == s[j]);
        lemma_map_of_index(s.drop_last(), j);
    }
}

/// A path on no row is absent from the map.
pub proof fn lemma_map_of_absent(s: Seq<TreeRow>, k: Seq<Seq<char>>)
    requires
        forall|j: int| 0 <= j < s.len() ==> (#[trigger] s[j]).pview() != k,
    ensures
        !map_of(s).contains_key(k),
    decreases s.len(),
{
    if s.len() > 0 {
        assert(forall|j: int|
            0 <= j < s.drop_last().len() ==> (#[trigger] s.drop_last()[j]).pview() != k);
        lemma_map_of_absent(s.drop_last(), k);
    }
}

/// Every key of the map stands on some row.
pub proof fn lemma_map_of_key_has_row(s: Seq<TreeRow>, k: Seq<Seq<char>>)
    requires
        map_of(s).contains_key(k),
    ensures
        exists|j: int| 0 <= j < s.len() && (#[trigger] s[j]).pview() == k,
    decreases s.len(),
{
    if s.len() > 0 {
        if s.last().pview() == k {
            assert(s[s.len() - 1].pview() == k);
        } else {
            lemma_map_of_key_has_row(s.drop_last(), k);
            let j = choose|j: int|
                0 <= j < s.drop_last().len() && (#[trigger] s.drop_last()[j]).pview() == k;
            assert(s[j].pview() == k);
        }
    }
}

/// Compare two paths for equal views.
pub fn path_eq(a: &Vec<String>, b: &Vec<String>) -> (r: bool)
    ensures
        r == (path_view(a@) == path_view(b@)),
{
    if a.len() != b.len() {
        proof {
            assert(path_view(a@).len() != path_view(b@).len());
        }
        return false;
    }
    let n = a.len();
    let mut i: usize = 0;
    while i < n
        invariant
            n == a@.len(),
            n == b@.len(),
            i <= n,
            forall|j: int| 0 <= j < i ==> a@[j]@ == b@[j]@,
        decreases n - i,
    {
        if !a[i].eq(&b[i]) {
            proof {
                assert(path_view(a@)[i as int] != path_view(b@)[i as int]);
            }
            return false;
        }
        i = i + 1;
    }
    proof {
        assert(path_view(a@) =~= path_view(b@));
    }
    true
}

/// An owned copy of a path.
pub fn path_dup(a: &Vec<String>) -> (r: Vec<String>)
    ensures
        path_view(r@) == path_view(a@),
        r@.len() == a@.len(),
        forall|j: int| 0 <= j < a@.len() ==> (#[trigger] r@[j])@ == a@[j]@,
{
    let mut out: Vec<String> = Vec::new();
    let n = a.len();
    let mut i: usize = 0;
    while i < n
        invariant
            n == a@.len(),
            i <= n,
            out@.len() == i,
            forall|j: int| 0 <= j < i ==> out@[j]@ == a@[j]@,
        decreases n - i,
    {
        out.push(a[i].clone());
        i = i + 1;
    }
    proof {
        assert(path_view(out@) =~= path_view(a@));
    }
    out
}

/// Whether `path` starts with `pre`, component by component.
pub fn path_starts_with(path: &Vec<String>, pre: &Vec<String>) -> (r: bool)
    ensures
        r == spec_starts_with(path_view(path@), path_view(pre@)),
{
    if pre.len() > path.len() {
        return false;
    }
    let n = pre.len();
    let mut i: usize = 0;
    while i < n
        invariant
            n == pre@.len(),
            n <= path@.len(),
            i <= n,
            forall|j: int| 0 <= j < i ==> path@[j]@ == pre@[j]@,
        decreases n - i,
    {
        if !path[i].eq(&pre[i]) {
            proof {
                let pv = path_view(path@);
                let qv = path_view(pre@);
                assert(pv.take(qv.len() as int)[i as int] != qv[i as int]);
            }
            return false;
        }
        i = i + 1;
    }
    proof {
        assert(path_view(path@).take(path_view(pre@).len() as int) =~= path_view(pre@));
    }
    true
}

/// The path with the first `pre.len()` components removed.
pub fn path_strip(path: &Vec<String>, pre: &Vec<String>) -> (r: Vec<String>)
    requires
        pre@.len() <= path@.len(),
    ensures
        path_view(r@) == path_view(path@).skip(pre@.len() as int),
{
    let mut out: Vec<String> = Vec::new();
    let n = path.len();
    let mut i: usize = pre.len();
    while i < n
        invariant
            n == path@.len(),
            pre@.len() <= i <= n,
            out@.len() == i - pre@.len(),
            forall|j: int| 0 <= j < out@.len() ==> out@[j]@ == path@[j + pre@.len()]@,
        decreases n - i,
    {
        out.push(path[i].clone());
        i = i + 1;
    }
    proof {
        assert(path_view(out@) =~= path_view(path@).skip(pre@.len() as int));
    }
    out
}

/// `pre` followed by `path`.
pub fn path_join(pre: &Vec<String>, path: &Vec<String>) -> (r: Vec<String>)
    ensures
        path_view(r@) == path_view(pre@) + path_view(path@),
{
    let mut out: Vec<String> = path_dup(pre);
    let n = path.len();
    let mut i: usize = 0;
    while i < n
        invariant
            n == path@.len(),
            i <= n,
            out@.len() == pre@.len() + i,
            forall|j: int| 0 <= j < pre@.len() ==> out@[j]@ == pre@[j]@,
            forall|j: int| pre@.len() <= j < out@.len() ==> out@[j]@ == path@[j - pre@.len()]@,
        decreases n - i,
    {
        out.push(path[i].clone());
        i = i + 1;
    }
    proof {
        assert(path_view(out@) =~= path_view(pre@) + path_view(path@));
    }
    out
}

impl Tree {
    /// A tree is well formed when its paths are pairwise distinct and its
    /// ids are well formed.
    pub closed spec fn wf(self) -> bool {
        rows_unique(self.rows@) && rows_oids_wf(self.rows@)
    }

    /// The empty tree.
    pub fn new() -> (r: Tree)
        ensures
            r.wf(),
            r@ == Map::<Seq<Seq<char>>, Seq<u8>>::empty(),
    {
        Tree { rows: Vec::new() }
    }

    /// How many paths the tree holds.
    pub fn row_count(&self) -> (r: usize)
        requires
            self.wf(),
        ensures
            r == self@.dom().len(),
            r == self.rows_view().len(),
    {
        proof {
            lemma_map_of_card(self.rows@);
        }
        self.rows.len()
    }

    /// Whether the tree holds no path at all.
    pub fn is_empty(&self) -> (r: bool)
        requires
            self.wf(),
        ensures
            r == (self@ =~= Map::<Seq<Seq<char>>, Seq<u8>>::empty()),
    {
        let r = self.rows.len() == 0;
        proof {
            if self.rows@.len() == 0 {
            } else {
                lemma_map_of_index(self.rows@, 0);
            }
        }
        r
    }

    /// The index of the row holding `path`, if any.
    fn find_row(&self, path: &Vec<String>) -> (r: Option<usize>)
        requires
            self.wf(),
        ensures
            match r {
                Some(i) => i < self.rows@.len() && self.rows@[i as int].pview() == path_view(
                    path@,
                ) && self@.contains_key(path_view(path@)) && self@[path_view(path@)]
                    == self.rows@[i as int].oid@,
                None => !self@.contains_key(path_view(path@)),
            },
    {
        let n = self.rows.len();
        let mut i: usize = 0;
        while i < n
            invariant
                self.wf(),
                n == self.rows@.len(),
                i <= n,
                forall|j: int| 0 <= j < i ==> (#[trigger] self.rows@[j]).pview() != path_view(
                    path@,
                ),
            decreases n - i,
        {
            if path_eq(&self.rows[i].path, path) {
                proof {
                    lemma_map_of_index(self.rows@, i as int);
                }
                return Some(i);
            }
            i = i + 1;
        }
        proof {
            lemma_map_of_absent(self.rows@, path_view(path@));
        }
        None
    }

    /// The id stored at `path`, if any.
    pub fn get(&self, path: &Vec<String>) -> (r: Option<Oid>)
        requires
            self.wf(),
        ensures
            match r {
                Some(o) => self@.contains_key(path_view(path@)) && o@ == self@[path_view(path@)]
                    && o.wf(),
                None => !self@.contains_key(path_view(path@)),
            },
    {
        match self.find_row(path) {
            Some(i) => Some(self.rows[i].oid.dup()),
            None => None,
        }
    }

    /// Store `oid` at `path`, replacing what was there.
    pub fn put(&mut self, path: Vec<String>, oid: Oid)
        requires
            old(self).wf(),
            oid.wf(),
        ensures
            final(self).wf(),
            final(self)@ == old(self)@.insert(path_view(path@), oid@),
    {
        match self.find_row(&path) {
            Some(i) => {
                let ghost old_rows = self.rows@;
                let row = crate::tree::tree_row_mut(&mut self.rows, i);
                row.oid = oid;
                proof {
                    assert(self.rows@[i as int].pview() == old_rows[i as int].pview());
                    lemma_map_of_update_at(old_rows, self.rows@, i as int);
                    assert(self@ =~= old(self)@.insert(path_view(path@), oid@));
                    assert(rows_oids_wf(self.rows@));
                }
            },
            None => {
                let ghost old_rows = self.rows@;
                proof {
                    assert forall|j: int| 0 <= j < old_rows.len() implies (
                    #[trigger] old_rows[j]).pview() != path_view(path@) by {
                        if old_rows[j].pview() == path_view(path@) {
                            lemma_map_of_index(old_rows, j);
                        }
                    };
                }
                self.rows.push(TreeRow { path, oid });
                proof {
                    assert(self.rows@.drop_last() =~= old_rows);
                    assert(self@ =~= old(self)@.insert(path_view(path@), oid@));
                    assert(rows_unique(self.rows@));
                    assert(rows_oids_wf(self.rows@));
                }
            },
        }
    }

    /// An owned copy of the tree.
    pub fn dup(&self) -> (r: Tree)
        requires
            self.wf(),
        ensures
            r.wf(),
            r@ == self@,
    {
        let mut rows: Vec<TreeRow> = Vec::new();
        let n = self.rows.len();
        let mut i: usize = 0;
        while i < n
            invariant
                self.wf(),
                n == self.rows@.len(),
                i <= n,
                rows@.len() == i,
                forall|j: int| 0 <= j < i ==> (#[trigger] rows@[j]).pview()
                    == self.rows@[j].pview() && rows@[j].oid@ == self.rows@[j].oid@
                    && rows@[j].oid.wf(),
            decreases n - i,
        {
            rows.push(TreeRow { path: path_dup(&self.rows[i].path), oid: self.rows[i].oid.dup() });
            i = i + 1;
        }
        let r = Tree { rows };
        proof {
            lemma_map_of_congruent(r.rows@, self.rows@);
        }
        r
    }

    /// The rows of the tree in storage order, for stating digests and walks.
    pub closed spec fn rows_view(self) -> Seq<TreeRow> {
        self.rows@
    }

    /// The path stored on row `i`, for stating what a walk hands out.
    pub closed spec fn key_at(self, i: int) -> Seq<Seq<char>> {
        self.rows@[i].pview()
    }

    /// The keys handed out row by row are pairwise distinct and cover the map.
    pub proof fn lemma_keys(self)
        requires
            self.wf(),
        ensures
            forall|i: int| 0 <= i < self@.dom().len() ==> self@.contains_key(#[trigger] self.key_at(i)),
            forall|i: int, j: int|
                0 <= i < self@.dom().len() && 0 <= j < self@.dom().len() && i != j
                    ==> self.key_at(i) != self.key_at(j),
            forall|k: Seq<Seq<char>>| #[trigger]
                self@.contains_key(k) ==> exists|i: int|
                    0 <= i < self@.dom().len() && self.key_at(i) == k,
    {
        lemma_map_of_card(self.rows@);
        assert forall|i: int| 0 <= i < self@.dom().len() implies self@.contains_key(
            #[trigger] self.key_at(i),
        ) by {
            lemma_map_of_index(self.rows@, i);
        };
        assert forall|k: Seq<Seq<char>>| #[trigger] self@.contains_key(k) implies exists|i: int|
            0 <= i < self@.dom().len() && self.key_at(i) == k by {
            lemma_map_of_key_has_row(self.rows@, k);
            let j = choose|j: int| 0 <= j < self.rows@.len() && (#[trigger] self.rows@[j]).pview()
                == k;
            assert(self.key_at(j) == k);
        };
    }

    /// The rows of the tree, for walking its contents.
    pub fn row_at(&self, i: usize) -> (r: (Vec<String>, Oid))
        requires
            self.wf(),
            i < self@.dom().len(),
        ensures
            path_view(r.0@) == self.key_at(i as int),
            path_view(r.0@) == self.rows_view()[i as int].pview(),
            r.1@ == self.rows_view()[i as int].oid@,
            r.1.wf(),
            self@.contains_key(path_view(r.0@)),
            self@[path_view(r.0@)] == r.1@,
    {
        proof {
            lemma_map_of_card(self.rows@);
            lemma_map_of_index(self.rows@, i as int);
        }
        (path_dup(&self.rows[i].path), self.rows[i].oid.dup())
    }

    /// Keep only the subtree under `pre`, rebased to the root.
    pub fn subdir(&self, pre: &Vec<String>) -> (r: Tree)
        requires
            self.wf(),
        ensures
            r.wf(),
            forall|q: Seq<Seq<char>>| #[trigger]
                r@.contains_key(q) <==> self@.contains_key(path_view(pre@) + q),
            forall|q: Seq<Seq<char>>| #[trigger]
                r@.contains_key(q) ==> r@[q] == self@[path_view(pre@) + q],
    {
        let ghost prev = path_view(pre@);
        let mut r = Tree::new();
        let n = self.rows.len();
        let mut i: usize = 0;
        while i < n
            invariant
                self.wf(),
                r.wf(),
                prev == path_view(pre@),
                n == self.rows@.len(),
                i <= n,
                forall|q: Seq<Seq<char>>| #[trigger]
                    r@.contains_key(q) <==> exists|j: int|
                        0 <= j < i && spec_starts_with((#[trigger] self.rows@[j]).pview(), prev)
                            && q == self.rows@[j].pview().skip(prev.len() as int),
                forall|q: Seq<Seq<char>>| #[trigger]
                    r@.contains_key(q) ==> self@.contains_key(prev + q) && r@[q] == self@[prev
                        + q],
            decreases n - i,
        {
            if path_starts_with(&self.rows[i].path, pre) {
                let stripped = path_strip(&self.rows[i].path, pre);
                proof {
                    let sv = self.rows@[i as int].pview();
                    assert(prev + sv.skip(prev.len() as int) =~= sv);
                    lemma_map_of_index(self.rows@, i as int);
                }
                let o = self.rows[i].oid.dup();
                r.put(stripped, o);
                proof {
                    assert forall|q: Seq<Seq<char>>| #[trigger]
                        r@.contains_key(q) implies exists|j: int|
                        0 <= j < i + 1 && spec_starts_with(
                            (#[trigger] self.rows@[j]).pview(),
                            prev,
                        ) && q == self.rows@[j].pview().skip(prev.len() as int) by {
                        if q == self.rows@[i as int].pview().skip(prev.len() as int) {
                            assert(spec_starts_with(self.rows@[i as int].pview(), prev) && q
                                == self.rows@[i as int].pview().skip(prev.len() as int));
                        }
                    };
                }
            }
            i = i + 1;
        }
        proof {
            assert forall|q: Seq<Seq<char>>| #[trigger]
                r@.contains_key(q) <==> self@.contains_key(prev + q) by {
                if r@.contains_key(q) {
                } else {
                    if self@.contains_key(prev + q) {
                        lemma_map_of_key_has_row(self.rows@, prev + q);
                        let j = choose|j: int|
                            0 <= j < self.rows@.len() && (#[trigger] self.rows@[j]).pview() == prev
                                + q;
                        assert(spec_starts_with(self.rows@[j].pview(), prev)) by {
                            assert((prev + q).take(prev.len() as int) =~= prev);
                        };
                        assert(self.rows@[j].pview().skip(prev.len() as int) =~= q);
                    }
                }
            };
        }
        r
    }

    /// Wrap the whole tree under `pre`.
    pub fn prefix(&self, pre: &Vec<String>) -> (r: Tree)
        requires
            self.wf(),
        ensures
            r.wf(),
            forall|k: Seq<Seq<char>>| #[trigger]
                r@.contains_key(k) <==> (spec_starts_with(k, path_view(pre@))
                    && self@.contains_key(k.skip(path_view(pre@).len() as int))),
            forall|k: Seq<Seq<char>>| #[trigger]
                r@.contains_key(k) ==> r@[k] == self@[k.skip(path_view(pre@).len() as int)],
    {
        let ghost prev = path_view(pre@);
        let mut r = Tree::new();
        let n = self.rows.len();
        let mut i: usize = 0;
        while i < n
            invariant
                self.wf(),
                r.wf(),
                prev == path_view(pre@),
                n == self.rows@.len(),
                i <= n,
                forall|k: Seq<Seq<char>>| #[trigger]
                    r@.contains_key(k) <==> exists|j: int|
                        0 <= j < i && k == prev + (#[trigger] self.rows@[j]).pview(),
                forall|k: Seq<Seq<char>>| #[trigger]
                    r@.contains_key(k) ==> spec_starts_with(k, prev) && self@.contains_key(k.skip(
                        prev.len() as int,
                    )) && r@[k] == self@[k.skip(prev.len() as int)],
            decreases n - i,
        {
            let joined = path_join(pre, &self.rows[i].path);
            proof {
                let sv = self.rows@[i as int].pview();
                assert((prev + sv).take(prev.len() as int) =~= prev);
                assert((prev + sv).skip(prev.len() as int) =~= sv);
                lemma_map_of_index(self.rows@, i as int);
            }
            let o = self.rows[i].oid.dup();
            r.put(joined, o);
            proof {
                assert forall|k: Seq<Seq<char>>| #[trigger] r@.contains_key(k) implies exists|
                    j: int,
                |
                    0 <= j < i + 1 && k == prev + (#[trigger] self.rows@[j]).pview() by {
                    if k == prev + self.rows@[i as int].pview() {
                        assert(0 <= i < i + 1 && k == prev + self.rows@[i as int].pview());
                    }
                };
            }
            i = i + 1;
        }
        proof {
            assert forall|k: Seq<Seq<char>>| #[trigger]
                r@.contains_key(k) <==> (spec_starts_with(k, prev) && self@.contains_key(k.skip(
                prev.len() as int,
            ))) by {
                if !r@.contains_key(k) && spec_starts_with(k, prev) && self@.contains_key(k.skip(
                    prev.len() as int,
                )) {
                    lemma_map_of_key_has_row(self.rows@, k.skip(prev.len() as int));
                    let j = choose|j: int|
                        0 <= j < self.rows@.len() && (#[trigger] self.rows@[j]).pview() == k.skip(
                            prev.len() as int,
                        );
                    assert(k =~= prev + self.rows@[j].pview());
                }
            };
        }
        r
    }

    /// Overlay `self` onto `other`: on a shared path, `self` wins.
    pub fn overlay(&self, other: &Tree) -> (r: Tree)
        requires
            self.wf(),
            other.wf(),
        ensures
            r.wf(),
            forall|k: Seq<Seq<char>>| #[trigger]
                r@.contains_key(k) <==> (self@.contains_key(k) || other@.contains_key(k)),
            forall|k: Seq<Seq<char>>|
                self@.contains_key(k) ==> #[trigger] r@[k] == self@[k],
            forall|k: Seq<Seq<char>>|
                !self@.contains_key(k) && other@.contains_key(k) ==> #[trigger] r@[k] == other@[k],
    {
        let mut r = self.dup();
        let n = other.rows.len();
        let mut i: usize = 0;
        while i < n
            invariant
                self.wf(),
                other.wf(),
                r.wf(),
                n == other.rows@.len(),
                i <= n,
                forall|k: Seq<Seq<char>>| #[trigger]
                    r@.contains_key(k) <==> (self@.contains_key(k) || exists|j: int|
                        0 <= j < i && k == (#[trigger] other.rows@[j]).pview()),
                forall|k: Seq<Seq<char>>|
                    self@.contains_key(k) ==> #[trigger] r@[k] == self@[k],
                forall|k: Seq<Seq<char>>|
                    !self@.contains_key(k) && #[trigger] r@.contains_key(k) ==> r@[k] == other@[k],
            decreases n - i,
        {
            proof {
                lemma_map_of_index(other.rows@, i as int);
            }
            match self.find_row(&other.rows[i].path) {
                Some(_) => {
                    proof {
                        assert forall|k: Seq<Seq<char>>| #[trigger] r@.contains_key(k) implies (
                        self@.contains_key(k) || exists|j: int|
                            0 <= j < i + 1 && k == (#[trigger] other.rows@[j]).pview()) by {};
                    }
                },
                None => {
                    let p = path_dup(&other.rows[i].path);
                    let o = other.rows[i].oid.dup();
                    r.put(p, o);
                    proof {
                        assert forall|k: Seq<Seq<char>>| #[trigger] r@.contains_key(k) implies (
                        self@.contains_key(k) || exists|j: int|
                            0 <= j < i + 1 && k == (#[trigger] other.rows@[j]).pview()) by {
                            if k == other.rows@[i as int].pview() {
                                assert(0 <= i < i + 1 && k == other.rows@[i as int].pview());
                            }
                        };
                    }
                },
            }
            i = i + 1;
        }
        proof {
            assert forall|k: Seq<Seq<char>>| #[trigger]
                r@.contains_key(k) <==> (self@.contains_key(k) || other@.contains_key(k)) by {
                if other@.contains_key(k) {
                    lemma_map_of_key_has_row(other.rows@, k);
                }
                if r@.contains_key(k) && !self@.contains_key(k) {
                    let j = choose|j: int|
                        0 <= j < other.rows@.len() && k == (#[trigger] other.rows@[j]).pview();
                    lemma_map_of_index(other.rows@, j);
                }
            };
            assert forall|k: Seq<Seq<char>>|
                !self@.contains_key(k) && other@.contains_key(k) implies #[trigger] r@[k]
                == other@[k] by {
                assert(r@.contains_key(k));
            };
        }
        r
    }

    /// Replace the subtree under `pre` by `sub`, keeping all other paths.
    pub fn replace_at(&self, pre: &Vec<String>, sub: &Tree) -> (r: Tree)
        requires
            self.wf(),
            sub.wf(),
        ensures
            r.wf(),
            forall|k: Seq<Seq<char>>| #[trigger]
                r@.contains_key(k) <==> ((self@.contains_key(k) && !spec_starts_with(
                    k,
                    path_view(pre@),
                )) || (spec_starts_with(k, path_view(pre@)) && sub@.contains_key(k.skip(
                    path_view(pre@).len() as int,
                )))),
            forall|k: Seq<Seq<char>>| #[trigger]
                r@.contains_key(k) && !spec_starts_with(k, path_view(pre@)) ==> r@[k] == self@[k],
            forall|k: Seq<Seq<char>>| #[trigger]
                r@.contains_key(k) && spec_starts_with(k, path_view(pre@)) ==> r@[k] == sub@[k.skip(
                    path_view(pre@).len() as int,
                )],
    {
        let ghost prev = path_view(pre@);
        let wrapped = sub.prefix(pre);
        let mut kept = Tree::new();
        let n = self.rows.len();
        let mut i: usize = 0;
        while i < n
            invariant
                self.wf(),
                kept.wf(),
                prev == path_view(pre@),
                n == self.rows@.len(),
                i <= n,
                forall|k: Seq<Seq<char>>| #[trigger]
                    kept@.contains_key(k) <==> exists|j: int|
                        0 <= j < i && !spec_starts_with((#[trigger] self.rows@[j]).pview(), prev)
                            && k == self.rows@[j].pview(),
                forall|k: Seq<Seq<char>>| #[trigger]
                    kept@.contains_key(k) ==> self@.contains_key(k) && !spec_starts_with(k, prev)
                        && kept@[k] == self@[k],
            decreases n - i,
        {
            if !path_starts_with(&self.rows[i].path, pre) {
                proof {
                    lemma_map_of_index(self.rows@, i as int);
                }
                let p = path_dup(&self.rows[i].path);
                let o = self.rows[i].oid.dup();
                kept.put(p, o);
                proof {
                    assert forall|k: Seq<Seq<char>>| #[trigger] kept@.contains_key(k) implies
                        exists|j: int|
                        0 <= j < i + 1 && !spec_starts_with(
                            (#[trigger] self.rows@[j]).pview(),
                            prev,
                        ) && k == self.rows@[j].pview() by {
                        if k == self.rows@[i as int].pview() {
                            assert(0 <= i < i + 1 && !spec_starts_with(
                                self.rows@[i as int].pview(),
                                prev,
                            ) && k == self.rows@[i as int].pview());
                        }
                    };
                }
            }
            i = i + 1;
        }
        proof {
            assert forall|k: Seq<Seq<char>>| #[trigger]
                kept@.contains_key(k) <==> (self@.contains_key(k) && !spec_starts_with(k, prev)) by {
                if !kept@.contains_key(k) && self@.contains_key(k) && !spec_starts_with(k, prev) {
                    lemma_map_of_key_has_row(self.rows@, k);
                }
            };
        }
        let r = wrapped.overlay(&kept);
        r
    }

    /// Whether two trees hold the same map.
    pub fn same(&self, other: &Tree) -> (r: bool)
        requires
            self.wf(),
            other.wf(),
        ensures
            r == (self@ =~= other@),
    {
        if self.rows.len() != other.rows.len() {
            proof {
                lemma_map_of_card(self.rows@);
                lemma_map_of_card(other.rows@);
                if self@ =~= other@ {
                    assert(self@.dom() =~= other@.dom());
                }
            }
            return false;
        }
        let n = self.rows.len();
        let mut i: usize = 0;
        while i < n
            invariant
                self.wf(),
                other.wf(),
                n == self.rows@.len(),
                n == other.rows@.len(),
                i <= n,
                forall|j: int|
                    0 <= j < i ==> other@.contains_key((#[trigger] self.rows@[j]).pview())
                        && other@[self.rows@[j].pview()] == self.rows@[j].oid@,
            decreases n - i,
        {
            proof {
                lemma_map_of_index(self.rows@, i as int);
            }
            match other.find_row(&self.rows[i].path) {
                Some(k) => {
                    if !self.rows[i].oid.same(&other.rows[k].oid) {
                        return false;
                    }
                },
                None => {
                    return false;
                },
            }
            i = i + 1;
        }
        proof {
            lemma_map_of_card(self.rows@);
            lemma_map_of_card(other.rows@);
            assert forall|k: Seq<Seq<char>>| #[trigger] self@.contains_key(k) implies
                other@.contains_key(k) && other@[k] == self@[k] by {
                lemma_map_of_key_has_row(self.rows@, k);
                let j = choose|j: int|
                    0 <= j < self.rows@.len() && (#[trigger] self.rows@[j]).pview() == k;
                lemma_map_of_index(self.rows@, j);
            };
            assert(self@.dom() <= other@.dom());
            vstd::set_lib::lemma_len_subset(self@.dom(), other@.dom());
            assert forall|k: Seq<Seq<char>>| #[trigger] other@.contains_key(k) implies
                self@.contains_key(k) by {
                if !self@.contains_key(k) {
                    assert(self@.dom().insert(k) <= other@.dom());
                    vstd::set_lib::lemma_len_subset(self@.dom().insert(k), other@.dom());
                }
            };
        }
        true
    }
}

/// A mutable borrow of one row of a row list.
fn tree_row_mut(rows: &mut Vec<TreeRow>, i: usize) -> (r: &mut TreeRow)
    requires
        i < old(rows)@.len(),
    ensures
        *r == old(rows)@[i as int],
        final(rows)@ == old(rows)@.update(i as int, *final(r)),
{
    &mut rows[i]
}

/// Replacing the id on one row updates just that key of the map.
proof fn lemma_map_of_update_at(before: Seq<TreeRow>, after: Seq<TreeRow>, i: int)
    requires
        rows_unique(before),
        0 <= i < before.len(),
        after.len() == before.len(),
        forall|j: int| 0 <= j < before.len() && j != i ==> after[j] == before[j],
        after[i].pview() == before[i].pview(),
    ensures
        rows_unique(after),
        map_of(after) =~= map_of(before).insert(after[i].pview(), after[i].oid@),
    decreases before.len(),
{
    assert forall|a: int, b: int|
        0 <= a < after.len() && 0 <= b < after.len() && a != b implies (
    #[trigger] after[a]).pview() != (#[trigger] after[b]).pview() by {
        assert(after[a].pview() == before[a].pview());
        assert(after[b].pview() == before[b].pview());
    };
    assert forall|k: Seq<Seq<char>>| #[trigger]
        map_of(after).contains_key(k) <==> map_of(before).insert(
        after[i].pview(),
        after[i].oid@,
    ).contains_key(k) by {
        if map_of(after).contains_key(k) {
            lemma_map_of_key_has_row(after, k);
            let j = choose|j: int| 0 <= j < after.len() && (#[trigger] after[j]).pview() == k;
            if j != i {
                lemma_map_of_index(before, j);
            }
        } else {
            if k == after[i].pview() {
                lemma_map_of_index(after, i);
            } else if map_of(before).contains_key(k) {
                lemma_map_of_key_has_row(before, k);
                let j = choose|j: int| 0 <= j < before.len() && (#[trigger] before[j]).pview() == k;
                lemma_map_of_index(after, j);
            }
        }
    };
    assert forall|k: Seq<Seq<char>>| #[trigger] map_of(after).contains_key(k) implies map_of(after)[
        k] == map_of(before).insert(after[i].pview(), after[i].oid@)[k] by {
        lemma_map_of_key_has_row(after, k);
        let j = choose|j: int| 0 <= j < after.len() && (#[trigger] after[j]).pview() == k;
        lemma_map_of_index(after, j);
        if j != i {
            lemma_map_of_index(before, j);
        }
    };
}

/// Two row lists with pairwise equal paths and ids describe the same map.
proof fn lemma_map_of_congruent(a: Seq<TreeRow>, b: Seq<TreeRow>)
    requires
        a.len() == b.len(),
        forall|j: int| 0 <= j < a.len() ==> (#[trigger] a[j]).pview() == b[j].pview() && a[j].oid@
            == b[j].oid@,
    ensures
        map_of(a) == map_of(b),
    decreases a.len(),
{
    if a.len() > 0 {
        assert(forall|j: int|
            0 <= j < a.drop_last().len() ==> (#[trigger] a.drop_last()[j]).pview()
                == b.drop_last()[j].pview() && a.drop_last()[j].oid@ == b.drop_last()[j].oid@);
        lemma_map_of_congruent(a.drop_last(), b.drop_last());
        assert(map_of(a) =~= map_of(b));
    } else {
        assert(map_of(a) =~= map_of(b));
    }
}

/// With distinct paths, the map has exactly one key per row.
pub proof fn lemma_map_of_card(s: Seq<TreeRow>)
    requires
        rows_unique(s),
    ensures
        map_of(s).dom().finite(),
        map_of(s).dom().len() == s.len(),
    decreases s.len(),
{
    if s.len() > 0 {
        lemma_map_of_card(s.drop_last());
        lemma_map_of_absent(s.drop_last(), s.last().pview());
    }
}

} // verus!
