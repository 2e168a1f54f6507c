//! The rewriter: apply a filter to commits in the object store, memoized
//! through the filter cache, recording the inverse for push-back.  Parents
//! are filtered first; zero results are dropped, duplicates collapsed, and
//! a commit whose filtered tree equals its sole filtered parent's tree is
//! elided onto that parent.

use vstd::prelude::*;
use crate::oid::{Oid, zero_oid_seq};
use crate::odb::{Odb, Commit, objs_have, oid_index, lemma_oid_index, commit_matches};
use crate::cache::{FilterCache, nop_seq};
use crate::filters::{Filter, apply_tree, apply_spec, print_spec};
use crate::refs::RefStore;

verus! {

/// Whether some id in the list has the bytes `k`.
pub open spec fn oids_contain(s: Seq<Oid>, k: Seq<u8>) -> bool {
    exists|j: int| 0 <= j < s.len() && (#[trigger] s[j])@ == k
}

/// The byte views of a list of ids.
pub open spec fn oid_views(s: Seq<Oid>) -> Seq<Seq<u8>> {
    s.map_values(|o: Oid| o@)
}

/// The filtered parents a commit gets under `key`: each parent's recorded
/// image, zero results dropped and duplicates collapsed, in order.
pub open spec fn filtered_parents(fm: FilterCache, key: Seq<char>, parents: Seq<Oid>) -> Seq<
    Seq<u8>,
>
    decreases parents.len(),
{
    if parents.len() == 0 {
        Seq::empty()
    } else {
        let rest = filtered_parents(fm, key, parents.drop_last());
        let v = fm.lookup(key, parents.last()@);
        if v == zero_oid_seq() || rest.contains(v) {
            rest
        } else {
            rest.push(v)
        }
    }
}

/// Caches answering alike on parents with the same ids produce the same
/// filtered parent list.
pub proof fn lemma_filtered_parents_congruent(
    fm1: FilterCache,
    fm2: FilterCache,
    key: Seq<char>,
    ps1: Seq<Oid>,
    ps2: Seq<Oid>,
)
    requires
        ps1.len() == ps2.len(),
        forall|q: int| 0 <= q < ps1.len() ==> (#[trigger] ps1[q])@ == ps2[q]@,
        forall|q: int|
            0 <= q < ps1.len() ==> fm1.lookup(key, (#[trigger] ps1[q])@) == fm2.lookup(
                key,
                ps1[q]@,
            ),
    ensures
        filtered_parents(fm1, key, ps1) == filtered_parents(fm2, key, ps2),
    decreases ps1.len(),
{
    if ps1.len() > 0 {
        assert(forall|q: int|
            0 <= q < ps1.drop_last().len() ==> (#[trigger] ps1.drop_last()[q])@
                == ps2.drop_last()[q]@);
        assert forall|q: int| 0 <= q < ps1.drop_last().len() implies fm1.lookup(
            key,
            (#[trigger] ps1.drop_last()[q])@,
        ) == fm2.lookup(key, ps1.drop_last()[q]@) by {
            assert(ps1.drop_last()[q] == ps1[q]);
        };
        lemma_filtered_parents_congruent(fm1, fm2, key, ps1.drop_last(), ps2.drop_last());
        assert(ps1.last()@ == ps2.last()@);
    }
}

/// Whether the list holds an id with the bytes of `oid`.
fn oid_in_vec(v: &Vec<Oid>, oid: &Oid) -> (r: bool)
    requires
        oid.wf(),
        forall|j: int| 0 <= j < v@.len() ==> (#[trigger] v@[j]).wf(),
    ensures
        r == oids_contain(v@, oid@),
        r == oid_views(v@).contains(oid@),
{
    let n = v.len();
    let mut i: usize = 0;
    while i < n
        invariant
            oid.wf(),
            forall|j: int| 0 <= j < v@.len() ==> (#[trigger] v@[j]).wf(),
            n == v@.len(),
            i <= n,
            forall|j: int| 0 <= j < i ==> (#[trigger] v@[j])@ != oid@,
        decreases n - i,
    {
        if v[i].same(oid) {
            proof {
                assert(oids_contain(v@, oid@));
                assert(oid_views(v@)[i as int] == oid@);
            }
            return true;
        }
        i = i + 1;
    }
    proof {
        if oid_views(v@).contains(oid@) {
            let j = choose|j: int|
                0 <= j < oid_views(v@).len() && oid_views(v@)[j] == oid@;
            assert(v@[j]@ == oid@);
        }
    }
    false
}

/// Filter one commit, and first its ancestors, memoized through `fm`.
/// A pair already served by the cache is reused and nothing changes: a
/// repeated run returns the same id, so filtering is stable.  A fresh run
/// applies the filter to the source's tree, drops zero filtered parents
/// and duplicates, elides onto a sole filtered parent with the same tree,
/// and otherwise stores a commit with the filtered tree, the filtered
/// parents and the source's metadata; the result is recorded forward in
/// `fm` and, when an object came out, backward in `bm` for push-back.
/// (A fresh nonempty tree yields the zero id only in the digest corner
/// that `Odb::write_commit` names: an all-zero digest, or one colliding
/// with different stored content.)
#[verifier::rlimit(100)]
pub fn filter_commit(
    odb: &mut Odb,
    f: &Filter,
    fspec: &str,
    src: &Oid,
    fm: &mut FilterCache,
    bm: &mut FilterCache,
) -> (r: Oid)
    requires
        old(odb).wf(),
        old(fm).wf(),
        old(bm).wf(),
        src.wf(),
        old(odb).has_oid(src@),
        fspec@ == print_spec(*f),
    ensures
        final(odb).wf(),
        final(fm).wf(),
        final(bm).wf(),
        r.wf(),
        old(odb).objs_view().len() <= final(odb).objs_view().len(),
        forall|j: int|
            0 <= j < old(odb).objs_view().len() ==> final(odb).objs_view()[j] == old(
                odb,
            ).objs_view()[j],
        forall|k: Seq<u8>| old(odb).has_oid(k) ==> final(odb).has_oid(k),
        final(fm).has_spec(*final(odb), fspec@, src@),
        r@ == final(fm).lookup(fspec@, src@),
        r@ == zero_oid_seq() || final(odb).has_oid(r@),
        old(fm).has_spec(*old(odb), fspec@, src@) ==> *final(odb) == *old(odb) && *final(fm)
            == *old(fm) && *final(bm) == *old(bm) && r@ == old(fm).lookup(fspec@, src@),
        !old(fm).has_spec(*old(odb), fspec@, src@) ==> ({
            let c = old(odb).commit_of(src@);
            let ftree = apply_spec(*f, c.tree@);
            let fps = filtered_parents(*final(fm), fspec@, c.parents@);
            &&& (ftree =~= Map::<Seq<Seq<char>>, Seq<u8>>::empty() ==> r@ == zero_oid_seq())
            &&& (!(ftree =~= Map::<Seq<Seq<char>>, Seq<u8>>::empty()) && fps.len() == 1
                && final(odb).commit_of(fps[0]).tree@ == ftree ==> r@ == fps[0])
            &&& (r@ != zero_oid_seq() ==> final(odb).commit_of(r@).tree@ == ftree)
            &&& (r@ != zero_oid_seq() && !(fps.len() == 1 && final(odb).commit_of(fps[0]).tree@
                == ftree) ==> ({
                let rc = final(odb).commit_of(r@);
                &&& rc.parents@.len() == fps.len()
                &&& (forall|q: int|
                    0 <= q < fps.len() ==> (#[trigger] rc.parents@[q])@ == fps[q])
                &&& rc.author@ == c.author@
                &&& rc.committer@ == c.committer@
                &&& rc.message@ == c.message@
            }))
            &&& (r@ != zero_oid_seq() ==> final(bm).lookup(fspec@, r@) == src@)
        }),
        forall|k: Seq<char>, s2: Seq<u8>| #[trigger]
            old(fm).has_spec(*old(odb), k, s2) ==> final(fm).has_spec(*final(odb), k, s2)
                && final(fm).lookup(k, s2) == old(fm).lookup(k, s2),
        final(fm).upstream_of() == old(fm).upstream_of(),
        final(bm).upstream_of() == old(bm).upstream_of(),
    decreases oid_index(old(odb).objs_view(), src@),
{
    if fm.has(odb, fspec, src) {
        let r = fm.get(fspec, src);
        proof {
            crate::cache::lemma_has_valid(*fm, *odb, fspec@, src@);
        }
        return r;
    }
    proof {
        if fspec@ == nop_seq() {
            crate::cache::lemma_has_nop(*fm, *odb, src@);
        }
        assert(fspec@ != nop_seq());
    }
    let idx = match odb.find(src) {
        Some(i) => i,
        None => {
            proof {
                assert(false);
            }
            0
        },
    };
    let ghost objs0 = odb.objs_view();
    proof {
        lemma_oid_index(objs0, src@, idx as int);
    }
    let (tree, parents, author, committer, message) = odb.commit_pieces(idx);
    let mut fparents: Vec<Oid> = Vec::new();
    let n = parents.len();
    proof {
        assert(parents@.take(0) =~= Seq::<Oid>::empty());
    }
    let mut pi: usize = 0;
    while pi < n
        invariant
            odb.wf(),
            fm.wf(),
            bm.wf(),
            src.wf(),
            fspec@ == print_spec(*f),
            fspec@ != nop_seq(),
            idx < objs0.len(),
            objs0[idx as int].id@ == src@,
            n == parents@.len(),
            n == objs0[idx as int].commit.parents@.len(),
            forall|p: int|
                0 <= p < n ==> (#[trigger] parents@[p])@ == objs0[idx as int].commit.parents@[p]@
                    && parents@[p].wf(),
            pi <= n,
            objs0 == old(odb).objs_view(),
            old(odb).wf(),
            oid_index(objs0, src@) == idx as int,
            objs0.len() <= odb.objs_view().len(),
            forall|j: int| 0 <= j < objs0.len() ==> odb.objs_view()[j] == objs0[j],
            forall|k: Seq<u8>| old(odb).has_oid(k) ==> odb.has_oid(k),
            forall|j: int|
                0 <= j < fparents@.len() ==> (#[trigger] fparents@[j]).wf() && fparents@[j]@
                    != zero_oid_seq() && odb.has_oid(fparents@[j]@),
            oid_views(fparents@) == filtered_parents(*fm, fspec@, parents@.take(pi as int)),
            forall|q: int|
                0 <= q < pi ==> fm.has_spec(*odb, fspec@, (#[trigger] parents@[q])@),
            forall|k: Seq<char>, s2: Seq<u8>| #[trigger]
                old(fm).has_spec(*old(odb), k, s2) ==> fm.has_spec(*odb, k, s2),
            forall|k: Seq<char>, s2: Seq<u8>|
                old(fm).has_spec(*old(odb), k, s2) ==> #[trigger] fm.lookup(k, s2) == old(
                    fm,
                ).lookup(k, s2),
            fm.upstream_of() == old(fm).upstream_of(),
            bm.upstream_of() == old(bm).upstream_of(),
        decreases n - pi,
    {
        proof {
            let cur = odb.objs_view();
            assert(cur[idx as int] == objs0[idx as int]);
            assert(objs_have(cur, idx as int, (cur[idx as int].commit.parents@[pi as int])@));
            let pj = choose|pj: int|
                0 <= pj < idx && (#[trigger] cur[pj]).id@ == cur[
                    idx as int].commit.parents@[pi as int]@;
            lemma_oid_index(cur, parents@[pi as int]@, pj);
            assert(oid_index(cur, parents@[pi as int]@) < oid_index(objs0, src@));
            assert(objs_have(cur, cur.len() as int, parents@[pi as int]@)) by {
                assert((cur[pj]).id@ == parents@[pi as int]@);
            };
        }
        let ghost fm_pre = *fm;
        let ghost odb_pre = *odb;
        let fp = filter_commit(odb, f, fspec, &parents[pi], fm, bm);
        proof {
            // earlier parents stay served with their values, so the
            // filtered list built so far keeps its meaning
            assert forall|q: int| 0 <= q < pi implies fm.has_spec(
                *odb,
                fspec@,
                (#[trigger] parents@[q])@,
            ) && fm.lookup(fspec@, parents@[q]@) == fm_pre.lookup(fspec@, parents@[q]@) by {
                assert(fm_pre.has_spec(odb_pre, fspec@, parents@[q]@));
                assert(fm_pre.lookup(fspec@, parents@[q]@) == fm_pre.lookup(
                    fspec@,
                    parents@[q]@,
                ));
                assert(fm.lookup(fspec@, parents@[q]@) == fm_pre.lookup(fspec@, parents@[q]@));
            };
            // pairs served at the function's entry stay served too
            assert forall|k: Seq<char>, s2: Seq<u8>| #[trigger]
                old(fm).has_spec(*old(odb), k, s2) implies fm.has_spec(*odb, k, s2) by {
                let served = fm_pre.lookup(k, s2);
                assert(fm_pre.has_spec(odb_pre, k, s2));
            };
            assert forall|k: Seq<char>, s2: Seq<u8>|
                old(fm).has_spec(*old(odb), k, s2) implies #[trigger] fm.lookup(k, s2) == old(
                fm,
            ).lookup(k, s2) by {
                let served = fm_pre.lookup(k, s2);
                assert(fm_pre.has_spec(odb_pre, k, s2));
                assert(fm_pre.lookup(k, s2) == old(fm).lookup(k, s2));
                assert(fm.lookup(k, s2) == fm_pre.lookup(k, s2));
            };
            assert forall|q: int|
                0 <= q < parents@.take(pi as int).len() implies fm_pre.lookup(
                fspec@,
                (#[trigger] parents@.take(pi as int)[q])@,
            ) == fm.lookup(fspec@, parents@.take(pi as int)[q]@) by {
                assert(parents@.take(pi as int)[q] == parents@[q]);
            };
            lemma_filtered_parents_congruent(
                fm_pre,
                *fm,
                fspec@,
                parents@.take(pi as int),
                parents@.take(pi as int),
            );
            assert(parents@.take(pi + 1).drop_last() =~= parents@.take(pi as int));
            assert(parents@.take(pi + 1).last() == parents@[pi as int]);
        }
        if !fp.is_zero() {
            if !oid_in_vec(&fparents, &fp) {
                let ghost before = fparents@;
                fparents.push(fp);
                proof {
                    assert(oid_views(fparents@) =~= oid_views(before).push(
                        fparents@[fparents@.len() - 1]@,
                    ));
                }
            }
        }
        proof {
            assert(oid_views(fparents@) == filtered_parents(*fm, fspec@, parents@.take(pi + 1)));
        }
        pi = pi + 1;
    }
    proof {
        assert(parents@.take(n as int) =~= parents@);
    }
    let ntree = apply_tree(f, &tree);
    let ghost fm_loop = *fm;
    let ghost odb_loop = *odb;
    let ghost fpv = oid_views(fparents@);
    let r: Oid;
    if ntree.is_empty() {
        r = Oid::zero();
    } else if fparents.len() == 1 {
        proof {
            assert(fparents@[0].wf());
        }
        let pidx = match odb.find(&fparents[0]) {
            Some(i) => i,
            None => {
                proof {
                    assert(false);
                }
                0
            },
        };
        proof {
            assert(odb.objs_view()[pidx as int].commit.wf());
            lemma_oid_index(odb.objs_view(), fparents@[0]@, pidx as int);
        }
        let same = odb.commit_at(pidx).tree.same(&ntree);
        if same {
            r = fparents[0].dup();
        } else {
            r = odb.write_commit(
                Commit { tree: ntree, parents: fparents, author, committer, message },
            );
        }
    } else {
        r = odb.write_commit(
            Commit { tree: ntree, parents: fparents, author, committer, message },
        );
    }
    let ghost fm_before_set = *fm;
    proof {
        // the store only grew in the arms above, so served pairs survive
        assert(forall|x: Seq<u8>| #[trigger] odb_loop.has_oid(x) ==> odb.has_oid(x));
        assert forall|k: Seq<char>, s2: Seq<u8>| #[trigger]
            old(fm).has_spec(*old(odb), k, s2) implies fm_before_set.has_spec(*odb, k, s2)
            && fm_before_set.lookup(k, s2) == old(fm).lookup(k, s2) by {
            let served = fm_loop.lookup(k, s2);
            assert(fm_loop.has_spec(odb_loop, k, s2));
            assert(fm_loop.lookup(k, s2) == old(fm).lookup(k, s2));
            crate::cache::lemma_has_spec_monotone(fm_loop, odb_loop, *odb, k, s2);
        };
        assert forall|q: int| 0 <= q < pi implies fm_before_set.has_spec(
            *odb,
            fspec@,
            (#[trigger] parents@[q])@,
        ) by {
            crate::cache::lemma_has_spec_monotone(fm_loop, odb_loop, *odb, fspec@, parents@[q]@);
        };
    }
    fm.set(fspec, src.dup(), r.dup());
    proof {
        assert(fm.own().contains_key((fspec@, src@)));
        assert(fm.own()[(fspec@, src@)] == r@);
        crate::cache::lemma_lookup_own(*fm, fspec@, src@);
        crate::cache::lemma_has_spec_own(*fm, *odb, fspec@, src@);
        // parents carry other ids than the source, so their pairs survive
        assert forall|q: int| 0 <= q < n implies (#[trigger] parents@[q])@ != src@ by {
            assert(objs_have(objs0, idx as int, objs0[idx as int].commit.parents@[q]@));
            let pj = choose|pj: int|
                0 <= pj < idx && (#[trigger] objs0[pj]).id@ == objs0[
                    idx as int].commit.parents@[q]@;
        };
        assert forall|q: int| 0 <= q < n implies fm.lookup(
            fspec@,
            (#[trigger] parents@[q])@,
        ) == fm_before_set.lookup(fspec@, parents@[q]@) by {
            crate::cache::lemma_insert_preserves(
                fm_before_set,
                *fm,
                (fspec@, src@),
                r@,
                fspec@,
                parents@[q]@,
                *odb,
            );
        };
        lemma_filtered_parents_congruent(fm_before_set, *fm, fspec@, parents@, parents@);
        // the served pairs of the caller's cache survive the recording
        assert forall|k: Seq<char>, s2: Seq<u8>| #[trigger]
            old(fm).has_spec(*old(odb), k, s2) implies fm.has_spec(*odb, k, s2) && fm.lookup(
            k,
            s2,
        ) == old(fm).lookup(k, s2) by {
            let served = fm_before_set.lookup(k, s2);
            assert(fm_before_set.has_spec(*odb, k, s2));
            assert(!(k == fspec@ && s2 == src@));
            crate::cache::lemma_insert_preserves(
                fm_before_set,
                *fm,
                (fspec@, src@),
                r@,
                k,
                s2,
                *odb,
            );
        };
    }
    if !r.is_zero() {
        bm.set(fspec, r.dup(), src.dup());
        proof {
            assert(bm.own().contains_key((fspec@, r@)));
            assert(bm.own()[(fspec@, r@)] == src@);
            crate::cache::lemma_lookup_own(*bm, fspec@, r@);
        }
    }
    proof {
        let c = old(odb).commit_of(src@);
        assert(c == objs0[idx as int].commit);
        assert(tree@ == c.tree@);
        let ftree = apply_spec(*f, c.tree@);
        assert(ntree@ == ftree);
        assert forall|q: int|
            0 <= q < parents@.len() implies (#[trigger] parents@[q])@ == c.parents@[q]@ by {};
        lemma_filtered_parents_congruent(*fm, *fm, fspec@, parents@, c.parents@);
        let fps = filtered_parents(*fm, fspec@, c.parents@);
        assert(fps == fpv);
    }
    r
}

/// Whether `k` is none of the `to` names of the pairs.
pub open spec fn not_a_target(pairs: Seq<(String, String)>, k: Seq<char>) -> bool {
    forall|x: int| 0 <= x < pairs.len() ==> k != (#[trigger] pairs[x]).1@
}

/// Whether no later pair writes the same `to` name.
pub open spec fn last_writer(pairs: Seq<(String, String)>, i: int) -> bool {
    forall|j: int| i < j < pairs.len() ==> pairs[i].1@ != (#[trigger] pairs[j]).1@
}

/// The conditions under which a pair takes plain effect: its `from` name
/// is never written by any pair, no later pair writes its `to` name, and
/// the `from` ref resolves to a stored commit.
pub open spec fn pair_effective(
    pairs: Seq<(String, String)>,
    i: int,
    refs0: Map<Seq<char>, Seq<u8>>,
    odb0: Odb,
) -> bool {
    0 <= i < pairs.len() && not_a_target(pairs, pairs[i].0@) && last_writer(pairs, i)
        && refs0.contains_key(pairs[i].0@) && odb0.has_oid(refs0[pairs[i].0@])
}

/// Apply a filter to a set of refs: each `to` ref of a pair is pointed at
/// the filtered head of the resolved `from` ref.  A `from` ref that does
/// not resolve, or whose history filters to nothing, leaves its `to` ref
/// untouched.
pub fn apply_filter_to_refs(
    odb: &mut Odb,
    f: &Filter,
    fspec: &str,
    from_to: &Vec<(String, String)>,
    refs: &mut RefStore,
    fm: &mut FilterCache,
    bm: &mut FilterCache,
)
    requires
        old(odb).wf(),
        old(fm).wf(),
        old(bm).wf(),
        old(refs).wf(),
        fspec@ == print_spec(*f),
    ensures
        final(odb).wf(),
        final(fm).wf(),
        final(bm).wf(),
        final(refs).wf(),
        forall|k: Seq<char>| #[trigger]
            not_a_target(from_to@, k) ==> final(refs)@.contains_key(k) == old(
                refs,
            )@.contains_key(k) && (old(refs)@.contains_key(k) ==> final(refs)@[k] == old(
                refs,
            )@[k]),
        forall|i: int| #[trigger]
            pair_effective(from_to@, i, old(refs)@, *old(odb)) ==> ({
                let src = old(refs)@[from_to@[i].0@];
                let tgt = final(fm).lookup(fspec@, src);
                &&& final(fm).has_spec(*final(odb), fspec@, src)
                &&& (tgt != zero_oid_seq() ==> final(refs)@.contains_key(from_to@[i].1@)
                    && final(refs)@[from_to@[i].1@] == tgt)
            }),
{
    let n = from_to.len();
    let mut i: usize = 0;
    while i < n
        invariant
            odb.wf(),
            fm.wf(),
            bm.wf(),
            refs.wf(),
            old(odb).wf(),
            fspec@ == print_spec(*f),
            n == from_to@.len(),
            i <= n,
            forall|k: Seq<u8>| old(odb).has_oid(k) ==> odb.has_oid(k),
            forall|k: Seq<char>| #[trigger]
                not_a_target(from_to@, k) ==> refs@.contains_key(k) == old(
                    refs,
                )@.contains_key(k) && (old(refs)@.contains_key(k) ==> refs@[k] == old(
                    refs,
                )@[k]),
            forall|ii: int| #[trigger]
                pair_effective(from_to@, ii, old(refs)@, *old(odb)) && ii < i ==> ({
                    let src = old(refs)@[from_to@[ii].0@];
                    let tgt = fm.lookup(fspec@, src);
                    &&& fm.has_spec(*odb, fspec@, src)
                    &&& (tgt != zero_oid_seq() ==> refs@.contains_key(from_to@[ii].1@)
                        && refs@[from_to@[ii].1@] == tgt)
                }),
        decreases n - i,
    {
        let from_name = from_to_at(from_to, i);
        let ghost refs_before = refs@;
        let ghost fm_pre = *fm;
        let ghost odb_pre = *odb;
        match refs.resolve(from_name.0.as_str()) {
            Some(src) => {
                if odb.contains(&src) {
                    let r = filter_commit(odb, f, fspec, &src, fm, bm);
                    if !r.is_zero() {
                        refs.set_ref(from_name.1.as_str(), r);
                    }
                    proof {
                        step_effective(
                            from_to@,
                            i as int,
                            old(refs)@,
                            *old(odb),
                            refs_before,
                            refs@,
                            fm_pre,
                            *fm,
                            odb_pre,
                            *odb,
                            fspec@,
                            src@,
                            r@,
                        );
                    }
                }
            },
            None => {},
        }
        proof {
            assert forall|k: Seq<char>| #[trigger]
                not_a_target(from_to@, k) implies refs@.contains_key(k) == old(
                refs,
            )@.contains_key(k) && (old(refs)@.contains_key(k) ==> refs@[k] == old(refs)@[k]) by {
                assert(k != from_to@[i as int].1@);
                assert(refs_before.contains_key(k) == old(refs)@.contains_key(k) && (old(
                refs,
                )@.contains_key(k) ==> refs_before[k] == old(refs)@[k]));
            };
            assert forall|ii: int| #[trigger]
                pair_effective(from_to@, ii, old(refs)@, *old(odb)) && ii < i + 1 implies ({
                let src = old(refs)@[from_to@[ii].0@];
                let tgt = fm.lookup(fspec@, src);
                &&& fm.has_spec(*odb, fspec@, src)
                &&& (tgt != zero_oid_seq() ==> refs@.contains_key(from_to@[ii].1@) && refs@[
                    from_to@[ii].1@] == tgt)
            }) by {
                let src = old(refs)@[from_to@[ii].0@];
                if ii < i {
                    let served = fm_pre.lookup(fspec@, src);
                    assert(fm_pre.has_spec(odb_pre, fspec@, src));
                    assert(fm.lookup(fspec@, src) == fm_pre.lookup(fspec@, src));
                    if fm.lookup(fspec@, src) != zero_oid_seq() {
                        assert(refs_before.contains_key(from_to@[ii].1@) && refs_before[from_to@[
                            ii].1@] == fm_pre.lookup(fspec@, src));
                        assert(from_to@[ii].1@ != from_to@[i as int].1@);
                    }
                } else {
                    // the current pair: its from ref was resolvable and its
                    // head stored, so the branch above ran
                    assert(not_a_target(from_to@, from_to@[ii].0@));
                    assert(refs_before.contains_key(from_to@[ii].0@) && refs_before[from_to@[
                        ii].0@] == src);
                    assert(odb_pre.has_oid(src));
                }
            };
        }
        i = i + 1;
    }
}

/// What one effective pair's processing establishes.
proof fn step_effective(
    pairs: Seq<(String, String)>,
    i: int,
    refs0: Map<Seq<char>, Seq<u8>>,
    odb0: Odb,
    refs_before: Map<Seq<char>, Seq<u8>>,
    refs_after: Map<Seq<char>, Seq<u8>>,
    fm_pre: FilterCache,
    fm_post: FilterCache,
    odb_pre: Odb,
    odb_post: Odb,
    key: Seq<char>,
    srcv: Seq<u8>,
    rv: Seq<u8>,
)
    requires
        0 <= i < pairs.len(),
        fm_post.has_spec(odb_post, key, srcv),
        rv == fm_post.lookup(key, srcv),
        rv != zero_oid_seq() ==> refs_after == refs_before.insert(pairs[i].1@, rv),
        rv == zero_oid_seq() ==> refs_after == refs_before,
    ensures
        fm_post.has_spec(odb_post, key, srcv),
        fm_post.lookup(key, srcv) != zero_oid_seq() ==> refs_after.contains_key(pairs[i].1@)
            && refs_after[pairs[i].1@] == fm_post.lookup(key, srcv),
{
}

/// A borrow of one pair of the ref list.
fn from_to_at(v: &Vec<(String, String)>, i: usize) -> (r: &(String, String))
    requires
        i < v@.len(),
    ensures
        *r == v@[i as int],
{
    &v[i]
}

/// Filtering is stable: once a pair is served by the cache, any further
/// run reads the same recorded id, so repeated application of one filter
/// to one commit produces the same result.
pub proof fn lemma_refilter_same(
    fm: FilterCache,
    odb: Odb,
    key: Seq<char>,
    src: Seq<u8>,
    r1: Seq<u8>,
    r2: Seq<u8>,
)
    requires
        fm.has_spec(odb, key, src),
        r1 == fm.lookup(key, src),
        r2 == fm.lookup(key, src),
    ensures
        r1 == r2,
{
}

} // verus!
