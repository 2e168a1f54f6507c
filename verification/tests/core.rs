//! The filter cache, the object store, the rewriter and the filter
//! language, exercised on concrete histories.

use josh::cache::{try_merge_both, FilterCache};
use josh::filters::{apply_tree, filter_spec, parse, unapply_tree, Filter};
use josh::odb::{Commit, Odb};
use josh::oid::Oid;
use josh::refs::RefStore;
use josh::rewrite::{apply_filter_to_refs, filter_commit};
use josh::tree::Tree;

fn oid(b: u8) -> Oid {
    let mut v = vec![0u8; 20];
    v[0] = b;
    Oid::from_bytes(v).unwrap()
}

fn path(parts: &[&str]) -> Vec<String> {
    parts.iter().map(|p| p.to_string()).collect()
}

fn tree_ab() -> Tree {
    // { a/x -> 1, b/y -> 2 }
    let mut t = Tree::new();
    t.put(path(&["a", "x"]), oid(1));
    t.put(path(&["b", "y"]), oid(2));
    t
}

fn commit(t: Tree, parents: Vec<Oid>) -> Commit {
    Commit {
        tree: t,
        parents,
        author: "ann <a@example.com>".to_string(),
        committer: "ann <a@example.com>".to_string(),
        message: "m".to_string(),
    }
}

#[test]
fn cache_set_get() {
    let mut c = FilterCache::new();
    c.set(":/a", oid(1), oid(2));
    assert!(c.get(":/a", &oid(1)).same(&oid(2)));
    assert!(c.get(":/a", &oid(3)).is_zero());
    assert!(c.get(":/b", &oid(1)).is_zero());
}

#[test]
fn cache_nop_short_circuits() {
    let mut c = FilterCache::new();
    c.set(":nop", oid(1), oid(9));
    // the identity never reads the stored map
    assert!(c.get(":nop", &oid(1)).same(&oid(1)));
    assert!(c.get(":nop", &oid(7)).same(&oid(7)));
}

#[test]
fn cache_has_checks_object_store() {
    let mut odb = Odb::new();
    let c0 = odb.write_commit(commit(tree_ab(), vec![]));
    let mut c = FilterCache::new();
    c.set(":/a", oid(1), c0.dup());
    assert!(c.has(&odb, ":/a", &oid(1)));
    // a pruned target counts as absent, forcing a rebuild
    let empty_odb = Odb::new();
    assert!(!c.has(&empty_odb, ":/a", &oid(1)));
    // the zero target stands for "nothing remained" and needs no object
    c.set(":/b", oid(1), Oid::zero());
    assert!(c.has(&empty_odb, ":/b", &oid(1)));
}

#[test]
fn cache_merge_receiver_wins() {
    let mut a = FilterCache::new();
    a.set(":/a", oid(1), oid(2));
    let mut b = FilterCache::new();
    b.set(":/a", oid(1), oid(3));
    b.set(":/a", oid(4), oid(5));
    a.merge(&b);
    assert!(a.get(":/a", &oid(1)).same(&oid(2)));
    assert!(a.get(":/a", &oid(4)).same(&oid(5)));
    assert_eq!(a.own_len(), 2);
}

#[test]
fn publish_both_or_neither() {
    // the session pair is published only when both locks were obtained
    let mut gf = FilterCache::new();
    let mut gb = FilterCache::new();
    let mut sf = FilterCache::new();
    let mut sb = FilterCache::new();
    sf.set(":/a", oid(1), oid(2));
    sb.set(":/a", oid(2), oid(1));
    try_merge_both(&mut gf, &mut gb, &sf, &sb, false);
    assert_eq!(gf.own_len(), 0);
    assert_eq!(gb.own_len(), 0);
    try_merge_both(&mut gf, &mut gb, &sf, &sb, true);
    assert!(gf.get(":/a", &oid(1)).same(&oid(2)));
    assert!(gb.get(":/a", &oid(2)).same(&oid(1)));
}

#[test]
fn session_reads_fall_through() {
    let mut global = FilterCache::new();
    global.set(":/a", oid(1), oid(2));
    let mut session = FilterCache::new_downstream(&global);
    assert!(session.get(":/a", &oid(1)).same(&oid(2)));
    session.set(":/a", oid(1), oid(3));
    assert!(session.get(":/a", &oid(1)).same(&oid(3)));
    // the global is untouched by session writes
    assert!(global.get(":/a", &oid(1)).same(&oid(2)));
}

#[test]
fn cache_file_round_trip() {
    let mut c = FilterCache::new();
    c.set(":/a", oid(1), oid(2));
    c.set(":/b/c", oid(3), Oid::zero());
    let bytes = c.encode();
    let d = FilterCache::decode(&bytes);
    assert!(d.get(":/a", &oid(1)).same(&oid(2)));
    assert!(d.get(":/b/c", &oid(3)).is_zero());
    assert_eq!(d.own_len(), 2);
}

#[test]
fn wrong_version_yields_empty_cache() {
    let mut c = FilterCache::new();
    c.set(":/a", oid(1), oid(2));
    let mut bytes = c.encode();
    // break the version stamp: the file is treated as absent
    bytes[0] = bytes[0].wrapping_add(1);
    let d = FilterCache::decode(&bytes);
    assert_eq!(d.own_len(), 0);
    // short or garbled files are also treated as absent, never a panic
    let d2 = FilterCache::decode(&vec![1, 2, 3]);
    assert_eq!(d2.own_len(), 0);
    let mut truncated = c.encode();
    truncated.truncate(20);
    let d3 = FilterCache::decode(&truncated);
    assert_eq!(d3.own_len(), 0);
}

#[test]
fn parse_total_and_canonical() {
    assert_eq!(filter_spec(&parse("")), ":nop");
    assert_eq!(filter_spec(&parse(":nop")), ":nop");
    assert_eq!(filter_spec(&parse("garbage")), ":nop");
    assert_eq!(filter_spec(&parse(":/a/b")), ":/a/b");
    assert_eq!(filter_spec(&parse(":!a")), ":/a");
    assert_eq!(filter_spec(&parse(":prefix=p/q")), ":prefix=p/q");
    assert_eq!(filter_spec(&parse(":/a:/b")), ":/a:/b");
    assert_eq!(filter_spec(&parse(":[:/a,:/b]")), ":[:/a,:/b]");
    // a parse-stable form: parsing the printed form prints the same
    let f = parse(":[:/a/b,:prefix=p]:/c");
    let s = filter_spec(&f);
    assert_eq!(filter_spec(&parse(&s)), s);
    // the identity in a composition is dropped
    assert_eq!(filter_spec(&parse(":nop:/a")), ":/a");
}

#[test]
fn subdir_keeps_only_the_subtree() {
    let t = tree_ab();
    let f = parse(":/a");
    let r = apply_tree(&f, &t);
    assert_eq!(r.row_count(), 1);
    assert!(r.get(&path(&["x"])).unwrap().same(&oid(1)));
    assert!(r.get(&path(&["b", "y"])).is_none());
}

#[test]
fn prefix_wraps_the_tree() {
    let mut t = Tree::new();
    t.put(path(&["x"]), oid(1));
    let f = parse(":prefix=p");
    let r = apply_tree(&f, &t);
    assert_eq!(r.row_count(), 1);
    assert!(r.get(&path(&["p", "x"])).unwrap().same(&oid(1)));
}

#[test]
fn union_leftmost_wins() {
    let t = {
        let mut t = Tree::new();
        t.put(path(&["a", "f"]), oid(1));
        t.put(path(&["b", "f"]), oid(2));
        t
    };
    let f = parse(":[:/a,:/b]");
    let r = apply_tree(&f, &t);
    assert_eq!(r.row_count(), 1);
    assert!(r.get(&path(&["f"])).unwrap().same(&oid(1)));
}

#[test]
fn unapply_overlays_at_the_subpath() {
    let orig = tree_ab();
    let mut ft = Tree::new();
    ft.put(path(&["x"]), oid(3));
    let f = parse(":/a");
    let r = unapply_tree(&f, &ft, &orig);
    assert!(r.get(&path(&["a", "x"])).unwrap().same(&oid(3)));
    assert!(r.get(&path(&["b", "y"])).unwrap().same(&oid(2)));
    // filtering the embedded tree recovers the filtered tree
    let again = apply_tree(&f, &r);
    assert!(again.same(&ft));
}

#[test]
fn filter_commit_subdirectory() {
    let mut odb = Odb::new();
    let c0 = odb.write_commit(commit(tree_ab(), vec![]));
    let mut fm = FilterCache::new();
    let mut bm = FilterCache::new();
    let f = parse(":/a");
    let spec = filter_spec(&f);
    let r = filter_commit(&mut odb, &f, &spec, &c0, &mut fm, &mut bm);
    assert!(!r.is_zero());
    let i = odb.find(&r).unwrap();
    let fc = odb.commit_at(i);
    assert!(fc.tree.get(&path(&["x"])).unwrap().same(&oid(1)));
    assert!(fc.tree.get(&path(&["b", "y"])).is_none());
    // the inverse is recorded for push-back
    assert!(bm.get(&spec, &r).same(&c0));
}

#[test]
fn filter_commit_is_stable() {
    let mut odb = Odb::new();
    let c0 = odb.write_commit(commit(tree_ab(), vec![]));
    let mut fm = FilterCache::new();
    let mut bm = FilterCache::new();
    let f = parse(":/a");
    let spec = filter_spec(&f);
    let r1 = filter_commit(&mut odb, &f, &spec, &c0, &mut fm, &mut bm);
    let entries_after_first = fm.own_len();
    let objects_after_first = odb.len();
    let r2 = filter_commit(&mut odb, &f, &spec, &c0, &mut fm, &mut bm);
    // the repeated run returns the same id and records nothing new
    assert!(r1.same(&r2));
    assert_eq!(fm.own_len(), entries_after_first);
    assert_eq!(odb.len(), objects_after_first);
}

#[test]
fn filter_commit_nop_is_identity() {
    let mut odb = Odb::new();
    let c0 = odb.write_commit(commit(tree_ab(), vec![]));
    let mut fm = FilterCache::new();
    let mut bm = FilterCache::new();
    let f = parse(":nop");
    let r = filter_commit(&mut odb, &f, ":nop", &c0, &mut fm, &mut bm);
    assert!(r.same(&c0));
    // the identity's map is never materialized
    assert_eq!(fm.own_len(), 0);
}

#[test]
fn filter_commit_elides_unchanged_subtree() {
    let mut odb = Odb::new();
    let c0 = odb.write_commit(commit(tree_ab(), vec![]));
    // the child only changes b/y
    let mut t1 = Tree::new();
    t1.put(path(&["a", "x"]), oid(1));
    t1.put(path(&["b", "y"]), oid(9));
    let c1 = odb.write_commit(commit(t1, vec![c0.dup()]));
    let mut fm = FilterCache::new();
    let mut bm = FilterCache::new();
    let f = parse(":/a");
    let spec = filter_spec(&f);
    let r0 = filter_commit(&mut odb, &f, &spec, &c0, &mut fm, &mut bm);
    let r1 = filter_commit(&mut odb, &f, &spec, &c1, &mut fm, &mut bm);
    // the filtered log has exactly one commit: the child was elided
    assert!(r0.same(&r1));
}

#[test]
fn filter_commit_empty_tree_is_zero() {
    let mut odb = Odb::new();
    let c0 = odb.write_commit(commit(tree_ab(), vec![]));
    let mut fm = FilterCache::new();
    let mut bm = FilterCache::new();
    let f = parse(":/nothing");
    let spec = filter_spec(&f);
    let r = filter_commit(&mut odb, &f, &spec, &c0, &mut fm, &mut bm);
    assert!(r.is_zero());
    // recorded, so the next run skips the work
    assert!(fm.has(&odb, &spec, &c0));
}

#[test]
fn refs_point_at_filtered_heads() {
    let mut odb = Odb::new();
    let c0 = odb.write_commit(commit(tree_ab(), vec![]));
    let mut refs = RefStore::new();
    refs.set_ref("refs/heads/master", c0.dup());
    let mut fm = FilterCache::new();
    let mut bm = FilterCache::new();
    let f = parse(":/a");
    let spec = filter_spec(&f);
    let from_to = vec![(
        "refs/heads/master".to_string(),
        "refs/namespaces/n1/refs/heads/master".to_string(),
    )];
    apply_filter_to_refs(&mut odb, &f, &spec, &from_to, &mut refs, &mut fm, &mut bm);
    let head = refs.resolve("refs/namespaces/n1/refs/heads/master").unwrap();
    let i = odb.find(&head).unwrap();
    assert!(odb.commit_at(i).tree.get(&path(&["x"])).unwrap().same(&oid(1)));
}
