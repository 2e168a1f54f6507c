//! The filter language: a filter is a pure function over trees, with an
//! inverse used for push-back.  Filters parse from a spec string and print
//! back to a canonical one, which keys the cache.

use vstd::prelude::*;
use crate::tree::{Tree, path_view, spec_starts_with};
use vstd::string::StrSliceExecFns;
use vstd::string::StringExecFns;

verus! {

/// A history filter.
pub enum Filter {
    /// The identity.
    Nop,
    /// Keep only the subtree at the path, rebased to the root.
    Subdir(Vec<String>),
    /// Wrap the whole tree under the path.
    Prefix(Vec<String>),
    /// The first filter, then the second on its output.
    Chain(Box<Filter>, Box<Filter>),
    /// Overlay the results of the branches; the leftmost wins a conflict.
    Union(Vec<Filter>),
}

/// Whether a path component may appear in a filter spec unquoted.
pub open spec fn plain_char(c: char) -> bool {
    c != ':' && c != '!' && c != '/' && c != '[' && c != ']' && c != ',' && c != '='
}

/// A usable filter path: at least one component, each nonempty and plain.
pub open spec fn path_wf(p: Seq<Seq<char>>) -> bool {
    p.len() > 0 && forall|i: int|
        0 <= i < p.len() ==> (#[trigger] p[i]).len() > 0 && forall|j: int|
            0 <= j < p[i].len() ==> plain_char(#[trigger] p[i][j])
}

impl Filter {
    /// Canonical form: paths are usable, a chain never holds the identity,
    /// and a union holds at least one branch.
    pub open spec fn wf(self) -> bool
        decreases self,
    {
        match self {
            Filter::Nop => true,
            Filter::Subdir(p) => path_wf(path_view(p@)),
            Filter::Prefix(p) => path_wf(path_view(p@)),
            Filter::Chain(a, b) => a.wf() && b.wf() && !(*a is Nop) && !(*b is Nop),
            Filter::Union(fs) => fs@.len() > 0 && forall|i: int|
                0 <= i < fs@.len() ==> (#[trigger] fs@[i]).wf(),
        }
    }
}

/// What applying a subdirectory filter leaves of a tree.
pub open spec fn subdir_spec(
    pre: Seq<Seq<char>>,
    t: Map<Seq<Seq<char>>, Seq<u8>>,
) -> Map<Seq<Seq<char>>, Seq<u8>> {
    Map::new(|q: Seq<Seq<char>>| t.contains_key(pre + q), |q: Seq<Seq<char>>| t[pre + q])
}

/// What wrapping a tree under a prefix yields.
pub open spec fn prefix_spec(
    pre: Seq<Seq<char>>,
    t: Map<Seq<Seq<char>>, Seq<u8>>,
) -> Map<Seq<Seq<char>>, Seq<u8>> {
    Map::new(
        |k: Seq<Seq<char>>|
            spec_starts_with(k, pre) && t.contains_key(k.skip(pre.len() as int)),
        |k: Seq<Seq<char>>| t[k.skip(pre.len() as int)],
    )
}

/// Overlay `a` onto `b`: on a shared path `a` wins.
pub open spec fn overlay_spec(
    a: Map<Seq<Seq<char>>, Seq<u8>>,
    b: Map<Seq<Seq<char>>, Seq<u8>>,
) -> Map<Seq<Seq<char>>, Seq<u8>> {
    Map::new(
        |k: Seq<Seq<char>>| a.contains_key(k) || b.contains_key(k),
        |k: Seq<Seq<char>>|
            if a.contains_key(k) {
                a[k]
            } else {
                b[k]
            },
    )
}

/// Replace the subtree under `pre` in `orig` by `sub`.
pub open spec fn replace_spec(
    orig: Map<Seq<Seq<char>>, Seq<u8>>,
    pre: Seq<Seq<char>>,
    sub: Map<Seq<Seq<char>>, Seq<u8>>,
) -> Map<Seq<Seq<char>>, Seq<u8>> {
    Map::new(
        |k: Seq<Seq<char>>|
            (orig.contains_key(k) && !spec_starts_with(k, pre)) || (spec_starts_with(k, pre)
                && sub.contains_key(k.skip(pre.len() as int))),
        |k: Seq<Seq<char>>|
            if spec_starts_with(k, pre) {
                sub[k.skip(pre.len() as int)]
            } else {
                orig[k]
            },
    )
}

/// What applying a filter does to a tree.
pub open spec fn apply_spec(f: Filter, t: Map<Seq<Seq<char>>, Seq<u8>>) -> Map<
    Seq<Seq<char>>,
    Seq<u8>,
>
    decreases f,
{
    match f {
        Filter::Nop => t,
        Filter::Subdir(p) => subdir_spec(path_view(p@), t),
        Filter::Prefix(p) => prefix_spec(path_view(p@), t),
        Filter::Chain(a, b) => apply_spec(*b, apply_spec(*a, t)),
        Filter::Union(fs) => union_apply(fs@, t),
    }
}

/// Overlay the branches of a union, leftmost first.
pub open spec fn union_apply(fs: Seq<Filter>, t: Map<Seq<Seq<char>>, Seq<u8>>) -> Map<
    Seq<Seq<char>>,
    Seq<u8>,
>
    decreases fs,
{
    if fs.len() == 0 {
        Map::empty()
    } else {
        overlay_spec(apply_spec(fs[0], t), union_apply(fs.subrange(1, fs.len() as int), t))
    }
}

/// What the inverse of a filter does: embed a filtered tree back into the
/// original context.
pub open spec fn unapply_spec(
    f: Filter,
    ft: Map<Seq<Seq<char>>, Seq<u8>>,
    orig: Map<Seq<Seq<char>>, Seq<u8>>,
) -> Map<Seq<Seq<char>>, Seq<u8>>
    decreases f,
{
    match f {
        Filter::Nop => ft,
        Filter::Subdir(p) => replace_spec(orig, path_view(p@), ft),
        Filter::Prefix(p) => subdir_spec(path_view(p@), ft),
        Filter::Chain(a, b) => unapply_spec(
            *a,
            unapply_spec(*b, ft, apply_spec(*a, orig)),
            orig,
        ),
        Filter::Union(fs) => union_unapply(fs, ft, orig),
    }
}

/// Embed through the leading branch of a union: the leftmost branch is
/// the union's defining one, so push-back goes through it.
pub open spec fn union_unapply(
    fs: Vec<Filter>,
    ft: Map<Seq<Seq<char>>, Seq<u8>>,
    orig: Map<Seq<Seq<char>>, Seq<u8>>,
) -> Map<Seq<Seq<char>>, Seq<u8>>
    decreases fs@,
{
    if fs@.len() == 0 {
        orig
    } else {
        unapply_spec(fs@[0], ft, orig)
    }
}


/// The size of a filter term, for bounding recursion.
pub open spec fn fsize(f: Filter) -> nat
    decreases f,
{
    match f {
        Filter::Nop => 1,
        Filter::Subdir(p) => 1,
        Filter::Prefix(p) => 1,
        Filter::Chain(a, b) => 1 + fsize(*a) + fsize(*b),
        Filter::Union(fs) => 1 + flist_size(fs@),
    }
}

/// The summed size of a list of filters.
pub open spec fn flist_size(fs: Seq<Filter>) -> nat
    decreases fs,
{
    if fs.len() == 0 {
        0
    } else {
        fsize(fs[0]) + flist_size(fs.subrange(1, fs.len() as int))
    }
}

/// Every branch of a list is at most the list's summed size.
pub proof fn lemma_flist_size_elem(fs: Seq<Filter>, i: int)
    requires
        0 <= i < fs.len(),
    ensures
        fsize(fs[i]) <= flist_size(fs),
    decreases fs.len(),
{
    if i > 0 {
        lemma_flist_size_elem(fs.subrange(1, fs.len() as int), i - 1);
        assert(fs.subrange(1, fs.len() as int)[i - 1] == fs[i]);
    }
}

/// Apply a filter to a tree.
pub fn apply_tree(f: &Filter, t: &Tree) -> (r: Tree)
    requires
        t.wf(),
    ensures
        r.wf(),
        r@ == apply_spec(*f, t@),
    decreases fsize(*f),
{
    match f {
        Filter::Nop => t.dup(),
        Filter::Subdir(p) => {
            let r = t.subdir(p);
            proof {
                assert(r@ =~= subdir_spec(path_view(p@), t@));
            }
            r
        },
        Filter::Prefix(p) => {
            let r = t.prefix(p);
            proof {
                assert(r@ =~= prefix_spec(path_view(p@), t@));
            }
            r
        },
        Filter::Chain(a, b) => {
            let m = apply_tree(a, t);
            apply_tree(b, &m)
        },
        Filter::Union(fs) => {
            let n = fs.len();
            let mut acc = Tree::new();
            proof {
                assert(acc@ =~= union_apply(fs@.subrange(n as int, n as int), t@));
            }
            let mut i: usize = n;
            while i > 0
                invariant
                    t.wf(),
                    acc.wf(),
                    *f == Filter::Union(*fs),
                    fsize(*f) == 1 + flist_size(fs@),
                    n == fs@.len(),
                    i <= n,
                    acc@ == union_apply(fs@.subrange(i as int, n as int), t@),
                decreases i,
            {
                i = i - 1;
                proof {
                    lemma_flist_size_elem(fs@, i as int);
                }
                let fi = apply_tree(&fs[i], t);
                let next = fi.overlay(&acc);
                proof {
                    let rest = fs@.subrange(i + 1, n as int);
                    let whole = fs@.subrange(i as int, n as int);
                    assert(whole[0] == fs@[i as int]);
                    assert(whole.subrange(1, whole.len() as int) =~= rest);
                    assert(next@ =~= overlay_spec(apply_spec(fs@[i as int], t@), union_apply(
                        rest,
                        t@,
                    )));
                }
                acc = next;
            }
            proof {
                assert(fs@.subrange(0, n as int) =~= fs@);
            }
            acc
        },
    }
}

/// Embed a filtered tree back into the original context: the inverse used
/// for push-back.
pub fn unapply_tree(f: &Filter, ft: &Tree, orig: &Tree) -> (r: Tree)
    requires
        ft.wf(),
        orig.wf(),
    ensures
        r.wf(),
        r@ == unapply_spec(*f, ft@, orig@),
    decreases fsize(*f),
{
    match f {
        Filter::Nop => {
            let r = ft.dup();
            proof {
                assert(r@ == unapply_spec(*f, ft@, orig@));
            }
            r
        },
        Filter::Subdir(p) => {
            let r = orig.replace_at(p, ft);
            proof {
                assert(r@ =~= replace_spec(orig@, path_view(p@), ft@));
                assert(r@ == unapply_spec(*f, ft@, orig@));
            }
            r
        },
        Filter::Prefix(p) => {
            let r = ft.subdir(p);
            proof {
                assert(r@ =~= subdir_spec(path_view(p@), ft@));
            }
            r
        },
        Filter::Chain(a, b) => {
            let fa = apply_tree(a, orig);
            let inner = unapply_tree(b, ft, &fa);
            let r = unapply_tree(a, &inner, orig);
            proof {
                assert(inner@ == unapply_spec(**b, ft@, apply_spec(**a, orig@)));
                assert(r@ == unapply_spec(*f, ft@, orig@));
            }
            r
        },
        Filter::Union(fs) => {
            if fs.len() == 0 {
                let r = orig.dup();
                proof {
                    assert(unapply_spec(*f, ft@, orig@) == union_unapply(*fs, ft@, orig@));
                    assert(union_unapply(*fs, ft@, orig@) == orig@);
                    assert(r@ == unapply_spec(*f, ft@, orig@));
                }
                r
            } else {
                proof {
                    lemma_flist_size_elem(fs@, 0);
                }
                let base = orig.dup();
                let r = unapply_tree(&fs[0], ft, &base);
                proof {
                    assert(unapply_spec(*f, ft@, orig@) == union_unapply(*fs, ft@, orig@));
                    assert(union_unapply(*fs, ft@, orig@) == unapply_spec(fs@[0], ft@, orig@));
                    assert(r@ == unapply_spec(*f, ft@, orig@));
                }
                r
            }
        },
    }
}

/// Applying a subdirectory filter to its own embedding recovers the
/// filtered tree: the push-back round trip for the subtree filter.
pub proof fn lemma_round_trip_subdir(
    p: Seq<Seq<char>>,
    ft: Map<Seq<Seq<char>>, Seq<u8>>,
    orig: Map<Seq<Seq<char>>, Seq<u8>>,
)
    ensures
        subdir_spec(p, replace_spec(orig, p, ft)) =~= ft,
{
    assert forall|q: Seq<Seq<char>>| #[trigger]
        replace_spec(orig, p, ft).contains_key(p + q) <==> ft.contains_key(q) by {
        assert((p + q).take(p.len() as int) =~= p);
        assert((p + q).skip(p.len() as int) =~= q);
    };
    assert forall|q: Seq<Seq<char>>| #[trigger] ft.contains_key(q) implies subdir_spec(
        p,
        replace_spec(orig, p, ft),
    )[q] == ft[q] by {
        assert((p + q).take(p.len() as int) =~= p);
        assert((p + q).skip(p.len() as int) =~= q);
    };
}

/// Applying a prefix filter to its own embedding recovers the filtered
/// tree, provided the filtered tree indeed lies under the prefix.
pub proof fn lemma_round_trip_prefix(p: Seq<Seq<char>>, ft: Map<Seq<Seq<char>>, Seq<u8>>)
    requires
        forall|k: Seq<Seq<char>>| #[trigger] ft.contains_key(k) ==> spec_starts_with(k, p),
    ensures
        prefix_spec(p, subdir_spec(p, ft)) =~= ft,
{
    assert forall|k: Seq<Seq<char>>| #[trigger]
        prefix_spec(p, subdir_spec(p, ft)).contains_key(k) <==> ft.contains_key(k) by {
        if spec_starts_with(k, p) {
            assert(p + k.skip(p.len() as int) =~= k);
        }
        if ft.contains_key(k) {
            assert(spec_starts_with(k, p));
            assert(p + k.skip(p.len() as int) =~= k);
        }
    };
    assert forall|k: Seq<Seq<char>>| #[trigger] ft.contains_key(k) implies prefix_spec(
        p,
        subdir_spec(p, ft),
    )[k] == ft[k] by {
        assert(spec_starts_with(k, p));
        assert(p + k.skip(p.len() as int) =~= k);
    };
}

/// Whether the push-back round trip applies: the filtered tree must lie
/// in the filter's image.  Always true of the identity and the subtree
/// filter; a prefix filter asks its tree to lie under the prefix; a chain
/// asks it of each link; a union has no single inverse.
pub open spec fn round_trip_ok(
    f: Filter,
    ft: Map<Seq<Seq<char>>, Seq<u8>>,
    orig: Map<Seq<Seq<char>>, Seq<u8>>,
) -> bool
    decreases f,
{
    match f {
        Filter::Nop => true,
        Filter::Subdir(p) => true,
        Filter::Prefix(p) => forall|k: Seq<Seq<char>>| #[trigger]
            ft.contains_key(k) ==> spec_starts_with(k, path_view(p@)),
        Filter::Chain(a, b) => round_trip_ok(*b, ft, apply_spec(*a, orig)) && round_trip_ok(
            *a,
            unapply_spec(*b, ft, apply_spec(*a, orig)),
            orig,
        ),
        Filter::Union(fs) => false,
    }
}

/// The push-back round trip: embedding what a filter produced and
/// filtering again gives the same tree back.
pub proof fn lemma_unapply_round_trip(
    f: Filter,
    ft: Map<Seq<Seq<char>>, Seq<u8>>,
    orig: Map<Seq<Seq<char>>, Seq<u8>>,
)
    requires
        round_trip_ok(f, ft, orig),
    ensures
        apply_spec(f, unapply_spec(f, ft, orig)) =~= ft,
    decreases f,
{
    match f {
        Filter::Nop => {},
        Filter::Subdir(p) => {
            lemma_round_trip_subdir(path_view(p@), ft, orig);
        },
        Filter::Prefix(p) => {
            lemma_round_trip_prefix(path_view(p@), ft);
        },
        Filter::Chain(a, b) => {
            let fa = apply_spec(*a, orig);
            let inner = unapply_spec(*b, ft, fa);
            lemma_unapply_round_trip(*a, inner, orig);
            lemma_unapply_round_trip(*b, ft, fa);
            assert(apply_spec(*a, unapply_spec(*a, inner, orig)) =~= inner);
            assert(apply_spec(*b, inner) =~= ft);
            assert(apply_spec(f, unapply_spec(f, ft, orig)) == apply_spec(
                *b,
                apply_spec(*a, unapply_spec(*a, inner, orig)),
            ));
            lemma_apply_congruent(*b, apply_spec(*a, unapply_spec(*a, inner, orig)), inner);
        },
        Filter::Union(fs) => {},
    }
}

/// Applying one filter to equal trees gives equal results.
proof fn lemma_apply_congruent(
    f: Filter,
    t1: Map<Seq<Seq<char>>, Seq<u8>>,
    t2: Map<Seq<Seq<char>>, Seq<u8>>,
)
    requires
        t1 =~= t2,
    ensures
        apply_spec(f, t1) == apply_spec(f, t2),
{
    assert(t1 == t2);
}


/// The canonical spelling of a path, a slash before each component.
pub open spec fn print_path(p: Seq<Seq<char>>) -> Seq<char>
    decreases p,
{
    if p.len() == 0 {
        Seq::empty()
    } else {
        print_path(p.subrange(0, p.len() - 1)) + "/"@ + p[p.len() - 1]
    }
}

/// The spelling of a path without its leading slash.
pub open spec fn print_path_bare(p: Seq<Seq<char>>) -> Seq<char>
    decreases p,
{
    if p.len() == 0 {
        Seq::empty()
    } else if p.len() == 1 {
        p[0]
    } else {
        print_path_bare(p.subrange(0, p.len() - 1)) + "/"@ + p[p.len() - 1]
    }
}

/// The canonical textual form of a filter.
pub open spec fn print_spec(f: Filter) -> Seq<char>
    decreases f,
{
    match f {
        Filter::Nop => ":nop"@,
        Filter::Subdir(p) => ":"@ + print_path(path_view(p@)),
        Filter::Prefix(p) => ":prefix="@ + print_path_bare(path_view(p@)),
        Filter::Chain(a, b) => print_spec(*a) + print_spec(*b),
        Filter::Union(fs) => ":["@ + print_list(fs@) + "]"@,
    }
}

/// The branches of a union, comma-separated.
pub open spec fn print_list(fs: Seq<Filter>) -> Seq<char>
    decreases fs,
{
    if fs.len() == 0 {
        Seq::empty()
    } else if fs.len() == 1 {
        print_spec(fs[0])
    } else {
        print_list(fs.subrange(0, fs.len() - 1)) + ","@ + print_spec(fs[fs.len() - 1])
    }
}

/// Append the canonical spelling of a path.
fn append_path(s: &mut String, p: &Vec<String>)
    ensures
        final(s)@ == old(s)@ + print_path(path_view(p@)),
{
    let n = p.len();
    let mut i: usize = 0;
    while i < n
        invariant
            n == p@.len(),
            i <= n,
            s@ == old(s)@ + print_path(path_view(p@).take(i as int)),
        decreases n - i,
    {
        s.append("/");
        s.append(p[i].as_str());
        proof {
            let pv = path_view(p@);
            assert(pv.take(i + 1).subrange(0, i as int) =~= pv.take(i as int));
            assert(pv.take(i + 1)[i as int] == p@[i as int]@);
            assert(s@ =~= old(s)@ + print_path(pv.take(i + 1)));
        }
        i = i + 1;
    }
    proof {
        assert(path_view(p@).take(n as int) =~= path_view(p@));
    }
}

/// Append the spelling of a path without its leading slash.
fn append_path_bare(s: &mut String, p: &Vec<String>)
    ensures
        final(s)@ == old(s)@ + print_path_bare(path_view(p@)),
{
    let n = p.len();
    if n == 0 {
        proof {
            assert(s@ =~= old(s)@ + print_path_bare(path_view(p@)));
        }
        return;
    }
    s.append(p[0].as_str());
    proof {
        assert(path_view(p@).take(1)[0] == p@[0]@);
        assert(s@ =~= old(s)@ + print_path_bare(path_view(p@).take(1)));
    }
    let mut i: usize = 1;
    while i < n
        invariant
            n == p@.len(),
            1 <= i <= n,
            s@ == old(s)@ + print_path_bare(path_view(p@).take(i as int)),
        decreases n - i,
    {
        s.append("/");
        s.append(p[i].as_str());
        proof {
            let pv = path_view(p@);
            assert(pv.take(i + 1).subrange(0, i as int) =~= pv.take(i as int));
            assert(pv.take(i + 1)[i as int] == p@[i as int]@);
            assert(s@ =~= old(s)@ + print_path_bare(pv.take(i + 1)));
        }
        i = i + 1;
    }
    proof {
        assert(path_view(p@).take(n as int) =~= path_view(p@));
    }
}

/// The canonical, parse-stable textual form of a filter: the cache key.
pub fn filter_spec(f: &Filter) -> (r: String)
    ensures
        r@ == print_spec(*f),
    decreases fsize(*f),
{
    match f {
        Filter::Nop => (":nop").to_owned(),
        Filter::Subdir(p) => {
            let mut s = (":").to_owned();
            append_path(&mut s, p);
            s
        },
        Filter::Prefix(p) => {
            let mut s = (":prefix=").to_owned();
            append_path_bare(&mut s, p);
            s
        },
        Filter::Chain(a, b) => {
            let mut s = filter_spec(a);
            let sb = filter_spec(b);
            s.append(sb.as_str());
            s
        },
        Filter::Union(fs) => {
            let mut s = (":[").to_owned();
            let n = fs.len();
            proof {
                assert(s@ =~= ":["@ + print_list(fs@.take(0)));
            }
            let mut i: usize = 0;
            while i < n
                invariant
                    *f == Filter::Union(*fs),
                    fsize(*f) == 1 + flist_size(fs@),
                    n == fs@.len(),
                    i <= n,
                    s@ == ":["@ + print_list(fs@.take(i as int)),
                decreases n - i,
            {
                proof {
                    lemma_flist_size_elem(fs@, i as int);
                }
                if i > 0 {
                    s.append(",");
                }
                let si = filter_spec(&fs[i]);
                s.append(si.as_str());
                proof {
                    let fv = fs@;
                    assert(fv.take(i + 1).subrange(0, i as int) =~= fv.take(i as int));
                    assert(fv.take(i + 1)[i as int] == fv[i as int]);
                    if i == 0 {
                        assert(print_list(fv.take(1)) == print_spec(fv[0]));
                        assert(s@ =~= ":["@ + print_list(fv.take(i + 1)));
                    } else {
                        assert(s@ =~= ":["@ + print_list(fv.take(i + 1)));
                    }
                }
                i = i + 1;
            }
            proof {
                assert(fs@.take(n as int) =~= fs@);
            }
            s.append("]");
            proof {
                assert(s@ =~= ":["@ + print_list(fs@) + "]"@);
            }
            s
        },
    }
}

/// The characters of a string, one by one.
pub fn chars_vec(s: &str) -> (r: Vec<char>)
    ensures
        r@ == s@,
{
    let n = s.unicode_len();
    let mut r: Vec<char> = Vec::new();
    let mut i: usize = 0;
    while i < n
        invariant
            n == s@.len(),
            i <= n,
            r@ == s@.take(i as int),
        decreases n - i,
    {
        r.push(s.get_char(i));
        proof {
            assert(r@ =~= s@.take(i + 1));
        }
        i = i + 1;
    }
    proof {
        assert(s@.take(n as int) =~= s@);
    }
    r
}

/// Parse the path components between `from` and `to`; with `lead`, a
/// slash must open the range.  Rejects empty components and characters
/// that the filter syntax claims.
fn parse_comps(s: &str, cs: &Vec<char>, from: usize, to: usize, lead: bool) -> (r: Option<
    Vec<String>,
>)
    requires
        cs@ == s@,
        from <= to <= cs@.len(),
    ensures
        r matches Some(p) ==> path_wf(path_view(p@)),
{
    let mut comps: Vec<String> = Vec::new();
    let mut i: usize = from;
    if lead {
        if i >= to || cs[i] != '/' {
            return None;
        }
        i = i + 1;
    }
    if i >= to {
        return None;
    }
    while i < to
        invariant
            cs@ == s@,
            from <= i <= to,
            to <= cs@.len(),
            i < to || comps@.len() > 0,
            forall|x: int|
                0 <= x < comps@.len() ==> (#[trigger] comps@[x])@.len() > 0 && forall|y: int|
                    0 <= y < comps@[x]@.len() ==> plain_char(#[trigger] comps@[x]@[y]),
        decreases to - i,
    {
        let start = i;
        let mut j: usize = i;
        while j < to
            invariant
                cs@ == s@,
                start <= j <= to,
                to <= cs@.len(),
                forall|y: int| start <= y < j ==> plain_char(#[trigger] cs@[y]) && cs@[y] != '/',
            decreases to - j,
        {
            let c = cs[j];
            if c == '/' {
                break;
            }
            if c == ':' || c == '!' || c == '[' || c == ']' || c == ',' || c == '=' {
                return None;
            }
            j = j + 1;
        }
        if j == start {
            return None;
        }
        let comp = s.substring_char(start, j).to_owned();
        proof {
            assert(comp@ == s@.subrange(start as int, j as int));
            assert forall|y: int| 0 <= y < comp@.len() implies plain_char(
                #[trigger] comp@[y],
            ) by {
                assert(comp@[y] == cs@[start + y]);
            };
        }
        comps.push(comp);
        if j >= to {
            i = j;
        } else {
            // a slash: another component must follow
            if j + 1 >= to {
                return None;
            }
            i = j + 1;
        }
    }
    proof {
        assert(path_view(comps@).len() == comps@.len());
        assert forall|x: int| 0 <= x < path_view(comps@).len() implies (
        #[trigger] path_view(comps@)[x]).len() > 0 by {
            assert(path_view(comps@)[x] == comps@[x]@);
        };
        assert forall|x: int| 0 <= x < path_view(comps@).len() implies ((
        #[trigger] path_view(comps@)[x]).len() > 0 && forall|y: int|
            0 <= y < path_view(comps@)[x].len() ==> plain_char(
                #[trigger] path_view(comps@)[x][y],
            )) by {
            assert(path_view(comps@)[x] == comps@[x]@);
            assert forall|y: int| 0 <= y < path_view(comps@)[x].len() implies plain_char(
                #[trigger] path_view(comps@)[x][y],
            ) by {
                assert(path_view(comps@)[x][y] == comps@[x]@[y]);
                assert(plain_char(comps@[x]@[y]));
            };
        };
        assert(path_wf(path_view(comps@)));
    }
    Some(comps)
}

/// Parse the range `[from, to)` as a whole filter expression: a run of
/// segments, each opened by `:` or `!`.  `None` stands for unrecognized.
fn parse_range(s: &str, cs: &Vec<char>, from: usize, to: usize) -> (r: Option<Filter>)
    requires
        cs@ == s@,
        from <= to <= cs@.len(),
    ensures
        r matches Some(f) ==> f.wf(),
    decreases to - from, 1int,
{
    if from >= to {
        return Some(Filter::Nop);
    }
    let c0 = cs[from];
    if c0 != ':' && c0 != '!' {
        return None;
    }
    // find the end of this segment: the next top-level ':'
    let mut depth: usize = 0;
    let mut j: usize = from + 1;
    while j < to
        invariant
            cs@ == s@,
            from + 1 <= j <= to,
            to <= cs@.len(),
        decreases to - j,
    {
        let c = cs[j];
        if depth == 0 && c == ':' {
            break;
        }
        if c == '[' {
            if depth == usize::MAX {
                return None;
            }
            depth = depth + 1;
        }
        if c == ']' {
            if depth == 0 {
                return None;
            }
            depth = depth - 1;
        }
        j = j + 1;
    }
    let seg = match parse_seg(s, cs, from, j, to) {
        Some(f) => f,
        None => {
            return None;
        },
    };
    if j >= to {
        return Some(seg);
    }
    let rest = match parse_range(s, cs, j, to) {
        Some(f) => f,
        None => {
            return None;
        },
    };
    if matches!(seg, Filter::Nop) {
        return Some(rest);
    }
    if matches!(rest, Filter::Nop) {
        return Some(seg);
    }
    Some(Filter::Chain(Box::new(seg), Box::new(rest)))
}

/// Parse one segment `[from, j)`; `to` only bounds the measure.
fn parse_seg(s: &str, cs: &Vec<char>, from: usize, j: usize, to: usize) -> (r: Option<Filter>)
    requires
        cs@ == s@,
        from < j <= to <= cs@.len(),
    ensures
        r matches Some(f) ==> f.wf(),
    decreases to - from, 0int,
{
    let body_start = from + 1;
    if body_start >= j {
        return None;
    }
    if cs[from] == '!' {
        // `!path` is the other spelling of the subdirectory filter
        return match parse_comps(s, cs, body_start, j, false) {
            Some(p) => Some(Filter::Subdir(p)),
            None => None,
        };
    }
    let c = cs[body_start];
    if c == '/' {
        match parse_comps(s, cs, body_start, j, true) {
            Some(p) => Some(Filter::Subdir(p)),
            None => None,
        }
    } else if c == '!' {
        match parse_comps(s, cs, body_start + 1, j, false) {
            Some(p) => Some(Filter::Subdir(p)),
            None => None,
        }
    } else if c == 'n' && j - body_start == 3 {
        if cs[body_start + 1] == 'o' && cs[body_start + 2] == 'p' {
            Some(Filter::Nop)
        } else {
            None
        }
    } else if c == '[' {
        if j - from < 3 {
            return None;
        }
        if cs[j - 1] != ']' {
            return None;
        }
        parse_union(s, cs, body_start + 1, j - 1, to)
    } else if c == 'p' && j - body_start >= 7 {
        if cs[body_start + 1] == 'r' && cs[body_start + 2] == 'e' && cs[body_start + 3] == 'f'
            && cs[body_start + 4] == 'i' && cs[body_start + 5] == 'x' && cs[body_start + 6]
            == '=' {
            match parse_comps(s, cs, body_start + 7, j, false) {
                Some(p) => Some(Filter::Prefix(p)),
                None => None,
            }
        } else {
            None
        }
    } else {
        None
    }
}

/// Parse the comma-separated branches of a union body `[from, j)`.
fn parse_union(s: &str, cs: &Vec<char>, from: usize, j: usize, to: usize) -> (r: Option<Filter>)
    requires
        cs@ == s@,
        from <= j <= to <= cs@.len(),
        from >= 2,
        j + 1 <= to,
    ensures
        r matches Some(f) ==> f.wf(),
    decreases to - from, 0int,
{
    let mut branches: Vec<Filter> = Vec::new();
    let mut i: usize = from;
    loop
        invariant
            cs@ == s@,
            from <= i <= j,
            j + 1 <= to <= cs@.len(),
            from >= 2,
            forall|x: int| 0 <= x < branches@.len() ==> (#[trigger] branches@[x]).wf(),
        decreases j - i,
    {
        let mut depth: usize = 0;
        let mut k: usize = i;
        while k < j
            invariant
                cs@ == s@,
                i <= k <= j,
                j <= cs@.len(),
            decreases j - k,
        {
            let c = cs[k];
            if depth == 0 && c == ',' {
                break;
            }
            if c == '[' {
                if depth == usize::MAX {
                    return None;
                }
                depth = depth + 1;
            }
            if c == ']' {
                if depth == 0 {
                    return None;
                }
                depth = depth - 1;
            }
            k = k + 1;
        }
        let piece = match parse_range(s, cs, i, k) {
            Some(f) => f,
            None => {
                return None;
            },
        };
        branches.push(piece);
        if k >= j {
            break;
        }
        if k + 1 > j {
            return None;
        }
        i = k + 1;
        if i >= j {
            // a trailing comma leaves an empty branch
            return None;
        }
    }
    if branches.len() == 0 {
        return None;
    }
    Some(Filter::Union(branches))
}

/// Parse a filter expression.  Parsing is total: the empty string and any
/// unrecognized input fall back to the identity.
pub fn parse(s: &str) -> (r: Filter)
    ensures
        r.wf(),
        s@ == nop_seq_chars() ==> r == Filter::Nop,
        s@.len() == 0 ==> r == Filter::Nop,
{
    if crate::cache::is_nop(s) {
        return Filter::Nop;
    }
    let cs = chars_vec(s);
    if cs.len() == 0 {
        return Filter::Nop;
    }
    match parse_range(s, cs_ref(&cs), 0, cs.len()) {
        Some(f) => f,
        None => Filter::Nop,
    }
}

/// A borrow, to hand the character list on.
fn cs_ref(cs: &Vec<char>) -> (r: &Vec<char>)
    ensures
        r@ == cs@,
{
    cs
}

/// The spelling of the identity filter, as characters.
pub open spec fn nop_seq_chars() -> Seq<char> {
    crate::cache::nop_seq()
}

} // verus!
