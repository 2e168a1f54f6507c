//! The request dispatcher's pure part: collapsing duplicate slashes,
//! taking a virtual-repository URL apart, and choosing a route.

use vstd::prelude::*;
use vstd::string::StrSliceExecFns;
use crate::filters::chars_vec;
use crate::refs::chars_start_with;

verus! {

/// The path with runs of slashes collapsed, from position `i` on, given
/// whether a slash was just written.
pub open spec fn collapse_from(s: Seq<char>, i: int, prev_slash: bool) -> Seq<char>
    decreases s.len() - i,
{
    if i < 0 || i >= s.len() {
        Seq::empty()
    } else if s[i] == '/' && prev_slash {
        collapse_from(s, i + 1, true)
    } else {
        seq![s[i]] + collapse_from(s, i + 1, s[i] == '/')
    }
}

/// Collapse every run of slashes in the path to a single slash.
pub fn collapse_slashes(path: &str) -> (r: String)
    ensures
        r@ == collapse_from(path@, 0, false),
{
    let cs = chars_vec(path);
    let n = cs.len();
    let mut out = String::new();
    let mut prev_slash = false;
    let mut i: usize = 0;
    while i < n
        invariant
            cs@ == path@,
            n == cs@.len(),
            i <= n,
            collapse_from(path@, 0, false) == out@ + collapse_from(path@, i as int, prev_slash),
        decreases n - i,
    {
        let c = cs[i];
        if c == '/' && prev_slash {
            proof {
                assert(collapse_from(path@, i as int, true) == collapse_from(path@, i + 1, true));
            }
        } else {
            let ghost out_old = out@;
            out.append(path.substring_char(i, i + 1));
            proof {
                assert(path@.subrange(i as int, i + 1) =~= seq![path@[i as int]]);
                assert(out@ =~= out_old + seq![path@[i as int]]);
                assert(out_old + collapse_from(path@, i as int, prev_slash) =~= out@
                    + collapse_from(path@, i + 1, path@[i as int] == '/'));
            }
            prev_slash = c == '/';
        }
        i = i + 1;
    }
    proof {
        assert(out@ + collapse_from(path@, n as int, prev_slash) =~= out@);
    }
    out
}

/// A virtual-repository URL, taken apart:
/// `/<upstream>.git(@<headref>)?(<filter>.git)?(<pathinfo>)?`.
pub struct ParsedUrl {
    /// The upstream repository, with its `.git`.
    pub upstream_repo: String,
    /// The raw head ref, with its leading `@`, or empty.
    pub headref: String,
    /// The raw filter expression, or empty.
    pub filter: String,
    /// The rest of the path, or empty.
    pub pathinfo: String,
}

/// Whether the four characters at `g` spell `.git`.
pub open spec fn dot_git_at(s: Seq<char>, g: int) -> bool {
    0 <= g && g + 4 <= s.len() && s[g] == '.' && s[g + 1] == 'g' && s[g + 2] == 'i' && s[g + 3]
        == 't'
}

/// Whether the four characters before `e` spell `.git`.
fn check_dot_git(cs: &Vec<char>, g: usize) -> (r: bool)
    requires
        g + 4 <= cs@.len(),
    ensures
        r == dot_git_at(cs@, g as int),
{
    let n = cs.len();
    cs[g] == '.' && cs[g + 1] == 'g' && cs[g + 2] == 'i' && cs[g + 3] == 't'
}

impl ParsedUrl {
    /// The decomposition this value stands for: gluing the parts back
    /// together gives the parsed path.
    pub open spec fn reassembles(self, s: Seq<char>) -> bool {
        s == self.upstream_repo@ + self.headref@ + (if self.filter@.len() == 0 {
            Seq::<char>::empty()
        } else {
            self.filter@ + ".git"@
        }) + self.pathinfo@
    }

    /// The shapes of the parts.
    pub open spec fn shaped(self) -> bool {
        let up = self.upstream_repo@;
        up.len() >= 5 && up[0] == '/' && dot_git_at(up, up.len() - 4) && (forall|j: int|
            0 <= j < up.len() ==> up[j] != ':' && up[j] != '!' && (j > 0 ==> up[j] != '@'))
            && (self.headref@.len() == 0 || self.headref@[0] == '@') && (forall|j: int|
            0 <= j < self.headref@.len() ==> #[trigger] self.headref@[j] != ':'
                && self.headref@[j] != '!') && (self.filter@.len() == 0 || self.filter@[0] == ':'
            || self.filter@[0] == '!') && (self.pathinfo@.len() == 0 || self.pathinfo@[0] == '/')
    }
}

/// Take a virtual-repository URL apart.  `None` when the path does not
/// have the shape `/<upstream>.git(@<headref>)?(<filter>.git)?(/<pathinfo>)?`;
/// the dispatcher answers such a path with its not-found status.
#[verifier::rlimit(60)]
pub fn parse_url(path: &str) -> (r: Option<ParsedUrl>)
    ensures
        r matches Some(u) ==> u.reassembles(path@) && u.shaped(),
        path@.len() == 0 ==> r is None,
        path@.len() > 0 && path@[0] == '/' && (forall|j: int|
            0 <= j < path@.len() ==> #[trigger] path@[j] != ':' && path@[j] != '!') && (forall|
            j: int,
        |
            1 <= j < path@.len() ==> #[trigger] path@[j] != '@') && (exists|g: int|
            dot_git_at(path@, g) && (g + 4 == path@.len() || path@[g + 4] == '/')) ==> r is Some,
{
    let cs = chars_vec(path);
    let n = cs.len();
    if n == 0 || cs[0] != '/' {
        return None;
    }
    // the first ':' or '!' opens the filter part
    let mut stop1: usize = 1;
    let mut has_sep = false;
    while stop1 < n
        invariant
            cs@ == path@,
            n == cs@.len(),
            cs@[0] == '/',
            1 <= stop1 <= n,
            forall|j: int| 0 <= j < stop1 ==> #[trigger] cs@[j] != ':' && cs@[j] != '!',
            has_sep ==> stop1 < n && (cs@[stop1 as int] == ':' || cs@[stop1 as int] == '!'),
        ensures
            1 <= stop1 <= n,
            forall|j: int| 0 <= j < stop1 ==> #[trigger] cs@[j] != ':' && cs@[j] != '!',
            has_sep ==> stop1 < n && (cs@[stop1 as int] == ':' || cs@[stop1 as int] == '!'),
            !has_sep ==> stop1 == n,
        decreases n - stop1,
    {
        let c = cs[stop1];
        if c == ':' || c == '!' {
            has_sep = true;
            break;
        }
        stop1 = stop1 + 1;
    }
    // the first '@' before it opens the head ref
    let mut at: usize = 1;
    let mut has_at = false;
    while at < stop1
        invariant
            cs@ == path@,
            n == cs@.len(),
            stop1 <= n,
            1 <= at <= stop1,
            forall|j: int| 1 <= j < at ==> #[trigger] cs@[j] != '@',
            has_at ==> at < stop1 && cs@[at as int] == '@',
        ensures
            1 <= at <= stop1,
            forall|j: int| 1 <= j < at ==> #[trigger] cs@[j] != '@',
            has_at ==> at < stop1 && cs@[at as int] == '@',
            !has_at ==> at == stop1,
        decreases stop1 - at,
    {
        if cs[at] == '@' {
            has_at = true;
            break;
        }
        at = at + 1;
    }
    let upstream_end: usize;
    let headref_start: usize;
    if has_at {
        // an '@' is there: the upstream must close with `.git` right before
        if at < 4 || !check_dot_git(&cs, at - 4) {
            return None;
        }
        upstream_end = at;
        headref_start = at;
    } else if has_sep {
        // a filter follows directly
        if stop1 < 4 || !check_dot_git(&cs, stop1 - 4) {
            return None;
        }
        upstream_end = stop1;
        headref_start = stop1;
    } else {
        // neither head ref nor filter: the upstream closes at the last
        // `.git` that a path segment boundary follows
        let mut g: usize = n;
        let mut found = false;
        let mut scan: usize = n;
        while scan > 0
            invariant
                cs@ == path@,
                n == cs@.len(),
                scan <= n,
                found ==> g + 4 <= n && dot_git_at(cs@, g as int) && (g + 4 == n || cs@[g + 4]
                    == '/'),
                !found ==> forall|g2: int|
                    scan <= g2 && dot_git_at(cs@, g2) ==> !(g2 + 4 == n || cs@[g2 + 4] == '/'),
            ensures
                found ==> g + 4 <= n && dot_git_at(cs@, g as int) && (g + 4 == n || cs@[g + 4]
                    == '/'),
                !found ==> forall|g2: int|
                    dot_git_at(cs@, g2) ==> !(g2 + 4 == n || cs@[g2 + 4] == '/'),
            decreases scan,
        {
            scan = scan - 1;
            if n - scan >= 4 && check_dot_git(&cs, scan) {
                if scan + 4 == n || cs[scan + 4] == '/' {
                    g = scan;
                    found = true;
                    break;
                }
            }
        }
        if !found {
            return None;
        }
        let up = path.substring_char(0, g + 4).to_owned();
        let pi = path.substring_char(g + 4, n).to_owned();
        let u = ParsedUrl {
            upstream_repo: up,
            headref: String::new(),
            filter: String::new(),
            pathinfo: pi,
        };
        proof {
            assert(u.upstream_repo@ + u.headref@ + Seq::<char>::empty() + u.pathinfo@
                =~= path@);
            assert(u.upstream_repo@[0] == path@[0]);
            assert(dot_git_at(u.upstream_repo@, u.upstream_repo@.len() - 4));
            assert(stop1 == n);
            assert(at == stop1);
            assert(forall|j: int| 0 <= j < stop1 ==> #[trigger] cs@[j] != ':' && cs@[j] != '!');
            assert(forall|j: int| 1 <= j < at ==> #[trigger] cs@[j] != '@');
            assert forall|j: int| 0 <= j < u.upstream_repo@.len() implies u.upstream_repo@[j]
                != ':' && u.upstream_repo@[j] != '!' && (j > 0 ==> u.upstream_repo@[j] != '@') by {
                assert(u.upstream_repo@[j] == cs@[j]);
                assert(0 <= j < stop1);
            };
            if u.pathinfo@.len() > 0 {
                assert(u.pathinfo@[0] == cs@[g + 4]);
            }
        }
        return Some(u);
    }
    // the head ref runs to the filter part
    let filter_start = stop1;
    let filter_end: usize;
    let path_start: usize;
    if !has_sep {
        filter_end = stop1;
        path_start = n;
    } else {
        // the filter closes at the last `.git` that a path segment
        // boundary follows
        let mut g: usize = n;
        let mut found = false;
        let mut scan: usize = n;
        while scan > stop1
            invariant
                cs@ == path@,
                n == cs@.len(),
                stop1 < n,
                stop1 <= scan <= n,
                found ==> stop1 < g && g + 4 <= n && dot_git_at(cs@, g as int) && (g + 4 == n
                    || cs@[g + 4] == '/'),
            decreases scan,
        {
            scan = scan - 1;
            if scan > stop1 && n - scan >= 4 && check_dot_git(&cs, scan) {
                if scan + 4 == n || cs[scan + 4] == '/' {
                    g = scan;
                    found = true;
                    break;
                }
            }
        }
        if !found {
            return None;
        }
        filter_end = g;
        path_start = g + 4;
    }
    let up = path.substring_char(0, upstream_end).to_owned();
    let hr = path.substring_char(headref_start, filter_start).to_owned();
    let fl = path.substring_char(filter_start, filter_end).to_owned();
    let pi = path.substring_char(path_start, n).to_owned();
    let u = ParsedUrl { upstream_repo: up, headref: hr, filter: fl, pathinfo: pi };
    proof {
        if u.filter@.len() == 0 {
            assert(u.upstream_repo@ + u.headref@ + Seq::<char>::empty() + u.pathinfo@
                =~= path@);
        } else {
            assert(".git"@ =~= path@.subrange(filter_end as int, path_start as int)) by {
                reveal_strlit(".git");
            };
            assert(u.upstream_repo@ + u.headref@ + (u.filter@ + ".git"@) + u.pathinfo@
                =~= path@);
        }
        assert(u.upstream_repo@[0] == path@[0]);
        assert(dot_git_at(u.upstream_repo@, u.upstream_repo@.len() - 4));
        assert forall|j: int| 0 <= j < u.upstream_repo@.len() implies u.upstream_repo@[j] != ':'
            && u.upstream_repo@[j] != '!' && (j > 0 ==> u.upstream_repo@[j] != '@') by {
            assert(u.upstream_repo@[j] == cs@[j]);
        };
        assert forall|j: int| 0 <= j < u.headref@.len() implies u.headref@[j] != ':'
            && u.headref@[j] != '!' by {
            assert(u.headref@[j] == cs@[headref_start + j]);
        };
        if u.headref@.len() > 0 {
            assert(u.headref@[0] == cs@[headref_start as int]);
            assert(cs@[headref_start as int] == '@');
        }
        if u.filter@.len() > 0 {
            assert(u.filter@[0] == cs@[filter_start as int]);
        }
        if u.pathinfo@.len() > 0 {
            assert(u.pathinfo@[0] == cs@[path_start as int]);
        }
    }
    Some(u)
}

/// Where a request goes.
pub enum Route {
    /// The version endpoint.
    Version,
    /// Clear the credential cache.
    Flush,
    /// The discovered-filters listing.
    Filters,
    /// The update hook's callback.
    RepoUpdate,
    /// The in-memory key-value store, with the key.
    Kv(String),
    /// A virtual repository.
    Repo(ParsedUrl),
    /// Nothing matched.
    NotFound,
}

/// Choose the route for a collapsed path.  The static endpoints come
/// first, then the update-hook callback, then the key-value store, and
/// every other path is read as a virtual-repository URL.
#[verifier::rlimit(60)]
pub fn route(path: &str) -> (r: Route)
    ensures
        path@ == "/version"@ ==> r is Version,
        path@ == "/flush"@ ==> r is Flush,
        path@ == "/filters"@ ==> r is Filters,
        path@ == "/repo_update"@ ==> r is RepoUpdate,
        chars_start_with(path@, "/@kv/"@) && path@ != "/version"@ && path@ != "/flush"@ && path@
            != "/filters"@ && path@ != "/repo_update"@ ==> (r matches Route::Kv(k) && k@
            == path@.skip(5)),
        r is Version ==> path@ == "/version"@,
        r is Flush ==> path@ == "/flush"@,
        r is Filters ==> path@ == "/filters"@,
        r is RepoUpdate ==> path@ == "/repo_update"@,
        r matches Route::Kv(k) ==> chars_start_with(path@, "/@kv/"@) && k@ == path@.skip(5),
        r matches Route::Repo(u) ==> u.reassembles(path@) && u.shaped(),
        r is NotFound ==> path@ != "/version"@ && path@ != "/flush"@ && path@ != "/filters"@
            && path@ != "/repo_update"@ && !chars_start_with(path@, "/@kv/"@),
{
    let p = path.to_owned();
    proof {
        reveal_strlit("/version");
        reveal_strlit("/flush");
        reveal_strlit("/filters");
        reveal_strlit("/repo_update");
        assert("/version"@.len() == 8);
        assert("/flush"@.len() == 6);
        assert("/filters"@.len() == 8);
        assert("/repo_update"@.len() == 12);
        assert("/version"@ != "/filters"@) by {
            assert("/version"@[1] == 'v');
            assert("/filters"@[1] == 'f');
        };
    }
    if p.eq(&("/version").to_owned()) {
        return Route::Version;
    }
    if p.eq(&("/flush").to_owned()) {
        return Route::Flush;
    }
    if p.eq(&("/filters").to_owned()) {
        return Route::Filters;
    }
    if p.eq(&("/repo_update").to_owned()) {
        return Route::RepoUpdate;
    }
    let cs = chars_vec(path);
    let kv = ("/@kv/").to_owned();
    let kvc = chars_vec(kv.as_str());
    proof {
        reveal_strlit("/@kv/");
    }
    let mut is_kv = false;
    if cs.len() >= 5 {
        is_kv = true;
        let mut i: usize = 0;
        while i < 5
            invariant
                cs@ == path@,
                kvc@ == "/@kv/"@,
                kvc@.len() == 5,
                cs@.len() >= 5,
                i <= 5,
                is_kv == (forall|j: int| 0 <= j < i ==> cs@[j] == kvc@[j]),
            decreases 5 - i,
        {
            if cs[i] != kvc[i] {
                proof {
                    assert(cs@[i as int] != kvc@[i as int]);
                }
                is_kv = false;
            }
            i = i + 1;
        }
    }
    proof {
        assert(is_kv == chars_start_with(path@, "/@kv/"@)) by {
            if is_kv {
                assert(path@.take(5) =~= "/@kv/"@);
            } else {
                if chars_start_with(path@, "/@kv/"@) {
                    assert(path@.len() >= 5);
                    assert(forall|j: int|
                        0 <= j < 5 ==> #[trigger] path@[j] == path@.take(5)[j]);
                }
            }
        };
    }
    if is_kv {
        let key = path.substring_char(5, cs.len()).to_owned();
        proof {
            assert(key@ =~= path@.skip(5));
        }
        return Route::Kv(key);
    }
    match parse_url(path) {
        Some(u) => Route::Repo(u),
        None => Route::NotFound,
    }
}

/// The head ref a request uses: the parsed one without its `@`, or the
/// master branch when none was given.
pub fn default_headref(headref: &str) -> (r: String)
    ensures
        headref@.len() == 0 ==> r@ == "refs/heads/master"@,
        headref@.len() > 0 && headref@[0] == '@' ==> r@ == headref@.skip(1),
        headref@.len() > 0 && headref@[0] != '@' ==> r@ == headref@,
{
    let cs = chars_vec(headref);
    if cs.len() == 0 {
        return ("refs/heads/master").to_owned();
    }
    if cs[0] == '@' {
        let r = headref.substring_char(1, cs.len()).to_owned();
        proof {
            assert(r@ =~= headref@.skip(1));
        }
        return r;
    }
    headref.to_owned()
}

/// The filter spec a request uses: the parsed one, or the identity when
/// none was given.
pub fn default_filter(filter: &str) -> (r: String)
    ensures
        filter@.len() == 0 ==> r@ == ":nop"@,
        filter@.len() > 0 ==> r@ == filter@,
{
    let cs = chars_vec(filter);
    if cs.len() == 0 {
        return (":nop").to_owned();
    }
    filter.to_owned()
}

} // verus!


