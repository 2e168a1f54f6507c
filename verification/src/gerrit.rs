//! The review-host hook: URLs of a review host's repositories and the
//! decision the hook takes for each invocation.

use vstd::prelude::*;
use vstd::string::StrSliceExecFns;
use vstd::string::StringExecFns;
use crate::filters::chars_vec;

verus! {

/// The all-zero revision, which marks an initial push.
pub open spec fn zero_rev() -> Seq<char> {
    "0000000000000000000000000000000000000000"@
}

/// Whether `s` ends with `suffix`.
pub open spec fn chars_end_with(s: Seq<char>, suffix: Seq<char>) -> bool {
    suffix.len() <= s.len() && s.skip(s.len() - suffix.len()) == suffix
}

/// Whether `pat` occurs in `s`.
pub open spec fn chars_contain(s: Seq<char>, pat: Seq<char>) -> bool {
    exists|i: int|
        0 <= i <= s.len() - pat.len() && #[trigger] s.subrange(i, i + pat.len() as int) == pat
}

/// Whether the string ends with the suffix.
pub fn str_ends_with(s: &str, suffix: &str) -> (r: bool)
    ensures
        r == chars_end_with(s@, suffix@),
{
    let sc = chars_vec(s);
    let pc = chars_vec(suffix);
    if pc.len() > sc.len() {
        return false;
    }
    let n = pc.len();
    let off = sc.len() - n;
    let mut i: usize = 0;
    while i < n
        invariant
            sc@ == s@,
            pc@ == suffix@,
            n == pc@.len(),
            n <= sc@.len(),
            off == sc@.len() - n,
            off + n <= usize::MAX,
            i <= n,
            forall|j: int| 0 <= j < i ==> sc@[off + j] == pc@[j],
        decreases n - i,
    {
        if sc[off + i] != pc[i] {
            proof {
                assert(s@.skip(s@.len() - suffix@.len())[i as int] != suffix@[i as int]);
            }
            return false;
        }
        i = i + 1;
    }
    proof {
        assert(s@.skip(s@.len() - suffix@.len()) =~= suffix@);
    }
    true
}

/// Whether the pattern occurs in the string.
pub fn str_contains(s: &str, pat: &str) -> (r: bool)
    ensures
        r == chars_contain(s@, pat@),
{
    let sc = chars_vec(s);
    let pc = chars_vec(pat);
    let m = pc.len();
    let n = sc.len();
    if m > n {
        proof {
            if chars_contain(s@, pat@) {
                let i = choose|i: int|
                    0 <= i <= s@.len() - pat@.len() && #[trigger] s@.subrange(
                        i,
                        i + pat@.len() as int,
                    ) == pat@;
            }
        }
        return false;
    }
    let mut start: usize = 0;
    while start <= n - m
        invariant
            sc@ == s@,
            pc@ == pat@,
            m == pc@.len(),
            n == sc@.len(),
            m <= n,
            start <= n - m + 1,
            forall|i: int|
                0 <= i < start ==> #[trigger] s@.subrange(i, i + pat@.len() as int) != pat@,
        decreases n - m + 1 - start,
    {
        let mut k: usize = 0;
        let mut all = true;
        while k < m
            invariant
                sc@ == s@,
                pc@ == pat@,
                m == pc@.len(),
                n == sc@.len(),
                m <= n,
                start <= n - m,
                k <= m,
                all == (forall|j: int| 0 <= j < k ==> s@[start + j] == pat@[j]),
            decreases m - k,
        {
            if sc[start + k] != pc[k] {
                proof {
                    assert(s@[start + (k as int)] != pat@[k as int]);
                }
                all = false;
            }
            k = k + 1;
        }
        if all {
            proof {
                assert(s@.subrange(start as int, start + pat@.len() as int) =~= pat@);
            }
            return true;
        }
        proof {
            if s@.subrange(start as int, start + pat@.len() as int) == pat@ {
                assert(forall|j: int|
                    0 <= j < m ==> #[trigger] s@.subrange(
                        start as int,
                        start + pat@.len() as int,
                    )[j] == s@[start + j]);
            }
        }
        start = start + 1;
    }
    proof {
        if chars_contain(s@, pat@) {
            let i = choose|i: int|
                0 <= i <= s@.len() - pat@.len() && #[trigger] s@.subrange(
                    i,
                    i + pat@.len() as int,
                ) == pat@;
        }
    }
    false
}

/// What the hook does for one invocation.
pub enum HookAction {
    /// Refuse a direct push that is not a review upload.
    RejectNonReview,
    /// A change was merged: submit it to the central repository.
    Submit,
    /// A project was created.
    ProjectCreated,
    /// A module push to the review ref: upload it for review.
    Review,
    /// The first direct push to the central repository: import it.
    InitialImport,
    /// A later direct push to the central repository: refuse it.
    RejectSecondImport,
    /// Nothing to do.
    Ignore,
}

/// The decision, over the plain facts of an invocation.
pub open spec fn hook_decision_spec(
    is_update: bool,
    is_submit: bool,
    is_project_created: bool,
    refname: Seq<char>,
    project: Seq<char>,
    oldrev: Seq<char>,
    uploader: Seq<char>,
) -> HookAction {
    let is_review = is_update && refname == "refs/for/master"@;
    let is_module = project != "central"@;
    let is_initial = oldrev == zero_rev();
    if !is_initial && is_update && !is_review && !chars_contain(uploader, "Automation"@) {
        HookAction::RejectNonReview
    } else if is_submit {
        HookAction::Submit
    } else if is_project_created {
        HookAction::ProjectCreated
    } else if is_review {
        HookAction::Review
    } else if !is_module && is_update && !is_review {
        if is_initial {
            HookAction::InitialImport
        } else {
            HookAction::RejectSecondImport
        }
    } else {
        HookAction::Ignore
    }
}

/// Decide what the hook does, from the hook binary's name and the
/// invocation's facts.
pub fn hook_decision(
    hook_name: &str,
    refname: &str,
    project: &str,
    oldrev: &str,
    uploader: &str,
) -> (r: HookAction)
    ensures
        r == hook_decision_spec(
            chars_end_with(hook_name@, "ref-update"@),
            chars_end_with(hook_name@, "change-merged"@),
            chars_end_with(hook_name@, "project-created"@),
            refname@,
            project@,
            oldrev@,
            uploader@,
        ),
{
    let is_update = str_ends_with(hook_name, "ref-update");
    let is_submit = str_ends_with(hook_name, "change-merged");
    let is_project_created = str_ends_with(hook_name, "project-created");
    let is_review = is_update && refname.to_owned().eq(&("refs/for/master").to_owned());
    let is_module = !project.to_owned().eq(&("central").to_owned());
    let is_initial = oldrev.to_owned().eq(
        &("0000000000000000000000000000000000000000").to_owned(),
    );
    if !is_initial && is_update && !is_review && !str_contains(uploader, "Automation") {
        HookAction::RejectNonReview
    } else if is_submit {
        HookAction::Submit
    } else if is_project_created {
        HookAction::ProjectCreated
    } else if is_review {
        HookAction::Review
    } else if !is_module && is_update && !is_review {
        if is_initial {
            HookAction::InitialImport
        } else {
            HookAction::RejectSecondImport
        }
    } else {
        HookAction::Ignore
    }
}

/// A review host, reached at a filesystem root.
pub struct Gerrit {
    pub path: String,
}

impl Gerrit {
    /// A host at the given root directory.
    pub fn new(path: String) -> (r: Gerrit)
        ensures
            r.path@ == path@,
    {
        Gerrit { path }
    }

    /// The local URL a module is fetched from.
    pub fn fetch_url(&self, module: &str) -> (r: String)
        ensures
            r@ == self.path@ + "/git/"@ + module@ + ".git"@,
    {
        let mut s = self.path.clone();
        s.append("/git/");
        s.append(module);
        s.append(".git");
        proof {
            assert(s@ =~= self.path@ + "/git/"@ + module@ + ".git"@);
        }
        s
    }

    /// The remote URL a module is pushed to.
    pub fn remote_url(&self, module: &str) -> (r: String)
        ensures
            r@ == "ssh://automation@gerrit-test-git:29418/"@ + module@,
    {
        let mut s = ("ssh://automation@gerrit-test-git:29418/").to_owned();
        s.append(module);
        proof {
            assert(s@ =~= "ssh://automation@gerrit-test-git:29418/"@ + module@);
        }
        s
    }

    /// The name of the central repository.
    pub fn central(&self) -> (r: String)
        ensures
            r@ == "central"@,
    {
        ("central").to_owned()
    }
}

} // verus!
