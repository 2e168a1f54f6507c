//! The dispatcher's pure parts: URLs, credentials, the fetch gate, the
//! update hook's wire data, and the review-host hook decisions.

use josh::auth::{hash_strings, parse_auth};
use josh::fetch::{credentials_cached_ok, fetch_can_skip, status_for_fetch, CredentialCache,
    FetchOutcome};
use josh::gerrit::{hook_decision, Gerrit, HookAction};
use josh::hook::{hook_exit_code, repo_update_from_pairs, repo_update_pairs, RepoUpdate};
use josh::oid::Oid;
use josh::refs::RefStore;
use josh::urls::{collapse_slashes, default_filter, default_headref, parse_url, route, Route};

fn oid(b: u8) -> Oid {
    let mut v = vec![0u8; 20];
    v[0] = b;
    Oid::from_bytes(v).unwrap()
}

#[test]
fn collapse_runs_of_slashes() {
    assert_eq!(collapse_slashes("//u///r.git"), "/u/r.git");
    assert_eq!(collapse_slashes("/a/b"), "/a/b");
    assert_eq!(collapse_slashes(""), "");
}

#[test]
fn parse_plain_clone_url() {
    let u = parse_url("/u/r.git").unwrap();
    assert_eq!(u.upstream_repo, "/u/r.git");
    assert_eq!(u.headref, "");
    assert_eq!(u.filter, "");
    assert_eq!(u.pathinfo, "");
}

#[test]
fn parse_url_with_pathinfo() {
    let u = parse_url("/u/r.git/info/refs").unwrap();
    assert_eq!(u.upstream_repo, "/u/r.git");
    assert_eq!(u.pathinfo, "/info/refs");
}

#[test]
fn parse_filtered_url() {
    let u = parse_url("/u/r.git:/a.git").unwrap();
    assert_eq!(u.upstream_repo, "/u/r.git");
    assert_eq!(u.filter, ":/a");
    assert_eq!(u.pathinfo, "");
    let u2 = parse_url("/u/r.git:/a.git/info/refs").unwrap();
    assert_eq!(u2.filter, ":/a");
    assert_eq!(u2.pathinfo, "/info/refs");
}

#[test]
fn parse_url_with_headref() {
    let u = parse_url("/u/r.git@refs/heads/dev:/a.git").unwrap();
    assert_eq!(u.upstream_repo, "/u/r.git");
    assert_eq!(u.headref, "@refs/heads/dev");
    assert_eq!(u.filter, ":/a");
}

#[test]
fn parse_rejects_shapeless_paths() {
    assert!(parse_url("").is_none());
    assert!(parse_url("nogit").is_none());
    assert!(parse_url("/u/r").is_none());
}

#[test]
fn url_defaults() {
    assert_eq!(default_headref(""), "refs/heads/master");
    assert_eq!(default_headref("@refs/heads/dev"), "refs/heads/dev");
    assert_eq!(default_filter(""), ":nop");
    assert_eq!(default_filter(":/a"), ":/a");
}

#[test]
fn routes() {
    assert!(matches!(route("/version"), Route::Version));
    assert!(matches!(route("/flush"), Route::Flush));
    assert!(matches!(route("/filters"), Route::Filters));
    assert!(matches!(route("/repo_update"), Route::RepoUpdate));
    match route("/@kv/some/key") {
        Route::Kv(k) => assert_eq!(k, "some/key"),
        _ => panic!("expected the key-value route"),
    }
    match route("/u/r.git") {
        Route::Repo(u) => assert_eq!(u.upstream_repo, "/u/r.git"),
        _ => panic!("expected the repository route"),
    }
    assert!(matches!(route("zzz"), Route::NotFound));
}

#[test]
fn basic_auth_is_read() {
    let header = b"Basic dXNlcjpwYXNz".to_vec();
    let (user, pass) = parse_auth(Some(&header));
    assert_eq!(user, "user");
    assert_eq!(pass.value, "pass");
}

#[test]
fn bad_auth_yields_blank() {
    assert_eq!(parse_auth(None).0, "");
    let no_colon = base64::encode("userpass");
    let mut h = b"Basic ".to_vec();
    h.extend_from_slice(no_colon.as_bytes());
    let (u, p) = parse_auth(Some(&h));
    assert_eq!(u, "");
    assert_eq!(p.value, "");
    let two_colons = base64::encode("a:b:c");
    let mut h2 = b"Basic ".to_vec();
    h2.extend_from_slice(two_colons.as_bytes());
    assert_eq!(parse_auth(Some(&h2)).0, "");
    let garbage = b"Basic !!!".to_vec();
    assert_eq!(parse_auth(Some(&garbage)).0, "");
    let short = b"Bas".to_vec();
    assert_eq!(parse_auth(Some(&short)).0, "");
}

#[test]
fn credential_hash_digests() {
    let h = hash_strings("http://u", "user", "pass");
    // a 40-character hex digest, not the joined input
    assert_eq!(h.len(), 40);
    assert!(h.chars().all(|c| c.is_ascii_hexdigit()));
    assert_eq!(h, hash_strings("http://u", "user", "pass"));
    assert_ne!(h, hash_strings("http://u", "user", "other"));
}

#[test]
fn credential_cache_gates_fetches() {
    let mut cache = CredentialCache::new();
    let mut refs = RefStore::new();
    refs.set_ref("refs/heads/master", oid(1));
    let h = hash_strings("http://u", "user", "pass");
    // never authenticated: fetch
    assert!(!fetch_can_skip(&cache, &h, 100, &refs, "refs/heads/master"));
    cache.record(&h, 100);
    // fresh and present: skip, so one authentication serves both fetches
    assert!(fetch_can_skip(&cache, &h, 159, &refs, "refs/heads/master"));
    assert!(credentials_cached_ok(&cache, &h, 159));
    // stale: fetch again
    assert!(!credentials_cached_ok(&cache, &h, 160));
    // fresh but the wanted head is missing: fetch
    assert!(!fetch_can_skip(&cache, &h, 120, &refs, "refs/heads/dev"));
    cache.clear();
    assert!(!credentials_cached_ok(&cache, &h, 101));
}

#[test]
fn fetch_status_mapping() {
    assert_eq!(status_for_fetch(&FetchOutcome::Authorized), 200);
    assert_eq!(status_for_fetch(&FetchOutcome::Unauthorized), 401);
    assert_eq!(status_for_fetch(&FetchOutcome::Error), 500);
}

#[test]
fn namespace_release_clears_only_its_refs() {
    let mut refs = RefStore::new();
    refs.set_ref("refs/namespaces/n1/refs/heads/master", oid(1));
    refs.set_ref("refs/namespaces/n1/HEAD", oid(2));
    refs.set_ref("refs/namespaces/n2/refs/heads/master", oid(3));
    refs.set_ref("refs/heads/master", oid(4));
    refs.delete_prefix("refs/namespaces/n1/");
    assert!(!refs.any_with_prefix("refs/namespaces/n1/"));
    assert!(refs.resolve("refs/namespaces/n2/refs/heads/master").unwrap().same(&oid(3)));
    assert!(refs.resolve("refs/heads/master").unwrap().same(&oid(4)));
}

#[test]
fn hook_wire_round_trip() {
    let u = RepoUpdate {
        refname: "refs/heads/master".to_string(),
        old_rev: "0".repeat(40),
        new_rev: "1".repeat(40),
        username: "user".to_string(),
        password: "pass".to_string(),
        remote_url: "http://u/r.git".to_string(),
        base_ns: "u/r".to_string(),
        filter_spec: ":/a".to_string(),
        namespace: "n1".to_string(),
        git_dir: "/tmp/repo".to_string(),
    };
    let pairs = repo_update_pairs(&u);
    assert_eq!(pairs.len(), 10);
    let v = repo_update_from_pairs(&pairs).unwrap();
    assert_eq!(v.refname, u.refname);
    assert_eq!(v.new_rev, u.new_rev);
    assert_eq!(v.filter_spec, u.filter_spec);
    assert_eq!(v.namespace, u.namespace);
    // a missing field refuses the notification
    let partial = vec![("refname".to_string(), "r".to_string())];
    assert!(repo_update_from_pairs(&partial).is_none());
}

#[test]
fn hook_exit_codes() {
    assert_eq!(hook_exit_code(200), 0);
    assert_eq!(hook_exit_code(299), 0);
    assert_eq!(hook_exit_code(300), 1);
    assert_eq!(hook_exit_code(404), 1);
    assert_eq!(hook_exit_code(500), 1);
}

#[test]
fn review_host_decisions() {
    let zero = "0".repeat(40);
    let one = "1".repeat(40);
    // a module push to the review ref is uploaded for review
    assert!(matches!(
        hook_decision("/hooks/ref-update", "refs/for/master", "mod", &one, "user"),
        HookAction::Review
    ));
    // a direct push by a person is refused
    assert!(matches!(
        hook_decision("/hooks/ref-update", "refs/heads/master", "mod", &one, "user"),
        HookAction::RejectNonReview
    ));
    // the automation may push directly
    assert!(matches!(
        hook_decision("/hooks/ref-update", "refs/heads/master", "central", &one, "Automation Bot"),
        HookAction::RejectSecondImport
    ));
    // the first import of the central repository goes through
    assert!(matches!(
        hook_decision("/hooks/ref-update", "refs/heads/master", "central", &zero, "user"),
        HookAction::InitialImport
    ));
    assert!(matches!(
        hook_decision("/hooks/change-merged", "", "mod", &zero, "user"),
        HookAction::Submit
    ));
    assert!(matches!(
        hook_decision("/hooks/project-created", "", "mod", &zero, "user"),
        HookAction::ProjectCreated
    ));
}

#[test]
fn review_host_urls() {
    let g = Gerrit::new("/opt/gerrit".to_string());
    assert_eq!(g.fetch_url("mod"), "/opt/gerrit/git/mod.git");
    assert_eq!(g.remote_url("mod"), "ssh://automation@gerrit-test-git:29418/mod");
    assert_eq!(g.central(), "central");
}
