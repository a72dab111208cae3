//! Where a published walkthrough appears: the GitHub repository behind a git
//! remote URL, and the Pages URL and deploy check.

use vstd::prelude::*;
use crate::text::{chars_of, push_char, string_of_chars, trim, trim_chars};

verus! {

/// `s` without every trailing repetition of `p` (`str::trim_end_matches`).
pub open spec fn trim_suffix_all(s: Seq<char>, p: Seq<char>) -> Seq<char>
    decreases s.len(),
{
    if p.len() > 0 && p.len() <= s.len() && s.subrange(s.len() - p.len(), s.len() as int) == p {
        trim_suffix_all(s.subrange(0, s.len() - p.len()), p)
    } else {
        s
    }
}

/// The `owner/repo` of a GitHub remote URL (`git@github.com:` or
/// `https://github.com/` followed by the path), without trailing `.git` and
/// surrounding white space; `None` for other remotes.
pub open spec fn owner_repo(url: Seq<char>) -> Option<Seq<char>> {
    let ssh = "git@github.com:"@;
    let https = "https://github.com/"@;
    if ssh.is_prefix_of(url) {
        Some(trim(trim_suffix_all(url.skip(ssh.len() as int), ".git"@)))
    } else if https.is_prefix_of(url) {
        Some(trim(trim_suffix_all(url.skip(https.len() as int), ".git"@)))
    } else {
        None
    }
}

/// A repository path as a remote names it: no white space at either end, and
/// no trailing `.git`.
pub open spec fn plain_repo(r: Seq<char>) -> bool {
    &&& r.len() > 0 ==> !crate::text::is_ws(r[0]) && !crate::text::is_ws(r.last())
    &&& !(4 <= r.len() && r.subrange(r.len() - 4, r.len() as int) == ".git"@)
}

/// The owner/repo of a GitHub remote is exactly what follows the host part:
/// for `git@github.com:` + `r` and for `https://github.com/` + `r`, with or
/// without a trailing `.git`, the result is `r` itself.
pub proof fn lemma_owner_repo_exact(r: Seq<char>)
    requires
        plain_repo(r),
    ensures
        owner_repo("git@github.com:"@ + r) == Some(r),
        owner_repo("https://github.com/"@ + r) == Some(r),
        owner_repo("git@github.com:"@ + r + ".git"@) == Some(r),
        owner_repo("https://github.com/"@ + r + ".git"@) == Some(r),
{
    reveal_strlit("git@github.com:");
    reveal_strlit("https://github.com/");
    reveal_strlit(".git");
    let ssh = "git@github.com:"@;
    let https = "https://github.com/"@;
    let g = ".git"@;
    assert(trim_suffix_all(r, g) == r);
    assert(crate::text::trim_start(r) == r);
    assert(crate::text::trim_end(r) == r);
    assert(crate::text::trim(r) == r);
    let rg = r + g;
    assert(rg.subrange(rg.len() - 4, rg.len() as int) =~= g);
    assert(rg.subrange(0, rg.len() - 4) =~= r);
    assert(trim_suffix_all(rg, g) == r);
    // ssh
    let u1 = ssh + r;
    assert(ssh.is_prefix_of(u1));
    assert(u1.skip(ssh.len() as int) =~= r);
    let u3 = ssh + r + g;
    assert(ssh.is_prefix_of(u3)) by { assert(u3.subrange(0, ssh.len() as int) =~= ssh); }
    assert(u3.skip(ssh.len() as int) =~= rg);
    // https
    let u2 = https + r;
    assert(!ssh.is_prefix_of(u2)) by { assert(u2[0] == 'h'); assert(ssh[0] == 'g'); }
    assert(https.is_prefix_of(u2));
    assert(u2.skip(https.len() as int) =~= r);
    let u4 = https + r + g;
    assert(!ssh.is_prefix_of(u4)) by { assert(u4[0] == 'h'); assert(ssh[0] == 'g'); }
    assert(https.is_prefix_of(u4)) by { assert(u4.subrange(0, https.len() as int) =~= https); }
    assert(u4.skip(https.len() as int) =~= rg);
}

fn ends_with_git(s: &[char], n: usize) -> (res: bool)
    requires
        n <= s@.len(),
    ensures
        res == (4 <= n && s@.subrange(n - 4, n as int) == ".git"@),
{
    proof { reveal_strlit(".git"); }
    if n < 4 {
        return false;
    }
    let r = s[n - 4] == '.' && s[n - 3] == 'g' && s[n - 2] == 'i' && s[n - 1] == 't';
    proof {
        if r {
            assert(s@.subrange(n - 4, n as int) =~= ".git"@);
        } else {
            if s@.subrange(n - 4, n as int) == ".git"@ {
                assert(s@.subrange(n - 4, n as int)[0] == '.');
                assert(s@.subrange(n - 4, n as int)[1] == 'g');
                assert(s@.subrange(n - 4, n as int)[2] == 'i');
                assert(s@.subrange(n - 4, n as int)[3] == 't');
            }
        }
    }
    r
}

fn rest_owner_repo(s: &[char], from: usize) -> (res: String)
    requires
        from <= s@.len(),
    ensures
        res@ == trim(trim_suffix_all(s@.skip(from as int), ".git"@)),
{
    proof { reveal_strlit(".git"); }
    let mut n = s.len();
    while n - from >= 4 && ends_with_git(s, n)
        invariant
            from <= n <= s@.len(),
            trim_suffix_all(s@.skip(from as int), ".git"@) == trim_suffix_all(s@.subrange(from as int, n as int), ".git"@),
        decreases n,
    {
        proof {
            let t = s@.subrange(from as int, n as int);
            assert(t.subrange(t.len() - 4, t.len() as int) =~= s@.subrange(n - 4, n as int));
            assert(t.subrange(0, t.len() - 4) =~= s@.subrange(from as int, n - 4));
        }
        n = n - 4;
    }
    proof {
        let t = s@.subrange(from as int, n as int);
        if t.len() >= 4 {
            assert(t.subrange(t.len() - 4, t.len() as int) =~= s@.subrange(n - 4, n as int));
        }
        assert(s@.skip(from as int) =~= s@.subrange(from as int, s@.len() as int));
    }
    let mut v: Vec<char> = Vec::new();
    let mut k = from;
    while k < n
        invariant
            from <= k <= n <= s@.len(),
            v@ == s@.subrange(from as int, k as int),
        decreases n - k,
    {
        v.push(s[k]);
        proof { assert(v@ =~= s@.subrange(from as int, k + 1)); }
        k = k + 1;
    }
    let t = trim_chars(v.as_slice());
    string_of_chars(t.as_slice())
}

/// The `owner/repo` of a GitHub remote URL.
pub fn github_owner_repo(remote_url: &str) -> (res: Option<String>)
    ensures
        match owner_repo(remote_url@) {
            Some(r) => res matches Some(x) && x@ == r,
            None => res is None,
        },
{
    let s = chars_of(remote_url);
    let ssh = "git@github.com:";
    let https = "https://github.com/";
    if crate::text::has_prefix(s.as_slice(), ssh) {
        let n = chars_of(ssh).len();
        return Some(rest_owner_repo(s.as_slice(), n));
    }
    if crate::text::has_prefix(s.as_slice(), https) {
        let n = chars_of(https).len();
        return Some(rest_owner_repo(s.as_slice(), n));
    }
    None
}

/// A URL with a trailing `/`, added when missing.
pub fn with_trailing_slash(url: &str) -> (res: String)
    ensures
        res@ == if url@.len() > 0 && url@.last() == '/' { url@ } else { url@.push('/') },
{
    let s = chars_of(url);
    let mut out = string_of_chars(s.as_slice());
    if !(s.len() > 0 && s[s.len() - 1] == '/') {
        push_char(&mut out, '/');
    }
    out
}

/// Whether the HTTP status of the published page shows it live: 200, or 302
/// (private Pages redirecting to sign-in).
pub fn page_is_live(status: &str) -> (res: bool)
    ensures
        res == (status@ == "200"@ || status@ == "302"@),
{
    crate::text::str_eq(status, "200") || crate::text::str_eq(status, "302")
}

/// How many times the deploy check asks for the published page.
pub const DEPLOY_ATTEMPTS: u32 = 30;

/// Seconds to wait between two deploy checks.
pub const DEPLOY_WAIT_SECS: u64 = 5;

/// What to do after one check of the published page.
#[derive(Clone, Copy, PartialEq, Eq, Structural, Debug)]
pub enum PollAction {
    /// The page is live.
    Published,
    /// Wait [`DEPLOY_WAIT_SECS`] seconds and check again.
    Retry,
    /// The last attempt failed: stop waiting.
    GiveUp,
}

/// The decision after check number `attempt` (from 1) of the published page:
/// done when the page is live, otherwise another try until
/// [`DEPLOY_ATTEMPTS`] checks have failed.
pub fn poll_step(attempt: u32, live: bool) -> (res: PollAction)
    requires
        1 <= attempt <= DEPLOY_ATTEMPTS,
    ensures
        res == (if live { PollAction::Published } else if attempt < DEPLOY_ATTEMPTS { PollAction::Retry } else { PollAction::GiveUp }),
{
    if live {
        PollAction::Published
    } else if attempt < DEPLOY_ATTEMPTS {
        PollAction::Retry
    } else {
        PollAction::GiveUp
    }
}

} // verus!
