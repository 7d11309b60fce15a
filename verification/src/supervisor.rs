//! The process supervisor's decisions: which candidate executable to launch,
//! whether the supervisor runs from a packaged bundle or a development
//! tree, and what the lock marker holds. The spawning itself — existence
//! checks, process creation — happens outside and hands plain values in.

use vstd::prelude::*;
use crate::text::{spec_digits, render_digits, copy_chars};

verus! {

/// The first index of `avail` at or after `k` that is set, if any.
pub open spec fn first_hit(avail: Seq<bool>, k: int) -> Option<int>
    decreases avail.len() - k
        when 0 <= k <= avail.len()
{
    if k >= avail.len() {
        None
    } else if avail[k] {
        Some(k)
    } else {
        first_hit(avail, k + 1)
    }
}

/// Skipping a prefix of unset entries leaves the first hit unchanged.
pub proof fn lemma_first_hit_skip(avail: Seq<bool>, j: int, k: int)
    requires
        0 <= j <= k <= avail.len(),
        forall|t: int| j <= t < k ==> !avail[t],
    ensures
        first_hit(avail, j) == first_hit(avail, k),
    decreases k - j,
{
    if j < k {
        lemma_first_hit_skip(avail, j + 1, k);
    }
}

/// Resolves the executable to launch: candidate paths stand in a fixed
/// priority order, each marked runnable or not by the caller's probe, and
/// the first runnable one wins; where none is, the bare fallback command
/// name is used.
pub fn resolve_executable(candidates: &Vec<Vec<char>>, available: &Vec<bool>, fallback: &Vec<
    char,
>) -> (r: Vec<char>)
    requires
        candidates@.len() == available@.len(),
    ensures
        match first_hit(available@, 0) {
            Some(i) => r@ == candidates@[i]@,
            None => r@ == fallback@,
        },
{
    let mut k: usize = 0;
    while k < available.len()
        invariant
            candidates@.len() == available@.len(),
            k <= available@.len(),
            forall|t: int| 0 <= t < k ==> !available@[t],
        decreases available@.len() - k,
    {
        if available[k] {
            proof {
                lemma_first_hit_skip(available@, 0, k as int);
            }
            return copy_chars(&candidates[k]);
        }
        k += 1;
    }
    proof {
        lemma_first_hit_skip(available@, 0, available@.len() as int);
    }
    copy_chars(fallback)
}

/// Whether the word `w` stands at `k` in `s`.
pub open spec fn occurs_at(s: Seq<char>, w: Seq<char>, k: int) -> bool {
    0 <= k && k + w.len() <= s.len() && s.subrange(k, k + w.len()) == w
}

/// Whether the word `w` stands anywhere in `s`.
pub open spec fn occurs_in(s: Seq<char>, w: Seq<char>) -> bool {
    exists|k: int| occurs_at(s, w, k)
}

/// Whether the word `w` stands at `k` in `s`.
fn matches_at(s: &str, n: usize, k: usize, w: &Vec<char>) -> (r: bool)
    requires
        n == s@.len(),
        k <= n,
        w@.len() <= n - k,
    ensures
        r == occurs_at(s@, w@, k as int),
{
    let mut j: usize = 0;
    while j < w.len()
        invariant
            n == s@.len(),
            k <= n,
            w@.len() <= n - k,
            j <= w@.len(),
            forall|t: int| 0 <= t < j ==> s@[k + t] == w@[t],
        decreases w@.len() - j,
    {
        if s.get_char(k + j) != w[j] {
            proof {
                let sub = s@.subrange(k as int, k as int + w@.len() as int);
                if sub == w@ {
                    assert(sub[j as int] == s@[k + j]);
                    assert(false);
                }
            }
            return false;
        }
        j += 1;
    }
    proof {
        assert(s@.subrange(k as int, k as int + w@.len() as int) =~= w@);
    }
    true
}

/// Whether the word `w` stands anywhere in `s`.
pub fn contains_chars(s: &str, w: &Vec<char>) -> (r: bool)
    ensures
        r == occurs_in(s@, w@),
{
    let n = s.unicode_len();
    if w.len() == 0 {
        proof {
            assert(s@.subrange(0, 0) =~= w@);
            assert(occurs_at(s@, w@, 0));
        }
        return true;
    }
    if w.len() > n {
        proof {
            assert(forall|k: int| !occurs_at(s@, w@, k));
        }
        return false;
    }
    let mut k: usize = 0;
    while k <= n - w.len()
        invariant
            n == s@.len(),
            1 <= w@.len() <= n,
            k <= n - w@.len() + 1,
            forall|t: int| 0 <= t < k ==> !occurs_at(s@, w@, t),
        decreases n - w@.len() - k + 1,
    {
        if matches_at(s, n, k, w) {
            return true;
        }
        k += 1;
    }
    proof {
        assert forall|t: int| !occurs_at(s@, w@, t) by {
            if 0 <= t < n - w@.len() + 1 {
            } else {
            }
        }
    }
    false
}

/// The path fragment that marks a packaged bundle's executable location.
pub open spec fn bundle_marker() -> Seq<char> {
    ".app/Contents/MacOS"@
}

/// The path fragment that marks a packaged bundle's executable location.
pub fn bundle_marker_chars() -> (r: Vec<char>)
    ensures
        r@ == bundle_marker(),
{
    crate::text::str_chars(".app/Contents/MacOS")
}

/// Whether the supervisor's own executable path shows that it runs from a
/// packaged bundle — the child's working directory is then the bundled
/// resources directory, not a development-time sibling.
pub fn is_bundled_exe(exe_path: &str) -> (r: bool)
    ensures
        r == occurs_in(exe_path@, bundle_marker()),
{
    let marker = bundle_marker_chars();
    contains_chars(exe_path, &marker)
}

/// What the lock marker holds: the supervisor's own process identifier,
/// rendered in decimal.
pub fn lock_contents(pid: u32) -> (r: Vec<char>)
    ensures
        r@ == spec_digits(pid as nat),
{
    render_digits(pid as u64)
}

} // verus!
