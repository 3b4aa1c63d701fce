//! Helpers for publishing a package to the index.
use vstd::prelude::*;
use crate::text::{
    chars_of, ends_with, has_prefix, has_suffix, is_ws, lemma_next_char, lemma_ws_back_bounds,
    lemma_ws_skip_bounds, next_char, push_all, push_str, slice_copy, starts_with, string_of, trim,
    trimmed, ws_back, ws_skip,
};

verus! {

/// A git remote URL as an HTTPS URL ending in `.git`: `git@host:path`
/// becomes `https://host/path.git`; otherwise one trailing `/` is dropped
/// and `.git` added when missing.
pub open spec fn normalised(url: Seq<char>) -> Seq<char> {
    let u = trim(url);
    let rest = u.skip(4);
    let k = next_char(rest, ':', 0);
    if has_prefix(u, "git@"@) && k < rest.len() {
        let host = rest.take(k);
        let p = rest.skip(k + 1);
        let path = if has_suffix(p, ".git"@) { p.take(p.len() - 4) } else { p };
        "https://"@ + host + "/"@ + path + ".git"@
    } else {
        let v = if u.len() > 0 && u.last() == '/' { u.drop_last() } else { u };
        if has_suffix(v, ".git"@) {
            v
        } else {
            v + ".git"@
        }
    }
}

/// Normalises a git remote URL to an HTTPS `.git` URL; SSH remotes
/// (`git@host:owner/repo.git`) and HTTPS ones are handled.
pub fn normalise_remote_url(url: &str) -> (r: String)
    ensures
        r@ == normalised(url@),
{
    let u = trimmed(chars_of(url).as_slice());
    let git = chars_of("git@");
    proof {
        reveal_strlit("git@");
        reveal_strlit(".git");
    }
    if starts_with(u.as_slice(), git.as_slice()) {
        let rest = slice_copy(u.as_slice(), 4, u.len());
        assert(rest@ =~= u@.skip(4));
        let mut k: usize = 0;
        while k < rest.len() && rest[k] != ':'
            invariant
                k <= rest@.len(),
                next_char(rest@, ':', k as int) == next_char(rest@, ':', 0),
            decreases rest@.len() - k,
        {
            k += 1;
        }
        if k < rest.len() {
            let host = slice_copy(rest.as_slice(), 0, k);
            let p = slice_copy(rest.as_slice(), k + 1, rest.len());
            assert(host@ =~= rest@.take(k as int));
            assert(p@ =~= rest@.skip(k + 1));
            let path = if ends_with(p.as_slice(), chars_of(".git").as_slice()) {
                let v = slice_copy(p.as_slice(), 0, p.len() - 4);
                assert(v@ =~= p@.take(p@.len() - 4));
                v
            } else {
                p
            };
            let mut out = chars_of("https://");
            push_all(&mut out, host.as_slice());
            push_str(&mut out, "/");
            push_all(&mut out, path.as_slice());
            push_str(&mut out, ".git");
            return string_of(out.as_slice());
        }
    } else {
        assert(!has_prefix(u@, "git@"@));
    }
    let v = if u.len() > 0 && u[u.len() - 1] == '/' {
        let w = slice_copy(u.as_slice(), 0, u.len() - 1);
        assert(w@ =~= u@.drop_last());
        w
    } else {
        u
    };
    if ends_with(v.as_slice(), chars_of(".git").as_slice()) {
        string_of(v.as_slice())
    } else {
        let mut out = v;
        push_str(&mut out, ".git");
        string_of(out.as_slice())
    }
}

/// Every normalised remote URL ends in `.git`.
pub proof fn lemma_normalised_ends_with_git(url: Seq<char>)
    ensures
        has_suffix(normalised(url), ".git"@),
{
    reveal_strlit(".git");
    let u = trim(url);
    let rest = u.skip(4);
    let k = next_char(rest, ':', 0);
    if has_prefix(u, "git@"@) && k < rest.len() {
        let host = rest.take(k);
        let p = rest.skip(k + 1);
        let path = if has_suffix(p, ".git"@) { p.take(p.len() - 4) } else { p };
        let r = "https://"@ + host + "/"@ + path + ".git"@;
        assert(r.skip(r.len() - 4) =~= ".git"@);
    } else {
        let v = if u.len() > 0 && u.last() == '/' { u.drop_last() } else { u };
        if !has_suffix(v, ".git"@) {
            let r = v + ".git"@;
            assert(r.skip(r.len() - 4) =~= ".git"@);
        }
    }
}

proof fn lemma_trim_fixed(s: Seq<char>)
    requires
        s.len() == 0 || (!is_ws(s[0]) && !is_ws(s[s.len() - 1])),
    ensures
        trim(s) == s,
{
    assert(ws_skip(s, 0) == 0);
    assert(ws_back(s, 0, s.len() as int) == s.len());
    assert(s.subrange(0, s.len() as int) =~= s);
}

proof fn lemma_trim_ends(s: Seq<char>)
    ensures
        trim(s).len() > 0 ==> !is_ws(trim(s)[0]) && !is_ws(trim(s)[trim(s).len() - 1]),
{
    let a = ws_skip(s, 0);
    lemma_ws_skip_bounds(s, 0);
    lemma_ws_back_bounds(s, a, s.len() as int);
}

/// Normalising a remote URL a second time changes nothing.
pub proof fn lemma_normalised_idempotent(url: Seq<char>)
    ensures
        normalised(normalised(url)) == normalised(url),
{
    reveal_strlit("git@");
    reveal_strlit(".git");
    reveal_strlit("https://");
    reveal_strlit("/");
    let n = normalised(url);
    lemma_normalised_ends_with_git(url);
    assert(n[n.len() - 1] == n.subrange(n.len() - 4, n.len() as int)[3]);
    assert(n[n.len() - 1] == 't');
    let u = trim(url);
    lemma_trim_ends(url);
    let rest = u.skip(4);
    let k = next_char(rest, ':', 0);
    lemma_next_char(rest, ':', 0);
    let ssh = has_prefix(u, "git@"@) && k < rest.len();
    if ssh {
        let host = rest.take(k);
        let p = rest.skip(k + 1);
        let path = if has_suffix(p, ".git"@) { p.take(p.len() - 4) } else { p };
        assert(n == "https://"@ + host + "/"@ + path + ".git"@);
        assert(n[0] == 'h');
        assert(!has_prefix(n, "git@"@)) by {
            if has_prefix(n, "git@"@) {
                assert(n.subrange(0, 4)[0] == n[0]);
            }
        }
    } else {
        let v = if u.len() > 0 && u.last() == '/' { u.drop_last() } else { u };
        let tail = if has_suffix(v, ".git"@) { Seq::<char>::empty() } else { ".git"@ };
        assert(n =~= v + tail);
        if v.len() > 0 {
            assert(n[0] == v[0] && v[0] == u[0]);
        } else {
            assert(n =~= ".git"@);
        }
        if has_prefix(n, "git@"@) {
            if v.len() >= 4 {
                assert forall|j: int| 0 <= j < 4 implies u[j] == "git@"@[j] by {
                    assert(n.subrange(0, 4)[j] == n[j]);
                    assert(n[j] == v[j]);
                }
                assert(u.subrange(0, 4) =~= "git@"@);
                assert(k == rest.len());
                let r2 = n.skip(4);
                assert forall|j: int| 0 <= j < r2.len() implies r2[j] != ':' by {
                    if j + 4 < v.len() {
                        assert(r2[j] == v[j + 4]);
                        assert(v[j + 4] == rest[j]);
                        assert(rest[j] != ':');
                    } else {
                        assert(r2[j] == tail[j + 4 - v.len()]);
                    }
                }
                lemma_next_char(r2, ':', 0);
            } else {
                assert(!has_suffix(v, ".git"@));
                let i = v.len() as int;
                assert(n[i] == '.');
                assert(n.subrange(0, 4)[i] == n[i]);
            }
        }
    }
    lemma_trim_fixed(n);
}

/// A hexadecimal digit, either case.
pub open spec fn is_hex(c: char) -> bool {
    ('0' <= c <= '9') || ('a' <= c <= 'f') || ('A' <= c <= 'F')
}

/// Whether `s` is a full commit hash: forty ASCII hex digits.
pub fn is_commit_hash(s: &str) -> (r: bool)
    ensures
        r == (s@.len() == 40 && forall|i: int| 0 <= i < s@.len() ==> is_hex(#[trigger] s@[i])),
{
    let c = chars_of(s);
    if c.len() != 40 {
        return false;
    }
    let mut i: usize = 0;
    while i < c.len()
        invariant
            i <= c@.len(),
            c@ == s@,
            forall|k: int| 0 <= k < i ==> is_hex(#[trigger] s@[k]),
        decreases c@.len() - i,
    {
        let x = c[i];
        if !(('0' <= x && x <= '9') || ('a' <= x && x <= 'f') || ('A' <= x && x <= 'F')) {
            return false;
        }
        i += 1;
    }
    true
}

/// The branch after `HEAD branch:` on the first line (trimmed) that starts
/// with it.
pub open spec fn head_branch(ls: Seq<Seq<char>>) -> Option<Seq<char>>
    decreases ls.len(),
{
    if ls.len() == 0 {
        None
    } else if has_prefix(trim(ls[0]), "HEAD branch:"@) {
        Some(trim(trim(ls[0]).skip("HEAD branch:"@.len() as int)))
    } else {
        head_branch(ls.drop_first())
    }
}

/// The default branch that `git remote show` reports, else `master`.
pub fn default_branch(remote_show: &str) -> (r: String)
    ensures
        r@ == match head_branch(crate::text::lines(remote_show@)) {
            Some(b) => b,
            None => "master"@,
        },
{
    let ls = crate::text::split_lines(chars_of(remote_show).as_slice());
    let ghost lv = crate::text::views(ls@);
    let pre = chars_of("HEAD branch:");
    let mut i: usize = 0;
    assert(lv.skip(0) =~= lv);
    while i < ls.len()
        invariant
            i <= ls.len(),
            lv == crate::text::views(ls@),
            lv == crate::text::lines(remote_show@),
            pre@ == "HEAD branch:"@,
            head_branch(lv) == head_branch(lv.skip(i as int)),
        decreases ls.len() - i,
    {
        assert(lv.skip(i as int)[0] == ls@[i as int]@);
        let t = trimmed(ls[i].as_slice());
        if starts_with(t.as_slice(), pre.as_slice()) {
            let rest = slice_copy(t.as_slice(), pre.len(), t.len());
            assert(rest@ =~= t@.skip(pre@.len() as int));
            return string_of(trimmed(rest.as_slice()).as_slice());
        }
        assert(lv.skip(i as int).drop_first() =~= lv.skip(i + 1));
        i += 1;
    }
    "master".to_string()
}

/// `s` starts with at least twelve hex digits, as a commit id does.
pub open spec fn hex_prefixed(s: Seq<char>) -> bool {
    s.len() >= 12 && forall|i: int| 0 <= i < 12 ==> is_hex(#[trigger] s[i])
}

/// Whether `s` starts with at least twelve hex digits.
pub fn is_hex_prefixed(s: &str) -> (r: bool)
    ensures
        r == hex_prefixed(s@),
{
    let c = chars_of(s);
    if c.len() < 12 {
        return false;
    }
    let mut i: usize = 0;
    while i < 12
        invariant
            i <= 12 <= c@.len(),
            c@ == s@,
            forall|k: int| 0 <= k < i ==> is_hex(#[trigger] s@[k]),
        decreases 12 - i,
    {
        let x = c[i];
        if !(('0' <= x && x <= '9') || ('a' <= x && x <= 'f') || ('A' <= x && x <= 'F')) {
            return false;
        }
        i += 1;
    }
    true
}

/// The abbreviated commit shown to the user and named in the branch: its
/// first twelve hex digits.
pub fn short_commit(hash: &str) -> (r: String)
    requires
        hex_prefixed(hash@),
    ensures
        r@ == hash@.take(12),
{
    let c = chars_of(hash);
    let t = slice_copy(c.as_slice(), 0, 12);
    assert(t@ =~= hash@.take(12));
    string_of(t.as_slice())
}

/// The branch a publication is pushed to: `publish/<name>-<short commit>`.
pub fn publish_branch(name: &str, hash: &str) -> (r: String)
    requires
        hex_prefixed(hash@),
    ensures
        r@ == "publish/"@ + name@ + "-"@ + hash@.take(12),
{
    let mut out = chars_of("publish/");
    push_str(&mut out, name);
    push_str(&mut out, "-");
    let short = short_commit(hash);
    push_str(&mut out, short.as_str());
    string_of(out.as_slice())
}

/// What a publication does to the index: `Update` for a package it
/// already lists, `Add` otherwise.
pub open spec fn publish_action(is_update: bool) -> Seq<char> {
    if is_update {
        "Update"@
    } else {
        "Add"@
    }
}

/// The commit message and pull request title: `<action> <name> <version>`.
pub fn publish_title(is_update: bool, name: &str, version: &str) -> (r: String)
    ensures
        r@ == publish_action(is_update) + " "@ + name@ + " "@ + version@,
{
    let mut out = if is_update { chars_of("Update") } else { chars_of("Add") };
    push_str(&mut out, " ");
    push_str(&mut out, name);
    push_str(&mut out, " ");
    push_str(&mut out, version);
    string_of(out.as_slice())
}

/// The pull request body: the action, package and version as a heading,
/// then the source URL and the commit.
pub fn publish_body(is_update: bool, name: &str, version: &str, source_url: &str, hash: &str) -> (r: String)
    ensures
        r@ == "## "@ + publish_action(is_update) + " `"@ + name@ + "` "@ + version@ + "\n\n- **Source**: "@
            + source_url@ + "\n- **Commit**: `"@ + hash@ + "`\n\nSubmitted via `mxpm publish`."@,
{
    let mut out = chars_of("## ");
    if is_update {
        push_str(&mut out, "Update");
    } else {
        push_str(&mut out, "Add");
    }
    push_str(&mut out, " `");
    push_str(&mut out, name);
    push_str(&mut out, "` ");
    push_str(&mut out, version);
    push_str(&mut out, "\n\n- **Source**: ");
    push_str(&mut out, source_url);
    push_str(&mut out, "\n- **Commit**: `");
    push_str(&mut out, hash);
    push_str(&mut out, "`\n\nSubmitted via `mxpm publish`.");
    string_of(out.as_slice())
}

} // verus!
