//! Path handling for imported `bazelrc` files: the workspace-root marker
//! names, and the `%workspace%` substitution. The host walks the file system
//! and checks what exists; the path computations themselves live here.

use vstd::prelude::*;
use vstd::string::*;

use crate::text::{chars_to_string, push_chars, str_chars};

verus! {

/// The file names that mark a workspace root, in the order they are tried.
/// A host looking for the workspace root of a directory walks the parent
/// directories until one of them holds one of these files.
pub open spec fn spec_workspace_root_markers() -> Seq<Seq<char>> {
    seq!["MODULE.bazel"@, "REPO.bazel"@, "WORKSPACE.bazel"@, "WORKSPACE"@]
}

/// The workspace-root marker file names.
pub fn workspace_root_markers() -> (r: Vec<String>)
    ensures
        crate::bazel_flags::strs_view(&r) == spec_workspace_root_markers(),
{
    let mut r: Vec<String> = Vec::new();
    r.push(String::from_str("MODULE.bazel"));
    r.push(String::from_str("REPO.bazel"));
    r.push(String::from_str("WORKSPACE.bazel"));
    r.push(String::from_str("WORKSPACE"));
    proof {
        assert(crate::bazel_flags::strs_view(&r) =~= spec_workspace_root_markers());
    }
    r
}

/// Whether `needle` occurs in `s` at position `i`.
pub open spec fn spec_occurs_at(s: Seq<char>, needle: Seq<char>, i: int) -> bool {
    0 <= i && i + needle.len() <= s.len() && s.subrange(i, i + needle.len()) == needle
}

/// `s` with every occurrence of `needle` (scanned left to right) replaced by
/// `repl`, from position `i` on.
pub open spec fn spec_replace_from(
    s: Seq<char>,
    i: int,
    needle: Seq<char>,
    repl: Seq<char>,
) -> Seq<char>
    decreases s.len() - i,
{
    if i < 0 || i >= s.len() || needle.len() == 0 {
        Seq::empty()
    } else if spec_occurs_at(s, needle, i) {
        repl + spec_replace_from(s, i + needle.len(), needle, repl)
    } else {
        seq![s[i]] + spec_replace_from(s, i + 1, needle, repl)
    }
}

/// Whether `needle` occurs anywhere in `s`.
pub open spec fn spec_contains_seq(s: Seq<char>, needle: Seq<char>) -> bool {
    exists|i: int| spec_occurs_at(s, needle, i)
}

/// Joining a base path and a path, the way paths nest: an absolute path
/// stands alone, anything else goes below the base (with a separator unless
/// the base is empty or already ends with one).
pub open spec fn spec_join_path(base: Seq<char>, p: Seq<char>) -> Seq<char> {
    if p.len() > 0 && p[0] == '/' {
        p
    } else if base.len() == 0 {
        p
    } else if base.last() == '/' {
        base + p
    } else {
        base + seq!['/'] + p
    }
}

/// Whether `v` holds `needle` starting at `i`.
fn occurs_at(v: &Vec<char>, needle: &Vec<char>, i: usize) -> (r: bool)
    requires
        i + needle@.len() <= v@.len(),
    ensures
        r == spec_occurs_at(v@, needle@, i as int),
{
    let m = needle.len();
    let nv = v.len();
    let mut j: usize = 0;
    while j < m
        invariant
            j <= m,
            m == needle@.len(),
            nv == v@.len(),
            i + m <= nv,
            forall|t: int| 0 <= t < j ==> v@[i + t] == needle@[t],
        decreases m - j,
    {
        if v[i + j] != needle[j] {
            proof {
                assert(v@.subrange(i as int, i + m) != needle@) by {
                    assert(v@.subrange(i as int, i + m)[j as int] == v@[i + j]);
                }
            }
            return false;
        }
        j = j + 1;
    }
    proof {
        assert(v@.subrange(i as int, i + m) =~= needle@);
    }
    true
}

/// `s` with every `needle` replaced by `repl`, left to right.
pub(crate) fn replace_all(s: &Vec<char>, needle: &Vec<char>, repl: &Vec<char>) -> (r: Vec<char>)
    requires
        needle@.len() > 0,
    ensures
        r@ == spec_replace_from(s@, 0, needle@, repl@),
{
    let n = s.len();
    let nl = needle.len();
    let mut out: Vec<char> = Vec::new();
    let mut i: usize = 0;
    proof {
        assert(out@ =~= Seq::<char>::empty());
    }
    while i < n
        invariant
            i <= n,
            n == s@.len(),
            nl == needle@.len(),
            nl > 0,
            out@ + spec_replace_from(s@, i as int, needle@, repl@) == spec_replace_from(
                s@,
                0,
                needle@,
                repl@,
            ),
        decreases n - i,
    {
        let fits = nl <= n - i;
        if fits && occurs_at(s, needle, i) {
            let ghost o0 = out@;
            push_chars(&mut out, repl);
            proof {
                assert(o0 + repl@ + spec_replace_from(s@, i + nl, needle@, repl@) =~= o0 + (repl@
                    + spec_replace_from(s@, i + nl, needle@, repl@)));
            }
            i = i + nl;
        } else {
            proof {
                if fits {
                } else {
                    assert(!spec_occurs_at(s@, needle@, i as int));
                }
            }
            let ghost o0 = out@;
            out.push(s[i]);
            proof {
                assert(out@ =~= o0 + seq![s@[i as int]]);
                assert(o0 + seq![s@[i as int]] + spec_replace_from(s@, i + 1, needle@, repl@)
                    =~= o0 + (seq![s@[i as int]] + spec_replace_from(s@, i + 1, needle@, repl@)));
            }
            i = i + 1;
        }
    }
    proof {
        assert(spec_replace_from(s@, n as int, needle@, repl@) =~= Seq::<char>::empty());
        assert(out@ + Seq::<char>::empty() =~= out@);
    }
    out
}

/// Whether `needle` occurs anywhere in `s`.
fn contains_seq(s: &Vec<char>, needle: &Vec<char>) -> (r: bool)
    requires
        needle@.len() > 0,
    ensures
        r == spec_contains_seq(s@, needle@),
{
    let n = s.len();
    let nl = needle.len();
    if nl > n {
        proof {
            assert(!spec_contains_seq(s@, needle@)) by {
                if spec_contains_seq(s@, needle@) {
                    let i = choose|i: int| spec_occurs_at(s@, needle@, i);
                }
            }
        }
        return false;
    }
    let mut i: usize = 0;
    while nl <= n - i
        invariant
            i <= n,
            n == s@.len(),
            nl == needle@.len(),
            0 < nl <= n,
            forall|t: int| 0 <= t < i ==> !spec_occurs_at(s@, needle@, t),
        decreases n - i,
    {
        if occurs_at(s, needle, i) {
            proof {
                assert(spec_contains_seq(s@, needle@));
            }
            return true;
        }
        i = i + 1;
    }
    proof {
        assert(!spec_contains_seq(s@, needle@)) by {
            if spec_contains_seq(s@, needle@) {
                let t = choose|t: int| spec_occurs_at(s@, needle@, t);
                assert(t + nl <= n);
                assert(!spec_occurs_at(s@, needle@, t));
            }
        }
    }
    false
}

/// What an imported path of a `bazelrc` file names: the raw path below the
/// importing file's location, with a `%workspace%` placeholder standing for
/// the enclosing workspace root. `None` when the path needs the workspace
/// root but the host found none (`workspace_root` is `None`).
pub open spec fn spec_resolve_bazelrc_path(
    base: Seq<char>,
    raw: Seq<char>,
    workspace_root: Option<Seq<char>>,
) -> Option<Seq<char>> {
    if spec_contains_seq(raw, "%workspace%"@) {
        match workspace_root {
            Some(w) => Some(
                spec_join_path(base, spec_replace_from(raw, 0, "%workspace%"@, w)),
            ),
            None => None,
        }
    } else {
        Some(spec_join_path(base, raw))
    }
}

/// Resolves an imported path: substitutes the `%workspace%` placeholder with
/// the workspace root the host found, and joins the result below `base_path`
/// (the importing file's location). `None` when the placeholder is used but
/// no workspace root exists.
pub fn resolve_bazelrc_path(base_path: &str, raw_path: &str, workspace_root: Option<&str>) -> (r:
    Option<String>)
    ensures
        match r {
            Some(p) => spec_resolve_bazelrc_path(
                base_path@,
                raw_path@,
                match workspace_root {
                    Some(w) => Some(w@),
                    None => None,
                },
            ) == Some(p@),
            None => spec_resolve_bazelrc_path(
                base_path@,
                raw_path@,
                match workspace_root {
                    Some(w) => Some(w@),
                    None => None,
                },
            ) is None,
        },
{
    let raw = str_chars(raw_path);
    let needle = str_chars("%workspace%");
    proof {
        reveal_strlit("%workspace%");
        assert(needle@.len() > 0);
    }
    let path: Vec<char> = if contains_seq(&raw, &needle) {
        match workspace_root {
            Some(w) => {
                let wv = str_chars(w);
                replace_all(&raw, &needle, &wv)
            },
            None => {
                return None;
            },
        }
    } else {
        raw
    };
    let base = str_chars(base_path);
    let mut joined: Vec<char> = Vec::new();
    if path.len() > 0 && path[0] == '/' {
        push_chars(&mut joined, &path);
    } else if base.len() == 0 {
        push_chars(&mut joined, &path);
    } else if base[base.len() - 1] == '/' {
        push_chars(&mut joined, &base);
        push_chars(&mut joined, &path);
    } else {
        push_chars(&mut joined, &base);
        joined.push('/');
        push_chars(&mut joined, &path);
    }
    proof {
        assert(joined@ =~= spec_join_path(base@, path@));
    }
    Some(chars_to_string(&joined))
}

} // verus!
