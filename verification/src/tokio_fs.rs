//! The part of the operating-system backend that computes: which path of
//! the host an operation on a given path is carried out on.

use std::path::Path;
use vstd::prelude::*;

verus! {

/// Whether, as paths, `path` starts with `base`: whole components count.
pub uninterp spec fn path_starts_with(path: Seq<char>, base: Seq<char>) -> bool;

/// What is left of `path` once `prefix` is taken off its start, where
/// `path` starts with `prefix` as paths do.
pub uninterp spec fn path_strip_prefix(path: Seq<char>, prefix: Seq<char>) -> Option<Seq<char>>;

/// The path `rest` taken from `base` on, as unix has it: a `rest` that
/// starts at the root stands for itself; else it follows `base`, after a
/// separator unless `base` is empty or ends in one.
pub open spec fn path_join(base: Seq<char>, rest: Seq<char>) -> Seq<char> {
    if rest.len() > 0 && rest[0] == '/' {
        rest
    } else if base.len() == 0 || base.last() == '/' {
        base + rest
    } else {
        base + seq!['/'] + rest
    }
}

/// `Path::starts_with` says whether `base` is a prefix of `path` by whole
/// components. Its result depends on the two paths alone.
#[verifier::external_body]
fn starts_with(path: &str, base: &str) -> (r: bool)
    ensures
        r == path_starts_with(path@, base@),
{
    Path::new(path).starts_with(base)
}

/// `Path::strip_prefix` returns `path` without `prefix`, and fails where
/// `path` does not start with `prefix`. Its result depends on the two paths
/// alone.
#[verifier::external_body]
fn strip_prefix(path: &str, prefix: &str) -> (r: Option<String>)
    ensures
        match r {
            Some(s) => path_strip_prefix(path@, prefix@) == Some(s@),
            None => path_strip_prefix(path@, prefix@) is None,
        },
{
    match Path::new(path).strip_prefix(prefix) {
        Ok(rest) => Some(rest.to_string_lossy().into_owned()),
        Err(_) => None,
    }
}

/// `Path::join` on unix: an absolute `rest` replaces `base`; any other
/// `rest` is appended to `base`, with a separator between the two unless
/// `base` is empty or ends in one.
#[verifier::external_body]
fn join(base: &str, rest: &str) -> (r: String)
    ensures
        r@ == path_join(base@, rest@),
{
    Path::new(base).join(rest).to_string_lossy().into_owned()
}

/// What is left of `path` below the root, or `path` itself where it does
/// not start at the root.
pub open spec fn path_below_root(path: Seq<char>) -> Seq<char> {
    match path_strip_prefix(path, seq!['/']) {
        Some(rest) => rest,
        None => path,
    }
}

/// Takes the root off a path; a path without one is kept whole.
pub fn below_root(path: &str) -> (r: String)
    ensures
        r@ == path_below_root(path@),
{
    proof {
        reveal_strlit("/");
        assert("/"@ =~= seq!['/']);
    }
    match strip_prefix(path, "/") {
        Some(rest) => rest,
        None => path.to_owned(),
    }
}

/// The path that an operation on `path` is carried out on: `path` itself
/// without a scope or inside the scope, else `path` moved below the scope.
pub open spec fn scoped_path(scope: Option<Seq<char>>, path: Seq<char>) -> Seq<char> {
    match scope {
        None => path,
        Some(s) => if path_starts_with(path, s) {
            path
        } else {
            path_join(s, path_below_root(path))
        },
    }
}

/// The path that a file is opened at: `path` itself without a scope, else
/// `path` moved below the scope, also where it lies inside it already.
pub open spec fn scoped_open_path(scope: Option<Seq<char>>, path: Seq<char>) -> Seq<char> {
    match scope {
        None => path,
        Some(s) => path_join(s, path_below_root(path)),
    }
}

/// Decides between a path and its place below the scope: the path itself
/// where it lies inside the scope already, else the joined path.
pub fn pick_scoped(path: &str, inside: bool, joined: String) -> (r: String)
    ensures
        r@ == if inside {
            path@
        } else {
            joined@
        },
{
    if inside {
        path.to_owned()
    } else {
        joined
    }
}

/// A filesystem that hands every operation on to the operating system,
/// confined to a directory of the host if it has a scope.
#[derive(Debug)]
pub struct TokioFloppyDisk {
    scope: Option<String>,
}

impl View for TokioFloppyDisk {
    type V = Option<Seq<char>>;

    closed spec fn view(&self) -> Option<Seq<char>> {
        match self.scope {
            Some(s) => Some(s@),
            None => None,
        }
    }
}

impl Default for TokioFloppyDisk {
    /// A filesystem without a scope.
    fn default() -> (r: TokioFloppyDisk)
        ensures
            r@ is None,
    {
        TokioFloppyDisk { scope: None }
    }
}

impl TokioFloppyDisk {
    /// A filesystem confined to `scope`, or to nothing.
    pub fn new(scope: Option<String>) -> (r: TokioFloppyDisk)
        ensures
            r@ == match scope {
                Some(s) => Some(s@),
                None => None,
            },
    {
        TokioFloppyDisk { scope }
    }

    /// The path of the host that an operation on `path` is carried out on.
    pub fn scoped(&self, path: &str) -> (r: String)
        ensures
            r@ == scoped_path(self@, path@),
    {
        match &self.scope {
            None => path.to_owned(),
            Some(s) => {
                let inside = starts_with(path, s.as_str());
                let rest = below_root(path);
                pick_scoped(path, inside, join(s.as_str(), rest.as_str()))
            },
        }
    }

    /// The path of the host that a file asked for as `path` is opened at.
    pub fn scoped_open(&self, path: &str) -> (r: String)
        ensures
            r@ == scoped_open_path(self@, path@),
    {
        match &self.scope {
            None => path.to_owned(),
            Some(s) => {
                let rest = below_root(path);
                join(s.as_str(), rest.as_str())
            },
        }
    }
}

} // verus!
