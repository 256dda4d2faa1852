//! Resolution of a reference to the canonical identity of the file it names.
//! Quote references try the directory of the file holding the reference
//! first, then the quote search directories in merged command-line order;
//! system references use only the system search directories. The first
//! candidate that is an existing regular file wins; directories never match.
use vstd::prelude::*;

use crate::snapshot::{stat_of, PathStat, SnapV, Snapshot, StatV};

verus! {

/// The candidate path `dir` joined with `rf`: an absolute reference stands
/// alone, an empty directory contributes nothing, and exactly one separator
/// stands between the parts otherwise.
pub open spec fn join_path(dir: Seq<char>, rf: Seq<char>) -> Seq<char> {
    if rf.len() > 0 && rf[0] == '/' {
        rf
    } else if dir.len() == 0 {
        rf
    } else if dir.last() == '/' {
        dir + rf
    } else {
        dir + seq!['/'] + rf
    }
}

/// The directory part of a canonical path: everything before the last
/// separator; `/` for a file directly under the root; empty for a path
/// without a separator.
pub open spec fn parent_dir(p: Seq<char>) -> Seq<char>
    decreases p.len(),
{
    if p.len() == 0 {
        Seq::empty()
    } else if p.last() == '/' {
        if p.len() == 1 {
            seq!['/']
        } else {
            p.subrange(0, p.len() - 1)
        }
    } else {
        parent_dir(p.subrange(0, p.len() - 1))
    }
}

/// Spec-level outcome of resolution.
pub enum RRes {
    /// Resolved: the canonical identity of the referenced file.
    Found { canon: Seq<char> },
    /// No search directory yields an existing regular file.
    NotFound,
    /// A candidate exists but cannot be canonicalized: fatal.
    Fatal { path: Seq<char> },
    /// The snapshot does not know what this candidate is.
    Unknown { path: Seq<char> },
}

/// Outcome of resolution.
pub enum ResolveOutcome {
    Found { canon: String },
    NotFound,
    Fatal { path: String },
    Unknown { path: String },
}

impl View for ResolveOutcome {
    type V = RRes;

    open spec fn view(&self) -> RRes {
        match self {
            ResolveOutcome::Found { canon } => RRes::Found { canon: canon@ },
            ResolveOutcome::NotFound => RRes::NotFound,
            ResolveOutcome::Fatal { path } => RRes::Fatal { path: path@ },
            ResolveOutcome::Unknown { path } => RRes::Unknown { path: path@ },
        }
    }
}

/// Tries the candidate `join_path(dir, rf)` in one directory: what it yields,
/// or `None` to go on to the next directory.
pub open spec fn try_dir(fs: SnapV, dir: Seq<char>, rf: Seq<char>) -> Option<RRes> {
    let cand = join_path(dir, rf);
    match stat_of(fs, cand) {
        None => Some(RRes::Unknown { path: cand }),
        Some(StatV::File { canon }) => Some(RRes::Found { canon }),
        Some(StatV::Unreadable) => Some(RRes::Fatal { path: cand }),
        Some(StatV::Dir) => None,
        Some(StatV::Missing) => None,
    }
}

/// Tries the directories from index `i` on, in order.
pub open spec fn try_dirs(fs: SnapV, dirs: Seq<Seq<char>>, rf: Seq<char>, i: int) -> RRes
    decreases dirs.len() - i,
{
    if 0 <= i < dirs.len() {
        match try_dir(fs, dirs[i], rf) {
            Some(r) => r,
            None => try_dirs(fs, dirs, rf, i + 1),
        }
    } else {
        RRes::NotFound
    }
}

/// Full resolution: the context directory (for quote references) first, then
/// the search directories in order.
pub open spec fn resolve_spec(
    fs: SnapV,
    dirs: Seq<Seq<char>>,
    ctx: Option<Seq<char>>,
    rf: Seq<char>,
) -> RRes {
    match ctx {
        Some(d) => match try_dir(fs, d, rf) {
            Some(r) => r,
            None => try_dirs(fs, dirs, rf, 0),
        },
        None => try_dirs(fs, dirs, rf, 0),
    }
}

/// Executable `join_path`.
pub fn join_path_exec(dir: &str, rf: &str) -> (r: String)
    ensures
        r@ == join_path(dir@, rf@),
{
    let n = rf.unicode_len();
    if n > 0 && rf.get_char(0) == '/' {
        return rf.to_owned();
    }
    let m = dir.unicode_len();
    if m == 0 {
        return rf.to_owned();
    }
    let mut r = dir.to_owned();
    if dir.get_char(m - 1) != '/' {
        r.append("/");
        proof {
            reveal_strlit("/");
            assert(r@ =~= dir@ + seq!['/']);
        }
    }
    r.append(rf);
    proof {
        if dir@.last() == '/' {
            assert(r@ =~= dir@ + rf@);
        } else {
            assert(r@ =~= dir@ + seq!['/'] + rf@);
        }
    }
    r
}

/// Executable `parent_dir`.
pub fn parent_dir_exec(p: &str) -> (r: String)
    ensures
        r@ == parent_dir(p@),
{
    let n = p.unicode_len();
    let mut k = n;
    proof {
        assert(p@.subrange(0, n as int) =~= p@);
    }
    while k > 0 && p.get_char(k - 1) != '/'
        invariant
            0 <= k <= n,
            n == p@.len(),
            parent_dir(p@) == parent_dir(p@.subrange(0, k as int)),
        decreases k,
    {
        proof {
            assert(p@.subrange(0, k as int).subrange(0, k - 1) =~= p@.subrange(0, k - 1));
        }
        k = k - 1;
    }
    if k == 0 {
        proof {
            assert(parent_dir(p@.subrange(0, 0)) == Seq::<char>::empty());
        }
        return String::new();
    }
    if k == 1 {
        proof {
            reveal_strlit("/");
            assert(p@.subrange(0, 1).last() == '/');
            assert("/"@ =~= seq!['/']);
        }
        return "/".to_owned();
    }
    let r = p.substring_char(0, k - 1).to_owned();
    proof {
        assert(p@.subrange(0, k as int).last() == '/');
        assert(p@.subrange(0, k as int).subrange(0, k - 1) =~= p@.subrange(0, k - 1));
    }
    r
}

/// Maps a raw reference plus context into the canonical identity of an
/// existing regular file, or reports that no search directory has one.
pub struct IncludeResolver {
    pub quote_search_paths: Vec<String>,
    pub system_search_paths: Vec<String>,
}

impl IncludeResolver {
    /// The search directories must already be canonical; the caller
    /// canonicalizes them (and fails on any that cannot be) before
    /// construction.
    pub fn new(quote_search_dirs: Vec<String>, system_search_dirs: Vec<String>) -> (r:
        IncludeResolver)
        ensures
            r.quote_search_paths@ == quote_search_dirs@,
            r.system_search_paths@ == system_search_dirs@,
    {
        IncludeResolver {
            quote_search_paths: quote_search_dirs,
            system_search_paths: system_search_dirs,
        }
    }

    /// Tries to find the file referenced in a quote reference: the context
    /// directory first, then the quote search directories in order.
    pub fn resolve_quote(&self, fs: &Snapshot, rf: &str, current_dir: &str) -> (r: ResolveOutcome)
        ensures
            r@ == resolve_spec(
                fs@,
                self.quote_search_paths.deep_view(),
                Some(current_dir@),
                rf@,
            ),
    {
        resolve(fs, rf, &self.quote_search_paths, Some(current_dir))
    }

    /// Tries to find the file referenced in a system reference using only the
    /// system search directories.
    pub fn resolve_system(&self, fs: &Snapshot, rf: &str) -> (r: ResolveOutcome)
        ensures
            r@ == resolve_spec(fs@, self.system_search_paths.deep_view(), None, rf@),
    {
        resolve(fs, rf, &self.system_search_paths, None)
    }
}

fn try_dir_exec(fs: &Snapshot, dir: &str, rf: &str) -> (r: Option<ResolveOutcome>)
    ensures
        match r {
            Some(o) => try_dir(fs@, dir@, rf@) == Some(o@),
            None => try_dir(fs@, dir@, rf@) is None,
        },
{
    let cand = join_path_exec(dir, rf);
    match fs.stat(cand.as_str()) {
        None => Some(ResolveOutcome::Unknown { path: cand }),
        Some(PathStat::File { canon }) => Some(ResolveOutcome::Found { canon: canon.clone() }),
        Some(PathStat::Unreadable) => Some(ResolveOutcome::Fatal { path: cand }),
        Some(PathStat::Dir) => None,
        Some(PathStat::Missing) => None,
    }
}

/// Resolution against an ordered directory list, with the optional context
/// directory (quote references) tried first.
pub fn resolve(fs: &Snapshot, rf: &str, search_path: &Vec<String>, current_dir: Option<&str>) -> (r:
    ResolveOutcome)
    ensures
        r@ == resolve_spec(
            fs@,
            search_path.deep_view(),
            match current_dir {
                Some(d) => Some(d@),
                None => None,
            },
            rf@,
        ),
{
    if let Some(d) = current_dir {
        if let Some(o) = try_dir_exec(fs, d, rf) {
            return o;
        }
    }
    let n = search_path.len();
    let mut i: usize = 0;
    while i < n
        invariant
            0 <= i <= n,
            n == search_path.len(),
            resolve_spec(
                fs@,
                search_path.deep_view(),
                match current_dir {
                    Some(d) => Some(d@),
                    None => None,
                },
                rf@,
            ) == try_dirs(fs@, search_path.deep_view(), rf@, 0),
            try_dirs(fs@, search_path.deep_view(), rf@, 0) == try_dirs(
                fs@,
                search_path.deep_view(),
                rf@,
                i as int,
            ),
        decreases n - i,
    {
        proof {
            assert(search_path.deep_view()[i as int] == search_path@[i as int]@);
        }
        if let Some(o) = try_dir_exec(fs, search_path[i].as_str(), rf) {
            return o;
        }
        i = i + 1;
    }
    ResolveOutcome::NotFound
}

} // verus!
