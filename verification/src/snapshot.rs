//! The engine works over a snapshot of file-system facts: what each path
//! spelling is (a regular file with a canonical, symlink-free identity; a
//! directory; missing; or present but impossible to canonicalize), and the
//! text of each canonical file. Lookup of a fact the snapshot does not hold
//! is answered with `None`, which the engine surfaces as a query so that the
//! caller can collect the fact and run again.
use vstd::prelude::*;

verus! {

/// What one path spelling is on disk.
pub enum PathStat {
    /// An existing regular file; `canon` is its canonical path, all symlinks
    /// resolved — the sole identity key for deduplication and cycles.
    File { canon: String },
    /// An existing directory; never a valid resolution target.
    Dir,
    /// No such path.
    Missing,
    /// The path exists but cannot be canonicalized; always a fatal error.
    Unreadable,
}

/// Spec-level counterpart of `PathStat`.
pub enum StatV {
    File { canon: Seq<char> },
    Dir,
    Missing,
    Unreadable,
}

impl View for PathStat {
    type V = StatV;

    open spec fn view(&self) -> StatV {
        match self {
            PathStat::File { canon } => StatV::File { canon: canon@ },
            PathStat::Dir => StatV::Dir,
            PathStat::Missing => StatV::Missing,
            PathStat::Unreadable => StatV::Unreadable,
        }
    }
}

/// Spec-level counterpart of `Snapshot`.
pub struct SnapV {
    pub paths: Seq<(Seq<char>, StatV)>,
    pub contents: Seq<(Seq<char>, Seq<char>)>,
}

/// A snapshot of file-system facts.
pub struct Snapshot {
    pub paths: Vec<(String, PathStat)>,
    pub contents: Vec<(String, String)>,
}

/// First association for `key` in `entries` at or after `i`.
pub open spec fn assoc_at<T>(entries: Seq<(Seq<char>, T)>, key: Seq<char>, i: int) -> Option<T>
    decreases entries.len() - i,
{
    if 0 <= i < entries.len() {
        if entries[i].0 == key {
            Some(entries[i].1)
        } else {
            assoc_at(entries, key, i + 1)
        }
    } else {
        None
    }
}

/// The stat recorded for spelling `p`, if any.
pub open spec fn stat_of(fs: SnapV, p: Seq<char>) -> Option<StatV> {
    assoc_at(fs.paths, p, 0)
}

/// The text recorded for canonical path `c`, if any.
pub open spec fn content_of(fs: SnapV, c: Seq<char>) -> Option<Seq<char>> {
    assoc_at(fs.contents, c, 0)
}

impl View for Snapshot {
    type V = SnapV;

    open spec fn view(&self) -> SnapV {
        SnapV {
            paths: self.paths@.map_values(|e: (String, PathStat)| (e.0@, e.1@)),
            contents: self.contents@.map_values(|e: (String, String)| (e.0@, e.1@)),
        }
    }
}

impl Snapshot {
    /// An empty snapshot: every lookup is unanswered.
    pub fn new() -> (fs: Snapshot)
        ensures
            fs@.paths == Seq::<(Seq<char>, StatV)>::empty(),
            fs@.contents == Seq::<(Seq<char>, Seq<char>)>::empty(),
    {
        let fs = Snapshot { paths: Vec::new(), contents: Vec::new() };
        proof {
            assert(fs@.paths =~= Seq::<(Seq<char>, StatV)>::empty());
            assert(fs@.contents =~= Seq::<(Seq<char>, Seq<char>)>::empty());
        }
        fs
    }

    /// Records what spelling `p` is.
    pub fn add_stat(&mut self, p: String, st: PathStat)
        ensures
            final(self)@.paths == old(self)@.paths.push((p@, st@)),
            final(self)@.contents == old(self)@.contents,
    {
        let ghost prev = self@.paths;
        self.paths.push((p, st));
        proof {
            assert(self@.paths =~= prev.push((self.paths@.last().0@, self.paths@.last().1@)));
        }
    }

    /// Records the text of canonical file `c`.
    pub fn add_content(&mut self, c: String, text: String)
        ensures
            final(self)@.contents == old(self)@.contents.push((c@, text@)),
            final(self)@.paths == old(self)@.paths,
    {
        let ghost prev = self@.contents;
        self.contents.push((c, text));
        proof {
            assert(self@.contents =~= prev.push(
                (self.contents@.last().0@, self.contents@.last().1@),
            ));
        }
    }

    /// Records a regular file that is its own canonical spelling, with its text.
    pub fn add_file(&mut self, p: &str, text: &str)
        ensures
            final(self)@.paths == old(self)@.paths.push(
                (p@, StatV::File { canon: p@ }),
            ),
            final(self)@.contents == old(self)@.contents.push((p@, text@)),
    {
        self.add_stat(p.to_owned(), PathStat::File { canon: p.to_owned() });
        self.add_content(p.to_owned(), text.to_owned());
    }

    /// Records a spelling (say, a symbolic link) that resolves to the
    /// canonical file `canon`.
    pub fn add_alias(&mut self, p: &str, canon: &str)
        ensures
            final(self)@.paths == old(self)@.paths.push(
                (p@, StatV::File { canon: canon@ }),
            ),
            final(self)@.contents == old(self)@.contents,
    {
        self.add_stat(p.to_owned(), PathStat::File { canon: canon.to_owned() });
    }

    /// Records a directory.
    pub fn add_dir(&mut self, p: &str)
        ensures
            final(self)@.paths == old(self)@.paths.push((p@, StatV::Dir)),
            final(self)@.contents == old(self)@.contents,
    {
        self.add_stat(p.to_owned(), PathStat::Dir);
    }

    /// Records that no such path exists.
    pub fn add_missing(&mut self, p: &str)
        ensures
            final(self)@.paths == old(self)@.paths.push((p@, StatV::Missing)),
            final(self)@.contents == old(self)@.contents,
    {
        self.add_stat(p.to_owned(), PathStat::Missing);
    }

    /// Looks the spelling up; `None` means the snapshot does not know.
    pub fn stat(&self, p: &str) -> (r: Option<&PathStat>)
        ensures
            match r {
                Some(st) => stat_of(self@, p@) == Some(st@),
                None => stat_of(self@, p@) is None,
            },
    {
        let n = self.paths.len();
        let mut i: usize = 0;
        while i < n
            invariant
                0 <= i <= n,
                n == self.paths.len(),
                assoc_at(self@.paths, p@, 0) == assoc_at(self@.paths, p@, i as int),
            decreases n - i,
        {
            if str_eq_string(&self.paths[i].0, p) {
                return Some(&self.paths[i].1);
            }
            i = i + 1;
        }
        None
    }

    /// Looks the canonical file's text up; `None` means the snapshot does not
    /// know.
    pub fn content(&self, c: &str) -> (r: Option<&String>)
        ensures
            match r {
                Some(text) => content_of(self@, c@) == Some(text@),
                None => content_of(self@, c@) is None,
            },
    {
        let n = self.contents.len();
        let mut i: usize = 0;
        while i < n
            invariant
                0 <= i <= n,
                n == self.contents.len(),
                assoc_at(self@.contents, c@, 0) == assoc_at(self@.contents, c@, i as int),
            decreases n - i,
        {
            if str_eq_string(&self.contents[i].0, c) {
                return Some(&self.contents[i].1);
            }
            i = i + 1;
        }
        None
    }
}

/// `c` is the canonical identity of some regular-file entry of the snapshot.
pub open spec fn is_file_canon(fs: SnapV, c: Seq<char>) -> bool {
    exists|j: int|
        0 <= j < fs.paths.len() && ((#[trigger] fs.paths[j].1) matches StatV::File { canon }
            && canon == c)
}

/// Every recorded file text fits the engine's line counter: a machine
/// limit, since a line holds at least one character.
pub open spec fn content_lens_ok(fs: SnapV) -> bool {
    forall|j: int| 0 <= j < fs.contents.len() ==> (#[trigger] fs.contents[j]).1.len() < u64::MAX
}

/// A found association lives at some index at or after `i`.
pub proof fn lemma_assoc_at_mem<T>(entries: Seq<(Seq<char>, T)>, key: Seq<char>, i: int)
    requires
        0 <= i,
        assoc_at(entries, key, i) is Some,
    ensures
        exists|j: int|
            i <= j < entries.len() && (#[trigger] entries[j]).0 == key && entries[j].1
                == assoc_at(entries, key, i)->Some_0,
    decreases entries.len() - i,
{
    if 0 <= i < entries.len() {
        if entries[i].0 == key {
        } else {
            lemma_assoc_at_mem(entries, key, i + 1);
        }
    }
}

fn str_eq_string(a: &String, b: &str) -> (r: bool)
    ensures
        r == (a@ == b@),
{
    let y = b.to_owned();
    *a == y
}

} // verus!
