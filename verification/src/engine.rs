//! The executable traversal engine, proved equal to the model: a depth-first
//! walk of the reference graph discovered while reading files, inlining each
//! approved file exactly once per run, detecting cycles, and accumulating
//! the amalgamated output.
use vstd::prelude::*;

use crate::errors::{ErrV, ErrorHandlingOpts, Query, QueryV, RunError};
use crate::filter::InliningFilter;
use crate::model::{
    chain_of, cur, find_rec, find_rec_at, index_of_at, lemma_begin_notes_frame, lemma_find_rec,
    lemma_flush_frame, lemma_index_of_at, lemma_mark_frame, lemma_render_push, m_begin_notes,
    m_begin_notes_rec, m_content_line, m_emit_lit, m_emit_raw, m_enter, m_eof, m_flush_pending,
    m_mark_rec, m_note, render, render_item, CfgV, MEnv, MRec, MSt, OutItem, PendV,
};
use crate::resolve::IncludeResolver;
use crate::snapshot::{is_file_canon, SnapV, Snapshot};
use crate::text::{dec_rep, subst, subst_exec, u64_to_dec};

verus! {

/// The output-side options of one run.
pub struct Config {
    /// Emit `#line` synchronization directives.
    pub line_directives: bool,
    /// Drop leading and trailing blank lines of each file's contribution.
    pub trim_blank_lines: bool,
    /// Template of the note line opening a nested file's contribution.
    pub begin_note: Option<String>,
    /// Template of the note line closing a nested file's contribution.
    pub end_note: Option<String>,
    /// The three error policies.
    pub error_handling_opts: ErrorHandlingOpts,
}

impl View for Config {
    type V = CfgV;

    open spec fn view(&self) -> CfgV {
        CfgV {
            line_directives: self.line_directives,
            trim_blank_lines: self.trim_blank_lines,
            begin_note: match &self.begin_note {
                Some(t) => Some(t@),
                None => None,
            },
            end_note: match &self.end_note {
                Some(t) => Some(t@),
                None => None,
            },
            cyclic: self.error_handling_opts.cyclic_include,
            unres_quote: self.error_handling_opts.unresolvable_quote_include,
            unres_system: self.error_handling_opts.unresolvable_system_include,
        }
    }
}

/// The record kept per discovered file identity.
pub struct FileRec {
    pub canonical_path: String,
    pub disp: String,
    pub included_by: Option<usize>,
    pub in_stack: bool,
    pub emitted: bool,
}

impl View for FileRec {
    type V = MRec;

    open spec fn view(&self) -> MRec {
        MRec {
            canon: self.canonical_path@,
            disp: self.disp@,
            parent: match self.included_by {
                Some(p) => Some(p as int),
                None => None,
            },
            in_stack: self.in_stack,
            emitted: self.emitted,
        }
    }
}

impl DeepView for FileRec {
    type V = MRec;

    open spec fn deep_view(&self) -> MRec {
        self.view()
    }
}

/// A buffered blank line.
pub struct PendRec {
    pub file: usize,
    pub line: u64,
    pub text: String,
}

impl View for PendRec {
    type V = PendV;

    open spec fn view(&self) -> PendV {
        PendV { file: self.file as int, line: self.line as int, text: self.text@ }
    }
}

impl DeepView for PendRec {
    type V = PendV;

    open spec fn deep_view(&self) -> PendV {
        self.view()
    }
}

/// How one step of the engine ended.
pub enum StepRes {
    /// Went through.
    Done,
    /// The run is aborted with this error.
    Fatal { error: RunError },
    /// The snapshot is missing this fact.
    Ask { query: Query },
}

impl View for StepRes {
    type V = crate::model::MStep;

    open spec fn view(&self) -> crate::model::MStep {
        match self {
            StepRes::Done => crate::model::MStep::Done,
            StepRes::Fatal { error } => crate::model::MStep::Fatal { err: error@ },
            StepRes::Ask { query } => crate::model::MStep::Ask { query: query@ },
        }
    }
}

/// The engine's state invariant: parents precede children, identities are
/// unique, the unseen list is exactly the not-yet-discovered canonical file
/// identities, and the chain's tail is a live record.
pub open spec fn st_wf(fs: SnapV, st: MSt) -> bool {
    &&& match st.tail {
        Some(t) => 0 <= t < st.files.len(),
        None => true,
    }
    &&& forall|i: int|
        0 <= i < st.files.len() ==> ((#[trigger] st.files[i]).parent matches Some(p) ==> 0 <= p
            < i)
    &&& forall|i: int, j: int|
        0 <= i < j < st.files.len() ==> st.files[i].canon != st.files[j].canon
    &&& forall|a: int, b: int| 0 <= a < b < st.unseen.len() ==> st.unseen[a] != st.unseen[b]
    &&& forall|k: int|
        0 <= k < st.unseen.len() ==> is_file_canon(fs, #[trigger] st.unseen[k]) && find_rec(
            st.files,
            st.unseen[k],
        ) is None
    &&& forall|j: int|
        0 <= j < fs.paths.len() ==> ((#[trigger] fs.paths[j]).1 matches
        crate::snapshot::StatV::File { canon } ==> (find_rec(st.files, canon) is Some
            || st.unseen.contains(canon)))
}

/// The engine.
pub struct Processor {
    pub resolver: IncludeResolver,
    pub inlining_filter: InliningFilter,
    pub config: Config,
    pub files: Vec<FileRec>,
    pub tail: Option<usize>,
    pub expect: Option<(usize, u64)>,
    pub out: String,
    pub pending: Vec<PendRec>,
    pub warns: Vec<RunError>,
    pub trace: Ghost<Seq<OutItem>>,
    pub unseen: Ghost<Seq<Seq<char>>>,
}

impl Processor {
    /// The model state this engine value stands for.
    pub open spec fn st(&self) -> MSt {
        MSt {
            files: self.files.deep_view(),
            tail: match self.tail {
                Some(t) => Some(t as int),
                None => None,
            },
            unseen: self.unseen@,
            expect: match self.expect {
                Some((f, l)) => Some((f as int, l as int)),
                None => None,
            },
            trace: self.trace@,
            pending: self.pending.deep_view(),
            warns: self.warns.deep_view(),
        }
    }

    /// The fixed environment of a run over snapshot `fs`.
    pub open spec fn env_v(&self, fs: SnapV) -> MEnv {
        MEnv {
            fs,
            cfg: self.config@,
            quote_dirs: self.resolver.quote_search_paths.deep_view(),
            system_dirs: self.resolver.system_search_paths.deep_view(),
            quote_globs: self.inlining_filter.quote_view(),
            system_globs: self.inlining_filter.system_view(),
        }
    }

    /// The whole well-formedness of the engine: a well-formed model state
    /// whose rendered trace is exactly the accumulated output.
    pub open spec fn wf(&self, fs: SnapV) -> bool {
        &&& st_wf(fs, self.st())
        &&& self.out@ == render(self.trace@)
    }
}

/// The configuration and collaborators are untouched by the traversal.
pub open spec fn same_setup(a: Processor, b: Processor) -> bool {
    &&& a.config@ == b.config@
    &&& a.resolver.quote_search_paths.deep_view() == b.resolver.quote_search_paths.deep_view()
    &&& a.resolver.system_search_paths.deep_view() == b.resolver.system_search_paths.deep_view()
    &&& a.inlining_filter.quote_view() == b.inlining_filter.quote_view()
    &&& a.inlining_filter.system_view() == b.inlining_filter.system_view()
}

impl Processor {
    /// Writes one literal line, with a `#line` directive first when enabled
    /// and continuity broke.
    fn emit_raw(&mut self, f: usize, lno: u64, text: &str)
        requires
            f < old(self).files.len(),
            lno < u64::MAX,
            old(self).out@ == render(old(self).trace@),
        ensures
            final(self).st() == m_emit_raw(old(self).config@, old(self).st(), f as int, lno as int, text@),
            final(self).out@ == render(final(self).trace@),
            same_setup(*old(self), *final(self)),
            final(self).files == old(self).files,
            final(self).tail == old(self).tail,
            final(self).pending == old(self).pending,
            final(self).unseen == old(self).unseen,
            final(self).warns == old(self).warns,
    {
        let ghost st0 = self.st();
        let cont = match self.expect {
            Some((ef, el)) => ef == f && el == lno,
            None => false,
        };
        if self.config.line_directives {
            if !cont {
                let canon = self.files[f].canonical_path.clone();
                self.out.append("#line ");
                let num = u64_to_dec(lno);
                self.out.append(num.as_str());
                self.out.append(" \"");
                self.out.append(canon.as_str());
                self.out.append("\"\n");
                proof {
                    let it = OutItem::Sync { canon: canon@, line: lno as int };
                    lemma_render_push(self.trace@, it);
                    reveal_strlit("#line ");
                    reveal_strlit(" \"");
                    reveal_strlit("\"\n");
                    assert(render_item(it) =~= "#line "@ + dec_rep(lno as nat) + " \""@ + canon@
                        + "\"\n"@);
                    assert("#line "@ =~= seq!['#', 'l', 'i', 'n', 'e', ' ']);
                    assert(" \""@ =~= seq![' ', '"']);
                    assert("\"\n"@ =~= seq!['"', '\n']);
                    self.trace@ = self.trace@.push(it);
                    assert(self.out@ =~= render(self.trace@));
                }
            }
            self.out.append(text);
            self.expect = Some((f, lno + 1));
            proof {
                let it = OutItem::Lit { file: f as int, line: lno as int, text: text@ };
                lemma_render_push(self.trace@, it);
                self.trace@ = self.trace@.push(it);
                assert(self.out@ =~= render(self.trace@));
                assert(self.st() =~= m_emit_raw(
                    self.config@,
                    st0,
                    f as int,
                    lno as int,
                    text@,
                ));
            }
        } else {
            self.out.append(text);
            proof {
                let it = OutItem::Lit { file: f as int, line: lno as int, text: text@ };
                lemma_render_push(self.trace@, it);
                self.trace@ = self.trace@.push(it);
                assert(self.out@ =~= render(self.trace@));
                assert(self.st() =~= m_emit_raw(
                    self.config@,
                    st0,
                    f as int,
                    lno as int,
                    text@,
                ));
            }
        }
    }

    /// Writes one note line and breaks continuity.
    fn push_note(&mut self, text: String)
        requires
            old(self).out@ == render(old(self).trace@),
        ensures
            final(self).st() == m_note(old(self).st(), text@),
            final(self).out@ == render(final(self).trace@),
            same_setup(*old(self), *final(self)),
            final(self).files == old(self).files,
            final(self).tail == old(self).tail,
            final(self).pending == old(self).pending,
            final(self).unseen == old(self).unseen,
            final(self).warns == old(self).warns,
    {
        let ghost st0 = self.st();
        self.out.append(text.as_str());
        self.out.append("\n");
        self.expect = None;
        proof {
            let it = OutItem::Note { text: text@ };
            lemma_render_push(self.trace@, it);
            reveal_strlit("\n");
            assert("\n"@ =~= seq!['\n']);
            assert(render_item(it) =~= text@ + "\n"@);
            self.trace@ = self.trace@.push(it);
            assert(self.out@ =~= render(self.trace@));
            assert(self.st() =~= m_note(st0, text@));
        }
    }

    /// Emits every buffered blank line, in order, and empties the buffer.
    fn flush_pending(&mut self)
        requires
            old(self).out@ == render(old(self).trace@),
            forall|k: int|
                0 <= k < old(self).pending.len() ==> (#[trigger] old(
                    self,
                ).pending[k]).file < old(self).files.len() && old(self).pending[k].line
                    < u64::MAX,
        ensures
            final(self).st() == m_flush_pending(old(self).config@, old(self).st()),
            final(self).out@ == render(final(self).trace@),
            same_setup(*old(self), *final(self)),
            final(self).files == old(self).files,
            final(self).tail == old(self).tail,
            final(self).unseen == old(self).unseen,
            final(self).warns == old(self).warns,
            final(self).pending.len() == 0,
    {
        let ghost st0 = self.st();
        let ghost cfg = self.config@;
        let n = self.pending.len();
        let mut k: usize = 0;
        proof {
            assert(st0.pending.len() == n as int);
            assert(st0.pending.subrange(0, n as int) =~= st0.pending);
            assert(MSt { pending: st0.pending.subrange(0, n as int), ..self.st() } =~~= st0);
        }
        while k < n
            invariant
                0 <= k <= n,
                n == self.pending.len(),
                self.pending == old(self).pending,
                self.files == old(self).files,
                self.tail == old(self).tail,
                self.unseen == old(self).unseen,
                self.warns == old(self).warns,
                same_setup(*old(self), *self),
                self.config@ == cfg,
                self.out@ == render(self.trace@),
                st0.pending == self.pending.deep_view(),
                forall|j: int|
                    0 <= j < self.pending.len() ==> (#[trigger] self.pending[j]).file
                        < self.files.len() && self.pending[j].line < u64::MAX,
                m_flush_pending(cfg, st0) == m_flush_pending(
                    cfg,
                    MSt { pending: st0.pending.subrange(k as int, n as int), ..self.st() },
                ),
            decreases n - k,
        {
            let ghost stk = MSt { pending: st0.pending.subrange(k as int, n as int), ..self.st() };
            let f = self.pending[k].file;
            let lno = self.pending[k].line;
            let text = self.pending[k].text.clone();
            proof {
                assert(st0.pending == self.pending.deep_view());
                assert(self.pending.deep_view()[k as int] == self.pending@[k as int]@);
                assert(st0.pending[k as int] == self.pending[k as int]@);
            }
            self.emit_raw(f, lno, text.as_str());
            proof {
                let p = stk.pending[0];
                let st1 = MSt { pending: stk.pending.drop_first(), ..stk };
                assert(stk.pending.drop_first() =~= st0.pending.subrange(k + 1, n as int));
                assert(m_emit_raw(cfg, st1, p.file, p.line, p.text) =~~= MSt {
                    pending: st0.pending.subrange(k + 1, n as int),
                    ..self.st()
                });
            }
            k = k + 1;
        }
        self.pending.clear();
        proof {
            assert(st0.pending.subrange(n as int, n as int) =~= Seq::<PendV>::empty());
            assert(self.st() =~= MSt {
                pending: st0.pending.subrange(n as int, n as int),
                ..self.st()
            });
            assert(m_flush_pending(cfg, self.st()) == self.st());
            assert(final(self).pending.deep_view() =~= Seq::<PendV>::empty());
        }
    }
}

/// The buffered blanks refer to live records and representable lines.
pub open spec fn pending_wf(p: Processor) -> bool {
    forall|k: int|
        0 <= k < p.pending.len() ==> (#[trigger] p.pending[k]).file < p.files.len()
            && p.pending[k].line < u64::MAX
}

/// Appending a record changes no earlier lookup and resolves only its own
/// identity.
pub proof fn lemma_find_rec_push(files: Seq<MRec>, r: MRec, c: Seq<char>, i: int)
    requires
        0 <= i <= files.len(),
    ensures
        find_rec_at(files.push(r), c, i) == match find_rec_at(files, c, i) {
            Some(j) => Some(j),
            None => if r.canon == c {
                Some(files.len() as int)
            } else {
                None
            },
        },
    decreases files.len() - i,
{
    assert(files.push(r).len() == files.len() + 1);
    assert(forall|j: int| 0 <= j < files.len() ==> files.push(r)[j] == files[j]);
    assert(files.push(r)[files.len() as int] == r);
    if i < files.len() && files[i].canon != c {
        lemma_find_rec_push(files, r, c, i + 1);
    }
}

/// A resolved reference names the canonical identity of a regular-file
/// entry of the snapshot.
pub proof fn lemma_try_dirs_found(
    fs: SnapV,
    dirs: Seq<Seq<char>>,
    rf: Seq<char>,
    i: int,
    c: Seq<char>,
)
    requires
        0 <= i,
        crate::resolve::try_dirs(fs, dirs, rf, i) == (crate::resolve::RRes::Found { canon: c }),
    ensures
        is_file_canon(fs, c),
    decreases dirs.len() - i,
{
    if 0 <= i < dirs.len() {
        let cand = crate::resolve::join_path(dirs[i], rf);
        match crate::snapshot::stat_of(fs, cand) {
            Some(st) => {
                match st {
                    crate::snapshot::StatV::File { canon } => {
                        crate::snapshot::lemma_assoc_at_mem(fs.paths, cand, 0);
                    },
                    _ => {
                        lemma_try_dirs_found(fs, dirs, rf, i + 1, c);
                    },
                }
            },
            None => {},
        }
    }
}

/// Same, over the full resolution including the context directory.
pub proof fn lemma_resolve_found(
    fs: SnapV,
    dirs: Seq<Seq<char>>,
    ctx: Option<Seq<char>>,
    rf: Seq<char>,
    c: Seq<char>,
)
    requires
        crate::resolve::resolve_spec(fs, dirs, ctx, rf) == (crate::resolve::RRes::Found {
            canon: c,
        }),
    ensures
        is_file_canon(fs, c),
{
    match ctx {
        Some(d) => {
            let cand = crate::resolve::join_path(d, rf);
            match crate::snapshot::stat_of(fs, cand) {
                Some(st) => match st {
                    crate::snapshot::StatV::File { canon } => {
                        crate::snapshot::lemma_assoc_at_mem(fs.paths, cand, 0);
                    },
                    _ => {
                        lemma_try_dirs_found(fs, dirs, rf, 0, c);
                    },
                },
                None => {},
            }
        },
        None => {
            lemma_try_dirs_found(fs, dirs, rf, 0, c);
        },
    }
}

/// A state whose arena keeps its length, identities, parents and stack
/// flags, with the same unseen list and a tail still in bounds, stays
/// well-formed.
pub proof fn lemma_wf_frame(fs: SnapV, a: MSt, b: MSt)
    requires
        st_wf(fs, a),
        b.files.len() == a.files.len(),
        forall|i: int|
            0 <= i < a.files.len() ==> {
                let r = #[trigger] b.files[i];
                let o = a.files[i];
                r.canon == o.canon && r.parent == o.parent
            },
        b.unseen == a.unseen,
        match b.tail {
            Some(t) => 0 <= t < b.files.len(),
            None => true,
        },
    ensures
        st_wf(fs, b),
{
    assert forall|k: int| 0 <= k < b.unseen.len() implies is_file_canon(
        fs,
        #[trigger] b.unseen[k],
    ) && find_rec(b.files, b.unseen[k]) is None by {
        lemma_find_rec_same(a.files, b.files, b.unseen[k], 0);
    }
    assert forall|j: int|
        0 <= j < fs.paths.len() implies ((#[trigger] fs.paths[j]).1 matches
    crate::snapshot::StatV::File { canon } ==> (find_rec(b.files, canon) is Some
        || b.unseen.contains(canon))) by {
        match fs.paths[j].1 {
            crate::snapshot::StatV::File { canon } => {
                lemma_find_rec_same(a.files, b.files, canon, 0);
            },
            _ => {},
        }
    }
}

/// Two arenas with the same canonical identities find the same records.
pub proof fn lemma_find_rec_same(a: Seq<MRec>, b: Seq<MRec>, c: Seq<char>, i: int)
    requires
        a.len() == b.len(),
        forall|j: int| 0 <= j < a.len() ==> (#[trigger] a[j]).canon == b[j].canon,
        0 <= i <= a.len(),
    ensures
        find_rec_at(a, c, i) == find_rec_at(b, c, i),
    decreases a.len() - i,
{
    if i < a.len() && a[i].canon != c {
        lemma_find_rec_same(a, b, c, i + 1);
    }
}

/// Walks the parent links from `t` to its root.
fn chain_vec(files: &Vec<FileRec>, t: usize) -> (ch: Vec<usize>)
    requires
        t < files.len(),
        forall|i: int|
            0 <= i < files.len() ==> ((#[trigger] files.deep_view()[i]).parent matches Some(p)
                ==> 0 <= p < i),
    ensures
        ch@.map_values(|u: usize| u as int) == chain_of(files.deep_view(), t as int),
        forall|k: int| 0 <= k < ch@.len() ==> (#[trigger] ch@[k]) < files.len(),
    decreases t,
{
    let mut v: Vec<usize>;
    let next = files[t].included_by;
    proof {
        assert(files.deep_view()[t as int] == files@[t as int]@);
    }
    match next {
        Some(p) => {
            v = chain_vec(files, p);
            let ghost vr = v@;
            v.insert(0, t);
            proof {
                assert(v@.map_values(|u: usize| u as int) =~= seq![t as int] + vr.map_values(
                    |u: usize| u as int,
                ));
            }
        },
        None => {
            v = Vec::new();
            v.push(t);
            proof {
                assert(v@.map_values(|u: usize| u as int) =~= seq![t as int]);
            }
        },
    }
    v
}

/// Marks the chain from `t` as having produced output.
fn mark_rec_exec(files: &mut Vec<FileRec>, t: usize)
    requires
        t < old(files).len(),
        forall|i: int|
            0 <= i < old(files).len() ==> ((#[trigger] old(files).deep_view()[i]).parent
                matches Some(p) ==> 0 <= p < i),
    ensures
        final(files).deep_view() == m_mark_rec(old(files).deep_view(), t as int),
        final(files)@.len() == old(files)@.len(),
    decreases t,
{
    let ghost before = files.deep_view();
    files[t].emitted = true;
    proof {
        assert(files.deep_view() =~~= before.update(
            t as int,
            MRec { emitted: true, ..before[t as int] },
        ));
    }
    let next = files[t].included_by;
    proof {
        assert(files.deep_view()[t as int] == files@[t as int]@);
    }
    match next {
        Some(p) => {
            mark_rec_exec(files, p);
        },
        None => {},
    }
}

impl Processor {
    /// Opens the wrapper notes of every file on the chain contributing its
    /// first output, outermost first, when a begin template is configured.
    fn begin_notes(&mut self)
        requires
            old(self).out@ == render(old(self).trace@),
            old(self).tail is Some,
            old(self).tail matches Some(t) ==> t < old(self).files.len(),
            forall|i: int|
                0 <= i < old(self).files.len() ==> ((#[trigger] old(
                    self,
                ).files.deep_view()[i]).parent matches Some(p) ==> 0 <= p < i),
        ensures
            final(self).st() == m_begin_notes(old(self).config@, old(self).st()),
            final(self).out@ == render(final(self).trace@),
            same_setup(*old(self), *final(self)),
            final(self).files == old(self).files,
            final(self).tail == old(self).tail,
            final(self).pending == old(self).pending,
            final(self).unseen == old(self).unseen,
            final(self).warns == old(self).warns,
    {
        let ghost st0 = self.st();
        let ghost cfg = self.config@;
        let tmpl = match &self.config.begin_note {
            None => {
                proof {
                    assert(m_begin_notes(cfg, st0) == st0);
                }
                return ;
            },
            Some(t) => t.clone(),
        };
        let t = match self.tail {
            Some(t) => t,
            None => {
                return ;  // unreachable: the tail is open
            },
        };
        let ch = chain_vec(&self.files, t);
        let ghost chv = ch@.map_values(|u: usize| u as int);
        let n = ch.len();
        let mut k = n;
        proof {
            assert(chv.subrange(0, n as int) =~= chv);
            assert(cur(st0) == t as int);
        }
        while k > 0
            invariant
                0 <= k <= n,
                n == ch.len(),
                chv == ch@.map_values(|u: usize| u as int),
                forall|j: int| 0 <= j < ch@.len() ==> (#[trigger] ch@[j]) < self.files.len(),
                tmpl@ == match cfg.begin_note {
                    Some(x) => x,
                    None => tmpl@,
                },
                cfg.begin_note is Some,
                self.config@ == cfg,
                self.files == old(self).files,
                self.tail == old(self).tail,
                self.pending == old(self).pending,
                self.unseen == old(self).unseen,
                self.warns == old(self).warns,
                same_setup(*old(self), *self),
                self.out@ == render(self.trace@),
                m_begin_notes_rec(tmpl@, st0, chv) == m_begin_notes_rec(
                    tmpl@,
                    self.st(),
                    chv.subrange(0, k as int),
                ),
            decreases k,
        {
            let ghost stk = self.st();
            let f = ch[k - 1];
            proof {
                assert(chv.subrange(0, k as int).last() == chv[k - 1]);
                assert(chv[k - 1] == f as int);
                assert(self.files.deep_view()[f as int] == self.files@[f as int]@);
            }
            if !self.files[f].emitted && self.files[f].included_by.is_some() {
                let txt = subst_exec(
                    self.config.begin_note.as_ref().unwrap().as_str(),
                    self.files[f].disp.as_str(),
                    self.files[f].canonical_path.as_str(),
                );
                self.push_note(txt);
                proof {
                    assert(self.st() =~~= m_note(
                        stk,
                        subst(tmpl@, stk.files[f as int].disp, stk.files[f as int].canon),
                    ));
                }
            } else {
                proof {
                    let fv = stk.files[f as int];
                    assert(!(0 <= f < stk.files.len() && !fv.emitted && fv.parent is Some));
                }
            }
            proof {
                assert(chv.subrange(0, k as int).drop_last() =~= chv.subrange(0, k - 1));
            }
            k = k - 1;
        }
        proof {
            assert(chv.subrange(0, 0) =~= Seq::<int>::empty());
            assert(m_begin_notes_rec(tmpl@, self.st(), chv.subrange(0, 0)) == self.st());
            assert(m_begin_notes(cfg, st0) == m_begin_notes_rec(tmpl@, st0, chain_of(
                st0.files,
                cur(st0),
            )));
        }
    }

    /// One full literal emission: flush buffered blanks, open wrappers, emit
    /// the line (with its directive when due), and mark the chain emitted.
    fn emit_lit(&mut self, lno: u64, text: &str)
        requires
            old(self).out@ == render(old(self).trace@),
            old(self).tail is Some,
            old(self).tail matches Some(t) ==> t < old(self).files.len(),
            lno < u64::MAX,
            forall|i: int|
                0 <= i < old(self).files.len() ==> ((#[trigger] old(
                    self,
                ).files.deep_view()[i]).parent matches Some(p) ==> 0 <= p < i),
            forall|k: int|
                0 <= k < old(self).pending.len() ==> (#[trigger] old(
                    self,
                ).pending[k]).file < old(self).files.len() && old(self).pending[k].line
                    < u64::MAX,
        ensures
            final(self).st() == m_emit_lit(
                old(self).config@,
                old(self).st(),
                lno as int,
                text@,
            ),
            final(self).out@ == render(final(self).trace@),
            same_setup(*old(self), *final(self)),
            final(self).tail == old(self).tail,
            final(self).unseen == old(self).unseen,
            final(self).warns == old(self).warns,
            final(self).pending.len() == 0,
            final(self).files@.len() == old(self).files@.len(),
            forall|i: int|
                0 <= i < old(self).files@.len() ==> {
                    let r = #[trigger] final(self).files.deep_view()[i];
                    let o = old(self).files.deep_view()[i];
                    r.canon == o.canon && r.disp == o.disp && r.parent == o.parent && r.in_stack
                        == o.in_stack
                },
    {
        let ghost st0 = self.st();
        let ghost cfg = self.config@;
        let t = match self.tail {
            Some(t) => t,
            None => {
                return ;  // unreachable: the tail is open
            },
        };
        proof {
            assert(cur(st0) == t as int);
        }
        self.flush_pending();
        let ghost st1 = self.st();
        self.begin_notes();
        let ghost st2 = self.st();
        proof {
            lemma_flush_frame(cfg, st0);
        }
        self.emit_raw(t, lno, text);
        let ghost st3 = self.st();
        mark_rec_exec(&mut self.files, t);
        proof {
            assert(st1 == m_flush_pending(cfg, st0));
            assert(st2 == m_begin_notes(cfg, st1));
            assert(st3 == m_emit_raw(cfg, st2, t as int, lno as int, text@));
            assert(self.st() =~~= MSt { files: m_mark_rec(st3.files, t as int), ..st3 });
            assert(self.st() =~~= m_emit_lit(cfg, st0, lno as int, text@));
            lemma_mark_frame(st3.files, t as int);
        }
    }

    /// Handles a content line: blank-line trimming drops or buffers it;
    /// otherwise it is emitted in full.
    fn content_line(&mut self, lno: u64, text: &str)
        requires
            old(self).out@ == render(old(self).trace@),
            old(self).tail is Some,
            old(self).tail matches Some(t) ==> t < old(self).files.len(),
            lno < u64::MAX,
            forall|i: int|
                0 <= i < old(self).files.len() ==> ((#[trigger] old(
                    self,
                ).files.deep_view()[i]).parent matches Some(p) ==> 0 <= p < i),
            forall|k: int|
                0 <= k < old(self).pending.len() ==> (#[trigger] old(
                    self,
                ).pending[k]).file < old(self).files.len() && old(self).pending[k].line
                    < u64::MAX,
        ensures
            final(self).st() == m_content_line(
                old(self).config@,
                old(self).st(),
                lno as int,
                text@,
            ),
            final(self).out@ == render(final(self).trace@),
            same_setup(*old(self), *final(self)),
            final(self).tail == old(self).tail,
            final(self).unseen == old(self).unseen,
            final(self).warns == old(self).warns,
            final(self).files@.len() == old(self).files@.len(),
            forall|i: int|
                0 <= i < old(self).files@.len() ==> {
                    let r = #[trigger] final(self).files.deep_view()[i];
                    let o = old(self).files.deep_view()[i];
                    r.canon == o.canon && r.disp == o.disp && r.parent == o.parent && r.in_stack
                        == o.in_stack
                },
            forall|k: int|
                0 <= k < final(self).pending.len() ==> (#[trigger] final(self).pending[k]).file
                    < final(self).files.len() && final(self).pending[k].line < u64::MAX,
    {
        let ghost st0 = self.st();
        let ghost cfg = self.config@;
        let t = match self.tail {
            Some(t) => t,
            None => {
                return ;  // unreachable: the tail is open
            },
        };
        proof {
            assert(cur(st0) == t as int);
            assert(self.files.deep_view()[t as int] == self.files@[t as int]@);
        }
        if self.config.trim_blank_lines && crate::directive::is_blank_exec(text) {
            if self.files[t].emitted {
                let ghost pend0 = self.pending.deep_view();
                self.pending.push(PendRec { file: t, line: lno, text: text.to_owned() });
                proof {
                    assert(self.pending.deep_view() =~= pend0.push(
                        PendV { file: t as int, line: lno as int, text: text@ },
                    ));
                    assert(self.st() =~~= m_content_line(cfg, st0, lno as int, text@));
                }
            } else {
                proof {
                    assert(self.st() =~~= m_content_line(cfg, st0, lno as int, text@));
                }
            }
        } else {
            self.emit_lit(lno, text);
            proof {
                assert(self.st() =~~= m_content_line(cfg, st0, lno as int, text@));
            }
        }
    }

    /// Looks a canonical identity up in the arena.
    fn find_rec_exec(&self, c: &str) -> (r: Option<usize>)
        ensures
            match r {
                Some(j) => j < self.files.len() && find_rec(self.st().files, c@) == Some(
                    j as int,
                ),
                None => find_rec(self.st().files, c@) is None,
            },
    {
        let n = self.files.len();
        let mut i: usize = 0;
        while i < n
            invariant
                0 <= i <= n,
                n == self.files.len(),
                find_rec_at(self.st().files, c@, 0) == find_rec_at(self.st().files, c@, i as int),
            decreases n - i,
        {
            proof {
                assert(self.files.deep_view()[i as int] == self.files@[i as int]@);
            }
            if crate::text::str_eq(self.files[i].canonical_path.as_str(), c) {
                return Some(i);
            }
            i = i + 1;
        }
        None
    }

    /// End of the open file: trailing buffered blanks go (under trimming),
    /// the end note closes an emitting nested file, the record leaves the
    /// chain.
    fn eof(&mut self)
        requires
            old(self).out@ == render(old(self).trace@),
            old(self).tail is Some,
            old(self).tail matches Some(t) ==> t < old(self).files.len(),
            pending_wf(*old(self)),
            forall|i: int|
                0 <= i < old(self).files.len() ==> ((#[trigger] old(
                    self,
                ).files.deep_view()[i]).parent matches Some(p) ==> 0 <= p < i),
        ensures
            final(self).st() == m_eof(old(self).config@, old(self).st()),
            final(self).out@ == render(final(self).trace@),
            same_setup(*old(self), *final(self)),
            final(self).unseen == old(self).unseen,
            final(self).warns == old(self).warns,
            pending_wf(*final(self)),
            final(self).files@.len() == old(self).files@.len(),
            forall|i: int|
                0 <= i < old(self).files@.len() ==> {
                    let r = #[trigger] final(self).files.deep_view()[i];
                    let o = old(self).files.deep_view()[i];
                    r.canon == o.canon && r.disp == o.disp && r.parent == o.parent
                },
            final(self).tail == (match old(self).tail {
                Some(t) => old(self).files@[t as int].included_by,
                None => None,
            }),
    {
        let ghost st0 = self.st();
        let ghost cfg = self.config@;
        let t = match self.tail {
            Some(t) => t,
            None => {
                return ;  // unreachable: the tail is open
            },
        };
        proof {
            assert(cur(st0) == t as int);
        }
        if self.config.trim_blank_lines {
            let ghost pend0 = self.pending.deep_view();
            let mut keep: Vec<PendRec> = Vec::new();
            let n = self.pending.len();
            let mut i: usize = 0;
            proof {
                assert(pend0.subrange(0, n as int) =~= pend0);
                assert(keep.deep_view() =~= Seq::<PendV>::empty());
                assert(keep.deep_view() + crate::model::drop_owned(pend0, t as int)
                    =~= crate::model::drop_owned(pend0, t as int));
            }
            while i < n
                invariant
                    0 <= i <= n,
                    n == self.pending.len(),
                    pend0 == self.pending.deep_view(),
                    pending_wf(*self),
                    keep.deep_view() + crate::model::drop_owned(
                        pend0.subrange(i as int, n as int),
                        t as int,
                    ) == crate::model::drop_owned(pend0, t as int),
                    forall|k: int|
                        0 <= k < keep.len() ==> (#[trigger] keep[k]).file < self.files.len()
                            && keep[k].line < u64::MAX,
                decreases n - i,
            {
                let ghost rest = pend0.subrange(i as int, n as int);
                let ghost keep0 = keep.deep_view();
                proof {
                    assert(self.pending.deep_view()[i as int] == self.pending@[i as int]@);
                    assert(rest[0] == pend0[i as int]);
                    assert(rest.drop_first() =~= pend0.subrange(i + 1, n as int));
                }
                if self.pending[i].file != t {
                    keep.push(
                        PendRec {
                            file: self.pending[i].file,
                            line: self.pending[i].line,
                            text: self.pending[i].text.clone(),
                        },
                    );
                    proof {
                        assert(keep.deep_view() =~= keep0.push(pend0[i as int]));
                        assert(keep.deep_view() + crate::model::drop_owned(
                            pend0.subrange(i + 1, n as int),
                            t as int,
                        ) =~= keep0 + crate::model::drop_owned(rest, t as int));
                    }
                } else {
                    proof {
                        assert(keep.deep_view() + crate::model::drop_owned(
                            pend0.subrange(i + 1, n as int),
                            t as int,
                        ) =~= keep0 + crate::model::drop_owned(rest, t as int));
                    }
                }
                i = i + 1;
            }
            self.pending = keep;
            proof {
                assert(crate::model::drop_owned(pend0.subrange(n as int, n as int), t as int)
                    =~= Seq::<PendV>::empty());
                assert(keep.deep_view() + Seq::<PendV>::empty() =~= keep.deep_view());
                assert(self.st() =~~= MSt {
                    pending: crate::model::drop_owned(st0.pending, t as int),
                    ..st0
                });
            }
        } else {
            self.flush_pending();
            proof {
                lemma_flush_frame(cfg, st0);
            }
        }
        let ghost st1 = self.st();
        let emit_end = match &self.config.end_note {
            Some(_) => self.files[t].emitted && self.files[t].included_by.is_some(),
            None => false,
        };
        proof {
            assert(self.files.deep_view()[t as int] == self.files@[t as int]@);
        }
        if emit_end {
            let txt = subst_exec(
                self.config.end_note.as_ref().unwrap().as_str(),
                self.files[t].disp.as_str(),
                self.files[t].canonical_path.as_str(),
            );
            self.push_note(txt);
        }
        let ghost st2 = self.st();
        proof {
            match cfg.end_note {
                Some(tmpl) => {
                    if st1.files[t as int].emitted && st1.files[t as int].parent is Some {
                        assert(st2 =~~= m_note(
                            st1,
                            subst(tmpl, st1.files[t as int].disp, st1.files[t as int].canon),
                        ));
                    } else {
                        assert(st2 == st1);
                    }
                },
                None => {
                    assert(st2 == st1);
                },
            }
        }
        let ghost files2 = self.files.deep_view();
        self.files[t].in_stack = false;
        self.tail = self.files[t].included_by;
        proof {
            assert(self.files.deep_view() =~~= files2.update(
                t as int,
                MRec { in_stack: false, ..files2[t as int] },
            ));
            let it = OutItem::Close { file: t as int };
            lemma_render_push(self.trace@, it);
            assert(self.out@ + render_item(it) =~= self.out@);
            self.trace@ = self.trace@.push(it);
            assert(self.st() =~~= m_eof(cfg, st0));
        }
    }
}

/// Entering a fresh record keeps the engine well-formed: the new identity
/// was unseen, so uniqueness and the unseen accounting carry over.
pub proof fn lemma_wf_enter(fs: SnapV, st: MSt, c: Seq<char>, disp: Seq<char>, k: int)
    requires
        st_wf(fs, st),
        find_rec(st.files, c) is None,
        0 <= k < st.unseen.len(),
        st.unseen[k] == c,
    ensures
        st_wf(fs, m_enter(st, c, disp, k)),
        m_enter(st, c, disp, k).unseen.len() == st.unseen.len() - 1,
    decreases 0int,
{
    let stn = m_enter(st, c, disp, k);
    let u = st.unseen;
    let un = stn.unseen;
    let newrec = MRec { canon: c, disp, parent: st.tail, in_stack: true, emitted: false };
    assert(stn.files =~= st.files.push(newrec));
    lemma_find_rec(st.files, c, 0);
    assert forall|m: int| 0 <= m < un.len() implies un[m] == (if m < k {
        u[m]
    } else {
        u[m + 1]
    }) by {}
    assert forall|a: int, b: int| 0 <= a < b < un.len() implies un[a] != un[b] by {}
    assert forall|m: int| 0 <= m < un.len() implies is_file_canon(fs, #[trigger] un[m])
        && find_rec(stn.files, un[m]) is None by {
        let orig = if m < k {
            m
        } else {
            m + 1
        };
        assert(un[m] == u[orig]);
        assert(u[orig] != u[k]);
        lemma_find_rec_push(st.files, newrec, un[m], 0);
    }
    assert forall|j: int|
        0 <= j < fs.paths.len() implies ((#[trigger] fs.paths[j]).1 matches
    crate::snapshot::StatV::File { canon } ==> (find_rec(stn.files, canon) is Some
        || stn.unseen.contains(canon))) by {
        match fs.paths[j].1 {
            crate::snapshot::StatV::File { canon } => {
                lemma_find_rec_push(st.files, newrec, canon, 0);
                if canon == c {
                } else {
                    if find_rec(st.files, canon) is None {
                        let m = choose|m: int| 0 <= m < u.len() && u[m] == canon;
                        if m < k {
                            assert(un[m] == canon);
                        } else {
                            assert(m != k);
                            assert(un[m - 1] == canon);
                        }
                    }
                }
            },
            _ => {},
        }
    }
}

/// Builds the cycle's canonical paths from the re-entered record `j` down
/// to `t`, in traversal order.
fn chain_to_vec(files: &Vec<FileRec>, t: usize, j: usize) -> (cy: Vec<String>)
    requires
        t < files.len(),
        forall|i: int|
            0 <= i < files.len() ==> ((#[trigger] files.deep_view()[i]).parent matches Some(p)
                ==> 0 <= p < i),
    ensures
        cy.deep_view() == crate::model::m_chain_to(files.deep_view(), t as int, j as int),
    decreases t,
{
    let ghost fv = files.deep_view();
    proof {
        assert(fv[t as int] == files@[t as int]@);
    }
    if t == j {
        let mut v: Vec<String> = Vec::new();
        v.push(files[t].canonical_path.clone());
        proof {
            assert(v.deep_view() =~= seq![fv[t as int].canon]);
        }
        v
    } else {
        match files[t].included_by {
            Some(p) => {
                let mut v = chain_to_vec(files, p, j);
                let ghost v0 = v.deep_view();
                v.push(files[t].canonical_path.clone());
                proof {
                    assert(v.deep_view() =~= v0.push(fv[t as int].canon));
                }
                v
            },
            None => {
                let mut v: Vec<String> = Vec::new();
                v.push(files[t].canonical_path.clone());
                proof {
                    assert(v.deep_view() =~= seq![fv[t as int].canon]);
                }
                v
            },
        }
    }
}

impl Processor {
    /// Reads the open file's lines in order, acting on each as the model
    /// prescribes; a discovered file is visited recursively in place of its
    /// reference line, and the end of the lines closes the file.
    fn visit(&mut self, fs: &Snapshot, lines: &Vec<String>) -> (r: StepRes)
        requires
            old(self).wf(fs@),
            crate::snapshot::content_lens_ok(fs@),
            old(self).tail is Some,
            pending_wf(*old(self)),
            lines@.len() < u64::MAX,
        ensures
            final(self).st() == crate::model::m_visit(
                old(self).env_v(fs@),
                old(self).st(),
                lines.deep_view(),
                0,
            ).0,
            r@ == crate::model::m_visit(
                old(self).env_v(fs@),
                old(self).st(),
                lines.deep_view(),
                0,
            ).1,
            final(self).wf(fs@),
            pending_wf(*final(self)),
            same_setup(*old(self), *final(self)),
            final(self).unseen@.len() <= old(self).unseen@.len(),
            (r@ is Done) ==> final(self).st().tail == old(self).st().files[cur(
                old(self).st(),
            )].parent,
            final(self).files@.len() >= old(self).files@.len(),
            forall|q: int|
                0 <= q < old(self).files@.len() ==> {
                    let rr = #[trigger] final(self).files.deep_view()[q];
                    let oo = old(self).files.deep_view()[q];
                    rr.canon == oo.canon && rr.disp == oo.disp && rr.parent == oo.parent
                },
        decreases old(self).unseen@.len(),
    {
        let ghost env = self.env_v(fs@);
        let ghost st0 = self.st();
        let ghost linesv = lines.deep_view();
        let n = lines.len();
        let mut i: usize = 0;
        while i < n
            invariant
                0 <= i <= n,
                n == lines.len(),
                linesv == lines.deep_view(),
                linesv.len() < u64::MAX,
                env == self.env_v(fs@),
                env == old(self).env_v(fs@),
                st0 == old(self).st(),
                self.wf(fs@),
                crate::snapshot::content_lens_ok(fs@),
                pending_wf(*self),
                self.tail == old(self).tail,
                old(self).tail is Some,
                self.unseen@.len() <= old(self).unseen@.len(),
                same_setup(*old(self), *self),
                self.files@.len() >= st0.files.len(),
                forall|q: int|
                    0 <= q < st0.files.len() ==> {
                        let rr = #[trigger] self.files.deep_view()[q];
                        let oo = st0.files[q];
                        rr.canon == oo.canon && rr.disp == oo.disp && rr.parent == oo.parent
                    },
                crate::model::m_visit(env, st0, linesv, 0) == crate::model::m_visit(
                    env,
                    self.st(),
                    linesv,
                    i as int,
                ),
            decreases n - i,
        {
            let ghost stp = self.st();
            let tcur = match self.tail {
                Some(t) => t,
                None => vstd::pervasive::unreached(),
            };
            let lno: u64 = (i as u64) + 1;
            proof {
                assert(linesv[i as int] == lines@[i as int]@);
                assert(cur(stp) == tcur as int);
                assert(self.files.deep_view()[tcur as int] == self.files@[tcur as int]@);
            }
            let cls = crate::directive::classify_line(lines[i].as_str());
            match cls {
                crate::directive::LineClass::Pragma => {
                    proof {
                        assert(crate::model::m_visit(env, stp, linesv, i as int)
                            == crate::model::m_visit(env, stp, linesv, i + 1));
                    }
                },
                crate::directive::LineClass::Plain => {
                    self.content_line(lno, lines[i].as_str());
                    proof {
                        let stn = self.st();
                        assert(stn == m_content_line(env.cfg, stp, lno as int, linesv[i as int]));
                        assert(crate::model::clamp_unseen(stn, stp) == stn);
                        assert(crate::model::m_visit(env, stp, linesv, i as int)
                            == crate::model::m_visit(env, stn, linesv, i + 1));
                        lemma_wf_frame(fs@, stp, stn);
                    }
                },
                crate::directive::LineClass::Reference { rf, system } => {
                    let outcome = if system {
                        self.resolver.resolve_system(fs, rf.as_str())
                    } else {
                        let ctxd = crate::resolve::parent_dir_exec(
                            self.files[tcur].canonical_path.as_str(),
                        );
                        self.resolver.resolve_quote(fs, rf.as_str(), ctxd.as_str())
                    };
                    proof {
                        assert(outcome@ == crate::model::m_resolve(env, stp, rf@, system));
                    }
                    match outcome {
                        crate::resolve::ResolveOutcome::Unknown { path } => {
                            proof {
                                assert(crate::model::m_visit(env, stp, linesv, i as int) == (
                                    stp,
                                    crate::model::MStep::Ask {
                                        query: QueryV::Stat { path: path@ },
                                    },
                                ));
                            }
                            return StepRes::Ask { query: Query::Stat { path } };
                        },
                        crate::resolve::ResolveOutcome::Fatal { path } => {
                            proof {
                                assert(crate::model::m_visit(env, stp, linesv, i as int) == (
                                    stp,
                                    crate::model::MStep::Fatal {
                                        err: ErrV::Canonicalize { path: path@ },
                                    },
                                ));
                            }
                            return StepRes::Fatal { error: RunError::Canonicalize { path } };
                        },
                        crate::resolve::ResolveOutcome::NotFound => {
                            let h = if system {
                                self.config.error_handling_opts.unresolvable_system_include
                            } else {
                                self.config.error_handling_opts.unresolvable_quote_include
                            };
                            proof {
                                assert(h == crate::model::unres_policy(env.cfg, system));
                            }
                            match h {
                                crate::errors::ErrorHandling::Error => {
                                    proof {
                                        assert(crate::model::m_visit(env, stp, linesv, i as int)
                                            == (
                                            stp,
                                            crate::model::MStep::Fatal {
                                                err: ErrV::Unresolvable { rf: rf@, system },
                                            },
                                        ));
                                    }
                                    return StepRes::Fatal {
                                        error: RunError::Unresolvable { rf, system },
                                    };
                                },
                                crate::errors::ErrorHandling::Warn => {
                                    let ghost w0 = self.warns.deep_view();
                                    self.warns.push(
                                        RunError::Unresolvable { rf: rf.clone(), system },
                                    );
                                    proof {
                                        assert(self.warns.deep_view() =~= w0.push(
                                            ErrV::Unresolvable { rf: rf@, system },
                                        ));
                                        assert(self.st() =~~= crate::model::m_warn(
                                            stp,
                                            ErrV::Unresolvable { rf: rf@, system },
                                        ));
                                    }
                                    let ghost stw = self.st();
                                    self.content_line(lno, lines[i].as_str());
                                    proof {
                                        let stn = self.st();
                                        assert(stn == m_content_line(
                                            env.cfg,
                                            stw,
                                            lno as int,
                                            linesv[i as int],
                                        ));
                                        assert(crate::model::clamp_unseen(stn, stp) == stn);
                                        assert(crate::model::m_visit(env, stp, linesv, i as int)
                                            == crate::model::m_visit(env, stn, linesv, i + 1));
                                        lemma_wf_frame(fs@, stp, stn);
                                    }
                                },
                                crate::errors::ErrorHandling::Ignore => {
                                    self.content_line(lno, lines[i].as_str());
                                    proof {
                                        let stn = self.st();
                                        assert(stn == m_content_line(
                                            env.cfg,
                                            stp,
                                            lno as int,
                                            linesv[i as int],
                                        ));
                                        assert(crate::model::clamp_unseen(stn, stp) == stn);
                                        assert(crate::model::m_visit(env, stp, linesv, i as int)
                                            == crate::model::m_visit(env, stn, linesv, i + 1));
                                        lemma_wf_frame(fs@, stp, stn);
                                    }
                                },
                            }
                        },
                        crate::resolve::ResolveOutcome::Found { canon } => {
                            let inline = self.inlining_filter.should_inline(
                                canon.as_str(),
                                system,
                            );
                            proof {
                                assert(inline == crate::model::m_should_inline(
                                    env,
                                    canon@,
                                    system,
                                ));
                            }
                            if !inline {
                                self.content_line(lno, lines[i].as_str());
                                proof {
                                    let stn = self.st();
                                    assert(stn == m_content_line(
                                        env.cfg,
                                        stp,
                                        lno as int,
                                        linesv[i as int],
                                    ));
                                    assert(crate::model::clamp_unseen(stn, stp) == stn);
                                    assert(crate::model::m_visit(env, stp, linesv, i as int)
                                        == crate::model::m_visit(env, stn, linesv, i + 1));
                                    lemma_wf_frame(fs@, stp, stn);
                                }
                            } else {
                                match self.find_rec_exec(canon.as_str()) {
                                    Some(j) => {
                                        proof {
                                            assert(self.files.deep_view()[j as int]
                                                == self.files@[j as int]@);
                                        }
                                        if self.files[j].in_stack {
                                            let cy = chain_to_vec(&self.files, tcur, j);
                                            let ghost ev = ErrV::Cyclic {
                                                cycle: crate::model::m_chain_to(
                                                    stp.files,
                                                    tcur as int,
                                                    j as int,
                                                ),
                                            };
                                            match self.config.error_handling_opts.cyclic_include {
                                                crate::errors::ErrorHandling::Error => {
                                                    proof {
                                                        assert(crate::model::m_visit(
                                                            env,
                                                            stp,
                                                            linesv,
                                                            i as int,
                                                        ) == (
                                                            stp,
                                                            crate::model::MStep::Fatal {
                                                                err: ev,
                                                            },
                                                        ));
                                                    }
                                                    return StepRes::Fatal {
                                                        error: RunError::Cyclic {
                                                            err:
                                                                crate::errors::CyclicIncludeError {
                                                                cycle: cy,
                                                            },
                                                        },
                                                    };
                                                },
                                                crate::errors::ErrorHandling::Warn => {
                                                    let ghost w0 = self.warns.deep_view();
                                                    self.warns.push(
                                                        RunError::Cyclic {
                                                            err:
                                                                crate::errors::CyclicIncludeError {
                                                                cycle: cy,
                                                            },
                                                        },
                                                    );
                                                    proof {
                                                        assert(self.warns.deep_view() =~= w0.push(
                                                            ev,
                                                        ));
                                                        assert(self.st()
                                                            =~~= crate::model::m_warn(stp, ev));
                                                    }
                                                    let ghost stw = self.st();
                                                    self.content_line(lno, lines[i].as_str());
                                                    proof {
                                                        let stn = self.st();
                                                        assert(stn == m_content_line(
                                                            env.cfg,
                                                            stw,
                                                            lno as int,
                                                            linesv[i as int],
                                                        ));
                                                        assert(crate::model::clamp_unseen(
                                                            stn,
                                                            stp,
                                                        ) == stn);
                                                        assert(crate::model::m_visit(
                                                            env,
                                                            stp,
                                                            linesv,
                                                            i as int,
                                                        ) == crate::model::m_visit(
                                                            env,
                                                            stn,
                                                            linesv,
                                                            i + 1,
                                                        ));
                                                        lemma_wf_frame(fs@, stp, stn);
                                                    }
                                                },
                                                crate::errors::ErrorHandling::Ignore => {
                                                    self.content_line(lno, lines[i].as_str());
                                                    proof {
                                                        let stn = self.st();
                                                        assert(stn == m_content_line(
                                                            env.cfg,
                                                            stp,
                                                            lno as int,
                                                            linesv[i as int],
                                                        ));
                                                        assert(crate::model::clamp_unseen(
                                                            stn,
                                                            stp,
                                                        ) == stn);
                                                        assert(crate::model::m_visit(
                                                            env,
                                                            stp,
                                                            linesv,
                                                            i as int,
                                                        ) == crate::model::m_visit(
                                                            env,
                                                            stn,
                                                            linesv,
                                                            i + 1,
                                                        ));
                                                        lemma_wf_frame(fs@, stp, stn);
                                                    }
                                                },
                                            }
                                        } else {
                                            proof {
                                                assert(crate::model::m_visit(
                                                    env,
                                                    stp,
                                                    linesv,
                                                    i as int,
                                                ) == crate::model::m_visit(
                                                    env,
                                                    stp,
                                                    linesv,
                                                    i + 1,
                                                ));
                                            }
                                        }
                                    },
                                    None => {
                                        proof {
                                            if system {
                                                lemma_resolve_found(
                                                    fs@,
                                                    env.system_dirs,
                                                    None,
                                                    rf@,
                                                    canon@,
                                                );
                                            } else {
                                                lemma_resolve_found(
                                                    fs@,
                                                    env.quote_dirs,
                                                    Some(crate::model::ctx_dir(stp)),
                                                    rf@,
                                                    canon@,
                                                );
                                            }
                                            let wit = choose|j: int|
                                                0 <= j < fs@.paths.len() && ((#[trigger] fs@.paths[j]).1
                                                    matches crate::snapshot::StatV::File {
                                                    canon: cc,
                                                } && cc == canon@);
                                            assert(stp.unseen.contains(canon@));
                                            lemma_index_of_at(stp.unseen, canon@, 0);
                                            if index_of_at(stp.unseen, canon@, 0) is None {
                                                let m = choose|m: int|
                                                    0 <= m < stp.unseen.len() && stp.unseen[m]
                                                        == canon@;
                                                assert(false);
                                            }
                                        }
                                        let ghost kk = index_of_at(
                                            stp.unseen,
                                            canon@,
                                            0,
                                        )->Some_0;
                                        let idx = self.files.len();
                                        let ghost files0 = self.files.deep_view();
                                        let ghost u0 = self.unseen@;
                                        self.files.push(
                                            FileRec {
                                                canonical_path: canon.clone(),
                                                disp: rf.clone(),
                                                included_by: self.tail,
                                                in_stack: true,
                                                emitted: false,
                                            },
                                        );
                                        self.tail = Some(idx);
                                        proof {
                                            let it = OutItem::Open { file: idx as int };
                                            lemma_render_push(self.trace@, it);
                                            assert(self.out@ + render_item(it) =~= self.out@);
                                            self.trace@ = self.trace@.push(it);
                                            self.unseen@ = u0.subrange(0, kk) + u0.subrange(
                                                kk + 1,
                                                u0.len() as int,
                                            );
                                            assert(self.files.deep_view() =~~= files0.push(
                                                MRec {
                                                    canon: canon@,
                                                    disp: rf@,
                                                    parent: stp.tail,
                                                    in_stack: true,
                                                    emitted: false,
                                                },
                                            ));
                                            assert(self.st() =~~= m_enter(stp, canon@, rf@, kk));
                                            lemma_wf_enter(fs@, stp, canon@, rf@, kk);
                                        }
                                        let ghost st1 = self.st();
                                        match fs.content(canon.as_str()) {
                                            None => {
                                                proof {
                                                    assert(crate::model::m_visit(
                                                        env,
                                                        stp,
                                                        linesv,
                                                        i as int,
                                                    ) == (
                                                        st1,
                                                        crate::model::MStep::Ask {
                                                            query: QueryV::Content {
                                                                canon: canon@,
                                                            },
                                                        },
                                                    ));
                                                }
                                                return StepRes::Ask {
                                                    query: Query::Content { canon },
                                                };
                                            },
                                            Some(body) => {
                                                let body_str = body.clone();
                                                proof {
                                                    crate::snapshot::lemma_assoc_at_mem(
                                                        fs@.contents,
                                                        canon@,
                                                        0,
                                                    );
                                                    crate::text::lemma_split_lines_count(
                                                        body_str@,
                                                    );
                                                }
                                                let child_lines = crate::text::split_lines_exec(
                                                    body_str.as_str(),
                                                );
                                                let r2 = self.visit(fs, &child_lines);
                                                proof {
                                                    assert(child_lines.deep_view()
                                                        == crate::text::split_lines(body_str@));
                                                }
                                                match r2 {
                                                    StepRes::Done => {
                                                        proof {
                                                            let stn = self.st();
                                                            let m2 = crate::model::m_visit(
                                                                env,
                                                                st1,
                                                                crate::text::split_lines(
                                                                    body_str@,
                                                                ),
                                                                0,
                                                            );
                                                            assert(stn == m2.0);
                                                            assert(m2.1 is Done);
                                                            assert(stn.unseen.len()
                                                                <= st1.unseen.len());
                                                            assert(crate::model::clamp_unseen(
                                                                stn,
                                                                stp,
                                                            ) == stn);
                                                            assert(crate::model::m_visit(
                                                                env,
                                                                stp,
                                                                linesv,
                                                                i as int,
                                                            ) == crate::model::m_visit(
                                                                env,
                                                                stn,
                                                                linesv,
                                                                i + 1,
                                                            ));
                                                            assert(stn.tail == st1.files[cur(
                                                                st1,
                                                            )].parent);
                                                            assert(stn.tail == stp.tail);
                                                            assert(self.tail
                                                                == old(self).tail);
                                                        }
                                                    },
                                                    _ => {
                                                        proof {
                                                            let m2 = crate::model::m_visit(
                                                                env,
                                                                st1,
                                                                crate::text::split_lines(
                                                                    body_str@,
                                                                ),
                                                                0,
                                                            );
                                                            assert(crate::model::m_visit(
                                                                env,
                                                                stp,
                                                                linesv,
                                                                i as int,
                                                            ) == (m2.0, m2.1));
                                                        }
                                                        return r2;
                                                    },
                                                }
                                            },
                                        }
                                    },
                                }
                            }
                        },
                    }
                },
            }
            i = i + 1;
        }
        let ghost ste = self.st();
        self.eof();
        proof {
            assert(crate::model::m_visit(env, ste, linesv, n as int) == (
                m_eof(env.cfg, ste),
                crate::model::MStep::Done,
            ));
            let stn = self.st();
            lemma_wf_frame(fs@, ste, stn);
            assert(stn.tail == st0.files[cur(st0)].parent) by {
                assert(ste.files[cur(st0)].parent == st0.files[cur(st0)].parent);
            }
        }
        StepRes::Done
    }
}

/// What one whole run produced.
pub enum RunOutcome {
    /// All roots processed; the amalgamated output and the warnings.
    Done { output: String, warnings: Vec<RunError> },
    /// Aborted: the output written before the abort, the warnings, and the
    /// fatal error.
    Fatal { partial: String, warnings: Vec<RunError>, error: RunError },
    /// The snapshot is missing a fact; collect it and run again.
    Need { query: Query },
}

impl Processor {
    /// A fresh engine for one run over `fs`, with blank-line trimming and
    /// wrapper notes off.
    pub fn new(
        resolver: IncludeResolver,
        line_directives: bool,
        inlining_filter: InliningFilter,
        error_handling_opts: ErrorHandlingOpts,
        fs: &Snapshot,
    ) -> (r: Processor)
        ensures
            r.st() == crate::model::m_init(fs@),
            r.wf(fs@),
            pending_wf(r),
            r.tail is None,
            r.config@ == (CfgV {
                line_directives,
                trim_blank_lines: false,
                begin_note: None,
                end_note: None,
                cyclic: error_handling_opts.cyclic_include,
                unres_quote: error_handling_opts.unresolvable_quote_include,
                unres_system: error_handling_opts.unresolvable_system_include,
            }),
            r.resolver == resolver,
            r.inlining_filter == inlining_filter,
    {
        let config = Config {
            line_directives,
            trim_blank_lines: false,
            begin_note: None,
            end_note: None,
            error_handling_opts,
        };
        Self::with_config(resolver, inlining_filter, config, fs)
    }

    /// A fresh engine with the full output configuration.
    pub fn with_config(
        resolver: IncludeResolver,
        inlining_filter: InliningFilter,
        config: Config,
        fs: &Snapshot,
    ) -> (r: Processor)
        ensures
            r.st() == crate::model::m_init(fs@),
            r.wf(fs@),
            pending_wf(r),
            r.tail is None,
            r.config@ == config@,
            r.resolver == resolver,
            r.inlining_filter == inlining_filter,
    {
        let r = Processor {
            resolver,
            inlining_filter,
            config,
            files: Vec::new(),
            tail: None,
            expect: None,
            out: String::new(),
            pending: Vec::new(),
            warns: Vec::new(),
            trace: Ghost(Seq::empty()),
            unseen: Ghost(crate::model::unseen0(fs@)),
        };
        proof {
            assert(r.st() =~~= crate::model::m_init(fs@));
            assert(render(r.trace@) =~= Seq::<char>::empty());
            crate::model::lemma_unseen0_at(fs@.paths, 0);
        }
        r
    }

    /// Processes one root file against the shared run state; a root already
    /// inlined while processing an earlier root is skipped silently.
    pub fn process(&mut self, fs: &Snapshot, source_file: &str) -> (r: StepRes)
        requires
            old(self).wf(fs@),
            crate::snapshot::content_lens_ok(fs@),
            old(self).tail is None,
            pending_wf(*old(self)),
        ensures
            final(self).st() == crate::model::m_root(
                old(self).env_v(fs@),
                old(self).st(),
                source_file@,
            ).0,
            r@ == crate::model::m_root(old(self).env_v(fs@), old(self).st(), source_file@).1,
            final(self).wf(fs@),
            pending_wf(*final(self)),
            same_setup(*old(self), *final(self)),
            final(self).unseen@.len() <= old(self).unseen@.len(),
            (r@ is Done) ==> final(self).tail is None,
    {
        let ghost env = self.env_v(fs@);
        let ghost st0 = self.st();
        let canon = match fs.stat(source_file) {
            None => {
                return StepRes::Ask { query: Query::Stat { path: source_file.to_owned() } };
            },
            Some(crate::snapshot::PathStat::Missing) => {
                return StepRes::Fatal {
                    error: RunError::Canonicalize { path: source_file.to_owned() },
                };
            },
            Some(crate::snapshot::PathStat::Unreadable) => {
                return StepRes::Fatal {
                    error: RunError::Canonicalize { path: source_file.to_owned() },
                };
            },
            Some(crate::snapshot::PathStat::Dir) => {
                return StepRes::Fatal {
                    error: RunError::Open { path: source_file.to_owned() },
                };
            },
            Some(crate::snapshot::PathStat::File { canon }) => canon.clone(),
        };
        match self.find_rec_exec(canon.as_str()) {
            Some(_) => {
                proof {
                    assert(crate::model::m_root(env, st0, source_file@) == (
                        st0,
                        crate::model::MStep::Done,
                    ));
                }
                StepRes::Done
            },
            None => {
                proof {
                    crate::snapshot::lemma_assoc_at_mem(fs@.paths, source_file@, 0);
                    assert(is_file_canon(fs@, canon@));
                    assert(st0.unseen.contains(canon@));
                    lemma_index_of_at(st0.unseen, canon@, 0);
                    if index_of_at(st0.unseen, canon@, 0) is None {
                        let m = choose|m: int|
                            0 <= m < st0.unseen.len() && st0.unseen[m] == canon@;
                        assert(false);
                    }
                }
                let ghost kk = index_of_at(st0.unseen, canon@, 0)->Some_0;
                let idx = self.files.len();
                let ghost files0 = self.files.deep_view();
                let ghost u0 = self.unseen@;
                self.files.push(
                    FileRec {
                        canonical_path: canon.clone(),
                        disp: source_file.to_owned(),
                        included_by: self.tail,
                        in_stack: true,
                        emitted: false,
                    },
                );
                self.tail = Some(idx);
                proof {
                    let it = OutItem::Open { file: idx as int };
                    lemma_render_push(self.trace@, it);
                    assert(self.out@ + render_item(it) =~= self.out@);
                    self.trace@ = self.trace@.push(it);
                    self.unseen@ = u0.subrange(0, kk) + u0.subrange(kk + 1, u0.len() as int);
                    assert(self.files.deep_view() =~~= files0.push(
                        MRec {
                            canon: canon@,
                            disp: source_file@,
                            parent: st0.tail,
                            in_stack: true,
                            emitted: false,
                        },
                    ));
                    assert(self.st() =~~= m_enter(st0, canon@, source_file@, kk));
                    lemma_wf_enter(fs@, st0, canon@, source_file@, kk);
                }
                let ghost st1 = self.st();
                match fs.content(canon.as_str()) {
                    None => {
                        proof {
                            assert(crate::model::m_root(env, st0, source_file@) == (
                                st1,
                                crate::model::MStep::Ask {
                                    query: QueryV::Content { canon: canon@ },
                                },
                            ));
                        }
                        StepRes::Ask { query: Query::Content { canon } }
                    },
                    Some(body) => {
                        let body_str = body.clone();
                        proof {
                            crate::snapshot::lemma_assoc_at_mem(fs@.contents, canon@, 0);
                            crate::text::lemma_split_lines_count(body_str@);
                        }
                        let child_lines = crate::text::split_lines_exec(body_str.as_str());
                        let r2 = self.visit(fs, &child_lines);
                        proof {
                            assert(child_lines.deep_view() == crate::text::split_lines(
                                body_str@,
                            ));
                            let m2 = crate::model::m_visit(
                                env,
                                st1,
                                crate::text::split_lines(body_str@),
                                0,
                            );
                            assert(crate::model::m_root(env, st0, source_file@) == (m2.0, m2.1));
                        }
                        r2
                    },
                }
            },
        }
    }
}

/// Runs the whole amalgamation: the roots in order against one shared
/// deduplication state, producing the output text, the warnings, and the
/// first fatal error or missing fact, exactly as the model prescribes.
pub fn run(
    fs: &Snapshot,
    resolver: IncludeResolver,
    inlining_filter: InliningFilter,
    config: Config,
    roots: &Vec<String>,
) -> (r: RunOutcome)
    requires
        crate::snapshot::content_lens_ok(fs@),
    ensures
        ({
            let env = MEnv {
                fs: fs@,
                cfg: config@,
                quote_dirs: resolver.quote_search_paths.deep_view(),
                system_dirs: resolver.system_search_paths.deep_view(),
                quote_globs: inlining_filter.quote_view(),
                system_globs: inlining_filter.system_view(),
            };
            let m = crate::model::m_run(env, crate::model::m_init(fs@), roots.deep_view(), 0);
            match r {
                RunOutcome::Done { output, warnings } => {
                    &&& m.1 is Done
                    &&& output@ == render(m.0.trace)
                    &&& warnings.deep_view() == m.0.warns
                },
                RunOutcome::Fatal { partial, warnings, error } => {
                    &&& m.1 == (crate::model::MStep::Fatal { err: error@ })
                    &&& partial@ == render(m.0.trace)
                    &&& warnings.deep_view() == m.0.warns
                },
                RunOutcome::Need { query } => m.1 == (crate::model::MStep::Ask {
                    query: query@,
                }),
            }
        }),
{
    let mut p = Processor::with_config(resolver, inlining_filter, config, fs);
    let ghost env = p.env_v(fs@);
    let ghost rootsv = roots.deep_view();
    let n = roots.len();
    let mut k: usize = 0;
    while k < n
        invariant
            0 <= k <= n,
            n == roots.len(),
            rootsv == roots.deep_view(),
            env == p.env_v(fs@),
            env == (MEnv {
                fs: fs@,
                cfg: config@,
                quote_dirs: resolver.quote_search_paths.deep_view(),
                system_dirs: resolver.system_search_paths.deep_view(),
                quote_globs: inlining_filter.quote_view(),
                system_globs: inlining_filter.system_view(),
            }),
            p.wf(fs@),
            crate::snapshot::content_lens_ok(fs@),
            pending_wf(p),
            p.tail is None,
            p.out@ == render(p.trace@),
            crate::model::m_run(env, crate::model::m_init(fs@), rootsv, 0)
                == crate::model::m_run(env, p.st(), rootsv, k as int),
        decreases n - k,
    {
        let ghost stp = p.st();
        proof {
            assert(rootsv[k as int] == roots@[k as int]@);
        }
        let r = p.process(fs, roots[k].as_str());
        match r {
            StepRes::Done => {
                proof {
                    assert(crate::model::m_run(env, stp, rootsv, k as int)
                        == crate::model::m_run(env, p.st(), rootsv, k + 1));
                }
            },
            StepRes::Fatal { error } => {
                proof {
                    assert(crate::model::m_run(env, stp, rootsv, k as int) == (
                        p.st(),
                        crate::model::MStep::Fatal { err: error@ },
                    ));
                }
                return RunOutcome::Fatal { partial: p.out, warnings: p.warns, error };
            },
            StepRes::Ask { query } => {
                proof {
                    assert(crate::model::m_run(env, stp, rootsv, k as int) == (
                        p.st(),
                        crate::model::MStep::Ask { query: query@ },
                    ));
                }
                return RunOutcome::Need { query };
            },
        }
        k = k + 1;
    }
    proof {
        assert(crate::model::m_run(env, p.st(), rootsv, n as int) == (
            p.st(),
            crate::model::MStep::Done,
        ));
    }
    RunOutcome::Done { output: p.out, warnings: p.warns }
}

} // verus!
