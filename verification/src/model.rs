//! The mathematical model of one run: a recursive definition of the exact
//! trace of output items (literal lines, `#line` synchronizations, note
//! lines) and of the final state the engine must produce. The executable
//! engine is proved equal to this model; rendering the trace gives the
//! output text.
use vstd::prelude::*;

use crate::directive::{classify, is_blank, ClassV};
use crate::errors::{ErrV, ErrorHandling, QueryV};
use crate::filter::{decide_inline, GlobV};
use crate::resolve::{parent_dir, resolve_spec, RRes};
use crate::snapshot::{content_of, stat_of, SnapV, StatV};
use crate::text::{dec_rep, split_lines, subst};

verus! {

/// The record kept for each file identity ever discovered.
#[verifier::ext_equal]
pub struct MRec {
    /// The canonical path: the identity key.
    pub canon: Seq<char>,
    /// The display path: the reference text that discovered the file (the
    /// root spelling for a root).
    pub disp: Seq<char>,
    /// The index of the including file, if any.
    pub parent: Option<int>,
    /// Still open on the traversal chain (not yet `Done`).
    pub in_stack: bool,
    /// Whether the file's contribution has produced any output yet.
    pub emitted: bool,
}

/// One item of the output trace.
#[verifier::ext_equal]
pub enum OutItem {
    /// A literal line of file `file` (1-based line `line`), emitted verbatim.
    Lit { file: int, line: int, text: Seq<char> },
    /// A `#line` synchronization directive.
    Sync { canon: Seq<char>, line: int },
    /// A begin or end note line wrapping a nested file's contribution.
    Note { text: Seq<char> },
    /// Ghost marker: file `file` was entered. Renders as nothing.
    Open { file: int },
    /// Ghost marker: file `file` was completed. Renders as nothing.
    Close { file: int },
}

/// A buffered blank line awaiting its fate under blank-line trimming.
#[verifier::ext_equal]
pub struct PendV {
    pub file: int,
    pub line: int,
    pub text: Seq<char>,
}

/// The engine state.
#[verifier::ext_equal]
pub struct MSt {
    pub files: Seq<MRec>,
    /// The currently open file (the traversal chain's tail).
    pub tail: Option<int>,
    /// Canonical file identities not yet discovered; shrinks at each entry.
    pub unseen: Seq<Seq<char>>,
    /// The (file, line) expected next if output continues the previous
    /// write; `None` forces a synchronization before the next literal line.
    pub expect: Option<(int, int)>,
    pub trace: Seq<OutItem>,
    pub pending: Seq<PendV>,
    pub warns: Seq<ErrV>,
}

/// How a step ended.
#[verifier::ext_equal]
pub enum MStep {
    /// Went through; the run continues.
    Done,
    /// Aborted with a fatal error.
    Fatal { err: ErrV },
    /// Aborted because the snapshot is missing a fact.
    Ask { query: QueryV },
}

/// The configuration the engine consults.
#[verifier::ext_equal]
pub struct CfgV {
    pub line_directives: bool,
    pub trim_blank_lines: bool,
    pub begin_note: Option<Seq<char>>,
    pub end_note: Option<Seq<char>>,
    pub cyclic: ErrorHandling,
    pub unres_quote: ErrorHandling,
    pub unres_system: ErrorHandling,
}

/// Everything fixed for the duration of one run.
#[verifier::ext_equal]
pub struct MEnv {
    pub fs: SnapV,
    pub cfg: CfgV,
    pub quote_dirs: Seq<Seq<char>>,
    pub system_dirs: Seq<Seq<char>>,
    pub quote_globs: Seq<GlobV>,
    pub system_globs: Seq<GlobV>,
}

/// The text one trace item contributes to the output.
pub open spec fn render_item(it: OutItem) -> Seq<char> {
    match it {
        OutItem::Lit { text, .. } => text,
        OutItem::Sync { canon, line } => seq!['#', 'l', 'i', 'n', 'e', ' '] + dec_rep(
            line as nat,
        ) + seq![' ', '"'] + canon + seq!['"', '\n'],
        OutItem::Note { text } => text + seq!['\n'],
        OutItem::Open { .. } => Seq::empty(),
        OutItem::Close { .. } => Seq::empty(),
    }
}

/// The output text of a trace.
pub open spec fn render(tr: Seq<OutItem>) -> Seq<char>
    decreases tr.len(),
{
    if tr.len() == 0 {
        Seq::empty()
    } else {
        render(tr.drop_last()) + render_item(tr.last())
    }
}

/// The currently open file's index (meaningful only while one is open).
pub open spec fn cur(st: MSt) -> int {
    match st.tail {
        Some(i) => i,
        None => 0,
    }
}

/// Appends one literal line to the trace, preceded by a `#line` directive
/// whenever directives are enabled and (file, line) does not continue the
/// previous write.
pub open spec fn m_emit_raw(cfg: CfgV, st: MSt, f: int, lno: int, text: Seq<char>) -> MSt {
    if cfg.line_directives {
        if st.expect == Some((f, lno)) {
            MSt { trace: st.trace.push(OutItem::Lit { file: f, line: lno, text }), expect: Some(
                (f, lno + 1),
            ), ..st }
        } else {
            let canon = if 0 <= f < st.files.len() {
                st.files[f].canon
            } else {
                Seq::empty()
            };
            MSt {
                trace: st.trace.push(OutItem::Sync { canon, line: lno }).push(
                    OutItem::Lit { file: f, line: lno, text },
                ),
                expect: Some((f, lno + 1)),
                ..st
            }
        }
    } else {
        MSt { trace: st.trace.push(OutItem::Lit { file: f, line: lno, text }), ..st }
    }
}

/// Emits every buffered blank line, in order.
pub open spec fn m_flush_pending(cfg: CfgV, st: MSt) -> MSt
    decreases st.pending.len(),
{
    if st.pending.len() == 0 {
        st
    } else {
        let p = st.pending[0];
        let st1 = MSt { pending: st.pending.drop_first(), ..st };
        let st2 = m_emit_raw(cfg, st1, p.file, p.line, p.text);
        m_flush_pending(cfg, st2)
    }
}

/// Appends a note line; continuity is broken, so the next literal line gets
/// a fresh synchronization.
pub open spec fn m_note(st: MSt, text: Seq<char>) -> MSt {
    MSt { trace: st.trace.push(OutItem::Note { text }), expect: None, ..st }
}

/// The traversal chain from file `t` back to its root: `t` first.
pub open spec fn chain_of(files: Seq<MRec>, t: int) -> Seq<int>
    decreases t,
{
    if 0 <= t < files.len() {
        match files[t].parent {
            Some(p) => if 0 <= p < t {
                seq![t] + chain_of(files, p)
            } else {
                seq![t]
            },
            None => seq![t],
        }
    } else {
        Seq::empty()
    }
}

/// Emits a begin note for every not-yet-emitted nested file on the chain,
/// outermost first.
pub open spec fn m_begin_notes_rec(tmpl: Seq<char>, st: MSt, ch: Seq<int>) -> MSt
    decreases ch.len(),
{
    if ch.len() == 0 {
        st
    } else {
        let f = ch.last();
        let st1 = if 0 <= f < st.files.len() && !st.files[f].emitted && st.files[f].parent
            is Some {
            m_note(st, subst(tmpl, st.files[f].disp, st.files[f].canon))
        } else {
            st
        };
        m_begin_notes_rec(tmpl, st1, ch.drop_last())
    }
}

/// Begin notes before the first output of newly contributing files, if a
/// begin template is configured.
pub open spec fn m_begin_notes(cfg: CfgV, st: MSt) -> MSt {
    match cfg.begin_note {
        None => st,
        Some(tmpl) => m_begin_notes_rec(tmpl, st, chain_of(st.files, cur(st))),
    }
}

/// Marks the whole chain from `t` as having produced output.
pub open spec fn m_mark_rec(files: Seq<MRec>, t: int) -> Seq<MRec>
    decreases t,
{
    if 0 <= t < files.len() {
        let files1 = files.update(t, MRec { emitted: true, ..files[t] });
        match files[t].parent {
            Some(p) => if 0 <= p < t {
                m_mark_rec(files1, p)
            } else {
                files1
            },
            None => files1,
        }
    } else {
        files
    }
}

/// A full literal emission of line `lno` of the open file: flush buffered
/// blanks, open wrappers for files contributing their first output, emit the
/// line, and remember that the whole chain has emitted.
pub open spec fn m_emit_lit(cfg: CfgV, st: MSt, lno: int, text: Seq<char>) -> MSt {
    let st1 = m_flush_pending(cfg, st);
    let st2 = m_begin_notes(cfg, st1);
    let st3 = m_emit_raw(cfg, st2, cur(st), lno, text);
    MSt { files: m_mark_rec(st3.files, cur(st)), ..st3 }
}

/// A content line (anything but a pragma or a handled reference): blank
/// lines under trimming are dropped while the file's contribution is empty
/// and buffered between emissions; everything else is emitted.
pub open spec fn m_content_line(cfg: CfgV, st: MSt, lno: int, text: Seq<char>) -> MSt {
    let t = cur(st);
    if cfg.trim_blank_lines && is_blank(text) {
        if 0 <= t < st.files.len() && st.files[t].emitted {
            MSt { pending: st.pending.push(PendV { file: t, line: lno, text }), ..st }
        } else {
            st
        }
    } else {
        m_emit_lit(cfg, st, lno, text)
    }
}

/// The buffered blanks not owned by file `t` (those of `t` are its trailing
/// blanks and are dropped at its end).
pub open spec fn drop_owned(pending: Seq<PendV>, t: int) -> Seq<PendV>
    decreases pending.len(),
{
    if pending.len() == 0 {
        Seq::empty()
    } else {
        let head: Seq<PendV> = if pending[0].file != t {
            seq![pending[0]]
        } else {
            Seq::empty()
        };
        head + drop_owned(pending.drop_first(), t)
    }
}

/// End of the open file: under trimming its trailing buffered blanks are
/// dropped (without trimming nothing is ever buffered); a nested file that
/// emitted gets its end note; the record is closed and the chain returns to
/// the parent.
pub open spec fn m_eof(cfg: CfgV, st: MSt) -> MSt {
    let t = cur(st);
    let st1 = if cfg.trim_blank_lines {
        MSt { pending: drop_owned(st.pending, t), ..st }
    } else {
        m_flush_pending(cfg, st)
    };
    let st2 = if 0 <= t < st1.files.len() {
        match cfg.end_note {
            Some(tmpl) => if st1.files[t].emitted && st1.files[t].parent is Some {
                m_note(st1, subst(tmpl, st1.files[t].disp, st1.files[t].canon))
            } else {
                st1
            },
            None => st1,
        }
    } else {
        st1
    };
    if 0 <= t < st2.files.len() {
        MSt {
            files: st2.files.update(t, MRec { in_stack: false, ..st2.files[t] }),
            tail: st2.files[t].parent,
            trace: st2.trace.push(OutItem::Close { file: t }),
            ..st2
        }
    } else {
        st2
    }
}

/// First index holding canonical identity `c`, if it is known.
pub open spec fn find_rec_at(files: Seq<MRec>, c: Seq<char>, i: int) -> Option<int>
    decreases files.len() - i,
{
    if 0 <= i < files.len() {
        if files[i].canon == c {
            Some(i)
        } else {
            find_rec_at(files, c, i + 1)
        }
    } else {
        None
    }
}

pub open spec fn find_rec(files: Seq<MRec>, c: Seq<char>) -> Option<int> {
    find_rec_at(files, c, 0)
}

/// First index of `c` in `unseen`.
pub open spec fn index_of_at(s: Seq<Seq<char>>, c: Seq<char>, i: int) -> Option<int>
    decreases s.len() - i,
{
    if 0 <= i < s.len() {
        if s[i] == c {
            Some(i)
        } else {
            index_of_at(s, c, i + 1)
        }
    } else {
        None
    }
}

/// Enters a newly discovered file: a fresh record joins the arena, becomes
/// the chain's tail, and its identity (standing at index `k`) leaves
/// `unseen`.
pub open spec fn m_enter(st: MSt, c: Seq<char>, disp: Seq<char>, k: int) -> MSt {
    let idx = st.files.len() as int;
    MSt {
        files: st.files.push(
            MRec { canon: c, disp, parent: st.tail, in_stack: true, emitted: false },
        ),
        tail: Some(idx),
        unseen: st.unseen.subrange(0, k) + st.unseen.subrange(k + 1, st.unseen.len() as int),
        trace: st.trace.push(OutItem::Open { file: idx }),
        ..st
    }
}

/// The canonical paths of the cycle from record `j` (the re-entered file)
/// down to record `t` (the file holding the re-entering reference), in
/// traversal order.
pub open spec fn m_chain_to(files: Seq<MRec>, t: int, j: int) -> Seq<Seq<char>>
    decreases t,
{
    if 0 <= t < files.len() {
        if t == j {
            seq![files[t].canon]
        } else {
            match files[t].parent {
                Some(p) => if 0 <= p < t {
                    m_chain_to(files, p, j).push(files[t].canon)
                } else {
                    seq![files[t].canon]
                },
                None => seq![files[t].canon],
            }
        }
    } else {
        Seq::empty()
    }
}

/// A warning is recorded under a `Warn` policy.
pub open spec fn m_warn(st: MSt, e: ErrV) -> MSt {
    MSt { warns: st.warns.push(e), ..st }
}

/// The policy for an unresolvable reference of the given kind.
pub open spec fn unres_policy(cfg: CfgV, system: bool) -> ErrorHandling {
    if system {
        cfg.unres_system
    } else {
        cfg.unres_quote
    }
}

/// The context directory for a quote reference: the directory of the file
/// holding the reference.
pub open spec fn ctx_dir(st: MSt) -> Seq<char> {
    if 0 <= cur(st) < st.files.len() {
        parent_dir(st.files[cur(st)].canon)
    } else {
        Seq::empty()
    }
}

/// Resolution of a reference seen in the open file.
pub open spec fn m_resolve(env: MEnv, st: MSt, rf: Seq<char>, system: bool) -> RRes {
    if system {
        resolve_spec(env.fs, env.system_dirs, None, rf)
    } else {
        resolve_spec(env.fs, env.quote_dirs, Some(ctx_dir(st)), rf)
    }
}

/// The filter's verdict for an approved-for-resolution file.
pub open spec fn m_should_inline(env: MEnv, c: Seq<char>, system: bool) -> bool {
    decide_inline(
        if system {
            env.system_globs
        } else {
            env.quote_globs
        },
        c,
    )
}

/// Keeps the recursion measure self-evident: the state after a nested visit
/// never has more unseen identities than before it, so this clamp never
/// changes anything; it only makes that fact definitional.
pub open spec fn clamp_unseen(st_new: MSt, st_old: MSt) -> MSt {
    if st_new.unseen.len() <= st_old.unseen.len() {
        st_new
    } else {
        MSt { unseen: st_old.unseen, ..st_new }
    }
}

/// Processes the open file's lines from index `i` on: each line is read,
/// classified, and acted on; a discovered file is visited recursively in
/// place of its reference line; the end of the lines closes the file.
pub open spec fn m_visit(env: MEnv, st: MSt, lines: Seq<Seq<char>>, i: int) -> (MSt, MStep)
    decreases st.unseen.len(), lines.len() - i, 1int,
{
    if i < 0 || i >= lines.len() {
        (m_eof(env.cfg, st), MStep::Done)
    } else {
        let text = lines[i];
        let lno = i + 1;
        match classify(text) {
            ClassV::Pragma => m_visit(env, st, lines, i + 1),
            ClassV::Plain => m_visit(
                env,
                clamp_unseen(m_content_line(env.cfg, st, lno, text), st),
                lines,
                i + 1,
            ),
            ClassV::Reference { rf, system } => match m_resolve(env, st, rf, system) {
                RRes::Unknown { path } => (st, MStep::Ask { query: QueryV::Stat { path } }),
                RRes::Fatal { path } => (st, MStep::Fatal { err: ErrV::Canonicalize { path } }),
                RRes::NotFound => {
                    let e = ErrV::Unresolvable { rf, system };
                    match unres_policy(env.cfg, system) {
                        ErrorHandling::Error => (st, MStep::Fatal { err: e }),
                        ErrorHandling::Warn => m_visit(
                            env,
                            clamp_unseen(m_content_line(env.cfg, m_warn(st, e), lno, text), st),
                            lines,
                            i + 1,
                        ),
                        ErrorHandling::Ignore => m_visit(
                            env,
                            clamp_unseen(m_content_line(env.cfg, st, lno, text), st),
                            lines,
                            i + 1,
                        ),
                    }
                },
                RRes::Found { canon } => {
                    if !m_should_inline(env, canon, system) {
                        // left intact: the reference line stays verbatim
                        m_visit(
                            env,
                            clamp_unseen(m_content_line(env.cfg, st, lno, text), st),
                            lines,
                            i + 1,
                        )
                    } else {
                        match find_rec(st.files, canon) {
                            Some(j) => {
                                if st.files[j].in_stack {
                                    // a cycle
                                    let e = ErrV::Cyclic {
                                        cycle: m_chain_to(st.files, cur(st), j),
                                    };
                                    match env.cfg.cyclic {
                                        ErrorHandling::Error => (st, MStep::Fatal { err: e }),
                                        ErrorHandling::Warn => m_visit(
                                            env,
                                            clamp_unseen(
                                                m_content_line(
                                                    env.cfg,
                                                    m_warn(st, e),
                                                    lno,
                                                    text,
                                                ),
                                                st,
                                            ),
                                            lines,
                                            i + 1,
                                        ),
                                        // tolerated like Warn — the line
                                        // stays verbatim — only nothing is
                                        // recorded
                                        ErrorHandling::Ignore => m_visit(
                                            env,
                                            clamp_unseen(
                                                m_content_line(env.cfg, st, lno, text),
                                                st,
                                            ),
                                            lines,
                                            i + 1,
                                        ),
                                    }
                                } else {
                                    // already inlined earlier in the run: drop
                                    m_visit(env, st, lines, i + 1)
                                }
                            },
                            None => {
                                match index_of_at(st.unseen, canon, 0) {
                                    Some(k) => if 0 <= k < st.unseen.len() {
                                        let st1 = m_enter(st, canon, rf, k);
                                        match content_of(env.fs, canon) {
                                            None => (
                                                st1,
                                                MStep::Ask {
                                                    query: QueryV::Content { canon },
                                                },
                                            ),
                                            Some(body) => {
                                                let (st2, r2) = m_visit(
                                                    env,
                                                    st1,
                                                    split_lines(body),
                                                    0,
                                                );
                                                if r2 is Done {
                                                    m_visit(
                                                        env,
                                                        clamp_unseen(st2, st),
                                                        lines,
                                                        i + 1,
                                                    )
                                                } else {
                                                    (st2, r2)
                                                }
                                            },
                                        }
                                    } else {
                                        // index_of_at never yields an index
                                        // out of bounds
                                        m_visit(env, st, lines, i + 1)
                                    },
                                    None => {
                                        // unreachable under the engine
                                        // invariant: an undiscovered
                                        // canonical file is still unseen
                                        m_visit(env, st, lines, i + 1)
                                    },
                                }
                            },
                        }
                    }
                },
            },
        }
    }
}

/// Processes one root file against the shared state: its spelling must
/// canonicalize to a regular file; a root already inlined by an earlier root
/// is skipped silently.
pub open spec fn m_root(env: MEnv, st: MSt, root: Seq<char>) -> (MSt, MStep) {
    match stat_of(env.fs, root) {
        None => (st, MStep::Ask { query: QueryV::Stat { path: root } }),
        Some(StatV::Missing) => (st, MStep::Fatal { err: ErrV::Canonicalize { path: root } }),
        Some(StatV::Unreadable) => (st, MStep::Fatal { err: ErrV::Canonicalize { path: root } }),
        Some(StatV::Dir) => (st, MStep::Fatal { err: ErrV::Open { path: root } }),
        Some(StatV::File { canon }) => match find_rec(st.files, canon) {
            Some(_) => (st, MStep::Done),
            None => {
                match index_of_at(st.unseen, canon, 0) {
                    Some(k) => {
                        let st1 = m_enter(st, canon, root, k);
                        match content_of(env.fs, canon) {
                            None => (st1, MStep::Ask { query: QueryV::Content { canon } }),
                            Some(body) => m_visit(env, st1, split_lines(body), 0),
                        }
                    },
                    None => (st, MStep::Done),
                }
            },
        },
    }
}

/// Processes the roots in order against one shared state; the first fatal
/// error or missing fact stops the run.
pub open spec fn m_run(env: MEnv, st: MSt, roots: Seq<Seq<char>>, k: int) -> (MSt, MStep)
    decreases roots.len() - k,
{
    if k < 0 || k >= roots.len() {
        (st, MStep::Done)
    } else {
        let (st1, r1) = m_root(env, st, roots[k]);
        if r1 is Done {
            m_run(env, st1, roots, k + 1)
        } else {
            (st1, r1)
        }
    }
}

/// The canonical identities of the regular files the snapshot knows,
/// without duplicates: the initial `unseen` sequence.
pub open spec fn unseen0_at(paths: Seq<(Seq<char>, StatV)>, i: int) -> Seq<Seq<char>>
    decreases paths.len() - i,
{
    if 0 <= i < paths.len() {
        let rest = unseen0_at(paths, i + 1);
        match paths[i].1 {
            StatV::File { canon } => if rest.contains(canon) {
                rest
            } else {
                seq![canon] + rest
            },
            _ => rest,
        }
    } else {
        Seq::empty()
    }
}

pub open spec fn unseen0(fs: SnapV) -> Seq<Seq<char>> {
    unseen0_at(fs.paths, 0)
}

/// Rendering one appended item appends its text.
pub proof fn lemma_render_push(tr: Seq<OutItem>, it: OutItem)
    ensures
        render(tr.push(it)) == render(tr) + render_item(it),
{
    assert(tr.push(it).drop_last() =~= tr);
}

/// Flushing buffered blanks only writes: the arena, chain, unseen set and
/// warnings stay; the buffer ends empty.
pub proof fn lemma_flush_frame(cfg: CfgV, st: MSt)
    ensures
        m_flush_pending(cfg, st).files == st.files,
        m_flush_pending(cfg, st).tail == st.tail,
        m_flush_pending(cfg, st).unseen == st.unseen,
        m_flush_pending(cfg, st).warns == st.warns,
        m_flush_pending(cfg, st).pending == Seq::<PendV>::empty(),
    decreases st.pending.len(),
{
    if st.pending.len() == 0 {
        assert(st.pending =~= Seq::<PendV>::empty());
    } else {
        let p = st.pending[0];
        let st1 = MSt { pending: st.pending.drop_first(), ..st };
        let st2 = m_emit_raw(cfg, st1, p.file, p.line, p.text);
        lemma_flush_frame(cfg, st2);
    }
}

/// Begin notes only write: everything but the trace and the expectation
/// stays.
pub proof fn lemma_begin_notes_frame(tmpl: Seq<char>, st: MSt, ch: Seq<int>)
    ensures
        m_begin_notes_rec(tmpl, st, ch).files == st.files,
        m_begin_notes_rec(tmpl, st, ch).tail == st.tail,
        m_begin_notes_rec(tmpl, st, ch).unseen == st.unseen,
        m_begin_notes_rec(tmpl, st, ch).warns == st.warns,
        m_begin_notes_rec(tmpl, st, ch).pending == st.pending,
    decreases ch.len(),
{
    if ch.len() > 0 {
        let f = ch.last();
        let st1 = if 0 <= f < st.files.len() && !st.files[f].emitted && st.files[f].parent
            is Some {
            m_note(st, subst(tmpl, st.files[f].disp, st.files[f].canon))
        } else {
            st
        };
        lemma_begin_notes_frame(tmpl, st1, ch.drop_last());
    }
}

/// Marking a chain as emitted changes nothing but the emitted flags.
pub proof fn lemma_mark_frame(files: Seq<MRec>, t: int)
    ensures
        m_mark_rec(files, t).len() == files.len(),
        forall|i: int|
            0 <= i < files.len() ==> {
                let r = #[trigger] m_mark_rec(files, t)[i];
                r.canon == files[i].canon && r.disp == files[i].disp && r.parent
                    == files[i].parent && r.in_stack == files[i].in_stack
            },
    decreases t,
{
    if 0 <= t < files.len() {
        let files1 = files.update(t, MRec { emitted: true, ..files[t] });
        match files[t].parent {
            Some(p) => if 0 <= p < t {
                lemma_mark_frame(files1, p);
            },
            None => {},
        }
    }
}

/// What a found index means, and that a contained value is found.
pub proof fn lemma_index_of_at(s: Seq<Seq<char>>, c: Seq<char>, i: int)
    requires
        0 <= i <= s.len(),
    ensures
        match index_of_at(s, c, i) {
            Some(k) => i <= k < s.len() && s[k] == c,
            None => forall|k: int| i <= k < s.len() ==> s[k] != c,
        },
    decreases s.len() - i,
{
    if i < s.len() && s[i] != c {
        lemma_index_of_at(s, c, i + 1);
    }
}

/// What a found record index means, and what its absence means.
pub proof fn lemma_find_rec(files: Seq<MRec>, c: Seq<char>, i: int)
    requires
        0 <= i <= files.len(),
    ensures
        match find_rec_at(files, c, i) {
            Some(j) => i <= j < files.len() && files[j].canon == c,
            None => forall|j: int| i <= j < files.len() ==> files[j].canon != c,
        },
    decreases files.len() - i,
{
    if i < files.len() && files[i].canon != c {
        lemma_find_rec(files, c, i + 1);
    }
}

/// The initial unseen list: free of duplicates, made of exactly the
/// canonical identities of the snapshot's regular-file entries.
pub proof fn lemma_unseen0_at(paths: Seq<(Seq<char>, StatV)>, i: int)
    requires
        0 <= i <= paths.len(),
    ensures
        forall|a: int, b: int|
            0 <= a < b < unseen0_at(paths, i).len() ==> unseen0_at(paths, i)[a] != unseen0_at(
                paths,
                i,
            )[b],
        forall|k: int|
            0 <= k < unseen0_at(paths, i).len() ==> exists|j: int|
                i <= j < paths.len() && ((#[trigger] paths[j]).1 matches StatV::File { canon }
                    && canon == #[trigger] unseen0_at(paths, i)[k]),
        forall|j: int|
            i <= j < paths.len() ==> ((#[trigger] paths[j]).1 matches StatV::File { canon }
                ==> unseen0_at(paths, i).contains(canon)),
    decreases paths.len() - i,
{
    if 0 <= i < paths.len() {
        lemma_unseen0_at(paths, i + 1);
        let rest = unseen0_at(paths, i + 1);
        let whole = unseen0_at(paths, i);
        match paths[i].1 {
            StatV::File { canon } => {
                if rest.contains(canon) {
                } else {
                    assert(whole =~= seq![canon] + rest);
                    assert(whole[0] == canon);
                    assert(forall|k: int| 1 <= k < whole.len() ==> whole[k] == rest[k - 1]);
                    assert forall|j: int|
                        i <= j < paths.len() && (#[trigger] paths[j]).1 matches StatV::File { canon: _ } implies (
                    match paths[j].1 {
                        StatV::File { canon: cj } => whole.contains(cj),
                        _ => true,
                    }) by {
                        match paths[j].1 {
                            StatV::File { canon: cj } => {
                                if j == i {
                                    assert(whole[0] == cj);
                                } else {
                                    assert(rest.contains(cj));
                                    let k = choose|k: int|
                                        0 <= k < rest.len() && rest[k] == cj;
                                    assert(whole[k + 1] == cj);
                                }
                            },
                            _ => {},
                        }
                    }
                }
            },
            _ => {},
        }
    }
}

/// The state every run starts from.
pub open spec fn m_init(fs: SnapV) -> MSt {
    MSt {
        files: Seq::empty(),
        tail: None,
        unseen: unseen0(fs),
        expect: None,
        trace: Seq::empty(),
        pending: Seq::empty(),
        warns: Seq::empty(),
    }
}

} // verus!
