//! Proved properties of a whole run, stated over the model's output trace:
//! each file identity is entered (and so inlined) at most once; no literal
//! output line is a `#pragma once` line; and with `#line` directives on,
//! every discontinuity is preceded by a directive naming the canonical path
//! and the 1-based number of the next literal line.
use vstd::prelude::*;

use crate::directive::{is_blank, pragma_line};
use crate::model::{
    cur, m_begin_notes, m_begin_notes_rec, m_content_line, m_emit_lit, m_emit_raw, m_enter,
    m_eof, m_flush_pending, m_mark_rec, m_note, CfgV, MEnv, MRec, MSt, MStep, OutItem, PendV,
};
use crate::resolve::{try_dir, try_dirs, RRes};
use crate::snapshot::SnapV;

verus! {

/// The visible output items: literal lines, directives and notes, with the
/// ghost entry/exit markers dropped.
pub open spec fn vis(tr: Seq<OutItem>) -> Seq<OutItem>
    decreases tr.len(),
{
    if tr.len() == 0 {
        tr
    } else {
        let rest = vis(tr.drop_last());
        match tr.last() {
            OutItem::Open { .. } => rest,
            OutItem::Close { .. } => rest,
            _ => rest.push(tr.last()),
        }
    }
}

/// What must hold of a literal line at position `p` of the visible output:
/// it belongs to a known file, it is no pragma line, and (with directives
/// on) it either continues the previous literal line of the same file or
/// follows a directive naming its file's canonical path and its line number.
pub open spec fn lit_ok(cfg: CfgV, files: Seq<MRec>, v: Seq<OutItem>, p: int) -> bool {
    v[p] matches OutItem::Lit { file: f, line: l, text } ==> ({
        &&& 0 <= f < files.len()
        &&& !pragma_line(text)
        &&& (cfg.line_directives ==> p > 0 && (match v[p - 1] {
            OutItem::Sync { canon, line } => canon == files[f].canon && line == l,
            OutItem::Lit { file: f2, line: l2, .. } => f2 == f && l2 == l - 1,
            _ => false,
        }))
    })
}

/// File `i` has an entry marker somewhere in the trace.
pub open spec fn opened(tr: Seq<OutItem>, i: int) -> bool {
    exists|q: int| 0 <= q < tr.len() && tr[q] == (OutItem::Open { file: i })
}

/// File `f` has an entry marker strictly before position `p`.
pub open spec fn opened_before(tr: Seq<OutItem>, f: int, p: int) -> bool {
    exists|q: int| 0 <= q < p && tr[q] == (OutItem::Open { file: f })
}

/// The record index an entry marker names, if the item is one.
pub open spec fn open_idx(it: OutItem) -> Option<int> {
    match it {
        OutItem::Open { file } => Some(file),
        _ => None,
    }
}

/// If both items are entry markers, the earlier one names the smaller
/// record index.
pub open spec fn opens_ordered(a: OutItem, b: OutItem) -> bool {
    open_idx(a) matches Some(fa) ==> (open_idx(b) matches Some(fb) ==> fa < fb)
}

/// The run-long trace invariant behind the three properties.
pub open spec fn good(cfg: CfgV, st: MSt) -> bool {
    // every entry marker names a known record
    &&& forall|p: int|
        0 <= p < st.trace.len() ==> ((#[trigger] st.trace[p]) matches OutItem::Open { file }
            ==> 0 <= file < st.files.len())
    // entry markers carry strictly increasing indices: nothing is entered
    // twice
    &&& forall|a: int, b: int|
        0 <= a < b < st.trace.len() ==> opens_ordered(
            #[trigger] st.trace[a],
            #[trigger] st.trace[b],
        )
    // every known record has been entered
    &&& forall|i: int| 0 <= i < st.files.len() ==> #[trigger] opened(st.trace, i)
    // every literal line comes after its file's entry
    &&& forall|p: int|
        0 <= p < st.trace.len() ==> ((#[trigger] st.trace[p]) matches OutItem::Lit { file: f, .. }
            ==> opened_before(st.trace, f, p))
    // the visible output is well-formed
    &&& forall|p: int| 0 <= p < vis(st.trace).len() ==> lit_ok(cfg, st.files, vis(st.trace), p)
    // the expectation points right after the last visible literal line
    &&& (cfg.line_directives ==> match st.expect {
        Some((f, l)) => {
            &&& 0 <= f < st.files.len()
            &&& vis(st.trace).len() > 0
            &&& (vis(st.trace).last() matches OutItem::Lit { file: lf, line: ll, .. } && lf == f
                && ll == l - 1)
        },
        None => true,
    })
    // the open chain and the parent links are in bounds
    &&& match st.tail {
        Some(t) => 0 <= t < st.files.len(),
        None => true,
    }
    &&& forall|i: int|
        0 <= i < st.files.len() ==> ((#[trigger] st.files[i]).parent matches Some(p) ==> 0 <= p
            < i)
    // buffered blanks belong to known files and are never pragma lines
    &&& forall|k: int|
        0 <= k < st.pending.len() ==> 0 <= (#[trigger] st.pending[k]).file < st.files.len()
            && !pragma_line(st.pending[k].text)
}

/// `good` looks at the arena only through its length, identities, and
/// parent links.
proof fn lemma_good_files_frame(cfg: CfgV, st: MSt, files2: Seq<MRec>)
    requires
        good(cfg, st),
        files2.len() == st.files.len(),
        forall|i: int|
            0 <= i < st.files.len() ==> (#[trigger] files2[i]).canon == st.files[i].canon
                && files2[i].parent == st.files[i].parent,
    ensures
        good(cfg, MSt { files: files2, ..st }),
{
    let stn = MSt { files: files2, ..st };
    let v = vis(st.trace);
    assert forall|p: int| 0 <= p < v.len() implies lit_ok(cfg, files2, v, p) by {
        assert(lit_ok(cfg, st.files, v, p));
    }
}

/// One visible item is pushed on the trace and the expectation is reset:
/// the invariant survives.
proof fn lemma_good_append1(cfg: CfgV, st: MSt, it: OutItem, ex: Option<(int, int)>)
    requires
        good(cfg, st),
        !(it matches OutItem::Open { .. }),
        it matches OutItem::Lit { file: f, line: l, text } ==> ({
            &&& 0 <= f < st.files.len()
            &&& !pragma_line(text)
            &&& (cfg.line_directives ==> vis(st.trace).len() > 0 && (match vis(
                st.trace,
            ).last() {
                OutItem::Sync { canon, line } => canon == st.files[f].canon && line == l,
                OutItem::Lit { file: f2, line: l2, .. } => f2 == f && l2 == l - 1,
                _ => false,
            }))
        }),
        cfg.line_directives ==> match ex {
            Some((f, l)) => (0 <= f < st.files.len() && (it matches OutItem::Lit {
                file: lf,
                line: ll,
                ..
            } && lf == f && ll == l - 1)) || ((it matches OutItem::Close { .. }) && ex
                == st.expect),
            None => true,
        },
    ensures
        good(cfg, MSt { trace: st.trace.push(it), expect: ex, ..st }),
{
    let tr2 = st.trace.push(it);
    let stn = MSt { trace: tr2, expect: ex, ..st };
    assert(tr2.drop_last() =~= st.trace);
    let v = vis(st.trace);
    let v2 = vis(tr2);
    assert forall|p: int| 0 <= p < tr2.len() implies ((#[trigger] tr2[p]) matches OutItem::Open {
        file,
    } ==> 0 <= file < stn.files.len()) by {
        if p < st.trace.len() {
            assert(tr2[p] == st.trace[p]);
        }
    }
    assert forall|a: int, b: int| 0 <= a < b < tr2.len() implies opens_ordered(
        #[trigger] tr2[a],
        #[trigger] tr2[b],
    ) by {
        if b < st.trace.len() {
            assert(tr2[a] == st.trace[a]);
            assert(tr2[b] == st.trace[b]);
        } else {
            assert(tr2[b] == it);
            assert(open_idx(it) is None);
        }
    }
    assert forall|i: int| 0 <= i < stn.files.len() implies #[trigger] opened(tr2, i) by {
        assert(opened(st.trace, i));
        let q = choose|q: int|
            0 <= q < st.trace.len() && st.trace[q] == (OutItem::Open { file: i });
        assert(tr2[q] == (OutItem::Open { file: i }));
    }
    assert forall|p: int| 0 <= p < tr2.len() implies ((#[trigger] tr2[p]) matches OutItem::Lit {
        file: f,
        ..
    } ==> opened_before(tr2, f, p)) by {
        match tr2[p] {
            OutItem::Lit { file: f, .. } => {
                if p < st.trace.len() {
                    assert(tr2[p] == st.trace[p]);
                    assert(opened_before(st.trace, f, p));
                    let q = choose|q: int|
                        0 <= q < p && st.trace[q] == (OutItem::Open { file: f });
                    assert(tr2[q] == (OutItem::Open { file: f }));
                } else {
                    assert(opened(st.trace, f));
                    let q = choose|q: int|
                        0 <= q < st.trace.len() && st.trace[q] == (OutItem::Open { file: f });
                    assert(tr2[q] == (OutItem::Open { file: f }));
                }
            },
            _ => {},
        }
    }
    match it {
        OutItem::Open { .. } => {},
        OutItem::Close { .. } => {
            assert(v2 =~= v);
        },
        _ => {
            assert(v2 =~= v.push(it));
            assert forall|p: int| 0 <= p < v2.len() implies lit_ok(cfg, stn.files, v2, p) by {
                if p < v.len() {
                    assert(v2[p] == v[p]);
                    if p > 0 {
                        assert(v2[p - 1] == v[p - 1]);
                    }
                    assert(lit_ok(cfg, st.files, v, p));
                } else {
                    assert(v2[p] == it);
                    if v.len() > 0 {
                        assert(v2[p - 1] == v.last());
                    }
                }
            }
        },
    }
}

proof fn lemma_good_emit_raw(cfg: CfgV, st: MSt, f: int, lno: int, text: Seq<char>)
    requires
        good(cfg, st),
        0 <= f < st.files.len(),
        !pragma_line(text),
    ensures
        good(cfg, m_emit_raw(cfg, st, f, lno, text)),
{
    let lit = OutItem::Lit { file: f, line: lno, text };
    if cfg.line_directives {
        if st.expect == Some((f, lno)) {
            lemma_good_append1(cfg, st, lit, Some((f, lno + 1)));
            assert(m_emit_raw(cfg, st, f, lno, text) =~~= MSt {
                trace: st.trace.push(lit),
                expect: Some((f, lno + 1)),
                ..st
            });
        } else {
            let sy = OutItem::Sync { canon: st.files[f].canon, line: lno };
            lemma_good_append1(cfg, st, sy, None);
            let st1 = MSt { trace: st.trace.push(sy), expect: None, ..st };
            assert(vis(st1.trace) =~= vis(st.trace).push(sy)) by {
                assert(st.trace.push(sy).drop_last() =~= st.trace);
            }
            lemma_good_append1(cfg, st1, lit, Some((f, lno + 1)));
            assert(m_emit_raw(cfg, st, f, lno, text) =~~= MSt {
                trace: st1.trace.push(lit),
                expect: Some((f, lno + 1)),
                ..st1
            });
        }
    } else {
        lemma_good_append1(cfg, st, lit, st.expect);
        assert(m_emit_raw(cfg, st, f, lno, text) =~~= MSt {
            trace: st.trace.push(lit),
            expect: st.expect,
            ..st
        });
    }
}

proof fn lemma_good_note(cfg: CfgV, st: MSt, text: Seq<char>)
    requires
        good(cfg, st),
    ensures
        good(cfg, m_note(st, text)),
{
    lemma_good_append1(cfg, st, OutItem::Note { text }, None);
    assert(m_note(st, text) =~~= MSt {
        trace: st.trace.push(OutItem::Note { text }),
        expect: None,
        ..st
    });
}

proof fn lemma_good_flush(cfg: CfgV, st: MSt)
    requires
        good(cfg, st),
    ensures
        good(cfg, m_flush_pending(cfg, st)),
    decreases st.pending.len(),
{
    if st.pending.len() > 0 {
        let p = st.pending[0];
        let st1 = MSt { pending: st.pending.drop_first(), ..st };
        assert(good(cfg, st1));
        lemma_good_emit_raw(cfg, st1, p.file, p.line, p.text);
        lemma_good_flush(cfg, m_emit_raw(cfg, st1, p.file, p.line, p.text));
    }
}

proof fn lemma_good_begin_notes_rec(tmpl: Seq<char>, cfg: CfgV, st: MSt, ch: Seq<int>)
    requires
        good(cfg, st),
    ensures
        good(cfg, m_begin_notes_rec(tmpl, st, ch)),
    decreases ch.len(),
{
    if ch.len() > 0 {
        let f = ch.last();
        let st1 = if 0 <= f < st.files.len() && !st.files[f].emitted && st.files[f].parent
            is Some {
            m_note(st, crate::text::subst(tmpl, st.files[f].disp, st.files[f].canon))
        } else {
            st
        };
        if 0 <= f < st.files.len() && !st.files[f].emitted && st.files[f].parent is Some {
            lemma_good_note(cfg, st, crate::text::subst(tmpl, st.files[f].disp, st.files[f].canon));
        }
        lemma_good_begin_notes_rec(tmpl, cfg, st1, ch.drop_last());
    }
}

proof fn lemma_good_emit_lit(cfg: CfgV, st: MSt, lno: int, text: Seq<char>)
    requires
        good(cfg, st),
        st.tail is Some,
        !pragma_line(text),
    ensures
        good(cfg, m_emit_lit(cfg, st, lno, text)),
{
    let st1 = m_flush_pending(cfg, st);
    lemma_good_flush(cfg, st);
    crate::model::lemma_flush_frame(cfg, st);
    let st2 = m_begin_notes(cfg, st1);
    match cfg.begin_note {
        Some(tmpl) => {
            lemma_good_begin_notes_rec(tmpl, cfg, st1, crate::model::chain_of(st1.files, cur(
                st1,
            )));
            crate::model::lemma_begin_notes_frame(tmpl, st1, crate::model::chain_of(
                st1.files,
                cur(st1),
            ));
        },
        None => {},
    }
    lemma_good_emit_raw(cfg, st2, cur(st), lno, text);
    let st3 = m_emit_raw(cfg, st2, cur(st), lno, text);
    crate::model::lemma_mark_frame(st3.files, cur(st));
    lemma_good_files_frame(cfg, st3, m_mark_rec(st3.files, cur(st)));
}

proof fn lemma_good_content_line(cfg: CfgV, st: MSt, lno: int, text: Seq<char>)
    requires
        good(cfg, st),
        st.tail is Some,
        !pragma_line(text),
    ensures
        good(cfg, m_content_line(cfg, st, lno, text)),
{
    let t = cur(st);
    if cfg.trim_blank_lines && is_blank(text) {
        if 0 <= t < st.files.len() && st.files[t].emitted {
            let stn = MSt { pending: st.pending.push(PendV { file: t, line: lno, text }), ..st };
            assert(good(cfg, stn));
        }
    } else {
        lemma_good_emit_lit(cfg, st, lno, text);
    }
}

/// What `drop_owned` keeps was already in the buffer.
proof fn lemma_drop_owned_sub(pending: Seq<PendV>, t: int)
    ensures
        forall|k: int|
            0 <= k < crate::model::drop_owned(pending, t).len() ==> exists|m: int|
                0 <= m < pending.len() && pending[m] == #[trigger] crate::model::drop_owned(
                    pending,
                    t,
                )[k],
    decreases pending.len(),
{
    if pending.len() > 0 {
        lemma_drop_owned_sub(pending.drop_first(), t);
        let out = crate::model::drop_owned(pending, t);
        let rest = crate::model::drop_owned(pending.drop_first(), t);
        assert forall|k: int| 0 <= k < out.len() implies exists|m: int|
            0 <= m < pending.len() && pending[m] == #[trigger] out[k] by {
            if pending[0].file != t {
                if k == 0 {
                    assert(pending[0] == out[0]);
                } else {
                    assert(out[k] == rest[k - 1]);
                    let m = choose|m: int|
                        0 <= m < pending.drop_first().len() && pending.drop_first()[m] == rest[k
                            - 1];
                    assert(pending[m + 1] == out[k]);
                }
            } else {
                assert(out[k] == rest[k]);
                let m = choose|m: int|
                    0 <= m < pending.drop_first().len() && pending.drop_first()[m] == rest[k];
                assert(pending[m + 1] == out[k]);
            }
        }
    }
}

proof fn lemma_good_eof(cfg: CfgV, st: MSt)
    requires
        good(cfg, st),
        st.tail is Some,
    ensures
        good(cfg, m_eof(cfg, st)),
{
    let t = cur(st);
    let st1 = if cfg.trim_blank_lines {
        MSt { pending: crate::model::drop_owned(st.pending, t), ..st }
    } else {
        m_flush_pending(cfg, st)
    };
    if cfg.trim_blank_lines {
        lemma_drop_owned_sub(st.pending, t);
        assert forall|k: int| 0 <= k < st1.pending.len() implies 0 <= (#[trigger] st1.pending[k]).file
            < st1.files.len() && !pragma_line(st1.pending[k].text) by {
            let m = choose|m: int|
                0 <= m < st.pending.len() && st.pending[m] == st1.pending[k];
        }
        assert(good(cfg, st1));
    } else {
        lemma_good_flush(cfg, st);
        crate::model::lemma_flush_frame(cfg, st);
    }
    let st2 = if 0 <= t < st1.files.len() {
        match cfg.end_note {
            Some(tmpl) => if st1.files[t].emitted && st1.files[t].parent is Some {
                m_note(st1, crate::text::subst(tmpl, st1.files[t].disp, st1.files[t].canon))
            } else {
                st1
            },
            None => st1,
        }
    } else {
        st1
    };
    match cfg.end_note {
        Some(tmpl) => {
            if 0 <= t < st1.files.len() && st1.files[t].emitted && st1.files[t].parent is Some {
                lemma_good_note(cfg, st1, crate::text::subst(
                    tmpl,
                    st1.files[t].disp,
                    st1.files[t].canon,
                ));
            }
        },
        None => {},
    }
    assert(good(cfg, st2));
    if 0 <= t < st2.files.len() {
        let st2b = MSt { trace: st2.trace.push(OutItem::Close { file: t }), ..st2 };
        lemma_good_append1(cfg, st2, OutItem::Close { file: t }, st2.expect);
        assert(good(cfg, st2b));
        let files3 = st2.files.update(t, MRec { in_stack: false, ..st2.files[t] });
        lemma_good_files_frame(cfg, st2b, files3);
        let st2c = MSt { files: files3, ..st2b };
        assert(good(cfg, st2c));
        let st3 = MSt { tail: st2.files[t].parent, ..st2c };
        assert(good(cfg, st3));
        assert(m_eof(cfg, st) =~~= st3);
    }
}

proof fn lemma_good_enter(cfg: CfgV, st: MSt, c: Seq<char>, disp: Seq<char>, k: int)
    requires
        good(cfg, st),
    ensures
        good(cfg, m_enter(st, c, disp, k)),
{
    let stn = m_enter(st, c, disp, k);
    let idx = st.files.len() as int;
    let tr2 = stn.trace;
    assert(tr2.drop_last() =~= st.trace);
    assert(vis(tr2) =~= vis(st.trace));
    assert forall|p: int| 0 <= p < tr2.len() implies ((#[trigger] tr2[p]) matches OutItem::Open {
        file,
    } ==> 0 <= file < stn.files.len()) by {
        if p < st.trace.len() {
            assert(tr2[p] == st.trace[p]);
        }
    }
    assert forall|a: int, b: int| 0 <= a < b < tr2.len() implies opens_ordered(
        #[trigger] tr2[a],
        #[trigger] tr2[b],
    ) by {
        if b < st.trace.len() {
            assert(tr2[a] == st.trace[a]);
            assert(tr2[b] == st.trace[b]);
        } else {
            assert(tr2[a] == st.trace[a]);
            assert(tr2[b] == (OutItem::Open { file: idx }));
        }
    }
    assert forall|i: int| 0 <= i < stn.files.len() implies #[trigger] opened(tr2, i) by {
        if i < idx {
            assert(opened(st.trace, i));
            let q = choose|q: int|
                0 <= q < st.trace.len() && st.trace[q] == (OutItem::Open { file: i });
            assert(tr2[q] == (OutItem::Open { file: i }));
        } else {
            assert(tr2[st.trace.len() as int] == (OutItem::Open { file: i }));
        }
    }
    assert forall|p: int| 0 <= p < tr2.len() implies ((#[trigger] tr2[p]) matches OutItem::Lit {
        file: f,
        ..
    } ==> opened_before(tr2, f, p)) by {
        if p < st.trace.len() {
            match tr2[p] {
                OutItem::Lit { file: f, .. } => {
                    assert(tr2[p] == st.trace[p]);
                    assert(opened_before(st.trace, f, p));
                    let q = choose|q: int|
                        0 <= q < p && st.trace[q] == (OutItem::Open { file: f });
                    assert(tr2[q] == (OutItem::Open { file: f }));
                },
                _ => {},
            }
        }
    }
    let v = vis(st.trace);
    assert forall|p: int| 0 <= p < vis(tr2).len() implies lit_ok(cfg, stn.files, vis(tr2), p) by {
        assert(lit_ok(cfg, st.files, v, p));
        assert(vis(tr2)[p] == v[p]);
        if p > 0 {
            assert(vis(tr2)[p - 1] == v[p - 1]);
        }
        match v[p] {
            OutItem::Lit { file: f, .. } => {
                assert(stn.files[f].canon == st.files[f].canon);
            },
            _ => {},
        }
    }
}

/// A content line moves nothing but the trace, the expectation, the blank
/// buffer and the emitted flags.
proof fn lemma_content_frame(cfg: CfgV, st: MSt, lno: int, text: Seq<char>)
    ensures
        m_content_line(cfg, st, lno, text).files.len() == st.files.len(),
        forall|q: int|
            0 <= q < st.files.len() ==> {
                let rr = #[trigger] m_content_line(cfg, st, lno, text).files[q];
                rr.canon == st.files[q].canon && rr.parent == st.files[q].parent
            },
        m_content_line(cfg, st, lno, text).tail == st.tail,
        m_content_line(cfg, st, lno, text).unseen == st.unseen,
{
    let t = cur(st);
    if cfg.trim_blank_lines && is_blank(text) {
    } else {
        let st1 = m_flush_pending(cfg, st);
        crate::model::lemma_flush_frame(cfg, st);
        let st2 = m_begin_notes(cfg, st1);
        match cfg.begin_note {
            Some(tmpl) => {
                crate::model::lemma_begin_notes_frame(tmpl, st1, crate::model::chain_of(
                    st1.files,
                    cur(st1),
                ));
            },
            None => {},
        }
        let st3 = m_emit_raw(cfg, st2, cur(st), lno, text);
        crate::model::lemma_mark_frame(st3.files, cur(st));
    }
}

/// The invariant holds through a whole visit of one file's lines, and the
/// chain returns to the parent.
proof fn lemma_good_visit(env: MEnv, st: MSt, lines: Seq<Seq<char>>, i: int)
    requires
        good(env.cfg, st),
        st.tail is Some,
    ensures
        good(env.cfg, crate::model::m_visit(env, st, lines, i).0),
        crate::model::m_visit(env, st, lines, i).0.files.len() >= st.files.len(),
        forall|q: int|
            0 <= q < st.files.len() ==> {
                let rr = #[trigger] crate::model::m_visit(env, st, lines, i).0.files[q];
                rr.canon == st.files[q].canon && rr.parent == st.files[q].parent
            },
        (crate::model::m_visit(env, st, lines, i).1 is Done) ==> crate::model::m_visit(
            env,
            st,
            lines,
            i,
        ).0.tail == st.files[cur(st)].parent,
    decreases st.unseen.len(), lines.len() - i, 1int,
{
    let cfg = env.cfg;
    if i < 0 || i >= lines.len() {
        lemma_good_eof(cfg, st);
        let t = cur(st);
        let st1 = if cfg.trim_blank_lines {
            MSt { pending: crate::model::drop_owned(st.pending, t), ..st }
        } else {
            m_flush_pending(cfg, st)
        };
        if !cfg.trim_blank_lines {
            crate::model::lemma_flush_frame(cfg, st);
        }
    } else {
        let text = lines[i];
        let lno = i + 1;
        match crate::directive::classify(text) {
            crate::directive::ClassV::Pragma => {
                lemma_good_visit(env, st, lines, i + 1);
            },
            crate::directive::ClassV::Plain => {
                let stn = m_content_line(cfg, st, lno, text);
                lemma_good_content_line(cfg, st, lno, text);
                lemma_content_frame(cfg, st, lno, text);
                let stc = crate::model::clamp_unseen(stn, st);
                assert(stc == stn);
                lemma_good_visit(env, stn, lines, i + 1);
            },
            crate::directive::ClassV::Reference { rf, system } => {
                match crate::model::m_resolve(env, st, rf, system) {
                    RRes::Unknown { .. } => {},
                    RRes::Fatal { .. } => {},
                    RRes::NotFound => {
                        let e = crate::errors::ErrV::Unresolvable { rf, system };
                        match crate::model::unres_policy(cfg, system) {
                            crate::errors::ErrorHandling::Error => {},
                            crate::errors::ErrorHandling::Warn => {
                                let stw = crate::model::m_warn(st, e);
                                assert(good(cfg, stw));
                                let stn = m_content_line(cfg, stw, lno, text);
                                lemma_good_content_line(cfg, stw, lno, text);
                                lemma_content_frame(cfg, stw, lno, text);
                                assert(crate::model::clamp_unseen(stn, st) == stn);
                                lemma_good_visit(env, stn, lines, i + 1);
                            },
                            crate::errors::ErrorHandling::Ignore => {
                                let stn = m_content_line(cfg, st, lno, text);
                                lemma_good_content_line(cfg, st, lno, text);
                                lemma_content_frame(cfg, st, lno, text);
                                assert(crate::model::clamp_unseen(stn, st) == stn);
                                lemma_good_visit(env, stn, lines, i + 1);
                            },
                        }
                    },
                    RRes::Found { canon } => {
                        if !crate::model::m_should_inline(env, canon, system) {
                            let stn = m_content_line(cfg, st, lno, text);
                            lemma_good_content_line(cfg, st, lno, text);
                            lemma_content_frame(cfg, st, lno, text);
                            assert(crate::model::clamp_unseen(stn, st) == stn);
                            lemma_good_visit(env, stn, lines, i + 1);
                        } else {
                            match crate::model::find_rec(st.files, canon) {
                                Some(j) => {
                                    if st.files[j].in_stack {
                                        let e = crate::errors::ErrV::Cyclic {
                                            cycle: crate::model::m_chain_to(st.files, cur(st), j),
                                        };
                                        match cfg.cyclic {
                                            crate::errors::ErrorHandling::Error => {},
                                            crate::errors::ErrorHandling::Warn => {
                                                let stw = crate::model::m_warn(st, e);
                                                assert(good(cfg, stw));
                                                let stn = m_content_line(cfg, stw, lno, text);
                                                lemma_good_content_line(cfg, stw, lno, text);
                                                lemma_content_frame(cfg, stw, lno, text);
                                                assert(crate::model::clamp_unseen(stn, st)
                                                    == stn);
                                                lemma_good_visit(env, stn, lines, i + 1);
                                            },
                                            crate::errors::ErrorHandling::Ignore => {
                                                let stn = m_content_line(cfg, st, lno, text);
                                                lemma_good_content_line(cfg, st, lno, text);
                                                lemma_content_frame(cfg, st, lno, text);
                                                assert(crate::model::clamp_unseen(stn, st)
                                                    == stn);
                                                lemma_good_visit(env, stn, lines, i + 1);
                                            },
                                        }
                                    } else {
                                        lemma_good_visit(env, st, lines, i + 1);
                                    }
                                },
                                None => {
                                    match crate::model::index_of_at(st.unseen, canon, 0) {
                                        Some(k) => {
                                            if 0 <= k < st.unseen.len() {
                                                let st1 = m_enter(st, canon, rf, k);
                                                lemma_good_enter(cfg, st, canon, rf, k);
                                                match crate::snapshot::content_of(env.fs, canon) {
                                                    None => {},
                                                    Some(body) => {
                                                        let clines = crate::text::split_lines(
                                                            body,
                                                        );
                                                        lemma_good_visit(env, st1, clines, 0);
                                                        let m2 = crate::model::m_visit(
                                                            env,
                                                            st1,
                                                            clines,
                                                            0,
                                                        );
                                                        if m2.1 is Done {
                                                            let st2 = m2.0;
                                                            assert(st2.tail == st1.files[cur(
                                                                st1,
                                                            )].parent);
                                                            assert(st2.tail == st.tail);
                                                            let stc =
                                                                crate::model::clamp_unseen(
                                                                st2,
                                                                st,
                                                            );
                                                            assert(good(cfg, stc));
                                                            assert(stc.tail is Some);
                                                            lemma_good_visit(
                                                                env,
                                                                stc,
                                                                lines,
                                                                i + 1,
                                                            );
                                                        }
                                                    },
                                                }
                                            } else {
                                                lemma_good_visit(env, st, lines, i + 1);
                                            }
                                        },
                                        None => {
                                            lemma_good_visit(env, st, lines, i + 1);
                                        },
                                    }
                                },
                            }
                        }
                    },
                }
            },
        }
    }
}

/// The invariant holds through one root.
proof fn lemma_good_root(env: MEnv, st: MSt, root: Seq<char>)
    requires
        good(env.cfg, st),
    ensures
        good(env.cfg, crate::model::m_root(env, st, root).0),
{
    match crate::snapshot::stat_of(env.fs, root) {
        Some(crate::snapshot::StatV::File { canon }) => {
            match crate::model::find_rec(st.files, canon) {
                Some(_) => {},
                None => {
                    match crate::model::index_of_at(st.unseen, canon, 0) {
                        Some(k) => {
                            let st1 = m_enter(st, canon, root, k);
                            lemma_good_enter(env.cfg, st, canon, root, k);
                            match crate::snapshot::content_of(env.fs, canon) {
                                None => {},
                                Some(body) => {
                                    lemma_good_visit(env, st1, crate::text::split_lines(body), 0);
                                },
                            }
                        },
                        None => {},
                    }
                },
            }
        },
        _ => {},
    }
}

/// The invariant holds through a whole run.
proof fn lemma_good_run(env: MEnv, st: MSt, roots: Seq<Seq<char>>, k: int)
    requires
        good(env.cfg, st),
    ensures
        good(env.cfg, crate::model::m_run(env, st, roots, k).0),
    decreases roots.len() - k,
{
    if 0 <= k < roots.len() {
        lemma_good_root(env, st, roots[k]);
        let (st1, r1) = crate::model::m_root(env, st, roots[k]);
        if r1 is Done {
            lemma_good_run(env, st1, roots, k + 1);
        }
    }
}

/// The fresh state satisfies the invariant.
proof fn lemma_good_init(cfg: CfgV, fs: SnapV)
    ensures
        good(cfg, crate::model::m_init(fs)),
{
}

/// Deduplication: over one whole run, any two entry markers of the output
/// trace name different file records, so no file identity is ever entered —
/// and hence inlined — more than once; and every literal output line of a
/// file appears after that file's single entry.
pub proof fn lemma_dedup(env: MEnv, roots: Seq<Seq<char>>)
    ensures
        ({
            let tr = crate::model::m_run(env, crate::model::m_init(env.fs), roots, 0).0.trace;
            &&& forall|a: int, b: int|
                0 <= a < b < tr.len() ==> opens_ordered(#[trigger] tr[a], #[trigger] tr[b])
            &&& forall|p: int|
                0 <= p < tr.len() ==> ((#[trigger] tr[p]) matches OutItem::Lit { file: f, .. }
                    ==> opened_before(tr, f, p))
        }),
{
    lemma_good_init(env.cfg, env.fs);
    lemma_good_run(env, crate::model::m_init(env.fs), roots, 0);
}

/// Pragma stripping: no literal line of the output of a whole run is a
/// syntactically valid `#pragma once` line, whatever the configuration.
pub proof fn lemma_pragma_stripping(env: MEnv, roots: Seq<Seq<char>>)
    ensures
        ({
            let tr = crate::model::m_run(env, crate::model::m_init(env.fs), roots, 0).0.trace;
            forall|p: int|
                0 <= p < tr.len() ==> ((#[trigger] tr[p]) matches OutItem::Lit { text, .. }
                    ==> !pragma_line(text))
        }),
{
    lemma_good_init(env.cfg, env.fs);
    lemma_good_run(env, crate::model::m_init(env.fs), roots, 0);
    let stf = crate::model::m_run(env, crate::model::m_init(env.fs), roots, 0).0;
    let tr = stf.trace;
    assert forall|p: int| 0 <= p < tr.len() implies ((#[trigger] tr[p]) matches OutItem::Lit {
        text,
        ..
    } ==> !pragma_line(text)) by {
        match tr[p] {
            OutItem::Lit { text, .. } => {
                lemma_vis_keeps_lit(tr, p);
                let q = choose|q: int|
                    0 <= q < vis(tr).len() && vis(tr)[q] == tr[p];
                assert(lit_ok(env.cfg, stf.files, vis(tr), q));
            },
            _ => {},
        }
    }
}

/// Every literal trace item survives into the visible output.
proof fn lemma_vis_keeps_lit(tr: Seq<OutItem>, p: int)
    requires
        0 <= p < tr.len(),
        tr[p] matches OutItem::Lit { .. },
    ensures
        exists|q: int| 0 <= q < vis(tr).len() && vis(tr)[q] == tr[p],
    decreases tr.len(),
{
    if p == tr.len() - 1 {
        assert(vis(tr).last() == tr[p]);
    } else {
        lemma_vis_keeps_lit(tr.drop_last(), p);
        let rest = vis(tr.drop_last());
        let q = choose|q: int| 0 <= q < rest.len() && rest[q] == tr.drop_last()[p];
        assert(tr.drop_last()[p] == tr[p]);
        match tr.last() {
            OutItem::Open { .. } => {
                assert(vis(tr)[q] == tr[p]);
            },
            OutItem::Close { .. } => {
                assert(vis(tr)[q] == tr[p]);
            },
            _ => {
                assert(vis(tr)[q] == tr[p]);
            },
        }
    }
}

/// Line-directive correctness: with directive emission on, every literal
/// line of the visible output either continues its predecessor (same file,
/// next line) or directly follows a synchronization directive naming its
/// file's canonical path and its own 1-based line number.
pub proof fn lemma_line_directive_correctness(env: MEnv, roots: Seq<Seq<char>>)
    ensures
        ({
            let stf = crate::model::m_run(env, crate::model::m_init(env.fs), roots, 0).0;
            forall|p: int|
                0 <= p < vis(stf.trace).len() ==> lit_ok(env.cfg, stf.files, vis(stf.trace), p)
        }),
{
    lemma_good_init(env.cfg, env.fs);
    lemma_good_run(env, crate::model::m_init(env.fs), roots, 0);
}

/// Search-directory precedence: where an earlier directory of the merged
/// list yields a verdict for the reference, later directories are never
/// consulted; directories in which the candidate is a directory or missing
/// pass to the next.
pub proof fn lemma_search_dir_precedence(
    fs: SnapV,
    dirs: Seq<Seq<char>>,
    rf: Seq<char>,
    i: int,
    m: int,
)
    requires
        0 <= m <= i < dirs.len(),
        try_dir(fs, dirs[i], rf) is Some,
        forall|k: int| m <= k < i ==> try_dir(fs, #[trigger] dirs[k], rf) is None,
    ensures
        try_dirs(fs, dirs, rf, m) == try_dir(fs, dirs[i], rf)->Some_0,
    decreases i - m,
{
    if m < i {
        lemma_search_dir_precedence(fs, dirs, rf, i, m + 1);
    }
}

/// For quote references the context directory always comes first: a verdict
/// there decides the resolution before any search directory is tried.
pub proof fn lemma_quote_context_first(
    fs: SnapV,
    dirs: Seq<Seq<char>>,
    ctx: Seq<char>,
    rf: Seq<char>,
)
    requires
        try_dir(fs, ctx, rf) is Some,
    ensures
        crate::resolve::resolve_spec(fs, dirs, Some(ctx), rf) == try_dir(fs, ctx, rf)->Some_0,
{
}

/// Cycle handling: a reference that resolves and is approved for inlining
/// but leads back to a file still open on the chain is never re-entered.
/// Under `Error` the run aborts at once — nothing further is read — with
/// the cycle's chain in traversal order (the re-entered file first). Under
/// `Warn` and `Ignore` the reference line stays as literal text; they
/// differ only in whether the cycle is recorded as a warning. In every
/// tolerated case the traversal simply moves to the next line, so no
/// recursion happens.
pub proof fn lemma_cycle_not_reentered(
    env: MEnv,
    st: MSt,
    lines: Seq<Seq<char>>,
    i: int,
    rf: Seq<char>,
    system: bool,
    canon: Seq<char>,
    j: int,
)
    requires
        0 <= i < lines.len(),
        crate::directive::classify(lines[i]) == (crate::directive::ClassV::Reference {
            rf,
            system,
        }),
        crate::model::m_resolve(env, st, rf, system) == (RRes::Found { canon }),
        crate::model::m_should_inline(env, canon, system),
        crate::model::find_rec(st.files, canon) == Some(j),
        0 <= j < st.files.len(),
        st.files[j].in_stack,
    ensures
        env.cfg.cyclic == crate::errors::ErrorHandling::Error ==> crate::model::m_visit(
            env,
            st,
            lines,
            i,
        ) == (
            st,
            MStep::Fatal {
                err: crate::errors::ErrV::Cyclic {
                    cycle: crate::model::m_chain_to(st.files, cur(st), j),
                },
            },
        ),
        env.cfg.cyclic == crate::errors::ErrorHandling::Warn ==> crate::model::m_visit(
            env,
            st,
            lines,
            i,
        ) == crate::model::m_visit(
            env,
            crate::model::clamp_unseen(
                m_content_line(
                    env.cfg,
                    crate::model::m_warn(
                        st,
                        crate::errors::ErrV::Cyclic {
                            cycle: crate::model::m_chain_to(st.files, cur(st), j),
                        },
                    ),
                    i + 1,
                    lines[i],
                ),
                st,
            ),
            lines,
            i + 1,
        ),
        env.cfg.cyclic == crate::errors::ErrorHandling::Ignore ==> crate::model::m_visit(
            env,
            st,
            lines,
            i,
        ) == crate::model::m_visit(
            env,
            crate::model::clamp_unseen(
                m_content_line(env.cfg, st, i + 1, lines[i]),
                st,
            ),
            lines,
            i + 1,
        ),
{
}

/// A visit never grows the unseen list: entering a file removes its
/// identity and nothing ever puts one back. This is the fact behind the
/// clamp in the model's recursion, which therefore never changes anything.
pub proof fn lemma_unseen_monotone(env: MEnv, st: MSt, lines: Seq<Seq<char>>, i: int)
    ensures
        crate::model::m_visit(env, st, lines, i).0.unseen.len() <= st.unseen.len(),
    decreases st.unseen.len(), lines.len() - i, 1int,
{
    let cfg = env.cfg;
    if i < 0 || i >= lines.len() {
        if !cfg.trim_blank_lines {
            crate::model::lemma_flush_frame(cfg, st);
        }
        let st1 = if cfg.trim_blank_lines {
            MSt { pending: crate::model::drop_owned(st.pending, cur(st)), ..st }
        } else {
            m_flush_pending(cfg, st)
        };
        assert(st1.unseen == st.unseen);
        assert(crate::model::m_eof(cfg, st).unseen == st.unseen);
    } else {
        let text = lines[i];
        let lno = i + 1;
        match crate::directive::classify(text) {
            crate::directive::ClassV::Pragma => {
                lemma_unseen_monotone(env, st, lines, i + 1);
            },
            crate::directive::ClassV::Plain => {
                lemma_content_frame(cfg, st, lno, text);
                let stn = m_content_line(cfg, st, lno, text);
                assert(crate::model::clamp_unseen(stn, st) == stn);
                lemma_unseen_monotone(env, stn, lines, i + 1);
            },
            crate::directive::ClassV::Reference { rf, system } => {
                match crate::model::m_resolve(env, st, rf, system) {
                    RRes::Unknown { .. } => {},
                    RRes::Fatal { .. } => {},
                    RRes::NotFound => {
                        let e = crate::errors::ErrV::Unresolvable { rf, system };
                        match crate::model::unres_policy(cfg, system) {
                            crate::errors::ErrorHandling::Error => {},
                            crate::errors::ErrorHandling::Warn => {
                                let stw = crate::model::m_warn(st, e);
                                lemma_content_frame(cfg, stw, lno, text);
                                let stn = m_content_line(cfg, stw, lno, text);
                                assert(crate::model::clamp_unseen(stn, st) == stn);
                                lemma_unseen_monotone(env, stn, lines, i + 1);
                            },
                            crate::errors::ErrorHandling::Ignore => {
                                lemma_content_frame(cfg, st, lno, text);
                                let stn = m_content_line(cfg, st, lno, text);
                                assert(crate::model::clamp_unseen(stn, st) == stn);
                                lemma_unseen_monotone(env, stn, lines, i + 1);
                            },
                        }
                    },
                    RRes::Found { canon } => {
                        if !crate::model::m_should_inline(env, canon, system) {
                            lemma_content_frame(cfg, st, lno, text);
                            let stn = m_content_line(cfg, st, lno, text);
                            assert(crate::model::clamp_unseen(stn, st) == stn);
                            lemma_unseen_monotone(env, stn, lines, i + 1);
                        } else {
                            match crate::model::find_rec(st.files, canon) {
                                Some(j) => {
                                    if st.files[j].in_stack {
                                        let e = crate::errors::ErrV::Cyclic {
                                            cycle: crate::model::m_chain_to(st.files, cur(st), j),
                                        };
                                        match cfg.cyclic {
                                            crate::errors::ErrorHandling::Error => {},
                                            crate::errors::ErrorHandling::Warn => {
                                                let stw = crate::model::m_warn(st, e);
                                                lemma_content_frame(cfg, stw, lno, text);
                                                let stn = m_content_line(cfg, stw, lno, text);
                                                assert(crate::model::clamp_unseen(stn, st)
                                                    == stn);
                                                lemma_unseen_monotone(env, stn, lines, i + 1);
                                            },
                                            crate::errors::ErrorHandling::Ignore => {
                                                lemma_content_frame(cfg, st, lno, text);
                                                let stn = m_content_line(cfg, st, lno, text);
                                                assert(crate::model::clamp_unseen(stn, st)
                                                    == stn);
                                                lemma_unseen_monotone(env, stn, lines, i + 1);
                                            },
                                        }
                                    } else {
                                        lemma_unseen_monotone(env, st, lines, i + 1);
                                    }
                                },
                                None => {
                                    match crate::model::index_of_at(st.unseen, canon, 0) {
                                        Some(k) => {
                                            if 0 <= k < st.unseen.len() {
                                                let st1 = m_enter(st, canon, rf, k);
                                                match crate::snapshot::content_of(env.fs, canon) {
                                                    None => {},
                                                    Some(body) => {
                                                        let clines = crate::text::split_lines(
                                                            body,
                                                        );
                                                        lemma_unseen_monotone(env, st1, clines, 0);
                                                        let m2 = crate::model::m_visit(
                                                            env,
                                                            st1,
                                                            clines,
                                                            0,
                                                        );
                                                        if m2.1 is Done {
                                                            let stc =
                                                                crate::model::clamp_unseen(
                                                                m2.0,
                                                                st,
                                                            );
                                                            lemma_unseen_monotone(
                                                                env,
                                                                stc,
                                                                lines,
                                                                i + 1,
                                                            );
                                                        }
                                                    },
                                                }
                                            } else {
                                                lemma_unseen_monotone(env, st, lines, i + 1);
                                            }
                                        },
                                        None => {
                                            lemma_unseen_monotone(env, st, lines, i + 1);
                                        },
                                    }
                                },
                            }
                        }
                    },
                }
            },
        }
    }
}

/// The (file, line) pair of a literal output item, if the item is one.
pub open spec fn lit_pair(it: OutItem) -> Option<(int, int)> {
    match it {
        OutItem::Lit { file, line, .. } => Some((file, line)),
        _ => None,
    }
}

/// If both items are literal lines, they are different lines.
pub open spec fn lits_differ(a: OutItem, b: OutItem) -> bool {
    lit_pair(a) matches Some(x) ==> (lit_pair(b) matches Some(y) ==> x != y)
}

/// The buffer holds a blank of file `f`, line `l`.
pub open spec fn pend_has(pend: Seq<PendV>, f: int, l: int) -> bool {
    exists|m: int| 0 <= m < pend.len() && (#[trigger] pend[m]).file == f && pend[m].line == l
}

/// No two literal lines — emitted or still buffered — share a (file, line)
/// pair.
pub open spec fn lines_distinct(tr: Seq<OutItem>, pend: Seq<PendV>) -> bool {
    &&& forall|p: int, q: int|
        0 <= p < q < tr.len() ==> lits_differ(#[trigger] tr[p], #[trigger] tr[q])
    &&& forall|p: int, k: int|
        0 <= p < tr.len() && 0 <= k < pend.len() ==> (lit_pair(#[trigger] tr[p]) matches Some(x)
            ==> x != ((#[trigger] pend[k]).file, pend[k].line))
    &&& forall|k: int, m: int|
        0 <= k < m < pend.len() ==> !((#[trigger] pend[k]).file == (#[trigger] pend[m]).file
            && pend[k].line == pend[m].line)
}

/// All literal lines of file `f`, emitted or buffered, have numbers at most
/// `bound`.
pub open spec fn lits_bounded(tr: Seq<OutItem>, pend: Seq<PendV>, f: int, bound: int) -> bool {
    &&& forall|p: int|
        0 <= p < tr.len() ==> (lit_pair(#[trigger] tr[p]) matches Some(x) ==> (x.0 == f ==> x.1
            <= bound))
    &&& forall|k: int|
        0 <= k < pend.len() ==> ((#[trigger] pend[k]).file == f ==> pend[k].line <= bound)
}

/// Every literal trace item names a known record.
proof fn lemma_trace_lit_file_bound(cfg: CfgV, st: MSt, p: int)
    requires
        good(cfg, st),
        0 <= p < st.trace.len(),
    ensures
        lit_pair(st.trace[p]) matches Some(x) ==> 0 <= x.0 < st.files.len(),
{
    match st.trace[p] {
        OutItem::Lit { .. } => {
            lemma_vis_keeps_lit(st.trace, p);
            let q = choose|q: int|
                0 <= q < vis(st.trace).len() && vis(st.trace)[q] == st.trace[p];
            assert(lit_ok(cfg, st.files, vis(st.trace), q));
        },
        _ => {},
    }
}

/// Appending one item whose (file, line) pair is fresh keeps the lines
/// distinct.
proof fn lemma_distinct_push(tr: Seq<OutItem>, pend: Seq<PendV>, it: OutItem)
    requires
        lines_distinct(tr, pend),
        lit_pair(it) matches Some(x) ==> ({
            &&& forall|p: int|
                0 <= p < tr.len() ==> (lit_pair(#[trigger] tr[p]) matches Some(y) ==> y != x)
            &&& forall|k: int|
                0 <= k < pend.len() ==> ((#[trigger] pend[k]).file, pend[k].line) != x
        }),
    ensures
        lines_distinct(tr.push(it), pend),
{
    let tr2 = tr.push(it);
    assert forall|p: int, q: int| 0 <= p < q < tr2.len() implies lits_differ(
        #[trigger] tr2[p],
        #[trigger] tr2[q],
    ) by {
        if q < tr.len() {
            assert(tr2[p] == tr[p]);
            assert(tr2[q] == tr[q]);
        } else {
            assert(tr2[p] == tr[p]);
            assert(tr2[q] == it);
        }
    }
    assert forall|p: int, k: int|
        0 <= p < tr2.len() && 0 <= k < pend.len() implies (lit_pair(#[trigger] tr2[p]) matches Some(
        x,
    ) ==> x != ((#[trigger] pend[k]).file, pend[k].line)) by {
        if p < tr.len() {
            assert(tr2[p] == tr[p]);
        } else {
            assert(tr2[p] == it);
        }
    }
}

/// One emission of a fresh line keeps the lines distinct; it adds exactly
/// that line to the trace.
proof fn lemma_distinct_emit_raw(cfg: CfgV, st: MSt, f: int, lno: int, text: Seq<char>)
    requires
        lines_distinct(st.trace, st.pending),
        forall|p: int|
            0 <= p < st.trace.len() ==> (lit_pair(#[trigger] st.trace[p]) matches Some(y) ==> y
                != (f, lno)),
        forall|k: int|
            0 <= k < st.pending.len() ==> ((#[trigger] st.pending[k]).file, st.pending[k].line)
                != (f, lno),
    ensures
        ({
            let stn = m_emit_raw(cfg, st, f, lno, text);
            &&& lines_distinct(stn.trace, stn.pending)
            &&& stn.trace.len() > st.trace.len()
            &&& forall|p: int| 0 <= p < st.trace.len() ==> stn.trace[p] == st.trace[p]
            &&& forall|p: int|
                st.trace.len() <= p < stn.trace.len() ==> (lit_pair(
                    #[trigger] stn.trace[p],
                ) matches Some(x) ==> x == (f, lno))
            &&& stn.pending == st.pending
        }),
{
    let stn = m_emit_raw(cfg, st, f, lno, text);
    let lit = OutItem::Lit { file: f, line: lno, text };
    if cfg.line_directives && st.expect != Some((f, lno)) {
        let canon = if 0 <= f < st.files.len() {
            st.files[f].canon
        } else {
            Seq::empty()
        };
        let sy = OutItem::Sync { canon, line: lno };
        lemma_distinct_push(st.trace, st.pending, sy);
        lemma_distinct_push(st.trace.push(sy), st.pending, lit);
        assert(stn.trace =~= st.trace.push(sy).push(lit));
    } else {
        lemma_distinct_push(st.trace, st.pending, lit);
        assert(stn.trace =~= st.trace.push(lit));
    }
}

/// Flushing moves the buffered lines into the trace, each exactly once.
proof fn lemma_distinct_flush(cfg: CfgV, st: MSt)
    requires
        lines_distinct(st.trace, st.pending),
    ensures
        ({
            let stn = m_flush_pending(cfg, st);
            &&& lines_distinct(stn.trace, stn.pending)
            &&& stn.pending.len() == 0
            &&& stn.trace.len() >= st.trace.len()
            &&& forall|p: int| 0 <= p < st.trace.len() ==> stn.trace[p] == st.trace[p]
            &&& forall|p: int|
                st.trace.len() <= p < stn.trace.len() ==> (lit_pair(
                    #[trigger] stn.trace[p],
                ) matches Some(x) ==> pend_has(st.pending, x.0, x.1))
        }),
    decreases st.pending.len(),
{
    crate::model::lemma_flush_frame(cfg, st);
    if st.pending.len() == 0 {
    } else {
        let p0 = st.pending[0];
        let st1 = MSt { pending: st.pending.drop_first(), ..st };
        assert(lines_distinct(st1.trace, st1.pending)) by {
            assert(forall|k: int|
                0 <= k < st1.pending.len() ==> st1.pending[k] == st.pending[k + 1]);
        }
        assert forall|k: int|
            0 <= k < st1.pending.len() implies ((#[trigger] st1.pending[k]).file,
        st1.pending[k].line) != (p0.file, p0.line) by {
            assert(st1.pending[k] == st.pending[k + 1]);
        }
        lemma_distinct_emit_raw(cfg, st1, p0.file, p0.line, p0.text);
        let st2 = m_emit_raw(cfg, st1, p0.file, p0.line, p0.text);
        lemma_distinct_flush(cfg, st2);
        let stn = m_flush_pending(cfg, st);
        assert forall|p: int|
            st.trace.len() <= p < stn.trace.len() implies (lit_pair(
            #[trigger] stn.trace[p],
        ) matches Some(x) ==> pend_has(st.pending, x.0, x.1)) by {
            match lit_pair(stn.trace[p]) {
                Some(x) => {
                    if p < st2.trace.len() {
                        assert(x == (p0.file, p0.line));
                        assert(st.pending[0].file == x.0 && st.pending[0].line == x.1);
                    } else {
                        assert(pend_has(st1.pending, x.0, x.1));
                        let m = choose|m: int|
                            0 <= m < st1.pending.len() && (#[trigger] st1.pending[m]).file == x.0
                                && st1.pending[m].line == x.1;
                        assert(st.pending[m + 1].file == x.0 && st.pending[m + 1].line == x.1);
                    }
                },
                None => {},
            }
        }
    }
}

/// Note lines and markers change no literal line.
proof fn lemma_distinct_invisible(tr: Seq<OutItem>, pend: Seq<PendV>, it: OutItem)
    requires
        lines_distinct(tr, pend),
        lit_pair(it) is None,
    ensures
        lines_distinct(tr.push(it), pend),
        forall|p: int| 0 <= p < tr.len() ==> tr.push(it)[p] == tr[p],
{
    lemma_distinct_push(tr, pend, it);
}

/// The begin notes change no literal line.
proof fn lemma_distinct_begin_notes_rec(tmpl: Seq<char>, st: MSt, ch: Seq<int>)
    requires
        lines_distinct(st.trace, st.pending),
    ensures
        ({
            let stn = m_begin_notes_rec(tmpl, st, ch);
            &&& lines_distinct(stn.trace, stn.pending)
            &&& stn.trace.len() >= st.trace.len()
            &&& forall|p: int| 0 <= p < st.trace.len() ==> stn.trace[p] == st.trace[p]
            &&& forall|p: int|
                st.trace.len() <= p < stn.trace.len() ==> lit_pair(#[trigger] stn.trace[p])
                    is None
        }),
    decreases ch.len(),
{
    crate::model::lemma_begin_notes_frame(tmpl, st, ch);
    if ch.len() > 0 {
        let f = ch.last();
        let st1 = if 0 <= f < st.files.len() && !st.files[f].emitted && st.files[f].parent
            is Some {
            m_note(st, crate::text::subst(tmpl, st.files[f].disp, st.files[f].canon))
        } else {
            st
        };
        if 0 <= f < st.files.len() && !st.files[f].emitted && st.files[f].parent is Some {
            lemma_distinct_invisible(st.trace, st.pending, OutItem::Note {
                text: crate::text::subst(tmpl, st.files[f].disp, st.files[f].canon),
            });
        }
        lemma_distinct_begin_notes_rec(tmpl, st1, ch.drop_last());
    }
}

/// Where a kept line may have come from, relative to the state and line
/// index a step started at: it was already buffered, it belongs to a file
/// discovered later, or it is a line of the open file past the current one.
pub open spec fn from_step(st0: MSt, i0: int, nlines: int, f: int, l: int) -> bool {
    ||| pend_has(st0.pending, f, l)
    ||| f >= st0.files.len()
    ||| (f == cur(st0) && i0 < l <= nlines)
}

/// A full literal emission keeps the lines distinct and adds only buffered
/// lines and the line itself.
proof fn lemma_distinct_emit_lit(cfg: CfgV, st: MSt, lno: int, text: Seq<char>)
    requires
        lines_distinct(st.trace, st.pending),
        lits_bounded(st.trace, st.pending, cur(st), lno - 1),
    ensures
        ({
            let stn = m_emit_lit(cfg, st, lno, text);
            &&& lines_distinct(stn.trace, stn.pending)
            &&& stn.trace.len() >= st.trace.len()
            &&& forall|p: int| 0 <= p < st.trace.len() ==> stn.trace[p] == st.trace[p]
            &&& forall|p: int|
                st.trace.len() <= p < stn.trace.len() ==> (lit_pair(
                    #[trigger] stn.trace[p],
                ) matches Some(x) ==> (pend_has(st.pending, x.0, x.1) || x == (cur(st), lno)))
            &&& stn.pending.len() == 0
        }),
{
    let t = cur(st);
    lemma_distinct_flush(cfg, st);
    crate::model::lemma_flush_frame(cfg, st);
    let st1 = m_flush_pending(cfg, st);
    let st2 = m_begin_notes(cfg, st1);
    match cfg.begin_note {
        Some(tmpl) => {
            lemma_distinct_begin_notes_rec(tmpl, st1, crate::model::chain_of(st1.files, cur(
                st1,
            )));
            crate::model::lemma_begin_notes_frame(tmpl, st1, crate::model::chain_of(
                st1.files,
                cur(st1),
            ));
        },
        None => {},
    }
    assert forall|p: int|
        0 <= p < st2.trace.len() implies (lit_pair(#[trigger] st2.trace[p]) matches Some(y) ==> y
        != (t, lno)) by {
        match lit_pair(st2.trace[p]) {
            Some(y) => {
                if p < st.trace.len() {
                    assert(st2.trace[p] == st.trace[p]);
                } else if p < st1.trace.len() {
                    assert(pend_has(st.pending, y.0, y.1));
                    let m = choose|m: int|
                        0 <= m < st.pending.len() && (#[trigger] st.pending[m]).file == y.0
                            && st.pending[m].line == y.1;
                } else {
                    assert(lit_pair(st2.trace[p]) is None);
                }
            },
            None => {},
        }
    }
    lemma_distinct_emit_raw(cfg, st2, t, lno, text);
    let st3 = m_emit_raw(cfg, st2, t, lno, text);
    assert(m_emit_lit(cfg, st, lno, text) == (MSt {
        files: crate::model::m_mark_rec(st3.files, t),
        ..st3
    }));
    assert forall|p: int|
        st.trace.len() <= p < st3.trace.len() implies (lit_pair(
        #[trigger] st3.trace[p],
    ) matches Some(x) ==> (pend_has(st.pending, x.0, x.1) || x == (t, lno))) by {
        match lit_pair(st3.trace[p]) {
            Some(x) => {
                if p < st1.trace.len() {
                    assert(st3.trace[p] == st1.trace[p]);
                } else if p < st2.trace.len() {
                    assert(st3.trace[p] == st2.trace[p]);
                    assert(lit_pair(st2.trace[p]) is None);
                } else {
                    assert(x == (t, lno));
                }
            },
            None => {},
        }
    }
}

/// A content line keeps the lines distinct; what it adds is the line itself,
/// emitted or buffered, plus previously buffered lines.
proof fn lemma_distinct_content_line(cfg: CfgV, st: MSt, lno: int, text: Seq<char>)
    requires
        lines_distinct(st.trace, st.pending),
        lits_bounded(st.trace, st.pending, cur(st), lno - 1),
    ensures
        ({
            let stn = m_content_line(cfg, st, lno, text);
            &&& lines_distinct(stn.trace, stn.pending)
            &&& stn.trace.len() >= st.trace.len()
            &&& forall|p: int| 0 <= p < st.trace.len() ==> stn.trace[p] == st.trace[p]
            &&& forall|p: int|
                st.trace.len() <= p < stn.trace.len() ==> (lit_pair(
                    #[trigger] stn.trace[p],
                ) matches Some(x) ==> (pend_has(st.pending, x.0, x.1) || x == (cur(st), lno)))
            &&& forall|k: int|
                0 <= k < stn.pending.len() ==> (pend_has(
                    st.pending,
                    (#[trigger] stn.pending[k]).file,
                    stn.pending[k].line,
                ) || (stn.pending[k].file == cur(st) && stn.pending[k].line == lno))
        }),
{
    let t = cur(st);
    if cfg.trim_blank_lines && is_blank(text) {
        if 0 <= t < st.files.len() && st.files[t].emitted {
            let e = PendV { file: t, line: lno, text };
            let stn = MSt { pending: st.pending.push(e), ..st };
            assert forall|p: int, k: int|
                0 <= p < stn.trace.len() && 0 <= k < stn.pending.len() implies (lit_pair(
                #[trigger] stn.trace[p],
            ) matches Some(x) ==> x != ((#[trigger] stn.pending[k]).file,
            stn.pending[k].line)) by {
                if k < st.pending.len() {
                    assert(stn.pending[k] == st.pending[k]);
                } else {
                    assert(stn.pending[k] == e);
                }
            }
            assert forall|k: int, m: int|
                0 <= k < m < stn.pending.len() implies !((#[trigger] stn.pending[k]).file == (
            #[trigger] stn.pending[m]).file && stn.pending[k].line == stn.pending[m].line) by {
                assert(stn.pending[k] == st.pending[k]);
                if m < st.pending.len() {
                    assert(stn.pending[m] == st.pending[m]);
                } else {
                    assert(stn.pending[m] == e);
                }
            }
            assert forall|k: int|
                0 <= k < stn.pending.len() implies (pend_has(
                st.pending,
                (#[trigger] stn.pending[k]).file,
                stn.pending[k].line,
            ) || (stn.pending[k].file == cur(st) && stn.pending[k].line == lno)) by {
                if k < st.pending.len() {
                    assert(st.pending[k].file == stn.pending[k].file && st.pending[k].line
                        == stn.pending[k].line);
                }
            }
        } else {
            assert forall|k: int|
                0 <= k < st.pending.len() implies (pend_has(
                st.pending,
                (#[trigger] st.pending[k]).file,
                st.pending[k].line,
            ) || false) by {
                assert(st.pending[k].file == st.pending[k].file);
            }
        }
    } else {
        lemma_distinct_emit_lit(cfg, st, lno, text);
    }
}

/// Dropping the closing file's buffered blanks keeps the rest distinct.
proof fn lemma_distinct_drop_owned(tr: Seq<OutItem>, pend: Seq<PendV>, t: int)
    requires
        lines_distinct(tr, pend),
    ensures
        lines_distinct(tr, crate::model::drop_owned(pend, t)),
    decreases pend.len(),
{
    if pend.len() > 0 {
        let rest = pend.drop_first();
        assert(lines_distinct(tr, rest)) by {
            assert(forall|k: int| 0 <= k < rest.len() ==> rest[k] == pend[k + 1]);
        }
        lemma_distinct_drop_owned(tr, rest, t);
        lemma_drop_owned_sub(rest, t);
        let out = crate::model::drop_owned(pend, t);
        let outr = crate::model::drop_owned(rest, t);
        if pend[0].file != t {
            assert(out =~= seq![pend[0]] + outr);
            assert forall|p: int, k: int|
                0 <= p < tr.len() && 0 <= k < out.len() implies (lit_pair(
                #[trigger] tr[p],
            ) matches Some(x) ==> x != ((#[trigger] out[k]).file, out[k].line)) by {
                if k == 0 {
                    assert(out[0] == pend[0]);
                } else {
                    assert(out[k] == outr[k - 1]);
                }
            }
            assert forall|k: int, m: int|
                0 <= k < m < out.len() implies !((#[trigger] out[k]).file == (
            #[trigger] out[m]).file && out[k].line == out[m].line) by {
                if k == 0 {
                    assert(out[m] == outr[m - 1]);
                    let w = choose|w: int|
                        0 <= w < rest.len() && rest[w] == outr[m - 1];
                    assert(pend[w + 1] == out[m]);
                } else {
                    assert(out[k] == outr[k - 1]);
                    assert(out[m] == outr[m - 1]);
                }
            }
        } else {
            assert(out =~= outr);
        }
    }
}

/// The end of a file keeps the lines distinct; what it adds to the trace
/// was buffered, and what stays buffered was buffered before.
proof fn lemma_distinct_eof(cfg: CfgV, st: MSt)
    requires
        lines_distinct(st.trace, st.pending),
    ensures
        ({
            let stn = m_eof(cfg, st);
            &&& lines_distinct(stn.trace, stn.pending)
            &&& stn.trace.len() >= st.trace.len()
            &&& forall|p: int| 0 <= p < st.trace.len() ==> stn.trace[p] == st.trace[p]
            &&& forall|p: int|
                st.trace.len() <= p < stn.trace.len() ==> (lit_pair(
                    #[trigger] stn.trace[p],
                ) matches Some(x) ==> pend_has(st.pending, x.0, x.1))
            &&& forall|k: int|
                0 <= k < stn.pending.len() ==> pend_has(
                    st.pending,
                    (#[trigger] stn.pending[k]).file,
                    stn.pending[k].line,
                )
        }),
{
    let t = cur(st);
    let st1 = if cfg.trim_blank_lines {
        MSt { pending: crate::model::drop_owned(st.pending, t), ..st }
    } else {
        m_flush_pending(cfg, st)
    };
    if cfg.trim_blank_lines {
        lemma_distinct_drop_owned(st.trace, st.pending, t);
        lemma_drop_owned_sub(st.pending, t);
        assert forall|k: int|
            0 <= k < st1.pending.len() implies pend_has(
            st.pending,
            (#[trigger] st1.pending[k]).file,
            st1.pending[k].line,
        ) by {
            let m = choose|m: int|
                0 <= m < st.pending.len() && st.pending[m] == st1.pending[k];
            assert(st.pending[m].file == st1.pending[k].file && st.pending[m].line
                == st1.pending[k].line);
        }
    } else {
        lemma_distinct_flush(cfg, st);
        crate::model::lemma_flush_frame(cfg, st);
    }
    let st2 = if 0 <= t < st1.files.len() {
        match cfg.end_note {
            Some(tmpl) => if st1.files[t].emitted && st1.files[t].parent is Some {
                m_note(st1, crate::text::subst(tmpl, st1.files[t].disp, st1.files[t].canon))
            } else {
                st1
            },
            None => st1,
        }
    } else {
        st1
    };
    match cfg.end_note {
        Some(tmpl) => {
            if 0 <= t < st1.files.len() && st1.files[t].emitted && st1.files[t].parent is Some {
                lemma_distinct_invisible(st1.trace, st1.pending, OutItem::Note {
                    text: crate::text::subst(tmpl, st1.files[t].disp, st1.files[t].canon),
                });
            }
        },
        None => {},
    }
    if 0 <= t < st2.files.len() {
        lemma_distinct_invisible(st2.trace, st2.pending, OutItem::Close { file: t });
    }
    let stn = m_eof(cfg, st);
    assert forall|p: int|
        st.trace.len() <= p < stn.trace.len() implies (lit_pair(
        #[trigger] stn.trace[p],
    ) matches Some(x) ==> pend_has(st.pending, x.0, x.1)) by {
        match lit_pair(stn.trace[p]) {
            Some(x) => {
                if p < st1.trace.len() {
                    assert(stn.trace[p] == st1.trace[p]);
                } else if p < st2.trace.len() {
                    assert(stn.trace[p] == st2.trace[p]);
                    assert(lit_pair(st2.trace[p]) is None);
                } else {
                    assert(lit_pair(stn.trace[p]) is None);
                }
            },
            None => {},
        }
    }
}

/// Every buffered entry is found in its own buffer.
proof fn lemma_pend_self(pend: Seq<PendV>)
    ensures
        forall|k: int|
            0 <= k < pend.len() ==> pend_has(
                pend,
                (#[trigger] pend[k]).file,
                pend[k].line,
            ),
{
    assert forall|k: int| 0 <= k < pend.len() implies pend_has(
        pend,
        (#[trigger] pend[k]).file,
        pend[k].line,
    ) by {
        assert(0 <= k < pend.len() && pend[k].file == pend[k].file && pend[k].line
            == pend[k].line);
    }
}

/// Nothing buffered survives for the closing file.
proof fn lemma_drop_owned_no_t(pend: Seq<PendV>, t: int)
    ensures
        forall|k: int|
            0 <= k < crate::model::drop_owned(pend, t).len() ==> (#[trigger] crate::model::drop_owned(
                pend,
                t,
            )[k]).file != t,
    decreases pend.len(),
{
    if pend.len() > 0 {
        lemma_drop_owned_no_t(pend.drop_first(), t);
        let out = crate::model::drop_owned(pend, t);
        let outr = crate::model::drop_owned(pend.drop_first(), t);
        assert forall|k: int| 0 <= k < out.len() implies (#[trigger] out[k]).file != t by {
            if pend[0].file != t {
                if k > 0 {
                    assert(out[k] == outr[k - 1]);
                }
            } else {
                assert(out[k] == outr[k]);
            }
        }
    }
}

/// What a visit from line `i` guarantees about its result's trace and
/// buffer, relative to the state it started from.
pub open spec fn visit_post(env: MEnv, st: MSt, lines: Seq<Seq<char>>, i: int) -> bool {
    let (stn, r) = crate::model::m_visit(env, st, lines, i);
    &&& lines_distinct(stn.trace, stn.pending)
    &&& stn.trace.len() >= st.trace.len()
    &&& forall|p: int| 0 <= p < st.trace.len() ==> stn.trace[p] == st.trace[p]
    &&& forall|p: int|
        st.trace.len() <= p < stn.trace.len() ==> (lit_pair(#[trigger] stn.trace[p]) matches Some(
            x,
        ) ==> from_step(st, i, lines.len() as int, x.0, x.1))
    &&& forall|k: int|
        0 <= k < stn.pending.len() ==> (pend_has(
            st.pending,
            (#[trigger] stn.pending[k]).file,
            stn.pending[k].line,
        ) || (stn.pending[k].file == cur(st) && i < stn.pending[k].line <= lines.len())
            || stn.pending[k].file >= st.files.len())
    &&& (r is Done ==> forall|k: int|
        0 <= k < stn.pending.len() ==> pend_has(
            st.pending,
            (#[trigger] stn.pending[k]).file,
            stn.pending[k].line,
        ) && stn.pending[k].file != cur(st))
}

/// Through a whole visit the lines stay distinct; every line the visit adds
/// was buffered before, belongs to a later-discovered file, or is a line of
/// the open file past the current index; and at a completed visit no blank
/// of the closed file stays buffered.
proof fn lemma_distinct_visit(env: MEnv, st: MSt, lines: Seq<Seq<char>>, i: int)
    requires
        good(env.cfg, st),
        st.tail is Some,
        lines_distinct(st.trace, st.pending),
        lits_bounded(st.trace, st.pending, cur(st), i),
    ensures
        visit_post(env, st, lines, i),
    decreases st.unseen.len(), lines.len() - i, 1int,
{
    let cfg = env.cfg;
    let t = cur(st);
    lemma_pend_self(st.pending);
    if i < 0 || i >= lines.len() {
        lemma_distinct_eof(cfg, st);
        if cfg.trim_blank_lines {
            lemma_drop_owned_no_t(st.pending, t);
        } else {
            crate::model::lemma_flush_frame(cfg, st);
        }
        let stn = m_eof(cfg, st);
        assert forall|k: int|
            0 <= k < stn.pending.len() implies pend_has(
            st.pending,
            (#[trigger] stn.pending[k]).file,
            stn.pending[k].line,
        ) && stn.pending[k].file != t by {}
    } else {
        let text = lines[i];
        let lno = i + 1;
        match crate::directive::classify(text) {
            crate::directive::ClassV::Pragma => {
                lemma_distinct_visit(env, st, lines, i + 1);
                assert(visit_post(env, st, lines, i));
            },
            crate::directive::ClassV::Plain => {
                lemma_distinct_content_then_rest(env, st, st, lines, i);
                assert(visit_post(env, st, lines, i));
            },
            crate::directive::ClassV::Reference { rf, system } => {
                match crate::model::m_resolve(env, st, rf, system) {
                    RRes::Unknown { .. } => {
                        assert(visit_post(env, st, lines, i));
                    },
                    RRes::Fatal { .. } => {
                        assert(visit_post(env, st, lines, i));
                    },
                    RRes::NotFound => {
                        let e = crate::errors::ErrV::Unresolvable { rf, system };
                        match crate::model::unres_policy(cfg, system) {
                            crate::errors::ErrorHandling::Error => {
                                assert(visit_post(env, st, lines, i));
                            },
                            crate::errors::ErrorHandling::Warn => {
                                let stw = crate::model::m_warn(st, e);
                                assert(stw == (MSt { warns: stw.warns, ..st }));
                                lemma_distinct_content_then_rest(env, st, stw, lines, i);
                                assert(visit_post(env, st, lines, i));
                            },
                            crate::errors::ErrorHandling::Ignore => {
                                lemma_distinct_content_then_rest(env, st, st, lines, i);
                                assert(visit_post(env, st, lines, i));
                            },
                        }
                    },
                    RRes::Found { canon } => {
                        if !crate::model::m_should_inline(env, canon, system) {
                            lemma_distinct_content_then_rest(env, st, st, lines, i);
                            assert(visit_post(env, st, lines, i));
                        } else {
                            match crate::model::find_rec(st.files, canon) {
                                Some(j) => {
                                    if st.files[j].in_stack {
                                        let e = crate::errors::ErrV::Cyclic {
                                            cycle: crate::model::m_chain_to(st.files, t, j),
                                        };
                                        match cfg.cyclic {
                                            crate::errors::ErrorHandling::Error => {
                                                assert(visit_post(env, st, lines, i));
                                            },
                                            crate::errors::ErrorHandling::Warn => {
                                                let stw = crate::model::m_warn(st, e);
                                                assert(stw == (MSt {
                                                    warns: stw.warns,
                                                    ..st
                                                }));
                                                lemma_distinct_content_then_rest(
                                                    env,
                                                    st,
                                                    stw,
                                                    lines,
                                                    i,
                                                );
                                                assert(visit_post(env, st, lines, i));
                                            },
                                            crate::errors::ErrorHandling::Ignore => {
                                                lemma_distinct_content_then_rest(
                                                    env,
                                                    st,
                                                    st,
                                                    lines,
                                                    i,
                                                );
                                                assert(visit_post(env, st, lines, i));
                                            },
                                        }
                                    } else {
                                        lemma_distinct_visit(env, st, lines, i + 1);
                                        assert(visit_post(env, st, lines, i));
                                    }
                                },
                                None => {
                                    match crate::model::index_of_at(st.unseen, canon, 0) {
                                        Some(k) => {
                                            if 0 <= k < st.unseen.len() {
                                                lemma_distinct_enter_child(
                                                    env,
                                                    st,
                                                    lines,
                                                    i,
                                                    rf,
                                                    system,
                                                    canon,
                                                    k,
                                                );
                                            } else {
                                                lemma_distinct_visit(env, st, lines, i + 1);
                                                assert(visit_post(env, st, lines, i));
                                            }
                                        },
                                        None => {
                                            lemma_distinct_visit(env, st, lines, i + 1);
                                            assert(visit_post(env, st, lines, i));
                                        },
                                    }
                                },
                            }
                        }
                    },
                }
            },
        }
    }
}

/// One content line (after an optional warning) followed by the rest of the
/// visit.
proof fn lemma_distinct_content_then_rest(
    env: MEnv,
    st: MSt,
    stw: MSt,
    lines: Seq<Seq<char>>,
    i: int,
)
    requires
        good(env.cfg, st),
        st.tail is Some,
        lines_distinct(st.trace, st.pending),
        lits_bounded(st.trace, st.pending, cur(st), i),
        0 <= i < lines.len(),
        stw == st || stw == (MSt { warns: stw.warns, ..st }),
        !crate::directive::pragma_line(lines[i]),
    ensures
        ({
            let stn0 = m_content_line(env.cfg, stw, i + 1, lines[i]);
            let (stn, r) = crate::model::m_visit(
                env,
                crate::model::clamp_unseen(stn0, st),
                lines,
                i + 1,
            );
            &&& lines_distinct(stn.trace, stn.pending)
            &&& stn.trace.len() >= st.trace.len()
            &&& forall|p: int| 0 <= p < st.trace.len() ==> stn.trace[p] == st.trace[p]
            &&& forall|p: int|
                st.trace.len() <= p < stn.trace.len() ==> (lit_pair(
                    #[trigger] stn.trace[p],
                ) matches Some(x) ==> from_step(st, i, lines.len() as int, x.0, x.1))
            &&& forall|k: int|
                0 <= k < stn.pending.len() ==> (pend_has(
                    st.pending,
                    (#[trigger] stn.pending[k]).file,
                    stn.pending[k].line,
                ) || (stn.pending[k].file == cur(st) && i < stn.pending[k].line
                    <= lines.len()) || stn.pending[k].file >= st.files.len())
            &&& (r is Done ==> forall|k: int|
                0 <= k < stn.pending.len() ==> pend_has(
                    st.pending,
                    (#[trigger] stn.pending[k]).file,
                    stn.pending[k].line,
                ) && stn.pending[k].file != cur(st))
        }),
    decreases st.unseen.len(), lines.len() - i, 0int,
{
    let cfg = env.cfg;
    let t = cur(st);
    let lno = i + 1;
    let text = lines[i];
    assert(lines_distinct(stw.trace, stw.pending));
    assert(good(cfg, stw));
    lemma_distinct_content_line(cfg, stw, lno, text);
    lemma_good_content_line(cfg, stw, lno, text);
    lemma_content_frame(cfg, stw, lno, text);
    let stn0 = m_content_line(cfg, stw, lno, text);
    assert(crate::model::clamp_unseen(stn0, st) == stn0);
    assert(lits_bounded(stn0.trace, stn0.pending, t, i + 1)) by {
        assert forall|p: int|
            0 <= p < stn0.trace.len() implies (lit_pair(#[trigger] stn0.trace[p]) matches Some(x)
            ==> (x.0 == t ==> x.1 <= i + 1)) by {
            match lit_pair(stn0.trace[p]) {
                Some(x) => {
                    if p < st.trace.len() {
                        assert(stn0.trace[p] == st.trace[p]);
                    } else {
                        if pend_has(st.pending, x.0, x.1) {
                            let m = choose|m: int|
                                0 <= m < st.pending.len() && (#[trigger] st.pending[m]).file
                                    == x.0 && st.pending[m].line == x.1;
                        }
                    }
                },
                None => {},
            }
        }
        assert forall|k: int|
            0 <= k < stn0.pending.len() implies ((#[trigger] stn0.pending[k]).file == t
            ==> stn0.pending[k].line <= i + 1) by {
            if pend_has(st.pending, stn0.pending[k].file, stn0.pending[k].line) {
                let m = choose|m: int|
                    0 <= m < st.pending.len() && (#[trigger] st.pending[m]).file
                        == stn0.pending[k].file && st.pending[m].line == stn0.pending[k].line;
            }
        }
    }
    lemma_distinct_visit(env, stn0, lines, i + 1);
    let (stn, r) = crate::model::m_visit(env, stn0, lines, i + 1);
    assert forall|p: int|
        st.trace.len() <= p < stn.trace.len() implies (lit_pair(
        #[trigger] stn.trace[p],
    ) matches Some(x) ==> from_step(st, i, lines.len() as int, x.0, x.1)) by {
        match lit_pair(stn.trace[p]) {
            Some(x) => {
                if p < stn0.trace.len() {
                    assert(stn.trace[p] == stn0.trace[p]);
                } else {
                    assert(from_step(stn0, i + 1, lines.len() as int, x.0, x.1));
                    if pend_has(stn0.pending, x.0, x.1) {
                        let m = choose|m: int|
                            0 <= m < stn0.pending.len() && (#[trigger] stn0.pending[m]).file
                                == x.0 && stn0.pending[m].line == x.1;
                        if pend_has(st.pending, x.0, x.1) {
                        } else {
                            assert(x == (t, lno));
                        }
                    }
                }
            },
            None => {},
        }
    }
    assert forall|k: int|
        0 <= k < stn.pending.len() implies (pend_has(
        st.pending,
        (#[trigger] stn.pending[k]).file,
        stn.pending[k].line,
    ) || (stn.pending[k].file == t && i < stn.pending[k].line <= lines.len())
        || stn.pending[k].file >= st.files.len()) by {
        let f = stn.pending[k].file;
        let l = stn.pending[k].line;
        if pend_has(stn0.pending, f, l) {
            let m = choose|m: int|
                0 <= m < stn0.pending.len() && (#[trigger] stn0.pending[m]).file == f
                    && stn0.pending[m].line == l;
        }
    }
    if r is Done {
        assert forall|k: int|
            0 <= k < stn.pending.len() implies pend_has(
            st.pending,
            (#[trigger] stn.pending[k]).file,
            stn.pending[k].line,
        ) && stn.pending[k].file != t by {
            let f = stn.pending[k].file;
            let l = stn.pending[k].line;
            assert(pend_has(stn0.pending, f, l) && f != cur(stn0));
            let m = choose|m: int|
                0 <= m < stn0.pending.len() && (#[trigger] stn0.pending[m]).file == f
                    && stn0.pending[m].line == l;
        }
    }
}

/// Entering a newly discovered file, visiting it, and resuming.
proof fn lemma_distinct_enter_child(
    env: MEnv,
    st: MSt,
    lines: Seq<Seq<char>>,
    i: int,
    rf: Seq<char>,
    system: bool,
    canon: Seq<char>,
    k: int,
)
    requires
        good(env.cfg, st),
        st.tail is Some,
        lines_distinct(st.trace, st.pending),
        lits_bounded(st.trace, st.pending, cur(st), i),
        0 <= i < lines.len(),
        0 <= k < st.unseen.len(),
        crate::model::find_rec(st.files, canon) is None,
        crate::directive::classify(lines[i]) == (crate::directive::ClassV::Reference {
            rf,
            system,
        }),
        crate::model::m_resolve(env, st, rf, system) == (RRes::Found { canon }),
        crate::model::m_should_inline(env, canon, system),
        crate::model::index_of_at(st.unseen, canon, 0) == Some(k),
    ensures
        visit_post(env, st, lines, i),
    decreases st.unseen.len(), lines.len() - i, 0int,
{
    let cfg = env.cfg;
    let t = cur(st);
    lemma_pend_self(st.pending);
    let st1 = m_enter(st, canon, rf, k);
    let idx = st.files.len() as int;
    lemma_good_enter(cfg, st, canon, rf, k);
    lemma_distinct_invisible(st.trace, st.pending, crate::model::OutItem::Open { file: idx });
    assert(st1.trace =~= st.trace.push(crate::model::OutItem::Open { file: idx }));
    assert(lines_distinct(st1.trace, st1.pending));
    assert forall|p: int|
        st.trace.len() <= p < st1.trace.len() implies lit_pair(#[trigger] st1.trace[p])
        is None by {
        assert(st1.trace[p] == (crate::model::OutItem::Open { file: idx }));
    }
    match crate::snapshot::content_of(env.fs, canon) {
        None => {},
        Some(body) => {
            let clines = crate::text::split_lines(body);
            assert(lits_bounded(st1.trace, st1.pending, cur(st1), 0)) by {
                assert forall|p: int|
                    0 <= p < st1.trace.len() implies (lit_pair(
                    #[trigger] st1.trace[p],
                ) matches Some(x) ==> (x.0 == idx ==> x.1 <= 0)) by {
                    if p < st.trace.len() {
                        assert(st1.trace[p] == st.trace[p]);
                        lemma_trace_lit_file_bound(cfg, st, p);
                    } else {
                        assert(lit_pair(st1.trace[p]) is None);
                    }
                }
            }
            lemma_distinct_visit(env, st1, clines, 0);
            lemma_good_visit(env, st1, clines, 0);
            let m2 = crate::model::m_visit(env, st1, clines, 0);
            assert forall|p: int|
                st.trace.len() <= p < m2.0.trace.len() implies (lit_pair(
                #[trigger] m2.0.trace[p],
            ) matches Some(x) ==> from_step(st, i, lines.len() as int, x.0, x.1)) by {
                match lit_pair(m2.0.trace[p]) {
                    Some(x) => {
                        if p < st1.trace.len() {
                            assert(m2.0.trace[p] == st1.trace[p]);
                        } else {
                            assert(from_step(st1, 0, clines.len() as int, x.0, x.1));
                            if pend_has(st1.pending, x.0, x.1) {
                                let m = choose|m: int|
                                    0 <= m < st1.pending.len() && (
                                    #[trigger] st1.pending[m]).file == x.0
                                        && st1.pending[m].line == x.1;
                            }
                        }
                    },
                    None => {},
                }
            }
            assert forall|kk: int|
                0 <= kk < m2.0.pending.len() implies (pend_has(
                st.pending,
                (#[trigger] m2.0.pending[kk]).file,
                m2.0.pending[kk].line,
            ) || (m2.0.pending[kk].file == t && i < m2.0.pending[kk].line <= lines.len())
                || m2.0.pending[kk].file >= st.files.len()) by {
                let f = m2.0.pending[kk].file;
                let l = m2.0.pending[kk].line;
                if pend_has(st1.pending, f, l) {
                    let m = choose|m: int|
                        0 <= m < st1.pending.len() && (#[trigger] st1.pending[m]).file == f
                            && st1.pending[m].line == l;
                }
            }
            if m2.1 is Done {
                let st2 = m2.0;
                assert(st2.tail == st1.files[cur(st1)].parent);
                assert(st2.tail == st.tail);
                let stc = crate::model::clamp_unseen(st2, st);
                assert(good(cfg, stc));
                assert(lines_distinct(stc.trace, stc.pending));
                assert(lits_bounded(stc.trace, stc.pending, t, i + 1)) by {
                    assert forall|p: int|
                        0 <= p < st2.trace.len() implies (lit_pair(
                        #[trigger] st2.trace[p],
                    ) matches Some(x) ==> (x.0 == t ==> x.1 <= i + 1)) by {
                        match lit_pair(st2.trace[p]) {
                            Some(x) => {
                                if p < st.trace.len() {
                                    assert(st2.trace[p] == st.trace[p]);
                                } else if p < st1.trace.len() {
                                    assert(st2.trace[p] == st1.trace[p]);
                                    assert(lit_pair(st1.trace[p]) is None);
                                } else {
                                    assert(from_step(st1, 0, clines.len() as int, x.0, x.1));
                                    if pend_has(st1.pending, x.0, x.1) {
                                        let m = choose|m: int|
                                            0 <= m < st1.pending.len() && (
                                            #[trigger] st1.pending[m]).file == x.0
                                                && st1.pending[m].line == x.1;
                                    }
                                }
                            },
                            None => {},
                        }
                    }
                    assert forall|kk: int|
                        0 <= kk < st2.pending.len() implies ((#[trigger] st2.pending[kk]).file
                        == t ==> st2.pending[kk].line <= i + 1) by {
                        if pend_has(st1.pending, st2.pending[kk].file, st2.pending[kk].line) {
                            let m = choose|m: int|
                                0 <= m < st1.pending.len() && (#[trigger] st1.pending[m]).file
                                    == st2.pending[kk].file && st1.pending[m].line
                                    == st2.pending[kk].line;
                        }
                    }
                }
                lemma_distinct_visit(env, stc, lines, i + 1);
                let (stn, r) = crate::model::m_visit(env, stc, lines, i + 1);
                assert forall|p: int|
                    st.trace.len() <= p < stn.trace.len() implies (lit_pair(
                    #[trigger] stn.trace[p],
                ) matches Some(x) ==> from_step(st, i, lines.len() as int, x.0, x.1)) by {
                    match lit_pair(stn.trace[p]) {
                        Some(x) => {
                            if p < st1.trace.len() {
                                assert(stn.trace[p] == st1.trace[p]);
                                assert(lit_pair(st1.trace[p]) is None);
                            } else if p < st2.trace.len() {
                                assert(stn.trace[p] == st2.trace[p]);
                                assert(from_step(st1, 0, clines.len() as int, x.0, x.1));
                                if pend_has(st1.pending, x.0, x.1) {
                                    let m = choose|m: int|
                                        0 <= m < st1.pending.len() && (
                                        #[trigger] st1.pending[m]).file == x.0
                                            && st1.pending[m].line == x.1;
                                }
                            } else {
                                assert(from_step(stc, i + 1, lines.len() as int, x.0, x.1));
                                if pend_has(stc.pending, x.0, x.1) {
                                    let m = choose|m: int|
                                        0 <= m < stc.pending.len() && (
                                        #[trigger] stc.pending[m]).file == x.0
                                            && stc.pending[m].line == x.1;
                                    assert(pend_has(st1.pending, x.0, x.1));
                                    let m2w = choose|m2w: int|
                                        0 <= m2w < st1.pending.len() && (
                                        #[trigger] st1.pending[m2w]).file == x.0
                                            && st1.pending[m2w].line == x.1;
                                }
                            }
                        },
                        None => {},
                    }
                }
                assert forall|kk: int|
                    0 <= kk < stn.pending.len() implies (pend_has(
                    st.pending,
                    (#[trigger] stn.pending[kk]).file,
                    stn.pending[kk].line,
                ) || (stn.pending[kk].file == t && i < stn.pending[kk].line <= lines.len())
                    || stn.pending[kk].file >= st.files.len()) by {
                    let f = stn.pending[kk].file;
                    let l = stn.pending[kk].line;
                    if pend_has(stc.pending, f, l) {
                        let m = choose|m: int|
                            0 <= m < stc.pending.len() && (#[trigger] stc.pending[m]).file == f
                                && stc.pending[m].line == l;
                        assert(pend_has(st1.pending, f, l));
                        let m2w = choose|m2w: int|
                            0 <= m2w < st1.pending.len() && (#[trigger] st1.pending[m2w]).file
                                == f && st1.pending[m2w].line == l;
                    }
                }
                if r is Done {
                    assert forall|kk: int|
                        0 <= kk < stn.pending.len() implies pend_has(
                        st.pending,
                        (#[trigger] stn.pending[kk]).file,
                        stn.pending[kk].line,
                    ) && stn.pending[kk].file != t by {
                        let f = stn.pending[kk].file;
                        let l = stn.pending[kk].line;
                        assert(pend_has(stc.pending, f, l) && f != cur(stc));
                        let m = choose|m: int|
                            0 <= m < stc.pending.len() && (#[trigger] stc.pending[m]).file == f
                                && stc.pending[m].line == l;
                        assert(pend_has(st1.pending, f, l));
                        let m2w = choose|m2w: int|
                            0 <= m2w < st1.pending.len() && (#[trigger] st1.pending[m2w]).file
                                == f && st1.pending[m2w].line == l;
                    }
                }
            }
        },
    }
    let after = match crate::snapshot::content_of(env.fs, canon) {
        None => (
            st1,
            crate::model::MStep::Ask { query: crate::errors::QueryV::Content { canon } },
        ),
        Some(body) => {
            let m2 = crate::model::m_visit(env, st1, crate::text::split_lines(body), 0);
            if m2.1 is Done {
                crate::model::m_visit(env, crate::model::clamp_unseen(m2.0, st), lines, i + 1)
            } else {
                m2
            }
        },
    };
    assert(crate::model::m_visit(env, st, lines, i) == after);
    assert(visit_post(env, st, lines, i));
}

/// Deduplication, line level: over one whole run no two literal output
/// items carry the same (file, line) pair — together with the single entry
/// per identity, each line of each file appears in the output at most once.
pub proof fn lemma_dedup_lines(env: MEnv, roots: Seq<Seq<char>>)
    ensures
        ({
            let tr = crate::model::m_run(env, crate::model::m_init(env.fs), roots, 0).0.trace;
            forall|p: int, q: int|
                0 <= p < q < tr.len() ==> lits_differ(#[trigger] tr[p], #[trigger] tr[q])
        }),
{
    lemma_good_init(env.cfg, env.fs);
    lemma_distinct_run(env, crate::model::m_init(env.fs), roots, 0);
}

proof fn lemma_distinct_root(env: MEnv, st: MSt, root: Seq<char>)
    requires
        good(env.cfg, st),
        lines_distinct(st.trace, st.pending),
    ensures
        ({
            let (stn, r) = crate::model::m_root(env, st, root);
            &&& lines_distinct(stn.trace, stn.pending)
            &&& good(env.cfg, stn)
        }),
{
    lemma_good_root(env, st, root);
    match crate::snapshot::stat_of(env.fs, root) {
        Some(crate::snapshot::StatV::File { canon }) => {
            match crate::model::find_rec(st.files, canon) {
                Some(_) => {},
                None => {
                    match crate::model::index_of_at(st.unseen, canon, 0) {
                        Some(k) => {
                            crate::model::lemma_index_of_at(st.unseen, canon, 0);
                            let st1 = m_enter(st, canon, root, k);
                            let idx = st.files.len() as int;
                            lemma_good_enter(env.cfg, st, canon, root, k);
                            lemma_distinct_invisible(st.trace, st.pending,
                                crate::model::OutItem::Open { file: idx });
                            assert(st1.trace =~= st.trace.push(
                                crate::model::OutItem::Open { file: idx },
                            ));
                            match crate::snapshot::content_of(env.fs, canon) {
                                None => {},
                                Some(body) => {
                                    let clines = crate::text::split_lines(body);
                                    assert(lits_bounded(st1.trace, st1.pending, cur(st1), 0))
                                        by {
                                        assert forall|p: int|
                                            0 <= p < st1.trace.len() implies (lit_pair(
                                            #[trigger] st1.trace[p],
                                        ) matches Some(x) ==> (x.0 == idx ==> x.1 <= 0)) by {
                                            if p < st.trace.len() {
                                                assert(st1.trace[p] == st.trace[p]);
                                                lemma_trace_lit_file_bound(env.cfg, st, p);
                                            } else {
                                                assert(lit_pair(st1.trace[p]) is None);
                                            }
                                        }
                                    }
                                    lemma_distinct_visit(env, st1, clines, 0);
                                },
                            }
                        },
                        None => {},
                    }
                },
            }
        },
        _ => {},
    }
}

proof fn lemma_distinct_run(env: MEnv, st: MSt, roots: Seq<Seq<char>>, k: int)
    requires
        good(env.cfg, st),
        lines_distinct(st.trace, st.pending),
    ensures
        lines_distinct(crate::model::m_run(env, st, roots, k).0.trace, crate::model::m_run(
            env,
            st,
            roots,
            k,
        ).0.pending),
    decreases roots.len() - k,
{
    if 0 <= k < roots.len() {
        lemma_distinct_root(env, st, roots[k]);
        let (st1, r1) = crate::model::m_root(env, st, roots[k]);
        if r1 is Done {
            lemma_distinct_run(env, st1, roots, k + 1);
        }
    }
}

} // verus!
