//! Decides whether a resolved file is inlined. Two ordered lists of
//! polarity-tagged glob patterns exist, one consulted for quote references
//! and one for system references. Among all patterns matching the canonical
//! path, the last one in merged command-line order wins: a plain pattern
//! excludes the file from inlining, an inverted one (written with a leading
//! `!`) forces it back in. With no match at all the file is inlined.
use vstd::prelude::*;

verus! {

/// Patterns longer than this are refused outright. Real-world patterns are
/// far shorter; the bound keeps every internal automaton the matcher builds
/// orders of magnitude below the size caps of the underlying crates, so
/// that no size overrun is reachable.
pub const MAX_GLOB_LEN: usize = 2048;

/// Whether globset parses `pattern` and builds its single-pattern matcher;
/// a function of the pattern text alone.
pub uninterp spec fn glob_ok(pattern: Seq<char>) -> bool;

/// Whether the glob `pattern` matches `path` under globset's default
/// options; a function of the two texts alone.
pub uninterp spec fn glob_match(pattern: Seq<char>, path: Seq<char>) -> bool;

/// Relies on `globset::Glob::new` and `globset::GlobSetBuilder::build`:
/// with default options both depend on the pattern text alone, and the set
/// build reports an oversized or too deeply nested translated pattern as an
/// error. Returns the error message for a pattern globset refuses.
#[verifier::external_body]
fn glob_compile_check(pattern: &str) -> (r: Option<String>)
    ensures
        (r is None) == glob_ok(pattern@),
{
    match globset::Glob::new(pattern) {
        Ok(g) => {
            let mut builder = globset::GlobSetBuilder::new();
            builder.add(g);
            match builder.build() {
                Ok(_) => None,
                Err(e) => Some(e.to_string()),
            }
        },
        Err(e) => Some(e.to_string()),
    }
}

/// Relies on `globset::Glob::new`, `globset::GlobSetBuilder::build` and
/// `globset::GlobSet::is_match`: all pure, so the verdict depends on the
/// pattern and path texts alone (matching is over the path's bytes; no
/// separator rewriting happens on this target family). The two `requires`
/// leave out every input on which the construction could fail: `glob_ok`
/// says exactly that these two build steps succeed, and the length bound
/// keeps the matcher far below the underlying crates' size caps.
#[verifier::external_body]
fn glob_match_path(pattern: &str, path: &str) -> (r: bool)
    requires
        glob_ok(pattern@),
        pattern@.len() <= MAX_GLOB_LEN as int,
    ensures
        r == glob_match(pattern@, path@),
{
    let compiled = globset::Glob::new(pattern).ok().and_then(
        |g|
            {
                let mut builder = globset::GlobSetBuilder::new();
                builder.add(g);
                builder.build().ok()
            },
    );
    match compiled {
        Some(set) => set.is_match(path),
        None => false,
    }
}

/// Spec-level counterpart of `InvertibleGlob`.
pub struct GlobV {
    pub pattern: Seq<char>,
    pub inverted: bool,
}

/// A glob pattern with a polarity: plain excludes, inverted re-includes.
pub struct InvertibleGlob {
    pattern: String,
    inverted: bool,
}

impl View for InvertibleGlob {
    type V = GlobV;

    closed spec fn view(&self) -> GlobV {
        GlobV { pattern: self.pattern@, inverted: self.inverted }
    }
}

impl DeepView for InvertibleGlob {
    type V = GlobV;

    closed spec fn deep_view(&self) -> GlobV {
        self.view()
    }
}

impl InvertibleGlob {
    #[verifier::type_invariant]
    spec fn type_inv(self) -> bool {
        glob_ok(self.pattern@) && self.pattern@.len() <= MAX_GLOB_LEN as int
    }

    /// Parses a command-line pattern: a leading `!` marks it inverted, the
    /// rest must be no longer than `MAX_GLOB_LEN` and a pattern globset
    /// accepts. On refusal, the error message.
    pub fn from_str(s: &str) -> (r: Result<InvertibleGlob, String>)
        ensures
            ({
                let stripped = if s@.len() > 0 && s@[0] == '!' {
                    s@.subrange(1, s@.len() as int)
                } else {
                    s@
                };
                &&& (r is Ok) == (glob_ok(stripped) && stripped.len() <= MAX_GLOB_LEN as int)
                &&& (r matches Ok(g) ==> (if s@.len() > 0 && s@[0] == '!' {
                    g@.pattern == stripped && g@.inverted
                } else {
                    g@.pattern == s@ && !g@.inverted
                }))
            }),
    {
        let n = s.unicode_len();
        let (inverted, remainder) = if n > 0 && s.get_char(0) == '!' {
            (true, s.substring_char(1, n).to_owned())
        } else {
            (false, s.to_owned())
        };
        if remainder.as_str().unicode_len() > MAX_GLOB_LEN {
            return Err("Glob pattern is too long".to_owned());
        }
        match glob_compile_check(remainder.as_str()) {
            None => Ok(InvertibleGlob { pattern: remainder, inverted }),
            Some(msg) => Err(msg),
        }
    }

    /// The pattern text, as given (without the polarity mark).
    pub fn pattern_str(&self) -> (r: &String)
        ensures
            r@ == self@.pattern,
    {
        &self.pattern
    }

    /// Whether the pattern was marked inverted.
    pub fn is_inverted(&self) -> (r: bool)
        ensures
            r == self@.inverted,
    {
        self.inverted
    }
}

/// The decision for `path` against an ordered pattern list: the last
/// matching pattern's polarity decides (inverted means inline), and with no
/// match the file is inlined.
pub open spec fn decide_inline(globs: Seq<GlobV>, path: Seq<char>) -> bool
    decreases globs.len(),
{
    if globs.len() == 0 {
        true
    } else if glob_match(globs.last().pattern, path) {
        globs.last().inverted
    } else {
        decide_inline(globs.drop_last(), path)
    }
}

/// If `globs[k]` matches `path` and no later pattern does, the decision for
/// `path` is exactly `globs[k]`'s polarity: later command-line patterns take
/// precedence over earlier ones, whichever source list they came from.
pub proof fn lemma_filter_precedence(globs: Seq<GlobV>, path: Seq<char>, k: int)
    requires
        0 <= k < globs.len(),
        glob_match(globs[k].pattern, path),
        forall|j: int| k < j < globs.len() ==> !glob_match(#[trigger] globs[j].pattern, path),
    ensures
        decide_inline(globs, path) == globs[k].inverted,
    decreases globs.len(),
{
    if k == globs.len() - 1 {
    } else {
        lemma_filter_precedence(globs.drop_last(), path, k);
    }
}

/// With no pattern matching `path`, the default is to inline.
pub proof fn lemma_filter_default(globs: Seq<GlobV>, path: Seq<char>)
    requires
        forall|j: int| 0 <= j < globs.len() ==> !glob_match(#[trigger] globs[j].pattern, path),
    ensures
        decide_inline(globs, path),
    decreases globs.len(),
{
    if globs.len() > 0 {
        lemma_filter_default(globs.drop_last(), path);
    }
}

/// The two ordered pattern lists, quote and system, each already merged in
/// command-line order.
pub struct InliningFilter {
    quote_globs: Vec<InvertibleGlob>,
    system_globs: Vec<InvertibleGlob>,
}

impl InliningFilter {
    /// The quote-side pattern list.
    pub closed spec fn quote_view(&self) -> Seq<GlobV> {
        self.quote_globs.deep_view()
    }

    /// The system-side pattern list.
    pub closed spec fn system_view(&self) -> Seq<GlobV> {
        self.system_globs.deep_view()
    }

    /// The list consulted for the given reference kind.
    pub open spec fn globs_for(&self, system: bool) -> Seq<GlobV> {
        if system {
            self.system_view()
        } else {
            self.quote_view()
        }
    }

    pub fn new(quote_globs: Vec<InvertibleGlob>, system_globs: Vec<InvertibleGlob>) -> (r:
        InliningFilter)
        ensures
            r.quote_view() == quote_globs.deep_view(),
            r.system_view() == system_globs.deep_view(),
    {
        InliningFilter { quote_globs, system_globs }
    }

    /// Whether the file at canonical path `path`, referenced with the given
    /// kind, is inlined.
    pub fn should_inline(&self, path: &str, system: bool) -> (r: bool)
        ensures
            r == decide_inline(self.globs_for(system), path@),
    {
        let globs = if system {
            &self.system_globs
        } else {
            &self.quote_globs
        };
        let ghost gv = self.globs_for(system);
        let n = globs.len();
        let mut decision = true;
        let mut i: usize = 0;
        proof {
            assert(gv.subrange(0, 0) =~= Seq::<GlobV>::empty());
        }
        while i < n
            invariant
                0 <= i <= n,
                n == globs.len(),
                gv == globs.deep_view(),
                decision == decide_inline(gv.subrange(0, i as int), path@),
            decreases n - i,
        {
            let g = &globs[i];
            proof {
                use_type_invariant(g);
                assert(gv[i as int] == g@);
            }
            if glob_match_path(g.pattern.as_str(), path) {
                decision = g.inverted;
            }
            proof {
                assert(gv.subrange(0, i + 1).drop_last() =~= gv.subrange(0, i as int));
                assert(gv.subrange(0, i + 1).last() == g@);
            }
            i = i + 1;
        }
        proof {
            assert(gv.subrange(0, n as int) =~= gv);
        }
        decision
    }
}

} // verus!
