use cpp_amalgamate::engine::{run, Config, RunOutcome};
use cpp_amalgamate::errors::{ErrorHandling, ErrorHandlingOpts, Query};
use cpp_amalgamate::filter::InliningFilter;
use cpp_amalgamate::resolve::IncludeResolver;
use cpp_amalgamate::snapshot::Snapshot;

fn res_config(unres_quote: ErrorHandling, unres_system: ErrorHandling) -> Config {
    Config {
        line_directives: false,
        trim_blank_lines: false,
        begin_note: None,
        end_note: None,
        error_handling_opts: ErrorHandlingOpts {
            cyclic_include: ErrorHandling::Error,
            unresolvable_quote_include: unres_quote,
            unresolvable_system_include: unres_system,
        },
    }
}

/// Runs with separate quote and system search-directory lists, answering
/// unknown stat queries with "missing".
fn res_run(
    fs: &mut Snapshot,
    quote_dirs: &[&str],
    system_dirs: &[&str],
    config: Config,
    roots: &[&str],
) -> RunOutcome {
    let q: Vec<String> = quote_dirs.iter().map(|d| d.to_string()).collect();
    let s: Vec<String> = system_dirs.iter().map(|d| d.to_string()).collect();
    let roots_v: Vec<String> = roots.iter().map(|r| r.to_string()).collect();
    loop {
        let resolver = IncludeResolver::new(q.clone(), s.clone());
        let filter = InliningFilter::new(Vec::new(), Vec::new());
        let config_copy = Config {
            line_directives: config.line_directives,
            trim_blank_lines: config.trim_blank_lines,
            begin_note: config.begin_note.clone(),
            end_note: config.end_note.clone(),
            error_handling_opts: config.error_handling_opts,
        };
        match run(fs, resolver, filter, config_copy, &roots_v) {
            RunOutcome::Need { query } => match query {
                Query::Stat { path } => fs.add_missing(&path),
                Query::Content { canon } => panic!("content missing for {}", canon),
            },
            other => return other,
        }
    }
}

fn res_output(outcome: RunOutcome) -> String {
    match outcome {
        RunOutcome::Done { output, .. } => output,
        _ => panic!("run was expected to go through"),
    }
}

#[test]
fn basic_file_resolving() {
    let mut fs = Snapshot::new();
    fs.add_file(
        "/src.cpp",
        "#include \"a.hpp\"\n// hello?\n#include <b/c.hpp>\n",
    );
    fs.add_file("/d1/a.hpp", "// a.hpp\n");
    fs.add_file("/d2/b/c.hpp", "// b/c.hpp\n");
    let outcome = res_run(
        &mut fs,
        &["/d1", "/d2"],
        &["/d1", "/d2"],
        res_config(ErrorHandling::Ignore, ErrorHandling::Ignore),
        &["/src.cpp"],
    );
    assert_eq!(res_output(outcome), "// a.hpp\n// hello?\n// b/c.hpp\n");
}

#[test]
fn quote_and_system_only_search_dirs() {
    let mut fs = Snapshot::new();
    fs.add_file(
        "/src.cpp",
        "#include \"a.hpp\"\n#include \"b.hpp\"\n#include \"c.hpp\"\n#include <a.hpp>\n#include <b.hpp>\n#include <c.hpp>\n",
    );
    fs.add_file("/q/a.hpp", "// a.hpp quote\n");
    fs.add_file("/s/b.hpp", "// b.hpp system\n");
    fs.add_file("/sh/a.hpp", "// a.hpp shared\n");
    fs.add_file("/sh/b.hpp", "// b.hpp shared\n");
    fs.add_file("/sh/c.hpp", "// c.hpp shared\n");
    let outcome = res_run(
        &mut fs,
        &["/q", "/sh"],
        &["/s", "/sh"],
        res_config(ErrorHandling::Ignore, ErrorHandling::Ignore),
        &["/src.cpp"],
    );
    assert_eq!(
        res_output(outcome),
        "// a.hpp quote\n// b.hpp shared\n// c.hpp shared\n// a.hpp shared\n// b.hpp system\n"
    );
}

#[test]
fn precedence_of_search_dirs() {
    let mut fs = Snapshot::new();
    fs.add_file("/src.cpp", "#include <a.hpp>");
    fs.add_file("/d1/a.hpp", "// 1");
    fs.add_file("/d2/a.hpp", "// 2");
    let outcome = res_run(
        &mut fs,
        &["/d1", "/d2"],
        &["/d1", "/d2"],
        res_config(ErrorHandling::Ignore, ErrorHandling::Ignore),
        &["/src.cpp"],
    );
    assert_eq!(res_output(outcome), "// 1");
}

#[test]
fn resolving_to_file_symlinks() {
    let mut fs = Snapshot::new();
    fs.add_file("/src.cpp", "#include <b.hpp>");
    fs.add_file("/d/a.hpp", "// a.hpp");
    fs.add_alias("/d/b.hpp", "/d/a.hpp");
    let outcome = res_run(
        &mut fs,
        &["/d"],
        &["/d"],
        res_config(ErrorHandling::Ignore, ErrorHandling::Ignore),
        &["/src.cpp"],
    );
    assert_eq!(res_output(outcome), "// a.hpp");
}

#[test]
fn directories_are_not_valid_resolves() {
    let mut fs = Snapshot::new();
    fs.add_file("/src.cpp", "#include <a>");
    fs.add_dir("/d/a");
    let outcome = res_run(
        &mut fs,
        &["/d"],
        &["/d"],
        res_config(ErrorHandling::Ignore, ErrorHandling::Ignore),
        &["/src.cpp"],
    );
    assert_eq!(res_output(outcome), "#include <a>");
}

#[test]
fn unresolvable_include_error_options() {
    let handling_options = [ErrorHandling::Error, ErrorHandling::Warn, ErrorHandling::Ignore];
    // a combined policy applies to both kinds
    for handling in handling_options {
        for (left, right) in [('<', '>'), ('"', '"')] {
            let input = format!("#include {}a{}", left, right);
            let mut fs = Snapshot::new();
            fs.add_file("/src.cpp", &input);
            let outcome = res_run(
                &mut fs,
                &[],
                &[],
                res_config(handling, handling),
                &["/src.cpp"],
            );
            match outcome {
                RunOutcome::Fatal { error, .. } => {
                    assert_eq!(handling, ErrorHandling::Error);
                    assert!(!error.message().is_empty());
                }
                RunOutcome::Done { output, warnings } => {
                    assert_ne!(handling, ErrorHandling::Error);
                    assert_eq!(output, input);
                    if handling == ErrorHandling::Warn {
                        assert!(!warnings.is_empty());
                    } else {
                        assert!(warnings.is_empty());
                    }
                }
                RunOutcome::Need { .. } => panic!("snapshot is complete"),
            }
        }
    }
    // per-kind policies apply to their own kind only
    for quote_handling in handling_options {
        for system_handling in handling_options {
            for (left, right, relevant) in
                [('<', '>', system_handling), ('"', '"', quote_handling)]
            {
                let input = format!("#include {}a{}", left, right);
                let mut fs = Snapshot::new();
                fs.add_file("/src.cpp", &input);
                let outcome = res_run(
                    &mut fs,
                    &[],
                    &[],
                    res_config(quote_handling, system_handling),
                    &["/src.cpp"],
                );
                match outcome {
                    RunOutcome::Fatal { error, .. } => {
                        assert_eq!(relevant, ErrorHandling::Error);
                        assert!(!error.message().is_empty());
                    }
                    RunOutcome::Done { output, warnings } => {
                        assert_ne!(relevant, ErrorHandling::Error);
                        assert_eq!(output, input);
                        if relevant == ErrorHandling::Warn {
                            assert!(!warnings.is_empty());
                        } else {
                            assert!(warnings.is_empty());
                        }
                    }
                    RunOutcome::Need { .. } => panic!("snapshot is complete"),
                }
            }
        }
    }
}

#[test]
fn unreadable_candidate_is_fatal() {
    let mut fs = Snapshot::new();
    fs.add_file("/src.cpp", "#include <a.hpp>");
    fs.add_stat(
        "/d/a.hpp".to_string(),
        cpp_amalgamate::snapshot::PathStat::Unreadable,
    );
    let outcome = res_run(
        &mut fs,
        &["/d"],
        &["/d"],
        res_config(ErrorHandling::Ignore, ErrorHandling::Ignore),
        &["/src.cpp"],
    );
    match outcome {
        RunOutcome::Fatal { error, .. } => {
            assert_eq!(
                error.message(),
                "Failed to canonicalize path: \"/d/a.hpp\""
            );
        }
        _ => panic!("an uncanonicalizable candidate must abort the run"),
    }
}

#[test]
fn unresolvable_message_names_the_reference() {
    let mut fs = Snapshot::new();
    fs.add_file("/src.cpp", "#include <missing.hpp>");
    let outcome = res_run(
        &mut fs,
        &[],
        &[],
        res_config(ErrorHandling::Ignore, ErrorHandling::Error),
        &["/src.cpp"],
    );
    match outcome {
        RunOutcome::Fatal { error, .. } => {
            assert_eq!(error.message(), "Could not resolve <missing.hpp>");
        }
        _ => panic!("the unresolvable reference must abort the run"),
    }
}

#[test]
fn quote_references_try_the_context_directory_first() {
    let mut fs = Snapshot::new();
    fs.add_file("/w/src.cpp", "#include \"local.hpp\"");
    fs.add_file("/w/local.hpp", "// local\n");
    fs.add_file("/d/local.hpp", "// from the search dir\n");
    let outcome = res_run(
        &mut fs,
        &["/d"],
        &["/d"],
        res_config(ErrorHandling::Ignore, ErrorHandling::Ignore),
        &["/w/src.cpp"],
    );
    assert_eq!(res_output(outcome), "// local\n");
}

#[test]
fn context_directory_follows_the_including_file() {
    // the nested file's own directory, not the root's, is its quote context
    let mut fs = Snapshot::new();
    fs.add_file("/w/src.cpp", "#include <deep.hpp>");
    fs.add_file("/d/deep.hpp", "#include \"sibling.hpp\"");
    fs.add_file("/d/sibling.hpp", "// sibling\n");
    let outcome = res_run(
        &mut fs,
        &["/d"],
        &["/d"],
        res_config(ErrorHandling::Error, ErrorHandling::Error),
        &["/w/src.cpp"],
    );
    assert_eq!(res_output(outcome), "// sibling\n");
}

#[test]
fn system_references_skip_the_context_directory() {
    let mut fs = Snapshot::new();
    fs.add_file("/w/src.cpp", "#include <local.hpp>");
    fs.add_file("/w/local.hpp", "// local\n");
    let outcome = res_run(
        &mut fs,
        &[],
        &[],
        res_config(ErrorHandling::Ignore, ErrorHandling::Ignore),
        &["/w/src.cpp"],
    );
    // with no system search directory the reference stays unresolved
    assert_eq!(res_output(outcome), "#include <local.hpp>");
}
