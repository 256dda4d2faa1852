use cpp_amalgamate::engine::{run, Config, RunOutcome};
use cpp_amalgamate::errors::{ErrorHandling, ErrorHandlingOpts, RunError};
use cpp_amalgamate::filter::InliningFilter;
use cpp_amalgamate::resolve::IncludeResolver;
use cpp_amalgamate::snapshot::Snapshot;

fn inl_config(line_directives: bool, cyclic: ErrorHandling) -> Config {
    Config {
        line_directives,
        trim_blank_lines: false,
        begin_note: None,
        end_note: None,
        error_handling_opts: ErrorHandlingOpts {
            cyclic_include: cyclic,
            unresolvable_quote_include: ErrorHandling::Ignore,
            unresolvable_system_include: ErrorHandling::Ignore,
        },
    }
}

/// Runs against the snapshot, answering every stat query the snapshot does
/// not know with "missing", as a caller backed by a real file system would.
fn inl_run(
    fs: &mut Snapshot,
    dirs: &[&str],
    config: Config,
    roots: &[&str],
) -> (RunOutcome, Vec<RunError>) {
    let dirs_v: Vec<String> = dirs.iter().map(|d| d.to_string()).collect();
    let roots_v: Vec<String> = roots.iter().map(|r| r.to_string()).collect();
    loop {
        let resolver = IncludeResolver::new(dirs_v.clone(), dirs_v.clone());
        let filter = InliningFilter::new(Vec::new(), Vec::new());
        let config_copy = Config {
            line_directives: config.line_directives,
            trim_blank_lines: config.trim_blank_lines,
            begin_note: config.begin_note.clone(),
            end_note: config.end_note.clone(),
            error_handling_opts: config.error_handling_opts,
        };
        match run(fs, resolver, filter, config_copy, &roots_v) {
            RunOutcome::Need { query } => match query {
                cpp_amalgamate::errors::Query::Stat { path } => {
                    fs.add_missing(&path);
                }
                cpp_amalgamate::errors::Query::Content { canon } => {
                    panic!("content missing for {}", canon);
                }
            },
            RunOutcome::Done { output, warnings } => {
                return (RunOutcome::Done { output, warnings: Vec::new() }, warnings);
            }
            RunOutcome::Fatal { partial, warnings, error } => {
                return (
                    RunOutcome::Fatal { partial, warnings: Vec::new(), error },
                    warnings,
                );
            }
        }
    }
}

fn inl_output(outcome: &RunOutcome) -> String {
    match outcome {
        RunOutcome::Done { output, .. } => output.clone(),
        _ => panic!("run was expected to go through"),
    }
}

#[test]
fn cyclic_includes() {
    for handling in [None, Some("error"), Some("warn"), Some("ignore")] {
        let mut fs = Snapshot::new();
        fs.add_file("/src.cpp", "#include <a.hpp>");
        fs.add_file("/d/a.hpp", "#include <b.hpp>");
        fs.add_file("/d/b.hpp", "#include <a.hpp>");
        let cyclic = match handling {
            None => ErrorHandling::Error,
            Some(h) => ErrorHandling::from_str(h).unwrap(),
        };
        let (outcome, warnings) =
            inl_run(&mut fs, &["/d"], inl_config(false, cyclic), &["/src.cpp"]);
        let handling = handling.unwrap_or("error");
        match outcome {
            RunOutcome::Fatal { error, .. } => {
                assert_eq!(handling, "error");
                assert!(!error.message().is_empty());
            }
            RunOutcome::Done { output, .. } => {
                assert_ne!(handling, "error");
                // the re-entering reference line stays as literal text
                assert_eq!(output, "#include <a.hpp>");
                if handling == "warn" {
                    assert!(!warnings.is_empty());
                } else {
                    // a silently tolerated cycle differs only in not
                    // recording the diagnostic
                    assert!(warnings.is_empty());
                }
            }
            RunOutcome::Need { .. } => panic!("snapshot is complete"),
        }
    }
}

#[test]
fn cyclic_include_back_to_source_file() {
    let mut fs = Snapshot::new();
    fs.add_file("/d/a.hpp", "#include <a.hpp>");
    fs.add_file("/d/b.hpp", "#include <b.hpp>");
    let (outcome, _) = inl_run(
        &mut fs,
        &["/d"],
        inl_config(false, ErrorHandling::Error),
        &["/d/a.hpp"],
    );
    assert!(matches!(outcome, RunOutcome::Fatal { .. }));
}

#[test]
fn already_included_source_file() {
    let mut fs = Snapshot::new();
    fs.add_file("/src.cpp", "#include <a.hpp>");
    fs.add_file("/d/a.hpp", "arst");
    let (outcome, _) = inl_run(
        &mut fs,
        &["/d"],
        inl_config(false, ErrorHandling::Error),
        &["/src.cpp", "/d/a.hpp"],
    );
    assert_eq!(inl_output(&outcome), "arst");
}

#[test]
fn include_headers_at_most_once() {
    let mut fs = Snapshot::new();
    fs.add_file("/src.cpp", "#include <a.hpp>\n#include <b.hpp>\n");
    fs.add_file("/d/a.hpp", "#include <b.hpp>");
    fs.add_file("/d/b.hpp", "arst\n");
    let (outcome, _) = inl_run(
        &mut fs,
        &["/d"],
        inl_config(false, ErrorHandling::Error),
        &["/src.cpp"],
    );
    assert_eq!(inl_output(&outcome), "arst\n");
}

#[test]
fn file_identity_considers_symlinks() {
    let mut fs = Snapshot::new();
    fs.add_file("/src.cpp", "#include <a.hpp>\n#include <b.hpp>\n");
    fs.add_file("/d/a.hpp", "arst\n");
    fs.add_alias("/d/b.hpp", "/d/a.hpp");
    let (outcome, _) = inl_run(
        &mut fs,
        &["/d"],
        inl_config(false, ErrorHandling::Error),
        &["/src.cpp"],
    );
    assert_eq!(inl_output(&outcome), "arst\n");
}

#[test]
fn weird_include_statements() {
    let mut fs = Snapshot::new();
    fs.add_file("/src.cpp", "# \t include \t <a.hpp> \t ");
    fs.add_file("/d/a.hpp", "arst");
    let (outcome, _) = inl_run(
        &mut fs,
        &["/d"],
        inl_config(false, ErrorHandling::Error),
        &["/src.cpp"],
    );
    assert_eq!(inl_output(&outcome), "arst");
}

#[test]
fn line_directives() {
    let mut fs = Snapshot::new();
    fs.add_file(
        "/src.cpp",
        "arst\n#include <a.hpp>\n\narst\n#include <b.hpp>\narst\n",
    );
    fs.add_file("/d/a.hpp", "#include <b.hpp>\n");
    fs.add_file("/d/b.hpp", "qwfp\n");
    let (outcome, _) = inl_run(
        &mut fs,
        &["/d"],
        inl_config(true, ErrorHandling::Error),
        &["/src.cpp"],
    );
    let expected = format!(
        "#line 1 \"{src}\"\narst\n#line 1 \"{b}\"\nqwfp\n#line 3 \"{src}\"\n\narst\n#line 6 \"{src}\"\narst\n",
        src = "/src.cpp",
        b = "/d/b.hpp"
    );
    assert_eq!(inl_output(&outcome), expected);
}

#[test]
fn pragma_once_removal() {
    let mut fs = Snapshot::new();
    fs.add_file("/src.cpp", "#include <a.hpp>\n#include <b.hpp>\n");
    fs.add_file("/d/a.hpp", "#pragma once\n");
    fs.add_file("/d/b.hpp", "# \tpragma\t  once  \t\n");
    let (outcome, _) = inl_run(
        &mut fs,
        &["/d"],
        inl_config(false, ErrorHandling::Error),
        &["/src.cpp"],
    );
    assert_eq!(inl_output(&outcome), "");
}

#[test]
fn multiple_source_files() {
    let mut fs = Snapshot::new();
    fs.add_file("/one/src.cpp", "a");
    fs.add_file("/two/src.cpp", "b");
    fs.add_file("/three/src.cpp", "c");
    let (outcome, _) = inl_run(
        &mut fs,
        &[],
        inl_config(false, ErrorHandling::Error),
        &["/one/src.cpp", "/two/src.cpp", "/three/src.cpp"],
    );
    assert_eq!(inl_output(&outcome), "abc");
}

#[test]
fn misc_multiple_source_files() {
    let mut fs = Snapshot::new();
    fs.add_file("/one/src.cpp", "a");
    fs.add_file("/two/src.cpp", "b");
    fs.add_file("/three/src.cpp", "c");
    let (outcome, _) = inl_run(
        &mut fs,
        &[],
        inl_config(false, ErrorHandling::Error),
        &["/one/src.cpp", "/two/src.cpp", "/three/src.cpp"],
    );
    assert_eq!(inl_output(&outcome), "abc");
}

#[test]
fn missing_root_is_fatal() {
    let mut fs = Snapshot::new();
    fs.add_missing("/src.cpp");
    let (outcome, _) = inl_run(
        &mut fs,
        &[],
        inl_config(false, ErrorHandling::Error),
        &["/src.cpp"],
    );
    match outcome {
        RunOutcome::Fatal { error, .. } => {
            assert_eq!(
                error.message(),
                "Failed to canonicalize path: \"/src.cpp\""
            );
        }
        _ => panic!("a missing root must abort the run"),
    }
}

#[test]
fn root_directory_is_fatal() {
    let mut fs = Snapshot::new();
    fs.add_dir("/src.cpp");
    let (outcome, _) = inl_run(
        &mut fs,
        &[],
        inl_config(false, ErrorHandling::Error),
        &["/src.cpp"],
    );
    match outcome {
        RunOutcome::Fatal { error, .. } => {
            assert_eq!(error.message(), "Failed to open file \"/src.cpp\"");
        }
        _ => panic!("a directory root must abort the run"),
    }
}

#[test]
fn cycle_report_lists_traversal_order() {
    let mut fs = Snapshot::new();
    fs.add_file("/src.cpp", "#include <a.hpp>");
    fs.add_file("/d/a.hpp", "#include <b.hpp>");
    fs.add_file("/d/b.hpp", "#include <a.hpp>");
    let (outcome, _) = inl_run(
        &mut fs,
        &["/d"],
        inl_config(false, ErrorHandling::Error),
        &["/src.cpp"],
    );
    match outcome {
        RunOutcome::Fatal { error, .. } => {
            assert_eq!(
                error.message(),
                "Cyclic include detected:\n\t/d/a.hpp\n\t/d/b.hpp\n"
            );
        }
        _ => panic!("the cycle must abort the run"),
    }
}

#[test]
fn partial_output_stays_on_fatal_error() {
    let mut fs = Snapshot::new();
    fs.add_file("/src.cpp", "before\n#include <a.hpp>\nafter\n");
    fs.add_file("/d/a.hpp", "#include <a.hpp>");
    let (outcome, _) = inl_run(
        &mut fs,
        &["/d"],
        inl_config(false, ErrorHandling::Error),
        &["/src.cpp"],
    );
    match outcome {
        RunOutcome::Fatal { partial, .. } => {
            assert_eq!(partial, "before\n");
        }
        _ => panic!("the self-cycle must abort the run"),
    }
}

#[test]
fn self_cycle_reports_single_file() {
    let mut fs = Snapshot::new();
    fs.add_file("/src.cpp", "#include <a.hpp>");
    fs.add_file("/d/a.hpp", "#include <a.hpp>");
    let (outcome, _) = inl_run(
        &mut fs,
        &["/d"],
        inl_config(false, ErrorHandling::Error),
        &["/src.cpp"],
    );
    match outcome {
        RunOutcome::Fatal { error, .. } => {
            assert_eq!(error.message(), "Cyclic include detected:\n\t/d/a.hpp\n");
        }
        _ => panic!("the self-cycle must abort the run"),
    }
}
