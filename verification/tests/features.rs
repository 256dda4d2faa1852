use cpp_amalgamate::engine::{run, Config, RunOutcome};
use cpp_amalgamate::errors::{ErrorHandling, ErrorHandlingOpts, Query};
use cpp_amalgamate::filter::InliningFilter;
use cpp_amalgamate::resolve::IncludeResolver;
use cpp_amalgamate::snapshot::Snapshot;

fn feat_run(fs: &mut Snapshot, dirs: &[&str], config: &Config, roots: &[&str]) -> String {
    let dirs_v: Vec<String> = dirs.iter().map(|d| d.to_string()).collect();
    let roots_v: Vec<String> = roots.iter().map(|r| r.to_string()).collect();
    loop {
        let resolver = IncludeResolver::new(dirs_v.clone(), dirs_v.clone());
        let filter = InliningFilter::new(Vec::new(), Vec::new());
        let config_copy = Config {
            line_directives: config.line_directives,
            trim_blank_lines: config.trim_blank_lines,
            begin_note: config.begin_note.clone(),
            end_note: config.end_note.clone(),
            error_handling_opts: config.error_handling_opts,
        };
        match run(fs, resolver, filter, config_copy, &roots_v) {
            RunOutcome::Need { query } => match query {
                Query::Stat { path } => fs.add_missing(&path),
                Query::Content { canon } => panic!("content missing for {}", canon),
            },
            RunOutcome::Done { output, .. } => return output,
            RunOutcome::Fatal { error, .. } => panic!("run failed: {}", error.message()),
        }
    }
}

fn feat_config() -> Config {
    Config {
        line_directives: false,
        trim_blank_lines: false,
        begin_note: None,
        end_note: None,
        error_handling_opts: ErrorHandlingOpts {
            cyclic_include: ErrorHandling::Error,
            unresolvable_quote_include: ErrorHandling::Ignore,
            unresolvable_system_include: ErrorHandling::Ignore,
        },
    }
}

#[test]
fn trimming_keeps_interior_blank_runs() {
    let mut fs = Snapshot::new();
    fs.add_file("/src.cpp", "x\n\n\ny\n");
    let mut config = feat_config();
    config.trim_blank_lines = true;
    let output = feat_run(&mut fs, &[], &config, &["/src.cpp"]);
    assert_eq!(output, "x\n\n\ny\n");
}

#[test]
fn trimming_drops_leading_and_trailing_blanks() {
    let mut fs = Snapshot::new();
    fs.add_file("/src.cpp", "\n \t\nx\n\n\n");
    let mut config = feat_config();
    config.trim_blank_lines = true;
    let output = feat_run(&mut fs, &[], &config, &["/src.cpp"]);
    assert_eq!(output, "x\n");
}

#[test]
fn trimming_off_keeps_every_blank() {
    let mut fs = Snapshot::new();
    fs.add_file("/src.cpp", "\nx\n\n");
    let output = feat_run(&mut fs, &[], &feat_config(), &["/src.cpp"]);
    assert_eq!(output, "\nx\n\n");
}

#[test]
fn nested_output_counts_for_leading_trim() {
    let mut fs = Snapshot::new();
    fs.add_file("/src.cpp", "\n#include <c.hpp>\nx\n");
    fs.add_file("/d/c.hpp", "c\n");
    let mut config = feat_config();
    config.trim_blank_lines = true;
    let output = feat_run(&mut fs, &["/d"], &config, &["/src.cpp"]);
    assert_eq!(output, "c\nx\n");
}

#[test]
fn blanks_before_nested_output_are_kept() {
    let mut fs = Snapshot::new();
    fs.add_file("/src.cpp", "x\n\n#include <c.hpp>\n");
    fs.add_file("/d/c.hpp", "c\n");
    let mut config = feat_config();
    config.trim_blank_lines = true;
    let output = feat_run(&mut fs, &["/d"], &config, &["/src.cpp"]);
    assert_eq!(output, "x\n\nc\n");
}

#[test]
fn blanks_before_silent_nested_file_can_turn_trailing() {
    let mut fs = Snapshot::new();
    fs.add_file("/src.cpp", "x\n\n#include <e.hpp>\n");
    fs.add_file("/d/e.hpp", "#pragma once\n");
    let mut config = feat_config();
    config.trim_blank_lines = true;
    let output = feat_run(&mut fs, &["/d"], &config, &["/src.cpp"]);
    assert_eq!(output, "x\n");
}

#[test]
fn notes_wrap_a_contributing_nested_file() {
    let mut fs = Snapshot::new();
    fs.add_file("/src.cpp", "#include <a.hpp>\n");
    fs.add_file("/d/a.hpp", "body\n");
    let mut config = feat_config();
    config.begin_note = Some("// begin {file} ({path})".to_string());
    config.end_note = Some("// end {file}".to_string());
    let output = feat_run(&mut fs, &["/d"], &config, &["/src.cpp"]);
    assert_eq!(output, "// begin a.hpp (/d/a.hpp)\nbody\n// end a.hpp\n");
}

#[test]
fn notes_nest_outermost_first() {
    let mut fs = Snapshot::new();
    fs.add_file("/src.cpp", "#include <a.hpp>\n");
    fs.add_file("/d/a.hpp", "#include <b.hpp>\n");
    fs.add_file("/d/b.hpp", "x\n");
    let mut config = feat_config();
    config.begin_note = Some("[{file}".to_string());
    config.end_note = Some("]{file}".to_string());
    let output = feat_run(&mut fs, &["/d"], &config, &["/src.cpp"]);
    assert_eq!(output, "[a.hpp\n[b.hpp\nx\n]b.hpp\n]a.hpp\n");
}

#[test]
fn silent_nested_file_gets_no_wrapper() {
    let mut fs = Snapshot::new();
    fs.add_file("/src.cpp", "x\n#include <e.hpp>\n");
    fs.add_file("/d/e.hpp", "#pragma once\n");
    let mut config = feat_config();
    config.begin_note = Some("// begin {file}".to_string());
    config.end_note = Some("// end {file}".to_string());
    let output = feat_run(&mut fs, &["/d"], &config, &["/src.cpp"]);
    assert_eq!(output, "x\n");
}

#[test]
fn root_file_gets_no_wrapper() {
    let mut fs = Snapshot::new();
    fs.add_file("/src.cpp", "x\n");
    let mut config = feat_config();
    config.begin_note = Some("// begin {file}".to_string());
    config.end_note = Some("// end {file}".to_string());
    let output = feat_run(&mut fs, &[], &config, &["/src.cpp"]);
    assert_eq!(output, "x\n");
}
