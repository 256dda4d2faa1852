use cpp_amalgamate::engine::{run, Config, RunOutcome};
use cpp_amalgamate::errors::{ErrorHandling, ErrorHandlingOpts, Query};
use cpp_amalgamate::filter::{InliningFilter, InvertibleGlob};
use cpp_amalgamate::resolve::IncludeResolver;
use cpp_amalgamate::snapshot::Snapshot;

fn flt_config() -> Config {
    Config {
        line_directives: false,
        trim_blank_lines: false,
        begin_note: None,
        end_note: None,
        error_handling_opts: ErrorHandlingOpts {
            cyclic_include: ErrorHandling::Error,
            unresolvable_quote_include: ErrorHandling::Ignore,
            unresolvable_system_include: ErrorHandling::Ignore,
        },
    }
}

fn flt_globs(patterns: &[&str]) -> Vec<InvertibleGlob> {
    patterns
        .iter()
        .map(|p| InvertibleGlob::from_str(p).unwrap())
        .collect()
}

fn flt_run(
    fs: &mut Snapshot,
    dirs: &[&str],
    quote_globs: &[&str],
    system_globs: &[&str],
    roots: &[&str],
) -> String {
    let dirs_v: Vec<String> = dirs.iter().map(|d| d.to_string()).collect();
    let roots_v: Vec<String> = roots.iter().map(|r| r.to_string()).collect();
    loop {
        let resolver = IncludeResolver::new(dirs_v.clone(), dirs_v.clone());
        let filter = InliningFilter::new(flt_globs(quote_globs), flt_globs(system_globs));
        match run(fs, resolver, filter, flt_config(), &roots_v) {
            RunOutcome::Need { query } => match query {
                Query::Stat { path } => fs.add_missing(&path),
                Query::Content { canon } => panic!("content missing for {}", canon),
            },
            RunOutcome::Done { output, .. } => return output,
            RunOutcome::Fatal { error, .. } => panic!("run failed: {}", error.message()),
        }
    }
}

#[test]
fn blacklist_filters() {
    let mut fs = Snapshot::new();
    fs.add_file("/src.cpp", "#include <a.hpp>\n#include <b.hpp>\n");
    fs.add_file("/d/a.hpp", "// a.hpp\n");
    fs.add_file("/d/b.hpp", "// b.hpp\n");
    let globs = ["**/b.hpp"];
    let output = flt_run(&mut fs, &["/d"], &globs, &globs, &["/src.cpp"]);
    assert_eq!(output, "// a.hpp\n#include <b.hpp>\n");
}

#[test]
fn whilelist_filters() {
    let mut fs = Snapshot::new();
    fs.add_file("/src.cpp", "#include <a.hpp>\n#include <b.hpp>\n");
    fs.add_file("/d/a.hpp", "// a.hpp\n");
    fs.add_file("/d/b.hpp", "// b.hpp\n");
    let globs = ["**", "!**/b.hpp"];
    let output = flt_run(&mut fs, &["/d"], &globs, &globs, &["/src.cpp"]);
    assert_eq!(output, "#include <a.hpp>\n// b.hpp\n");
}

#[test]
fn quote_and_system_only_filters() {
    let mut fs = Snapshot::new();
    fs.add_file(
        "/src.cpp",
        "#include <a.hpp>\n#include <b.hpp>\n#include \"a.hpp\"\n#include \"b.hpp\"\n",
    );
    fs.add_file("/d/a.hpp", "// a.hpp\n");
    fs.add_file("/d/b.hpp", "// b.hpp\n");
    // the shared pattern first, then the kind-specific one, as they stood on
    // the command line
    let output = flt_run(
        &mut fs,
        &["/d"],
        &["**", "!**/b.hpp"],
        &["**", "!**/a.hpp"],
        &["/src.cpp"],
    );
    assert_eq!(
        output,
        "// a.hpp\n#include <b.hpp>\n#include \"a.hpp\"\n// b.hpp\n"
    );
}

#[test]
fn filter_precedence() {
    let mut fs = Snapshot::new();
    fs.add_file("/src.cpp", "#include <a/b/c.hpp>");
    fs.add_file("/d/a/b/c.hpp", "arst");
    let globs = ["**/a/**", "!**/a/b/**", "**/a/b/c.hpp"];
    let output = flt_run(&mut fs, &["/d"], &globs, &globs, &["/src.cpp"]);
    assert_eq!(output, "#include <a/b/c.hpp>");
}

#[test]
fn invalid_pattern_is_refused() {
    assert!(InvertibleGlob::from_str("a{b").is_err());
    assert!(InvertibleGlob::from_str("!a{b").is_err());
    // over the length bound
    let long = "a".repeat(5000);
    assert!(InvertibleGlob::from_str(&long).is_err());
    let at_bound = "a".repeat(2048);
    assert!(InvertibleGlob::from_str(&at_bound).is_ok());
    // nesting beyond what the translated pattern's builder takes is an
    // error, not an abort
    let deep = format!("{}a{}", "{".repeat(300), "}".repeat(300));
    assert!(InvertibleGlob::from_str(&deep).is_err());
    let g = InvertibleGlob::from_str("!**/x.hpp").unwrap();
    assert!(g.is_inverted());
    assert_eq!(g.pattern_str(), "**/x.hpp");
    let h = InvertibleGlob::from_str("**/y.hpp").unwrap();
    assert!(!h.is_inverted());
    assert_eq!(h.pattern_str(), "**/y.hpp");
}
