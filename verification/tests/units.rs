use cpp_amalgamate::engine::{Processor, StepRes};
use cpp_amalgamate::errors::{default_error_handling, ErrorHandling, ErrorLevel};
use cpp_amalgamate::filter::InliningFilter;
use cpp_amalgamate::resolve::IncludeResolver;
use cpp_amalgamate::snapshot::Snapshot;
use cpp_amalgamate::merge::merge_by_cli_order;
use cpp_amalgamate::resolve::{join_path_exec, parent_dir_exec};
use cpp_amalgamate::text::{split_lines_exec, str_eq, subst_exec, u64_to_dec};

#[test]
fn error_handling_names() {
    assert_eq!(ErrorHandling::from_str("error"), Ok(ErrorHandling::Error));
    assert_eq!(ErrorHandling::from_str("warn"), Ok(ErrorHandling::Warn));
    assert_eq!(ErrorHandling::from_str("ignore"), Ok(ErrorHandling::Ignore));
    assert!(ErrorHandling::from_str("loud").is_err());
    assert_eq!(ErrorLevel::from_str("error"), Ok(ErrorLevel::Error));
    assert_eq!(ErrorLevel::from_str("warn"), Ok(ErrorLevel::Warn));
    assert_eq!(ErrorLevel::from_str("ignore"), Ok(ErrorLevel::Ignore));
    assert!(ErrorLevel::from_str("").is_err());
}

#[test]
fn default_policies() {
    let d = default_error_handling();
    assert_eq!(d.cyclic_include, ErrorHandling::Error);
    assert_eq!(d.unresolvable_quote_include, ErrorHandling::Ignore);
    assert_eq!(d.unresolvable_system_include, ErrorHandling::Ignore);
}

#[test]
fn merge_keeps_cli_order() {
    let a: Vec<(u64, &str)> = vec![(1, "a"), (4, "d")];
    let b: Vec<(u64, &str)> = vec![(2, "b"), (3, "c"), (6, "e")];
    let merged = merge_by_cli_order(a, b);
    let values: Vec<&str> = merged.into_iter().map(|(_, v)| v).collect();
    assert_eq!(values, vec!["a", "b", "c", "d", "e"]);
}

#[test]
fn merge_tie_takes_second_list_first() {
    let a: Vec<(u64, u32)> = vec![(1, 10)];
    let b: Vec<(u64, u32)> = vec![(1, 20)];
    let merged = merge_by_cli_order(a, b);
    assert_eq!(merged, vec![(1, 20), (1, 10)]);
}

#[test]
fn line_splitting_matches_a_line_reader() {
    assert_eq!(split_lines_exec(""), Vec::<String>::new());
    assert_eq!(split_lines_exec("arst"), vec!["arst".to_string()]);
    assert_eq!(split_lines_exec("arst\n"), vec!["arst\n".to_string()]);
    assert_eq!(
        split_lines_exec("a\n\nb"),
        vec!["a\n".to_string(), "\n".to_string(), "b".to_string()]
    );
}

#[test]
fn decimal_rendering() {
    assert_eq!(u64_to_dec(0), "0");
    assert_eq!(u64_to_dec(7), "7");
    assert_eq!(u64_to_dec(10), "10");
    assert_eq!(u64_to_dec(90107), "90107");
}

#[test]
fn template_substitution() {
    assert_eq!(subst_exec("x {file} y {path} z", "a.hpp", "/d/a.hpp"), "x a.hpp y /d/a.hpp z");
    assert_eq!(subst_exec("{file}{file}", "q", "c"), "qq");
    assert_eq!(subst_exec("plain", "q", "c"), "plain");
    assert_eq!(subst_exec("", "q", "c"), "");
}

#[test]
fn path_helpers() {
    assert_eq!(join_path_exec("/d", "a.hpp"), "/d/a.hpp");
    assert_eq!(join_path_exec("/d/", "a.hpp"), "/d/a.hpp");
    assert_eq!(join_path_exec("/d", "/abs.hpp"), "/abs.hpp");
    assert_eq!(join_path_exec("", "a.hpp"), "a.hpp");
    assert_eq!(parent_dir_exec("/d/a.hpp"), "/d");
    assert_eq!(parent_dir_exec("/a.hpp"), "/");
    assert_eq!(parent_dir_exec("a.hpp"), "");
    assert!(str_eq("same", "same"));
    assert!(!str_eq("same", "other"));
}

#[test]
fn processor_processes_roots_one_by_one() {
    let mut fs = Snapshot::new();
    fs.add_file("/a.cpp", "one\n");
    fs.add_file("/b.cpp", "two\n");
    let resolver = IncludeResolver::new(Vec::new(), Vec::new());
    let filter = InliningFilter::new(Vec::new(), Vec::new());
    let mut p = Processor::new(resolver, false, filter, default_error_handling(), &fs);
    assert!(matches!(p.process(&fs, "/a.cpp"), StepRes::Done));
    assert_eq!(p.out, "one\n");
    assert!(matches!(p.process(&fs, "/b.cpp"), StepRes::Done));
    assert_eq!(p.out, "one\ntwo\n");
    // the same root again is skipped silently: the whole-run scope of
    // deduplication
    assert!(matches!(p.process(&fs, "/a.cpp"), StepRes::Done));
    assert_eq!(p.out, "one\ntwo\n");
}
