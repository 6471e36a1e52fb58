use intercept::classifier::{Classifier, Invocation};
use intercept::compilation::{Compilation, CompilerPass};
use intercept::trace::Trace;

fn texts(items: &[&str]) -> Vec<String> {
    items.iter().map(|s| s.to_string()).collect()
}

fn trace(cwd: &str, cmd: &[&str]) -> Trace {
    Trace { pid: 42, cwd: cwd.to_string(), cmd: texts(cmd) }
}

fn run(cmd: &[&str]) -> Option<Invocation> {
    Classifier::new().invocation(&trace("/build", cmd))
}

#[test]
fn compile_step_gives_one_entry() {
    let entries = Classifier::new().classify(&trace("/build", &["cc", "-c", "foo.c", "-o", "foo.o"]));
    assert_eq!(
        entries,
        vec![Compilation {
            compiler: "cc".to_string(),
            phase: CompilerPass::Compilation,
            flags: texts(&["-c"]),
            source: "foo.c".to_string(),
            output: Some("foo.o".to_string()),
            cwd: "/build".to_string(),
        }]
    );
}

#[test]
fn earliest_stage_wins() {
    let found = run(&["cc", "-E", "-c", "foo.c"]).unwrap();
    assert_eq!(found.phase, CompilerPass::Preprocessor);
    assert_eq!(found.flags, texts(&["-E", "-c"]));
    let found = run(&["cc", "-c", "-E", "foo.c"]).unwrap();
    assert_eq!(found.phase, CompilerPass::Preprocessor);
    let found = run(&["cc", "-S", "-c", "foo.c"]).unwrap();
    assert_eq!(found.phase, CompilerPass::Compilation);
    let found = run(&["cc", "-S", "foo.c"]).unwrap();
    assert_eq!(found.phase, CompilerPass::Assembly);
    let found = run(&["cc", "foo.c"]).unwrap();
    assert_eq!(found.phase, CompilerPass::Linking);
}

#[test]
fn link_step_has_no_source() {
    let found = run(&["ld", "-o", "a.out", "foo.o", "bar.o"]).unwrap();
    assert_eq!(found.phase, CompilerPass::Linking);
    assert!(found.sources.is_empty());
    assert_eq!(found.output, Some("a.out".to_string()));
    assert_eq!(found.flags, texts(&["foo.o", "bar.o"]));
    assert!(found.entries().is_empty());
    let entries = Classifier::new().classify(&trace("/build", &["ld", "-o", "a.out", "foo.o", "bar.o"]));
    assert!(entries.is_empty());
}

#[test]
fn stage_flag_without_source_is_a_link_step() {
    let found = run(&["cc", "-c", "foo.o"]).unwrap();
    assert_eq!(found.phase, CompilerPass::Linking);
}

#[test]
fn several_sources_give_several_entries() {
    let entries = Classifier::new().classify(&trace("/build", &["cc", "-c", "a.c", "b.c"]));
    assert_eq!(entries.len(), 2);
    assert_eq!(entries[0].source, "a.c");
    assert_eq!(entries[1].source, "b.c");
    for entry in &entries {
        assert_eq!(entry.compiler, "cc");
        assert_eq!(entry.phase, CompilerPass::Compilation);
        assert_eq!(entry.flags, texts(&["-c"]));
        assert_eq!(entry.output, None);
        assert_eq!(entry.cwd, "/build");
    }
}

#[test]
fn a_source_named_twice_gives_one_entry() {
    let entries = Classifier::new().classify(&trace("/build", &["cc", "-c", "a.c", "b.c", "a.c"]));
    assert_eq!(entries.len(), 2);
    assert_eq!(entries[0].source, "a.c");
    assert_eq!(entries[1].source, "b.c");
}

#[test]
fn unknown_program_is_no_compiler_run() {
    assert_eq!(run(&["ls", "-c", "foo.c"]), None);
    assert_eq!(run(&["make", "all"]), None);
    assert!(Classifier::new().classify(&trace("/build", &["ls", "foo.c"])).is_empty());
}

#[test]
fn empty_command_is_no_compiler_run() {
    assert_eq!(run(&[]), None);
}

#[test]
fn compiler_is_found_by_its_base_name() {
    let found = run(&["/usr/bin/gcc", "-c", "x.c"]).unwrap();
    assert_eq!(found.compiler, "/usr/bin/gcc");
    assert_eq!(found.sources, texts(&["x.c"]));
    assert_eq!(run(&["/usr/bin/gcc/", "-c", "x.c"]), None);
    assert_eq!(run(&["gcc/tool", "-c", "x.c"]), None);
    assert!(Classifier::new().recognises("./clang++"));
    assert!(!Classifier::new().recognises("clang+"));
}

#[test]
fn output_option_without_path_is_unreadable() {
    assert_eq!(run(&["cc", "-c", "foo.c", "-o"]), None);
    assert_eq!(run(&["cc", "-o"]), None);
}

#[test]
fn output_option_takes_the_next_argument() {
    let found = run(&["cc", "-c", "-o", "out.c", "in.c"]).unwrap();
    assert_eq!(found.output, Some("out.c".to_string()));
    assert_eq!(found.sources, texts(&["in.c"]));
    assert_eq!(found.flags, texts(&["-c"]));
    let found = run(&["cc", "-o", "-o", "in.c"]).unwrap();
    assert_eq!(found.output, Some("-o".to_string()));
    assert_eq!(found.sources, texts(&["in.c"]));
    let found = run(&["cc", "-o", "-c", "in.c"]).unwrap();
    assert_eq!(found.output, Some("-c".to_string()));
    assert_eq!(found.phase, CompilerPass::Linking);
    assert!(found.flags.is_empty());
}

#[test]
fn last_output_option_wins() {
    let found = run(&["cc", "-o", "a", "-c", "in.c", "-o", "b"]).unwrap();
    assert_eq!(found.output, Some("b".to_string()));
    assert_eq!(found.flags, texts(&["-c"]));
}

#[test]
fn options_are_never_sources() {
    let found = run(&["cc", "-c", "-weird.c", "in.cpp", "-Iinc", "lib.a", ""]).unwrap();
    assert_eq!(found.sources, texts(&["in.cpp"]));
    assert_eq!(found.flags, texts(&["-c", "-weird.c", "-Iinc", "lib.a", ""]));
}

#[test]
fn source_suffixes_are_configurable() {
    let classifier = Classifier { compilers: texts(&["rustc"]), suffixes: texts(&[".rs"]) };
    let found = classifier.invocation(&trace("/w", &["rustc", "-c", "main.rs", "foo.c"])).unwrap();
    assert_eq!(found.sources, texts(&["main.rs"]));
    assert_eq!(found.flags, texts(&["-c", "foo.c"]));
    assert_eq!(classifier.invocation(&trace("/w", &["cc", "main.rs"])), None);
    assert!(classifier.is_source_name("a.rs"));
    assert!(classifier.is_source_name(".rs"));
    assert!(!classifier.is_source_name("a.r"));
    assert!(!classifier.is_source_name("-a.rs"));
}

#[test]
fn default_lists() {
    let classifier = Classifier::new();
    assert_eq!(classifier.compilers, texts(&["cc", "c++", "gcc", "g++", "clang", "clang++", "ld"]));
    assert_eq!(
        classifier.suffixes,
        texts(&[".c", ".cc", ".cpp", ".cxx", ".c++", ".C", ".m", ".mm", ".s", ".S"])
    );
}

#[test]
fn working_directory_is_taken_over() {
    let found = Classifier::new().invocation(&trace("/some/where", &["cc", "-c", "x.c"])).unwrap();
    assert_eq!(found.cwd, "/some/where");
}
