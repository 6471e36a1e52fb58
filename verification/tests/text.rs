use intercept::compilation::{Compilation, CompilerPass};
use intercept::text::{
    begins_with, contains_text, ends_with, ends_with_any, file_name, same_text,
};

fn strings(items: &[&str]) -> Vec<String> {
    items.iter().map(|s| s.to_string()).collect()
}

#[test]
fn same_text_compares_characters() {
    assert!(same_text("", ""));
    assert!(same_text("-o", "-o"));
    assert!(!same_text("-o", "-O"));
    assert!(!same_text("-o", "-o "));
    assert!(!same_text("", "x"));
    assert!(same_text("naïve.c", "naïve.c"));
    assert!(!same_text("naïve.c", "naive.c"));
}

#[test]
fn begins_with_looks_at_the_first_character() {
    assert!(begins_with("-c", '-'));
    assert!(begins_with("/", '/'));
    assert!(!begins_with("", '-'));
    assert!(!begins_with("c-", '-'));
}

#[test]
fn ends_with_looks_at_the_end() {
    assert!(ends_with("foo.c", ".c"));
    assert!(ends_with(".c", ".c"));
    assert!(ends_with("foo.c", ""));
    assert!(!ends_with("c", ".c"));
    assert!(!ends_with("foo.cc", ".c"));
    assert!(!ends_with("foo.c ", ".c"));
    assert!(ends_with("größe.c", "e.c"));
}

#[test]
fn ends_with_any_tries_every_suffix() {
    let suffixes = strings(&[".c", ".cpp"]);
    assert!(ends_with_any("a.c", &suffixes));
    assert!(ends_with_any("a.cpp", &suffixes));
    assert!(!ends_with_any("a.o", &suffixes));
    assert!(!ends_with_any("a.c", &Vec::new()));
}

#[test]
fn file_name_is_what_follows_the_last_slash() {
    assert_eq!(file_name("/usr/bin/cc"), "cc");
    assert_eq!(file_name("cc"), "cc");
    assert_eq!(file_name("./cc"), "cc");
    assert_eq!(file_name("/usr/bin/"), "");
    assert_eq!(file_name(""), "");
    assert_eq!(file_name("/"), "");
    assert_eq!(file_name("a/b/ç++"), "ç++");
}

#[test]
fn contains_text_finds_whole_texts() {
    let list = strings(&["gcc", "cc"]);
    assert!(contains_text(&list, "cc"));
    assert!(contains_text(&list, "gcc"));
    assert!(!contains_text(&list, "c"));
    assert!(!contains_text(&list, ""));
    assert!(!contains_text(&Vec::new(), "cc"));
}

#[test]
fn arguments_are_compiler_flags_source() {
    let entry = Compilation {
        compiler: "/usr/bin/cc".to_string(),
        phase: CompilerPass::Compilation,
        flags: strings(&["-c", "-Iinc", "-DX=1"]),
        source: "foo.c".to_string(),
        output: Some("foo.o".to_string()),
        cwd: "/build".to_string(),
    };
    assert_eq!(entry.arguments(), strings(&["/usr/bin/cc", "-c", "-Iinc", "-DX=1", "foo.c"]));
    let bare = Compilation {
        compiler: "cc".to_string(),
        phase: CompilerPass::Linking,
        flags: Vec::new(),
        source: "foo.c".to_string(),
        output: None,
        cwd: "/build".to_string(),
    };
    assert_eq!(bare.arguments(), strings(&["cc", "foo.c"]));
}

#[test]
fn entries_compare_by_source_and_directory() {
    let one = Compilation {
        compiler: "cc".to_string(),
        phase: CompilerPass::Compilation,
        flags: strings(&["-c"]),
        source: "foo.c".to_string(),
        output: None,
        cwd: "/build".to_string(),
    };
    let mut other = one.duplicate();
    assert_eq!(other, one);
    other.flags = strings(&["-S"]);
    other.phase = CompilerPass::Assembly;
    other.compiler = "gcc".to_string();
    assert!(one.same_key(&other));
    other.cwd = "/elsewhere".to_string();
    assert!(!one.same_key(&other));
    other.cwd = "/build".to_string();
    other.source = "bar.c".to_string();
    assert!(!one.same_key(&other));
}
