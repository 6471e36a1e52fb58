use vstd::prelude::*;
use crate::compilation::{Compilation, CompilationView, CompilerPass};
use crate::text::{
    base_name, begins_with, contains_text, copy_optional_text, copy_texts, ends_with_any,
    file_name, has_any_suffix, push_text, same_text, starts_with_char,
};
use crate::trace::{Trace, TraceView};

verus! {

/// A token names a source file where it is no option and ends in one of the
/// source suffixes.
pub open spec fn looks_like_source(token: Seq<char>, suffixes: Seq<Seq<char>>) -> bool {
    !starts_with_char(token, '-') && has_any_suffix(token, suffixes)
}

/// The argument at `i` is the path that an output option just before it names.
/// An output option takes the argument that follows it, whatever that is, so
/// the arguments pair up from the left.
pub open spec fn is_output_path(args: Seq<Seq<char>>, i: int) -> bool
    decreases i,
{
    if i <= 0 || i >= args.len() {
        false
    } else {
        args[i - 1] == "-o"@ && !is_output_path(args, i - 1)
    }
}

/// The argument at `i` is an output option: `-o`, unless it is itself the
/// path of one.
pub open spec fn is_output_flag(args: Seq<Seq<char>>, i: int) -> bool {
    0 <= i < args.len() && args[i] == "-o"@ && !is_output_path(args, i)
}

/// The argument at `i` is a source file.
pub open spec fn is_source(args: Seq<Seq<char>>, suffixes: Seq<Seq<char>>, i: int) -> bool {
    &&& 0 <= i < args.len()
    &&& !is_output_path(args, i)
    &&& !is_output_flag(args, i)
    &&& looks_like_source(args[i], suffixes)
}

/// The argument at `i` is a flag: neither part of an output pair nor a source file.
pub open spec fn is_flag(args: Seq<Seq<char>>, suffixes: Seq<Seq<char>>, i: int) -> bool {
    &&& 0 <= i < args.len()
    &&& !is_output_path(args, i)
    &&& !is_output_flag(args, i)
    &&& !looks_like_source(args[i], suffixes)
}

/// The flags among the first `n` arguments, in order.
pub open spec fn flags_among(args: Seq<Seq<char>>, suffixes: Seq<Seq<char>>, n: nat) -> Seq<
    Seq<char>,
>
    decreases n,
{
    if n == 0 {
        Seq::empty()
    } else {
        let before = flags_among(args, suffixes, (n - 1) as nat);
        if is_flag(args, suffixes, n - 1) {
            before.push(args[n - 1])
        } else {
            before
        }
    }
}

/// The distinct source files among the first `n` arguments, each where it
/// first occurs.
pub open spec fn sources_among(args: Seq<Seq<char>>, suffixes: Seq<Seq<char>>, n: nat) -> Seq<
    Seq<char>,
>
    decreases n,
{
    if n == 0 {
        Seq::empty()
    } else {
        let before = sources_among(args, suffixes, (n - 1) as nat);
        if is_source(args, suffixes, n - 1) && !before.contains(args[n - 1]) {
            before.push(args[n - 1])
        } else {
            before
        }
    }
}

/// The output path that the first `n` arguments name: that of the last output
/// pair among them.
pub open spec fn output_among(args: Seq<Seq<char>>, n: nat) -> Option<Seq<char>>
    decreases n,
{
    if n == 0 {
        None
    } else if is_output_path(args, n - 1) {
        Some(args[n - 1])
    } else {
        output_among(args, (n - 1) as nat)
    }
}

/// The arguments end in an output option that names no path.
pub open spec fn dangling_output(args: Seq<Seq<char>>) -> bool {
    is_output_flag(args, args.len() - 1)
}

/// The stage at which the flags stop the pipeline. The earliest stage asked
/// for wins; without a source file there is only the link step.
pub open spec fn phase_of(flags: Seq<Seq<char>>, sources: Seq<Seq<char>>) -> CompilerPass {
    if sources.len() == 0 {
        CompilerPass::Linking
    } else if flags.contains("-E"@) {
        CompilerPass::Preprocessor
    } else if flags.contains("-c"@) {
        CompilerPass::Compilation
    } else if flags.contains("-S"@) {
        CompilerPass::Assembly
    } else {
        CompilerPass::Linking
    }
}

/// Every argument has exactly one role: flag, source file, output option or
/// output path.
pub proof fn lemma_roles_partition(args: Seq<Seq<char>>, suffixes: Seq<Seq<char>>, i: int)
    requires
        0 <= i < args.len(),
    ensures
        is_flag(args, suffixes, i) || is_source(args, suffixes, i) || is_output_flag(args, i)
            || is_output_path(args, i),
        !(is_flag(args, suffixes, i) && is_source(args, suffixes, i)),
        !(is_flag(args, suffixes, i) && is_output_flag(args, i)),
        !(is_flag(args, suffixes, i) && is_output_path(args, i)),
        !(is_source(args, suffixes, i) && is_output_flag(args, i)),
        !(is_source(args, suffixes, i) && is_output_path(args, i)),
        !(is_output_flag(args, i) && is_output_path(args, i)),
        is_output_path(args, i) <==> is_output_flag(args, i - 1),
{
}

/// The text is one of the first `n` arguments, in the role of a flag.
pub open spec fn occurs_as_flag(
    args: Seq<Seq<char>>,
    suffixes: Seq<Seq<char>>,
    n: nat,
    text: Seq<char>,
) -> bool {
    exists|i: int| 0 <= i < n && is_flag(args, suffixes, i) && #[trigger] args[i] == text
}

/// The text is one of the first `n` arguments, in the role of a source file.
pub open spec fn occurs_as_source(
    args: Seq<Seq<char>>,
    suffixes: Seq<Seq<char>>,
    n: nat,
    text: Seq<char>,
) -> bool {
    exists|i: int| 0 <= i < n && is_source(args, suffixes, i) && #[trigger] args[i] == text
}

/// The flags are the arguments in the role of a flag: the source files and
/// the output pairs are not among them.
pub proof fn lemma_flags_among(args: Seq<Seq<char>>, suffixes: Seq<Seq<char>>, n: nat)
    requires
        n <= args.len(),
    ensures
        flags_among(args, suffixes, n).len() <= n,
        forall|text: Seq<char>|
            #[trigger] flags_among(args, suffixes, n).contains(text) <==> occurs_as_flag(
                args,
                suffixes,
                n,
                text,
            ),
    decreases n,
{
    if n > 0 {
        let m = (n - 1) as nat;
        let before = flags_among(args, suffixes, m);
        let now = flags_among(args, suffixes, n);
        lemma_flags_among(args, suffixes, m);
        assert forall|text: Seq<char>| #[trigger]
            now.contains(text) <==> occurs_as_flag(args, suffixes, n, text) by {
            if now.contains(text) {
                let k = choose|k: int| 0 <= k < now.len() && now[k] == text;
                if k < before.len() {
                    assert(before[k] == text);
                    assert(before.contains(text));
                    let i = choose|i: int|
                        0 <= i < m && is_flag(args, suffixes, i) && #[trigger] args[i] == text;
                    assert(0 <= i < n && is_flag(args, suffixes, i) && args[i] == text);
                } else {
                    assert(is_flag(args, suffixes, n - 1) && args[n - 1] == text);
                }
            }
            if occurs_as_flag(args, suffixes, n, text) {
                let i = choose|i: int|
                    0 <= i < n && is_flag(args, suffixes, i) && #[trigger] args[i] == text;
                if i < m {
                    assert(occurs_as_flag(args, suffixes, m, text));
                    assert(before.contains(text));
                    let k = choose|k: int| 0 <= k < before.len() && before[k] == text;
                    assert(now[k] == text);
                } else {
                    assert(now[now.len() - 1] == text);
                }
            }
        }
    } else {
        assert forall|text: Seq<char>| #[trigger]
            flags_among(args, suffixes, n).contains(text) <==> occurs_as_flag(
                args,
                suffixes,
                n,
                text,
            ) by {}
    }
}

/// The sources are the arguments in the role of a source file, each once.
pub proof fn lemma_sources_among(args: Seq<Seq<char>>, suffixes: Seq<Seq<char>>, n: nat)
    requires
        n <= args.len(),
    ensures
        sources_among(args, suffixes, n).len() <= n,
        sources_among(args, suffixes, n).no_duplicates(),
        forall|text: Seq<char>|
            #[trigger] sources_among(args, suffixes, n).contains(text) <==> occurs_as_source(
                args,
                suffixes,
                n,
                text,
            ),
    decreases n,
{
    if n > 0 {
        let m = (n - 1) as nat;
        let before = sources_among(args, suffixes, m);
        let now = sources_among(args, suffixes, n);
        lemma_sources_among(args, suffixes, m);
        let added = is_source(args, suffixes, n - 1) && !before.contains(args[n - 1]);
        assert forall|text: Seq<char>| #[trigger]
            now.contains(text) <==> occurs_as_source(args, suffixes, n, text) by {
            if now.contains(text) {
                let k = choose|k: int| 0 <= k < now.len() && now[k] == text;
                if k < before.len() {
                    assert(before[k] == text);
                    assert(before.contains(text));
                    let i = choose|i: int|
                        0 <= i < m && is_source(args, suffixes, i) && #[trigger] args[i] == text;
                    assert(0 <= i < n && is_source(args, suffixes, i) && args[i] == text);
                } else {
                    assert(is_source(args, suffixes, n - 1) && args[n - 1] == text);
                }
            }
            if occurs_as_source(args, suffixes, n, text) {
                let i = choose|i: int|
                    0 <= i < n && is_source(args, suffixes, i) && #[trigger] args[i] == text;
                if i < m {
                    assert(occurs_as_source(args, suffixes, m, text));
                    assert(before.contains(text));
                    let k = choose|k: int| 0 <= k < before.len() && before[k] == text;
                    assert(now[k] == text);
                } else if added {
                    assert(now[now.len() - 1] == text);
                } else {
                    assert(before.contains(text));
                    let k = choose|k: int| 0 <= k < before.len() && before[k] == text;
                    assert(now[k] == text);
                }
            }
        }
        if added {
            assert forall|a: int, b: int|
                0 <= a < now.len() && 0 <= b < now.len() && a != b implies now[a] != now[b] by {
                if a < before.len() && b < before.len() {
                    assert(now[a] == before[a] && now[b] == before[b]);
                } else if a < before.len() {
                    assert(now[a] == before[a]);
                    assert(before.contains(before[a]));
                } else {
                    assert(now[b] == before[b]);
                    assert(before.contains(before[b]));
                }
            }
        }
    } else {
        assert forall|text: Seq<char>| #[trigger]
            sources_among(args, suffixes, n).contains(text) <==> occurs_as_source(
                args,
                suffixes,
                n,
                text,
            ) by {}
    }
}

/// The output path is that of the last output pair, and there is none where
/// no argument is the path of an output option.
pub proof fn lemma_output_among(args: Seq<Seq<char>>, n: nat)
    requires
        n <= args.len(),
    ensures
        output_among(args, n) is None <==> forall|i: int| 0 <= i < n ==> !is_output_path(args, i),
        output_among(args, n) matches Some(path) ==> exists|i: int|
            #![trigger args[i]]
            0 <= i < n && is_output_path(args, i) && args[i] == path && forall|j: int|
                i < j < n ==> !is_output_path(args, j),
    decreases n,
{
    if n > 0 {
        lemma_output_among(args, (n - 1) as nat);
        if is_output_path(args, n - 1) {
            assert(output_among(args, n) == Some(args[n - 1]));
        } else if output_among(args, n) is Some {
            let path = output_among(args, n)->0;
            let i = choose|i: int|
                #![trigger args[i]]
                0 <= i < n - 1 && is_output_path(args, i) && args[i] == path && forall|j: int|
                    i < j < n - 1 ==> !is_output_path(args, j);
            assert(0 <= i < n && is_output_path(args, i) && args[i] == path && forall|j: int|
                i < j < n ==> !is_output_path(args, j));
        }
    }
}

/// Some flag asks to stop the pipeline at the stage. The link step, the last
/// stage, needs no asking.
pub open spec fn stops_at(flags: Seq<Seq<char>>, phase: CompilerPass) -> bool {
    match phase {
        CompilerPass::Preprocessor => flags.contains("-E"@),
        CompilerPass::Compilation => flags.contains("-c"@),
        CompilerPass::Assembly => flags.contains("-S"@),
        CompilerPass::Linking => true,
    }
}

/// Position of a stage in the pipeline, the earliest first.
pub open spec fn stage_rank(phase: CompilerPass) -> nat {
    match phase {
        CompilerPass::Preprocessor => 0,
        CompilerPass::Compilation => 1,
        CompilerPass::Assembly => 2,
        CompilerPass::Linking => 3,
    }
}

/// With a source file, the stage is the earliest one that a flag asks for:
/// some flag asks for it, and none asks for an earlier one.
pub proof fn lemma_earliest_stage_wins(
    flags: Seq<Seq<char>>,
    sources: Seq<Seq<char>>,
    other: CompilerPass,
)
    requires
        sources.len() > 0,
    ensures
        stops_at(flags, phase_of(flags, sources)),
        stops_at(flags, other) ==> stage_rank(phase_of(flags, sources)) <= stage_rank(other),
{
}

/// A recognised compiler run, before it is split by source file.
#[derive(Debug, PartialEq, Eq)]
pub struct Invocation {
    pub compiler: String,
    pub phase: CompilerPass,
    pub flags: Vec<String>,
    pub sources: Vec<String>,
    pub output: Option<String>,
    pub cwd: String,
}

/// What an `Invocation` holds, as mathematical values.
pub ghost struct InvocationView {
    pub compiler: Seq<char>,
    pub phase: CompilerPass,
    pub flags: Seq<Seq<char>>,
    pub sources: Seq<Seq<char>>,
    pub output: Option<Seq<char>>,
    pub cwd: Seq<char>,
}

impl InvocationView {
    /// The entry for the source file at `i`.
    pub open spec fn entry(self, i: int) -> CompilationView {
        CompilationView {
            compiler: self.compiler,
            phase: self.phase,
            flags: self.flags,
            source: self.sources[i],
            output: self.output,
            cwd: self.cwd,
        }
    }

    /// One entry per source file, in the order of the command line. They
    /// differ in the source file alone.
    pub open spec fn entries(self) -> Seq<CompilationView> {
        Seq::new(self.sources.len(), |i: int| self.entry(i))
    }
}

/// The entries of a compiler run differ in the source file alone, and where
/// no source file is named twice no two of them have the same key.
pub proof fn lemma_entries(run: InvocationView)
    ensures
        run.entries().len() == run.sources.len(),
        forall|i: int|
            0 <= i < run.sources.len() ==> {
                &&& (#[trigger] run.entries()[i]).source == run.sources[i]
                &&& run.entries()[i].compiler == run.compiler
                &&& run.entries()[i].phase == run.phase
                &&& run.entries()[i].flags == run.flags
                &&& run.entries()[i].output == run.output
                &&& run.entries()[i].cwd == run.cwd
            },
        run.sources.no_duplicates() ==> forall|a: int, b: int|
            0 <= a < b < run.sources.len() ==> (#[trigger] run.entries()[a]).key() != (
            #[trigger] run.entries()[b]).key(),
{
}

impl View for Invocation {
    type V = InvocationView;

    open spec fn view(&self) -> InvocationView {
        InvocationView {
            compiler: self.compiler@,
            phase: self.phase,
            flags: self.flags.deep_view(),
            sources: self.sources.deep_view(),
            output: self.output.deep_view(),
            cwd: self.cwd@,
        }
    }
}

impl Invocation {
    /// The compilation entries of the run: one per source file.
    pub fn entries(&self) -> (r: Vec<Compilation>)
        ensures
            r.deep_view() == self@.entries(),
    {
        let mut r: Vec<Compilation> = Vec::new();
        let mut i: usize = 0;
        while i < self.sources.len()
            invariant
                i <= self.sources.len(),
                r.len() == i,
                forall|k: int| 0 <= k < i ==> r[k]@ == self@.entry(k),
            decreases self.sources.len() - i,
        {
            r.push(
                Compilation {
                    compiler: self.compiler.clone(),
                    phase: self.phase,
                    flags: copy_texts(&self.flags),
                    source: self.sources[i].clone(),
                    output: copy_optional_text(&self.output),
                    cwd: self.cwd.clone(),
                },
            );
            i += 1;
        }
        r
    }
}

/// Which programs count as compilers and which files as sources.
#[derive(Debug, PartialEq, Eq)]
pub struct Classifier {
    /// The names of the known compilers, without directories.
    pub compilers: Vec<String>,
    /// The endings of source file names.
    pub suffixes: Vec<String>,
}

/// What a `Classifier` holds, as mathematical values.
pub ghost struct ClassifierView {
    pub compilers: Seq<Seq<char>>,
    pub suffixes: Seq<Seq<char>>,
}

impl View for Classifier {
    type V = ClassifierView;

    open spec fn view(&self) -> ClassifierView {
        ClassifierView {
            compilers: self.compilers.deep_view(),
            suffixes: self.suffixes.deep_view(),
        }
    }
}

impl ClassifierView {
    /// The program is a known compiler: its name without the directory is on the list.
    pub open spec fn recognises(self, program: Seq<char>) -> bool {
        self.compilers.contains(base_name(program))
    }

    /// The compiler run that a record describes, if it describes one: the
    /// program is a known compiler and every output option names a path.
    pub open spec fn invocation(self, trace: TraceView) -> Option<InvocationView> {
        if trace.cmd.len() == 0 {
            None
        } else {
            let args = trace.cmd.drop_first();
            if !self.recognises(trace.cmd[0]) || dangling_output(args) {
                None
            } else {
                let flags = flags_among(args, self.suffixes, args.len());
                let sources = sources_among(args, self.suffixes, args.len());
                Some(
                    InvocationView {
                        compiler: trace.cmd[0],
                        phase: phase_of(flags, sources),
                        flags,
                        sources,
                        output: output_among(args, args.len()),
                        cwd: trace.cwd,
                    },
                )
            }
        }
    }

    /// The compilation entries that a record gives: none where it is no
    /// compiler run, else one per source file.
    pub open spec fn classify(self, trace: TraceView) -> Seq<CompilationView> {
        match self.invocation(trace) {
            Some(run) => run.entries(),
            None => Seq::empty(),
        }
    }
}

/// What is read from a record as a compiler run: the program and the
/// directory are the record's own, the flags and the source files are the
/// arguments in those roles, no source file is named twice, and so no two
/// entries of the run have the same key.
pub proof fn lemma_invocation(classifier: ClassifierView, trace: TraceView)
    ensures
        classifier.invocation(trace) matches Some(run) ==> {
            let args = trace.cmd.drop_first();
            &&& run.compiler == trace.cmd[0]
            &&& run.cwd == trace.cwd
            &&& run.sources.no_duplicates()
            &&& forall|text: Seq<char>| #[trigger]
                run.flags.contains(text) <==> occurs_as_flag(
                    args,
                    classifier.suffixes,
                    args.len(),
                    text,
                )
            &&& forall|text: Seq<char>| #[trigger]
                run.sources.contains(text) <==> occurs_as_source(
                    args,
                    classifier.suffixes,
                    args.len(),
                    text,
                )
            &&& forall|a: int, b: int|
                0 <= a < b < run.entries().len() ==> (#[trigger] run.entries()[a]).key() != (
                #[trigger] run.entries()[b]).key()
        },
{
    if classifier.invocation(trace) is Some {
        let run = classifier.invocation(trace)->0;
        let args = trace.cmd.drop_first();
        lemma_flags_among(args, classifier.suffixes, args.len());
        lemma_sources_among(args, classifier.suffixes, args.len());
        lemma_entries(run);
    }
}

/// The names of the compilers that are known without configuration.
pub open spec fn default_compilers() -> Seq<Seq<char>> {
    seq!["cc"@, "c++"@, "gcc"@, "g++"@, "clang"@, "clang++"@, "ld"@]
}

/// The source file endings that are known without configuration.
pub open spec fn default_suffixes() -> Seq<Seq<char>> {
    seq![".c"@, ".cc"@, ".cpp"@, ".cxx"@, ".c++"@, ".C"@, ".m"@, ".mm"@, ".s"@, ".S"@]
}

/// The stage at which the flags stop the pipeline.
pub fn phase_from(flags: &Vec<String>, sources: &Vec<String>) -> (r: CompilerPass)
    ensures
        r == phase_of(flags.deep_view(), sources.deep_view()),
{
    if sources.len() == 0 {
        CompilerPass::Linking
    } else if contains_text(flags, "-E") {
        CompilerPass::Preprocessor
    } else if contains_text(flags, "-c") {
        CompilerPass::Compilation
    } else if contains_text(flags, "-S") {
        CompilerPass::Assembly
    } else {
        CompilerPass::Linking
    }
}

impl Classifier {
    /// The classifier with the usual compiler names and source file endings.
    pub fn new() -> (r: Classifier)
        ensures
            r@.compilers == default_compilers(),
            r@.suffixes == default_suffixes(),
    {
        let mut compilers: Vec<String> = Vec::new();
        push_text(&mut compilers, String::from_str("cc"));
        push_text(&mut compilers, String::from_str("c++"));
        push_text(&mut compilers, String::from_str("gcc"));
        push_text(&mut compilers, String::from_str("g++"));
        push_text(&mut compilers, String::from_str("clang"));
        push_text(&mut compilers, String::from_str("clang++"));
        push_text(&mut compilers, String::from_str("ld"));
        let mut suffixes: Vec<String> = Vec::new();
        push_text(&mut suffixes, String::from_str(".c"));
        push_text(&mut suffixes, String::from_str(".cc"));
        push_text(&mut suffixes, String::from_str(".cpp"));
        push_text(&mut suffixes, String::from_str(".cxx"));
        push_text(&mut suffixes, String::from_str(".c++"));
        push_text(&mut suffixes, String::from_str(".C"));
        push_text(&mut suffixes, String::from_str(".m"));
        push_text(&mut suffixes, String::from_str(".mm"));
        push_text(&mut suffixes, String::from_str(".s"));
        push_text(&mut suffixes, String::from_str(".S"));
        Classifier { compilers, suffixes }
    }

    /// Whether the program is a known compiler.
    pub fn recognises(&self, program: &str) -> (r: bool)
        ensures
            r == self@.recognises(program@),
    {
        let name = file_name(program);
        contains_text(&self.compilers, name.as_str())
    }

    /// Whether the token names a source file.
    pub fn is_source_name(&self, token: &str) -> (r: bool)
        ensures
            r == looks_like_source(token@, self@.suffixes),
    {
        !begins_with(token, '-') && ends_with_any(token, &self.suffixes)
    }

    /// Reads a record as a compiler run. There is none where the program is
    /// not a known compiler or the command line cannot be read.
    pub fn invocation(&self, trace: &Trace) -> (r: Option<Invocation>)
        ensures
            r.is_some() == self@.invocation(trace@).is_some(),
            r matches Some(run) ==> run@ == self@.invocation(trace@).unwrap(),
    {
        if trace.cmd.len() == 0 {
            return None;
        }
        if !self.recognises(trace.cmd[0].as_str()) {
            return None;
        }
        let ghost args = trace@.cmd.drop_first();
        let ghost suffixes = self@.suffixes;
        let n: usize = trace.cmd.len() - 1;
        let mut flags: Vec<String> = Vec::new();
        let mut sources: Vec<String> = Vec::new();
        let mut output: Option<String> = None;
        let mut i: usize = 0;
        while i < n
            invariant
                i <= n,
                n == trace.cmd.len() - 1,
                n == args.len(),
                args == trace@.cmd.drop_first(),
                suffixes == self@.suffixes,
                !is_output_path(args, i as int),
                i > 0 ==> !is_output_flag(args, i - 1),
                flags.deep_view() == flags_among(args, suffixes, i as nat),
                sources.deep_view() == sources_among(args, suffixes, i as nat),
                output.deep_view() == output_among(args, i as nat),
            decreases n - i,
        {
            assert(args[i as int] == trace.cmd[i + 1]@);
            let token: &String = &trace.cmd[i + 1];
            if same_text(token.as_str(), "-o") {
                if i + 1 >= n {
                    return None;
                }
                // The option and its path add no flag and no source file.
                assert(args[i + 1] == trace.cmd[i + 2]@);
                assert(flags_among(args, suffixes, (i + 1) as nat) == flags_among(
                    args,
                    suffixes,
                    i as nat,
                ));
                assert(sources_among(args, suffixes, (i + 1) as nat) == sources_among(
                    args,
                    suffixes,
                    i as nat,
                ));
                output = Some(trace.cmd[i + 2].clone());
                i += 2;
            } else {
                if self.is_source_name(token.as_str()) {
                    if !contains_text(&sources, token.as_str()) {
                        push_text(&mut sources, token.clone());
                    }
                } else {
                    push_text(&mut flags, token.clone());
                }
                i += 1;
            }
        }
        let phase = phase_from(&flags, &sources);
        Some(
            Invocation {
                compiler: trace.cmd[0].clone(),
                phase,
                flags,
                sources,
                output,
                cwd: trace.cwd.clone(),
            },
        )
    }

    /// The compilation entries that a record gives: none where it is no
    /// compiler run, else one per source file.
    pub fn classify(&self, trace: &Trace) -> (r: Vec<Compilation>)
        ensures
            r.deep_view() == self@.classify(trace@),
    {
        match self.invocation(trace) {
            Some(run) => run.entries(),
            None => Vec::new(),
        }
    }
}

} // verus!
