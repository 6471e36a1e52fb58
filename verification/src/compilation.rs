use vstd::prelude::*;
use crate::text::{copy_optional_text, copy_texts, push_text};

verus! {

/// The furthest stage of the compiler pipeline that an invocation performs.
#[derive(Clone, Copy, Debug, PartialEq, Eq, Structural)]
pub enum CompilerPass {
    Preprocessor,
    Compilation,
    Assembly,
    Linking,
}

/// One compile step: a compiler run on a single source file.
#[derive(Debug, PartialEq, Eq)]
pub struct Compilation {
    pub compiler: String,
    pub phase: CompilerPass,
    pub flags: Vec<String>,
    pub source: String,
    pub output: Option<String>,
    pub cwd: String,
}

/// What a `Compilation` holds, as mathematical values.
pub ghost struct CompilationView {
    pub compiler: Seq<char>,
    pub phase: CompilerPass,
    pub flags: Seq<Seq<char>>,
    pub source: Seq<char>,
    pub output: Option<Seq<char>>,
    pub cwd: Seq<char>,
}

impl CompilationView {
    /// What identifies an entry in a compilation database: its source file
    /// and the directory the compiler ran in.
    pub open spec fn key(self) -> (Seq<char>, Seq<char>) {
        (self.source, self.cwd)
    }

    /// The command line that repeats the step: the compiler, the flags, then
    /// the source file.
    pub open spec fn arguments(self) -> Seq<Seq<char>> {
        seq![self.compiler] + self.flags + seq![self.source]
    }
}

impl View for Compilation {
    type V = CompilationView;

    open spec fn view(&self) -> CompilationView {
        CompilationView {
            compiler: self.compiler@,
            phase: self.phase,
            flags: self.flags.deep_view(),
            source: self.source@,
            output: self.output.deep_view(),
            cwd: self.cwd@,
        }
    }
}

impl DeepView for Compilation {
    type V = CompilationView;

    open spec fn deep_view(&self) -> CompilationView {
        self@
    }
}

impl Compilation {
    /// A copy of the entry.
    pub fn duplicate(&self) -> (r: Compilation)
        ensures
            r@ == self@,
    {
        Compilation {
            compiler: self.compiler.clone(),
            phase: self.phase,
            flags: copy_texts(&self.flags),
            source: self.source.clone(),
            output: copy_optional_text(&self.output),
            cwd: self.cwd.clone(),
        }
    }

    /// The command line that repeats the step: the compiler, the flags, then
    /// the source file.
    pub fn arguments(&self) -> (r: Vec<String>)
        ensures
            r.deep_view() == self@.arguments(),
    {
        let mut r: Vec<String> = Vec::new();
        push_text(&mut r, self.compiler.clone());
        let mut i: usize = 0;
        while i < self.flags.len()
            invariant
                i <= self.flags.len(),
                r.deep_view() == seq![self.compiler@] + self.flags.deep_view().subrange(
                    0,
                    i as int,
                ),
            decreases self.flags.len() - i,
        {
            assert(self.flags.deep_view().subrange(0, i + 1) =~= self.flags.deep_view().subrange(
                0,
                i as int,
            ).push(self.flags[i as int]@));
            push_text(&mut r, self.flags[i].clone());
            i += 1;
        }
        push_text(&mut r, self.source.clone());
        r
    }

    /// Whether both entries describe the same source file in the same directory.
    pub fn same_key(&self, other: &Compilation) -> (r: bool)
        ensures
            r == (self@.key() == other@.key()),
    {
        self.source == other.source && self.cwd == other.cwd
    }
}

} // verus!
