//! Where the compiler hands a program over.
use crate::constraining::Constraining;
use crate::program::{globals_labeled, Program};
use vstd::prelude::*;

verus! {

/// Whether the compiler goes on.
#[derive(Clone, Copy, Debug, PartialEq, Eq, Structural)]
pub enum Compilation {
    Stop,
    Continue,
}

/// What the compiler calls.
pub struct AnalysisCallbacks;

impl AnalysisCallbacks {
    /// Called when all macros are expanded: the analysis of the program begins, and the compiler
    /// goes on after it.
    pub fn after_expansion<D, E, C, R>(&mut self, program: Program) -> (r: (
        Constraining<D, E, C, R>,
        Compilation,
    ))
        requires
            program.wf(),
        ensures
            r.0.wf(),
            r.0.a.program == program,
            globals_labeled(program, r.0.a.gacx),
            r.0.a.infos@.len() == 0,
            !r.0.pending.is_set(),
            r.1 is Continue,
    {
        (Constraining::start(program), Compilation::Continue)
    }
}

} // verus!
