//! The lock: the dependencies a resolution started from and those it gave.

use crate::config::{clone_dependency_list, same_dependencies, Dependency, DependencyView};
use vstd::prelude::*;

verus! {

/// The dependencies a resolution started from and those it gave.
#[allow(non_snake_case)]
#[derive(Debug, PartialEq, Eq)]
pub struct Lock {
    pub inputDeps: Vec<Dependency>,
    pub lockedDeps: Vec<Dependency>,
}

/// What a `Lock` stands for.
#[verifier::ext_equal]
pub struct LockView {
    pub input: Seq<DependencyView>,
    pub locked: Seq<DependencyView>,
}

impl DeepView for Lock {
    type V = LockView;

    open spec fn deep_view(&self) -> LockView {
        LockView { input: self.inputDeps.deep_view(), locked: self.lockedDeps.deep_view() }
    }
}

impl Lock {
    /// Whether the lock was made for the dependencies `deps`: the same ones in
    /// the same order.
    pub fn is_current(&self, deps: &Vec<Dependency>) -> (yes: bool)
        ensures
            yes == (self.deep_view().input == deps.deep_view()),
    {
        same_dependencies(&self.inputDeps, deps)
    }
}

/// The lock for a resolution that started from `input_deps` and gave
/// `locked_deps`.
pub fn lock_file(input_deps: &Vec<Dependency>, locked_deps: &Vec<Dependency>) -> (out: Lock)
    ensures
        out.deep_view() == (LockView {
            input: input_deps.deep_view(),
            locked: locked_deps.deep_view(),
        }),
{
    Lock {
        inputDeps: clone_dependency_list(input_deps),
        lockedDeps: clone_dependency_list(locked_deps),
    }
}

} // verus!
