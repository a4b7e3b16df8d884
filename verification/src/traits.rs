//! Traits that define common behaviours across the system.

use vstd::prelude::*;

verus! {

/// A capability: the implementing value can be executed to produce a result
/// of type `R`.
///
/// `wf` says when the value may be executed; `post` relates the value to the
/// results its execution can produce.
pub trait Executable<R> {
    /// Whether this value is ready to be executed.
    spec fn wf(&self) -> bool;

    /// Whether `out` is a possible result of executing this value.
    spec fn post(&self, out: R) -> bool;

    /// Execute the implementing value and produce a result of type `R`.
    fn execute(&self) -> (out: R)
        requires
            self.wf(),
        ensures
            self.post(out),
    ;
}

/// Content that a graph node can carry: it has a flat identifier, declares
/// the identifiers it depends on, and can be executed to produce an output.
pub trait NodeContent {
    /// The type of output produced when this content is executed.
    type Output;

    /// The flat identifier, as a sequence of characters.
    spec fn spec_id(&self) -> Seq<char>;

    /// The declared dependency identifiers, as sequences of characters.
    spec fn spec_dep_ids(&self) -> Seq<Seq<char>>;

    /// Whether this content is ready to be executed.
    spec fn wf(&self) -> bool;

    /// Whether `out` is a possible output of executing this content.
    spec fn post(&self, out: Self::Output) -> bool;

    /// Returns a unique identifier for this content.
    fn id(&self) -> (r: String)
        ensures
            r@ == self.spec_id(),
    ;

    /// Returns a list of dependencies by their identifiers.
    fn dependencies(&self) -> (r: Vec<String>)
        ensures
            r.deep_view() == self.spec_dep_ids(),
    ;

    /// Execute this content and produce its output.
    fn execute(&self) -> (out: Self::Output)
        requires
            self.wf(),
        ensures
            self.post(out),
    ;
}

} // verus!
