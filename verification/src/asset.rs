//! A minimal named unit of work: a key, a description and a compute function.

use vstd::prelude::*;

use crate::traits::Executable;

verus! {

/// A named unit of work carrying a compute function.
#[verifier::reject_recursive_types(R)]
pub struct Asset<F, R> where F: Fn() -> R {
    pub name: String,
    pub key: Vec<String>,
    pub description: String,
    pub func: F,
}

impl<F, R> Asset<F, R> where F: Fn() -> R {
    pub fn new(name: String, key: Vec<String>, description: String, func: F) -> (r: Self)
        ensures
            r.name == name,
            r.key == key,
            r.description == description,
            r.func == func,
    {
        Asset { name, key, description, func }
    }
}

impl<F, R> Executable<R> for Asset<F, R> where F: Fn() -> R {
    /// The asset may be executed when its compute function may be called.
    open spec fn wf(&self) -> bool {
        call_requires(self.func, ())
    }

    /// An output is possible exactly when the compute function can return it.
    open spec fn post(&self, out: R) -> bool {
        call_ensures(self.func, (), out)
    }

    fn execute(&self) -> (out: R) {
        (self.func)()
    }
}

} // verus!
