//! A value that is either held or produced on demand by a closure.
use vstd::prelude::*;

verus! {

/// A value that is either stored, or produced by a closure each time it is
/// asked for.
#[verifier::reject_recursive_types(T)]
pub enum StaticOrClosure<T: Clone, F: Fn() -> T> {
    /// A stored value.
    Static(T),
    /// A closure that produces the value.
    Closure(F),
}

impl<T: Clone, F: Fn() -> T> StaticOrClosure<T, F> {
    /// Returns the value: a clone of the stored one, or a clone of what the
    /// closure returns.
    pub fn get(&self) -> (r: T)
        requires
            self is Closure ==> self->Closure_0.requires(()),
        ensures
            self is Static ==> cloned(self->Static_0, r),
            self is Closure ==> exists|v: T| self->Closure_0.ensures((), v) && cloned(v, r),
    {
        match self {
            StaticOrClosure::Static(value) => value.clone(),
            StaticOrClosure::Closure(closure) => {
                let v = (*closure)();
                let r = v.clone();
                assert(closure.ensures((), v) && cloned(v, r));
                r
            },
        }
    }
}

impl<T: Clone + Default, F: Fn() -> T> Default for StaticOrClosure<T, F> {
    /// A stored default value.
    fn default() -> (r: Self)
        ensures
            r is Static,
            call_ensures(T::default, (), r->Static_0),
    {
        StaticOrClosure::Static(T::default())
    }
}

} // verus!
