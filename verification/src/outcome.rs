//! The result of an operation as the specifications see it: a value, a
//! rejection with a message, or an input on which the operation would panic.
use vstd::prelude::*;

verus! {

/// What an operation does on given inputs.
pub enum Outcome<T> {
    /// It returns `Ok` with this value.
    Val(T),
    /// It returns `Err` with this message.
    Rejected(&'static str),
    /// It panics (or does not return) on these inputs.
    Panics,
}

/// `r` is what the operation returns when its outcome is `o`.
pub open spec fn agrees<T>(r: Result<T, &'static str>, o: Outcome<T>) -> bool {
    match o {
        Outcome::Val(v) => r == Ok::<T, &'static str>(v),
        Outcome::Rejected(m) => r == Err::<T, &'static str>(m),
        Outcome::Panics => false,
    }
}

} // verus!
