//! The authorization-plugin boundary: holds a compiled policy module for the
//! policy engine, which runs outside this library.

use vstd::prelude::*;

verus! {

/// The factory's error type.
#[derive(Debug)]
pub enum Error {
    /// Reserved for policy-engine failures; never produced by this library,
    /// since wrapping already-compiled policy bytes cannot fail.
    Policy,
}

/// A factory holding one compiled policy module as plain bytes; the policy
/// engine consumes the bytes to build the running authorizer.
pub struct MakeOpaAuthorizer {
    module: Vec<u8>,
}

impl MakeOpaAuthorizer {
    pub closed spec fn module_view(&self) -> Seq<u8> {
        self.module@
    }

    /// Wraps compiled policy bytes.
    pub fn from_bytes(bytes: Vec<u8>) -> (r: Result<MakeOpaAuthorizer, Error>)
        ensures
            r matches Result::Ok(m) && m.module_view() == bytes@,
    {
        let auth = Self { module: bytes };
        Result::Ok(auth)
    }

    /// Releases the module bytes to the policy engine.
    pub fn into_module(self) -> (r: Vec<u8>)
        ensures
            r@ == self.module_view(),
    {
        self.module
    }
}

} // verus!
