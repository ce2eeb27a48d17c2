use vstd::prelude::*;

verus! {

/// How the connection to the mail relay is protected: not at all, or
/// upgraded in place after the initial exchange.
#[derive(Debug, Clone, Copy, PartialEq, Eq, Structural)]
pub enum TransportSecurity {
    Plain,
    StartTls,
}

} // verus!
