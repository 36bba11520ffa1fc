use vstd::prelude::*;

verus! {

/// The three request-aborting error kinds.
///
/// Each aborts a request before any connection attempt is made; per-port
/// connection failures are never errors, they are recorded as closed
/// port outcomes.
#[derive(Clone, Copy, Debug, PartialEq, Eq, Structural)]
pub enum ScanError {
    /// No address could be produced for the target, or an address block
    /// was malformed.
    ResolutionError,
    /// A port specification held a malformed token, an inverted range,
    /// or an out-of-range port number.
    PortParseError,
    /// A configuration parameter was outside its allowed bound.
    ConfigError,
}

} // verus!
