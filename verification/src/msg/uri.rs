//! The address that a request is sent to.

use vstd::prelude::*;

verus! {

/// `Request-URI = SIP-URI / SIPS-URI / absoluteURI`, by its kind.
pub enum Uri {
    Absolute(),
    Sip(),
    Sips(),
}

} // verus!
